//! What the web UI shows and how its answers are shaped.

pub mod dashboard;
