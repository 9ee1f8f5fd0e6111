//! Cortex: a cognitive memory library for agents, with verified contracts.

pub mod agents;
pub mod checkpoint;
pub mod ids;
pub mod keyed;
pub mod json;
pub mod memory;
pub mod scheduler;
pub mod secrets;
pub mod security;
pub mod server;
pub mod tasks;
pub mod text;
pub mod ui;
