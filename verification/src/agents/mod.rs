//! Agents: the actor that answers queries from retrieved memory.

pub mod system3;
pub mod temporal;
