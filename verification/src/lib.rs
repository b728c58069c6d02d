//! A replicated key-value store core: the durable log of proposed commands,
//! the node's vote, and the deterministic state machine that turns committed
//! log entries into key-value mutations.

pub mod codec;
pub mod command;
pub mod facade;
pub mod json;
pub mod log;
pub mod snapshot;
pub mod store;
pub mod table;
pub mod types;
