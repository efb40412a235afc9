//! A small Raft-replicated key-value store: the log, the in-memory state
//! machine, the messages exchanged between nodes and the decisions a node
//! takes when it receives them.

pub mod common;
pub mod log;
pub mod storage;
pub mod net;
pub mod node;
