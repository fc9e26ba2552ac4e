//! A replicated log in the style of Raft: log entries, their storage, the
//! messages nodes exchange, and the replication state machine that decides
//! how a node answers them. Every function here is verified by Verus; the
//! program around it (sockets, files, timers, the command line) lives apart.

pub mod log_entry;
pub mod storage;
pub mod network;
pub mod peer_table;
pub mod replication;
pub mod laws;
