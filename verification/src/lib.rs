//! Single-decree Paxos: durable acceptors, a quorum-driving proposer and the
//! safety argument that ties them together, next to a handful of
//! self-contained data structures and algorithms.

pub mod bfprt;
pub mod btree;
pub mod buf;
pub mod classic;
pub mod datrie;
pub mod decimal;
pub mod graph;
pub mod history;
pub mod lsm;
pub mod memfs;
pub mod proto;
pub mod quorum;
pub mod rand;
pub mod ring;
pub mod safety;
pub mod sort;
