//! Wire messages.

pub mod paxos;
