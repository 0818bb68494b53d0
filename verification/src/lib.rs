//! A hierarchical broadcast bus: a fixed tree of relay nodes fans any
//! client's message out to every connected client, with dynamic leaf
//! membership and pruning of members that can no longer be reached.
//!
//! The tree aggregates inbound text from any leaf session upward to a
//! single root and broadcasts it back down to every leaf. Each actor owns
//! its state exclusively and is driven by a bounded mailbox; a member
//! whose mailbox refuses a delivery is pruned from its parent's
//! membership set on that very attempt.

pub mod balancer;
pub mod channel;
pub mod connection;
pub mod mailbox;
pub mod topology;
