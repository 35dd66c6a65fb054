//! The core of a Kademlia-style node: XOR distance, a bounded routing table,
//! an iterative closest-peers query, a provider store, and the decisions of
//! the node's event loop. Networking is left to the caller.

pub mod distance;
pub mod routing;
pub mod query;
pub mod provider;
pub mod node;
pub mod keys;
