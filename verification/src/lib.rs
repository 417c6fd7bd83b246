//! The core of a Kademlia-style distributed hash table node: identifiers and
//! the XOR metric, the k-bucket routing table, the lookup frontier, request
//! correlation, the two-tier value store, and the node's own transitions.
//!
//! Everything here is a function from plain values to plain values. Sockets,
//! clocks and background tasks live with the caller, which feeds events in
//! and carries the resulting actions out.

pub mod clock;
pub mod closest_nodes_iter;
pub mod codec;
pub mod id;
pub mod kademlia;
pub mod kbuckets;
pub mod lookup;
pub mod message;
pub mod nearest;
pub mod node;
pub mod probe;
pub mod seqs;
pub mod server;
pub mod storage;
pub mod values;
