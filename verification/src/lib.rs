//! A Kademlia-style distributed hash table: addresses, peers, k-buckets, the routing table and
//! the protocol engine that keeps the table alive.

pub mod address;
pub mod client;
pub mod hex;
pub mod messages;
pub mod network;
pub mod node;
pub mod node_bucket;
pub mod numeric;
pub mod routing_table;
pub mod timestamp;
pub mod transaction;
