//! A Kademlia distributed hash table node: 160-bit ids and XOR distance,
//! k-bucket routing, a local store with expiry, the binary wire format of
//! its messages, and the decisions of store, find, bootstrap and
//! maintenance. Sockets and timers are left to the caller.
pub mod bytes;
pub mod config;
pub mod health;
pub mod helpers;
pub mod kbucket;
pub mod metrics;
pub mod node;
pub mod node_id;
pub mod peer;
pub mod pool;
pub mod routing;
pub mod rpc;
pub mod storage;
pub mod wire;
