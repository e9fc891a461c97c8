//! Key to IP address look-up: each node's public key is mapped to a location
//! in an n-dimensional key space, nodes keep the nodes closest to them in key
//! space as neighbours, and look-ups are greedy best-first searches through
//! the neighbour graph, where the metric is distance in key space.

pub mod api;
pub mod cert;
pub mod codec;
pub mod error;
pub mod gc;
pub mod graph;
pub mod key_space;
pub mod local_address;
pub mod message;
pub mod neighbours;
pub mod search;
