//! Dual-transport world synchronisation for a chunk-partitioned 2D world:
//! the chunk graph, the wire codec, sequence and loss accounting, the session
//! registry and the message handling of both peers, with machine-checked
//! contracts.

pub mod channel;
pub mod chunk;
pub mod codec;
pub mod config;
pub mod direction;
pub mod field;
pub mod game;
pub mod generate;
pub mod model;
pub mod movement;
pub mod protocol;
pub mod retriever;
pub mod server;
pub mod session;
pub mod udp_stat;
pub mod wire;
