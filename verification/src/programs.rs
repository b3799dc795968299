//! The rules of each program: its settings, its counters and its verdict.

pub mod baseline;
pub mod concurrent;
pub mod gossip;
pub mod handshake;
pub mod large_message;
pub mod reconnect;
pub mod soak;
pub mod wan_client;
pub mod wan_server;
pub mod wan_stability;
