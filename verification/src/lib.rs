//! Peer-frontier pruning engine: decides, under connection-count pressure,
//! which neighbor connections to close so that the connection table stays
//! within its configured soft limits while preserving network diversity.

pub mod types;
pub mod uptime;
pub mod sorts;
pub mod sampler;
pub mod peerdb;
pub mod telemetry;
pub mod network;
pub mod distribution;
pub mod inbound;
pub mod outbound;
