//! Sharded gossip: the round state machine that keeps peers' DHT data in sync,
//! with its bloom codec, per-peer metrics and initiation policy.
pub mod arc;
pub mod bloom;
pub mod cert;
pub mod codec;
pub mod event;
pub mod gossip;
pub mod metrics;
pub mod round;
pub mod types;
pub mod wire;
