//! Hop by hop packets: envelopes with explicit lengths, sealed under a coarse clock.
pub mod endpoint;
pub mod formats;
pub mod machine;
pub mod nonce;
pub mod packet;
pub mod promises;
pub mod wire;
