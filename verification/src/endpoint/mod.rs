//! The endpoint state machine: sessions over KCP, carried in encrypted messages along
//! planned routes.
pub mod arrivals;
pub mod driver;
pub mod guarantees;
pub mod laws;
pub mod model;
pub mod polling;
pub mod promises;
pub mod replay;
pub mod sampling;
pub mod session;
pub mod setup;

pub use driver::{EndpointConfig, EndpointCore, KcpConfig};
