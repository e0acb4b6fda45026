//! The KCP automatic repeat request protocol with 64 bit conversation ids.
pub mod answers;
pub mod arrival;
pub mod control;
pub mod delivery;
pub mod error;
pub mod flushing;
pub mod laws;
pub mod model;
pub mod resend;

pub use control::{get_conv, Kcp, KcpParams, KcpResult, KcpTiming, KCP_OVERHEAD};
pub use error::Error;
