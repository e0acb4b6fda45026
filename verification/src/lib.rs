//! Verified building blocks of the RayNet overlay: the KCP session transport, the
//! authenticated envelope and message formats, replay protection, route planning
//! and the endpoint and relay state machines that combine them.
pub mod config;
pub mod crypto;
pub mod endpoint;
pub mod entropy;
pub mod hop;
pub mod kcp;
pub mod layout;
pub mod limits;
pub mod machine;
pub mod octets;
pub mod ordered;
pub mod packet;
pub mod planning;
pub mod probe;
pub mod proxy;
pub mod random;
pub mod relay;
pub mod routing;
pub mod sealing;
pub mod sequence;
pub mod shell;
pub mod sim;
pub mod text;
pub mod tunnel;
pub mod wire;
