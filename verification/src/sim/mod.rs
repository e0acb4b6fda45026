//! A network in virtual time, for experiments with cores: links with latency, bandwidth and
//! loss, the nodes on them, and a shell that runs the nodes.
pub mod link;
pub mod network;
pub mod node;
pub mod promises;
pub mod run;
pub mod setup;
pub mod shell;
pub mod turns;
