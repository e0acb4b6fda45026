//! Proxies: how local connections become sessions.
pub mod message;
pub mod socks5;
