//! The tunnel: sessions between endpoints over sealed datagrams.
pub mod connections;
pub mod counter;
pub mod inbox;
pub mod packet;
pub mod promises;
pub mod session;
pub mod settings;
pub mod socket;
pub mod updater;
