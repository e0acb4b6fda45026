//! The shell around a core: clocks, channels, sessions and the turns of its loops.
pub mod channels;
pub mod clock;
pub mod connections;
pub mod promises;
pub mod runtime;
