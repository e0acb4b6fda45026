//! Errors of the KCP protocol.
use vstd::prelude::*;

verus! {

/// KCP protocol errors
#[derive(Debug, Clone, Copy, PartialEq, Eq, Structural)]
pub enum Error {
    ConvInconsistent,
    InvalidSegmentSize,
    InvalidSegmentDataSize,
    NeedUpdate,
    RecvQueueEmpty,
    ExpectingFragment,
    UnsupportedCmd,
    UserBufTooBig,
    UserBufTooSmall,
}

} // verus!
