//! What a proxy and the endpoint say to each other about a session.
use vstd::prelude::*;

use crate::machine::CloseReason;

verus! {

#[derive(Debug, Clone, PartialEq, Eq)]
pub enum ProxyMessage {
    /// Bytes of the session; no bytes mean that this direction has ended.
    Write(Vec<u8>),
    Close(CloseReason),
}

} // verus!
