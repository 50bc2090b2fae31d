//! The error value that RPC operations surface to callers.
use vstd::prelude::*;

verus! {

/// An RPC-level failure. The message travels on the wire as the payload of a
/// response frame with `ok == 0`, so it is kept as raw bytes: the receiving
/// side cannot assume the peer sent well-formed UTF-8.
#[derive(Debug, Clone, PartialEq, Eq)]
pub struct RpcError {
    pub msg: Vec<u8>,
}

impl RpcError {
    /// The error message as a byte sequence.
    pub open spec fn view(&self) -> Seq<u8> {
        self.msg@
    }

    /// Wrap raw message bytes as an error.
    pub fn from_bytes(msg: Vec<u8>) -> (r: RpcError)
        ensures
            r@ == msg@,
    {
        RpcError { msg }
    }

    /// The message bytes of this error.
    pub fn message(&self) -> (r: &Vec<u8>)
        ensures
            r@ == self@,
    {
        &self.msg
    }
}

} // verus!
