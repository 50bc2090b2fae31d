//! Markers for the payload codec capability.
//!
//! The payload codec — encode a typed value to bytes, decode bytes back
//! to a typed value — is an external collaborator: the frame and stub
//! layers treat payloads as raw bytes and never depend on which codec is
//! in use. Client and server on one connection must still agree on one,
//! so these zero-sized types name the two standard realizations; the
//! serializer bindings live with the I/O layer around this library.
use vstd::prelude::*;

verus! {

/// Names the JSON realization of the payload codec.
#[derive(Debug, Clone, Copy)]
pub struct JsonCodec {}

impl Default for JsonCodec {
    /// The codec carries no state.
    fn default() -> (r: Self)
        ensures
            r == (JsonCodec {  }),
    {
        JsonCodec {  }
    }
}

/// Names the compact binary realization of the payload codec, the
/// preferred default: fixed-width little-endian integers.
#[derive(Debug, Clone, Copy)]
pub struct BinCodec {}

impl Default for BinCodec {
    /// The codec carries no state.
    fn default() -> (r: Self)
        ensures
            r == (BinCodec {  }),
    {
        BinCodec {  }
    }
}

} // verus!
