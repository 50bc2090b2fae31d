//! The client-side carrier of a single request/response exchange.
use vstd::prelude::*;

use crate::frame::Frame;

verus! {

/// Carries one request frame to its destination and produces the response
/// frame destined to the request's id. Implementations perform the actual
/// I/O (or loop reading frames until the id matches), so nothing can be
/// promised of the frame they return; the client stub interprets whatever
/// comes back. The server side does not need this.
pub trait Transport {
    /// Exchange one request frame for one response frame.
    fn transport(&mut self, frame: Frame) -> Frame;
}

} // verus!
