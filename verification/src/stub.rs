//! The client and server stubs.
//!
//! The client stub packs a method name and encoded argument bytes into a
//! request frame, assigns it a request id, and interprets the response
//! frame that comes back. The server stub splits a request payload into
//! method name and argument bytes, dispatches to the registered handler,
//! and builds the response frame.
use vstd::prelude::*;
use vstd::slice::slice_to_vec;
use vstd::string::StringSliceAdditionalSpecFns;

use crate::errors::RpcError;
use crate::frame::Frame;
use crate::server::{HandlerRegistry, Stub};
use crate::transport::Transport;

verus! {

/// The byte that separates the method name from the argument bytes in a
/// request payload.
pub const METHOD_SEPARATOR: u8 = 10;

/// The request id that follows `cur`: the counter advances by one and
/// wraps from the maximum 64-bit value to zero.
pub open spec fn spec_next_id(cur: u64) -> u64 {
    if cur == u64::MAX {
        0
    } else {
        (cur + 1) as u64
    }
}

/// Consecutive request ids strictly increase until the counter wraps from
/// the maximum value to zero.
pub proof fn lemma_id_monotonic(cur: u64)
    ensures
        cur < u64::MAX ==> spec_next_id(cur) == cur + 1 && spec_next_id(cur) > cur,
        cur == u64::MAX ==> spec_next_id(cur) == 0,
{
}

/// A request payload on the wire: the method name bytes, one separator
/// byte, then the encoded argument bytes.
pub open spec fn spec_request_payload(method: Seq<u8>, arg: Seq<u8>) -> Seq<u8> {
    method + seq![METHOD_SEPARATOR] + arg
}

/// Partition a request payload at its first separator byte: the prefix
/// before it is the method name, everything after it is the argument.
/// A payload without a separator cannot be partitioned.
pub open spec fn spec_split_payload(payload: Seq<u8>) -> Option<(Seq<u8>, Seq<u8>)>
    decreases payload.len(),
{
    if payload.len() == 0 {
        None
    } else if payload[0] == METHOD_SEPARATOR {
        Some((Seq::<u8>::empty(), payload.drop_first()))
    } else {
        match spec_split_payload(payload.drop_first()) {
            None => None,
            Some(p) => Some((seq![payload[0]] + p.0, p.1)),
        }
    }
}

/// If the bytes before position `i` are all ordinary and position `i`
/// holds the separator, the split yields exactly the prefix and suffix
/// around `i`.
proof fn lemma_split_at_first_sep(payload: Seq<u8>, i: int)
    requires
        0 <= i < payload.len(),
        forall|j: int| 0 <= j < i ==> payload[j] != METHOD_SEPARATOR,
        payload[i] == METHOD_SEPARATOR,
    ensures
        spec_split_payload(payload) == Some(
            (payload.subrange(0, i), payload.subrange(i + 1, payload.len() as int)),
        ),
    decreases i,
{
    if i == 0 {
        assert(payload.subrange(0, 0) =~= Seq::<u8>::empty());
        assert(payload.subrange(1, payload.len() as int) =~= payload.drop_first());
    } else {
        lemma_split_at_first_sep(payload.drop_first(), i - 1);
        assert(payload.drop_first().subrange(0, i - 1) =~= payload.subrange(1, i));
        assert(payload.drop_first().subrange(i, payload.drop_first().len() as int)
            =~= payload.subrange(i + 1, payload.len() as int));
        assert(seq![payload[0]] + payload.subrange(1, i) =~= payload.subrange(0, i));
    }
}

/// A payload with no separator anywhere cannot be split.
proof fn lemma_split_no_sep(payload: Seq<u8>)
    requires
        forall|j: int| 0 <= j < payload.len() ==> payload[j] != METHOD_SEPARATOR,
    ensures
        spec_split_payload(payload) is None,
    decreases payload.len(),
{
    if payload.len() > 0 {
        lemma_split_no_sep(payload.drop_first());
    }
}

/// The separator discipline of request payloads: when the method name
/// contains no separator byte, the composed payload carries its single
/// leading separator exactly at index `method.len()`, nothing before that
/// index is a separator, and splitting the payload recovers the method
/// name and the argument bytes unchanged.
pub proof fn lemma_method_separator(method: Seq<u8>, arg: Seq<u8>)
    requires
        !method.contains(METHOD_SEPARATOR),
    ensures
        spec_request_payload(method, arg)[method.len() as int] == METHOD_SEPARATOR,
        forall|j: int|
            0 <= j < method.len() ==> spec_request_payload(method, arg)[j] != METHOD_SEPARATOR,
        spec_split_payload(spec_request_payload(method, arg)) == Some((method, arg)),
{
    let payload = spec_request_payload(method, arg);
    assert forall|j: int| 0 <= j < method.len() implies payload[j] != METHOD_SEPARATOR by {
        assert(payload[j] == method[j]);
        assert(!(method[j] == METHOD_SEPARATOR)) by {
            if method[j] == METHOD_SEPARATOR {
                assert(method.contains(METHOD_SEPARATOR));
            }
        }
    }
    lemma_split_at_first_sep(payload, method.len() as int);
    assert(payload.subrange(0, method.len() as int) =~= method);
    assert(payload.subrange(method.len() as int + 1, payload.len() as int) =~= arg);
}

/// Compose the request payload for a call: method bytes, the separator,
/// then the encoded argument bytes.
pub fn make_request_payload(method: &str, arg: &[u8]) -> (r: Vec<u8>)
    ensures
        r@ == spec_request_payload(method.spec_bytes(), arg@),
{
    let mut payload: Vec<u8> = Vec::new();
    payload.extend_from_slice(method.as_bytes());
    payload.push(METHOD_SEPARATOR);
    payload.extend_from_slice(arg);
    assert(payload@ =~= spec_request_payload(method.spec_bytes(), arg@));
    payload
}

/// What the client does with a response frame: a response with `ok == 0`
/// carries an error message as its payload and fails the call with it; any
/// other response succeeds with its payload, which still has to be decoded
/// into the typed result.
pub fn interpret_response(rsp: Frame) -> (r: Result<Vec<u8>, RpcError>)
    ensures
        rsp.ok == 0 ==> (r matches Err(e) && e@ == rsp.data@),
        rsp.ok != 0 ==> (r matches Ok(b) && b@ == rsp.data@),
{
    if rsp.ok == 0 {
        Err(RpcError { msg: rsp.data })
    } else {
        Ok(rsp.data)
    }
}

/// What the client stub's reader decides after one attempt to decode a
/// frame from the connection.
pub enum ReadOutcome {
    /// The exchange is over: hand this frame to response interpretation.
    Deliver(Frame),
    /// The frame belonged to another request and the timeout has not
    /// elapsed: keep reading.
    KeepWaiting,
}

/// The error message of a call that outlived its timeout.
pub open spec fn spec_timeout_msg() -> Seq<u8> {
    "rpc call timeout!".spec_bytes()
}

/// One step of the client's read loop, for the request with id `id`.
/// A failed decode ends the exchange with a synthesized error response; a
/// frame with the matching id is the response; a frame with a foreign id
/// is discarded, and the exchange ends with a synthesized timeout response
/// once the elapsed wall-clock time exceeds the timeout.
pub fn response_read_step(
    id: u64,
    decoded: Result<Frame, RpcError>,
    elapsed_ms: u64,
    timeout_ms: Option<u64>,
) -> (r: ReadOutcome)
    ensures
        (decoded matches Err(e) ==> (r matches ReadOutcome::Deliver(g) && g.id == id && g.ok == 0
            && g.data@ == e@)),
        (decoded matches Ok(f) ==> (f.id == id ==> r == ReadOutcome::Deliver(f))),
        (decoded matches Ok(f) ==> (f.id != id && (match timeout_ms {
            Some(t) => elapsed_ms > t,
            None => false,
        }) ==> (r matches ReadOutcome::Deliver(g) && g.id == id && g.ok == 0 && g.data@
            == spec_timeout_msg()))),
        (decoded matches Ok(f) ==> (f.id != id && (match timeout_ms {
            Some(t) => elapsed_ms <= t,
            None => true,
        }) ==> r is KeepWaiting)),
{
    match decoded {
        Err(e) => ReadOutcome::Deliver(Frame { id, ok: 0, data: e.msg }),
        Ok(f) => {
            if f.id == id {
                ReadOutcome::Deliver(f)
            } else {
                match timeout_ms {
                    Some(t) => {
                        if elapsed_ms > t {
                            let msg = slice_to_vec("rpc call timeout!".as_bytes());
                            ReadOutcome::Deliver(Frame { id, ok: 0, data: msg })
                        } else {
                            ReadOutcome::KeepWaiting
                        }
                    },
                    None => ReadOutcome::KeepWaiting,
                }
            }
        },
    }
}

/// Packs the client's request parameters into a network message, sends it
/// through a transport, and interprets the reply. Holds the whole-call
/// timeout and the request id counter.
pub struct ClientStub {
    /// Whole-call timeout in milliseconds; `None` waits forever.
    pub timeout: Option<u64>,
    /// The most recently assigned request id.
    pub tag: u64,
}

impl ClientStub {
    /// A fresh stub: no timeout, ids start after zero.
    pub fn new() -> (r: Self)
        ensures
            r.timeout is None,
            r.tag == 0,
    {
        Self { timeout: None, tag: 0 }
    }

    /// Assign the next request id: the counter advances by one, wrapping
    /// from the maximum value to zero.
    pub fn next_id(&mut self) -> (r: u64)
        ensures
            r == spec_next_id(old(self).tag),
            final(self).tag == r,
            final(self).timeout == old(self).timeout,
    {
        let id = if self.tag == u64::MAX {
            0
        } else {
            self.tag + 1
        };
        self.tag = id;
        id
    }

    /// One remote call at the frame level: compose the request payload,
    /// assign the next request id, exchange frames through `transport`,
    /// and interpret the response. The argument bytes are already encoded;
    /// the returned bytes still have to be decoded by the payload codec.
    /// The method name must not contain the separator byte.
    pub fn call_frame<T: Transport>(
        &mut self,
        method: &str,
        arg: &[u8],
        transport: &mut T,
    ) -> (r: Result<Vec<u8>, RpcError>)
        requires
            !method.spec_bytes().contains(METHOD_SEPARATOR),
        ensures
            final(self).tag == spec_next_id(old(self).tag),
            final(self).timeout == old(self).timeout,
    {
        let payload = make_request_payload(method, arg);
        let id = self.next_id();
        let req = Frame { id, ok: 0, data: payload };
        let rsp = transport.transport(req);
        interpret_response(rsp)
    }
}

/// The error message reported when a request payload has no separator.
pub open spec fn spec_no_sep_msg() -> Seq<u8> {
    "not find '\n' end of method!".spec_bytes()
}

/// The error message reported when no handler is registered under
/// `method`.
pub open spec fn spec_not_found_msg(method: Seq<u8>) -> Seq<u8> {
    "method='".spec_bytes() + method + "' not find!".spec_bytes()
}

/// Build the message that reports an unregistered method name.
pub fn make_not_found_msg(method: &[u8]) -> (r: Vec<u8>)
    ensures
        r@ == spec_not_found_msg(method@),
{
    let mut msg: Vec<u8> = Vec::new();
    msg.extend_from_slice("method='".as_bytes());
    msg.extend_from_slice(method);
    msg.extend_from_slice("' not find!".as_bytes());
    assert(msg@ =~= spec_not_found_msg(method@));
    msg
}

/// Receives the message sent by the client, unpacks it, and invokes the
/// registered method.
pub struct ServerStub {}

impl ServerStub {
    /// A fresh server stub.
    pub fn new() -> Self {
        Self {  }
    }

    /// Partition a request payload at its first separator byte into the
    /// method name and the argument bytes. A payload without a separator
    /// yields nothing.
    pub fn split_payload(payload: &[u8]) -> (r: Option<(Vec<u8>, Vec<u8>)>)
        ensures
            match r {
                Some(p) => spec_split_payload(payload@) == Some((p.0@, p.1@)),
                None => spec_split_payload(payload@) is None,
            },
    {
        let n = payload.len();
        let mut i: usize = 0;
        while i < n
            invariant
                n == payload@.len(),
                i <= n,
                forall|j: int| 0 <= j < i ==> payload@[j] != METHOD_SEPARATOR,
            decreases n - i,
        {
            if payload[i] == METHOD_SEPARATOR {
                let method = slice_to_vec(vstd::slice::slice_subrange(payload, 0, i));
                let arg = slice_to_vec(vstd::slice::slice_subrange(payload, i + 1, n));
                proof {
                    lemma_split_at_first_sep(payload@, i as int);
                }
                return Some((method, arg));
            }
            i = i + 1;
        }
        proof {
            lemma_split_no_sep(payload@);
        }
        None
    }

    /// Build the response frame from what the handler returned: success
    /// replies with `ok == 1` and the handler's bytes, failure replies
    /// with `ok == 0` and the failure's message. The frame id is left at
    /// zero; the caller stamps the request id when encoding.
    pub fn finish_response(handler_result: Result<Vec<u8>, RpcError>) -> (r: Frame)
        ensures
            r.id == 0,
            match handler_result {
                Ok(bytes) => r.ok == 1 && r.data@ == bytes@,
                Err(e) => r.ok == 0 && r.data@ == e@,
            },
    {
        match handler_result {
            Ok(bytes) => Frame { id: 0, ok: 1, data: bytes },
            Err(e) => Frame { id: 0, ok: 0, data: e.msg },
        }
    }

    /// Serve one request frame: split its payload, look the method up in
    /// `stubs`, invoke the handler, and build the response frame. A
    /// payload without a separator and an unregistered method name each
    /// reply with `ok == 0` and the exact diagnostic message; otherwise
    /// the response reports the handler's outcome as `finish_response`
    /// builds it. The returned frame's id is zero: the caller stamps the
    /// request's id when encoding the reply.
    pub fn call_frame<H: Stub>(
        &self,
        stubs: &HandlerRegistry<H>,
        req: &Frame,
    ) -> (r: Frame)
        ensures
            r.id == 0,
            spec_split_payload(req.data@) is None ==> r.ok == 0 && r.data@ == spec_no_sep_msg(),
            (spec_split_payload(req.data@) matches Some(p) ==> (stubs.spec_get(p.0) is None ==> r.ok
                == 0 && r.data@ == spec_not_found_msg(p.0))),
            (spec_split_payload(req.data@) matches Some(p) ==> (stubs.spec_get(p.0) is Some ==> r.ok
                == 0 || r.ok == 1)),
    {
        let parts = match Self::split_payload(req.data.as_slice()) {
            Some(p) => p,
            None => {
                let msg = slice_to_vec("not find '\n' end of method!".as_bytes());
                return Frame { id: 0, ok: 0, data: msg };
            },
        };
        let (method, arg) = parts;
        let handler = match stubs.get(method.as_slice()) {
            Some(h) => h,
            None => {
                let msg = make_not_found_msg(method.as_slice());
                return Frame { id: 0, ok: 0, data: msg };
            },
        };
        let result = handler.accept(arg.as_slice());
        Self::finish_response(result)
    }
}

} // verus!
