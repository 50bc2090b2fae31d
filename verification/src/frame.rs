//! The on-wire frame, the lowest layer of the protocol.
//!
//! Wire layout, most significant byte first:
//! `id: u64 || ok: u8 || len: u64 || payload[len]`.
//! The fixed header is 17 bytes and the length prefix is authoritative:
//! there is no checksum, no versioning and no escape sequence.
use vstd::prelude::*;
use vstd::slice::{slice_subrange, slice_to_vec};

verus! {

/// Number of bytes in the fixed frame header: an 8-byte id, a 1-byte ok
/// flag and an 8-byte payload length.
pub const FRAME_HEADER_LEN: usize = 17;

/// Why a byte buffer failed to decode as a frame.
#[derive(Debug, Clone, Copy, PartialEq, Eq, Structural)]
pub enum FrameError {
    /// The advertised payload length exceeds the configured maximum; an
    /// `InvalidInput` condition. Raised before any payload byte is consumed.
    Oversize,
    /// The buffer ends before the header or the payload is complete; an
    /// `UnexpectedEof` condition.
    Truncated,
}

/// A single wire message. Requests and responses share the layout; the
/// response to a request carries the same `id`.
#[derive(Debug, Clone, PartialEq, Eq)]
pub struct Frame {
    /// Correlates a response with its request.
    pub id: u64,
    /// 0 = error, 1 = success. Unused on the request path.
    pub ok: u8,
    /// The payload bytes.
    pub data: Vec<u8>,
}

/// The eight big-endian bytes of a 64-bit integer, most significant first.
pub open spec fn u64_be_bytes(x: u64) -> Seq<u8> {
    seq![
        (x >> 56) as u8,
        (x >> 48) as u8,
        (x >> 40) as u8,
        (x >> 32) as u8,
        (x >> 24) as u8,
        (x >> 16) as u8,
        (x >> 8) as u8,
        x as u8,
    ]
}

/// The 64-bit integer read from eight bytes, most significant first.
pub open spec fn u64_from_be_bytes(s: Seq<u8>) -> u64
    recommends
        s.len() == 8,
{
    (((s[0] as u64) << 56) | ((s[1] as u64) << 48) | ((s[2] as u64) << 40) | ((s[3] as u64) << 32)
        | ((s[4] as u64) << 24) | ((s[5] as u64) << 16) | ((s[6] as u64) << 8) | (s[7] as u64))
}

/// Reading back the eight big-endian bytes of an integer yields the integer.
pub proof fn lemma_u64_be_round_trip(x: u64)
    ensures
        u64_from_be_bytes(u64_be_bytes(x)) == x,
{
    let b0 = (x >> 56) as u8;
    let b1 = (x >> 48) as u8;
    let b2 = (x >> 40) as u8;
    let b3 = (x >> 32) as u8;
    let b4 = (x >> 24) as u8;
    let b5 = (x >> 16) as u8;
    let b6 = (x >> 8) as u8;
    let b7 = x as u8;
    assert((((b0 as u64) << 56) | ((b1 as u64) << 48) | ((b2 as u64) << 40) | ((b3 as u64) << 32)
        | ((b4 as u64) << 24) | ((b5 as u64) << 16) | ((b6 as u64) << 8) | (b7 as u64)) == x)
        by (bit_vector)
        requires
            b0 == (x >> 56) as u8,
            b1 == (x >> 48) as u8,
            b2 == (x >> 40) as u8,
            b3 == (x >> 32) as u8,
            b4 == (x >> 24) as u8,
            b5 == (x >> 16) as u8,
            b6 == (x >> 8) as u8,
            b7 == x as u8,
    ;
}

/// The complete wire image of a frame: header fields big-endian, then the
/// payload, whose length the header advertises.
pub open spec fn spec_frame_bytes(id: u64, ok: u8, data: Seq<u8>) -> Seq<u8> {
    u64_be_bytes(id) + seq![ok] + u64_be_bytes(data.len() as u64) + data
}

/// The payload length a buffer's header advertises.
pub open spec fn spec_advertised_len(buf: Seq<u8>) -> u64
    recommends
        buf.len() >= FRAME_HEADER_LEN,
{
    u64_from_be_bytes(buf.subrange(9, 17))
}

/// Append the eight big-endian bytes of `x` to `buf`.
pub fn push_u64_be(buf: &mut Vec<u8>, x: u64)
    ensures
        final(buf)@ == old(buf)@ + u64_be_bytes(x),
{
    buf.push((x >> 56) as u8);
    buf.push((x >> 48) as u8);
    buf.push((x >> 40) as u8);
    buf.push((x >> 32) as u8);
    buf.push((x >> 24) as u8);
    buf.push((x >> 16) as u8);
    buf.push((x >> 8) as u8);
    buf.push(x as u8);
    assert(buf@ =~= old(buf)@ + u64_be_bytes(x));
}

/// Read the eight bytes at `off` as a big-endian 64-bit integer.
pub fn read_u64_be(buf: &[u8], off: usize) -> (r: u64)
    requires
        off + 8 <= buf@.len(),
    ensures
        r == u64_from_be_bytes(buf@.subrange(off as int, off as int + 8)),
{
    let ghost s = buf@.subrange(off as int, off as int + 8);
    let r = ((buf[off] as u64) << 56) | ((buf[off + 1] as u64) << 48) | ((buf[off + 2] as u64)
        << 40) | ((buf[off + 3] as u64) << 32) | ((buf[off + 4] as u64) << 24) | ((buf[off
        + 5] as u64) << 16) | ((buf[off + 6] as u64) << 8) | (buf[off + 7] as u64);
    assert(s[0] == buf@[off as int] && s[1] == buf@[off + 1] && s[2] == buf@[off + 2] && s[3]
        == buf@[off + 3] && s[4] == buf@[off + 4] && s[5] == buf@[off + 5] && s[6] == buf@[off + 6]
        && s[7] == buf@[off + 7]);
    r
}

impl Frame {
    /// An empty frame: id 0, ok 0, no payload.
    pub fn new() -> (r: Self)
        ensures
            r.id == 0,
            r.ok == 0,
            r.data@ == Seq::<u8>::empty(),
    {
        Self { id: 0, ok: 0, data: Vec::new() }
    }

    /// The raw payload buffer; a request or response must still be
    /// deserialized from it.
    pub fn get_payload(&self) -> (r: &Vec<u8>)
        ensures
            r@ == self.data@,
    {
        &self.data
    }

    /// Convert this frame into the contiguous buffer that goes on the wire,
    /// stamped with `id`.
    pub fn finish(self, id: u64) -> (r: Vec<u8>)
        ensures
            r@ == spec_frame_bytes(id, self.ok, self.data@),
            r@.len() == FRAME_HEADER_LEN + self.data@.len(),
    {
        let mut buf: Vec<u8> = Vec::new();
        push_u64_be(&mut buf, id);
        buf.push(self.ok);
        push_u64_be(&mut buf, self.data.len() as u64);
        let mut rest = self.data;
        buf.append(&mut rest);
        assert(buf@ =~= spec_frame_bytes(id, self.ok, self.data@));
        buf
    }

    /// Decode one frame from the front of `buf`, allowing payloads of at
    /// most `max_len` bytes. On success, also return how many bytes of
    /// `buf` the frame occupied. An oversized advertised length is rejected
    /// before the payload itself is examined, so the error does not depend
    /// on the payload bytes being present.
    pub fn decode(buf: &[u8], max_len: u64) -> (r: Result<(Frame, usize), FrameError>)
        ensures
            buf@.len() < FRAME_HEADER_LEN ==> r == Err::<(Frame, usize), FrameError>(
                FrameError::Truncated,
            ),
            buf@.len() >= FRAME_HEADER_LEN && spec_advertised_len(buf@) > max_len ==> r
                == Err::<(Frame, usize), FrameError>(FrameError::Oversize),
            buf@.len() >= FRAME_HEADER_LEN && spec_advertised_len(buf@) <= max_len && buf@.len()
                < FRAME_HEADER_LEN + spec_advertised_len(buf@) ==> r == Err::<
                (Frame, usize),
                FrameError,
            >(FrameError::Truncated),
            buf@.len() >= FRAME_HEADER_LEN && spec_advertised_len(buf@) <= max_len && buf@.len()
                >= FRAME_HEADER_LEN + spec_advertised_len(buf@) ==> (r matches Ok(p) && {
                &&& p.0.id == u64_from_be_bytes(buf@.subrange(0, 8))
                &&& p.0.ok == buf@[8]
                &&& p.0.data@ == buf@.subrange(17, 17 + spec_advertised_len(buf@) as int)
                &&& p.1 == FRAME_HEADER_LEN + spec_advertised_len(buf@)
            }),
    {
        if buf.len() < FRAME_HEADER_LEN {
            return Err(FrameError::Truncated);
        }
        let id = read_u64_be(buf, 0);
        let ok = buf[8];
        let len64 = read_u64_be(buf, 9);
        assert(len64 == spec_advertised_len(buf@)) by {
            assert(buf@.subrange(9, 17) =~= buf@.subrange(9int, 9int + 8));
        }
        if len64 > max_len {
            return Err(FrameError::Oversize);
        }
        let rem = buf.len() - FRAME_HEADER_LEN;
        if (rem as u64) < len64 {
            return Err(FrameError::Truncated);
        }
        let n = FRAME_HEADER_LEN + (len64 as usize);
        let payload = slice_subrange(buf, FRAME_HEADER_LEN, n);
        let data = slice_to_vec(payload);
        Ok((Frame { id, ok, data }, n))
    }
}

/// A frame's wire image decodes back to the frame: the header is 17 bytes,
/// it advertises exactly the payload length, and the id, ok flag and payload
/// read back unchanged. Together with the contract of [`Frame::decode`],
/// this says that decoding the output of [`Frame::finish`] under any limit
/// of at least `data.len()` succeeds and yields an equal frame.
pub proof fn lemma_frame_round_trip(id: u64, ok: u8, data: Seq<u8>)
    requires
        data.len() <= u64::MAX,
    ensures
        spec_frame_bytes(id, ok, data).len() == FRAME_HEADER_LEN + data.len(),
        spec_advertised_len(spec_frame_bytes(id, ok, data)) == data.len(),
        u64_from_be_bytes(spec_frame_bytes(id, ok, data).subrange(0, 8)) == id,
        spec_frame_bytes(id, ok, data)[8] == ok,
        spec_frame_bytes(id, ok, data).subrange(17, spec_frame_bytes(id, ok, data).len() as int)
            == data,
{
    let buf = spec_frame_bytes(id, ok, data);
    assert(buf.len() == 17 + data.len());
    assert(buf.subrange(0, 8) =~= u64_be_bytes(id));
    lemma_u64_be_round_trip(id);
    assert(buf.subrange(9, 17) =~= u64_be_bytes(data.len() as u64));
    lemma_u64_be_round_trip(data.len() as u64);
    assert(buf.subrange(17, buf.len() as int) =~= data);
}

/// An oversized header is refused no matter what follows it: any buffer
/// that begins with the 17-byte header of `spec_frame_bytes(id, ok, data)`
/// for a payload longer than `max_len` makes [`Frame::decode`] report
/// `Oversize`, even when none of the payload bytes are present.
pub proof fn lemma_oversize_rejected(id: u64, ok: u8, data: Seq<u8>, max_len: u64, tail: Seq<u8>)
    requires
        max_len < data.len() <= u64::MAX,
    ensures
        ({
            let buf = spec_frame_bytes(id, ok, data).subrange(0, FRAME_HEADER_LEN as int) + tail;
            buf.len() >= FRAME_HEADER_LEN && spec_advertised_len(buf) > max_len
        }),
{
    let image = spec_frame_bytes(id, ok, data);
    let buf = image.subrange(0, FRAME_HEADER_LEN as int) + tail;
    lemma_frame_round_trip(id, ok, data);
    assert(buf.subrange(9, 17) =~= image.subrange(9, 17));
    assert(spec_advertised_len(buf) == data.len());
}

} // verus!
