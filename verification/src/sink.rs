//! Splitting one payload over several frames and joining it back.
//!
//! A payload longer than the frame limit is carried as consecutive frames
//! that share the same id and ok flag; the receiver concatenates their
//! payloads in order.
use vstd::prelude::*;
use vstd::slice::{slice_subrange, slice_to_vec};

use crate::frame::Frame;

verus! {

/// The payload split into chunks of at most `max` bytes, in order. A
/// payload that already fits (the empty payload included) is one chunk;
/// otherwise full `max`-byte chunks are peeled off the front and the final
/// chunk holds the remainder, so every chunk is non-empty.
pub open spec fn spec_chunks(data: Seq<u8>, max: int) -> Seq<Seq<u8>>
    recommends
        max >= 1,
    decreases data.len(),
{
    if max < 1 {
        seq![data]
    } else if data.len() <= max {
        seq![data]
    } else {
        seq![data.subrange(0, max)] + spec_chunks(data.subrange(max, data.len() as int), max)
    }
}

/// The payload carried jointly by a sequence of frames: their payloads
/// concatenated in order.
pub open spec fn spec_joined_payload(frames: Seq<Frame>) -> Seq<u8>
    decreases frames.len(),
{
    if frames.len() == 0 {
        Seq::<u8>::empty()
    } else {
        frames[0].data@ + spec_joined_payload(frames.drop_first())
    }
}

/// Appending a frame appends its payload to the joined payload.
pub proof fn lemma_joined_payload_push(frames: Seq<Frame>, f: Frame)
    ensures
        spec_joined_payload(frames.push(f)) == spec_joined_payload(frames) + f.data@,
    decreases frames.len(),
{
    reveal_with_fuel(spec_joined_payload, 3);
    if frames.len() == 0 {
        assert(frames.push(f).drop_first() =~= Seq::<Frame>::empty());
        assert(spec_joined_payload(frames.push(f)) =~= spec_joined_payload(frames) + f.data@);
    } else {
        assert(frames.push(f).drop_first() =~= frames.drop_first().push(f));
        lemma_joined_payload_push(frames.drop_first(), f);
        assert(spec_joined_payload(frames.push(f)) =~= spec_joined_payload(frames) + f.data@);
    }
}

/// Splitting loses nothing: frames whose payloads are the chunks of
/// `data` — as [`Sink::encode`] builds them — join back to `data`
/// exactly, so decoding what encode produced recovers the original
/// payload.
pub proof fn lemma_sink_round_trip(frames: Seq<Frame>, data: Seq<u8>, max: int)
    requires
        max >= 1,
        frames.map_values(|f: Frame| f.data@) =~= spec_chunks(data, max),
    ensures
        spec_joined_payload(frames) == data,
    decreases data.len(),
{
    let datas = frames.map_values(|f: Frame| f.data@);
    if data.len() <= max {
        assert(datas.len() == 1);
        assert(frames[0].data@ == datas[0]);
        assert(frames.drop_first().len() == 0);
        assert(spec_joined_payload(frames.drop_first()) == Seq::<u8>::empty());
        assert(spec_joined_payload(frames) =~= data);
    } else {
        let head = data.subrange(0, max);
        let tail = data.subrange(max, data.len() as int);
        assert(datas.len() == frames.len());
        assert(datas.len() == spec_chunks(data, max).len());
        assert(frames.len() >= 1);
        assert(frames[0].data@ == datas[0]);
        assert(datas[0] == head);
        assert(frames.drop_first().map_values(|f: Frame| f.data@) =~= spec_chunks(tail, max)) by {
            let rest = frames.drop_first().map_values(|f: Frame| f.data@);
            assert(rest.len() == frames.len() - 1);
            assert forall|i: int| 0 <= i < rest.len() implies rest[i] == spec_chunks(tail, max)[i]
                by {
                assert(frames.drop_first()[i] == frames[i + 1]);
                assert(rest[i] == frames[i + 1].data@);
                assert(datas[i + 1] == frames[i + 1].data@);
                assert(datas[i + 1] == spec_chunks(data, max)[i + 1]);
            }
        }
        lemma_sink_round_trip(frames.drop_first(), tail, max);
        assert(spec_joined_payload(frames) == head + tail);
        assert(head + tail =~= data);
    }
}

/// Carries a logical payload across one or more frames.
#[derive(Clone, Debug)]
pub struct Sink {}

impl Sink {
    /// Split `data` into frames whose payloads are the chunks of `data`
    /// under `max_frame_len`, all stamped with the same `id` and `ok`.
    pub fn encode(&self, id: u64, ok: u8, data: Vec<u8>, max_frame_len: u64) -> (r: Vec<Frame>)
        requires
            max_frame_len >= 1,
        ensures
            r@.len() == spec_chunks(data@, max_frame_len as int).len(),
            forall|i: int|
                0 <= i < r@.len() ==> {
                    &&& (#[trigger] r@[i]).id == id
                    &&& r@[i].ok == ok
                    &&& r@[i].data@ == spec_chunks(data@, max_frame_len as int)[i]
                },
    {
        let ghost max = max_frame_len as int;
        if (data.len() as u64) <= max_frame_len {
            let mut r: Vec<Frame> = Vec::new();
            r.push(Frame { id, ok, data });
            return r;
        }
        let maxu: usize = max_frame_len as usize;
        let mut frames: Vec<Frame> = Vec::new();
        let mut start: usize = 0;
        proof {
            assert(data@.subrange(0, data@.len() as int) =~= data@);
            assert(Seq::<Frame>::empty().map_values(|f: Frame| f.data@) =~= Seq::<Seq<u8>>::empty());
        }
        while start < data.len()
            invariant
                1 <= maxu == max_frame_len,
                max == max_frame_len as int,
                start <= data@.len(),
                data@.len() <= usize::MAX,
                forall|j: int|
                    0 <= j < frames@.len() ==> {
                        &&& (#[trigger] frames@[j]).id == id
                        &&& frames@[j].ok == ok
                    },
                if start < data@.len() {
                    spec_chunks(data@, max) =~= frames@.map_values(|f: Frame| f.data@)
                        + spec_chunks(data@.subrange(start as int, data@.len() as int), max)
                } else {
                    spec_chunks(data@, max) =~= frames@.map_values(|f: Frame| f.data@)
                },
            decreases data@.len() - start,
        {
            let ghost rest = data@.subrange(start as int, data@.len() as int);
            let end: usize = if data.len() - start < maxu {
                data.len()
            } else {
                start + maxu
            };
            let chunk = slice_to_vec(slice_subrange(data.as_slice(), start, end));
            assert(chunk@ =~= rest.subrange(0, end - start));
            frames.push(Frame { id, ok, data: chunk });
            proof {
                if rest.len() <= max {
                    assert(rest.subrange(0, end - start) =~= rest);
                } else {
                    assert(data@.subrange(end as int, data@.len() as int) =~= rest.subrange(
                        max,
                        rest.len() as int,
                    ));
                }
                assert(frames@.map_values(|f: Frame| f.data@) =~= frames@.drop_last().map_values(
                    |f: Frame| f.data@,
                ).push(frames@.last().data@));
            }
            start = end;
        }
        frames
    }

    /// Join a burst of frames back into one frame: the id and ok flag of
    /// the first frame, and the payloads of all frames concatenated in
    /// order. An empty burst yields nothing.
    pub fn decode(&self, frames: Vec<Frame>) -> (r: Option<Frame>)
        ensures
            frames@.len() == 0 ==> r is None,
            frames@.len() > 0 ==> (r matches Some(f) && {
                &&& f.id == frames@[0].id
                &&& f.ok == frames@[0].ok
                &&& f.data@ == spec_joined_payload(frames@)
            }),
    {
        if frames.len() == 0 {
            return None;
        }
        let id = frames[0].id;
        let ok = frames[0].ok;
        let mut data: Vec<u8> = Vec::new();
        let mut i: usize = 0;
        while i < frames.len()
            invariant
                i <= frames@.len(),
                data@ == spec_joined_payload(frames@.subrange(0, i as int)),
            decreases frames@.len() - i,
        {
            let mut part = slice_to_vec(frames[i].data.as_slice());
            data.append(&mut part);
            proof {
                assert(frames@.subrange(0, i + 1).drop_last() =~= frames@.subrange(0, i as int));
                lemma_joined_payload_push(frames@.subrange(0, i as int), frames@[i as int]);
                assert(frames@.subrange(0, i as int).push(frames@[i as int]) =~= frames@.subrange(
                    0,
                    i + 1,
                ));
            }
            i = i + 1;
        }
        assert(frames@.subrange(0, frames@.len() as int) =~= frames@);
        Some(Frame { id, ok, data })
    }
}

} // verus!
