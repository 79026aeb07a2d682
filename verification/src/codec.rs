//! Frame codec: length-prefixed binary frames on a raw byte stream.
//!
//! A frame with payload length `L` is exactly `2 + L` bytes: a 2-byte
//! big-endian length header followed by the payload. The decoder is
//! incremental: it extracts every complete frame at the front of a buffer and
//! reports how many bytes it consumed, leaving a trailing partial frame for a
//! later call.

use vstd::prelude::*;
use vstd::arithmetic::div_mod::lemma_fundamental_div_mod;

verus! {

/// Largest payload that fits the 2-byte length header.
pub const MAX_PAYLOAD: usize = 65535;

/// The encoded form of one frame: big-endian length header, then the payload.
pub open spec fn spec_frame(payload: Seq<u8>) -> Seq<u8> {
    seq![((payload.len() as int) / 256) as u8, ((payload.len() as int) % 256) as u8] + payload
}

/// Length of the payload declared by the two header bytes at the front of `b`.
pub open spec fn spec_header_len(b: Seq<u8>) -> int {
    (b[0] as int) * 256 + (b[1] as int)
}

/// All complete frames at the front of `b`, in order.
pub open spec fn spec_frames(b: Seq<u8>) -> Seq<Seq<u8>>
    decreases b.len(),
{
    if b.len() >= 2 && b.len() >= 2 + spec_header_len(b) {
        seq![b.subrange(2, 2 + spec_header_len(b))]
            + spec_frames(b.skip(2 + spec_header_len(b)))
    } else {
        Seq::empty()
    }
}

/// How many bytes of `b` the complete frames at its front occupy.
pub open spec fn spec_consumed(b: Seq<u8>) -> int
    decreases b.len(),
{
    if b.len() >= 2 && b.len() >= 2 + spec_header_len(b) {
        2 + spec_header_len(b) + spec_consumed(b.skip(2 + spec_header_len(b)))
    } else {
        0
    }
}

pub proof fn lemma_consumed_bounds(b: Seq<u8>)
    ensures
        0 <= spec_consumed(b) <= b.len(),
    decreases b.len(),
{
    if b.len() >= 2 && b.len() >= 2 + spec_header_len(b) {
        lemma_consumed_bounds(b.skip(2 + spec_header_len(b)));
    }
}

/// The header of a frame declares exactly the payload's length.
proof fn lemma_frame_header(payload: Seq<u8>)
    requires
        payload.len() <= MAX_PAYLOAD,
    ensures
        spec_header_len(spec_frame(payload)) == payload.len(),
{
    let n = payload.len() as int;
    lemma_fundamental_div_mod(n, 256);
    assert(n == 256 * (n / 256) + n % 256);
    assert(0 <= n % 256 < 256);
    assert(0 <= n / 256 <= 255);
    assert(spec_frame(payload)[0] == (n / 256) as u8);
    assert(spec_frame(payload)[1] == (n % 256) as u8);
}

/// Encodes one payload as a frame. Fails exactly when the payload is longer
/// than the 2-byte length header can declare; nothing is ever truncated.
pub fn encode(payload: &Vec<u8>) -> (r: Option<Vec<u8>>)
    ensures
        payload@.len() <= MAX_PAYLOAD ==> (r matches Some(f) && f@ == spec_frame(payload@)),
        payload@.len() > MAX_PAYLOAD ==> r is None,
{
    if payload.len() > MAX_PAYLOAD {
        return None;
    }
    let n: usize = payload.len();
    let mut frame: Vec<u8> = Vec::new();
    frame.push((n / 256) as u8);
    frame.push((n % 256) as u8);
    proof {
        assert(frame@ =~= spec_frame(payload@).take(2));
    }
    let mut i: usize = 0;
    while i < n
        invariant
            i <= n,
            n == payload@.len(),
            n <= MAX_PAYLOAD,
            frame@.len() == 2 + i,
            frame@ == spec_frame(payload@).take(2 + i),
        decreases n - i,
    {
        frame.push(payload[i]);
        proof {
            assert(spec_frame(payload@).take(2 + i + 1)
                =~= spec_frame(payload@).take(2 + i).push(payload@[i as int]));
        }
        i += 1;
    }
    proof {
        assert(frame@ =~= spec_frame(payload@));
    }
    Some(frame)
}

/// Extracts every complete frame at the front of `buffer` and returns the
/// frames together with the number of bytes they occupied; the trailing
/// remainder of the buffer is left for a future call.
pub fn decode_incremental(buffer: &Vec<u8>) -> (r: (Vec<Vec<u8>>, usize))
    ensures
        r.0.deep_view() == spec_frames(buffer@),
        r.1 == spec_consumed(buffer@),
{
    let blen: usize = buffer.len();
    let mut frames: Vec<Vec<u8>> = Vec::new();
    let mut pos: usize = 0;
    proof {
        assert(buffer@.skip(0) =~= buffer@);
        assert(frames.deep_view() + spec_frames(buffer@) =~~= spec_frames(buffer@));
    }
    loop
        invariant
            blen == buffer@.len(),
            pos <= blen,
            frames.deep_view() + spec_frames(buffer@.skip(pos as int)) == spec_frames(buffer@),
            pos + spec_consumed(buffer@.skip(pos as int)) == spec_consumed(buffer@),
        decreases blen - pos,
    {
        let ghost rest = buffer@.skip(pos as int);
        let remaining = blen - pos;
        if remaining < 2 {
            proof {
                assert(spec_frames(rest) =~~= Seq::<Seq<u8>>::empty());
                assert(frames.deep_view() + Seq::<Seq<u8>>::empty() =~~= frames.deep_view());
            }
            return (frames, pos);
        }
        let hi = buffer[pos];
        let lo = buffer[pos + 1];
        let need: usize = (hi as usize) * 256 + (lo as usize);
        proof {
            assert(rest[0] == hi);
            assert(rest[1] == lo);
            assert(spec_header_len(rest) == need);
        }
        if remaining - 2 < need {
            proof {
                assert(spec_frames(rest) =~~= Seq::<Seq<u8>>::empty());
                assert(frames.deep_view() + Seq::<Seq<u8>>::empty() =~~= frames.deep_view());
            }
            return (frames, pos);
        }
        let mut payload: Vec<u8> = Vec::new();
        let mut i: usize = 0;
        while i < need
            invariant
                blen == buffer@.len(),
                i <= need,
                pos + 2 + need <= blen,
                payload@ == buffer@.subrange(pos + 2, pos + 2 + i),
            decreases need - i,
        {
            payload.push(buffer[pos + 2 + i]);
            proof {
                assert(buffer@.subrange(pos + 2, pos + 2 + i + 1)
                    =~= buffer@.subrange(pos + 2, pos + 2 + i).push(buffer@[pos + 2 + i]));
            }
            i += 1;
        }
        let ghost prev_frames = frames.deep_view();
        let ghost prev_pos = pos as int;
        frames.push(payload);
        pos = pos + 2 + need;
        proof {
            assert(payload@ =~= rest.subrange(2, 2 + (need as int)));
            assert(rest.skip(2 + (need as int)) =~= buffer@.skip(pos as int));
            assert(spec_frames(rest) == seq![payload@] + spec_frames(buffer@.skip(pos as int)));
            assert(spec_consumed(rest) == 2 + need + spec_consumed(buffer@.skip(pos as int)));
            assert(frames.deep_view() =~~= prev_frames.push(payload@));
            assert(prev_frames.push(payload@) + spec_frames(buffer@.skip(pos as int))
                =~~= prev_frames + spec_frames(rest));
        }
    }
}

/// After the complete frames at the front of a buffer are consumed, no
/// complete frame remains at its front.
pub proof fn lemma_leftover_has_no_frame(b: Seq<u8>)
    ensures
        spec_consumed(b.skip(spec_consumed(b))) == 0,
        spec_frames(b.skip(spec_consumed(b))) == Seq::<Seq<u8>>::empty(),
    decreases b.len(),
{
    if b.len() >= 2 && b.len() >= 2 + spec_header_len(b) {
        let step = 2 + spec_header_len(b);
        let rest = b.skip(step);
        lemma_consumed_bounds(rest);
        lemma_leftover_has_no_frame(rest);
        assert(b.skip(spec_consumed(b)) =~= rest.skip(spec_consumed(rest)));
    } else {
        assert(b.skip(0) =~= b);
    }
}

/// Decoding is streaming-compatible: decoding a stream in two pieces, keeping
/// the undecoded remainder of the first piece in front of the second, yields
/// exactly the frames of the whole stream — and the frames of the first piece
/// come first, so no frame moves or changes when more bytes arrive.
pub proof fn lemma_decode_stream(b1: Seq<u8>, b2: Seq<u8>)
    ensures
        spec_frames(b1 + b2) == spec_frames(b1) + spec_frames(
            b1.skip(spec_consumed(b1)) + b2,
        ),
        spec_frames(b1).is_prefix_of(spec_frames(b1 + b2)),
    decreases b1.len(),
{
    lemma_consumed_bounds(b1);
    if b1.len() >= 2 && b1.len() >= 2 + spec_header_len(b1) {
        let step = 2 + spec_header_len(b1);
        let tail = b1.skip(step);
        let whole = b1 + b2;
        assert(whole[0] == b1[0]);
        assert(whole[1] == b1[1]);
        assert(spec_header_len(whole) == spec_header_len(b1));
        assert(whole.subrange(2, step) =~= b1.subrange(2, step));
        assert(whole.skip(step) =~= tail + b2);
        lemma_decode_stream(tail, b2);
        lemma_consumed_bounds(tail);
        assert(b1.skip(spec_consumed(b1)) =~= tail.skip(spec_consumed(tail)));
        assert(spec_frames(whole) =~~= spec_frames(b1) + spec_frames(
            b1.skip(spec_consumed(b1)) + b2,
        ));
    } else {
        assert(spec_frames(b1) =~~= Seq::<Seq<u8>>::empty());
        assert(b1.skip(0) =~= b1);
        assert(spec_frames(b1 + b2) =~~= spec_frames(b1) + spec_frames(
            b1.skip(spec_consumed(b1)) + b2,
        ));
    }
}

/// The concatenation of a sequence of byte chunks.
pub open spec fn spec_concat(chunks: Seq<Seq<u8>>) -> Seq<u8>
    decreases chunks.len(),
{
    if chunks.len() == 0 {
        Seq::empty()
    } else {
        chunks[0] + spec_concat(chunks.drop_first())
    }
}

/// The frames produced by feeding `chunks` one by one into an incremental
/// decoder whose buffer already holds the undecoded bytes `pending`: each
/// feed appends one chunk, drains every complete frame, and keeps the rest.
pub open spec fn spec_feed(pending: Seq<u8>, chunks: Seq<Seq<u8>>) -> Seq<Seq<u8>>
    decreases chunks.len(),
{
    if chunks.len() == 0 {
        Seq::empty()
    } else {
        let b = pending + chunks[0];
        spec_frames(b) + spec_feed(b.skip(spec_consumed(b)), chunks.drop_first())
    }
}

/// A buffer from which nothing can be consumed holds no complete frame.
proof fn lemma_consumed_zero_no_frames(b: Seq<u8>)
    requires
        spec_consumed(b) == 0,
    ensures
        spec_frames(b) == Seq::<Seq<u8>>::empty(),
{
    if b.len() >= 2 && b.len() >= 2 + spec_header_len(b) {
        lemma_consumed_bounds(b.skip(2 + spec_header_len(b)));
        assert(false);
    }
    assert(spec_frames(b) =~~= Seq::<Seq<u8>>::empty());
}

/// Feeding a stream chunk by chunk produces exactly the frames of the whole
/// stream, however the stream is split.
pub proof fn lemma_feed_is_decode(pending: Seq<u8>, chunks: Seq<Seq<u8>>)
    requires
        spec_consumed(pending) == 0,
    ensures
        spec_feed(pending, chunks) == spec_frames(pending + spec_concat(chunks)),
    decreases chunks.len(),
{
    if chunks.len() == 0 {
        assert(pending + spec_concat(chunks) =~= pending);
        lemma_consumed_zero_no_frames(pending);
    } else {
        let b = pending + chunks[0];
        let left = b.skip(spec_consumed(b));
        lemma_leftover_has_no_frame(b);
        lemma_feed_is_decode(left, chunks.drop_first());
        lemma_decode_stream(b, spec_concat(chunks.drop_first()));
        assert(pending + spec_concat(chunks) =~= b + spec_concat(chunks.drop_first()));
        assert(spec_feed(pending, chunks) =~~= spec_frames(pending + spec_concat(chunks)));
    }
}

/// A proper prefix of one encoded frame yields no frame at all.
pub proof fn lemma_no_partial_frame(payload: Seq<u8>, t: int)
    requires
        payload.len() <= MAX_PAYLOAD,
        0 <= t < spec_frame(payload).len(),
    ensures
        spec_frames(spec_frame(payload).take(t)) == Seq::<Seq<u8>>::empty(),
{
    let f = spec_frame(payload);
    lemma_frame_header(payload);
    if t >= 2 {
        assert(f.take(t)[0] == f[0]);
        assert(f.take(t)[1] == f[1]);
        assert(spec_header_len(f.take(t)) == payload.len());
        assert(f.take(t).len() < 2 + payload.len());
    }
    assert(spec_frames(f.take(t)) =~~= Seq::<Seq<u8>>::empty());
}

/// Chunk independence: however the encoding of one payload is split into
/// chunks and fed to the incremental decoder across calls, the concatenation
/// of everything produced is exactly that one payload, and nothing at all is
/// produced while bytes are still missing.
pub proof fn lemma_chunk_independence(payload: Seq<u8>, chunks: Seq<Seq<u8>>)
    requires
        payload.len() <= MAX_PAYLOAD,
        spec_concat(chunks) == spec_frame(payload),
    ensures
        spec_feed(Seq::empty(), chunks) == seq![payload],
{
    assert(spec_consumed(Seq::<u8>::empty()) == 0);
    lemma_feed_is_decode(Seq::empty(), chunks);
    assert(Seq::<u8>::empty() + spec_concat(chunks) =~= spec_frame(payload));
    lemma_frame_round_trip(payload);
}

/// A frame round-trips: decoding the encoding of one payload yields exactly
/// that payload, with every byte consumed.
pub proof fn lemma_frame_round_trip(payload: Seq<u8>)
    requires
        payload.len() <= MAX_PAYLOAD,
    ensures
        spec_frames(spec_frame(payload)) == seq![payload],
        spec_consumed(spec_frame(payload)) == spec_frame(payload).len(),
{
    let f = spec_frame(payload);
    lemma_frame_header(payload);
    assert(f.len() == 2 + payload.len());
    assert(f.subrange(2, 2 + (payload.len() as int)) =~= payload);
    assert(f.skip(2 + (payload.len() as int)) =~= Seq::<u8>::empty());
    assert(spec_frames(Seq::<u8>::empty()) =~~= Seq::<Seq<u8>>::empty());
    assert(spec_consumed(Seq::<u8>::empty()) == 0);
    assert(spec_frames(f) =~~= seq![payload]);
    assert(spec_consumed(f) == 2 + payload.len());
}

} // verus!
