//! Length-delimited framing: each frame is a 4-byte big-endian length
//! followed by exactly that many payload bytes.
use vstd::prelude::*;
use bytes::BytesMut;
use tokio_util::codec::{Decoder, Encoder, LengthDelimitedCodec};
use crate::error::CodecError;

verus! {

/// The largest payload that a frame may carry (the framing codec's default).
pub const MAX_FRAME_LEN: usize = 8 * 1024 * 1024;

/// The four big-endian bytes of `n`.
pub open spec fn be32(n: u32) -> Seq<u8> {
    seq![(n >> 24u32) as u8, (n >> 16u32) as u8, (n >> 8u32) as u8, n as u8]
}

/// The number that four bytes give when read big-endian.
pub open spec fn be32_value(b0: u8, b1: u8, b2: u8, b3: u8) -> u32 {
    ((b0 as u32) << 24u32) | ((b1 as u32) << 16u32) | ((b2 as u32) << 8u32) | (b3 as u32)
}

/// The frame that carries `payload`: its length prefix, then the payload.
pub open spec fn frame_of(payload: Seq<u8>) -> Seq<u8> {
    be32(payload.len() as u32) + payload
}

/// How the bytes at the head of a buffer split into a frame.
pub enum FrameSplit {
    /// Not enough bytes yet for the prefix or for the payload it announces.
    Partial,
    /// The prefix announces a payload longer than `MAX_FRAME_LEN`.
    Oversized,
    /// A whole frame: its payload and the bytes after it.
    Whole(Seq<u8>, Seq<u8>),
}

/// The length that the prefix at the head of `buf` announces.
pub open spec fn announced_len(buf: Seq<u8>) -> nat
    recommends
        buf.len() >= 4,
{
    be32_value(buf[0], buf[1], buf[2], buf[3]) as nat
}

/// Splits the first frame off `buf`.
pub open spec fn split_frame(buf: Seq<u8>) -> FrameSplit {
    if buf.len() < 4 {
        FrameSplit::Partial
    } else if announced_len(buf) > MAX_FRAME_LEN {
        FrameSplit::Oversized
    } else if buf.len() < 4 + announced_len(buf) {
        FrameSplit::Partial
    } else {
        FrameSplit::Whole(
            buf.subrange(4, 4 + announced_len(buf) as int),
            buf.subrange(4 + announced_len(buf) as int, buf.len() as int),
        )
    }
}

/// Relies on `LengthDelimitedCodec::decode` (default settings, fresh state):
/// it returns nothing until the prefix and the payload it announces are
/// buffered, fails on a prefix over the maximum frame length, and otherwise
/// splits the payload off, leaving the bytes after it.
#[verifier::external_body]
fn decode_frame(buf: &[u8]) -> (r: Result<Option<(Vec<u8>, Vec<u8>)>, std::io::Error>)
    ensures
        match split_frame(buf@) {
            FrameSplit::Partial => r matches Ok(None),
            FrameSplit::Oversized => r is Err,
            FrameSplit::Whole(p, rest) => r matches Ok(Some((f, tail))) && f@ == p && tail@ == rest,
        },
{
    let mut src = BytesMut::from(buf);
    match LengthDelimitedCodec::new().decode(&mut src) {
        Ok(Some(frame)) => Ok(Some((frame.to_vec(), src.to_vec()))),
        Ok(None) => Ok(None),
        Err(e) => Err(e),
    }
}

/// Relies on `std::io::Error::other`: the fault for bytes left over, making
/// no whole frame, when the transport has closed.
#[verifier::external_body]
fn truncated_frame_error() -> (r: std::io::Error) {
    std::io::Error::other("bytes remaining on stream")
}

/// Relies on `LengthDelimitedCodec` as an `Encoder<&[u8]>` (default
/// settings): it writes the 4-byte big-endian length and then the payload,
/// and refuses a payload over the maximum frame length.
#[verifier::external_body]
fn encode_frame(payload: &[u8]) -> (r: Result<Vec<u8>, std::io::Error>)
    ensures
        r is Ok <==> (payload@.len() <= MAX_FRAME_LEN),
        r matches Ok(v) ==> v@ == frame_of(payload@),
{
    let mut dst = BytesMut::new();
    match LengthDelimitedCodec::new().encode(payload, &mut dst) {
        Ok(()) => Ok(dst.to_vec()),
        Err(e) => Err(e),
    }
}

/// Frames `payload` for the transport.
pub fn write_frame(payload: &[u8]) -> (r: Result<Vec<u8>, CodecError>)
    ensures
        r is Ok <==> (payload@.len() <= MAX_FRAME_LEN),
        r matches Ok(v) ==> v@ == frame_of(payload@),
        r matches Err(e) ==> e is Length,
{
    match encode_frame(payload) {
        Ok(v) => Ok(v),
        Err(e) => Err(CodecError::Length(e)),
    }
}

/// Buffers the bytes that the transport delivers and cuts them into frames.
pub struct FrameReader {
    buf: Vec<u8>,
}

impl View for FrameReader {
    type V = Seq<u8>;

    /// The bytes received and not yet handed out as frames.
    closed spec fn view(&self) -> Seq<u8> {
        self.buf@
    }
}

impl FrameReader {
    /// A reader that holds no bytes.
    pub fn new() -> (r: FrameReader)
        ensures
            r@ == Seq::<u8>::empty(),
    {
        FrameReader { buf: Vec::new() }
    }

    /// Appends the bytes of one delivery from the transport.
    pub fn push(&mut self, chunk: &[u8])
        ensures
            final(self)@ == old(self)@ + chunk@,
    {
        let mut i: usize = 0;
        while i < chunk.len()
            invariant
                i <= chunk@.len(),
                self@ == old(self)@ + chunk@.subrange(0, i as int),
            decreases chunk@.len() - i,
        {
            self.buf.push(chunk[i]);
            i = i + 1;
            assert(chunk@.subrange(0, i as int) == chunk@.subrange(0, i - 1) + seq![chunk@[i - 1]]);
        }
        assert(chunk@.subrange(0, i as int) == chunk@);
    }

    /// Takes the next whole frame's payload off the buffer. `closed` says
    /// that the transport has ended, so that bytes which make no whole frame
    /// are a fault rather than something to wait on.
    pub fn read_frame(&mut self, closed: bool) -> (r: Result<Option<Vec<u8>>, CodecError>)
        ensures
            match split_frame(old(self)@) {
                FrameSplit::Partial => if closed && old(self)@.len() != 0 {
                    r matches Err(CodecError::Length(_)) && final(self)@ == old(self)@
                } else {
                    r matches Ok(None) && final(self)@ == old(self)@
                },
                FrameSplit::Oversized => r matches Err(CodecError::Length(_)) && final(self)@
                    == old(self)@,
                FrameSplit::Whole(p, rest) => r matches Ok(Some(f)) && f@ == p && final(self)@
                    == rest,
            },
    {
        match decode_frame(self.buf.as_slice()) {
            Ok(Some((frame, rest))) => {
                self.buf = rest;
                Ok(Some(frame))
            },
            Ok(None) => if closed && self.buf.len() != 0 {
                Err(CodecError::Length(truncated_frame_error()))
            } else {
                Ok(None)
            },
            Err(e) => Err(CodecError::Length(e)),
        }
    }
}

/// The frames of `payloads`, one after the other.
#[verifier::opaque]
pub open spec fn frames_of(payloads: Seq<Seq<u8>>) -> Seq<u8>
    decreases payloads.len(),
{
    if payloads.len() == 0 {
        Seq::empty()
    } else {
        frame_of(payloads[0]) + frames_of(payloads.drop_first())
    }
}

/// The payloads of the whole frames at the head of `buf`, and the bytes left
/// once no whole frame is at the head any more.
#[verifier::opaque]
pub open spec fn drain(buf: Seq<u8>) -> (Seq<Seq<u8>>, Seq<u8>)
    decreases buf.len(),
{
    match split_frame(buf) {
        FrameSplit::Whole(p, rest) => {
            let (ps, left) = drain(rest);
            (seq![p] + ps, left)
        },
        _ => (Seq::empty(), buf),
    }
}

/// Every payload is small enough to be framed.
pub open spec fn all_fit(payloads: Seq<Seq<u8>>) -> bool {
    forall|i: int| 0 <= i < payloads.len() ==> #[trigger] payloads[i].len() <= MAX_FRAME_LEN
}

proof fn lemma_be32_round_trip(n: u32)
    ensures
        be32_value(be32(n)[0], be32(n)[1], be32(n)[2], be32(n)[3]) == n,
{
    assert(((((n >> 24u32) as u8) as u32) << 24u32) | ((((n >> 16u32) as u8) as u32) << 16u32)
        | ((((n >> 8u32) as u8) as u32) << 8u32) | ((n as u8) as u32) == n) by (bit_vector);
}

/// A frame at the head of a buffer splits off as its payload and the bytes after it.
pub proof fn lemma_split_frame_of(p: Seq<u8>, tail: Seq<u8>)
    requires
        p.len() <= MAX_FRAME_LEN,
    ensures
        split_frame(frame_of(p) + tail) == FrameSplit::Whole(p, tail),
{
    let buf = frame_of(p) + tail;
    lemma_be32_round_trip(p.len() as u32);
    assert(buf.subrange(0, 4) == be32(p.len() as u32));
    assert(announced_len(buf) == p.len());
    assert(buf.subrange(4, 4 + p.len() as int) == p);
    assert(buf.subrange(4 + p.len() as int, buf.len() as int) == tail);
}

/// A whole frame at the head of a buffer stays so when more bytes arrive.
pub proof fn lemma_split_frame_extend(buf: Seq<u8>, more: Seq<u8>)
    requires
        split_frame(buf) is Whole,
    ensures
        split_frame(buf + more) == (match split_frame(buf) {
            FrameSplit::Whole(p, rest) => FrameSplit::Whole(p, rest + more),
            _ => FrameSplit::Partial,
        }),
{
    let all = buf + more;
    assert(all[0] == buf[0] && all[1] == buf[1] && all[2] == buf[2] && all[3] == buf[3]);
    let n = announced_len(buf) as int;
    assert(all.subrange(4, 4 + n) =~= buf.subrange(4, 4 + n));
    assert(all.subrange(4 + n, all.len() as int) =~= buf.subrange(4 + n, buf.len() as int) + more);
}

/// A proper prefix of one frame holds no whole frame.
pub proof fn lemma_split_partial(p: Seq<u8>, cut: int)
    requires
        p.len() <= MAX_FRAME_LEN,
        0 <= cut < frame_of(p).len(),
    ensures
        split_frame(frame_of(p).subrange(0, cut)) == FrameSplit::Partial,
{
    let buf = frame_of(p).subrange(0, cut);
    if buf.len() >= 4 {
        lemma_be32_round_trip(p.len() as u32);
        assert(buf[0] == frame_of(p)[0] && buf[1] == frame_of(p)[1] && buf[2] == frame_of(p)[2]
            && buf[3] == frame_of(p)[3]);
        assert(announced_len(buf) == p.len());
    }
}

/// Frames read back from their concatenation give the payloads, in order,
/// and leave nothing over.
pub proof fn lemma_frames_read_back(payloads: Seq<Seq<u8>>)
    requires
        all_fit(payloads),
    ensures
        drain(frames_of(payloads)) == (payloads, Seq::<u8>::empty()),
    decreases payloads.len(),
{
    lemma_frames_of_unfold(payloads);
    if payloads.len() == 0 {
        assert(split_frame(Seq::<u8>::empty()) == FrameSplit::Partial);
        lemma_drain_partial(Seq::<u8>::empty());
        assert(payloads == Seq::<Seq<u8>>::empty());
    } else {
        let rest = payloads.drop_first();
        lemma_fit_rest(payloads);
        lemma_drain_frame(payloads[0], frames_of(rest));
        lemma_frames_read_back(rest);
        assert(seq![payloads[0]] + rest == payloads);
    }
}

proof fn lemma_drain_frame(p: Seq<u8>, tail: Seq<u8>)
    requires
        p.len() <= MAX_FRAME_LEN,
    ensures
        drain(frame_of(p) + tail) == (seq![p] + drain(tail).0, drain(tail).1),
{
    lemma_split_frame_of(p, tail);
    reveal(drain);
}

proof fn lemma_drain_partial(buf: Seq<u8>)
    requires
        split_frame(buf) == FrameSplit::Partial,
    ensures
        drain(buf) == (Seq::<Seq<u8>>::empty(), buf),
{
    reveal(drain);
}

pub proof fn lemma_frames_of_unfold(payloads: Seq<Seq<u8>>)
    ensures
        payloads.len() == 0 ==> frames_of(payloads) == Seq::<u8>::empty(),
        payloads.len() > 0 ==> frames_of(payloads) == frame_of(payloads[0]) + frames_of(
            payloads.drop_first(),
        ),
{
    reveal(frames_of);
}

pub proof fn lemma_fit_rest(payloads: Seq<Seq<u8>>)
    requires
        all_fit(payloads),
        payloads.len() > 0,
    ensures
        all_fit(payloads.drop_first()),
        payloads[0].len() <= MAX_FRAME_LEN,
{
    let rest = payloads.drop_first();
    assert forall|i: int| 0 <= i < rest.len() implies #[trigger] rest[i].len()
        <= MAX_FRAME_LEN by {
        assert(rest[i] == payloads[i + 1]);
    }
}

/// However the frames of `payloads` are cut into two deliveries, draining
/// after the first and again after the second gives every payload exactly
/// once, in order, and leaves nothing over.
pub proof fn lemma_frames_any_cut(payloads: Seq<Seq<u8>>, cut: int)
    requires
        all_fit(payloads),
        0 <= cut <= frames_of(payloads).len(),
    ensures
        drain(frames_of(payloads).subrange(0, cut)).0 + drain(
            drain(frames_of(payloads).subrange(0, cut)).1 + frames_of(payloads).subrange(
                cut,
                frames_of(payloads).len() as int,
            ),
        ).0 == payloads,
        drain(
            drain(frames_of(payloads).subrange(0, cut)).1 + frames_of(payloads).subrange(
                cut,
                frames_of(payloads).len() as int,
            ),
        ).1 == Seq::<u8>::empty(),
    decreases payloads.len(),
{
    let wire = frames_of(payloads);
    let head = wire.subrange(0, cut);
    let back = wire.subrange(cut, wire.len() as int);
    assert(head + back == wire);
    lemma_frames_read_back(payloads);
    lemma_frames_of_unfold(payloads);
    if payloads.len() == 0 {
        assert(head == Seq::<u8>::empty());
        assert(split_frame(head) == FrameSplit::Partial);
        lemma_drain_partial(head);
        assert(Seq::<Seq<u8>>::empty() + payloads == payloads);
    } else {
        let p = payloads[0];
        let rest = payloads.drop_first();
        lemma_fit_rest(payloads);
        let k = frame_of(p).len() as int;
        assert(wire == frame_of(p) + frames_of(rest));
        if cut < k {
            assert(head == frame_of(p).subrange(0, cut));
            lemma_split_partial(p, cut);
            lemma_drain_partial(head);
            assert(Seq::<Seq<u8>>::empty() + payloads == payloads);
        } else {
            let rw = frames_of(rest);
            let rhead = rw.subrange(0, cut - k);
            let rback = rw.subrange(cut - k, rw.len() as int);
            lemma_frames_any_cut(rest, cut - k);
            assert(head == frame_of(p) + rhead);
            assert(back == rback);
            lemma_drain_frame(p, rhead);
            assert(seq![p] + drain(rhead).0 + drain(drain(rhead).1 + rback).0 == seq![p] + rest);
            assert(seq![p] + rest == payloads);
        }
    }
}

} // verus!
