//! The typed channel: an inbound sequence of requests pulled from the bytes
//! that the transport delivers, and outbound frames for responses.
//!
//! A frame whose payload does not decode is dropped and the sequence goes
//! on, since the frame boundary is still known. A framing fault ends the
//! sequence, since byte alignment can no longer be trusted.
use vstd::prelude::*;
use crate::error::CodecError;
use crate::frame::{
    all_fit,
    frame_of,
    frames_of,
    lemma_fit_rest,
    lemma_frames_of_unfold,
    lemma_split_frame_extend,
    split_frame,
    write_frame,
    FrameReader,
    FrameSplit,
    MAX_FRAME_LEN,
};
use crate::message::{
    decode_request,
    encode_request,
    encode_response,
    request_of_payload,
    request_payload,
    response_payload,
    Request,
    Response,
};

verus! {

/// Why the inbound sequence has ended.
#[derive(Clone, Copy, Debug, PartialEq, Eq, Structural)]
pub enum EndReason {
    /// The peer closed the transport between frames.
    PeerClosed,
    /// The framing could not be trusted any more.
    FramingFault,
}

/// What one pull on the inbound sequence gives.
#[derive(Debug)]
pub enum Pull {
    /// The next request.
    Item(Request),
    /// No whole frame is buffered yet: deliver more bytes and pull again.
    Pending,
    /// A framing fault, reported once; the sequence has ended.
    Fault(CodecError),
    /// The sequence has ended.
    End,
}

/// What the next pull gives, in the model.
pub enum Step {
    Item(Request),
    Pending,
    Fault,
    End,
}

/// The next step on `buf`, and the bytes that remain buffered after it.
/// Frames whose payload decodes to no request are passed over.
pub open spec fn next_step(buf: Seq<u8>, closed: bool) -> (Step, Seq<u8>)
    decreases buf.len(),
{
    match split_frame(buf) {
        FrameSplit::Partial => if !closed {
            (Step::Pending, buf)
        } else if buf.len() == 0 {
            (Step::End, buf)
        } else {
            (Step::Fault, buf)
        },
        FrameSplit::Oversized => (Step::Fault, buf),
        FrameSplit::Whole(p, rest) => match request_of_payload(p) {
            Some(v) => (Step::Item(v), rest),
            None => next_step(rest, closed),
        },
    }
}

/// The state of the inbound side, in the model.
pub struct InboundView {
    /// Bytes delivered and not yet consumed.
    pub buf: Seq<u8>,
    /// Whether the transport has closed.
    pub closed: bool,
    /// Whether, and why, the sequence has ended.
    pub ended: Option<EndReason>,
}

/// The inbound side of the channel.
pub struct Inbound {
    reader: FrameReader,
    closed: bool,
    ended: Option<EndReason>,
}

impl View for Inbound {
    type V = InboundView;

    closed spec fn view(&self) -> InboundView {
        InboundView { buf: self.reader@, closed: self.closed, ended: self.ended }
    }
}

impl Inbound {
    /// An inbound side on an open transport that has delivered nothing.
    pub fn new() -> (r: Inbound)
        ensures
            r@.buf == Seq::<u8>::empty(),
            !r@.closed,
            r@.ended is None,
    {
        Inbound { reader: FrameReader::new(), closed: false, ended: None }
    }

    /// Hands over bytes that the transport delivered.
    pub fn push(&mut self, chunk: &[u8])
        ensures
            final(self)@.buf == old(self)@.buf + chunk@,
            final(self)@.closed == old(self)@.closed,
            final(self)@.ended == old(self)@.ended,
    {
        self.reader.push(chunk);
    }

    /// Records that the transport has closed: nothing more will be delivered.
    pub fn close(&mut self)
        ensures
            final(self)@.buf == old(self)@.buf,
            final(self)@.closed,
            final(self)@.ended == old(self)@.ended,
    {
        self.closed = true;
    }

    /// Whether, and why, the sequence has ended.
    pub fn ended(&self) -> (r: Option<EndReason>)
        ensures
            r == self@.ended,
    {
        self.ended
    }

    /// Pulls the next request. Frames that do not decode are consumed and
    /// passed over; a framing fault is reported once and ends the sequence;
    /// a close between frames ends it cleanly.
    pub fn pull(&mut self) -> (r: Pull)
        ensures
            final(self)@.closed == old(self)@.closed,
            old(self)@.ended is Some ==> r is End && final(self)@ == old(self)@,
            old(self)@.ended is None ==> match next_step(old(self)@.buf, old(self)@.closed).0 {
                Step::Item(v) => r == Pull::Item(v) && final(self)@.ended is None
                    && final(self)@.buf == next_step(old(self)@.buf, old(self)@.closed).1,
                Step::Pending => r is Pending && final(self)@.ended is None
                    && final(self)@.buf == next_step(old(self)@.buf, old(self)@.closed).1,
                Step::Fault => r matches Pull::Fault(CodecError::Length(_))
                    && final(self)@.ended == Some(EndReason::FramingFault),
                Step::End => r is End && final(self)@.ended == Some(EndReason::PeerClosed),
            },
    {
        if self.ended.is_some() {
            return Pull::End;
        }
        loop
            invariant
                self.ended is None,
                old(self)@.ended is None,
                self.closed == old(self)@.closed,
                next_step(self.reader@, self.closed) == next_step(old(self)@.buf, old(self)@.closed),
            decreases self.reader@.len(),
        {
            match self.reader.read_frame(self.closed) {
                Ok(Some(frame)) => {
                    match decode_request(frame.as_slice()) {
                        Ok(v) => {
                            return Pull::Item(v);
                        },
                        Err(_) => {},
                    }
                },
                Ok(None) => {
                    if self.closed {
                        self.ended = Some(EndReason::PeerClosed);
                        return Pull::End;
                    } else {
                        return Pull::Pending;
                    }
                },
                Err(e) => {
                    self.ended = Some(EndReason::FramingFault);
                    return Pull::Fault(e);
                },
            }
        }
    }
}

/// Frames a response for the transport.
pub fn frame_response(v: &Response) -> (r: Result<Vec<u8>, CodecError>)
    ensures
        r matches Ok(b) && b@ == frame_of(response_payload(*v)),
{
    let payload = encode_response(v)?;
    proof {
        reveal_strlit("Wellcome");
    }
    assert(payload@.len() <= MAX_FRAME_LEN);
    write_frame(payload.as_slice())
}

/// Frames a request for the transport.
pub fn frame_request(v: &Request) -> (r: Result<Vec<u8>, CodecError>)
    ensures
        r matches Ok(b) && b@ == frame_of(request_payload(*v)),
{
    let payload = encode_request(v)?;
    proof {
        reveal_strlit("Greeting");
    }
    assert(payload@.len() <= MAX_FRAME_LEN);
    write_frame(payload.as_slice())
}

/// A frame whose payload decodes to no request is passed over: what the
/// inbound sequence gives is what it would give on the bytes after that
/// frame, so later frames still come through.
pub proof fn lemma_undecodable_frame_skipped(p: Seq<u8>, tail: Seq<u8>, closed: bool)
    requires
        p.len() <= MAX_FRAME_LEN,
        request_of_payload(p) is None,
    ensures
        next_step(frame_of(p) + tail, closed) == next_step(tail, closed),
{
    crate::frame::lemma_split_frame_of(p, tail);
}

/// After a close, bytes that hold only part of a frame are a framing fault,
/// while an empty buffer is a clean end: the two are told apart.
pub proof fn lemma_truncated_frame_faults(p: Seq<u8>, cut: int)
    requires
        p.len() <= MAX_FRAME_LEN,
        0 < cut < frame_of(p).len(),
    ensures
        next_step(frame_of(p).subrange(0, cut), true).0 is Fault,
        next_step(Seq::<u8>::empty(), true).0 is End,
{
    crate::frame::lemma_split_partial(p, cut);
    assert(split_frame(Seq::<u8>::empty()) == FrameSplit::Partial);
}

/// The requests that `payloads` decode to, in order, leaving out the
/// payloads that decode to none.
pub open spec fn decoded(payloads: Seq<Seq<u8>>) -> Seq<Request>
    decreases payloads.len(),
{
    if payloads.len() == 0 {
        Seq::empty()
    } else {
        match request_of_payload(payloads[0]) {
            Some(v) => seq![v] + decoded(payloads.drop_first()),
            None => decoded(payloads.drop_first()),
        }
    }
}

/// Pulls on `buf` for as long as they give requests, at most `n` of them:
/// the requests given, and the step of the pull after the last of them.
pub open spec fn pulls(buf: Seq<u8>, closed: bool, n: nat) -> (Seq<Request>, Step)
    decreases n,
{
    match next_step(buf, closed) {
        (Step::Item(v), rest) => if n == 0 {
            (Seq::empty(), Step::Item(v))
        } else {
            (seq![v] + pulls(rest, closed, (n - 1) as nat).0, pulls(rest, closed, (n - 1) as nat).1)
        },
        (s, _) => (Seq::empty(), s),
    }
}

/// Frames followed by other bytes: pulling gives exactly the requests that
/// the frames' payloads decode to, in order, each frame at most one, the
/// undecodable ones passed over; the pull after them gives what the bytes
/// after the frames give (the end on a clean close, a framing fault on a
/// truncated frame).
pub proof fn lemma_pulls_over_frames(payloads: Seq<Seq<u8>>, tail: Seq<u8>, closed: bool)
    requires
        all_fit(payloads),
    ensures
        pulls(frames_of(payloads) + tail, closed, decoded(payloads).len()) == (
            decoded(payloads),
            next_step(tail, closed).0,
        ),
    decreases payloads.len(),
{
    lemma_frames_of_unfold(payloads);
    if payloads.len() == 0 {
        assert(frames_of(payloads) + tail =~= tail);
    } else {
        let p = payloads[0];
        let rest = payloads.drop_first();
        lemma_fit_rest(payloads);
        let after = frames_of(rest) + tail;
        assert(frames_of(payloads) + tail =~= frame_of(p) + after);
        crate::frame::lemma_split_frame_of(p, after);
        lemma_pulls_over_frames(rest, tail, closed);
        match request_of_payload(p) {
            Some(v) => {
                assert(next_step(frame_of(p) + after, closed) == (Step::Item(v), after));
            },
            None => {
                assert(next_step(frame_of(p) + after, closed) == next_step(after, closed));
            },
        }
    }
}

/// Bytes that arrive later change nothing that a pull has already given: a
/// pull that waits has lost nothing, and a pull that gives a request gives
/// the same request with the later bytes still to come. So the requests
/// pulled do not depend on how the transport cut the bytes into deliveries.
pub proof fn lemma_later_bytes(buf: Seq<u8>, more: Seq<u8>, closed: bool)
    ensures
        next_step(buf, false).0 is Pending ==> next_step(buf + more, closed) == next_step(
            next_step(buf, false).1 + more,
            closed,
        ),
        next_step(buf, false).0 is Item ==> next_step(buf + more, closed) == (
            next_step(buf, false).0,
            next_step(buf, false).1 + more,
        ),
    decreases buf.len(),
{
    match split_frame(buf) {
        FrameSplit::Whole(p, rest) => {
            lemma_split_frame_extend(buf, more);
            if request_of_payload(p) is None {
                lemma_later_bytes(rest, more, closed);
            }
        },
        _ => {},
    }
}

} // verus!
