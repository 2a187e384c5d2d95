//! Reassembly of frames from the bytes that a polled connection hands over
//! piece by piece.
use vstd::prelude::*;

use crate::wire::{
    decode, decode_spec, declared_len, declared_name_len, encode_spec, is_pair_code, is_valid,
    lemma_decode_encode, Code, DecodeError, Decoded, Message, ALREADY_HERE, MAX_FRAME_LEN, MESSAGE_FROM,
    WELCOME,
};

verus! {

/// What the reassembler reports once a frame is decided.
pub enum Event {
    Message(Message),
    Rejected(DecodeError),
}

/// A frame that the reassembler has decided.
#[derive(PartialEq, Eq, Debug)]
pub enum PollEvent {
    /// A complete message.
    Message(Code),
    /// A refused frame; its bytes are dropped and the connection stays usable.
    Rejected(DecodeError),
}

impl View for PollEvent {
    type V = Event;

    open spec fn view(&self) -> Event {
        match self {
            PollEvent::Message(c) => Event::Message(c@),
            PollEvent::Rejected(e) => Event::Rejected(*e),
        }
    }
}

/// The events of a sequence of decided frames.
pub open spec fn events_of(v: Seq<PollEvent>) -> Seq<Event> {
    v.map_values(|e: PollEvent| e@)
}

/// The buffer after one more byte, and the frame that the byte decides, if any.
pub open spec fn step_spec(buf: Seq<u8>, b: u8) -> (Seq<u8>, Option<Event>) {
    let nb = buf.push(b);
    match decode_spec(nb) {
        Decoded::Incomplete => (nb, None),
        Decoded::Complete(m, _) => (Seq::empty(), Some(Event::Message(m))),
        Decoded::Rejected(e) => (Seq::empty(), Some(Event::Rejected(e))),
    }
}

/// The events of an optional event.
pub open spec fn opt_events(e: Option<Event>) -> Seq<Event> {
    match e {
        Some(e) => seq![e],
        None => Seq::empty(),
    }
}

/// The buffer after the bytes `bytes`, fed one at a time, and the events they
/// decide, in order.
pub open spec fn run_spec(buf: Seq<u8>, bytes: Seq<u8>) -> (Seq<u8>, Seq<Event>)
    decreases bytes.len(),
{
    if bytes.len() == 0 {
        (buf, Seq::empty())
    } else {
        let (b1, e) = step_spec(buf, bytes[0]);
        let (b2, es) = run_spec(b1, bytes.drop_first());
        (b2, opt_events(e) + es)
    }
}

/// How many more bytes the buffer `buf` takes before its frame is decided or
/// its next field is complete: the code byte, the length, the name length of
/// a pair frame, the payload.
pub open spec fn wanted_spec(buf: Seq<u8>) -> int {
    if buf.len() == 0 {
        1
    } else if buf.len() < 5 {
        5 - buf.len()
    } else if is_pair_code(buf[0]) && buf.len() < 9 {
        9 - buf.len()
    } else {
        5 + declared_len(buf) - buf.len()
    }
}

/// Feeding bytes in two pieces ends where feeding them at once ends, and
/// decides the same frames in the same order: how a byte stream is cut into
/// reads does not change what comes out.
pub proof fn lemma_run_append(buf: Seq<u8>, a: Seq<u8>, b: Seq<u8>)
    ensures
        run_spec(buf, a + b) == (
            run_spec(run_spec(buf, a).0, b).0,
            run_spec(buf, a).1 + run_spec(run_spec(buf, a).0, b).1,
        ),
    decreases a.len(),
{
    if a.len() == 0 {
        assert(a + b =~= b);
        assert(run_spec(buf, a).1 + run_spec(buf, b).1 =~= run_spec(buf, b).1);
    } else {
        let (b1, e) = step_spec(buf, a[0]);
        assert((a + b)[0] == a[0]);
        assert((a + b).drop_first() =~= a.drop_first() + b);
        lemma_run_append(b1, a.drop_first(), b);
        let r1 = run_spec(b1, a.drop_first());
        assert(opt_events(e) + (r1.1 + run_spec(r1.0, b).1) =~= (opt_events(e) + r1.1) + run_spec(
            r1.0,
            b,
        ).1);
    }
}

/// Feeding one more byte after the others.
proof fn lemma_run_push(buf: Seq<u8>, bytes: Seq<u8>)
    requires
        bytes.len() > 0,
    ensures
        run_spec(buf, bytes) == (
            run_spec(run_spec(buf, bytes.drop_last()).0, seq![bytes.last()]).0,
            run_spec(buf, bytes.drop_last()).1 + run_spec(
                run_spec(buf, bytes.drop_last()).0,
                seq![bytes.last()],
            ).1,
        ),
{
    assert(bytes.drop_last() + seq![bytes.last()] =~= bytes);
    lemma_run_append(buf, bytes.drop_last(), seq![bytes.last()]);
}

/// Feeding at most the bytes that the buffer wants decides at most one frame,
/// and only with the last of them; fewer bytes are kept in the buffer.
proof fn lemma_run_within_wanted(buf: Seq<u8>, bytes: Seq<u8>)
    requires
        decode_spec(buf) is Incomplete,
        bytes.len() <= wanted_spec(buf),
    ensures
        run_spec(buf, bytes).1.len() <= 1,
        bytes.len() < wanted_spec(buf) ==> run_spec(buf, bytes) == (buf + bytes, Seq::<Event>::empty()),
    decreases bytes.len(),
{
    if bytes.len() == 0 {
        assert(buf + bytes =~= buf);
    } else if wanted_spec(buf) == 1 {
        let st = step_spec(buf, bytes[0]);
        assert(bytes.drop_first() =~= Seq::<u8>::empty());
        assert(run_spec(st.0, Seq::<u8>::empty()).1.len() == 0);
        assert(run_spec(buf, bytes).1 == opt_events(st.1) + run_spec(st.0, bytes.drop_first()).1);
    } else {
        let nb = buf.push(bytes[0]);
        if buf.len() >= 5 {
            assert(nb.subrange(1, 5) =~= buf.subrange(1, 5));
        }
        if buf.len() >= 9 {
            assert(nb.subrange(5, 9) =~= buf.subrange(5, 9));
        }
        assert(decode_spec(nb) is Incomplete);
        assert(wanted_spec(nb) == wanted_spec(buf) - 1);
        lemma_run_within_wanted(nb, bytes.drop_first());
        assert(nb + bytes.drop_first() =~= buf + bytes);
    }
}

/// The event that a decided frame gives.
pub open spec fn event_of(d: Decoded) -> Event {
    match d {
        Decoded::Complete(m, _) => Event::Message(m),
        Decoded::Rejected(e) => Event::Rejected(e),
        Decoded::Incomplete => Event::Rejected(DecodeError::Framing),
    }
}

/// Feeding the rest of a frame after its first `k` bytes, where no longer
/// prefix but the whole frame is decided, gives exactly the frame's event.
proof fn lemma_run_rest_of_frame(s: Seq<u8>, k: int)
    requires
        0 <= k < s.len(),
        !(decode_spec(s) is Incomplete),
        forall|j: int| k < j < s.len() ==> (#[trigger] decode_spec(s.subrange(0, j))) is Incomplete,
    ensures
        run_spec(s.subrange(0, k), s.subrange(k, s.len() as int)) == (
            Seq::<u8>::empty(),
            seq![event_of(decode_spec(s))],
        ),
    decreases s.len() - k,
{
    let rest = s.subrange(k, s.len() as int);
    let e = event_of(decode_spec(s));
    assert(s.subrange(0, k).push(rest[0]) =~= s.subrange(0, k + 1));
    assert(rest.drop_first() =~= s.subrange(k + 1, s.len() as int));
    if k + 1 == s.len() {
        assert(s.subrange(0, k + 1) =~= s);
        assert(run_spec(Seq::<u8>::empty(), rest.drop_first()) == (
            Seq::<u8>::empty(),
            Seq::<Event>::empty(),
        ));
        assert(seq![e] + Seq::<Event>::empty() =~= seq![e]);
    } else {
        assert(decode_spec(s.subrange(0, k + 1)) is Incomplete);
        lemma_run_rest_of_frame(s, k + 1);
        assert(Seq::<Event>::empty() + seq![e] =~= seq![e]);
    }
}

/// From an empty buffer, a `MessageFrom` or `Welcome` frame whose length is
/// below 4, or whose name length reaches its length, is refused with
/// `Framing` as soon as the offending field is in, and no message comes out.
pub proof fn lemma_run_rejects_bad_lengths(s: Seq<u8>)
    requires
        s.len() >= 5,
        is_pair_code(s[0]),
        s.len() == 5 ==> declared_len(s) < 4,
        s.len() != 5 ==> s.len() == 9 && 4 <= declared_len(s) <= MAX_FRAME_LEN && declared_name_len(s)
            >= declared_len(s),
    ensures
        run_spec(Seq::empty(), s) == (
            Seq::<u8>::empty(),
            seq![Event::Rejected(DecodeError::Framing)],
        ),
{
    assert forall|j: int| 0 < j < s.len() implies (#[trigger] decode_spec(s.subrange(0, j))) is Incomplete by {
        let p = s.subrange(0, j);
        if j >= 5 {
            assert(p.subrange(1, 5) =~= s.subrange(1, 5));
        }
    }
    assert(s.subrange(0, 0) =~= Seq::<u8>::empty());
    assert(s.subrange(0, s.len() as int) =~= s);
    lemma_run_rest_of_frame(s, 0);
}

/// Every message but `AlreadyHere`: the reader consumes all that the encoder
/// writes for it.
pub open spec fn is_full_frame(m: Message) -> bool {
    is_valid(m) && !(m is AlreadyHere)
}

/// From an empty buffer, the bytes of a valid message other than
/// `AlreadyHere` decide exactly that message and leave the buffer empty.
pub proof fn lemma_run_encoded(m: Message)
    requires
        is_full_frame(m),
    ensures
        run_spec(Seq::empty(), encode_spec(m)) == (Seq::<u8>::empty(), seq![Event::Message(m)]),
{
    let s = encode_spec(m);
    lemma_decode_encode(m);
    assert(s[0] != ALREADY_HERE);
    lemma_prefixes_incomplete(s);
    assert(s.subrange(0, 0) =~= Seq::<u8>::empty());
    assert(s.subrange(0, s.len() as int) =~= s);
    lemma_run_rest_of_frame(s, 0);
}

/// Every proper prefix of a frame that is complete with all its bytes, and
/// is not `AlreadyHere`, is undecided.
proof fn lemma_prefixes_incomplete(s: Seq<u8>)
    requires
        s.len() > 0,
        s[0] != ALREADY_HERE,
        decode_spec(s) matches Decoded::Complete(_, n) && n == s.len(),
    ensures
        forall|j: int| 0 < j < s.len() ==> (#[trigger] decode_spec(s.subrange(0, j))) is Incomplete,
{
    assert forall|j: int| 0 < j < s.len() implies (#[trigger] decode_spec(s.subrange(0, j))) is Incomplete by {
        let p = s.subrange(0, j);
        if j >= 5 {
            assert(p.subrange(1, 5) =~= s.subrange(1, 5));
        }
        if j >= 9 {
            assert(p.subrange(5, 9) =~= s.subrange(5, 9));
        }
    }
}

/// The bytes of the messages `ms`, one after the other.
pub open spec fn encode_all(ms: Seq<Message>) -> Seq<u8>
    decreases ms.len(),
{
    if ms.len() == 0 {
        Seq::empty()
    } else {
        encode_spec(ms[0]) + encode_all(ms.drop_first())
    }
}

/// A stream of encoded messages, none of them `AlreadyHere`, fed from an
/// empty buffer, decides exactly those messages in order, and leaves the
/// buffer empty.
pub proof fn lemma_run_encoded_stream(ms: Seq<Message>)
    requires
        forall|i: int| 0 <= i < ms.len() ==> is_full_frame(#[trigger] ms[i]),
    ensures
        run_spec(Seq::empty(), encode_all(ms)) == (
            Seq::<u8>::empty(),
            ms.map_values(|m: Message| Event::Message(m)),
        ),
    decreases ms.len(),
{
    if ms.len() == 0 {
        assert(ms.map_values(|m: Message| Event::Message(m)) =~= Seq::<Event>::empty());
    } else {
        assert(is_full_frame(ms[0]));
        lemma_run_encoded(ms[0]);
        lemma_run_encoded_stream(ms.drop_first());
        lemma_run_append(Seq::empty(), encode_spec(ms[0]), encode_all(ms.drop_first()));
        assert(ms.map_values(|m: Message| Event::Message(m)) =~= seq![Event::Message(ms[0])]
            + ms.drop_first().map_values(|m: Message| Event::Message(m)));
    }
}

/// What a connection's read gave.
pub enum ReadOutcome {
    /// Bytes arrived.
    Bytes(Vec<u8>),
    /// Nothing was ready.
    WouldBlock,
    /// The peer reset or aborted the connection.
    Disconnected,
    /// Any other error of the read.
    Failed,
}

/// What one poll of a connection gave.
#[derive(PartialEq, Eq, Debug)]
pub enum Polled {
    /// No message yet.
    Nothing,
    /// A frame was decided.
    Decided(PollEvent),
    /// The peer is gone: the connection must be dropped.
    Disconnected,
    /// The read failed; the connection is kept and polled again.
    Failed,
}

/// The per-connection state of reassembly: the bytes of the frame received so
/// far.
pub struct FrameBuffer {
    buffer: Vec<u8>,
}

impl View for FrameBuffer {
    type V = Seq<u8>;

    closed spec fn view(&self) -> Seq<u8> {
        self.buffer@
    }
}

impl FrameBuffer {
    /// The buffer holds the start of a frame that is not yet decided.
    pub open spec fn wf(&self) -> bool {
        decode_spec(self@) is Incomplete
    }

    /// An empty buffer, waiting for a code byte.
    pub fn new() -> (r: FrameBuffer)
        ensures
            r@ == Seq::<u8>::empty(),
            r.wf(),
    {
        FrameBuffer { buffer: Vec::new() }
    }

    /// How many bytes the next read should take at most: those that complete
    /// the code byte, the length field or the payload.
    pub fn wanted(&self) -> (r: usize)
        requires
            self.wf(),
        ensures
            r == wanted_spec(self@),
            r >= 1,
    {
        let n = self.buffer.len();
        if n == 0 {
            1
        } else if n < 5 {
            5 - n
        } else if (self.buffer[0] == MESSAGE_FROM || self.buffer[0] == WELCOME) && n < 9 {
            9 - n
        } else {
            let quad = [self.buffer[1], self.buffer[2], self.buffer[3], self.buffer[4]];
            assert(quad@ =~= self@.subrange(1, 5));
            let len = crate::wire::bytes_to_uint(quad) as usize;
            5 + len - n
        }
    }

    /// Takes one byte; returns the frame that it decides, if any, and then
    /// starts over with an empty buffer.
    pub fn push(&mut self, b: u8) -> (r: Option<PollEvent>)
        ensures
            (final(self)@, match r {
                Some(e) => Some(e@),
                None => None,
            }) == step_spec(old(self)@, b),
            final(self).wf(),
    {
        self.buffer.push(b);
        match decode(self.buffer.as_slice()) {
            Ok(None) => None,
            Ok(Some((m, _))) => {
                self.buffer = Vec::new();
                Some(PollEvent::Message(m))
            },
            Err(e) => {
                self.buffer = Vec::new();
                Some(PollEvent::Rejected(e))
            },
        }
    }

    /// Takes the bytes in order; returns the frames that they decide, in order.
    pub fn feed(&mut self, bytes: &[u8]) -> (r: Vec<PollEvent>)
        ensures
            (final(self)@, events_of(r@)) == run_spec(old(self)@, bytes@),
            final(self).wf() || (bytes@.len() == 0 && final(self)@ == old(self)@),
    {
        let mut out: Vec<PollEvent> = Vec::new();
        let mut i: usize = 0;
        assert(bytes@.subrange(0, 0) =~= Seq::<u8>::empty());
        assert(events_of(out@) =~= Seq::<Event>::empty());
        while i < bytes.len()
            invariant
                i <= bytes@.len(),
                (self@, events_of(out@)) == run_spec(old(self)@, bytes@.subrange(0, i as int)),
                i > 0 ==> self.wf(),
                i == 0 ==> self@ == old(self)@,
            decreases bytes@.len() - i,
        {
            let ghost before = self@;
            let ghost done = out@;
            let ghost st = step_spec(before, bytes@[i as int]);
            let e = self.push(bytes[i]);
            match e {
                Some(e) => out.push(e),
                None => {},
            }
            i = i + 1;
            proof {
                let s = bytes@.subrange(0, i as int);
                assert(s.drop_last() =~= bytes@.subrange(0, i - 1));
                assert(s.last() == bytes@[i - 1]);
                lemma_run_push(old(self)@, s);
                let one = seq![bytes@[i - 1]];
                assert(one.drop_first() =~= Seq::<u8>::empty());
                assert(one[0] == bytes@[i - 1]);
                assert(run_spec(st.0, Seq::<u8>::empty()) == (st.0, Seq::<Event>::empty()));
                assert(opt_events(st.1) + Seq::<Event>::empty() =~= opt_events(st.1));
                assert(run_spec(before, one) == (st.0, opt_events(st.1)));
                assert(events_of(out@) =~= events_of(done) + opt_events(st.1));
            }
        }
        assert(bytes@.subrange(0, bytes@.len() as int) =~= bytes@);
        out
    }

    /// One poll of the connection: hands the outcome of its one read to the
    /// reassembler. A read takes at most the bytes that `wanted` asks for, so
    /// a poll decides at most one frame.
    pub fn poll(&mut self, outcome: ReadOutcome) -> (r: Polled)
        requires
            old(self).wf(),
            outcome matches ReadOutcome::Bytes(b) ==> b@.len() <= wanted_spec(old(self)@),
        ensures
            final(self).wf(),
            match outcome {
                ReadOutcome::Bytes(b) => {
                    let (nb, evs) = run_spec(old(self)@, b@);
                    &&& final(self)@ == nb
                    &&& evs.len() <= 1
                    &&& evs.len() == 0 ==> r is Nothing
                    &&& evs.len() == 1 ==> (r matches Polled::Decided(e) && e@ == evs[0])
                },
                ReadOutcome::WouldBlock => final(self)@ == old(self)@ && r is Nothing,
                ReadOutcome::Disconnected => final(self)@ == old(self)@ && r is Disconnected,
                ReadOutcome::Failed => final(self)@ == old(self)@ && r is Failed,
            },
    {
        match outcome {
            ReadOutcome::Bytes(b) => {
                proof {
                    lemma_run_within_wanted(self@, b@);
                }
                let mut evs = self.feed(b.as_slice());
                assert(events_of(evs@).len() == evs@.len());
                match evs.pop() {
                    Some(e) => Polled::Decided(e),
                    None => Polled::Nothing,
                }
            },
            ReadOutcome::WouldBlock => Polled::Nothing,
            ReadOutcome::Disconnected => Polled::Disconnected,
            ReadOutcome::Failed => Polled::Failed,
        }
    }
}

} // verus!
