//! Cutting a byte stream into frames.
//!
//! A frame is a run of bytes that ends in the delimiter `0x00`. The device
//! collects one byte at a time in a buffer of fixed size ([`FrameAcc`]); the
//! host appends what a read delivered and takes complete frames off the front
//! ([`take_frame`]).

use vstd::prelude::*;

verus! {

/// Upper bound on an encoded and framed message, delimiter included.
pub const MAX_FRAME: usize = 64;

/// Place of the first delimiter, or the length if there is none.
pub open spec fn first_zero(s: Seq<u8>) -> int
    decreases s.len(),
{
    if s.len() == 0 {
        0
    } else if s[0] == 0 {
        0
    } else {
        1 + first_zero(s.drop_first())
    }
}

/// No byte is the delimiter.
pub open spec fn no_zero(s: Seq<u8>) -> bool {
    forall|i: int| 0 <= i < s.len() ==> s[i] != 0
}

/// `first_zero` marks the end of the longest delimiter-free prefix.
pub proof fn lemma_first_zero(s: Seq<u8>)
    ensures
        0 <= first_zero(s) <= s.len(),
        no_zero(s.take(first_zero(s))),
        first_zero(s) < s.len() ==> s[first_zero(s)] == 0,
    decreases s.len(),
{
    if s.len() != 0 && s[0] != 0 {
        let t = s.drop_first();
        lemma_first_zero(t);
        let n = first_zero(t);
        assert(t.take(n) == s.take(n + 1).drop_first());
        let u = s.take(n + 1);
        assert forall|i: int| 0 <= i < u.len() implies u[i] != 0 by {
            if i > 0 {
                assert(t.take(n)[i - 1] != 0);
            }
        }
    }
}

/// A delimiter-free prefix followed by a delimiter fixes `first_zero`.
pub proof fn lemma_first_zero_is(s: Seq<u8>, n: int)
    requires
        0 <= n <= s.len(),
        no_zero(s.take(n)),
        n == s.len() || s[n] == 0,
    ensures
        first_zero(s) == n,
{
    lemma_first_zero(s);
    let k = first_zero(s);
    if k < n {
        assert(s.take(n)[k] == s[k]);
    } else if n < k {
        assert(s.take(k)[n] == s[n]);
    }
}

/// What the accumulator holds after one more byte, and the frame that the
/// byte completed. A full accumulator swallows bytes until a delimiter
/// empties it.
pub open spec fn acc_step(pending: Seq<u8>, byte: u8) -> (Seq<u8>, Option<Seq<u8>>) {
    if pending.len() >= MAX_FRAME {
        (
            if byte == 0 {
                Seq::empty()
            } else {
                pending
            },
            None,
        )
    } else if byte == 0 {
        (Seq::empty(), Some(pending.push(byte)))
    } else {
        (pending.push(byte), None)
    }
}

/// What the accumulator holds after a whole stream, and every frame that the
/// stream completed, in order.
pub open spec fn acc_run(pending: Seq<u8>, stream: Seq<u8>) -> (Seq<u8>, Seq<Seq<u8>>)
    decreases stream.len(),
{
    if stream.len() == 0 {
        (pending, Seq::empty())
    } else {
        let (held, out) = acc_run(pending, stream.drop_last());
        let (next, frame) = acc_step(held, stream.last());
        (
            next,
            match frame {
                Some(f) => out.push(f),
                None => out,
            },
        )
    }
}

/// Fixed-capacity byte accumulator that yields complete frames.
pub struct FrameAcc {
    buf: [u8; MAX_FRAME],
    len: usize,
}

impl FrameAcc {
    /// The bytes collected since the last delimiter.
    pub closed spec fn pending(self) -> Seq<u8> {
        self.buf@.take(self.len as int)
    }

    /// The accumulator never claims more bytes than it has room for.
    pub closed spec fn inv(self) -> bool {
        self.len <= MAX_FRAME
    }

    /// An empty accumulator.
    pub fn new() -> (r: Self)
        ensures
            r.inv(),
            r.pending() == Seq::<u8>::empty(),
    {
        FrameAcc { buf: [0u8; MAX_FRAME], len: 0 }
    }

    /// Push one byte. Returns the complete frame, delimiter included, when the
    /// byte is a delimiter, and starts afresh. An overlong frame is dropped:
    /// collection resumes behind its delimiter.
    pub fn push(&mut self, byte: u8) -> (r: Option<&mut [u8]>)
        requires
            old(self).inv(),
        ensures
            final(self).inv(),
            final(self).pending() == acc_step(old(self).pending(), byte).0,
            match r {
                Some(frame) => acc_step(old(self).pending(), byte).1 == Some(frame@),
                None => acc_step(old(self).pending(), byte).1 is None,
            },
    {
        let ghost before = self.pending();
        if self.len < MAX_FRAME {
            self.buf[self.len] = byte;
            self.len = self.len + 1;
        } else {
            // Full: drop and wait for the next delimiter.
            if byte == 0 {
                self.len = 0;
            }
            return None;
        }
        assert(self.pending() =~= before.push(byte));
        if byte == 0 {
            let end: usize = self.len;
            self.len = 0;
            let whole: &mut [u8] = &mut self.buf;
            let (frame, _rest) = whole.split_at_mut(end);
            Some(frame)
        } else {
            None
        }
    }
}

/// Take the first complete frame, delimiter included, off the front of
/// `rx`. Without a delimiter nothing changes.
pub fn take_frame(rx: &mut Vec<u8>) -> (r: Option<Vec<u8>>)
    ensures
        ({
            let end = first_zero(old(rx)@);
            if end < old(rx)@.len() {
                &&& r matches Some(frame)
                &&& frame@ == old(rx)@.take(end + 1)
                &&& final(rx)@ == old(rx)@.skip(end + 1)
            } else {
                &&& r is None
                &&& final(rx)@ == old(rx)@
            }
        }),
{
    let ghost before = rx@;
    let mut end: usize = 0;
    while end < rx.len() && rx[end] != 0
        invariant
            rx@ == before,
            end <= rx@.len(),
            no_zero(rx@.take(end as int)),
        decreases rx@.len() - end,
    {
        end = end + 1;
    }
    proof {
        lemma_first_zero_is(rx@, end as int);
    }
    if end < rx.len() {
        let rest: Vec<u8> = rx.split_off(end + 1);
        let mut frame: Vec<u8> = rest;
        core::mem::swap(rx, &mut frame);
        assert(frame@ =~= before.take(end + 1));
        assert(rx@ =~= before.skip(end + 1));
        Some(frame)
    } else {
        None
    }
}

/// Whatever has been collected, and whatever was lost before, the accumulator
/// is empty behind a delimiter.
pub proof fn law_delimiter_resyncs(pending: Seq<u8>, stream: Seq<u8>)
    requires
        stream.len() > 0,
        stream.last() == 0,
    ensures
        acc_run(pending, stream).0 == Seq::<u8>::empty(),
{
}

/// A stream cut in two is the first part and then the second.
pub proof fn law_stream_splits(pending: Seq<u8>, a: Seq<u8>, b: Seq<u8>)
    ensures
        acc_run(pending, a + b).0 == acc_run(acc_run(pending, a).0, b).0,
        acc_run(pending, a + b).1 == acc_run(pending, a).1 + acc_run(acc_run(pending, a).0, b).1,
    decreases b.len(),
{
    if b.len() == 0 {
        assert(a + b =~= a);
        assert(acc_run(pending, a).1 + Seq::<Seq<u8>>::empty() =~= acc_run(pending, a).1);
    } else {
        assert((a + b).drop_last() =~= a + b.drop_last());
        law_stream_splits(pending, a, b.drop_last());
        let held = acc_run(pending, a);
        let tail = acc_run(held.0, b.drop_last());
        match acc_step(tail.0, b.last()).1 {
            Some(f) => {
                assert((held.1 + tail.1).push(f) =~= held.1 + tail.1.push(f));
            },
            None => {},
        }
    }
}

/// A delimiter-free run only collects, until the accumulator is full.
pub proof fn lemma_collects(pending: Seq<u8>, body: Seq<u8>)
    requires
        no_zero(body),
        pending.len() + body.len() <= MAX_FRAME,
    ensures
        acc_run(pending, body) == (pending + body, Seq::<Seq<u8>>::empty()),
    decreases body.len(),
{
    if body.len() == 0 {
        assert(pending + body =~= pending);
    } else {
        let front = body.drop_last();
        assert forall|i: int| 0 <= i < front.len() implies front[i] != 0 by {
            assert(front[i] == body[i]);
        }
        lemma_collects(pending, front);
        assert((pending + front).push(body.last()) =~= pending + body);
    }
}

/// A frame that fits comes out of an empty accumulator whole, on its
/// delimiter, and alone.
pub proof fn law_frame_comes_out(body: Seq<u8>)
    requires
        no_zero(body),
        body.len() < MAX_FRAME,
    ensures
        acc_run(Seq::empty(), body.push(0)) == (Seq::<u8>::empty(), seq![body.push(0)]),
{
    lemma_collects(Seq::empty(), body);
    assert(body.push(0).drop_last() =~= body);
    assert(Seq::<u8>::empty() + body =~= body);
    assert(Seq::<Seq<u8>>::empty().push(body.push(0)) =~= seq![body.push(0)]);
}

/// A full accumulator swallows a delimiter-free run.
proof fn lemma_swallows(pending: Seq<u8>, body: Seq<u8>)
    requires
        no_zero(body),
        pending.len() == MAX_FRAME,
    ensures
        acc_run(pending, body) == (pending, Seq::<Seq<u8>>::empty()),
    decreases body.len(),
{
    if body.len() != 0 {
        let front = body.drop_last();
        assert forall|i: int| 0 <= i < front.len() implies front[i] != 0 by {
            assert(front[i] == body[i]);
        }
        lemma_swallows(pending, front);
    }
}

/// A frame that does not fit is dropped, and the accumulator is empty again
/// behind its delimiter.
pub proof fn law_overlong_frame_is_dropped(body: Seq<u8>)
    requires
        no_zero(body),
        body.len() >= MAX_FRAME,
    ensures
        acc_run(Seq::empty(), body.push(0)) == (Seq::<u8>::empty(), Seq::<Seq<u8>>::empty()),
{
    let head = body.take(MAX_FRAME as int);
    let tail = body.skip(MAX_FRAME as int);
    lemma_collects(Seq::empty(), head);
    assert(Seq::<u8>::empty() + head =~= head);
    lemma_swallows(head, tail);
    assert(head + tail =~= body);
    law_stream_splits(Seq::empty(), head, tail);
    assert(Seq::<Seq<u8>>::empty() + Seq::<Seq<u8>>::empty() =~= Seq::<Seq<u8>>::empty());
    assert(body.push(0).drop_last() =~= body);
}

/// Every frame that comes out fits and ends in its only delimiter.
pub proof fn law_frames_are_delimited(pending: Seq<u8>, stream: Seq<u8>)
    requires
        pending.len() <= MAX_FRAME,
        no_zero(pending),
    ensures
        acc_run(pending, stream).0.len() <= MAX_FRAME,
        no_zero(acc_run(pending, stream).0),
        forall|k: int|
            #![trigger acc_run(pending, stream).1[k]]
            0 <= k < acc_run(pending, stream).1.len() ==> {
                let f = acc_run(pending, stream).1[k];
                &&& 0 < f.len() <= MAX_FRAME
                &&& f.last() == 0
                &&& no_zero(f.drop_last())
            },
    decreases stream.len(),
{
    if stream.len() != 0 {
        law_frames_are_delimited(pending, stream.drop_last());
        let held = acc_run(pending, stream.drop_last()).0;
        assert(held.push(stream.last()).drop_last() =~= held);
    }
}

/// The first frame of a stream is what comes before the first delimiter; without a
/// delimiter there is none.
pub proof fn law_first_frame_ends_at_the_first_delimiter(body: Seq<u8>, rest: Seq<u8>)
    requires
        forall|i: int| 0 <= i < body.len() ==> #[trigger] body[i] != 0,
    ensures
        first_zero(body.push(0) + rest) == body.len(),
        first_zero(body) == body.len(),
{
    let s = body.push(0) + rest;
    assert(s.take(body.len() as int) =~= body);
    lemma_first_zero_is(s, body.len() as int);
    assert(body.take(body.len() as int) =~= body);
    lemma_first_zero_is(body, body.len() as int);
}

/// While there is room a byte is collected behind those before it, and a delimiter
/// hands all of them out, itself the last, and empties the accumulator. Once there
/// are as many as a frame can have nothing is handed out.
pub proof fn law_byte_is_collected(pending: Seq<u8>, byte: u8)
    ensures
        pending.len() < 64 && byte != 0 ==> acc_step(pending, byte) == (
            pending.push(byte),
            None::<Seq<u8>>,
        ),
        pending.len() < 64 && byte == 0 ==> acc_step(pending, byte) == (
            Seq::<u8>::empty(),
            Some(pending.push(byte)),
        ),
        pending.len() >= 64 && byte != 0 ==> acc_step(pending, byte) == (pending, None::<Seq<u8>>),
        pending.len() >= 64 && byte == 0 ==> acc_step(pending, byte) == (
            Seq::<u8>::empty(),
            None::<Seq<u8>>,
        ),
{
}

} // verus!
