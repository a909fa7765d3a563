//! The write-behind buffer: bytes that the caller was told are written and
//! that the raw handle has not been given yet.

use crate::buffered::segments::{
    concat, first_nonempty, first_nonempty_of, lemma_concat_take_next,
    lemma_first_nonempty_bounded, lemma_total_len_grows, lemma_whole_fit_resumes, slices,
    total_len, total_len_of, whole_fit,
};
use crate::error::Error;
use crate::handle::{
    lemma_offers_rest_sends_prefix, lemma_write_all_run_empty, lemma_write_all_run_failed,
    offers_rest, write_all_run, ReadWrite, Traced,
};
use crate::history::{
    extends, lemma_extends_splits, lemma_sent_concat, lemma_since_of_concat, sent, since, Event,
};
use vstd::prelude::*;

verus! {

/// What a write buffer stands for.
pub struct WriterView {
    /// The bytes accepted from the caller and still owed to the raw handle,
    /// oldest first.
    pub pending: Seq<u8>,
    /// The most bytes that the buffer holds.
    pub capacity: nat,
    /// Whether a raw write was begun and has not come back.
    pub panicked: bool,
}

impl WriterView {
    /// What is pending never exceeds the capacity.
    pub open spec fn wf(self) -> bool {
        self.pending.len() <= self.capacity
    }

    /// How many more bytes fit.
    pub open spec fn room(self) -> nat {
        (self.capacity - self.pending.len()) as nat
    }

    /// The view with `bytes` added at the end of what is pending.
    pub open spec fn with_more(self, bytes: Seq<u8>) -> WriterView {
        WriterView { pending: self.pending + bytes, ..self }
    }
}

/// The smaller of two lengths.
pub open spec fn at_most(a: nat, b: nat) -> nat {
    if a <= b {
        a
    } else {
        b
    }
}

/// What a flush makes of the buffer `before`, when `events` are the raw
/// writes it issued: the writes push the pending bytes out in order, exactly
/// the bytes that were taken leave the front of the buffer, and `r` is how
/// the run of writes ended.
pub open spec fn flushed(
    before: WriterView,
    events: Seq<Event>,
    after: WriterView,
    r: Result<(), Error>,
) -> bool {
    &&& write_all_run(before.pending, events, r)
    &&& after.pending == before.pending.skip(sent(events).len() as int)
    &&& after.capacity == before.capacity
    &&& after.panicked == (before.panicked && before.pending.len() == 0)
}

/// What one direct write of `lines` followed by buffering `tail` makes of
/// the buffer `before`, when `event` is the one raw call made. A failed
/// write fails the call; a write that took less than all of `lines` is
/// reported as it is and leaves the buffer alone; a complete one is followed
/// by as much of `tail` as fits.
pub open spec fn wrote_direct_then_buffered(
    before: WriterView,
    lines: Seq<u8>,
    tail: Seq<u8>,
    event: Event,
    after: WriterView,
    r: Result<usize, Error>,
) -> bool {
    match event {
        Event::Write { data, accepted } => {
            &&& data == lines
            &&& event.in_bounds()
            &&& match accepted {
                Err(e) => r == Err::<usize, Error>(e) && after == before,
                Ok(n) => if n < lines.len() {
                    r == Ok::<usize, Error>(n) && after == before
                } else {
                    let kept = at_most(tail.len(), before.room());
                    &&& r == Ok::<usize, Error>((n + kept) as usize)
                    &&& after == before.with_more(tail.take(kept as int))
                },
            }
        },
        _ => false,
    }
}

/// As `wrote_direct_then_buffered`, for lines and a tail that come in
/// segments. The one raw write is given the first of the `lines` that holds
/// anything. After a write that took as much as all `lines` hold together,
/// whole segments of `tail` are buffered, in order, up to the first that
/// does not fit.
pub open spec fn wrote_direct_then_buffered_vectored(
    before: WriterView,
    lines: Seq<Seq<u8>>,
    tail: Seq<Seq<u8>>,
    event: Event,
    after: WriterView,
    r: Result<usize, Error>,
) -> bool {
    match event {
        Event::Write { data, accepted } => {
            &&& data == first_nonempty(lines)
            &&& event.in_bounds()
            &&& match accepted {
                Err(e) => r == Err::<usize, Error>(e) && after == before,
                Ok(n) => if n < total_len(lines) {
                    r == Ok::<usize, Error>(n) && after == before
                } else {
                    let kept = tail.take(whole_fit(tail, before.room()) as int);
                    &&& r == Ok::<usize, Error>((n + total_len(kept)) as usize)
                    &&& after == before.with_more(concat(kept))
                },
            }
        },
        _ => false,
    }
}

/// The buffer after a flush that succeeded: nothing is pending.
pub open spec fn emptied(before: WriterView) -> WriterView {
    WriterView {
        pending: Seq::empty(),
        capacity: before.capacity,
        panicked: before.panicked && before.pending.len() == 0,
    }
}

/// What an ordinary write of `buf` makes of a buffer `before` in which room
/// has been made, when `events` are the raw calls made. A write larger than
/// the whole buffer goes to the raw handle in one attempt, whose answer is
/// the result; any other is appended to what is pending.
pub open spec fn placed(
    before: WriterView,
    events: Seq<Event>,
    buf: Seq<u8>,
    after: WriterView,
    r: Result<usize, Error>,
) -> bool {
    if buf.len() > before.capacity {
        &&& events == seq![Event::Write { data: buf, accepted: r }]
        &&& events[0].in_bounds()
        &&& after == WriterView { panicked: false, ..before }
    } else {
        &&& events.len() == 0
        &&& after == before.with_more(buf)
        &&& r == Ok::<usize, Error>(buf.len() as usize)
    }
}

/// As `placed`, for a write that does not return before all of `buf` is
/// out or a raw write has failed.
pub open spec fn placed_all(
    before: WriterView,
    events: Seq<Event>,
    buf: Seq<u8>,
    after: WriterView,
    r: Result<(), Error>,
) -> bool {
    if buf.len() > before.capacity {
        &&& write_all_run(buf, events, r)
        &&& after == WriterView { panicked: false, ..before }
    } else {
        &&& events.len() == 0
        &&& after == before.with_more(buf)
        &&& r is Ok
    }
}

/// As `placed`, for a write of several segments. When they are larger
/// together than the whole buffer, the first segment that holds anything
/// goes to the raw handle in one attempt; otherwise all of them are
/// appended in order.
pub open spec fn placed_vectored(
    before: WriterView,
    events: Seq<Event>,
    segs: Seq<Seq<u8>>,
    after: WriterView,
    r: Result<usize, Error>,
) -> bool {
    if total_len(segs) > before.capacity {
        &&& events == seq![Event::Write { data: first_nonempty(segs), accepted: r }]
        &&& events[0].in_bounds()
        &&& after == WriterView { panicked: false, ..before }
    } else {
        &&& events.len() == 0
        &&& after == before.with_more(concat(segs))
        &&& r == Ok::<usize, Error>(total_len(segs) as usize)
    }
}

/// The number of raw calls that come after the flush in a write of `len`
/// bytes: one if the bytes go straight to the raw handle, none if they are
/// buffered.
pub open spec fn direct_calls(before: WriterView, len: nat) -> int {
    if len > before.capacity {
        1
    } else {
        0
    }
}

/// What a buffered write of `buf` makes of the buffer `before`, when
/// `events` are the raw calls made. If `buf` does not fit beside what is
/// pending, the buffer is flushed first; a failure of that flush fails the
/// write, and nothing of `buf` is taken. Then `buf` is placed.
pub open spec fn wrote(
    before: WriterView,
    events: Seq<Event>,
    buf: Seq<u8>,
    after: WriterView,
    r: Result<usize, Error>,
) -> bool {
    if buf.len() > before.room() {
        let k = events.len() - direct_calls(before, buf.len());
        ||| r matches Err(e) && flushed(before, events, after, Err(e))
        ||| {
            &&& k >= 0
            &&& flushed(before, events.take(k), emptied(before), Ok(()))
            &&& placed(emptied(before), events.skip(k), buf, after, r)
        }
    } else {
        placed(before, events, buf, after, r)
    }
}

/// As `wrote`, for a write that does not return before all of `buf` is
/// buffered or out, or a raw write has failed.
pub open spec fn wrote_all(
    before: WriterView,
    events: Seq<Event>,
    buf: Seq<u8>,
    after: WriterView,
    r: Result<(), Error>,
) -> bool {
    if buf.len() > before.room() {
        ||| r matches Err(e) && flushed(before, events, after, Err(e))
        ||| exists|k: int|
            {
                &&& 0 <= k <= events.len()
                &&& flushed(before, #[trigger] events.take(k), emptied(before), Ok(()))
                &&& placed_all(emptied(before), events.skip(k), buf, after, r)
            }
    } else {
        placed_all(before, events, buf, after, r)
    }
}

/// As `wrote`, for a write of several segments.
pub open spec fn wrote_vectored(
    before: WriterView,
    events: Seq<Event>,
    segs: Seq<Seq<u8>>,
    after: WriterView,
    r: Result<usize, Error>,
) -> bool {
    if total_len(segs) > before.room() {
        let k = events.len() - direct_calls(before, total_len(segs));
        ||| r matches Err(e) && flushed(before, events, after, Err(e))
        ||| {
            &&& k >= 0
            &&& flushed(before, events.take(k), emptied(before), Ok(()))
            &&& placed_vectored(emptied(before), events.skip(k), segs, after, r)
        }
    } else {
        placed_vectored(before, events, segs, after, r)
    }
}

/// A flush neither loses nor repeats a byte: what the raw writes took,
/// followed by what is still pending, is what was pending before. After a
/// flush that succeeded nothing is pending.
pub proof fn lemma_flushed_conserves(
    before: WriterView,
    events: Seq<Event>,
    after: WriterView,
    r: Result<(), Error>,
)
    requires
        flushed(before, events, after, r),
    ensures
        sent(events) + after.pending == before.pending,
        r is Ok ==> after.pending.len() == 0 && sent(events) == before.pending,
        r is Err ==> after.pending.len() > 0,
        before.pending.len() == 0 ==> events.len() == 0 && r is Ok && after == before,
        before.pending.len() > 0 ==> events.len() > 0,
        after.wf() <== before.wf(),
{
    lemma_offers_rest_sends_prefix(before.pending, events);
    let k = sent(events).len() as int;
    assert(before.pending.take(k) + before.pending.skip(k) =~= before.pending);
    if before.pending.len() == 0 {
        assert(before.pending =~= Seq::<u8>::empty());
        lemma_write_all_run_empty(events, r);
        assert(after.pending =~= before.pending);
    } else if events.len() == 0 {
        assert(sent(events) =~= Seq::<u8>::empty());
    }
    match r {
        Ok(()) => {},
        Err(e) => {
            lemma_write_all_run_failed(before.pending, events, e);
        },
    }
}

/// Removes the first `n` bytes of `v` and moves the rest to the front.
fn remove_front(v: &mut Vec<u8>, n: usize)
    requires
        n <= old(v)@.len(),
    ensures
        final(v)@ == old(v)@.skip(n as int),
{
    if n == 0 {
        proof {
            assert(v@.skip(0) =~= v@);
        }
        return ;
    }
    let len: usize = v.len();
    let rest: usize = len - n;
    let mut i: usize = 0;
    while i < rest
        invariant
            0 < n <= len,
            rest == len - n,
            i <= rest,
            v@.len() == len,
            old(v)@.len() == len,
            forall|j: int| 0 <= j < i ==> v@[j] == old(v)@[j + n],
            forall|j: int| i <= j < len ==> v@[j] == old(v)@[j],
        decreases rest - i,
    {
        let b: u8 = v[i + n];
        v[i] = b;
        i = i + 1;
    }
    v.truncate(rest);
    proof {
        assert(v@ =~= old(v)@.skip(n as int));
    }
}

/// A growable buffer of bytes owed to a raw handle, bounded by a capacity.
pub struct WriteBuffer {
    storage: Vec<u8>,
    capacity: usize,
    // Set while a raw write is under way: if the handle breaks off in the
    // middle of one, the bytes here must not be written again on teardown.
    panicked: bool,
}

impl View for WriteBuffer {
    type V = WriterView;

    closed spec fn view(&self) -> WriterView {
        WriterView {
            pending: self.storage@,
            capacity: self.capacity as nat,
            panicked: self.panicked,
        }
    }
}

impl WriteBuffer {
    /// The buffer never holds more than its capacity.
    pub open spec fn wf(&self) -> bool {
        self@.wf()
    }

    /// An empty buffer that holds up to `capacity` bytes.
    pub fn new(capacity: usize) -> (b: Self)
        ensures
            b.wf(),
            b@ == (WriterView {
                pending: Seq::empty(),
                capacity: capacity as nat,
                panicked: false,
            }),
    {
        WriteBuffer { storage: Vec::with_capacity(capacity), capacity, panicked: false }
    }

    /// The bytes that are pending.
    pub fn buffer(&self) -> (r: &[u8])
        ensures
            r@ == self@.pending,
    {
        self.storage.as_slice()
    }

    /// The most bytes that the buffer holds.
    pub fn capacity(&self) -> (n: usize)
        ensures
            n == self@.capacity,
    {
        self.capacity
    }

    /// How many bytes are pending.
    pub fn len(&self) -> (n: usize)
        ensures
            n == self@.pending.len(),
    {
        self.storage.len()
    }

    /// Whether a raw write was begun and has not come back.
    pub fn panicked(&self) -> (b: bool)
        ensures
            b == self@.panicked,
    {
        self.panicked
    }

    /// Buffers as much of `buf` as fits, without any raw call, and returns
    /// how many bytes that was.
    pub fn write_to_buf(&mut self, buf: &[u8]) -> (n: usize)
        requires
            old(self).wf(),
        ensures
            final(self).wf(),
            n == at_most(buf@.len(), old(self)@.room()),
            final(self)@ == old(self)@.with_more(buf@.take(n as int)),
    {
        let available: usize = self.capacity - self.storage.len();
        let amt_to_buffer: usize = if buf.len() <= available {
            buf.len()
        } else {
            available
        };
        let ghost before = self.storage@;
        self.storage.extend_from_slice(&buf[0..amt_to_buffer]);
        proof {
            assert(buf@.subrange(0, amt_to_buffer as int) =~= buf@.take(amt_to_buffer as int));
            assert(self.storage@ =~= before + buf@.take(amt_to_buffer as int));
        }
        amt_to_buffer
    }

    /// Drains the buffer into the raw handle: one raw write after another,
    /// each of what is still unwritten, until all of it is out or a write
    /// fails. A write that takes nothing fails the flush with `WriteZero`,
    /// an interrupted one is repeated up to `RETRY_LIMIT` times in a row,
    /// and any other failure ends the flush at once. However the run ends,
    /// exactly the bytes that the handle took are removed from the front of
    /// the buffer.
    pub fn flush<RW: ReadWrite>(&mut self, traced: &mut Traced<RW>) -> (r: Result<(), Error>)
        requires
            old(self).wf(),
        ensures
            final(self).wf(),
            extends(old(traced).history(), final(traced).history()),
            final(traced).kept_unless_called(old(traced)),
        final(traced).kept_unless_called(old(traced)),
            flushed(
                old(self)@,
                since(old(traced).history(), final(traced).history()),
                final(self)@,
                r,
            ),
            sent(final(traced).history()) + final(self)@.pending == sent(old(traced).history())
                + old(self)@.pending,
            old(self)@.pending.len() == 0 ==> final(traced).handle() == old(traced).handle(),
    {
        let ghost start = traced.history();
        if self.storage.len() == 0 {
            proof {
                reveal(offers_rest);
                reveal(crate::handle::goes_on_until_last);
                assert(since(start, traced.history()) =~= Seq::<Event>::empty());
                assert(start.take(start.len() as int) =~= start);
                assert(self.storage@.skip(0) =~= self.storage@);
                assert(sent(Seq::<Event>::empty()) =~= Seq::<u8>::empty());
            }
            return Ok(());
        }
        self.panicked = true;
        let (written, r) = traced.send_all(self.storage.as_slice());
        self.panicked = false;
        let ghost before = self.storage@;
        remove_front(&mut self.storage, written);
        proof {
            let events = since(start, traced.history());
            lemma_flushed_conserves(old(self)@, events, self@, r);
            lemma_extends_splits(start, traced.history());
            lemma_sent_concat(start, events);
            assert(sent(traced.history()) + self@.pending =~= sent(start) + old(self)@.pending);
        }
        r
    }

    /// One raw write of `buf`, with no buffering. The buffer must be empty,
    /// or the bytes would overtake what is pending.
    pub fn write_direct<RW: ReadWrite>(&mut self, traced: &mut Traced<RW>, buf: &[u8]) -> (r:
        Result<usize, Error>)
        requires
            old(self).wf(),
        ensures
            final(self).wf(),
            final(self)@ == (WriterView { panicked: false, ..old(self)@ }),
            final(traced).history() == old(traced).history().push(
                Event::Write { data: buf@, accepted: r },
            ),
            r matches Ok(n) ==> n <= buf@.len(),
    {
        self.panicked = true;
        let r = traced.write(buf);
        self.panicked = false;
        r
    }

    /// Pushes all of `buf` out, with as many raw writes as it takes and no
    /// buffering.
    pub fn write_all_direct<RW: ReadWrite>(&mut self, traced: &mut Traced<RW>, buf: &[u8]) -> (r:
        Result<(), Error>)
        requires
            old(self).wf(),
        ensures
            final(self).wf(),
            final(self)@ == (WriterView { panicked: false, ..old(self)@ }),
            extends(old(traced).history(), final(traced).history()),
            final(traced).kept_unless_called(old(traced)),
        final(traced).kept_unless_called(old(traced)),
            write_all_run(buf@, since(old(traced).history(), final(traced).history()), r),
    {
        self.panicked = true;
        let (_, r) = traced.send_all(buf);
        self.panicked = false;
        r
    }

    /// Flushes if `need` more bytes would not fit beside what is pending.
    /// Returns the raw calls made, for the caller's own record.
    fn make_room<RW: ReadWrite>(&mut self, traced: &mut Traced<RW>, need: usize) -> (r: Result<
        (),
        Error,
    >)
        requires
            old(self).wf(),
        ensures
            final(self).wf(),
            extends(old(traced).history(), final(traced).history()),
            final(traced).kept_unless_called(old(traced)),
        final(traced).kept_unless_called(old(traced)),
            need > old(self)@.room() ==> flushed(
                old(self)@,
                since(old(traced).history(), final(traced).history()),
                final(self)@,
                r,
            ),
            need > old(self)@.room() && r is Ok ==> final(self)@ == emptied(old(self)@),
            need <= old(self)@.room() ==> {
                &&& r is Ok
                &&& final(self)@ == old(self)@
                &&& final(traced).history() == old(traced).history()
            },
    {
        if need > self.capacity - self.storage.len() {
            let ghost start = traced.history();
            let r = self.flush(traced);
            proof {
                lemma_flushed_conserves(old(self)@, since(start, traced.history()), self@, r);
                if r is Ok {
                    assert(self@.pending =~= Seq::<u8>::empty());
                }
            }
            r
        } else {
            proof {
                assert(traced.history().take(traced.history().len() as int)
                    =~= traced.history());
            }
            Ok(())
        }
    }

    /// Writes `buf` through the buffer: flushes first if `buf` does not fit
    /// beside what is pending, then hands a `buf` larger than the whole
    /// buffer to the raw handle in one attempt, and buffers any other.
    pub fn write<RW: ReadWrite>(&mut self, traced: &mut Traced<RW>, buf: &[u8]) -> (r: Result<
        usize,
        Error,
    >)
        requires
            old(self).wf(),
        ensures
            final(self).wf(),
            extends(old(traced).history(), final(traced).history()),
            final(traced).kept_unless_called(old(traced)),
        final(traced).kept_unless_called(old(traced)),
            wrote(
                old(self)@,
                since(old(traced).history(), final(traced).history()),
                buf@,
                final(self)@,
                r,
            ),
    {
        let ghost start = traced.history();
        match self.make_room(traced, buf.len()) {
            Ok(()) => {},
            Err(e) => {
                return Err(e);
            },
        }
        let ghost mid = self@;
        let ghost middle = traced.history();
        if buf.len() > self.capacity {
            let r = self.write_direct(traced, buf);
            proof {
                let event = Event::Write { data: buf@, accepted: r };
                assert(traced.history() =~= middle + seq![event]);
                lemma_since_of_concat(middle, seq![event]);
                crate::history::lemma_extends_transitive(start, middle, traced.history());
                let events = since(start, traced.history());
                let k = events.len() - 1;
                assert(events.take(k) =~= since(start, middle));
                assert(events.skip(k) =~= seq![event]);
            }
            r
        } else {
            let ghost before = self.storage@;
            self.storage.extend_from_slice(buf);
            proof {
                assert(self.storage@ =~= before + buf@);
                let events = since(start, traced.history());
                assert(events.take(events.len() as int) =~= events);
                assert(events.skip(events.len() as int) =~= Seq::<Event>::empty());
            }
            Ok(buf.len())
        }
    }

    /// Writes all of `buf` through the buffer: flushes first if `buf` does
    /// not fit beside what is pending, then pushes a `buf` larger than the
    /// whole buffer out to the raw handle, and buffers any other.
    pub fn write_all<RW: ReadWrite>(&mut self, traced: &mut Traced<RW>, buf: &[u8]) -> (r: Result<
        (),
        Error,
    >)
        requires
            old(self).wf(),
        ensures
            final(self).wf(),
            extends(old(traced).history(), final(traced).history()),
            final(traced).kept_unless_called(old(traced)),
        final(traced).kept_unless_called(old(traced)),
            wrote_all(
                old(self)@,
                since(old(traced).history(), final(traced).history()),
                buf@,
                final(self)@,
                r,
            ),
    {
        let ghost start = traced.history();
        match self.make_room(traced, buf.len()) {
            Ok(()) => {},
            Err(e) => {
                return Err(e);
            },
        }
        let ghost middle = traced.history();
        if buf.len() > self.capacity {
            let r = self.write_all_direct(traced, buf);
            proof {
                crate::history::lemma_extends_transitive(start, middle, traced.history());
                let events = since(start, traced.history());
                let k = since(start, middle).len() as int;
                assert(events.take(k) =~= since(start, middle));
                assert(events.skip(k) =~= since(middle, traced.history()));
            }
            r
        } else {
            let ghost before = self.storage@;
            self.storage.extend_from_slice(buf);
            proof {
                assert(self.storage@ =~= before + buf@);
                let events = since(start, traced.history());
                assert(events.take(events.len() as int) =~= events);
                assert(events.skip(events.len() as int) =~= Seq::<Event>::empty());
            }
            Ok(())
        }
    }

    /// Writes the segments `bufs` through the buffer: flushes first if they
    /// do not fit together beside what is pending, then hands the first
    /// segment that holds anything to the raw handle in one attempt if they
    /// are larger together than the whole buffer, and buffers all of them
    /// otherwise.
    pub fn write_vectored<RW: ReadWrite>(&mut self, traced: &mut Traced<RW>, bufs: &[&[u8]]) -> (r:
        Result<usize, Error>)
        requires
            old(self).wf(),
            total_len(slices(bufs@)) <= usize::MAX,
        ensures
            final(self).wf(),
            extends(old(traced).history(), final(traced).history()),
            final(traced).kept_unless_called(old(traced)),
        final(traced).kept_unless_called(old(traced)),
            wrote_vectored(
                old(self)@,
                since(old(traced).history(), final(traced).history()),
                slices(bufs@),
                final(self)@,
                r,
            ),
    {
        let ghost start = traced.history();
        let ghost segs = slices(bufs@);
        let total_len: usize = total_len_of(bufs);
        match self.make_room(traced, total_len) {
            Ok(()) => {},
            Err(e) => {
                return Err(e);
            },
        }
        let ghost middle = traced.history();
        let ghost mid = self@;
        if total_len > self.capacity {
            let nothing: Vec<u8> = Vec::new();
            let r = match first_nonempty_of(bufs) {
                Some(k) => self.write_direct(traced, bufs[k]),
                None => {
                    proof {
                        assert(nothing@ =~= first_nonempty(segs));
                    }
                    self.write_direct(traced, nothing.as_slice())
                },
            };
            proof {
                let event = Event::Write { data: first_nonempty(segs), accepted: r };
                assert(traced.history() =~= middle + seq![event]);
                lemma_since_of_concat(middle, seq![event]);
                crate::history::lemma_extends_transitive(start, middle, traced.history());
                let events = since(start, traced.history());
                let k = events.len() - 1;
                assert(events.take(k) =~= since(start, middle));
                assert(events.skip(k) =~= seq![event]);
            }
            r
        } else {
            let ghost before = self.storage@;
            let mut i: usize = 0;
            proof {
                assert(segs.take(0) =~= Seq::<Seq<u8>>::empty());
                assert(before + concat(segs.take(0)) =~= before);
            }
            while i < bufs.len()
                invariant
                    segs == slices(bufs@),
                    i <= bufs@.len(),
                    self.storage@ == before + concat(segs.take(i as int)),
                    self@.capacity == mid.capacity,
                    self@.panicked == mid.panicked,
                decreases bufs@.len() - i,
            {
                let ghost held = self.storage@;
                self.storage.extend_from_slice(bufs[i]);
                proof {
                    lemma_concat_take_next(segs, i as int);
                    assert(self.storage@ =~= held + segs[i as int]);
                    assert(self.storage@ =~= before + concat(segs.take(i as int + 1)));
                }
                i = i + 1;
            }
            proof {
                assert(segs.take(i as int) =~= segs);
                let events = since(start, traced.history());
                assert(events.take(events.len() as int) =~= events);
                assert(events.skip(events.len() as int) =~= Seq::<Event>::empty());
            }
            Ok(total_len)
        }
    }

    /// Writes `lines` straight to the raw handle, in one attempt, and then
    /// buffers as much of `tail` as fits. Nothing is buffered unless all of
    /// `lines` was taken.
    pub fn write_direct_then_buffer<RW: ReadWrite>(
        &mut self,
        traced: &mut Traced<RW>,
        lines: &[u8],
        tail: &[u8],
    ) -> (r: Result<usize, Error>)
        requires
            old(self).wf(),
            lines@.len() + tail@.len() <= usize::MAX,
        ensures
            final(self).wf(),
            extends(old(traced).history(), final(traced).history()),
            final(traced).kept_unless_called(old(traced)),
        final(traced).kept_unless_called(old(traced)),
            since(old(traced).history(), final(traced).history()).len() == 1,
            wrote_direct_then_buffered(
                old(self)@,
                lines@,
                tail@,
                final(traced).history().last(),
                final(self)@,
                r,
            ),
    {
        let ghost start = traced.history();
        let flushed = traced.write(lines);
        proof {
            let event = Event::Write { data: lines@, accepted: flushed };
            assert(traced.history() =~= start + seq![event]);
            lemma_since_of_concat(start, seq![event]);
        }
        let flushed: usize = match flushed {
            Ok(n) => n,
            Err(e) => {
                return Err(e);
            },
        };
        if flushed < lines.len() {
            return Ok(flushed);
        }
        let buffered: usize = self.write_to_buf(tail);
        Ok(flushed + buffered)
    }
    /// Writes the first of `lines` that holds anything straight to the raw
    /// handle, in one attempt, and then buffers whole segments of `tail`, in
    /// order, up to the first that does not fit. Nothing is buffered unless
    /// the write took as much as all `lines` hold together.
    pub fn write_direct_then_buffer_vectored<RW: ReadWrite>(
        &mut self,
        traced: &mut Traced<RW>,
        lines: &[&[u8]],
        tail: &[&[u8]],
    ) -> (r: Result<usize, Error>)
        requires
            old(self).wf(),
            total_len(slices(lines@)) + total_len(slices(tail@)) <= usize::MAX,
        ensures
            final(self).wf(),
            extends(old(traced).history(), final(traced).history()),
            final(traced).kept_unless_called(old(traced)),
        final(traced).kept_unless_called(old(traced)),
            since(old(traced).history(), final(traced).history()).len() == 1,
            wrote_direct_then_buffered_vectored(
                old(self)@,
                slices(lines@),
                slices(tail@),
                final(traced).history().last(),
                final(self)@,
                r,
            ),
    {
        let ghost start = traced.history();
        let ghost segs = slices(tail@);
        let nothing: Vec<u8> = Vec::new();
        let flushed = match first_nonempty_of(lines) {
            Some(k) => traced.write(lines[k]),
            None => {
                proof {
                    assert(nothing@ =~= first_nonempty(slices(lines@)));
                }
                traced.write(nothing.as_slice())
            },
        };
        proof {
            let event = Event::Write { data: first_nonempty(slices(lines@)), accepted: flushed };
            assert(traced.history() =~= start + seq![event]);
            lemma_since_of_concat(start, seq![event]);
        }
        let flushed: usize = match flushed {
            Ok(n) => n,
            Err(e) => {
                return Err(e);
            },
        };
        let lines_len: usize = total_len_of(lines);
        if flushed < lines_len {
            return Ok(flushed);
        }
        let ghost before = self.storage@;
        let ghost room = old(self)@.room();
        let mut buffered: usize = 0;
        let mut i: usize = 0;
        proof {
            assert(segs.take(0) =~= Seq::<Seq<u8>>::empty());
            assert(before + concat(segs.take(0)) =~= before);
            lemma_whole_fit_resumes(segs, room, 0);
        }
        proof {
            lemma_first_nonempty_bounded(slices(lines@));
        }
        while i < tail.len() && tail[i].len() <= self.capacity - self.storage.len()
            invariant
                segs == slices(tail@),
                i <= tail@.len(),
                room == self.capacity - before.len(),
                before.len() <= self.capacity,
                buffered == total_len(segs.take(i as int)),
                buffered <= room,
                self.storage@ == before + concat(segs.take(i as int)),
                self@.capacity == old(self)@.capacity,
                self@.panicked == old(self)@.panicked,
                whole_fit(segs, room) == i + whole_fit(
                    segs.skip(i as int),
                    (room - buffered) as nat,
                ),
                total_len(segs) <= usize::MAX,
            decreases tail@.len() - i,
        {
            let seg: &[u8] = tail[i];
            proof {
                assert(segs[i as int] == seg@);
            }
            let ghost held = self.storage@;
            self.storage.extend_from_slice(seg);
            proof {
                lemma_concat_take_next(segs, i as int);
                assert(self.storage@ =~= held + segs[i as int]);
                assert(self.storage@ =~= before + concat(segs.take(i as int + 1)));
                lemma_total_len_grows(segs, i as int + 1);
                lemma_whole_fit_resumes(segs, room, i as int + 1);
            }
            buffered = buffered + seg.len();
            i = i + 1;
        }
        proof {
            if i < tail@.len() {
                assert(segs.skip(i as int)[0] == segs[i as int]);
                assert(segs[i as int] == tail@[i as int]@);
            }
            assert(whole_fit(segs, room) == i);
            lemma_total_len_grows(segs, i as int);
        }
        Ok(flushed + buffered)
    }
}

} // verus!
