//! The line policy: which part of a write goes to the raw handle at once,
//! and which part may wait in the write buffer.

use crate::buffered::buf_reader_writer::{write_side_only, BufReaderWriter};
use crate::buffered::order::{
    ends_as, failed_within, lemma_in_order_start, lemma_step_flushed, lemma_step_run,
    lemma_step_wrote_all, pushes_in_order,
};
use crate::buffered::segments::{lemma_concat_split, marked_end, marked_end_of, slices, total_len};
use crate::buffered::write_buffer::{
    direct_calls, emptied, flushed, lemma_flushed_conserves, wrote, wrote_direct_then_buffered,
    wrote_all, wrote_direct_then_buffered_vectored, wrote_vectored, WriterView,
};
use crate::error::Error;
use crate::handle::ReadWrite;
use crate::history::{lemma_extends_transitive, sent, since, Event};
use crate::search::{ends_line, lemma_lines_end_at, lines_end, NEWLINE};
use vstd::prelude::*;

verus! {

/// What flushing a completed line makes of the buffer `before`: a buffer
/// whose last pending byte ends a line is flushed, any other is left alone.
pub open spec fn flushed_if_completed_line(
    before: WriterView,
    events: Seq<Event>,
    after: WriterView,
    r: Result<(), Error>,
) -> bool {
    if ends_line(before.pending) {
        flushed(before, events, after, r)
    } else {
        events.len() == 0 && after == before && r is Ok
    }
}

/// What a line-buffered write of `buf` makes of the buffer `before`, when
/// `events` are the raw calls made.
///
/// A `buf` without a newline is an ordinary buffered write, before which a
/// completed line that is still pending is flushed. A `buf` with a newline
/// is split behind its last newline: what is pending is flushed, the lines
/// go to the raw handle in one attempt, and only if all of them were taken
/// is as much of the rest buffered as fits. A failed flush fails the write
/// before any of `buf` is looked at.
pub open spec fn line_wrote(
    before: WriterView,
    events: Seq<Event>,
    buf: Seq<u8>,
    after: WriterView,
    r: Result<usize, Error>,
) -> bool {
    if !buf.contains(NEWLINE) {
        if ends_line(before.pending) {
            let k = events.len() - direct_calls(before, buf.len());
            ||| r matches Err(e) && flushed(before, events, after, Err(e))
            ||| {
                &&& k >= 0
                &&& flushed(before, events.take(k), emptied(before), Ok(()))
                &&& wrote(emptied(before), events.skip(k), buf, after, r)
            }
        } else {
            wrote(before, events, buf, after, r)
        }
    } else {
        let lines = buf.take(lines_end(buf));
        let tail = buf.skip(lines_end(buf));
        ||| r matches Err(e) && flushed(before, events, after, Err(e))
        ||| {
            &&& events.len() >= 1
            &&& flushed(before, events.drop_last(), emptied(before), Ok(()))
            &&& wrote_direct_then_buffered(emptied(before), lines, tail, events.last(), after, r)
        }
    }
}

/// An ordinary write into a buffer with nothing pending makes a raw call
/// only if it goes straight to the raw handle.
pub proof fn lemma_wrote_from_empty(
    before: WriterView,
    events: Seq<Event>,
    buf: Seq<u8>,
    after: WriterView,
    r: Result<usize, Error>,
)
    requires
        before.pending.len() == 0,
        wrote(before, events, buf, after, r),
    ensures
        events.len() == direct_calls(before, buf.len()),
{
    if buf.len() > before.room() {
        let k = events.len() - direct_calls(before, buf.len());
        if r is Err && flushed(before, events, after, Err(r->Err_0)) {
            lemma_flushed_conserves(before, events, after, Err(r->Err_0));
        } else {
            lemma_flushed_conserves(before, events.take(k), emptied(before), Ok(()));
        }
    }
}

/// As `line_wrote`, for a write of several segments. The lines are the
/// segments up to and including the last one that holds a newline, the rest
/// are the tail.
pub open spec fn line_wrote_vectored(
    before: WriterView,
    events: Seq<Event>,
    segs: Seq<Seq<u8>>,
    after: WriterView,
    r: Result<usize, Error>,
) -> bool {
    let end = marked_end(segs, NEWLINE);
    if end == 0 {
        if ends_line(before.pending) {
            let k = events.len() - direct_calls(before, total_len(segs));
            ||| r matches Err(e) && flushed(before, events, after, Err(e))
            ||| {
                &&& k >= 0
                &&& flushed(before, events.take(k), emptied(before), Ok(()))
                &&& wrote_vectored(emptied(before), events.skip(k), segs, after, r)
            }
        } else {
            wrote_vectored(before, events, segs, after, r)
        }
    } else {
        ||| r matches Err(e) && flushed(before, events, after, Err(e))
        ||| {
            &&& events.len() >= 1
            &&& flushed(before, events.drop_last(), emptied(before), Ok(()))
            &&& wrote_direct_then_buffered_vectored(
                emptied(before),
                segs.take(end),
                segs.skip(end),
                events.last(),
                after,
                r,
            )
        }
    }
}

/// As `lemma_wrote_from_empty`, for a write of several segments.
pub proof fn lemma_wrote_vectored_from_empty(
    before: WriterView,
    events: Seq<Event>,
    segs: Seq<Seq<u8>>,
    after: WriterView,
    r: Result<usize, Error>,
)
    requires
        before.pending.len() == 0,
        wrote_vectored(before, events, segs, after, r),
    ensures
        events.len() == direct_calls(before, total_len(segs)),
{
    if total_len(segs) > before.room() {
        let k = events.len() - direct_calls(before, total_len(segs));
        if r is Err && flushed(before, events, after, Err(r->Err_0)) {
            lemma_flushed_conserves(before, events, after, Err(r->Err_0));
        } else {
            lemma_flushed_conserves(before, events.take(k), emptied(before), Ok(()));
        }
    }
}

/// What a line-buffered write of all of `buf` makes of the buffer
/// `before`, when `events` are the raw calls made.
///
/// A `buf` without a newline is an ordinary buffered write of all of it,
/// before which a completed line that is still pending is flushed. With a
/// newline in `buf`, what is pending and `buf` leave as one stream of
/// bytes, in order and with nothing lost or repeated; the call returns
/// only when everything up to and including the last newline is out, and
/// what comes after it is pending if it fits in the buffer and out as well
/// if it does not. The call fails with the failure of the last raw
/// write, and then every byte up to some point in `buf` is out or pending.
pub open spec fn line_wrote_all(
    before: WriterView,
    events: Seq<Event>,
    buf: Seq<u8>,
    after: WriterView,
    r: Result<(), Error>,
) -> bool {
    if !buf.contains(NEWLINE) {
        if ends_line(before.pending) {
            ||| r matches Err(e) && flushed(before, events, after, Err(e))
            ||| exists|k: int|
                {
                    &&& 0 <= k <= events.len()
                    &&& flushed(before, #[trigger] events.take(k), emptied(before), Ok(()))
                    &&& wrote_all(emptied(before), events.skip(k), buf, after, r)
                }
        } else {
            wrote_all(before, events, buf, after, r)
        }
    } else {
        let stream = before.pending + buf;
        let tail = buf.skip(lines_end(buf));
        &&& pushes_in_order(stream, events)
        &&& ends_as(events, r)
        &&& after.capacity == before.capacity
        &&& !after.panicked
        &&& match r {
            Ok(()) => {
                &&& sent(events) + after.pending == stream
                &&& after.pending == if tail.len() <= before.capacity {
                    tail
                } else {
                    Seq::<u8>::empty()
                }
            },
            Err(_) => failed_within(
                stream,
                events,
                after.pending,
                before.pending.len() as int,
                buf.len() as int,
            ),
        }
    }
}

/// A failure inside the first bytes of a write is a failure inside the
/// write.
pub proof fn lemma_failed_within_more(
    stream: Seq<u8>,
    events: Seq<Event>,
    pending: Seq<u8>,
    upto: int,
    len: int,
    from: int,
    more: int,
)
    requires
        failed_within(stream, events, pending, upto, len),
        from <= upto,
        upto + len <= from + more,
    ensures
        failed_within(stream, events, pending, from, more),
{
    let k = choose|k: int|
        upto <= k <= upto + len && sent(events) + pending == #[trigger] stream.take(k);
    assert(from <= k <= from + more && sent(events) + pending == stream.take(k));
}

/// A buffered write of all of some bytes that fails leaves no raw write
/// under way when something was pending before.
pub proof fn lemma_flushed_conserves_panicked(
    before: WriterView,
    events: Seq<Event>,
    buf: Seq<u8>,
    after: WriterView,
    r: Result<(), Error>,
)
    requires
        before.wf(),
        before.pending.len() > 0,
        r is Err,
        wrote_all(before, events, buf, after, r),
    ensures
        !after.panicked,
{
    if buf.len() > before.room() {
        if flushed(before, events, after, Err(r->Err_0)) {
        } else {
            let k = choose|k: int|
                {
                    &&& 0 <= k <= events.len()
                    &&& flushed(before, #[trigger] events.take(k), emptied(before), Ok(()))
                    &&& crate::buffered::write_buffer::placed_all(
                        emptied(before),
                        events.skip(k),
                        buf,
                        after,
                        r,
                    )
                };
        }
    }
}

/// Once the lines have joined what was pending and all of it has been
/// flushed, no raw write is under way.
pub proof fn lemma_lines_out_clears_flag(
    before: WriterView,
    events: Seq<Event>,
    lines: Seq<u8>,
    mid: WriterView,
    more: Seq<Event>,
    after: WriterView,
)
    requires
        before.wf(),
        before.pending.len() > 0,
        lines.len() > 0,
        wrote_all(before, events, lines, mid, Ok(())),
        flushed(mid, more, after, Ok(())),
    ensures
        !after.panicked,
{
    lemma_flushed_conserves(mid, more, after, Ok(()));
    if lines.len() > before.room() {
        let k = choose|k: int|
            {
                &&& 0 <= k <= events.len()
                &&& flushed(before, #[trigger] events.take(k), emptied(before), Ok(()))
                &&& crate::buffered::write_buffer::placed_all(
                    emptied(before),
                    events.skip(k),
                    lines,
                    mid,
                    Ok(()),
                )
            };
        if lines.len() <= before.capacity {
            assert(mid.pending.len() > 0);
        }
    } else {
        assert(mid.pending.len() > 0);
    }
}

/// Lays the line policy over a buffered duplex stream for the length of a
/// borrow.
pub struct BufReaderLineWriterShim<'a, RW: ReadWrite> {
    /// The stream that the policy is laid over.
    pub buffer: &'a mut BufReaderWriter<RW>,
}

impl<'a, RW: ReadWrite> BufReaderLineWriterShim<'a, RW> {
    /// Lays the policy over `buffer` until the result is dropped.
    pub fn new(buffer: &'a mut BufReaderWriter<RW>) -> (s: Self)
        ensures
            *s.buffer == *old(buffer),
            *final(s.buffer) == *final(buffer),
    {
        BufReaderLineWriterShim { buffer }
    }

    /// The bytes that are pending.
    pub fn writer_buffered(&self) -> (r: &[u8])
        ensures
            r@ == old(self.buffer)@.writer.pending,
    {
        self.buffer.writer_buffer()
    }

    /// Flushes what is pending if its last byte ends a line.
    pub fn flush_if_completed_line(&mut self) -> (r: Result<(), Error>)
        requires
            old(self).buffer.wf(),
        ensures
            final(self).buffer.wf(),
            final(self).buffer.kept_unless_called(old(self).buffer),
            *final(final(self).buffer) == *final(old(self).buffer),
            write_side_only(old(self).buffer@, final(self).buffer@),
            flushed_if_completed_line(
                old(self).buffer@.writer,
                since(old(self).buffer@.history, final(self).buffer@.history),
                final(self).buffer@.writer,
                r,
            ),
    {
        let ghost start = self.buffer@.history;
        let pending = self.buffer.writer_buffer();
        let n: usize = pending.len();
        if n > 0 && pending[n - 1] == NEWLINE {
            self.buffer.flush_buf()
        } else {
            proof {
                assert(start.take(start.len() as int) =~= start);
            }
            Ok(())
        }
    }

    /// Writes `buf` by the line policy.
    pub fn write(&mut self, buf: &[u8]) -> (r: Result<usize, Error>)
        requires
            old(self).buffer.wf(),
        ensures
            final(self).buffer.wf(),
            final(self).buffer.kept_unless_called(old(self).buffer),
            *final(final(self).buffer) == *final(old(self).buffer),
            write_side_only(old(self).buffer@, final(self).buffer@),
            line_wrote(
                old(self).buffer@.writer,
                since(old(self).buffer@.history, final(self).buffer@.history),
                buf@,
                final(self).buffer@.writer,
                r,
            ),
    {
        let ghost start = self.buffer@.history;
        let ghost before = self.buffer@.writer;
        let len: usize = buf.len();
        let found = memchr::memrchr(NEWLINE, buf);
        proof {
            lemma_lines_end_at(buf@, found);
        }
        let newline_idx: usize = match found {
            None => {
                match self.flush_if_completed_line() {
                    Ok(()) => {},
                    Err(e) => {
                        return Err(e);
                    },
                }
                let ghost middle = self.buffer@.history;
                let ghost mid = self.buffer@.writer;
                let r = self.buffer.write(buf);
                proof {
                    let latest = self.buffer@.history;
                    lemma_extends_transitive(start, middle, latest);
                    let events = since(start, latest);
                    if ends_line(before.pending) {
                        lemma_flushed_conserves(before, since(start, middle), mid, Ok(()));
                        assert(mid.pending =~= Seq::<u8>::empty());
                        assert(mid == emptied(before));
                        lemma_wrote_from_empty(
                            mid,
                            since(middle, latest),
                            buf@,
                            self.buffer@.writer,
                            r,
                        );
                        let k = since(start, middle).len() as int;
                        assert(events.take(k) =~= since(start, middle));
                        assert(events.skip(k) =~= since(middle, latest));
                    } else {
                        assert(middle =~= start);
                    }
                }
                return r;
            },
            Some(i) => i + 1,
        };
        match self.buffer.flush_buf() {
            Ok(()) => {},
            Err(e) => {
                return Err(e);
            },
        }
        let ghost middle = self.buffer@.history;
        let ghost mid = self.buffer@.writer;
        let lines = &buf[0..newline_idx];
        let tail = &buf[newline_idx..len];
        let r = self.buffer.write_direct_then_buffer(lines, tail);
        proof {
            let latest = self.buffer@.history;
            lemma_extends_transitive(start, middle, latest);
            let events = since(start, latest);
            lemma_flushed_conserves(before, since(start, middle), mid, Ok(()));
            assert(mid.pending =~= Seq::<u8>::empty());
            assert(mid == emptied(before));
            assert(events.drop_last() =~= since(start, middle));
            assert(events.last() == latest.last());
            assert(lines@ =~= buf@.take(lines_end(buf@)));
            assert(tail@ =~= buf@.skip(lines_end(buf@)));
        }
        r
    }

    /// The raw handle, for direct use.
    pub fn inner_mut(&mut self) -> (r: &mut RW)
        ensures
            *r == old(self).buffer.handle(),
            final(self).buffer.handle() == *final(r),
            final(self).buffer@ == old(self).buffer@,
            final(self).buffer.wf() == old(self).buffer.wf(),
            *final(final(self).buffer) == *final(old(self).buffer),
    {
        self.buffer.get_mut()
    }

    /// Writes the segments `bufs` by the line policy.
    pub fn write_vectored(&mut self, bufs: &[&[u8]]) -> (r: Result<usize, Error>)
        requires
            old(self).buffer.wf(),
            total_len(slices(bufs@)) <= usize::MAX,
        ensures
            final(self).buffer.wf(),
            final(self).buffer.kept_unless_called(old(self).buffer),
            *final(final(self).buffer) == *final(old(self).buffer),
            write_side_only(old(self).buffer@, final(self).buffer@),
            line_wrote_vectored(
                old(self).buffer@.writer,
                since(old(self).buffer@.history, final(self).buffer@.history),
                slices(bufs@),
                final(self).buffer@.writer,
                r,
            ),
    {
        let ghost start = self.buffer@.history;
        let ghost before = self.buffer@.writer;
        let ghost segs = slices(bufs@);
        let last_newline_buf_end: usize = marked_end_of(bufs, NEWLINE);
        if last_newline_buf_end == 0 {
            match self.flush_if_completed_line() {
                Ok(()) => {},
                Err(e) => {
                    return Err(e);
                },
            }
            let ghost middle = self.buffer@.history;
            let ghost mid = self.buffer@.writer;
            let r = self.buffer.write_vectored(bufs);
            proof {
                let latest = self.buffer@.history;
                lemma_extends_transitive(start, middle, latest);
                let events = since(start, latest);
                if ends_line(before.pending) {
                    lemma_flushed_conserves(before, since(start, middle), mid, Ok(()));
                    assert(mid.pending =~= Seq::<u8>::empty());
                    assert(mid == emptied(before));
                    lemma_wrote_vectored_from_empty(
                        mid,
                        since(middle, latest),
                        segs,
                        self.buffer@.writer,
                        r,
                    );
                    let k = since(start, middle).len() as int;
                    assert(events.take(k) =~= since(start, middle));
                    assert(events.skip(k) =~= since(middle, latest));
                } else {
                    assert(middle =~= start);
                }
            }
            return r;
        }
        match self.buffer.flush_buf() {
            Ok(()) => {},
            Err(e) => {
                return Err(e);
            },
        }
        let ghost middle = self.buffer@.history;
        let ghost mid = self.buffer@.writer;
        let (lines, tail) = bufs.split_at(last_newline_buf_end);
        proof {
            let end = last_newline_buf_end as int;
            assert(slices(lines@) =~= segs.take(end));
            assert(slices(tail@) =~= segs.skip(end));
            assert(segs =~= segs.take(end) + segs.skip(end));
            lemma_concat_split(segs.take(end), segs.skip(end));
        }
        let r = self.buffer.write_direct_then_buffer_vectored(lines, tail);
        proof {
            let latest = self.buffer@.history;
            lemma_extends_transitive(start, middle, latest);
            let events = since(start, latest);
            lemma_flushed_conserves(before, since(start, middle), mid, Ok(()));
            assert(mid.pending =~= Seq::<u8>::empty());
            assert(mid == emptied(before));
            assert(events.drop_last() =~= since(start, middle));
            assert(events.last() == latest.last());
        }
        r
    }

    /// Writes all of `buf` by the line policy. With nothing pending the
    /// lines go straight to the raw handle; otherwise they join what is
    /// pending and leave with it in one flush. What comes after the last
    /// newline is written through the buffer.
    #[verifier::rlimit(60)]
    pub fn write_all(&mut self, buf: &[u8]) -> (r: Result<(), Error>)
        requires
            old(self).buffer.wf(),
        ensures
            final(self).buffer.wf(),
            final(self).buffer.kept_unless_called(old(self).buffer),
            *final(final(self).buffer) == *final(old(self).buffer),
            write_side_only(old(self).buffer@, final(self).buffer@),
            line_wrote_all(
                old(self).buffer@.writer,
                since(old(self).buffer@.history, final(self).buffer@.history),
                buf@,
                final(self).buffer@.writer,
                r,
            ),
    {
        let ghost start = self.buffer@.history;
        let ghost before = self.buffer@.writer;
        let len: usize = buf.len();
        let found = memchr::memrchr(NEWLINE, buf);
        proof {
            lemma_lines_end_at(buf@, found);
            self.buffer.lemma_wf_view();
        }
        match found {
            None => {
                match self.flush_if_completed_line() {
                    Ok(()) => {},
                    Err(e) => {
                        return Err(e);
                    },
                }
                let ghost middle = self.buffer@.history;
                let ghost mid = self.buffer@.writer;
                let r = self.buffer.write_all(buf);
                proof {
                    let latest = self.buffer@.history;
                    lemma_extends_transitive(start, middle, latest);
                    let events = since(start, latest);
                    if ends_line(before.pending) {
                        lemma_flushed_conserves(before, since(start, middle), mid, Ok(()));
                        assert(mid.pending =~= Seq::<u8>::empty());
                        assert(mid == emptied(before));
                        let k = since(start, middle).len() as int;
                        assert(events.take(k) =~= since(start, middle));
                        assert(events.skip(k) =~= since(middle, latest));
                    } else {
                        assert(middle =~= start);
                    }
                }
                r
            },
            Some(newline_idx) => {
                let lines = &buf[0..newline_idx + 1];
                let tail = &buf[newline_idx + 1..len];
                let ghost stream = before.pending + buf@;
                let ghost held = before.pending.len() as int;
                let ghost cut = held + lines@.len();
                let ghost nothing = Seq::<Event>::empty();
                proof {
                    assert(lines@ =~= stream.subrange(held, cut));
                    assert(tail@ =~= stream.subrange(cut, cut + tail@.len()));
                    assert(tail@ =~= buf@.skip(lines_end(buf@)));
                    assert(before.pending =~= stream.take(held));
                    lemma_in_order_start(stream, before.pending);
                    assert(start.take(start.len() as int) =~= start);
                }
                if self.writer_buffered().len() == 0 {
                    let r = self.buffer.write_all_direct(lines);
                    proof {
                        let events = since(start, self.buffer@.history);
                        assert(sent(nothing) =~= Seq::<u8>::empty());
                        lemma_step_run(stream, nothing, lines@, events, r);
                        assert(nothing + events =~= events);
                        assert(sent(events) + Seq::<u8>::empty() =~= sent(events));
                        if r is Err {
                            assert(sent(events) + self.buffer@.writer.pending =~= stream.take(
                                sent(events).len() as int,
                            ));
                        }
                    }
                    match r {
                        Ok(()) => {},
                        Err(e) => {
                            return Err(e);
                        },
                    }
                } else {
                    let r = self.buffer.write_all(lines);
                    let ghost first = self.buffer@.history;
                    let ghost mid = self.buffer@.writer;
                    proof {
                        let events = since(start, first);
                        lemma_step_wrote_all(stream, nothing, held, before, events, lines@, mid, r);
                        assert(nothing + events =~= events);
                        if r is Err {
                            lemma_failed_within_more(
                                stream,
                                events,
                                mid.pending,
                                held,
                                lines@.len() as int,
                                held,
                                buf@.len() as int,
                            );
                            lemma_flushed_conserves_panicked(before, events, lines@, mid, r);
                        }
                    }
                    match r {
                        Ok(()) => {},
                        Err(e) => {
                            return Err(e);
                        },
                    }
                    let r = self.buffer.flush_buf();
                    proof {
                        let latest = self.buffer@.history;
                        lemma_extends_transitive(start, first, latest);
                        let events = since(start, first);
                        let more = since(first, latest);
                        lemma_step_flushed(
                            stream,
                            events,
                            cut,
                            mid,
                            more,
                            self.buffer@.writer,
                            r,
                        );
                        assert(since(start, latest) =~= events + more);
                        if r is Err {
                            lemma_flushed_conserves(mid, more, self.buffer@.writer, r);
                            assert(held <= cut <= held + buf@.len());
                        } else {
                            assert(sent(events + more) + Seq::<u8>::empty() =~= sent(
                                events + more,
                            ));
                            lemma_lines_out_clears_flag(
                                before,
                                events,
                                lines@,
                                mid,
                                more,
                                self.buffer@.writer,
                            );
                        }
                    }
                    match r {
                        Ok(()) => {},
                        Err(e) => {
                            return Err(e);
                        },
                    }
                }
                let ghost second = self.buffer@.history;
                let ghost mid = self.buffer@.writer;
                let r = self.buffer.write_all(tail);
                proof {
                    let latest = self.buffer@.history;
                    lemma_extends_transitive(start, second, latest);
                    let events = since(start, second);
                    let more = since(second, latest);
                    assert(mid.pending =~= Seq::<u8>::empty());
                    lemma_step_wrote_all(
                        stream,
                        events,
                        cut,
                        mid,
                        more,
                        tail@,
                        self.buffer@.writer,
                        r,
                    );
                    assert(since(start, latest) =~= events + more);
                    assert(stream.take(stream.len() as int) =~= stream);
                    if r is Err {
                        lemma_failed_within_more(
                            stream,
                            events + more,
                            self.buffer@.writer.pending,
                            cut,
                            tail@.len() as int,
                            held,
                            buf@.len() as int,
                        );
                    } else {
                        assert(mid.pending + tail@ =~= tail@);
                    }
                }
                r
            },
        }
    }

    /// Forces everything that is pending out to the raw handle.
    pub fn flush(&mut self) -> (r: Result<(), Error>)
        requires
            old(self).buffer.wf(),
        ensures
            final(self).buffer.wf(),
            final(self).buffer.kept_unless_called(old(self).buffer),
            *final(final(self).buffer) == *final(old(self).buffer),
            write_side_only(old(self).buffer@, final(self).buffer@),
            flushed(
                old(self).buffer@.writer,
                since(old(self).buffer@.history, final(self).buffer@.history),
                final(self).buffer@.writer,
                r,
            ),
    {
        self.buffer.flush()
    }
}

} // verus!
