//! What holds of every use of the buffered streams, whatever the raw handle
//! does.

use crate::buffered::buf_reader_line_writer_shim::{line_wrote, line_wrote_all};
use crate::buffered::buf_reader_writer::{raw_reads, stream_flushed, stream_read, StreamView};
use crate::buffered::read_buffer::{bypasses, read_through, ReaderView};
use crate::buffered::write_buffer::{
    emptied, flushed, lemma_flushed_conserves, placed, wrote, WriterView,
};
use crate::error::Error;
use crate::handle::{lemma_write_all_run_only_writes, write_verdict};
use crate::history::{
    lemma_extends_splits, lemma_one_event, lemma_only_writes, lemma_sent_concat, only_writes,
    received, sent, since, write_calls, Event,
};
use crate::search::{ends_line, lemma_lines_end, lines_end, NEWLINE};
use vstd::prelude::*;

verus! {

/// A flush loses nothing and repeats nothing, in however many pieces the
/// raw handle takes the bytes: what the raw writes took, followed by what
/// is still pending, is what was pending before. The raw writes of a flush
/// that succeeded took exactly what was pending, and left nothing.
pub proof fn lemma_flush_loses_nothing(before: StreamView, after: StreamView, r: Result<(), Error>)
    requires
        stream_flushed(before, after, r),
    ensures
        sent(after.history) + after.writer.pending == sent(before.history)
            + before.writer.pending,
        sent(since(before.history, after.history)) + after.writer.pending
            == before.writer.pending,
        r is Ok ==> {
            &&& after.writer.pending.len() == 0
            &&& sent(since(before.history, after.history)) == before.writer.pending
        },
        write_calls(since(before.history, after.history)) == since(
            before.history,
            after.history,
        ).len(),
        received(after.history) == received(before.history),
{
    let events = since(before.history, after.history);
    lemma_flushed_conserves(before.writer, events, after.writer, r);
    lemma_extends_splits(before.history, after.history);
    lemma_sent_concat(before.history, events);
    assert(sent(after.history) + after.writer.pending =~= sent(before.history) + (sent(events)
        + after.writer.pending));
    lemma_write_all_run_only_writes(before.writer.pending, events);
    lemma_only_writes(events);
    crate::history::lemma_received_concat(before.history, events);
    assert(received(before.history) + Seq::<u8>::empty() =~= received(before.history));
}

/// A buffered write loses nothing and repeats nothing: after a write that
/// reports `n` bytes, what the raw writes took, followed by what is
/// pending, is what was pending before followed by the first `n` bytes of
/// the write.
pub proof fn lemma_write_loses_nothing(
    before: WriterView,
    events: Seq<Event>,
    buf: Seq<u8>,
    after: WriterView,
    n: usize,
)
    requires
        before.wf(),
        buf.len() <= usize::MAX,
        wrote(before, events, buf, after, Ok(n)),
    ensures
        n <= buf.len(),
        sent(events) + after.pending == before.pending + buf.take(n as int),
        after.wf(),
{
    if buf.len() > before.room() {
        let k = events.len() - crate::buffered::write_buffer::direct_calls(before, buf.len());
        let first = events.take(k);
        let second = events.skip(k);
        assert(events =~= first + second);
        lemma_flushed_conserves(before, first, emptied(before), Ok(()));
        lemma_sent_concat(first, second);
        lemma_placed_loses_nothing(emptied(before), second, buf, after, n);
        assert(sent(events) + after.pending =~= before.pending + buf.take(n as int));
    } else {
        lemma_placed_loses_nothing(before, events, buf, after, n);
    }
}

/// Placing a write in a buffer that has room for it, or past an empty one,
/// loses nothing and repeats nothing.
pub proof fn lemma_placed_loses_nothing(
    before: WriterView,
    events: Seq<Event>,
    buf: Seq<u8>,
    after: WriterView,
    n: usize,
)
    requires
        before.wf(),
        buf.len() <= usize::MAX,
        buf.len() > before.capacity ==> before.pending.len() == 0,
        buf.len() <= before.capacity ==> buf.len() <= before.room(),
        placed(before, events, buf, after, Ok(n)),
    ensures
        n <= buf.len(),
        sent(events) + after.pending == before.pending + buf.take(n as int),
        after.wf(),
{
    if buf.len() > before.capacity {
        lemma_one_event(events[0]);
        assert(before.pending =~= Seq::<u8>::empty());
        assert(sent(events) + after.pending =~= before.pending + buf.take(n as int));
    } else {
        assert(sent(events) =~= Seq::<u8>::empty());
        assert(buf.take(n as int) =~= buf);
        assert(sent(events) + after.pending =~= before.pending + buf.take(n as int));
    }
}

/// A completed line never waits. After a line-buffered write that holds a
/// newline and is reported to have taken everything up to and including the
/// last one, all that was pending and all of those lines have reached the
/// raw handle, and what is pending is free of newlines: it is what of the
/// rest of the write was taken.
pub proof fn lemma_lines_are_flushed(
    before: WriterView,
    events: Seq<Event>,
    buf: Seq<u8>,
    after: WriterView,
    n: usize,
)
    requires
        before.wf(),
        buf.len() <= usize::MAX,
        buf.contains(NEWLINE),
        line_wrote(before, events, buf, after, Ok(n)),
        n >= lines_end(buf),
    ensures
        n <= buf.len(),
        sent(events) == before.pending + buf.take(lines_end(buf)),
        after.pending == buf.subrange(lines_end(buf), n as int),
        !after.pending.contains(NEWLINE),
{
    lemma_lines_end(buf);
    let end = lines_end(buf);
    let lines = buf.take(end);
    let tail = buf.skip(end);
    let front = events.drop_last();
    lemma_flushed_conserves(before, front, emptied(before), Ok(()));
    assert(events =~= front + seq![events.last()]);
    lemma_sent_concat(front, seq![events.last()]);
    lemma_one_event(events.last());
    match events.last() {
        Event::Write { data, accepted } => {
            match accepted {
                Ok(m) => {
                    assert(m == lines.len());
                    assert(lines.take(m as int) =~= lines);
                    let kept = crate::buffered::write_buffer::at_most(
                        tail.len(),
                        emptied(before).room(),
                    );
                    assert(after.pending =~= tail.take(kept as int));
                    assert(tail.take(kept as int) =~= buf.subrange(end, n as int));
                    if after.pending.contains(NEWLINE) {
                        let j = choose|j: int|
                            0 <= j < after.pending.len() && after.pending[j] == NEWLINE;
                        assert(tail[j] == NEWLINE);
                    }
                },
                Err(_) => {},
            }
        },
        _ => {},
    }
}

/// A completed line never waits, also when the write does not return
/// before all of it is taken. After a line-buffered write of all of a
/// buffer that holds a newline, everything that was pending and everything
/// up to and including the last newline has reached the raw handle; what is
/// pending is free of newlines and comes from behind the last newline.
pub proof fn lemma_all_lines_are_flushed(
    before: WriterView,
    events: Seq<Event>,
    buf: Seq<u8>,
    after: WriterView,
)
    requires
        before.wf(),
        buf.contains(NEWLINE),
        line_wrote_all(before, events, buf, after, Ok(())),
    ensures
        sent(events) + after.pending == before.pending + buf,
        sent(events).len() >= before.pending.len() + lines_end(buf),
        !after.pending.contains(NEWLINE),
{
    lemma_lines_end(buf);
    let tail = buf.skip(lines_end(buf));
    assert((sent(events) + after.pending).len() == (before.pending + buf).len());
    if after.pending.contains(NEWLINE) {
        let j = choose|j: int| 0 <= j < after.pending.len() && after.pending[j] == NEWLINE;
        assert(tail[j] == NEWLINE);
    }
}

/// No flush without need. A line-buffered write that holds no newline,
/// made while what is pending does not end a line, makes no raw call at all
/// if it fits beside what is pending: it is taken whole and waits.
pub proof fn lemma_no_spurious_flush(
    before: WriterView,
    events: Seq<Event>,
    buf: Seq<u8>,
    after: WriterView,
    r: Result<usize, Error>,
)
    requires
        !buf.contains(NEWLINE),
        !ends_line(before.pending),
        before.pending.len() + buf.len() <= before.capacity,
        line_wrote(before, events, buf, after, r),
    ensures
        events.len() == 0,
        write_calls(events) == 0,
        r == Ok::<usize, Error>(buf.len() as usize),
        after.pending == before.pending + buf,
{
}

/// A read drains what is pending. After a read that succeeded nothing is
/// pending: everything that was has reached the raw handle, and it had
/// done so before the raw read, if one was needed, was issued.
pub proof fn lemma_read_drains_pending(
    before: StreamView,
    after: StreamView,
    out_before: Seq<u8>,
    out_after: Seq<u8>,
    n: usize,
)
    requires
        stream_read(before, after, out_before, out_after, Ok(n)),
    ensures
        after.writer.pending.len() == 0,
        sent(since(before.history, after.history)) == before.writer.pending,
        ({
            let events = since(before.history, after.history);
            let k = events.len() - raw_reads(before.reader);
            &&& 0 <= k
            &&& only_writes(events.take(k))
            &&& sent(events.take(k)) == before.writer.pending
            &&& forall|i: int| k <= i < events.len() ==> (#[trigger] events[i]).is_read()
        }),
{
    let events = since(before.history, after.history);
    let k = events.len() - raw_reads(before.reader);
    let first = events.take(k);
    let second = events.skip(k);
    lemma_flushed_conserves(before.writer, first, after.writer, Ok(()));
    lemma_write_all_run_only_writes(before.writer.pending, first);
    assert(events =~= first + second);
    lemma_sent_concat(first, second);
    if second.len() > 0 {
        assert(second =~= seq![second[0]]);
        lemma_one_event(second[0]);
        assert(second[0].is_read());
        assert(second[0].sent() =~= Seq::<u8>::empty());
    } else {
        assert(sent(second) =~= Seq::<u8>::empty());
    }
    assert(sent(events) =~= before.writer.pending);
    assert forall|i: int| k <= i < events.len() implies (#[trigger] events[i]).is_read() by {
        assert(events[i] == second[i - k]);
    }
}

/// A read that goes past the read buffer gives what the same raw bytes
/// would have given through the buffer. Of two reads into buffers of the
/// same length, both with nothing held, one bypassing its read buffer and
/// one not, whose raw reads had the same outcome: both return the same, and
/// after success both callers hold the same bytes and neither read buffer
/// holds anything back.
pub proof fn lemma_bypass_gives_the_same(
    direct: ReaderView,
    direct_events: Seq<Event>,
    direct_out: Seq<u8>,
    direct_after: ReaderView,
    direct_r: Result<usize, Error>,
    buffered: ReaderView,
    buffered_events: Seq<Event>,
    buffered_out: Seq<u8>,
    buffered_after: ReaderView,
    buffered_r: Result<usize, Error>,
    out_before: Seq<u8>,
)
    requires
        out_before.len() <= usize::MAX,
        direct.unread.len() == 0,
        buffered.unread.len() == 0,
        bypasses(direct, out_before.len()),
        !bypasses(buffered, out_before.len()),
        read_through(direct, direct_events, out_before, direct_out, direct_after, direct_r),
        read_through(
            buffered,
            buffered_events,
            out_before,
            buffered_out,
            buffered_after,
            buffered_r,
        ),
        direct_events[0].is_read(),
        buffered_events[0].is_read(),
        direct_events[0]->got == buffered_events[0]->got,
    ensures
        direct_r == buffered_r,
        direct_r matches Ok(n) ==> {
            &&& direct_out.take(n as int) == buffered_out.take(n as int)
            &&& direct_out.take(n as int) == direct_events[0].received()
            &&& direct_after.unread.len() == 0
            &&& buffered_after.unread.len() == 0
        },
{
}

/// A sink that takes nothing is reported. A flush of a buffer that holds
/// something, all of whose raw writes took nothing, made exactly one raw
/// write, failed with `WriteZero`, and left the buffer as it was.
pub proof fn lemma_write_zero_is_reported(
    before: WriterView,
    events: Seq<Event>,
    after: WriterView,
    r: Result<(), Error>,
)
    requires
        before.pending.len() > 0,
        flushed(before, events, after, r),
        forall|i: int| 0 <= i < events.len() ==> (#[trigger] events[i]).took_nothing(),
    ensures
        r == Err::<(), Error>(Error::WriteZero),
        events.len() == 1,
        after.pending == before.pending,
{
    reveal(crate::handle::goes_on_until_last);
    lemma_flushed_conserves(before, events, after, r);
    let last = events.len() - 1;
    assert(write_verdict(events, last) == Some(Error::WriteZero));
    if last > 0 {
        assert(write_verdict(events, 0) == Some(Error::WriteZero));
    }
    lemma_one_event(events[0]);
    assert(events =~= seq![events[0]]);
    assert(events[0].sent() =~= Seq::<u8>::empty());
    assert(before.pending.skip(0) =~= before.pending);
}

/// Flushing twice is flushing once. A flush that follows a flush that
/// succeeded, with no write in between, makes no raw call, succeeds, and
/// changes nothing.
pub proof fn lemma_flush_is_idempotent(
    before: StreamView,
    between: StreamView,
    after: StreamView,
    r: Result<(), Error>,
)
    requires
        stream_flushed(before, between, Ok(())),
        stream_flushed(between, after, r),
    ensures
        r is Ok,
        since(between.history, after.history).len() == 0,
        write_calls(since(between.history, after.history)) == 0,
        after == between,
{
    lemma_flushed_conserves(
        before.writer,
        since(before.history, between.history),
        between.writer,
        Ok(()),
    );
    lemma_flushed_conserves(
        between.writer,
        since(between.history, after.history),
        after.writer,
        r,
    );
    assert(after.history =~= between.history);
}

} // verus!
