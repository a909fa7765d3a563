//! A raw duplex handle with a read-ahead buffer and a write-behind buffer.

use crate::buffered::read_buffer::{
    bytes_of, filled, read_through, read_through_vectored, ReadBuffer, ReaderView,
};
use crate::buffered::read_loops::{drained, read_exactly};
use crate::buffered::segments::{slices, total_len, vectors};
use crate::buffered::write_buffer::{
    at_most, flushed, lemma_flushed_conserves, wrote, wrote_all, wrote_direct_then_buffered,
    wrote_direct_then_buffered_vectored, wrote_vectored, WriteBuffer, WriterView,
};
use crate::handle::write_all_run;
use crate::buffered::{IntoInnerError, DEFAULT_BUF_SIZE};
use crate::error::Error;
use crate::handle::{ReadWrite, Traced};
use crate::history::{extends, lemma_extends_transitive, sent, since, Event};
use crate::text::text_of;
use vstd::prelude::*;
use vstd::string::StringExecFns;
use vstd::utf8::{decode_utf8, encode_utf8_decode_utf8, valid_utf8};

verus! {

/// What a buffered duplex stream stands for.
pub struct StreamView {
    /// The raw calls made so far.
    pub history: Seq<Event>,
    /// The read buffer.
    pub reader: ReaderView,
    /// The write buffer.
    pub writer: WriterView,
    /// Whether the stream was given up, so that nothing is flushed when it
    /// is torn down.
    pub abandoned: bool,
}

impl StreamView {
    /// Neither buffer holds more than its capacity.
    pub open spec fn wf(self) -> bool {
        self.reader.wf() && self.writer.wf()
    }
}

/// The number of raw reads that a read from the buffer `reader` issues: one
/// if nothing is held, none otherwise.
pub open spec fn raw_reads(reader: ReaderView) -> int {
    if reader.unread.len() > 0 {
        0
    } else {
        1
    }
}

/// The stream `after` differs from `before` in nothing but the write side
/// and the raw calls appended.
pub open spec fn write_side_only(before: StreamView, after: StreamView) -> bool {
    &&& extends(before.history, after.history)
    &&& after.reader == before.reader
    &&& after.abandoned == before.abandoned
}

/// What a flush makes of the stream `before`.
pub open spec fn stream_flushed(
    before: StreamView,
    after: StreamView,
    r: Result<(), Error>,
) -> bool {
    &&& write_side_only(before, after)
    &&& flushed(before.writer, since(before.history, after.history), after.writer, r)
}

/// What a read into a caller's buffer makes of the stream `before`. What is
/// pending is flushed first; if that fails, so does the read, and nothing is
/// read. Only then is the caller served, by the rules of `read_through`.
pub open spec fn stream_read(
    before: StreamView,
    after: StreamView,
    out_before: Seq<u8>,
    out_after: Seq<u8>,
    r: Result<usize, Error>,
) -> bool {
    let events = since(before.history, after.history);
    let k = events.len() - raw_reads(before.reader);
    &&& extends(before.history, after.history)
    &&& after.abandoned == before.abandoned
    &&& out_after.len() == out_before.len()
    &&& {
        ||| {
            &&& r matches Err(e) && flushed(before.writer, events, after.writer, Err(e))
            &&& after.reader == before.reader
            &&& out_after == out_before
        }
        ||| {
            &&& k >= 0
            &&& flushed(before.writer, events.take(k), after.writer, Ok(()))
            &&& read_through(before.reader, events.skip(k), out_before, out_after, after.reader, r)
        }
    }
}

/// As `stream_read`, for a read into several segments.
pub open spec fn stream_read_vectored(
    before: StreamView,
    after: StreamView,
    segs_before: Seq<Seq<u8>>,
    segs_after: Seq<Seq<u8>>,
    r: Result<usize, Error>,
) -> bool {
    let events = since(before.history, after.history);
    let k = events.len() - raw_reads(before.reader);
    &&& extends(before.history, after.history)
    &&& after.abandoned == before.abandoned
    &&& {
        ||| {
            &&& r matches Err(e) && flushed(before.writer, events, after.writer, Err(e))
            &&& after.reader == before.reader
            &&& segs_after == segs_before
        }
        ||| {
            &&& k >= 0
            &&& flushed(before.writer, events.take(k), after.writer, Ok(()))
            &&& read_through_vectored(
                before.reader,
                events.skip(k),
                segs_before,
                segs_after,
                after.reader,
                r,
            )
        }
    }
}

/// What a refill makes of the stream `before`. While something is held
/// nothing happens. Before the raw read that an empty buffer needs, what is
/// pending is flushed; if that fails, so does the refill.
pub open spec fn stream_filled(
    before: StreamView,
    after: StreamView,
    r: Result<Seq<u8>, Error>,
) -> bool {
    let events = since(before.history, after.history);
    &&& extends(before.history, after.history)
    &&& after.abandoned == before.abandoned
    &&& if before.reader.unread.len() > 0 {
        &&& events.len() == 0
        &&& after == before
        &&& r == Ok::<Seq<u8>, Error>(before.reader.unread)
    } else {
        ||| {
            &&& r matches Err(e) && flushed(before.writer, events, after.writer, Err(e))
            &&& after.reader == before.reader
        }
        ||| {
            &&& events.len() >= 1
            &&& flushed(before.writer, events.drop_last(), after.writer, Ok(()))
            &&& filled(before.reader, seq![events.last()], after.reader, r)
        }
    }
}

/// What reading to the end of the source makes of the stream `before`
/// and of the caller's vector. What is pending is flushed first; if that
/// fails, so does the call, and nothing is read. Then the source is read to
/// its end, by the rules of `drained`.
pub open spec fn stream_read_to_end(
    before: StreamView,
    after: StreamView,
    out_before: Seq<u8>,
    out_after: Seq<u8>,
    r: Result<usize, Error>,
) -> bool {
    let events = since(before.history, after.history);
    &&& extends(before.history, after.history)
    &&& after.abandoned == before.abandoned
    &&& {
        ||| {
            &&& r matches Err(e) && flushed(before.writer, events, after.writer, Err(e))
            &&& after.reader == before.reader
            &&& out_after == out_before
        }
        ||| exists|k: int|
            {
                &&& 0 <= k <= events.len()
                &&& flushed(before.writer, #[trigger] events.take(k), after.writer, Ok(()))
                &&& drained(before.reader, events.skip(k), out_before, out_after, after.reader, r)
            }
    }
}

/// What reading until the caller's buffer is full makes of the stream
/// `before`. What is pending is flushed first; if that fails, so does the
/// call, and nothing is read. Then the buffer is filled, by the rules of
/// `read_exactly`.
pub open spec fn stream_read_exact(
    before: StreamView,
    after: StreamView,
    out_before: Seq<u8>,
    out_after: Seq<u8>,
    r: Result<(), Error>,
) -> bool {
    let events = since(before.history, after.history);
    &&& extends(before.history, after.history)
    &&& after.abandoned == before.abandoned
    &&& out_after.len() == out_before.len()
    &&& {
        ||| {
            &&& r matches Err(e) && flushed(before.writer, events, after.writer, Err(e))
            &&& after.reader == before.reader
            &&& out_after == out_before
        }
        ||| exists|k: int|
            {
                &&& 0 <= k <= events.len()
                &&& flushed(before.writer, #[trigger] events.take(k), after.writer, Ok(()))
                &&& read_exactly(
                    before.reader,
                    events.skip(k),
                    out_before,
                    out_after,
                    after.reader,
                    r,
                )
            }
    }
}

/// What becomes of the bytes read to the end of a source when they are to
/// be text: a failed read fails the call; bytes that are valid UTF-8 are
/// appended as text, and the count of bytes is returned; any other bytes
/// fail the call with `InvalidData`. The text is changed only on success.
pub open spec fn as_text(
    bytes: Seq<u8>,
    read: Result<usize, Error>,
    text_before: Seq<char>,
    text_after: Seq<char>,
    r: Result<usize, Error>,
) -> bool {
    match read {
        Err(e) => r == Err::<usize, Error>(e) && text_after == text_before,
        Ok(n) => if valid_utf8(bytes) {
            r == Ok::<usize, Error>(n) && text_after == text_before + decode_utf8(bytes)
        } else {
            r == Err::<usize, Error>(Error::InvalidData) && text_after == text_before
        },
    }
}

/// What reading the rest of the source as text makes of the stream
/// `before` and of the caller's string: the source is read to its end by
/// the rules of `stream_read_to_end`, and the bytes become text by the
/// rules of `as_text`.
pub open spec fn stream_read_to_string(
    before: StreamView,
    after: StreamView,
    text_before: Seq<char>,
    text_after: Seq<char>,
    r: Result<usize, Error>,
) -> bool {
    exists|bytes: Seq<u8>, read: Result<usize, Error>|
        {
            &&& #[trigger] stream_read_to_end(before, after, Seq::empty(), bytes, read)
            &&& as_text(bytes, read, text_before, text_after, r)
        }
}

/// What tearing down makes of the stream `before`: one flush whose outcome
/// is dropped, unless a raw write never came back or the stream was given
/// up, in which case nothing is done.
pub open spec fn torn_down(before: StreamView, after: StreamView) -> bool {
    if before.writer.panicked || before.abandoned {
        after == before
    } else {
        exists|r: Result<(), Error>| #[trigger] stream_flushed(before, after, r)
    }
}

/// Wraps a raw duplex handle and buffers both directions. Writes are
/// collected and handed to the raw handle in large batches; reads are served
/// from large raw reads; and before the stream blocks on a read it hands
/// over whatever output is pending, so that a peer that waits for that
/// output before it answers is never kept waiting.
///
/// What is pending when the stream is dropped is lost unless `flush` or
/// `teardown` is called first; what was read ahead is lost in any case.
pub struct BufReaderWriter<RW: ReadWrite> {
    traced: Traced<RW>,
    reader: ReadBuffer,
    writer: WriteBuffer,
    abandoned: bool,
}

impl<RW: ReadWrite> View for BufReaderWriter<RW> {
    type V = StreamView;

    closed spec fn view(&self) -> StreamView {
        StreamView {
            history: self.traced.history(),
            reader: self.reader@,
            writer: self.writer@,
            abandoned: self.abandoned,
        }
    }
}

impl<RW: ReadWrite> BufReaderWriter<RW> {
    /// Every call on the raw handle leaves a record: unless the record has
    /// grown since `before`, the raw handle is as it was then.
    pub open spec fn kept_unless_called(&self, before: &Self) -> bool {
        self@.history.len() == before@.history.len() ==> self.handle() == before.handle()
    }

    /// The internal cursors are in order and the write buffer is within its
    /// capacity.
    pub closed spec fn wf(&self) -> bool {
        self.reader.wf() && self.writer.wf()
    }

    /// The raw handle.
    pub closed spec fn handle(&self) -> RW {
        self.traced.handle()
    }

    /// Neither buffer holds more than its capacity.
    pub proof fn lemma_wf_view(&self)
        requires
            self.wf(),
        ensures
            self@.wf(),
    {
        self.reader.lemma_wf_view();
    }

    /// A stream with buffers of the default capacity.
    pub fn new(inner: RW) -> (s: Self)
        ensures
            s.wf(),
            s.handle() == inner,
            s@ == (StreamView {
                history: Seq::empty(),
                reader: ReaderView { unread: Seq::empty(), capacity: DEFAULT_BUF_SIZE as nat },
                writer: WriterView {
                    pending: Seq::empty(),
                    capacity: DEFAULT_BUF_SIZE as nat,
                    panicked: false,
                },
                abandoned: false,
            }),
    {
        BufReaderWriter::with_capacities(DEFAULT_BUF_SIZE, DEFAULT_BUF_SIZE, inner)
    }

    /// A stream with buffers of the given capacities.
    pub fn with_capacities(reader_capacity: usize, writer_capacity: usize, inner: RW) -> (s: Self)
        ensures
            s.wf(),
            s.handle() == inner,
            s@ == (StreamView {
                history: Seq::empty(),
                reader: ReaderView { unread: Seq::empty(), capacity: reader_capacity as nat },
                writer: WriterView {
                    pending: Seq::empty(),
                    capacity: writer_capacity as nat,
                    panicked: false,
                },
                abandoned: false,
            }),
    {
        BufReaderWriter {
            traced: Traced::new(inner),
            reader: ReadBuffer::new(reader_capacity),
            writer: WriteBuffer::new(writer_capacity),
            abandoned: false,
        }
    }

    /// Hands what is pending to the raw handle, one raw write after another
    /// until all of it is out or a write fails. A raw write that takes
    /// nothing fails the flush with `WriteZero`; an interrupted one is
    /// repeated, up to `RETRY_LIMIT` times in a row; any other failure is
    /// passed on at once. However the flush ends, exactly the bytes that the
    /// handle took have left the buffer.
    pub fn flush_buf(&mut self) -> (r: Result<(), Error>)
        requires
            old(self).wf(),
        ensures
            final(self).wf(),
            final(self).kept_unless_called(old(self)),
            stream_flushed(old(self)@, final(self)@, r),
            sent(final(self)@.history) + final(self)@.writer.pending == sent(old(self)@.history)
                + old(self)@.writer.pending,
            old(self)@.writer.pending.len() == 0 ==> final(self).handle() == old(self).handle(),
    {
        self.writer.flush(&mut self.traced)
    }

    /// Buffers as much of `buf` as fits, without any raw call, and returns
    /// how many bytes that was.
    pub fn write_to_buf(&mut self, buf: &[u8]) -> (n: usize)
        requires
            old(self).wf(),
        ensures
            final(self).wf(),
            final(self).handle() == old(self).handle(),
            n == at_most(buf@.len(), old(self)@.writer.room()),
            final(self)@ == (StreamView {
                writer: old(self)@.writer.with_more(buf@.take(n as int)),
                ..old(self)@
            }),
    {
        self.writer.write_to_buf(buf)
    }

    /// The raw handle.
    pub fn get_ref(&self) -> (r: &RW)
        ensures
            *r == self.handle(),
    {
        self.traced.get_ref()
    }

    /// The raw handle, for direct use. Writing to it directly overtakes what
    /// is pending.
    pub fn get_mut(&mut self) -> (r: &mut RW)
        ensures
            *r == old(self).handle(),
            final(self).handle() == *final(r),
            final(self)@ == old(self)@,
            final(self).wf() == old(self).wf(),
    {
        self.traced.get_mut()
    }

    /// The bytes that are pending.
    pub fn writer_buffer(&self) -> (r: &[u8])
        ensures
            r@ == self@.writer.pending,
    {
        self.writer.buffer()
    }

    /// The bytes read ahead and not yet taken. Never refills.
    pub fn reader_buffer(&self) -> (r: &[u8])
        requires
            self.wf(),
        ensures
            r@ == self@.reader.unread,
    {
        self.reader.buffer()
    }

    /// The most bytes that can be pending.
    pub fn writer_capacity(&self) -> (n: usize)
        ensures
            n == self@.writer.capacity,
    {
        self.writer.capacity()
    }

    /// The most bytes that are read ahead at a time.
    pub fn reader_capacity(&self) -> (n: usize)
        ensures
            n == self@.reader.capacity,
    {
        self.reader.capacity()
    }

    /// Takes apart a stream in which nothing is pending, and returns the raw
    /// handle. What was read ahead is lost.
    pub fn into_handle(self) -> (r: RW)
        requires
            self@.writer.pending.len() == 0,
        ensures
            r == self.handle(),
    {
        self.traced.into_inner()
    }

    /// Flushes by `flush_buf` and, if that succeeds, takes the stream apart
    /// by `into_handle`. If the flush fails, the raw handle is not handed
    /// out: the stream comes back with the failure, unchanged but for what
    /// the flush did. What was read ahead is lost.
    pub fn into_inner(self) -> (r: Result<RW, IntoInnerError<Self>>)
        requires
            self.wf(),
        ensures
            match r {
                Ok(inner) => self@.writer.pending.len() == 0 ==> inner == self.handle(),
                Err(failed) => {
                    &&& failed.stream().wf()
                    &&& stream_flushed(self@, failed.stream()@, Err(failed.cause()))
                },
            },
            self@.writer.pending.len() == 0 ==> r is Ok,
    {
        let mut this = self;
        let flushed = this.flush_buf();
        proof {
            lemma_flushed_conserves(
                self@.writer,
                since(self@.history, this@.history),
                this@.writer,
                flushed,
            );
        }
        match flushed {
            Err(e) => Err(IntoInnerError::new(this, e)),
            Ok(()) => Ok(this.into_handle()),
        }
    }

    /// Forgets what was read ahead.
    pub fn discard_reader_buffer(&mut self)
        ensures
            old(self).wf() ==> final(self).wf(),
            final(self).handle() == old(self).handle(),
            final(self)@ == (StreamView {
                reader: ReaderView { unread: Seq::empty(), capacity: old(self)@.reader.capacity },
                ..old(self)@
            }),
    {
        self.reader.discard();
    }

    /// Marks the stream as not worth flushing, for a peer that is known to
    /// be gone: tearing the stream down will then leave what is pending
    /// where it is. Nothing else changes.
    pub fn abandon(&mut self)
        ensures
            final(self).wf() == old(self).wf(),
            final(self).handle() == old(self).handle(),
            final(self)@ == (StreamView { abandoned: true, ..old(self)@ }),
    {
        self.abandoned = true;
    }

    /// The flush of last resort, for the end of the stream's life: one
    /// attempt, whose failure is dropped. Nothing is attempted if a raw
    /// write was begun and never came back, since the bytes it was given
    /// must not go out twice, nor if the stream was abandoned.
    pub fn teardown(&mut self)
        requires
            old(self).wf(),
        ensures
            final(self).wf(),
            final(self).kept_unless_called(old(self)),
            torn_down(old(self)@, final(self)@),
    {
        if !self.writer.panicked() && !self.abandoned {
            let r = self.flush_buf();
            proof {
                assert(stream_flushed(old(self)@, self@, r));
            }
        }
    }

    /// Writes `buf` through the write buffer. If it does not fit beside
    /// what is pending, the buffer is flushed first. A `buf` larger than the
    /// whole buffer then goes to the raw handle in one attempt; any other is
    /// buffered whole.
    pub fn write(&mut self, buf: &[u8]) -> (r: Result<usize, Error>)
        requires
            old(self).wf(),
        ensures
            final(self).wf(),
            final(self).kept_unless_called(old(self)),
            write_side_only(old(self)@, final(self)@),
            wrote(
                old(self)@.writer,
                since(old(self)@.history, final(self)@.history),
                buf@,
                final(self)@.writer,
                r,
            ),
    {
        self.writer.write(&mut self.traced, buf)
    }

    /// Writes all of `buf` through the write buffer. If it does not fit
    /// beside what is pending, the buffer is flushed first. A `buf` larger
    /// than the whole buffer is then pushed out to the raw handle until all
    /// of it is taken; any other is buffered whole.
    pub fn write_all(&mut self, buf: &[u8]) -> (r: Result<(), Error>)
        requires
            old(self).wf(),
        ensures
            final(self).wf(),
            final(self).kept_unless_called(old(self)),
            write_side_only(old(self)@, final(self)@),
            wrote_all(
                old(self)@.writer,
                since(old(self)@.history, final(self)@.history),
                buf@,
                final(self)@.writer,
                r,
            ),
    {
        self.writer.write_all(&mut self.traced, buf)
    }

    /// Writes the segments `bufs` through the write buffer, by the rule of
    /// `write` applied to their lengths together.
    pub fn write_vectored(&mut self, bufs: &[&[u8]]) -> (r: Result<usize, Error>)
        requires
            old(self).wf(),
            total_len(slices(bufs@)) <= usize::MAX,
        ensures
            final(self).wf(),
            final(self).kept_unless_called(old(self)),
            write_side_only(old(self)@, final(self)@),
            wrote_vectored(
                old(self)@.writer,
                since(old(self)@.history, final(self)@.history),
                slices(bufs@),
                final(self)@.writer,
                r,
            ),
    {
        self.writer.write_vectored(&mut self.traced, bufs)
    }

    /// Writes `lines` straight to the raw handle, in one attempt, and then
    /// buffers as much of `tail` as fits. Nothing is buffered unless all of
    /// `lines` was taken. What is pending is not flushed first: the caller
    /// sees to it that nothing is.
    pub fn write_direct_then_buffer(&mut self, lines: &[u8], tail: &[u8]) -> (r: Result<
        usize,
        Error,
    >)
        requires
            old(self).wf(),
            lines@.len() + tail@.len() <= usize::MAX,
        ensures
            final(self).wf(),
            final(self).kept_unless_called(old(self)),
            write_side_only(old(self)@, final(self)@),
            since(old(self)@.history, final(self)@.history).len() == 1,
            wrote_direct_then_buffered(
                old(self)@.writer,
                lines@,
                tail@,
                final(self)@.history.last(),
                final(self)@.writer,
                r,
            ),
    {
        self.writer.write_direct_then_buffer(&mut self.traced, lines, tail)
    }

    /// As `write_direct_then_buffer`, for lines and a tail that come in
    /// segments: one raw write of the first of `lines` that holds anything,
    /// and then whole segments of `tail` into the buffer, up to the first
    /// that does not fit.
    pub fn write_direct_then_buffer_vectored(&mut self, lines: &[&[u8]], tail: &[&[u8]]) -> (r:
        Result<usize, Error>)
        requires
            old(self).wf(),
            total_len(slices(lines@)) + total_len(slices(tail@)) <= usize::MAX,
        ensures
            final(self).wf(),
            final(self).kept_unless_called(old(self)),
            write_side_only(old(self)@, final(self)@),
            since(old(self)@.history, final(self)@.history).len() == 1,
            wrote_direct_then_buffered_vectored(
                old(self)@.writer,
                slices(lines@),
                slices(tail@),
                final(self)@.history.last(),
                final(self)@.writer,
                r,
            ),
    {
        self.writer.write_direct_then_buffer_vectored(&mut self.traced, lines, tail)
    }

    /// Pushes all of `buf` out to the raw handle, past the write buffer,
    /// with as many raw writes as it takes. What is pending is not flushed
    /// first: the caller sees to it that nothing is.
    pub fn write_all_direct(&mut self, buf: &[u8]) -> (r: Result<(), Error>)
        requires
            old(self).wf(),
        ensures
            final(self).wf(),
            final(self).kept_unless_called(old(self)),
            write_side_only(old(self)@, final(self)@),
            write_all_run(buf@, since(old(self)@.history, final(self)@.history), r),
            final(self)@.writer == (WriterView { panicked: false, ..old(self)@.writer }),
    {
        self.writer.write_all_direct(&mut self.traced, buf)
    }

    /// Forces everything that is pending out to the raw handle.
    pub fn flush(&mut self) -> (r: Result<(), Error>)
        requires
            old(self).wf(),
        ensures
            final(self).wf(),
            final(self).kept_unless_called(old(self)),
            stream_flushed(old(self)@, final(self)@, r),
            sent(final(self)@.history) + final(self)@.writer.pending == sent(old(self)@.history)
                + old(self)@.writer.pending,
    {
        self.flush_buf()
    }

    /// Reads into `out`, after flushing what is pending.
    pub fn read(&mut self, out: &mut [u8]) -> (r: Result<usize, Error>)
        requires
            old(self).wf(),
        ensures
            final(self).wf(),
            final(self).kept_unless_called(old(self)),
            stream_read(old(self)@, final(self)@, old(out)@, final(out)@, r),
    {
        let ghost start = self@.history;
        match self.flush_buf() {
            Ok(()) => {},
            Err(e) => {
                return Err(e);
            },
        }
        let ghost middle = self@.history;
        let r = self.reader.read(&mut self.traced, out);
        proof {
            lemma_extends_transitive(start, middle, self@.history);
            let events = since(start, self@.history);
            let k = since(start, middle).len() as int;
            assert(events.take(k) =~= since(start, middle));
            assert(events.skip(k) =~= since(middle, self@.history));
        }
        r
    }

    /// Reads into the segments `bufs`, after flushing what is pending.
    pub fn read_vectored(&mut self, bufs: &mut [Vec<u8>]) -> (r: Result<usize, Error>)
        requires
            old(self).wf(),
            total_len(vectors(old(bufs)@)) <= usize::MAX,
        ensures
            final(self).wf(),
            final(self).kept_unless_called(old(self)),
            stream_read_vectored(
                old(self)@,
                final(self)@,
                vectors(old(bufs)@),
                vectors(final(bufs)@),
                r,
            ),
    {
        let ghost start = self@.history;
        match self.flush_buf() {
            Ok(()) => {},
            Err(e) => {
                return Err(e);
            },
        }
        let ghost middle = self@.history;
        let r = self.reader.read_vectored(&mut self.traced, bufs);
        proof {
            lemma_extends_transitive(start, middle, self@.history);
            let events = since(start, self@.history);
            let k = since(start, middle).len() as int;
            assert(events.take(k) =~= since(start, middle));
            assert(events.skip(k) =~= since(middle, self@.history));
        }
        r
    }

    /// Reads to the end of the source and appends everything to `out`,
    /// after flushing what is pending. Returns the number of bytes
    /// appended.
    pub fn read_to_end(&mut self, out: &mut Vec<u8>) -> (r: Result<usize, Error>)
        requires
            old(self).wf(),
        ensures
            final(self).wf(),
            final(self).kept_unless_called(old(self)),
            stream_read_to_end(old(self)@, final(self)@, old(out)@, final(out)@, r),
    {
        let ghost start = self@.history;
        match self.flush_buf() {
            Ok(()) => {},
            Err(e) => {
                return Err(e);
            },
        }
        let ghost middle = self@.history;
        let r = crate::buffered::read_loops::read_to_end(&mut self.reader, &mut self.traced, out);
        proof {
            lemma_extends_transitive(start, middle, self@.history);
            let events = since(start, self@.history);
            let k = since(start, middle).len() as int;
            assert(events.take(k) =~= since(start, middle));
            assert(events.skip(k) =~= since(middle, self@.history));
        }
        r
    }

    /// Reads until `out` is full, after flushing what is pending. A source
    /// that ends before that fails the call with `UnexpectedEof`.
    pub fn read_exact(&mut self, out: &mut [u8]) -> (r: Result<(), Error>)
        requires
            old(self).wf(),
        ensures
            final(self).wf(),
            final(self).kept_unless_called(old(self)),
            stream_read_exact(old(self)@, final(self)@, old(out)@, final(out)@, r),
    {
        let ghost start = self@.history;
        match self.flush_buf() {
            Ok(()) => {},
            Err(e) => {
                return Err(e);
            },
        }
        let ghost middle = self@.history;
        let r = crate::buffered::read_loops::read_exact(&mut self.reader, &mut self.traced, out);
        proof {
            lemma_extends_transitive(start, middle, self@.history);
            let events = since(start, self@.history);
            let k = since(start, middle).len() as int;
            assert(events.take(k) =~= since(start, middle));
            assert(events.skip(k) =~= since(middle, self@.history));
        }
        r
    }

    /// Reads to the end of the source and appends everything to `out` as
    /// text, after flushing what is pending. Bytes that are not valid UTF-8
    /// fail the call with `InvalidData` and leave `out` as it is. Returns
    /// the number of bytes read.
    pub fn read_to_string(&mut self, out: &mut String) -> (r: Result<usize, Error>)
        requires
            old(self).wf(),
        ensures
            final(self).wf(),
            final(self).kept_unless_called(old(self)),
            stream_read_to_string(old(self)@, final(self)@, old(out)@, final(out)@, r),
    {
        let mut bytes: Vec<u8> = Vec::new();
        let read = self.read_to_end(&mut bytes);
        let r = match read {
            Err(e) => Err(e),
            Ok(n) => match text_of(bytes.as_slice()) {
                Some(text) => {
                    proof {
                        encode_utf8_decode_utf8(text@);
                    }
                    out.append(text);
                    Ok(n)
                },
                None => Err(Error::InvalidData),
            },
        };
        proof {
            assert(stream_read_to_end(old(self)@, self@, Seq::empty(), bytes@, read));
            assert(as_text(bytes@, read, old(out)@, out@, r));
        }
        r
    }

    /// Makes sure that something is held, and returns what is unread. An
    /// empty buffer flushes what is pending and then issues one raw read.
    pub fn fill_buf(&mut self) -> (r: Result<&[u8], Error>)
        requires
            old(self).wf(),
        ensures
            final(self).wf(),
            final(self).kept_unless_called(old(self)),
            stream_filled(old(self)@, final(self)@, bytes_of(r)),
    {
        let ghost start = self@.history;
        if self.reader.is_empty() {
            match self.flush_buf() {
                Ok(()) => {},
                Err(e) => {
                    return Err(e);
                },
            }
        } else {
            proof {
                assert(start.take(start.len() as int) =~= start);
            }
        }
        let ghost middle = self@.history;
        let failure: Option<Error> = match self.reader.fill(&mut self.traced) {
            Ok(_) => None,
            Err(e) => Some(e),
        };
        proof {
            let latest = self@.history;
            lemma_extends_transitive(start, middle, latest);
            let events = since(start, latest);
            if old(self)@.reader.unread.len() == 0 {
                assert(events.drop_last() =~= since(start, middle));
                assert(seq![events.last()] =~= since(middle, latest));
            } else {
                assert(events =~= Seq::<Event>::empty());
                assert(latest =~= start);
            }
        }
        match failure {
            Some(e) => Err(e),
            None => Ok(self.reader.buffer()),
        }
    }

    /// Marks the first `amt` unread bytes as taken, or all of them if there
    /// are fewer.
    pub fn consume(&mut self, amt: usize)
        requires
            old(self).wf(),
        ensures
            final(self).wf(),
            final(self).handle() == old(self).handle(),
            final(self)@ == (StreamView {
                reader: ReaderView {
                    unread: old(self)@.reader.unread.skip(
                        at_most(amt as nat, old(self)@.reader.unread.len()) as int,
                    ),
                    capacity: old(self)@.reader.capacity,
                },
                ..old(self)@
            }),
    {
        self.reader.consume(amt);
    }
}

} // verus!
