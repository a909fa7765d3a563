//! A buffered duplex stream that hands every completed line to the raw
//! handle as soon as it is written.

use crate::buffered::buf_reader_line_writer_shim::{
    line_wrote, line_wrote_all, line_wrote_vectored, BufReaderLineWriterShim,
};
use crate::buffered::buf_reader_writer::{
    stream_filled, stream_flushed, stream_read, stream_read_exact, stream_read_to_end,
    stream_read_to_string, stream_read_vectored, torn_down, write_side_only, BufReaderWriter,
    StreamView,
};
use crate::buffered::read_buffer::{bytes_of, ReaderView};
use crate::buffered::segments::{slices, total_len, vectors};
use crate::buffered::write_buffer::{at_most, lemma_flushed_conserves, WriterView};
use crate::buffered::IntoInnerError;
use crate::error::Error;
use crate::handle::ReadWrite;
use crate::history::{sent, since};
use vstd::prelude::*;

verus! {

/// The capacity of either buffer of a line-buffered stream for which none is
/// asked: lines are rarely long, and a large buffer only puts the decision
/// to flush off.
pub const LINE_BUF_SIZE: usize = 1024;

/// What a stream with the given capacities stands for before any use.
pub open spec fn fresh(reader_capacity: usize, writer_capacity: usize) -> StreamView {
    StreamView {
        history: Seq::empty(),
        reader: ReaderView { unread: Seq::empty(), capacity: reader_capacity as nat },
        writer: WriterView {
            pending: Seq::empty(),
            capacity: writer_capacity as nat,
            panicked: false,
        },
        abandoned: false,
    }
}

/// The line policy laid over a buffered duplex stream for good.
pub struct BufReaderLineWriterBackend<RW: ReadWrite> {
    inner: BufReaderWriter<RW>,
}

impl<RW: ReadWrite> View for BufReaderLineWriterBackend<RW> {
    type V = StreamView;

    closed spec fn view(&self) -> StreamView {
        self.inner@
    }
}

impl<RW: ReadWrite> BufReaderLineWriterBackend<RW> {
    /// Every call on the raw handle leaves a record: unless the record has
    /// grown since `before`, the raw handle is as it was then.
    pub open spec fn kept_unless_called(&self, before: &Self) -> bool {
        self@.history.len() == before@.history.len() ==> self.handle() == before.handle()
    }

    /// The internal cursors are in order and the write buffer is within its
    /// capacity.
    pub closed spec fn wf(&self) -> bool {
        self.inner.wf()
    }

    /// The raw handle.
    pub closed spec fn handle(&self) -> RW {
        self.inner.handle()
    }

    /// Neither buffer holds more than its capacity.
    pub proof fn lemma_wf_view(&self)
        requires
            self.wf(),
        ensures
            self@.wf(),
    {
        self.inner.lemma_wf_view();
    }

    /// A stream with buffers of the capacity for lines.
    pub fn new(inner: RW) -> (s: Self)
        ensures
            s.wf(),
            s.handle() == inner,
            s@ == fresh(LINE_BUF_SIZE, LINE_BUF_SIZE),
    {
        BufReaderLineWriterBackend::with_capacities(LINE_BUF_SIZE, LINE_BUF_SIZE, inner)
    }

    /// A stream with buffers of the given capacities.
    pub fn with_capacities(reader_capacity: usize, writer_capacity: usize, inner: RW) -> (s: Self)
        ensures
            s.wf(),
            s.handle() == inner,
            s@ == fresh(reader_capacity, writer_capacity),
    {
        BufReaderLineWriterBackend {
            inner: BufReaderWriter::with_capacities(reader_capacity, writer_capacity, inner),
        }
    }

    /// The raw handle.
    pub fn get_ref(&self) -> (r: &RW)
        ensures
            *r == self.handle(),
    {
        self.inner.get_ref()
    }

    /// The raw handle, for direct use. Writing to it directly overtakes
    /// what is pending.
    pub fn get_mut(&mut self) -> (r: &mut RW)
        ensures
            *r == old(self).handle(),
            final(self).handle() == *final(r),
            final(self)@ == old(self)@,
            final(self).wf() == old(self).wf(),
    {
        self.inner.get_mut()
    }

    /// Takes apart a stream in which nothing is pending, and returns the raw
    /// handle. What was read ahead is lost.
    pub fn into_handle(self) -> (r: RW)
        requires
            self@.writer.pending.len() == 0,
        ensures
            r == self.handle(),
    {
        self.inner.into_handle()
    }

    /// Flushes by `flush` and, if that succeeds, takes the stream apart by
    /// `into_handle`. If the flush fails, the raw handle is not handed out:
    /// the stream comes back with the failure, unchanged but for what the
    /// flush did. What was read ahead is lost.
    pub fn into_inner(self) -> (r: Result<RW, IntoInnerError<Self>>)
        requires
            self.wf(),
        ensures
            match r {
                Ok(inner) => self@.writer.pending.len() == 0 ==> inner == self.handle(),
                Err(failed) => {
                    &&& failed.stream().wf()
                    &&& stream_flushed(self@, failed.stream()@, Err(failed.cause()))
                },
            },
            self@.writer.pending.len() == 0 ==> r is Ok,
    {
        let mut this = self;
        let flushed = this.flush();
        proof {
            lemma_flushed_conserves(
                self@.writer,
                since(self@.history, this@.history),
                this@.writer,
                flushed,
            );
        }
        match flushed {
            Err(e) => Err(IntoInnerError::new(this, e)),
            Ok(()) => Ok(this.into_handle()),
        }
    }

    /// Writes `buf` by the line policy: everything up to and including the
    /// last newline goes to the raw handle at once, the rest may wait.
    pub fn write(&mut self, buf: &[u8]) -> (r: Result<usize, Error>)
        requires
            old(self).wf(),
        ensures
            final(self).wf(),
            final(self).kept_unless_called(old(self)),
            write_side_only(old(self)@, final(self)@),
            line_wrote(
                old(self)@.writer,
                since(old(self)@.history, final(self)@.history),
                buf@,
                final(self)@.writer,
                r,
            ),
    {
        let mut shim = BufReaderLineWriterShim::new(&mut self.inner);
        shim.write(buf)
    }

    /// Forces everything that is pending out to the raw handle.
    pub fn flush(&mut self) -> (r: Result<(), Error>)
        requires
            old(self).wf(),
        ensures
            final(self).wf(),
            final(self).kept_unless_called(old(self)),
            stream_flushed(old(self)@, final(self)@, r),
            sent(final(self)@.history) + final(self)@.writer.pending == sent(old(self)@.history)
                + old(self)@.writer.pending,
    {
        self.inner.flush()
    }

    /// Writes the segments `bufs` by the line policy.
    pub fn write_vectored(&mut self, bufs: &[&[u8]]) -> (r: Result<usize, Error>)
        requires
            old(self).wf(),
            total_len(slices(bufs@)) <= usize::MAX,
        ensures
            final(self).wf(),
            final(self).kept_unless_called(old(self)),
            write_side_only(old(self)@, final(self)@),
            line_wrote_vectored(
                old(self)@.writer,
                since(old(self)@.history, final(self)@.history),
                slices(bufs@),
                final(self)@.writer,
                r,
            ),
    {
        let mut shim = BufReaderLineWriterShim::new(&mut self.inner);
        shim.write_vectored(bufs)
    }

    /// Writes all of `buf` by the line policy.
    pub fn write_all(&mut self, buf: &[u8]) -> (r: Result<(), Error>)
        requires
            old(self).wf(),
        ensures
            final(self).wf(),
            final(self).kept_unless_called(old(self)),
            write_side_only(old(self)@, final(self)@),
            line_wrote_all(
                old(self)@.writer,
                since(old(self)@.history, final(self)@.history),
                buf@,
                final(self)@.writer,
                r,
            ),
    {
        let mut shim = BufReaderLineWriterShim::new(&mut self.inner);
        shim.write_all(buf)
    }

    /// Reads into `out`, after flushing what is pending.
    pub fn read(&mut self, out: &mut [u8]) -> (r: Result<usize, Error>)
        requires
            old(self).wf(),
        ensures
            final(self).wf(),
            final(self).kept_unless_called(old(self)),
            stream_read(old(self)@, final(self)@, old(out)@, final(out)@, r),
    {
        self.inner.read(out)
    }

    /// Reads into the segments `bufs`, after flushing what is pending.
    pub fn read_vectored(&mut self, bufs: &mut [Vec<u8>]) -> (r: Result<usize, Error>)
        requires
            old(self).wf(),
            total_len(vectors(old(bufs)@)) <= usize::MAX,
        ensures
            final(self).wf(),
            final(self).kept_unless_called(old(self)),
            stream_read_vectored(
                old(self)@,
                final(self)@,
                vectors(old(bufs)@),
                vectors(final(bufs)@),
                r,
            ),
    {
        self.inner.read_vectored(bufs)
    }

    /// Reads to the end of the source and appends everything to `out`,
    /// after flushing what is pending.
    pub fn read_to_end(&mut self, out: &mut Vec<u8>) -> (r: Result<usize, Error>)
        requires
            old(self).wf(),
        ensures
            final(self).wf(),
            final(self).kept_unless_called(old(self)),
            stream_read_to_end(old(self)@, final(self)@, old(out)@, final(out)@, r),
    {
        self.inner.read_to_end(out)
    }

    /// Reads until `out` is full, after flushing what is pending.
    pub fn read_exact(&mut self, out: &mut [u8]) -> (r: Result<(), Error>)
        requires
            old(self).wf(),
        ensures
            final(self).wf(),
            final(self).kept_unless_called(old(self)),
            stream_read_exact(old(self)@, final(self)@, old(out)@, final(out)@, r),
    {
        self.inner.read_exact(out)
    }

    /// Reads to the end of the source and appends everything to `out` as
    /// text, after flushing what is pending.
    pub fn read_to_string(&mut self, out: &mut String) -> (r: Result<usize, Error>)
        requires
            old(self).wf(),
        ensures
            final(self).wf(),
            final(self).kept_unless_called(old(self)),
            stream_read_to_string(old(self)@, final(self)@, old(out)@, final(out)@, r),
    {
        self.inner.read_to_string(out)
    }

    /// Makes sure that something is held, and returns what is unread. An
    /// empty buffer flushes what is pending and then issues one raw read.
    pub fn fill_buf(&mut self) -> (r: Result<&[u8], Error>)
        requires
            old(self).wf(),
        ensures
            final(self).wf(),
            final(self).kept_unless_called(old(self)),
            stream_filled(old(self)@, final(self)@, bytes_of(r)),
    {
        self.inner.fill_buf()
    }

    /// Marks the first `amt` unread bytes as taken, or all of them if there
    /// are fewer.
    pub fn consume(&mut self, amt: usize)
        requires
            old(self).wf(),
        ensures
            final(self).wf(),
            final(self).handle() == old(self).handle(),
            final(self)@ == (StreamView {
                reader: ReaderView {
                    unread: old(self)@.reader.unread.skip(
                        at_most(amt as nat, old(self)@.reader.unread.len()) as int,
                    ),
                    capacity: old(self)@.reader.capacity,
                },
                ..old(self)@
            }),
    {
        self.inner.consume(amt);
    }

    /// Marks the stream as not worth flushing when it is torn down.
    pub fn abandon(&mut self)
        ensures
            final(self).wf() == old(self).wf(),
            final(self).handle() == old(self).handle(),
            final(self)@ == (StreamView { abandoned: true, ..old(self)@ }),
    {
        self.inner.abandon();
    }

    /// The flush of last resort, whose failure is dropped. Nothing is
    /// attempted after a raw write that never came back, nor on an
    /// abandoned stream.
    pub fn teardown(&mut self)
        requires
            old(self).wf(),
        ensures
            final(self).wf(),
            final(self).kept_unless_called(old(self)),
            torn_down(old(self)@, final(self)@),
    {
        self.inner.teardown();
    }

    /// The bytes read ahead and not yet taken. Never refills.
    pub fn reader_buffer(&self) -> (r: &[u8])
        requires
            self.wf(),
        ensures
            r@ == self@.reader.unread,
    {
        self.inner.reader_buffer()
    }

    /// The most bytes that are read ahead at a time.
    pub fn reader_capacity(&self) -> (n: usize)
        ensures
            n == self@.reader.capacity,
    {
        self.inner.reader_capacity()
    }

    /// The bytes that are pending.
    pub fn writer_buffer(&self) -> (r: &[u8])
        ensures
            r@ == self@.writer.pending,
    {
        self.inner.writer_buffer()
    }

    /// The most bytes that can be pending.
    pub fn writer_capacity(&self) -> (n: usize)
        ensures
            n == self@.writer.capacity,
    {
        self.inner.writer_capacity()
    }
}

/// Wraps a raw duplex handle, buffers both directions, and flushes the
/// output whenever a newline has been written, so that a completed line
/// never waits in the buffer. Like every buffered stream it flushes what is
/// pending before it blocks on a read.
pub struct BufReaderLineWriter<RW: ReadWrite> {
    inner: BufReaderLineWriterBackend<RW>,
}

impl<RW: ReadWrite> View for BufReaderLineWriter<RW> {
    type V = StreamView;

    closed spec fn view(&self) -> StreamView {
        self.inner@
    }
}

impl<RW: ReadWrite> BufReaderLineWriter<RW> {
    /// Every call on the raw handle leaves a record: unless the record has
    /// grown since `before`, the raw handle is as it was then.
    pub open spec fn kept_unless_called(&self, before: &Self) -> bool {
        self@.history.len() == before@.history.len() ==> self.handle() == before.handle()
    }

    /// The internal cursors are in order and the write buffer is within its
    /// capacity.
    pub closed spec fn wf(&self) -> bool {
        self.inner.wf()
    }

    /// The raw handle.
    pub closed spec fn handle(&self) -> RW {
        self.inner.handle()
    }

    /// Neither buffer holds more than its capacity.
    pub proof fn lemma_wf_view(&self)
        requires
            self.wf(),
        ensures
            self@.wf(),
    {
        self.inner.lemma_wf_view();
    }

    /// A stream with buffers of the capacity for lines.
    pub fn new(inner: RW) -> (s: Self)
        ensures
            s.wf(),
            s.handle() == inner,
            s@ == fresh(LINE_BUF_SIZE, LINE_BUF_SIZE),
    {
        BufReaderLineWriter { inner: BufReaderLineWriterBackend::new(inner) }
    }

    /// A stream with buffers of the given capacities.
    pub fn with_capacities(reader_capacity: usize, writer_capacity: usize, inner: RW) -> (s: Self)
        ensures
            s.wf(),
            s.handle() == inner,
            s@ == fresh(reader_capacity, writer_capacity),
    {
        BufReaderLineWriter {
            inner: BufReaderLineWriterBackend::with_capacities(
                reader_capacity,
                writer_capacity,
                inner,
            ),
        }
    }

    /// The raw handle.
    pub fn get_ref(&self) -> (r: &RW)
        ensures
            *r == self.handle(),
    {
        self.inner.get_ref()
    }

    /// The raw handle, for direct use. Writing to it directly overtakes
    /// what is pending.
    pub fn get_mut(&mut self) -> (r: &mut RW)
        ensures
            *r == old(self).handle(),
            final(self).handle() == *final(r),
            final(self)@ == old(self)@,
            final(self).wf() == old(self).wf(),
    {
        self.inner.get_mut()
    }

    /// Takes apart a stream in which nothing is pending, and returns the raw
    /// handle. What was read ahead is lost.
    pub fn into_handle(self) -> (r: RW)
        requires
            self@.writer.pending.len() == 0,
        ensures
            r == self.handle(),
    {
        self.inner.into_handle()
    }

    /// Flushes by `flush` and, if that succeeds, takes the stream apart by
    /// `into_handle`. If the flush fails, the raw handle is not handed out:
    /// the stream comes back with the failure, unchanged but for what the
    /// flush did. What was read ahead is lost.
    pub fn into_inner(self) -> (r: Result<RW, IntoInnerError<Self>>)
        requires
            self.wf(),
        ensures
            match r {
                Ok(inner) => self@.writer.pending.len() == 0 ==> inner == self.handle(),
                Err(failed) => {
                    &&& failed.stream().wf()
                    &&& stream_flushed(self@, failed.stream()@, Err(failed.cause()))
                },
            },
            self@.writer.pending.len() == 0 ==> r is Ok,
    {
        let mut this = self;
        let flushed = this.flush();
        proof {
            lemma_flushed_conserves(
                self@.writer,
                since(self@.history, this@.history),
                this@.writer,
                flushed,
            );
        }
        match flushed {
            Err(e) => Err(IntoInnerError::new(this, e)),
            Ok(()) => Ok(this.into_handle()),
        }
    }

    /// The bytes read ahead and not yet taken. Never refills.
    pub fn reader_buffer(&self) -> (r: &[u8])
        requires
            self.wf(),
        ensures
            r@ == self@.reader.unread,
    {
        self.inner.reader_buffer()
    }

    /// The most bytes that are read ahead at a time.
    pub fn reader_capacity(&self) -> (n: usize)
        ensures
            n == self@.reader.capacity,
    {
        self.inner.reader_capacity()
    }

    /// The bytes that are pending.
    pub fn writer_buffer(&self) -> (r: &[u8])
        ensures
            r@ == self@.writer.pending,
    {
        self.inner.writer_buffer()
    }

    /// The most bytes that can be pending.
    pub fn writer_capacity(&self) -> (n: usize)
        ensures
            n == self@.writer.capacity,
    {
        self.inner.writer_capacity()
    }

    /// Writes `buf` by the line policy: everything up to and including the
    /// last newline goes to the raw handle at once, the rest may wait.
    pub fn write(&mut self, buf: &[u8]) -> (r: Result<usize, Error>)
        requires
            old(self).wf(),
        ensures
            final(self).wf(),
            final(self).kept_unless_called(old(self)),
            write_side_only(old(self)@, final(self)@),
            line_wrote(
                old(self)@.writer,
                since(old(self)@.history, final(self)@.history),
                buf@,
                final(self)@.writer,
                r,
            ),
    {
        self.inner.write(buf)
    }

    /// Forces everything that is pending out to the raw handle.
    pub fn flush(&mut self) -> (r: Result<(), Error>)
        requires
            old(self).wf(),
        ensures
            final(self).wf(),
            final(self).kept_unless_called(old(self)),
            stream_flushed(old(self)@, final(self)@, r),
            sent(final(self)@.history) + final(self)@.writer.pending == sent(old(self)@.history)
                + old(self)@.writer.pending,
    {
        self.inner.flush()
    }

    /// Writes the segments `bufs` by the line policy.
    pub fn write_vectored(&mut self, bufs: &[&[u8]]) -> (r: Result<usize, Error>)
        requires
            old(self).wf(),
            total_len(slices(bufs@)) <= usize::MAX,
        ensures
            final(self).wf(),
            final(self).kept_unless_called(old(self)),
            write_side_only(old(self)@, final(self)@),
            line_wrote_vectored(
                old(self)@.writer,
                since(old(self)@.history, final(self)@.history),
                slices(bufs@),
                final(self)@.writer,
                r,
            ),
    {
        self.inner.write_vectored(bufs)
    }

    /// Writes all of `buf` by the line policy.
    pub fn write_all(&mut self, buf: &[u8]) -> (r: Result<(), Error>)
        requires
            old(self).wf(),
        ensures
            final(self).wf(),
            final(self).kept_unless_called(old(self)),
            write_side_only(old(self)@, final(self)@),
            line_wrote_all(
                old(self)@.writer,
                since(old(self)@.history, final(self)@.history),
                buf@,
                final(self)@.writer,
                r,
            ),
    {
        self.inner.write_all(buf)
    }

    /// Reads into `out`, after flushing what is pending.
    pub fn read(&mut self, out: &mut [u8]) -> (r: Result<usize, Error>)
        requires
            old(self).wf(),
        ensures
            final(self).wf(),
            final(self).kept_unless_called(old(self)),
            stream_read(old(self)@, final(self)@, old(out)@, final(out)@, r),
    {
        self.inner.read(out)
    }

    /// Reads into the segments `bufs`, after flushing what is pending.
    pub fn read_vectored(&mut self, bufs: &mut [Vec<u8>]) -> (r: Result<usize, Error>)
        requires
            old(self).wf(),
            total_len(vectors(old(bufs)@)) <= usize::MAX,
        ensures
            final(self).wf(),
            final(self).kept_unless_called(old(self)),
            stream_read_vectored(
                old(self)@,
                final(self)@,
                vectors(old(bufs)@),
                vectors(final(bufs)@),
                r,
            ),
    {
        self.inner.read_vectored(bufs)
    }

    /// Reads to the end of the source and appends everything to `out`,
    /// after flushing what is pending.
    pub fn read_to_end(&mut self, out: &mut Vec<u8>) -> (r: Result<usize, Error>)
        requires
            old(self).wf(),
        ensures
            final(self).wf(),
            final(self).kept_unless_called(old(self)),
            stream_read_to_end(old(self)@, final(self)@, old(out)@, final(out)@, r),
    {
        self.inner.read_to_end(out)
    }

    /// Reads until `out` is full, after flushing what is pending.
    pub fn read_exact(&mut self, out: &mut [u8]) -> (r: Result<(), Error>)
        requires
            old(self).wf(),
        ensures
            final(self).wf(),
            final(self).kept_unless_called(old(self)),
            stream_read_exact(old(self)@, final(self)@, old(out)@, final(out)@, r),
    {
        self.inner.read_exact(out)
    }

    /// Reads to the end of the source and appends everything to `out` as
    /// text, after flushing what is pending.
    pub fn read_to_string(&mut self, out: &mut String) -> (r: Result<usize, Error>)
        requires
            old(self).wf(),
        ensures
            final(self).wf(),
            final(self).kept_unless_called(old(self)),
            stream_read_to_string(old(self)@, final(self)@, old(out)@, final(out)@, r),
    {
        self.inner.read_to_string(out)
    }

    /// Makes sure that something is held, and returns what is unread. An
    /// empty buffer flushes what is pending and then issues one raw read.
    pub fn fill_buf(&mut self) -> (r: Result<&[u8], Error>)
        requires
            old(self).wf(),
        ensures
            final(self).wf(),
            final(self).kept_unless_called(old(self)),
            stream_filled(old(self)@, final(self)@, bytes_of(r)),
    {
        self.inner.fill_buf()
    }

    /// Marks the first `amt` unread bytes as taken, or all of them if there
    /// are fewer.
    pub fn consume(&mut self, amt: usize)
        requires
            old(self).wf(),
        ensures
            final(self).wf(),
            final(self).handle() == old(self).handle(),
            final(self)@ == (StreamView {
                reader: ReaderView {
                    unread: old(self)@.reader.unread.skip(
                        at_most(amt as nat, old(self)@.reader.unread.len()) as int,
                    ),
                    capacity: old(self)@.reader.capacity,
                },
                ..old(self)@
            }),
    {
        self.inner.consume(amt);
    }

    /// Marks the stream as not worth flushing when it is torn down.
    pub fn abandon(&mut self)
        ensures
            final(self).wf() == old(self).wf(),
            final(self).handle() == old(self).handle(),
            final(self)@ == (StreamView { abandoned: true, ..old(self)@ }),
    {
        self.inner.abandon();
    }

    /// The flush of last resort, whose failure is dropped. Nothing is
    /// attempted after a raw write that never came back, nor on an
    /// abandoned stream.
    pub fn teardown(&mut self)
        requires
            old(self).wf(),
        ensures
            final(self).wf(),
            final(self).kept_unless_called(old(self)),
            torn_down(old(self)@, final(self)@),
    {
        self.inner.teardown();
    }
}

} // verus!
