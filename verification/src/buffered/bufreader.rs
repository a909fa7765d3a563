//! A raw handle with a read-ahead buffer.

use crate::buffered::read_buffer::{
    bytes_of, filled, read_through, read_through_vectored, ReadBuffer, ReaderView,
};
use crate::buffered::read_loops::{drained, read_exactly};
use crate::buffered::segments::{total_len, vectors};
use crate::buffered::write_buffer::at_most;
use crate::buffered::DEFAULT_BUF_SIZE;
use crate::error::Error;
use crate::handle::{ReadWrite, Traced};
use crate::history::{extends, since, Event};
use vstd::prelude::*;

verus! {

/// What a buffered reader stands for.
pub struct SourceView {
    /// The raw calls made so far.
    pub history: Seq<Event>,
    /// The read buffer.
    pub reader: ReaderView,
}

/// Adds read-ahead buffering to a raw handle: many small reads are served
/// from few large raw reads.
///
/// What is still held when the reader is dropped or taken apart is lost.
pub struct BufReader<RW: ReadWrite> {
    traced: Traced<RW>,
    buf: ReadBuffer,
}

impl<RW: ReadWrite> View for BufReader<RW> {
    type V = SourceView;

    closed spec fn view(&self) -> SourceView {
        SourceView { history: self.traced.history(), reader: self.buf@ }
    }
}

impl<RW: ReadWrite> BufReader<RW> {
    /// Every call on the raw handle leaves a record: unless the record has
    /// grown since `before`, the raw handle is as it was then.
    pub open spec fn kept_unless_called(&self, before: &Self) -> bool {
        self@.history.len() == before@.history.len() ==> self.handle() == before.handle()
    }

    /// The internal cursors are in order.
    pub closed spec fn wf(&self) -> bool {
        self.buf.wf()
    }

    /// The raw handle.
    pub closed spec fn handle(&self) -> RW {
        self.traced.handle()
    }

    /// What is held never exceeds the capacity.
    pub proof fn lemma_wf_view(&self)
        requires
            self.wf(),
        ensures
            self@.reader.wf(),
    {
        self.buf.lemma_wf_view();
    }

    /// A reader with a buffer of the default capacity.
    pub fn new(inner: RW) -> (s: Self)
        ensures
            s.wf(),
            s.handle() == inner,
            s@.history == Seq::<Event>::empty(),
            s@.reader == (ReaderView { unread: Seq::empty(), capacity: DEFAULT_BUF_SIZE as nat }),
    {
        BufReader::with_capacity(DEFAULT_BUF_SIZE, inner)
    }

    /// A reader with a buffer of the given capacity.
    pub fn with_capacity(capacity: usize, inner: RW) -> (s: Self)
        ensures
            s.wf(),
            s.handle() == inner,
            s@.history == Seq::<Event>::empty(),
            s@.reader == (ReaderView { unread: Seq::empty(), capacity: capacity as nat }),
    {
        BufReader { traced: Traced::new(inner), buf: ReadBuffer::new(capacity) }
    }

    /// The raw handle.
    pub fn get_ref(&self) -> (r: &RW)
        ensures
            *r == self.handle(),
    {
        self.traced.get_ref()
    }

    /// The raw handle, for direct use. Reading from it directly loses the
    /// order of the bytes with respect to what is held.
    pub fn get_mut(&mut self) -> (r: &mut RW)
        ensures
            *r == old(self).handle(),
            final(self).handle() == *final(r),
            final(self)@ == old(self)@,
            final(self).wf() == old(self).wf(),
    {
        self.traced.get_mut()
    }

    /// The bytes read ahead and not yet taken. Never refills.
    pub fn buffer(&self) -> (r: &[u8])
        requires
            self.wf(),
        ensures
            r@ == self@.reader.unread,
    {
        self.buf.buffer()
    }

    /// The most bytes that the reader holds at a time.
    pub fn capacity(&self) -> (n: usize)
        ensures
            n == self@.reader.capacity,
    {
        self.buf.capacity()
    }

    /// Takes the reader apart. What is held is lost.
    pub fn into_inner(self) -> (r: RW)
        ensures
            r == self.handle(),
    {
        self.traced.into_inner()
    }

    /// Forgets what is held.
    pub fn discard_buffer(&mut self)
        ensures
            final(self).wf(),
            final(self).handle() == old(self).handle(),
            final(self)@.history == old(self)@.history,
            final(self)@.reader == (ReaderView {
                unread: Seq::empty(),
                capacity: old(self)@.reader.capacity,
            }),
    {
        self.buf.discard();
    }

    /// Reads into `out`: from what is held, if anything is; straight from
    /// the raw handle, if `out` is at least as large as the buffer; and
    /// through a refilled buffer otherwise.
    pub fn read(&mut self, out: &mut [u8]) -> (r: Result<usize, Error>)
        requires
            old(self).wf(),
        ensures
            final(self).wf(),
            final(self).kept_unless_called(old(self)),
            extends(old(self)@.history, final(self)@.history),
            read_through(
                old(self)@.reader,
                since(old(self)@.history, final(self)@.history),
                old(out)@,
                final(out)@,
                final(self)@.reader,
                r,
            ),
    {
        self.buf.read(&mut self.traced, out)
    }

    /// Reads into the segments `bufs`, in order, by the rule of `read`
    /// applied to their lengths together.
    pub fn read_vectored(&mut self, bufs: &mut [Vec<u8>]) -> (r: Result<usize, Error>)
        requires
            old(self).wf(),
            total_len(vectors(old(bufs)@)) <= usize::MAX,
        ensures
            final(self).wf(),
            final(self).kept_unless_called(old(self)),
            extends(old(self)@.history, final(self)@.history),
            read_through_vectored(
                old(self)@.reader,
                since(old(self)@.history, final(self)@.history),
                vectors(old(bufs)@),
                vectors(final(bufs)@),
                final(self)@.reader,
                r,
            ),
    {
        self.buf.read_vectored(&mut self.traced, bufs)
    }

    /// Reads to the end of the source and appends everything to `out`.
    /// Returns the number of bytes appended.
    pub fn read_to_end(&mut self, out: &mut Vec<u8>) -> (r: Result<usize, Error>)
        requires
            old(self).wf(),
        ensures
            final(self).wf(),
            final(self).kept_unless_called(old(self)),
            extends(old(self)@.history, final(self)@.history),
            drained(
                old(self)@.reader,
                since(old(self)@.history, final(self)@.history),
                old(out)@,
                final(out)@,
                final(self)@.reader,
                r,
            ),
    {
        crate::buffered::read_loops::read_to_end(&mut self.buf, &mut self.traced, out)
    }

    /// Reads until `out` is full. A source that ends before that fails the
    /// call with `UnexpectedEof`.
    pub fn read_exact(&mut self, out: &mut [u8]) -> (r: Result<(), Error>)
        requires
            old(self).wf(),
        ensures
            final(self).wf(),
            final(self).kept_unless_called(old(self)),
            extends(old(self)@.history, final(self)@.history),
            read_exactly(
                old(self)@.reader,
                since(old(self)@.history, final(self)@.history),
                old(out)@,
                final(out)@,
                final(self)@.reader,
                r,
            ),
    {
        crate::buffered::read_loops::read_exact(&mut self.buf, &mut self.traced, out)
    }

    /// Makes sure that something is held, with at most one raw read, and
    /// returns what is unread.
    pub fn fill_buf(&mut self) -> (r: Result<&[u8], Error>)
        requires
            old(self).wf(),
        ensures
            final(self).wf(),
            final(self).kept_unless_called(old(self)),
            extends(old(self)@.history, final(self)@.history),
            filled(
                old(self)@.reader,
                since(old(self)@.history, final(self)@.history),
                final(self)@.reader,
                bytes_of(r),
            ),
    {
        self.buf.fill(&mut self.traced)
    }

    /// Marks the first `amt` unread bytes as taken, or all of them if there
    /// are fewer.
    pub fn consume(&mut self, amt: usize)
        requires
            old(self).wf(),
        ensures
            final(self).wf(),
            final(self).handle() == old(self).handle(),
            final(self)@.history == old(self)@.history,
            final(self)@.reader == (ReaderView {
                unread: old(self)@.reader.unread.skip(
                    at_most(amt as nat, old(self)@.reader.unread.len()) as int,
                ),
                capacity: old(self)@.reader.capacity,
            }),
    {
        self.buf.consume(amt);
    }
}

} // verus!
