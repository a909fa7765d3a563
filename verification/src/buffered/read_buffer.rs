//! The read-ahead buffer: bytes that the raw handle has handed out and that
//! the caller has not taken yet.

use crate::buffered::bytes::{copy_prefix, scatter};
use crate::buffered::segments::{
    concat, first_nonempty, first_room_of, lemma_concat_begins_with, lemma_first_nonempty_at,
    lemma_same_shape_same_total, same_shape, total_len, total_room_of, vectors,
};
use crate::buffered::write_buffer::at_most;
use crate::error::Error;
use crate::handle::{ReadWrite, Traced};
use crate::history::{extends, lemma_since_of_concat, since, Event};
use vstd::prelude::*;

verus! {

/// What a read buffer stands for.
pub struct ReaderView {
    /// The bytes read ahead and not yet handed to the caller, oldest first.
    pub unread: Seq<u8>,
    /// The most bytes that one refill brings in.
    pub capacity: nat,
}

impl ReaderView {
    /// What is unread never exceeds the capacity.
    pub open spec fn wf(self) -> bool {
        self.unread.len() <= self.capacity
    }
}

/// The raw results of a call as plain values: a slice by its bytes.
pub open spec fn bytes_of(r: Result<&[u8], Error>) -> Result<Seq<u8>, Error> {
    match r {
        Ok(s) => Ok(s@),
        Err(e) => Err(e),
    }
}

/// What a refill makes of the buffer `before`, when `events` are the raw
/// calls made. A buffer that still holds something is left alone and no raw
/// call is made. An empty one issues exactly one raw read of its whole
/// capacity and holds what arrived; if that read fails, so does the call and
/// the buffer stays empty. `r` is what is unread afterwards.
pub open spec fn filled(
    before: ReaderView,
    events: Seq<Event>,
    after: ReaderView,
    r: Result<Seq<u8>, Error>,
) -> bool {
    &&& after.capacity == before.capacity
    &&& if before.unread.len() > 0 {
        &&& events.len() == 0
        &&& after == before
        &&& r == Ok::<Seq<u8>, Error>(before.unread)
    } else {
        &&& events.len() == 1
        &&& match events[0] {
            Event::Read { len, got } => {
                &&& len == before.capacity
                &&& events[0].in_bounds()
                &&& match got {
                    Ok(bytes) => after.unread == bytes && r == Ok::<Seq<u8>, Error>(bytes),
                    Err(e) => after.unread.len() == 0 && r == Err::<Seq<u8>, Error>(e),
                }
            },
            _ => false,
        }
    }
}

/// Handing `stock` to a caller whose buffer was `out_before`: the caller
/// gets as many leading bytes as its buffer holds, `rest` is what stays
/// behind, and `r` is the number handed over.
pub open spec fn served(
    stock: Seq<u8>,
    out_before: Seq<u8>,
    out_after: Seq<u8>,
    rest: Seq<u8>,
    r: Result<usize, Error>,
) -> bool {
    let n = at_most(out_before.len(), stock.len());
    &&& r == Ok::<usize, Error>(n as usize)
    &&& out_after.len() == out_before.len()
    &&& out_after.take(n as int) == stock.take(n as int)
    &&& rest == stock.skip(n as int)
}

/// Whether a read of `want` bytes from the buffer `before` goes past the
/// buffer, straight to the raw handle: the buffer is empty and the request
/// is at least as large as the buffer.
pub open spec fn bypasses(before: ReaderView, want: nat) -> bool {
    before.unread.len() == 0 && want >= before.capacity
}

/// What a read into a caller's buffer makes of the read buffer `before`,
/// when `events` are the raw calls made. Bytes already held are served
/// first and without a raw call. With nothing held, exactly one raw read is
/// issued: into the caller's buffer if the request bypasses the read
/// buffer, into the read buffer otherwise; what arrived is served the same
/// way either way. If the raw read fails, so does the call.
pub open spec fn read_through(
    before: ReaderView,
    events: Seq<Event>,
    out_before: Seq<u8>,
    out_after: Seq<u8>,
    after: ReaderView,
    r: Result<usize, Error>,
) -> bool {
    &&& after.capacity == before.capacity
    &&& out_after.len() == out_before.len()
    &&& if before.unread.len() > 0 {
        &&& events.len() == 0
        &&& served(before.unread, out_before, out_after, after.unread, r)
        &&& untouched_after(out_before, out_after, r)
    } else {
        &&& events.len() == 1
        &&& match events[0] {
            Event::Read { len, got } => {
                &&& len == if bypasses(before, out_before.len()) {
                    out_before.len()
                } else {
                    before.capacity
                }
                &&& events[0].in_bounds()
                &&& match got {
                    Ok(bytes) => {
                        &&& served(bytes, out_before, out_after, after.unread, r)
                        &&& !bypasses(before, out_before.len()) ==> untouched_after(
                            out_before,
                            out_after,
                            r,
                        )
                    },
                    Err(e) => after.unread.len() == 0 && r == Err::<usize, Error>(e),
                }
            },
            _ => false,
        }
    }
}

/// As `read_through`, for a read into several segments, which are served
/// as if they were one buffer laid end to end. A read that bypasses the
/// read buffer goes into the first segment that has any room.
pub open spec fn read_through_vectored(
    before: ReaderView,
    events: Seq<Event>,
    segs_before: Seq<Seq<u8>>,
    segs_after: Seq<Seq<u8>>,
    after: ReaderView,
    r: Result<usize, Error>,
) -> bool {
    let out_before = concat(segs_before);
    let out_after = concat(segs_after);
    &&& after.capacity == before.capacity
    &&& same_shape(segs_before, segs_after)
    &&& if before.unread.len() > 0 {
        &&& events.len() == 0
        &&& served(before.unread, out_before, out_after, after.unread, r)
        &&& untouched_after(out_before, out_after, r)
    } else {
        &&& events.len() == 1
        &&& match events[0] {
            Event::Read { len, got } => {
                &&& len == if bypasses(before, out_before.len()) {
                    first_nonempty(segs_before).len()
                } else {
                    before.capacity
                }
                &&& events[0].in_bounds()
                &&& match got {
                    Ok(bytes) => {
                        &&& served(bytes, out_before, out_after, after.unread, r)
                        &&& !bypasses(before, out_before.len()) ==> untouched_after(
                            out_before,
                            out_after,
                            r,
                        )
                    },
                    Err(e) => after.unread.len() == 0 && r == Err::<usize, Error>(e),
                }
            },
            _ => false,
        }
    }
}

/// The caller's buffer is unchanged past the bytes that were handed over.
pub open spec fn untouched_after(
    out_before: Seq<u8>,
    out_after: Seq<u8>,
    r: Result<usize, Error>,
) -> bool {
    r matches Ok(n) ==> out_after.skip(n as int) == out_before.skip(n as int)
}

/// A fixed-capacity buffer of bytes read ahead from a raw handle.
pub struct ReadBuffer {
    storage: Vec<u8>,
    pos: usize,
    limit: usize,
}

impl View for ReadBuffer {
    type V = ReaderView;

    closed spec fn view(&self) -> ReaderView {
        ReaderView {
            unread: self.storage@.subrange(self.pos as int, self.limit as int),
            capacity: self.storage@.len(),
        }
    }
}

impl ReadBuffer {
    /// The cursors are in order and inside the storage.
    pub closed spec fn wf(&self) -> bool {
        self.pos <= self.limit <= self.storage@.len()
    }

    /// What is unread never exceeds the capacity.
    pub proof fn lemma_wf_view(&self)
        requires
            self.wf(),
        ensures
            self@.wf(),
    {
    }

    /// An empty buffer that reads ahead up to `capacity` bytes at a time.
    pub fn new(capacity: usize) -> (b: Self)
        ensures
            b.wf(),
            b@ == (ReaderView { unread: Seq::empty(), capacity: capacity as nat }),
    {
        let b = ReadBuffer { storage: vec![0u8; capacity], pos: 0, limit: 0 };
        proof {
            assert(b.storage@.subrange(0, 0) =~= Seq::<u8>::empty());
        }
        b
    }

    /// The bytes read ahead and not yet taken. Never refills.
    pub fn buffer(&self) -> (r: &[u8])
        requires
            self.wf(),
        ensures
            r@ == self@.unread,
    {
        &self.storage[self.pos..self.limit]
    }

    /// The most bytes that one refill brings in.
    pub fn capacity(&self) -> (n: usize)
        ensures
            n == self@.capacity,
    {
        self.storage.len()
    }

    /// Whether nothing is held.
    pub fn is_empty(&self) -> (b: bool)
        requires
            self.wf(),
        ensures
            b == (self@.unread.len() == 0),
    {
        self.pos == self.limit
    }

    /// Forgets what is held.
    pub fn discard(&mut self)
        ensures
            final(self).wf(),
            final(self)@ == (ReaderView { unread: Seq::empty(), capacity: old(self)@.capacity }),
    {
        self.pos = 0;
        self.limit = 0;
        proof {
            assert(self.storage@.subrange(0, 0) =~= Seq::<u8>::empty());
        }
    }

    /// Makes sure that something is held, if the source has anything: an
    /// empty buffer issues one raw read, and never more than one. Returns
    /// what is unread, which is empty only at the end of the source.
    pub fn fill<RW: ReadWrite>(&mut self, traced: &mut Traced<RW>) -> (r: Result<&[u8], Error>)
        requires
            old(self).wf(),
        ensures
            final(self).wf(),
            extends(old(traced).history(), final(traced).history()),
            final(traced).kept_unless_called(old(traced)),
        final(traced).kept_unless_called(old(traced)),
            filled(
                old(self)@,
                since(old(traced).history(), final(traced).history()),
                final(self)@,
                bytes_of(r),
            ),
    {
        let ghost start = traced.history();
        if self.pos >= self.limit {
            self.pos = 0;
            self.limit = 0;
            let ghost capacity = self.storage@.len();
            let got = traced.read(self.storage.as_mut_slice());
            proof {
                let event = Event::Read {
                    len: capacity,
                    got: match got {
                        Ok(n) => Ok(self.storage@.take(n as int)),
                        Err(e) => Err(e),
                    },
                };
                assert(traced.history() =~= start + seq![event]);
                lemma_since_of_concat(start, seq![event]);
                assert(self.storage@.subrange(0, 0) =~= Seq::<u8>::empty());
            }
            match got {
                Ok(n) => {
                    self.limit = n;
                    proof {
                        assert(self.storage@.subrange(0, n as int) =~= self.storage@.take(
                            n as int,
                        ));
                    }
                },
                Err(e) => {
                    return Err(e);
                },
            }
        } else {
            proof {
                assert(since(start, traced.history()) =~= Seq::<Event>::empty());
                assert(start.take(start.len() as int) =~= start);
            }
        }
        Ok(&self.storage[self.pos..self.limit])
    }

    /// Marks the first `amt` unread bytes as taken, or all of them if there
    /// are fewer.
    pub fn consume(&mut self, amt: usize)
        requires
            old(self).wf(),
        ensures
            final(self).wf(),
            final(self)@ == (ReaderView {
                unread: old(self)@.unread.skip(at_most(amt as nat, old(self)@.unread.len()) as int),
                capacity: old(self)@.capacity,
            }),
    {
        let held: usize = self.limit - self.pos;
        let step: usize = if amt <= held {
            amt
        } else {
            held
        };
        proof {
            assert(self.storage@.subrange(self.pos + step, self.limit as int)
                =~= self.storage@.subrange(self.pos as int, self.limit as int).skip(step as int));
        }
        self.pos = self.pos + step;
    }

    /// Reads into `out`. With nothing held and a request at least as large
    /// as the buffer, the raw handle reads straight into `out`; otherwise
    /// the buffer is refilled if need be and `out` is served from it.
    pub fn read<RW: ReadWrite>(&mut self, traced: &mut Traced<RW>, out: &mut [u8]) -> (r: Result<
        usize,
        Error,
    >)
        requires
            old(self).wf(),
        ensures
            final(self).wf(),
            extends(old(traced).history(), final(traced).history()),
            final(traced).kept_unless_called(old(traced)),
        final(traced).kept_unless_called(old(traced)),
            read_through(
                old(self)@,
                since(old(traced).history(), final(traced).history()),
                old(out)@,
                final(out)@,
                final(self)@,
                r,
            ),
    {
        let ghost start = traced.history();
        if self.pos == self.limit && out.len() >= self.storage.len() {
            self.discard();
            let r = traced.read(out);
            proof {
                let event = Event::Read {
                    len: old(out)@.len(),
                    got: match r {
                        Ok(n) => Ok(out@.take(n as int)),
                        Err(e) => Err(e),
                    },
                };
                assert(traced.history() =~= start + seq![event]);
                lemma_since_of_concat(start, seq![event]);
                match r {
                    Ok(n) => {
                        let bytes = out@.take(n as int);
                        assert(bytes.take(n as int) =~= bytes);
                        assert(bytes.skip(n as int) =~= Seq::<u8>::empty());
                    },
                    Err(_) => {},
                }
            }
            return r;
        }
        match self.fill(traced) {
            Ok(_) => {},
            Err(e) => {
                return Err(e);
            },
        }
        let nread: usize = copy_prefix(out, &self.storage[self.pos..self.limit]);
        self.consume(nread);
        Ok(nread)
    }
    /// Reads into the segments `bufs`, which are filled in order. With
    /// nothing held and room for at least as much as the buffer holds, the
    /// raw handle reads straight into the first segment that has any room;
    /// otherwise the buffer is refilled if need be and the segments are
    /// served from it.
    pub fn read_vectored<RW: ReadWrite>(
        &mut self,
        traced: &mut Traced<RW>,
        bufs: &mut [Vec<u8>],
    ) -> (r: Result<usize, Error>)
        requires
            old(self).wf(),
            total_len(vectors(old(bufs)@)) <= usize::MAX,
        ensures
            final(self).wf(),
            extends(old(traced).history(), final(traced).history()),
            final(traced).kept_unless_called(old(traced)),
        final(traced).kept_unless_called(old(traced)),
            read_through_vectored(
                old(self)@,
                since(old(traced).history(), final(traced).history()),
                vectors(old(bufs)@),
                vectors(final(bufs)@),
                final(self)@,
                r,
            ),
    {
        let ghost start = traced.history();
        let ghost segs = vectors(bufs@);
        let total_len: usize = total_room_of(bufs);
        if self.pos == self.limit && total_len >= self.storage.len() {
            self.discard();
            match first_room_of(bufs) {
                Some(k) => {
                    let ghost held = bufs@;
                    let r = traced.read(bufs[k].as_mut_slice());
                    proof {
                        let now = vectors(bufs@);
                        let event = Event::Read {
                            len: segs[k as int].len(),
                            got: match r {
                                Ok(n) => Ok(now[k as int].take(n as int)),
                                Err(e) => Err(e),
                            },
                        };
                        assert(traced.history() =~= start + seq![event]);
                        lemma_since_of_concat(start, seq![event]);
                        assert(bufs@.len() == held.len());
                        assert forall|j: int| 0 <= j < held.len() && j != k implies bufs@[j]
                            == held[j] by {}
                        assert(same_shape(segs, now)) by {
                            assert forall|j: int| 0 <= j < segs.len() implies (
                            #[trigger] segs[j]).len() == now[j].len() by {
                                if j != k {
                                    assert(bufs@[j] == held[j]);
                                }
                            }
                        }
                        lemma_same_shape_same_total(segs, now);
                        match r {
                            Ok(n) => {
                                let bytes = now[k as int].take(n as int);
                                assert forall|j: int| 0 <= j < k implies (#[trigger] now[j]).len()
                                    == 0 by {
                                    assert(segs[j].len() == 0);
                                }
                                lemma_first_nonempty_at(now, k as int);
                                lemma_concat_begins_with(now, k as int, n as int);
                                assert(bytes.take(n as int) =~= bytes);
                                assert(bytes.skip(n as int) =~= Seq::<u8>::empty());
                            },
                            Err(_) => {},
                        }
                    }
                    r
                },
                None => {
                    let mut nothing: Vec<u8> = Vec::new();
                    let r = traced.read(nothing.as_mut_slice());
                    proof {
                        let event = Event::Read {
                            len: 0,
                            got: match r {
                                Ok(n) => Ok(nothing@.take(n as int)),
                                Err(e) => Err(e),
                            },
                        };
                        assert(traced.history() =~= start + seq![event]);
                        lemma_since_of_concat(start, seq![event]);
                        match r {
                            Ok(n) => {
                                let bytes = nothing@.take(n as int);
                                assert(bytes =~= Seq::<u8>::empty());
                                assert(concat(segs).take(0) =~= bytes.take(0));
                                assert(bytes.skip(0) =~= Seq::<u8>::empty());
                            },
                            Err(_) => {},
                        }
                    }
                    r
                },
            }
        } else {
            match self.fill(traced) {
                Ok(_) => {},
                Err(e) => {
                    return Err(e);
                },
            }
            let nread: usize = scatter(bufs, &self.storage[self.pos..self.limit]);
            proof {
                lemma_same_shape_same_total(segs, vectors(bufs@));
            }
            self.consume(nread);
            Ok(nread)
        }
    }
}

} // verus!
