//! Reads that go on until a buffer is full or the source has ended.

use crate::buffered::read_buffer::{ReadBuffer, ReaderView};
use crate::error::Error;
use crate::handle::{ReadWrite, Traced};
use crate::history::{
    extends, interrupted_run, lemma_extends_transitive, received, since, Event, RETRY_LIMIT,
};
use vstd::prelude::*;

verus! {

/// How a loop of reads takes the answer of a raw read.
pub enum ReadStop {
    /// Bytes arrived, or the read was interrupted and is repeated.
    GoOn,
    /// Nothing arrived: the source has ended.
    End,
    /// The read failed for good.
    Fail(Error),
}

/// How a loop of reads takes the answer of its `i`-th raw read. An
/// interruption is passed over, unless `RETRY_LIMIT` interruptions came
/// directly before it.
pub open spec fn read_stop(events: Seq<Event>, i: int) -> ReadStop {
    match events[i] {
        Event::Read { got: Ok(bytes), .. } => if bytes.len() == 0 {
            ReadStop::End
        } else {
            ReadStop::GoOn
        },
        Event::Read { got: Err(e), .. } => if e == Error::Interrupted && interrupted_run(
            events.take(i),
        ) < RETRY_LIMIT {
            ReadStop::GoOn
        } else {
            ReadStop::Fail(e)
        },
        _ => ReadStop::GoOn,
    }
}

/// Every call of `events` is a raw read that kept to its bounds, and none
/// of the first `upto` ended the loop.
#[verifier::opaque]
pub open spec fn reads_on(events: Seq<Event>, upto: int) -> bool {
    forall|i: int|
        0 <= i < events.len() ==> {
            &&& (#[trigger] events[i]).is_read()
            &&& events[i].in_bounds()
            &&& i < upto ==> read_stop(events, i) is GoOn
        }
}

/// Every call of `events` asked for `capacity` bytes.
#[verifier::opaque]
pub open spec fn refills(capacity: nat, events: Seq<Event>) -> bool {
    forall|i: int|
        0 <= i < events.len() ==> match #[trigger] events[i] {
            Event::Read { len, .. } => len == capacity,
            _ => false,
        }
}

/// The room that a raw read is given when `rest` bytes are still wanted
/// and nothing is held: the caller's own room if that is at least as large
/// as the read buffer, and the read buffer otherwise.
pub open spec fn room_asked(capacity: nat, rest: int) -> int {
    if rest >= capacity {
        rest
    } else {
        capacity as int
    }
}

/// Every call of `events` is a raw read that asks for what a caller who
/// wants `want` bytes, of which `held` were at hand, is still missing after
/// the reads before it.
#[verifier::opaque]
pub open spec fn asks_for_rest(capacity: nat, held: nat, want: nat, events: Seq<Event>) -> bool {
    forall|i: int|
        0 <= i < events.len() ==> match #[trigger] events[i] {
            Event::Read { len, .. } => len == room_asked(
                capacity,
                want - held - received(events.take(i)).len(),
            ),
            _ => false,
        }
}

/// What reading to the end of the source makes of the read buffer `before`
/// and of the caller's vector, when `events` are the raw calls made.
///
/// What is held is handed over first, and then one refill after another
/// until a raw read brings nothing, which is the end of the source. An
/// interrupted read is repeated. Whatever arrived before a failure is in
/// the vector. The count is the number of bytes added to the vector.
pub open spec fn drained(
    before: ReaderView,
    events: Seq<Event>,
    out_before: Seq<u8>,
    out_after: Seq<u8>,
    after: ReaderView,
    r: Result<usize, Error>,
) -> bool {
    let last = events.len() - 1;
    &&& after.capacity == before.capacity
    &&& reads_on(events, last)
    &&& refills(before.capacity, events)
    &&& out_after + after.unread == out_before + before.unread + received(events)
    &&& match r {
        Ok(n) => {
            &&& events.len() > 0
            &&& read_stop(events, last) is End
            &&& after.unread.len() == 0
            &&& n == out_after.len() - out_before.len()
        },
        Err(e) => {
            ||| events.len() > 0 && read_stop(events, last) == ReadStop::Fail(e)
                && after.unread.len() == 0
            ||| {
                &&& e == Error::OutOfMemory
                &&& events.len() > 0 ==> read_stop(events, last) is GoOn
                &&& out_after.len() + after.unread.len() > usize::MAX
            }
        },
    }
}

/// What reading until the caller's buffer is full makes of the read buffer
/// `before`, when `events` are the raw calls made.
///
/// What is held is handed over first, and then what one raw read after
/// another brings. An interrupted read is repeated. A raw read that brings
/// nothing before the buffer is full fails the call with `UnexpectedEof`.
/// Each raw read goes straight into the caller's buffer if what is still
/// missing is at least as large as the read buffer, and into the read
/// buffer otherwise. On success the buffer is full, and what arrived beyond
/// it is held.
pub open spec fn read_exactly(
    before: ReaderView,
    events: Seq<Event>,
    out_before: Seq<u8>,
    out_after: Seq<u8>,
    after: ReaderView,
    r: Result<(), Error>,
) -> bool {
    let last = events.len() - 1;
    &&& after.capacity == before.capacity
    &&& out_after.len() == out_before.len()
    &&& reads_on(events, last)
    &&& asks_for_rest(before.capacity, before.unread.len(), out_before.len(), events)
    &&& match r {
        Ok(()) => {
            &&& events.len() > 0 ==> read_stop(events, last) is GoOn
            &&& out_after + after.unread == before.unread + received(events)
        },
        Err(e) => {
            &&& events.len() > 0
            &&& after.unread.len() == 0
            &&& match read_stop(events, last) {
                ReadStop::End => e == Error::UnexpectedEof,
                ReadStop::Fail(f) => e == f,
                ReadStop::GoOn => false,
            }
            &&& before.unread.len() + received(events).len() < out_before.len()
            &&& out_after.take((before.unread.len() + received(events).len()) as int)
                == before.unread + received(events)
        },
    }
}

/// What one more raw read adds to a loop's record.
proof fn lemma_read_pushed(events: Seq<Event>, e: Event)
    requires
        reads_on(events, events.len() as int),
        e.is_read(),
        e.in_bounds(),
    ensures
        reads_on(events.push(e), events.len() as int),
        received(events.push(e)) == received(events) + e.received(),
        interrupted_run(events.push(e)) == if e.is_interrupted() {
            interrupted_run(events) + 1
        } else {
            0
        },
        read_stop(events.push(e), events.len() as int) == match e {
            Event::Read { got: Ok(bytes), .. } => if bytes.len() == 0 {
                ReadStop::End
            } else {
                ReadStop::GoOn
            },
            Event::Read { got: Err(f), .. } => if f == Error::Interrupted && interrupted_run(events)
                < RETRY_LIMIT {
                ReadStop::GoOn
            } else {
                ReadStop::Fail(f)
            },
            _ => ReadStop::GoOn,
        },
{
    reveal(reads_on);
    let more = events.push(e);
    assert(more.drop_last() =~= events);
    assert(more.take(events.len() as int) =~= events);
    assert forall|i: int| 0 <= i < more.len() implies {
        &&& (#[trigger] more[i]).is_read()
        &&& more[i].in_bounds()
        &&& i < events.len() ==> read_stop(more, i) is GoOn
    } by {
        if i < events.len() {
            assert(more[i] == events[i]);
            assert(more.take(i) =~= events.take(i));
        }
    }
}

/// A record in which no read ended the loop is one in which none but the
/// last could have.
proof fn lemma_reads_on_weaken(events: Seq<Event>, upto: int, less: int)
    requires
        reads_on(events, upto),
        less <= upto,
    ensures
        reads_on(events, less),
{
    reveal(reads_on);
}

/// A last read that did not end the loop joins those before it.
proof fn lemma_reads_on_last(events: Seq<Event>)
    requires
        events.len() > 0,
        reads_on(events, events.len() - 1),
        read_stop(events, events.len() - 1) is GoOn,
    ensures
        reads_on(events, events.len() as int),
{
    reveal(reads_on);
}

proof fn lemma_refills_pushed(capacity: nat, events: Seq<Event>, e: Event)
    requires
        refills(capacity, events),
        e matches Event::Read { len, .. } && len == capacity,
    ensures
        refills(capacity, events.push(e)),
{
    reveal(refills);
    let more = events.push(e);
    assert forall|i: int| 0 <= i < more.len() implies match #[trigger] more[i] {
        Event::Read { len, .. } => len == capacity,
        _ => false,
    } by {
        if i < events.len() {
            assert(more[i] == events[i]);
        }
    }
}

proof fn lemma_asks_pushed(capacity: nat, held: nat, want: nat, events: Seq<Event>, e: Event)
    requires
        asks_for_rest(capacity, held, want, events),
        e matches Event::Read { len, .. } && len == room_asked(
            capacity,
            want - held - received(events).len(),
        ),
    ensures
        asks_for_rest(capacity, held, want, events.push(e)),
{
    reveal(asks_for_rest);
    let more = events.push(e);
    assert(more.take(events.len() as int) =~= events);
    assert forall|i: int| 0 <= i < more.len() implies match #[trigger] more[i] {
        Event::Read { len, .. } => len == room_asked(
            capacity,
            want - held - received(more.take(i)).len(),
        ),
        _ => false,
    } by {
        if i < events.len() {
            assert(more[i] == events[i]);
            assert(more.take(i) =~= events.take(i));
        }
    }
}

proof fn lemma_no_reads_yet()
    ensures
        reads_on(Seq::<Event>::empty(), 0),
        forall|capacity: nat| refills(capacity, Seq::<Event>::empty()),
        forall|capacity: nat, held: nat, want: nat|
            asks_for_rest(capacity, held, want, Seq::<Event>::empty()),
        received(Seq::<Event>::empty()) == Seq::<u8>::empty(),
        interrupted_run(Seq::<Event>::empty()) == 0,
{
    reveal(reads_on);
    reveal(refills);
    reveal(asks_for_rest);
}

/// Reads from `reader` to the end of the source and appends everything to
/// `out`.
pub fn read_to_end<RW: ReadWrite>(
    reader: &mut ReadBuffer,
    traced: &mut Traced<RW>,
    out: &mut Vec<u8>,
) -> (r: Result<usize, Error>)
    requires
        old(reader).wf(),
    ensures
        final(reader).wf(),
        extends(old(traced).history(), final(traced).history()),
        final(traced).kept_unless_called(old(traced)),
        drained(
            old(reader)@,
            since(old(traced).history(), final(traced).history()),
            old(out)@,
            final(out)@,
            final(reader)@,
            r,
        ),
{
    let ghost start = traced.history();
    let ghost capacity = reader@.capacity;
    let start_len: usize = out.len();
    let mut interrupts: usize = 0;
    proof {
        lemma_no_reads_yet();
        assert(since(start, traced.history()) =~= Seq::<Event>::empty());
        assert(start.take(start.len() as int) =~= start);
        assert(out@ + reader@.unread =~= old(out)@ + old(reader)@.unread + Seq::<u8>::empty());
    }
    loop
        invariant
            start == old(traced).history(),
            traced.kept_unless_called(old(traced)),
            capacity == old(reader)@.capacity,
            reader.wf(),
            reader@.capacity == capacity,
            extends(start, traced.history()),
            reads_on(since(start, traced.history()), since(start, traced.history()).len() as int),
            refills(capacity, since(start, traced.history())),
            out@ + reader@.unread == old(out)@ + old(reader)@.unread + received(
                since(start, traced.history()),
            ),
            interrupts == interrupted_run(since(start, traced.history())),
            interrupts <= RETRY_LIMIT,
            start_len == old(out)@.len(),
            start_len <= out@.len(),
            interrupts > 0 ==> reader@.unread.len() == 0,
        decreases usize::MAX - out@.len(), RETRY_LIMIT - interrupts,
    {
        let ghost events = since(start, traced.history());
        let ghost earlier = traced.history();
        let ghost held_before = reader@;
        let failure: Option<Error> = match reader.fill(traced) {
            Ok(_) => None,
            Err(e) => Some(e),
        };
        let ghost now = since(start, traced.history());
        proof {
            lemma_extends_transitive(start, earlier, traced.history());
            let added = since(earlier, traced.history());
            assert(now =~= events + added);
            if held_before.unread.len() > 0 {
                assert(added =~= Seq::<Event>::empty());
                assert(now =~= events);
            } else {
                assert(added =~= seq![added[0]]);
                assert(now =~= events.push(added[0]));
                lemma_read_pushed(events, added[0]);
                lemma_refills_pushed(capacity, events, added[0]);
                assert(held_before.unread =~= Seq::<u8>::empty());
            }
        }
        match failure {
            Some(e) => {
                if e.interrupted() && interrupts < RETRY_LIMIT {
                    interrupts = interrupts + 1;
                    proof {
                        assert(out@ + reader@.unread =~= old(out)@ + old(reader)@.unread
                            + received(now));
                        lemma_reads_on_last(now);
                    }
                    continue ;
                } else {
                    proof {
                        lemma_reads_on_weaken(now, events.len() as int, now.len() - 1);
                        assert(out@ + reader@.unread =~= old(out)@ + old(reader)@.unread
                            + received(now));
                    }
                    return Err(e);
                }
            },
            None => {},
        }
        let chunk = reader.buffer();
        let held: usize = chunk.len();
        if held == 0 {
            proof {
                lemma_reads_on_weaken(now, events.len() as int, now.len() - 1);
                assert(out@ + reader@.unread =~= old(out)@ + old(reader)@.unread + received(now));
            }
            return Ok(out.len() - start_len);
        }
        proof {
            assert(out@ + reader@.unread =~= old(out)@ + old(reader)@.unread + received(now));
            if held_before.unread.len() == 0 {
                lemma_reads_on_last(now);
            }
        }
        if held > usize::MAX - out.len() {
            proof {
                lemma_reads_on_weaken(now, now.len() as int, now.len() - 1);
                if now.len() > 0 {
                    reveal(reads_on);
                }
            }
            return Err(Error::OutOfMemory);
        }
        let ghost had = out@;
        let ghost unread = reader@.unread;
        out.extend_from_slice(chunk);
        reader.consume(held);
        interrupts = 0;
        proof {
            assert(out@ =~= had + unread);
            assert(reader@.unread =~= Seq::<u8>::empty());
            assert(out@ + reader@.unread =~= old(out)@ + old(reader)@.unread + received(now));
            if held_before.unread.len() > 0 {
                assert(interrupted_run(now) == 0);
            }
        }
    }
}

/// Reads from `reader` until `out` is full.
pub fn read_exact<RW: ReadWrite>(
    reader: &mut ReadBuffer,
    traced: &mut Traced<RW>,
    out: &mut [u8],
) -> (r: Result<(), Error>)
    requires
        old(reader).wf(),
    ensures
        final(reader).wf(),
        extends(old(traced).history(), final(traced).history()),
        final(traced).kept_unless_called(old(traced)),
        read_exactly(
            old(reader)@,
            since(old(traced).history(), final(traced).history()),
            old(out)@,
            final(out)@,
            final(reader)@,
            r,
        ),
{
    let ghost start = traced.history();
    let len: usize = out.len();
    let mut done: usize = 0;
    let mut interrupts: usize = 0;
    proof {
        lemma_no_reads_yet();
        assert(since(start, traced.history()) =~= Seq::<Event>::empty());
        assert(start.take(start.len() as int) =~= start);
        assert(out@.take(0) + reader@.unread =~= old(reader)@.unread + Seq::<u8>::empty());
    }
    while done < len
        invariant
            start == old(traced).history(),
            traced.kept_unless_called(old(traced)),
            reader.wf(),
            reader@.capacity == old(reader)@.capacity,
            len == out@.len(),
            len == old(out)@.len(),
            done <= len,
            extends(start, traced.history()),
            reads_on(since(start, traced.history()), since(start, traced.history()).len() as int),
            asks_for_rest(
                old(reader)@.capacity,
                old(reader)@.unread.len(),
                len as nat,
                since(start, traced.history()),
            ),
            out@.take(done as int) + reader@.unread == old(reader)@.unread + received(
                since(start, traced.history()),
            ),
            interrupts == interrupted_run(since(start, traced.history())),
            interrupts <= RETRY_LIMIT,
            interrupts > 0 ==> reader@.unread.len() == 0,
        decreases len - done, RETRY_LIMIT - interrupts,
    {
        let ghost events = since(start, traced.history());
        let ghost earlier = traced.history();
        let ghost held_before = reader@;
        let ghost whole = out@;
        let (front, rest) = out.split_at_mut(done);
        let ghost rest_before = rest@;
        let r = reader.read(traced, rest);
        let ghost front_after = front@;
        let ghost rest_after = rest@;
        let ghost now = since(start, traced.history());
        proof {
            lemma_extends_transitive(start, earlier, traced.history());
            let added = since(earlier, traced.history());
            assert(now =~= events + added);
            assert(out@ =~= front_after + rest_after);
            assert(front_after =~= whole.take(done as int));
            assert(out@.take(done as int) =~= whole.take(done as int));
            if held_before.unread.len() > 0 {
                assert(added =~= Seq::<Event>::empty());
                assert(now =~= events);
                assert(interrupts == 0);
            } else {
                assert(added =~= seq![added[0]]);
                assert(now =~= events.push(added[0]));
                lemma_read_pushed(events, added[0]);
                assert(held_before.unread =~= Seq::<u8>::empty());
                assert(whole.take(done as int) + Seq::<u8>::empty() =~= whole.take(done as int));
                assert(done == old(reader)@.unread.len() + received(events).len());
                assert(rest_before.len() == len - done);
                lemma_asks_pushed(
                    old(reader)@.capacity,
                    old(reader)@.unread.len(),
                    len as nat,
                    events,
                    added[0],
                );
            }
        }
        match r {
            Ok(n) => {
                proof {
                    let stock = if held_before.unread.len() > 0 {
                        held_before.unread
                    } else {
                        since(earlier, traced.history())[0].received()
                    };
                    assert(rest_after.take(n as int) == stock.take(n as int));
                    assert(reader@.unread == stock.skip(n as int));
                    assert(stock =~= stock.take(n as int) + stock.skip(n as int));
                    assert(out@.take(done + n) =~= out@.take(done as int) + rest_after.take(
                        n as int,
                    ));
                    assert(out@.take(done + n) + reader@.unread =~= (out@.take(done as int)
                        + held_before.unread) + (if held_before.unread.len() > 0 {
                        Seq::<u8>::empty()
                    } else {
                        stock
                    }));
                    assert(out@.take(done + n) + reader@.unread =~= old(reader)@.unread
                        + received(now));
                    if n == 0 {
                        assert(stock.len() == 0);
                        assert(reader@.unread =~= Seq::<u8>::empty());
                        assert(out@.take(done as int) =~= old(reader)@.unread + received(now));
                        lemma_reads_on_weaken(now, events.len() as int, now.len() - 1);
                    }
                }
                if n == 0 {
                    return Err(Error::UnexpectedEof);
                }
                proof {
                    if held_before.unread.len() == 0 {
                        lemma_reads_on_last(now);
                    }
                }
                done = done + n;
                interrupts = 0;
            },
            Err(e) => {
                proof {
                    assert(reader@.unread =~= Seq::<u8>::empty());
                    assert(out@.take(done as int) =~= old(reader)@.unread + received(now));
                }
                if e.interrupted() && interrupts < RETRY_LIMIT {
                    proof {
                        lemma_reads_on_last(now);
                    }
                    interrupts = interrupts + 1;
                } else {
                    proof {
                        lemma_reads_on_weaken(now, events.len() as int, now.len() - 1);
                    }
                    return Err(e);
                }
            },
        }
    }
    proof {
        let events = since(start, traced.history());
        assert(out@.take(done as int) =~= out@);
        lemma_reads_on_weaken(events, events.len() as int, events.len() - 1);
        if events.len() > 0 {
            reveal(reads_on);
        }
    }
    Ok(())
}

} // verus!
