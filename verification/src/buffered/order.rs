//! Output leaves in the order in which it was written: how the raw writes
//! of one call after another add up to one run over one stream of bytes.

use crate::buffered::write_buffer::{
    emptied, flushed, lemma_flushed_conserves, placed_all, wrote_all, WriterView,
};
use crate::error::Error;
use crate::handle::{
    goes_on_until_last, lemma_offers_rest_sends_prefix, offers_rest, write_all_run, write_verdict,
};
use crate::history::{interrupted_run, lemma_sent_concat, sent, Event};
use vstd::prelude::*;

verus! {

/// Every call of `events` is a raw write that offers bytes of `stream`,
/// beginning where the writes before it stopped.
#[verifier::opaque]
pub open spec fn pushes_in_order(stream: Seq<u8>, events: Seq<Event>) -> bool {
    forall|i: int|
        0 <= i < events.len() ==> match #[trigger] events[i] {
            Event::Write { data, accepted } => {
                let at = sent(events.take(i)).len() as int;
                &&& at + data.len() <= stream.len()
                &&& data == stream.subrange(at, at + data.len())
                &&& events[i].in_bounds()
            },
            _ => false,
        }
}

/// No call of `events` ended its loop.
#[verifier::opaque]
pub open spec fn all_go_on(events: Seq<Event>) -> bool {
    forall|i: int| 0 <= i < events.len() ==> (#[trigger] write_verdict(events, i)) is None
}

/// The last call of `events`, if there is one, is a raw write that took
/// something.
pub open spec fn settled(events: Seq<Event>) -> bool {
    events.len() > 0 ==> match events.last() {
        Event::Write { accepted: Ok(n), .. } => n > 0,
        _ => false,
    }
}

/// The raw writes `events` have pushed the first bytes of `stream` out in
/// order, none of them has failed, and together with the bytes `pending`
/// they account for exactly the first `upto` bytes of `stream`.
pub open spec fn in_order(
    stream: Seq<u8>,
    events: Seq<Event>,
    pending: Seq<u8>,
    upto: int,
) -> bool {
    &&& pushes_in_order(stream, events)
    &&& all_go_on(events)
    &&& settled(events)
    &&& 0 <= upto <= stream.len()
    &&& sent(events) + pending == stream.take(upto)
}

/// How a call that pushes `stream` out ends, given its raw writes: with
/// success if none of them failed, and with the failure of the last one
/// otherwise. None but the last can have failed.
pub open spec fn ends_as(events: Seq<Event>, r: Result<(), Error>) -> bool {
    &&& goes_on_until_last(events)
    &&& match r {
        Ok(()) => events.len() > 0 ==> write_verdict(events, events.len() - 1) is None,
        Err(e) => events.len() > 0 && write_verdict(events, events.len() - 1) == Some(e),
    }
}

/// Before any raw write, what is pending at the head of the stream is all
/// that is accounted for.
pub proof fn lemma_in_order_start(stream: Seq<u8>, pending: Seq<u8>)
    requires
        pending.len() <= stream.len(),
        pending == stream.take(pending.len() as int),
    ensures
        in_order(stream, Seq::empty(), pending, pending.len() as int),
        ends_as(Seq::empty(), Ok(())),
{
    reveal(pushes_in_order);
    reveal(all_go_on);
    reveal(goes_on_until_last);
    assert(sent(Seq::<Event>::empty()) + pending =~= pending);
}

/// What raw writes in order have moved is a prefix of the stream.
pub proof fn lemma_in_order_sends_prefix(stream: Seq<u8>, events: Seq<Event>)
    requires
        pushes_in_order(stream, events),
    ensures
        sent(events).len() <= stream.len(),
        sent(events) == stream.take(sent(events).len() as int),
    decreases events.len(),
{
    reveal(pushes_in_order);
    if events.len() > 0 {
        let front = events.drop_last();
        let k = events.len() - 1;
        assert(events.take(k) =~= front);
        assert forall|i: int| 0 <= i < front.len() implies match #[trigger] front[i] {
            Event::Write { data, accepted } => {
                let at = sent(front.take(i)).len() as int;
                &&& at + data.len() <= stream.len()
                &&& data == stream.subrange(at, at + data.len())
                &&& front[i].in_bounds()
            },
            _ => false,
        } by {
            assert(front[i] == events[i]);
            assert(front.take(i) =~= events.take(i));
        }
        lemma_in_order_sends_prefix(stream, front);
        assert(events.last() == events[k]);
        let before = sent(front).len() as int;
        match events[k] {
            Event::Write { data, accepted } => {
                match accepted {
                    Ok(n) => {
                        assert(events[k].sent() == data.take(n as int));
                        assert(data.take(n as int) =~= stream.subrange(before, before + n));
                        assert(sent(events) =~= stream.take(before + n));
                    },
                    Err(_) => {
                        assert(sent(events) =~= sent(front));
                    },
                }
            },
            _ => {},
        }
    } else {
        assert(sent(events) =~= stream.take(0));
    }
}

/// After a write that took something, interruptions are counted afresh.
pub proof fn lemma_interrupted_run_after_settled(a: Seq<Event>, c: Seq<Event>)
    requires
        settled(a),
    ensures
        interrupted_run(a + c) == interrupted_run(c),
    decreases c.len(),
{
    if c.len() == 0 {
        assert(a + c =~= a);
    } else {
        assert((a + c).last() == c.last());
        assert((a + c).drop_last() =~= a + c.drop_last());
        lemma_interrupted_run_after_settled(a, c.drop_last());
    }
}

/// A run of writes that succeeded and made any raw call ended with a write
/// that took something, and none of its calls failed.
pub proof fn lemma_run_ok_settles(data: Seq<u8>, events: Seq<Event>)
    requires
        write_all_run(data, events, Ok(())),
    ensures
        settled(events),
        all_go_on(events),
        sent(events).len() == data.len(),
{
    reveal(offers_rest);
    reveal(goes_on_until_last);
    reveal(all_go_on);
    if events.len() > 0 {
        let k = events.len() - 1;
        assert(events.take(k) =~= events.drop_last());
        assert(events.last() == events[k]);
        assert(events[k].is_write());
        match events[k] {
            Event::Write { data: d, accepted } => {
                match accepted {
                    Ok(n) => {
                        if n == 0 {
                            assert(events[k].sent() =~= Seq::<u8>::empty());
                            assert(sent(events) =~= sent(events.drop_last()));
                        }
                    },
                    Err(_) => {
                        assert(events[k].sent() =~= Seq::<u8>::empty());
                        assert(sent(events) =~= sent(events.drop_last()));
                    },
                }
            },
            _ => {},
        }
        assert forall|i: int| 0 <= i < events.len() implies (#[trigger] write_verdict(
            events,
            i,
        )) is None by {
            if i < k {
            }
        }
    }
}

/// The raw writes of a new run offer the bytes of the stream that come
/// next, as those of the run so far did.
proof fn lemma_push_appended(stream: Seq<u8>, done: Seq<Event>, data: Seq<u8>, events: Seq<Event>)
    requires
        pushes_in_order(stream, done),
        offers_rest(data, events),
        sent(done).len() + data.len() <= stream.len(),
        data == stream.subrange(
            sent(done).len() as int,
            (sent(done).len() + data.len()) as int,
        ),
    ensures
        pushes_in_order(stream, done + events),
{
    reveal(pushes_in_order);
    reveal(offers_rest);
    let all = done + events;
    let p = sent(done).len() as int;
    assert forall|i: int| 0 <= i < all.len() implies match #[trigger] all[i] {
        Event::Write { data: d, accepted } => {
            let at = sent(all.take(i)).len() as int;
            &&& at + d.len() <= stream.len()
            &&& d == stream.subrange(at, at + d.len())
            &&& all[i].in_bounds()
        },
        _ => false,
    } by {
        if i < done.len() {
            assert(all[i] == done[i]);
            assert(all.take(i) =~= done.take(i));
        } else {
            let j = i - done.len();
            assert(all[i] == events[j]);
            assert(all.take(i) =~= done + events.take(j));
            lemma_sent_concat(done, events.take(j));
            let s = sent(events.take(j)).len() as int;
            match events[j] {
                Event::Write { data: d, accepted } => {
                    assert(d == data.skip(s));
                    assert(data.skip(s) =~= stream.subrange(p + s, p + s + d.len()));
                },
                _ => {},
            }
        }
    }
}

/// The calls of a new run are taken as they would be on their own, and
/// those of the run so far as before.
proof fn lemma_verdict_appended(done: Seq<Event>, events: Seq<Event>, i: int)
    requires
        settled(done),
        0 <= i < done.len() + events.len(),
    ensures
        write_verdict(done + events, i) == if i < done.len() {
            write_verdict(done, i)
        } else {
            write_verdict(events, i - done.len())
        },
{
    let all = done + events;
    if i < done.len() {
        assert(all[i] == done[i]);
        assert(all.take(i) =~= done.take(i));
    } else {
        let j = i - done.len();
        assert(all[i] == events[j]);
        assert(all.take(i) =~= done + events.take(j));
        lemma_interrupted_run_after_settled(done, events.take(j));
    }
}

/// A new run after a run in which no call failed ends as it would on its
/// own.
proof fn lemma_ends_appended(done: Seq<Event>, events: Seq<Event>, r: Result<(), Error>)
    requires
        all_go_on(done),
        settled(done),
        ends_as(events, r),
    ensures
        ends_as(done + events, r),
        r is Ok ==> all_go_on(done + events),
{
    reveal(goes_on_until_last);
    reveal(all_go_on);
    let all = done + events;
    assert forall|i: int| 0 <= i < all.len() - 1 implies (#[trigger] write_verdict(
        all,
        i,
    )) is None by {
        lemma_verdict_appended(done, events, i);
        if i < done.len() {
            assert(write_verdict(done, i) is None);
        } else {
            assert(write_verdict(events, i - done.len()) is None);
        }
    }
    if all.len() > 0 {
        let last = all.len() - 1;
        lemma_verdict_appended(done, events, last);
        if events.len() == 0 {
            assert(write_verdict(done, last) is None);
        }
    }
}

/// One more run of writes, over the bytes of the stream that come next,
/// continues a run in order.
pub proof fn lemma_step_run(
    stream: Seq<u8>,
    done: Seq<Event>,
    data: Seq<u8>,
    events: Seq<Event>,
    r: Result<(), Error>,
)
    requires
        pushes_in_order(stream, done),
        all_go_on(done),
        settled(done),
        write_all_run(data, events, r),
        sent(done).len() + data.len() <= stream.len(),
        data == stream.subrange(
            sent(done).len() as int,
            (sent(done).len() + data.len()) as int,
        ),
    ensures
        pushes_in_order(stream, done + events),
        ends_as(done + events, r),
        sent(done + events) == sent(done) + sent(events),
        sent(events).len() <= data.len(),
        sent(done + events) == stream.take((sent(done).len() + sent(events).len()) as int),
        r is Ok ==> {
            &&& all_go_on(done + events)
            &&& settled(done + events)
            &&& sent(events) == data
        },
{
    let all = done + events;
    lemma_sent_concat(done, events);
    lemma_offers_rest_sends_prefix(data, events);
    lemma_push_appended(stream, done, data, events);
    assert(ends_as(events, r));
    lemma_ends_appended(done, events, r);
    lemma_in_order_sends_prefix(stream, all);
    if r is Ok {
        lemma_run_ok_settles(data, events);
        assert(data.take(data.len() as int) =~= data);
        if events.len() > 0 {
            assert(all.last() == events.last());
        } else {
            assert(all =~= done);
        }
    }
}

/// A flush continues a run in order: it pushes out what is pending, which
/// are the bytes of the stream that come next.
pub proof fn lemma_step_flushed(
    stream: Seq<u8>,
    done: Seq<Event>,
    upto: int,
    before: WriterView,
    events: Seq<Event>,
    after: WriterView,
    r: Result<(), Error>,
)
    requires
        in_order(stream, done, before.pending, upto),
        flushed(before, events, after, r),
    ensures
        pushes_in_order(stream, done + events),
        ends_as(done + events, r),
        sent(done + events) + after.pending == stream.take(upto),
        after.capacity == before.capacity,
        (events.len() > 0 || !before.panicked) ==> !after.panicked,
        r is Ok ==> in_order(stream, done + events, Seq::empty(), upto) && after.pending
            == Seq::<u8>::empty(),
{
    lemma_in_order_sends_prefix(stream, done);
    let p = sent(done).len() as int;
    assert(stream.take(upto).len() == upto);
    assert(p + before.pending.len() == upto);
    assert(before.pending =~= stream.subrange(p, p + before.pending.len())) by {
        assert forall|j: int| 0 <= j < before.pending.len() implies before.pending[j] == stream[p
            + j] by {
            assert((sent(done) + before.pending)[p + j] == stream.take(upto)[p + j]);
        }
    }
    lemma_step_run(stream, done, before.pending, events, r);
    lemma_flushed_conserves(before, events, after, r);
    assert(sent(done + events) + after.pending =~= stream.take(upto)) by {
        assert(sent(done + events) + after.pending =~= sent(done) + (sent(events)
            + after.pending));
    }
    if r is Ok {
        assert(after.pending =~= Seq::<u8>::empty());
        assert(sent(done + events) + Seq::<u8>::empty() =~= stream.take(upto));
    }
}

/// What a step that writes the next `len` bytes of the stream leaves when
/// it fails: every byte up to some point inside those bytes is accounted
/// for.
pub open spec fn failed_within(
    stream: Seq<u8>,
    events: Seq<Event>,
    pending: Seq<u8>,
    upto: int,
    len: int,
) -> bool {
    exists|k: int| upto <= k <= upto + len && sent(events) + pending == #[trigger] stream.take(k)
}

/// The flush that makes room failed: the bytes to be written were not
/// touched.
proof fn lemma_step_flush_failed(
    stream: Seq<u8>,
    done: Seq<Event>,
    upto: int,
    before: WriterView,
    events: Seq<Event>,
    len: int,
    after: WriterView,
    e: Error,
)
    requires
        in_order(stream, done, before.pending, upto),
        flushed(before, events, after, Err(e)),
        len >= 0,
    ensures
        pushes_in_order(stream, done + events),
        ends_as(done + events, Err(e)),
        after.capacity == before.capacity,
        !after.panicked,
        failed_within(stream, done + events, after.pending, upto, len),
{
    lemma_flushed_conserves(before, events, after, Err(e));
    lemma_step_flushed(stream, done, upto, before, events, after, Err(e));
    assert(sent(done + events) + after.pending == stream.take(upto));
}

/// The flush that makes room succeeded with the raw calls `first`, and the
/// bytes were placed with the raw calls `second`.
proof fn lemma_step_flushed_then_placed(
    stream: Seq<u8>,
    done: Seq<Event>,
    upto: int,
    before: WriterView,
    first: Seq<Event>,
    second: Seq<Event>,
    buf: Seq<u8>,
    after: WriterView,
    r: Result<(), Error>,
)
    requires
        in_order(stream, done, before.pending, upto),
        before.wf(),
        flushed(before, first, emptied(before), Ok(())),
        placed_all(emptied(before), second, buf, after, r),
        upto + buf.len() <= stream.len(),
        buf == stream.subrange(upto, upto + buf.len()),
    ensures
        pushes_in_order(stream, done + (first + second)),
        ends_as(done + (first + second), r),
        after.capacity == before.capacity,
        (first.len() + second.len() > 0 || !before.panicked) ==> !after.panicked,
        r is Ok ==> {
            &&& in_order(stream, done + (first + second), after.pending, upto + buf.len())
            &&& after.pending == if buf.len() > before.capacity {
                Seq::<u8>::empty()
            } else {
                buf
            }
        },
        r is Err ==> failed_within(
            stream,
            done + (first + second),
            after.pending,
            upto,
            buf.len() as int,
        ),
{
    lemma_flushed_conserves(before, first, emptied(before), Ok(()));
    lemma_step_flushed(stream, done, upto, before, first, emptied(before), Ok(()));
    lemma_step_placed_all(stream, done + first, upto, emptied(before), second, buf, after, r);
    assert(done + (first + second) =~= (done + first) + second);
    if r is Ok && buf.len() <= before.capacity {
        assert(emptied(before).pending + buf =~= buf);
    }
}

/// A buffered write of all of `buf`, which are the bytes of the stream that
/// come next, continues a run in order, and on success leaves every byte
/// accounted for.
pub proof fn lemma_step_wrote_all(
    stream: Seq<u8>,
    done: Seq<Event>,
    upto: int,
    before: WriterView,
    events: Seq<Event>,
    buf: Seq<u8>,
    after: WriterView,
    r: Result<(), Error>,
)
    requires
        in_order(stream, done, before.pending, upto),
        before.wf(),
        wrote_all(before, events, buf, after, r),
        upto + buf.len() <= stream.len(),
        buf == stream.subrange(upto, upto + buf.len()),
    ensures
        pushes_in_order(stream, done + events),
        ends_as(done + events, r),
        after.capacity == before.capacity,
        (events.len() > 0 || !before.panicked) ==> !after.panicked,
        r is Ok ==> {
            &&& in_order(stream, done + events, after.pending, upto + buf.len())
            &&& after.pending == if buf.len() > before.capacity {
                Seq::<u8>::empty()
            } else if buf.len() > before.room() {
                buf
            } else {
                before.pending + buf
            }
        },
        r is Err ==> failed_within(stream, done + events, after.pending, upto, buf.len() as int),
{
    if buf.len() > before.room() {
        if r is Err && flushed(before, events, after, Err(r->Err_0)) {
            lemma_step_flush_failed(
                stream,
                done,
                upto,
                before,
                events,
                buf.len() as int,
                after,
                r->Err_0,
            );
        } else {
            let k = choose|k: int|
                {
                    &&& 0 <= k <= events.len()
                    &&& flushed(before, #[trigger] events.take(k), emptied(before), Ok(()))
                    &&& placed_all(emptied(before), events.skip(k), buf, after, r)
                };
            assert(events =~= events.take(k) + events.skip(k));
            lemma_step_flushed_then_placed(
                stream,
                done,
                upto,
                before,
                events.take(k),
                events.skip(k),
                buf,
                after,
                r,
            );
        }
    } else {
        lemma_step_placed_all(stream, done, upto, before, events, buf, after, r);
    }
}

/// Placing all of `buf` in a buffer that has room, or past an empty one,
/// continues a run in order.
pub proof fn lemma_step_placed_all(
    stream: Seq<u8>,
    done: Seq<Event>,
    upto: int,
    before: WriterView,
    events: Seq<Event>,
    buf: Seq<u8>,
    after: WriterView,
    r: Result<(), Error>,
)
    requires
        in_order(stream, done, before.pending, upto),
        before.wf(),
        buf.len() > before.capacity ==> before.pending.len() == 0,
        placed_all(before, events, buf, after, r),
        upto + buf.len() <= stream.len(),
        buf == stream.subrange(upto, upto + buf.len()),
    ensures
        pushes_in_order(stream, done + events),
        ends_as(done + events, r),
        after.capacity == before.capacity,
        (events.len() > 0 || !before.panicked) ==> !after.panicked,
        r is Ok ==> {
            &&& in_order(stream, done + events, after.pending, upto + buf.len())
            &&& after.pending == if buf.len() > before.capacity {
                Seq::<u8>::empty()
            } else {
                before.pending + buf
            }
        },
        r is Err ==> failed_within(stream, done + events, after.pending, upto, buf.len() as int),
{
    let target = upto + buf.len();
    lemma_in_order_sends_prefix(stream, done);
    if buf.len() > before.capacity {
        assert(before.pending =~= Seq::<u8>::empty());
        assert(sent(done) =~= stream.take(upto));
        assert(sent(done).len() == upto);
        lemma_step_run(stream, done, buf, events, r);
        let k = upto + sent(events).len();
        assert(after.pending =~= Seq::<u8>::empty());
        assert(sent(done + events) + after.pending =~= stream.take(k));
        if r is Ok {
            assert(sent(done + events) + Seq::<u8>::empty() =~= stream.take(target));
        }
    } else {
        assert(done + events =~= done);
        assert(sent(done) + (before.pending + buf) =~= stream.take(target)) by {
            assert(stream.take(target) =~= stream.take(upto) + stream.subrange(upto, target));
            assert(sent(done) + (before.pending + buf) =~= (sent(done) + before.pending) + buf);
        }
        assert(ends_as(done, r)) by {
            reveal(goes_on_until_last);
            reveal(all_go_on);
        }
    }
}

} // verus!
