//! The raw duplex handle that the buffers sit on, and the wrapper that keeps
//! the record of the calls made on it.

use crate::error::Error;
use crate::history::{extends, interrupted_run, sent, since, Event, RETRY_LIMIT};
use vstd::prelude::*;

verus! {

/// A bidirectional byte resource: a socket, a pipe, a pty. Both directions
/// may fail and may move fewer bytes than asked.
pub trait ReadWrite {
    /// Reads into `buf` and returns how many leading bytes of it were
    /// filled. `Ok(0)` means that the source has ended. The count never
    /// exceeds the length of `buf`.
    fn read(&mut self, buf: &mut [u8]) -> (r: Result<usize, Error>)
        ensures
            final(buf)@.len() == old(buf)@.len(),
            r matches Ok(n) ==> n <= old(buf)@.len(),
    ;

    /// Offers `buf` and returns how many leading bytes of it were taken.
    /// The count never exceeds the length of `buf`.
    fn write(&mut self, buf: &[u8]) -> (r: Result<usize, Error>)
        ensures
            r matches Ok(n) ==> n <= buf@.len(),
    ;
}

/// Every call of `events` is a raw write that offers what is left of `data`
/// after the writes before it, and something is left each time.
#[verifier::opaque]
pub open spec fn offers_rest(data: Seq<u8>, events: Seq<Event>) -> bool {
    forall|i: int|
        0 <= i < events.len() ==> match #[trigger] events[i] {
            Event::Write { data: offered, accepted } => {
                &&& sent(events.take(i)).len() < data.len()
                &&& offered == data.skip(sent(events.take(i)).len() as int)
                &&& events[i].in_bounds()
            },
            _ => false,
        }
}

/// How a loop that pushes data out takes the answer of its `i`-th raw write:
/// `None` if it goes on, else the failure that ends it. A write that takes
/// nothing ends it with `WriteZero`; an interruption is passed over, unless
/// `RETRY_LIMIT` interruptions came directly before it; any other failure
/// ends it as it is.
pub open spec fn write_verdict(events: Seq<Event>, i: int) -> Option<Error> {
    match events[i] {
        Event::Write { accepted: Ok(n), .. } => if n == 0 {
            Some(Error::WriteZero)
        } else {
            None
        },
        Event::Write { accepted: Err(e), .. } => if e == Error::Interrupted && interrupted_run(
            events.take(i),
        ) < RETRY_LIMIT {
            None
        } else {
            Some(e)
        },
        _ => None,
    }
}

/// No call of `events` before the last one ended the loop.
#[verifier::opaque]
pub open spec fn goes_on_until_last(events: Seq<Event>) -> bool {
    forall|i: int| 0 <= i < events.len() - 1 ==> (#[trigger] write_verdict(events, i)) is None
}

/// `events` is the run of raw writes by which a loop pushes `data` out, and
/// `r` is how the loop ends: with success once everything was taken, and
/// with the failure of the last write otherwise.
pub open spec fn write_all_run(data: Seq<u8>, events: Seq<Event>, r: Result<(), Error>) -> bool {
    &&& offers_rest(data, events)
    &&& goes_on_until_last(events)
    &&& match r {
        Ok(()) => {
            &&& sent(events).len() == data.len()
            &&& events.len() > 0 ==> write_verdict(events, events.len() - 1) is None
        },
        Err(e) => {
            &&& events.len() > 0
            &&& write_verdict(events, events.len() - 1) == Some(e)
        },
    }
}

/// What a run of writes has moved is a prefix of the data it was pushing.
pub proof fn lemma_offers_rest_sends_prefix(data: Seq<u8>, events: Seq<Event>)
    requires
        offers_rest(data, events),
    ensures
        sent(events).len() <= data.len(),
        sent(events) == data.take(sent(events).len() as int),
    decreases events.len(),
{
    reveal(offers_rest);
    if events.len() > 0 {
        let front = events.drop_last();
        let k = events.len() - 1;
        assert(events.take(k) =~= front);
        assert forall|i: int| 0 <= i < front.len() implies match #[trigger] front[i] {
            Event::Write { data: offered, accepted } => {
                &&& sent(front.take(i)).len() < data.len()
                &&& offered == data.skip(sent(front.take(i)).len() as int)
                &&& front[i].in_bounds()
            },
            _ => false,
        } by {
            assert(front[i] == events[i]);
            assert(front.take(i) =~= events.take(i));
        }
        lemma_offers_rest_sends_prefix(data, front);
        assert(events.last() == events[k]);
        let before = sent(front).len() as int;
        assert(sent(events) =~= data.take(sent(events).len() as int)) by {
            match events[k] {
                Event::Write { data: offered, accepted } => {
                    match accepted {
                        Ok(n) => {
                            assert(events[k].sent() == offered.take(n as int));
                            assert(offered.take(n as int) =~= data.subrange(
                                before,
                                before + n,
                            ));
                        },
                        Err(_) => {},
                    }
                },
                _ => {},
            }
        }
    } else {
        assert(sent(events) =~= data.take(0));
    }
}

/// Pushing out nothing takes no raw write and succeeds.
pub proof fn lemma_write_all_run_empty(events: Seq<Event>, r: Result<(), Error>)
    requires
        write_all_run(Seq::<u8>::empty(), events, r),
    ensures
        events.len() == 0,
        r is Ok,
{
    reveal(offers_rest);
    if events.len() > 0 {
        assert(events[0].is_write());
    }
}

/// A run of writes that failed did not get all of the data out: its last
/// write took nothing, and something was still left then.
pub proof fn lemma_write_all_run_failed(data: Seq<u8>, events: Seq<Event>, e: Error)
    requires
        write_all_run(data, events, Err(e)),
    ensures
        events.len() > 0,
        sent(events) == sent(events.drop_last()),
        sent(events).len() < data.len(),
{
    reveal(offers_rest);
    let last = events.len() - 1;
    assert(events.take(last) =~= events.drop_last());
    assert(events.last() == events[last]);
    match events[last] {
        Event::Write { data: d, accepted } => {
            assert(events[last].sent() =~= Seq::<u8>::empty());
        },
        _ => {},
    }
    assert(sent(events) =~= sent(events.drop_last()));
}

/// A run of writes makes raw writes only.
pub proof fn lemma_write_all_run_only_writes(data: Seq<u8>, events: Seq<Event>)
    requires
        offers_rest(data, events),
    ensures
        crate::history::only_writes(events),
{
    reveal(offers_rest);
    assert forall|i: int| 0 <= i < events.len() implies (#[trigger] events[i]).is_write() by {}
}

/// A raw handle together with the record of every call that was made on it
/// through this wrapper.
pub struct Traced<RW: ReadWrite> {
    inner: RW,
    history: Ghost<Seq<Event>>,
}

impl<RW: ReadWrite> Traced<RW> {
    /// The raw handle.
    pub closed spec fn handle(&self) -> RW {
        self.inner
    }

    /// The calls made so far, oldest first.
    pub closed spec fn history(&self) -> Seq<Event> {
        self.history@
    }

    /// Every call on the raw handle leaves a record: unless the record has
    /// grown since `before`, the raw handle is as it was then.
    pub open spec fn kept_unless_called(&self, before: &Self) -> bool {
        self.history().len() == before.history().len() ==> self.handle() == before.handle()
    }

    /// Wraps a raw handle on which nothing has been recorded yet.
    pub fn new(inner: RW) -> (t: Self)
        ensures
            t.handle() == inner,
            t.history() == Seq::<Event>::empty(),
    {
        Traced { inner, history: Ghost(Seq::empty()) }
    }

    /// The raw handle.
    pub fn get_ref(&self) -> (r: &RW)
        ensures
            *r == self.handle(),
    {
        &self.inner
    }

    /// Lends the raw handle. Calls made on it directly are not recorded.
    pub fn get_mut(&mut self) -> (r: &mut RW)
        ensures
            *r == old(self).handle(),
            final(self).handle() == *final(r),
            final(self).history() == old(self).history(),
    {
        &mut self.inner
    }

    /// Gives the raw handle back and drops the record.
    pub fn into_inner(self) -> (r: RW)
        ensures
            r == self.handle(),
    {
        self.inner
    }

    /// One raw read, recorded.
    pub fn read(&mut self, buf: &mut [u8]) -> (r: Result<usize, Error>)
        ensures
            final(buf)@.len() == old(buf)@.len(),
            r matches Ok(n) ==> n <= old(buf)@.len(),
            final(self).history() == old(self).history().push(
                Event::Read {
                    len: old(buf)@.len(),
                    got: match r {
                        Ok(n) => Ok(final(buf)@.take(n as int)),
                        Err(e) => Err(e),
                    },
                },
            ),
    {
        let ghost len = buf@.len();
        let r = self.inner.read(buf);
        self.history = Ghost(
            self.history@.push(
                Event::Read {
                    len,
                    got: match r {
                        Ok(n) => Ok(buf@.take(n as int)),
                        Err(e) => Err(e),
                    },
                },
            ),
        );
        r
    }

    /// One raw write, recorded.
    pub fn write(&mut self, buf: &[u8]) -> (r: Result<usize, Error>)
        ensures
            r matches Ok(n) ==> n <= buf@.len(),
            final(self).history() == old(self).history().push(
                Event::Write { data: buf@, accepted: r },
            ),
    {
        let r = self.inner.write(buf);
        self.history = Ghost(self.history@.push(Event::Write { data: buf@, accepted: r }));
        r
    }

    /// Pushes `data` out with as many raw writes as it takes, each of what
    /// is still left. Returns how many bytes were taken in all, and how the
    /// run ended.
    pub fn send_all(&mut self, data: &[u8]) -> (out: (usize, Result<(), Error>))
        ensures
            extends(old(self).history(), final(self).history()),
            write_all_run(data@, since(old(self).history(), final(self).history()), out.1),
            out.0 == sent(since(old(self).history(), final(self).history())).len(),
            out.0 <= data@.len(),
            final(self).kept_unless_called(old(self)),
    {
        let ghost start = self.history();
        let len: usize = data.len();
        let mut written: usize = 0;
        let mut interrupts: usize = 0;
        proof {
            reveal(offers_rest);
            reveal(goes_on_until_last);
            assert(since(start, self.history()) =~= Seq::<Event>::empty());
            assert(start.take(start.len() as int) =~= start);
        }
        while written < len
            invariant
                start == old(self).history(),
                self.kept_unless_called(old(self)),
                len == data@.len(),
                written <= len,
                extends(start, self.history()),
                offers_rest(data@, since(start, self.history())),
                forall|i: int|
                    0 <= i < since(start, self.history()).len() ==> (#[trigger] write_verdict(
                        since(start, self.history()),
                        i,
                    )) is None,
                written == sent(since(start, self.history())).len(),
                interrupts == interrupted_run(since(start, self.history())),
                interrupts <= RETRY_LIMIT,
            decreases len - written, RETRY_LIMIT - interrupts,
        {
            let ghost before = since(start, self.history());
            let ghost earlier = self.history();
            let r = self.write(&data[written..len]);
            let ghost now = since(start, self.history());
            let ghost latest = Event::Write {
                data: data@.subrange(written as int, len as int),
                accepted: r,
            };
            proof {
                reveal(offers_rest);
                reveal(goes_on_until_last);
                assert(self.history() == earlier.push(latest));
                assert(self.history().take(start.len() as int) =~= earlier.take(
                    start.len() as int,
                ));
                assert(now =~= before.push(latest));
                assert(now.drop_last() =~= before);
                assert(now.take(before.len() as int) =~= before);
                assert(data@.subrange(written as int, len as int) =~= data@.skip(written as int));
                assert forall|i: int| 0 <= i < now.len() implies match #[trigger] now[i] {
                    Event::Write { data: offered, accepted } => {
                        &&& sent(now.take(i)).len() < data@.len()
                        &&& offered == data@.skip(sent(now.take(i)).len() as int)
                        &&& now[i].in_bounds()
                    },
                    _ => false,
                } by {
                    if i < before.len() {
                        assert(now[i] == before[i]);
                        assert(now.take(i) =~= before.take(i));
                    }
                }
                assert forall|i: int| 0 <= i < now.len() - 1 implies (#[trigger] write_verdict(
                    now,
                    i,
                )) is None by {
                    assert(now[i] == before[i]);
                    assert(now.take(i) =~= before.take(i));
                    assert(write_verdict(before, i) is None);
                }
            }
            match r {
                Ok(n) => {
                    if n == 0 {
                        proof {
                            assert(latest.sent() =~= Seq::<u8>::empty());
                            assert(sent(now) =~= sent(before));
                        }
                        return (written, Err(Error::WriteZero));
                    }
                    proof {
                        assert(latest.sent().len() == n);
                        lemma_offers_rest_sends_prefix(data@, now);
                    }
                    written = written + n;
                    interrupts = 0;
                },
                Err(e) => {
                    proof {
                        assert(latest.sent() =~= Seq::<u8>::empty());
                        assert(sent(now) =~= sent(before));
                    }
                    if e.interrupted() && interrupts < RETRY_LIMIT {
                        interrupts = interrupts + 1;
                    } else {
                        return (written, Err(e));
                    }
                },
            }
        }
        proof {
            reveal(goes_on_until_last);
        }
        (written, Ok(()))
    }
}

} // verus!
