//! The record of the raw calls that a stream has made, and what can be read
//! off such a record.

use crate::error::Error;
use vstd::prelude::*;

verus! {

/// One call on the raw handle, with what it was given and what it answered.
pub enum Event {
    /// A raw read into a buffer of `len` bytes. On success `got` holds the
    /// bytes that arrived, of which there are at most `len`.
    Read { len: nat, got: Result<Seq<u8>, Error> },
    /// A raw write that offered `data`. On success `accepted` is the number
    /// of leading bytes of `data` that the handle took.
    Write { data: Seq<u8>, accepted: Result<usize, Error> },
}

/// How many times in a row a loop repeats a raw call that is interrupted
/// again and again without any progress. The next interruption is passed on
/// to the caller.
pub const RETRY_LIMIT: usize = usize::MAX;

impl Event {
    /// The bytes that this call moved into the handle.
    pub open spec fn sent(self) -> Seq<u8> {
        match self {
            Event::Write { data, accepted: Ok(n) } => data.take(n as int),
            _ => Seq::empty(),
        }
    }

    /// The bytes that this call brought out of the handle.
    pub open spec fn received(self) -> Seq<u8> {
        match self {
            Event::Read { got: Ok(bytes), .. } => bytes,
            _ => Seq::empty(),
        }
    }

    /// Whether the call is a raw write.
    pub open spec fn is_write(self) -> bool {
        self is Write
    }

    /// Whether the call is a raw read.
    pub open spec fn is_read(self) -> bool {
        self is Read
    }

    /// Whether the call is a raw write that took nothing.
    pub open spec fn took_nothing(self) -> bool {
        match self {
            Event::Write { accepted: Ok(n), .. } => n == 0,
            _ => false,
        }
    }

    /// Whether the call failed with an interruption.
    pub open spec fn is_interrupted(self) -> bool {
        match self {
            Event::Read { got: Err(e), .. } => e == Error::Interrupted,
            Event::Write { accepted: Err(e), .. } => e == Error::Interrupted,
            _ => false,
        }
    }

    /// The answer of the call keeps to the handle's contract: it moved no
    /// more bytes than it was given room for.
    pub open spec fn in_bounds(self) -> bool {
        match self {
            Event::Read { len, got: Ok(bytes) } => bytes.len() <= len,
            Event::Write { data, accepted: Ok(n) } => n <= data.len(),
            _ => true,
        }
    }
}

/// All bytes that the raw writes of `events` moved into the handle, in order.
pub open spec fn sent(events: Seq<Event>) -> Seq<u8>
    decreases events.len(),
{
    if events.len() == 0 {
        Seq::empty()
    } else {
        sent(events.drop_last()) + events.last().sent()
    }
}

/// All bytes that the raw reads of `events` brought out of the handle, in
/// order.
pub open spec fn received(events: Seq<Event>) -> Seq<u8>
    decreases events.len(),
{
    if events.len() == 0 {
        Seq::empty()
    } else {
        received(events.drop_last()) + events.last().received()
    }
}

/// The number of raw writes among `events`.
pub open spec fn write_calls(events: Seq<Event>) -> nat
    decreases events.len(),
{
    if events.len() == 0 {
        0
    } else {
        write_calls(events.drop_last()) + if events.last().is_write() { 1nat } else { 0nat }
    }
}

/// The number of raw reads among `events`.
pub open spec fn read_calls(events: Seq<Event>) -> nat
    decreases events.len(),
{
    if events.len() == 0 {
        0
    } else {
        read_calls(events.drop_last()) + if events.last().is_read() { 1nat } else { 0nat }
    }
}

/// The number of interrupted calls in a row at the end of `events`.
pub open spec fn interrupted_run(events: Seq<Event>) -> nat
    decreases events.len(),
{
    if events.len() == 0 || !events.last().is_interrupted() {
        0
    } else {
        interrupted_run(events.drop_last()) + 1
    }
}

/// `later` continues `earlier`: nothing of the record was changed or lost.
pub open spec fn extends(earlier: Seq<Event>, later: Seq<Event>) -> bool {
    earlier.len() <= later.len() && later.take(earlier.len() as int) == earlier
}

/// The calls of `later` that were made after `earlier`.
pub open spec fn since(earlier: Seq<Event>, later: Seq<Event>) -> Seq<Event> {
    later.skip(earlier.len() as int)
}

/// Every call of `events` is a raw write.
pub open spec fn only_writes(events: Seq<Event>) -> bool {
    forall|i: int| 0 <= i < events.len() ==> (#[trigger] events[i]).is_write()
}

/// A record that continues another is the other followed by what was
/// made since.
pub proof fn lemma_extends_splits(earlier: Seq<Event>, later: Seq<Event>)
    requires
        extends(earlier, later),
    ensures
        later == earlier + since(earlier, later),
{
    assert(later =~= earlier + since(earlier, later));
}

/// What is appended to a record is what was made since.
pub proof fn lemma_since_of_concat(earlier: Seq<Event>, added: Seq<Event>)
    ensures
        extends(earlier, earlier + added),
        since(earlier, earlier + added) == added,
{
    assert((earlier + added).take(earlier.len() as int) =~= earlier);
    assert(since(earlier, earlier + added) =~= added);
}

/// Continuing a continuation continues the first record, and what was
/// made since adds up.
pub proof fn lemma_extends_transitive(a: Seq<Event>, b: Seq<Event>, c: Seq<Event>)
    requires
        extends(a, b),
        extends(b, c),
    ensures
        extends(a, c),
        since(a, c) == since(a, b) + since(b, c),
{
    assert(c.take(a.len() as int) =~= b.take(a.len() as int));
    assert(since(a, c) =~= since(a, b) + since(b, c));
}

/// What two records moved into the handle is what each moved, in that
/// order.
pub proof fn lemma_sent_concat(a: Seq<Event>, b: Seq<Event>)
    ensures
        sent(a + b) == sent(a) + sent(b),
    decreases b.len(),
{
    if b.len() == 0 {
        assert(a + b =~= a);
        assert(sent(a) + sent(b) =~= sent(a));
    } else {
        assert((a + b).drop_last() =~= a + b.drop_last());
        assert((a + b).last() == b.last());
        lemma_sent_concat(a, b.drop_last());
        assert(sent(a + b) =~= sent(a) + sent(b));
    }
}

/// What two records brought out of the handle is what each brought, in
/// that order.
pub proof fn lemma_received_concat(a: Seq<Event>, b: Seq<Event>)
    ensures
        received(a + b) == received(a) + received(b),
    decreases b.len(),
{
    if b.len() == 0 {
        assert(a + b =~= a);
        assert(received(a) + received(b) =~= received(a));
    } else {
        assert((a + b).drop_last() =~= a + b.drop_last());
        assert((a + b).last() == b.last());
        lemma_received_concat(a, b.drop_last());
        assert(received(a + b) =~= received(a) + received(b));
    }
}

/// A record of raw writes alone brought nothing out of the handle, and
/// counts as many writes as it has calls.
pub proof fn lemma_only_writes(events: Seq<Event>)
    requires
        only_writes(events),
    ensures
        received(events) == Seq::<u8>::empty(),
        read_calls(events) == 0,
        write_calls(events) == events.len(),
    decreases events.len(),
{
    if events.len() > 0 {
        assert(events.last() == events[events.len() - 1]);
        assert forall|i: int| 0 <= i < events.drop_last().len() implies (
        #[trigger] events.drop_last()[i]).is_write() by {
            assert(events.drop_last()[i] == events[i]);
        }
        lemma_only_writes(events.drop_last());
        assert(received(events) =~= Seq::<u8>::empty());
    }
}

/// A record of one call holds what that call moved.
pub proof fn lemma_one_event(e: Event)
    ensures
        sent(seq![e]) == e.sent(),
        received(seq![e]) == e.received(),
        write_calls(seq![e]) == if e.is_write() { 1nat } else { 0nat },
        read_calls(seq![e]) == if e.is_read() { 1nat } else { 0nat },
{
    assert(seq![e].drop_last() =~= Seq::<Event>::empty());
    assert(seq![e].last() == e);
    assert(sent(seq![e].drop_last()) =~= Seq::<u8>::empty());
    assert(received(seq![e].drop_last()) =~= Seq::<u8>::empty());
    assert(write_calls(seq![e].drop_last()) == 0);
    assert(read_calls(seq![e].drop_last()) == 0);
    assert(sent(seq![e]) =~= e.sent());
    assert(received(seq![e]) =~= e.received());
}

} // verus!
