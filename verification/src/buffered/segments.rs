//! Buffers that come in several pieces: what they hold when read end to end.

use vstd::prelude::*;

verus! {

/// The bytes of each of the slices `bufs`.
pub open spec fn slices(bufs: Seq<&[u8]>) -> Seq<Seq<u8>> {
    Seq::new(bufs.len(), |i: int| bufs[i]@)
}

/// The bytes of each of the vectors `bufs`.
pub open spec fn vectors(bufs: Seq<Vec<u8>>) -> Seq<Seq<u8>> {
    Seq::new(bufs.len(), |i: int| bufs[i]@)
}

/// The segments laid end to end.
pub open spec fn concat(segs: Seq<Seq<u8>>) -> Seq<u8>
    decreases segs.len(),
{
    if segs.len() == 0 {
        Seq::empty()
    } else {
        concat(segs.drop_last()) + segs.last()
    }
}

/// The number of bytes in all segments together.
pub open spec fn total_len(segs: Seq<Seq<u8>>) -> nat {
    concat(segs).len()
}

/// The first segment that holds anything, or nothing if none does.
pub open spec fn first_nonempty(segs: Seq<Seq<u8>>) -> Seq<u8>
    decreases segs.len(),
{
    if segs.len() == 0 {
        Seq::empty()
    } else if first_nonempty(segs.drop_last()).len() > 0 {
        first_nonempty(segs.drop_last())
    } else {
        segs.last()
    }
}

/// One more segment adds its bytes at the end.
pub proof fn lemma_concat_take_next(segs: Seq<Seq<u8>>, i: int)
    requires
        0 <= i < segs.len(),
    ensures
        concat(segs.take(i + 1)) == concat(segs.take(i)) + segs[i],
        total_len(segs.take(i + 1)) == total_len(segs.take(i)) + segs[i].len(),
{
    assert(segs.take(i + 1).drop_last() =~= segs.take(i));
    assert(segs.take(i + 1).last() == segs[i]);
}

/// The first segments hold no more than all of them.
pub proof fn lemma_total_len_grows(segs: Seq<Seq<u8>>, i: int)
    requires
        0 <= i <= segs.len(),
    ensures
        total_len(segs.take(i)) <= total_len(segs),
    decreases segs.len() - i,
{
    if i < segs.len() {
        lemma_concat_take_next(segs, i);
        lemma_total_len_grows(segs, i + 1);
    } else {
        assert(segs.take(i) =~= segs);
    }
}

/// Two lists of segments, one after the other, hold what each holds, in
/// that order.
pub proof fn lemma_concat_split(a: Seq<Seq<u8>>, b: Seq<Seq<u8>>)
    ensures
        concat(a + b) == concat(a) + concat(b),
    decreases b.len(),
{
    if b.len() == 0 {
        assert(a + b =~= a);
        assert(concat(a) + concat(b) =~= concat(a));
    } else {
        assert((a + b).drop_last() =~= a + b.drop_last());
        assert((a + b).last() == b.last());
        lemma_concat_split(a, b.drop_last());
        assert(concat(a + b) =~= concat(a) + concat(b));
    }
}

/// While every segment so far is empty, so is what they hold together.
pub proof fn lemma_all_empty(segs: Seq<Seq<u8>>)
    requires
        forall|i: int| 0 <= i < segs.len() ==> (#[trigger] segs[i]).len() == 0,
    ensures
        concat(segs).len() == 0,
        first_nonempty(segs).len() == 0,
    decreases segs.len(),
{
    if segs.len() > 0 {
        assert forall|i: int| 0 <= i < segs.drop_last().len() implies (
        #[trigger] segs.drop_last()[i]).len() == 0 by {
            assert(segs.drop_last()[i] == segs[i]);
        }
        lemma_all_empty(segs.drop_last());
        assert(segs.last() == segs[segs.len() - 1]);
    }
}

/// The first segment that holds anything is found at the first index whose
/// segment is not empty.
pub proof fn lemma_first_nonempty_at(segs: Seq<Seq<u8>>, k: int)
    requires
        0 <= k < segs.len(),
        segs[k].len() > 0,
        forall|i: int| 0 <= i < k ==> (#[trigger] segs[i]).len() == 0,
    ensures
        first_nonempty(segs) == segs[k],
        concat(segs.take(k)).len() == 0,
    decreases segs.len(),
{
    assert forall|i: int| 0 <= i < segs.take(k).len() implies (#[trigger] segs.take(k)[i]).len()
        == 0 by {
        assert(segs.take(k)[i] == segs[i]);
    }
    lemma_all_empty(segs.take(k));
    if k == segs.len() - 1 {
        assert(segs.drop_last() =~= segs.take(k));
        assert(segs.last() == segs[k]);
    } else {
        assert(segs.drop_last()[k] == segs[k]);
        assert forall|i: int| 0 <= i < k implies (#[trigger] segs.drop_last()[i]).len() == 0 by {
            assert(segs.drop_last()[i] == segs[i]);
        }
        lemma_first_nonempty_at(segs.drop_last(), k);
    }
}

/// The number of bytes in all of `bufs` together.
pub fn total_len_of(bufs: &[&[u8]]) -> (n: usize)
    requires
        total_len(slices(bufs@)) <= usize::MAX,
    ensures
        n == total_len(slices(bufs@)),
{
    let ghost segs = slices(bufs@);
    let mut n: usize = 0;
    let mut i: usize = 0;
    proof {
        assert(segs.take(0) =~= Seq::<Seq<u8>>::empty());
    }
    while i < bufs.len()
        invariant
            segs == slices(bufs@),
            i <= bufs@.len(),
            n == total_len(segs.take(i as int)),
            total_len(segs) <= usize::MAX,
        decreases bufs@.len() - i,
    {
        proof {
            lemma_concat_take_next(segs, i as int);
            lemma_total_len_grows(segs, i as int + 1);
        }
        n = n + bufs[i].len();
        i = i + 1;
    }
    proof {
        assert(segs.take(i as int) =~= segs);
    }
    n
}

/// The place of the first of `bufs` that holds anything, if one does.
pub fn first_nonempty_of(bufs: &[&[u8]]) -> (r: Option<usize>)
    ensures
        match r {
            Some(k) => k < bufs@.len() && bufs@[k as int]@ == first_nonempty(slices(bufs@))
                && bufs@[k as int]@.len() > 0,
            None => first_nonempty(slices(bufs@)).len() == 0 && total_len(slices(bufs@)) == 0,
        },
{
    let ghost segs = slices(bufs@);
    let mut i: usize = 0;
    while i < bufs.len()
        invariant
            segs == slices(bufs@),
            i <= bufs@.len(),
            forall|j: int| 0 <= j < i ==> (#[trigger] segs[j]).len() == 0,
        decreases bufs@.len() - i,
    {
        if bufs[i].len() > 0 {
            proof {
                lemma_first_nonempty_at(segs, i as int);
            }
            return Some(i);
        }
        i = i + 1;
    }
    proof {
        lemma_all_empty(segs);
    }
    None
}

/// The number of bytes that all of `bufs` hold together.
pub fn total_room_of(bufs: &[Vec<u8>]) -> (n: usize)
    requires
        total_len(vectors(bufs@)) <= usize::MAX,
    ensures
        n == total_len(vectors(bufs@)),
{
    let ghost segs = vectors(bufs@);
    let mut n: usize = 0;
    let mut i: usize = 0;
    proof {
        assert(segs.take(0) =~= Seq::<Seq<u8>>::empty());
    }
    while i < bufs.len()
        invariant
            segs == vectors(bufs@),
            i <= bufs@.len(),
            n == total_len(segs.take(i as int)),
            total_len(segs) <= usize::MAX,
        decreases bufs@.len() - i,
    {
        proof {
            lemma_concat_take_next(segs, i as int);
            lemma_total_len_grows(segs, i as int + 1);
        }
        n = n + bufs[i].len();
        i = i + 1;
    }
    proof {
        assert(segs.take(i as int) =~= segs);
    }
    n
}

/// The place of the first of `bufs` that has any room, if one has.
pub fn first_room_of(bufs: &[Vec<u8>]) -> (r: Option<usize>)
    ensures
        match r {
            Some(k) => {
                &&& k < bufs@.len()
                &&& bufs@[k as int]@ == first_nonempty(vectors(bufs@))
                &&& bufs@[k as int]@.len() > 0
                &&& forall|j: int| 0 <= j < k ==> (#[trigger] bufs@[j])@.len() == 0
            },
            None => first_nonempty(vectors(bufs@)).len() == 0 && total_len(vectors(bufs@)) == 0,
        },
{
    let ghost segs = vectors(bufs@);
    let mut i: usize = 0;
    while i < bufs.len()
        invariant
            segs == vectors(bufs@),
            i <= bufs@.len(),
            forall|j: int| 0 <= j < i ==> (#[trigger] segs[j]).len() == 0,
            forall|j: int| 0 <= j < i ==> (#[trigger] bufs@[j])@.len() == 0,
        decreases bufs@.len() - i,
    {
        if bufs[i].len() > 0 {
            proof {
                lemma_first_nonempty_at(segs, i as int);
            }
            return Some(i);
        }
        proof {
            assert(segs[i as int] == bufs@[i as int]@);
        }
        i = i + 1;
    }
    proof {
        lemma_all_empty(segs);
    }
    None
}

/// Two lists of segments have the same number of segments, each of the same
/// length.
pub open spec fn same_shape(a: Seq<Seq<u8>>, b: Seq<Seq<u8>>) -> bool {
    &&& a.len() == b.len()
    &&& forall|i: int| 0 <= i < a.len() ==> (#[trigger] a[i]).len() == b[i].len()
}

/// Segments of the same shape hold the same number of bytes.
pub proof fn lemma_same_shape_same_total(a: Seq<Seq<u8>>, b: Seq<Seq<u8>>)
    requires
        same_shape(a, b),
    ensures
        total_len(a) == total_len(b),
    decreases a.len(),
{
    if a.len() > 0 {
        assert forall|i: int| 0 <= i < a.drop_last().len() implies (
        #[trigger] a.drop_last()[i]).len() == b.drop_last()[i].len() by {
            assert(a.drop_last()[i] == a[i]);
            assert(b.drop_last()[i] == b[i]);
        }
        lemma_same_shape_same_total(a.drop_last(), b.drop_last());
        assert(a.last() == a[a.len() - 1]);
        assert(b.last() == b[b.len() - 1]);
    }
}

/// When the segments before the `k`-th hold nothing, the segments read end
/// to end begin with the `k`-th.
pub proof fn lemma_concat_begins_with(segs: Seq<Seq<u8>>, k: int, n: int)
    requires
        0 <= k < segs.len(),
        0 <= n <= segs[k].len(),
        concat(segs.take(k)).len() == 0,
    ensures
        concat(segs).take(n) == segs[k].take(n),
        n <= concat(segs).len(),
{
    lemma_concat_take_next(segs, k);
    assert(segs =~= segs.take(k + 1) + segs.skip(k + 1));
    lemma_concat_split(segs.take(k + 1), segs.skip(k + 1));
    assert(concat(segs.take(k + 1)) =~= segs[k]);
    assert(concat(segs).take(n) =~= segs[k].take(n));
}

/// The number of leading segments that fit wholly, one after another, into
/// `room` bytes: counting stops at the first segment that does not fit.
pub open spec fn whole_fit(segs: Seq<Seq<u8>>, room: nat) -> nat
    decreases segs.len(),
{
    if segs.len() == 0 || segs[0].len() > room {
        0
    } else {
        1 + whole_fit(segs.skip(1), (room - segs[0].len()) as nat)
    }
}

/// Counting the segments that fit may be taken up again after any number of
/// them that did fit.
pub proof fn lemma_whole_fit_resumes(segs: Seq<Seq<u8>>, room: nat, i: int)
    requires
        0 <= i <= segs.len(),
        total_len(segs.take(i)) <= room,
    ensures
        whole_fit(segs, room) == i + whole_fit(
            segs.skip(i),
            (room - total_len(segs.take(i))) as nat,
        ),
        whole_fit(segs, room) <= segs.len(),
    decreases i,
{
    if i == 0 {
        assert(segs.take(0) =~= Seq::<Seq<u8>>::empty());
        assert(segs.skip(0) =~= segs);
        lemma_whole_fit_bounded(segs, room);
    } else {
        lemma_concat_take_next(segs, i - 1);
        lemma_whole_fit_resumes(segs, room, i - 1);
        let rest = segs.skip(i - 1);
        let left = (room - total_len(segs.take(i - 1))) as nat;
        assert(rest[0] == segs[i - 1]);
        assert(rest.skip(1) =~= segs.skip(i));
    }
}

/// No more segments fit than there are.
pub proof fn lemma_whole_fit_bounded(segs: Seq<Seq<u8>>, room: nat)
    ensures
        whole_fit(segs, room) <= segs.len(),
    decreases segs.len(),
{
    if segs.len() == 0 || segs[0].len() > room {
    } else {
        lemma_whole_fit_bounded(segs.skip(1), (room - segs[0].len()) as nat);
    }
}

/// The number of leading segments that belong to complete lines: all up to
/// and including the last segment that holds `mark`, and none if no segment
/// holds it.
pub open spec fn marked_end(segs: Seq<Seq<u8>>, mark: u8) -> int
    decreases segs.len(),
{
    if segs.len() == 0 {
        0
    } else if segs.last().contains(mark) {
        segs.len() as int
    } else {
        marked_end(segs.drop_last(), mark)
    }
}

/// Where the last segment that holds `mark` is found, the marked segments
/// end; and where none is found, there are none.
pub proof fn lemma_marked_end_at(segs: Seq<Seq<u8>>, mark: u8, end: int)
    requires
        0 <= end <= segs.len(),
        end > 0 ==> segs[end - 1].contains(mark),
        forall|j: int| end <= j < segs.len() ==> !(#[trigger] segs[j]).contains(mark),
    ensures
        marked_end(segs, mark) == end,
    decreases segs.len(),
{
    if segs.len() == 0 {
    } else if end == segs.len() {
        assert(segs.last() == segs[end - 1]);
    } else {
        assert(segs.last() == segs[segs.len() - 1]);
        assert forall|j: int| end <= j < segs.drop_last().len() implies !(
        #[trigger] segs.drop_last()[j]).contains(mark) by {
            assert(segs.drop_last()[j] == segs[j]);
        }
        if end > 0 {
            assert(segs.drop_last()[end - 1] == segs[end - 1]);
        }
        lemma_marked_end_at(segs.drop_last(), mark, end);
    }
}

/// The number of leading segments of `bufs` up to and including the last
/// one that holds `mark`.
pub fn marked_end_of(bufs: &[&[u8]], mark: u8) -> (end: usize)
    ensures
        end == marked_end(slices(bufs@), mark),
        end <= bufs@.len(),
{
    let ghost segs = slices(bufs@);
    let mut i: usize = bufs.len();
    while i > 0
        invariant
            segs == slices(bufs@),
            i <= bufs@.len(),
            forall|j: int| i <= j < segs.len() ==> !(#[trigger] segs[j]).contains(mark),
        decreases i,
    {
        match memchr::memchr(mark, bufs[i - 1]) {
            Some(at) => {
                proof {
                    assert(segs[i - 1] == bufs@[i - 1]@);
                    assert(segs[i - 1][at as int] == mark);
                    lemma_marked_end_at(segs, mark, i as int);
                }
                return i;
            },
            None => {
                proof {
                    assert(segs[i - 1] == bufs@[i - 1]@);
                }
            },
        }
        i = i - 1;
    }
    proof {
        lemma_marked_end_at(segs, mark, 0);
    }
    0
}

/// The first segment that holds anything holds no more than all together.
pub proof fn lemma_first_nonempty_bounded(segs: Seq<Seq<u8>>)
    ensures
        first_nonempty(segs).len() <= total_len(segs),
    decreases segs.len(),
{
    if segs.len() > 0 {
        lemma_first_nonempty_bounded(segs.drop_last());
    }
}

} // verus!
