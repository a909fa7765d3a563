//! Moving bytes between slices.

use crate::buffered::segments::{
    concat, lemma_concat_split, lemma_concat_take_next, lemma_same_shape_same_total,
    lemma_total_len_grows, same_shape, total_len, vectors,
};
use crate::buffered::write_buffer::at_most;
use vstd::prelude::*;

verus! {

/// Copies as many leading bytes of `src` as fit into the front of `out`, and
/// returns how many that was. The rest of `out` is left as it is.
pub fn copy_prefix(out: &mut [u8], src: &[u8]) -> (n: usize)
    ensures
        n == at_most(old(out)@.len(), src@.len()),
        final(out)@.len() == old(out)@.len(),
        final(out)@.take(n as int) == src@.take(n as int),
        final(out)@.skip(n as int) == old(out)@.skip(n as int),
{
    let n: usize = if out.len() <= src.len() {
        out.len()
    } else {
        src.len()
    };
    let mut i: usize = 0;
    proof {
        assert(out@.take(0) =~= src@.take(0));
        assert(out@.skip(0) =~= old(out)@.skip(0));
    }
    while i < n
        invariant
            i <= n,
            n <= out@.len(),
            n <= src@.len(),
            out@.len() == old(out)@.len(),
            out@.take(i as int) == src@.take(i as int),
            out@.skip(i as int) == old(out)@.skip(i as int),
        decreases n - i,
    {
        let ghost before = out@;
        out[i] = src[i];
        proof {
            assert(out@.take(i as int + 1) =~= src@.take(i as int + 1)) by {
                assert forall|j: int| 0 <= j < i + 1 implies out@[j] == src@[j] by {
                    if j < i {
                        assert(before.take(i as int)[j] == src@.take(i as int)[j]);
                    }
                }
            }
            assert(out@.skip(i as int + 1) =~= old(out)@.skip(i as int + 1)) by {
                assert forall|j: int| i + 1 <= j < out@.len() implies out@[j] == old(out)@[j] by {
                    assert(before.skip(i as int)[j - i] == old(out)@.skip(i as int)[j - i]);
                }
            }
        }
        i = i + 1;
    }
    n
}

/// Spreads `src` over the segments `bufs` in order, each filled before the
/// next is begun, and returns how many bytes found a place. Read end to end,
/// the segments then begin with those bytes and are otherwise as before.
pub fn scatter(bufs: &mut [Vec<u8>], src: &[u8]) -> (n: usize)
    requires
        total_len(vectors(old(bufs)@)) <= usize::MAX,
    ensures
        same_shape(vectors(old(bufs)@), vectors(final(bufs)@)),
        n == at_most(total_len(vectors(old(bufs)@)), src@.len()),
        concat(vectors(final(bufs)@)).take(n as int) == src@.take(n as int),
        concat(vectors(final(bufs)@)).skip(n as int) == concat(vectors(old(bufs)@)).skip(n as int),
{
    let ghost before = vectors(bufs@);
    let count: usize = bufs.len();
    let mut nread: usize = 0;
    let mut i: usize = 0;
    proof {
        assert(before.take(0) =~= Seq::<Seq<u8>>::empty());
        assert(concat(before.take(0)).take(0) =~= src@.take(0));
    }
    while i < count && nread < src.len()
        invariant
            before == vectors(old(bufs)@),
            count == bufs@.len(),
            count == before.len(),
            i <= count,
            nread <= src@.len(),
            total_len(before) <= usize::MAX,
            same_shape(before, vectors(bufs@)),
            forall|j: int| i <= j < count ==> (#[trigger] bufs@[j]) == old(bufs)@[j],
            nread == at_most(total_len(before.take(i as int)), src@.len()),
            nread < src@.len() ==> nread == total_len(before.take(i as int)),
            concat(vectors(bufs@).take(i as int)).take(nread as int) == src@.take(nread as int),
            nread == total_len(before.take(i as int)) || concat(vectors(bufs@).take(i as int)).skip(
                nread as int,
            ) == concat(before.take(i as int)).skip(nread as int),
        decreases count - i,
    {
        let ghost segs = vectors(bufs@);
        let ghost held = bufs@;
        let ghost done = concat(segs.take(i as int));
        let n: usize = copy_prefix(bufs[i].as_mut_slice(), &src[nread..src.len()]);
        proof {
            let now = vectors(bufs@);
            let rest = src@.subrange(nread as int, src@.len() as int);
            assert(bufs@.len() == held.len());
            assert forall|j: int| 0 <= j < count && j != i implies bufs@[j] == held[j] by {}
            assert(now.take(i as int) =~= segs.take(i as int)) by {
                assert forall|j: int| 0 <= j < i implies now.take(i as int)[j] == segs.take(
                    i as int,
                )[j] by {
                    assert(bufs@[j] == held[j]);
                }
            }
            assert(now[i as int].len() == before[i as int].len());
            assert(same_shape(before, now)) by {
                assert forall|j: int| 0 <= j < before.len() implies (#[trigger] before[j]).len()
                    == now[j].len() by {
                    if j != i {
                        assert(bufs@[j] == held[j]);
                        assert(segs[j] == held[j]@);
                    }
                }
            }
            lemma_concat_take_next(now, i as int);
            lemma_concat_take_next(before, i as int);
            lemma_total_len_grows(before, i as int + 1);
            let seg = now[i as int];
            assert(same_shape(before.take(i as int), segs.take(i as int))) by {
                assert forall|j: int| 0 <= j < i implies (#[trigger] before.take(i as int)[j]).len()
                    == segs.take(i as int)[j].len() by {
                    assert(before[j].len() == segs[j].len());
                }
            }
            lemma_same_shape_same_total(before.take(i as int), segs.take(i as int));
            assert(done.len() == nread);
            assert(done.take(nread as int) =~= done);
            assert(seg.take(n as int) == rest.take(n as int));
            assert((done + seg).take(nread + n) =~= src@.take(nread + n)) by {
                assert forall|j: int| 0 <= j < nread + n implies (done + seg)[j] == src@[j] by {
                    if j < nread {
                        assert(done[j] == src@.take(nread as int)[j]);
                    } else {
                        assert(seg[j - nread] == seg.take(n as int)[j - nread]);
                        assert(rest.take(n as int)[j - nread] == src@[j]);
                    }
                }
            }
            if nread + n < total_len(before.take(i as int + 1)) {
                assert(n < before[i as int].len());
                assert((done + seg).skip(nread + n) =~= concat(before.take(i as int + 1)).skip(
                    nread + n,
                )) by {
                    let whole = concat(before.take(i as int)) + before[i as int];
                    assert(seg.skip(n as int) == held[i as int]@.skip(n as int));
                    assert(held[i as int] == old(bufs)@[i as int]);
                    assert(concat(before.take(i as int)).len() == nread);
                    assert((done + seg).skip(nread + n) =~= seg.skip(n as int));
                    assert(whole.skip(nread + n) =~= before[i as int].skip(n as int));
                }
            }
        }
        nread = nread + n;
        i = i + 1;
    }
    proof {
        let now = vectors(bufs@);
        let k = i as int;
        assert(now.skip(k) =~= before.skip(k)) by {
            assert forall|j: int| 0 <= j < now.len() - k implies now.skip(k)[j] == before.skip(
                k,
            )[j] by {
                assert(bufs@[j + k] == old(bufs)@[j + k]);
            }
        }
        assert(now =~= now.take(k) + now.skip(k));
        assert(before =~= before.take(k) + before.skip(k));
        lemma_concat_split(now.take(k), now.skip(k));
        lemma_concat_split(before.take(k), before.skip(k));
        lemma_total_len_grows(before, k);
        assert(same_shape(before.take(k), now.take(k))) by {
            assert forall|j: int| 0 <= j < k implies (#[trigger] before.take(k)[j]).len()
                == now.take(k)[j].len() by {
                assert(before[j].len() == now[j].len());
            }
        }
        lemma_same_shape_same_total(before.take(k), now.take(k));
        let head_now = concat(now.take(k));
        let head_before = concat(before.take(k));
        let tail = concat(before.skip(k));
        assert(head_now.len() == head_before.len());
        if i < count {
            assert(nread == src@.len());
        } else {
            assert(before.take(k) =~= before);
        }
        assert((head_now + tail).take(nread as int) =~= src@.take(nread as int)) by {
            assert(head_now.take(nread as int) == src@.take(nread as int));
            assert forall|j: int| 0 <= j < nread implies (head_now + tail)[j] == src@[j] by {
                assert(head_now.take(nread as int)[j] == src@.take(nread as int)[j]);
            }
        }
        assert((head_now + tail).skip(nread as int) =~= (head_before + tail).skip(nread as int))
            by {
            if nread == head_before.len() {
            } else {
                assert(head_now.skip(nread as int) == head_before.skip(nread as int));
                assert forall|j: int| 0 <= j < (head_now + tail).len() - nread implies (head_now
                    + tail).skip(nread as int)[j] == (head_before + tail).skip(nread as int)[j] by {
                    if j + nread < head_now.len() {
                        assert(head_now.skip(nread as int)[j] == head_now[j + nread]);
                        assert(head_before.skip(nread as int)[j] == head_before[j + nread]);
                    }
                }
            }
        }
    }
    nread
}

} // verus!
