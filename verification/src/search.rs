//! Finding a byte in a run of bytes.

use vstd::prelude::*;

verus! {

/// The byte that ends a line.
pub const NEWLINE: u8 = 0x0a;

/// `i` is the place of the first `needle` in `haystack`.
pub open spec fn is_first(haystack: Seq<u8>, needle: u8, i: int) -> bool {
    &&& 0 <= i < haystack.len()
    &&& haystack[i] == needle
    &&& forall|j: int| 0 <= j < i ==> haystack[j] != needle
}

/// `i` is the place of the last `needle` in `haystack`.
pub open spec fn is_last(haystack: Seq<u8>, needle: u8, i: int) -> bool {
    &&& 0 <= i < haystack.len()
    &&& haystack[i] == needle
    &&& forall|j: int| i < j < haystack.len() ==> haystack[j] != needle
}

/// The number of leading bytes of `buf` that belong to complete lines:
/// everything up to and including the last newline, and nothing if `buf`
/// holds no newline.
pub open spec fn lines_end(buf: Seq<u8>) -> int
    decreases buf.len(),
{
    if buf.len() == 0 {
        0
    } else if buf.last() == NEWLINE {
        buf.len() as int
    } else {
        lines_end(buf.drop_last())
    }
}

/// Whether `buf` ends a line with its last byte.
pub open spec fn ends_line(buf: Seq<u8>) -> bool {
    buf.len() > 0 && buf.last() == NEWLINE
}

/// `lines_end` is where the last newline says it is.
pub proof fn lemma_lines_end(buf: Seq<u8>)
    ensures
        0 <= lines_end(buf) <= buf.len(),
        lines_end(buf) > 0 <==> buf.contains(NEWLINE),
        lines_end(buf) > 0 ==> is_last(buf, NEWLINE, lines_end(buf) - 1),
        !buf.skip(lines_end(buf)).contains(NEWLINE),
    decreases buf.len(),
{
    if buf.len() == 0 {
    } else if buf.last() == NEWLINE {
        assert(buf[buf.len() - 1] == NEWLINE);
        assert(buf.skip(buf.len() as int) =~= Seq::<u8>::empty());
    } else {
        let front = buf.drop_last();
        lemma_lines_end(front);
        let e = lines_end(front);
        if front.contains(NEWLINE) {
            let j = choose|j: int| 0 <= j < front.len() && front[j] == NEWLINE;
            assert(buf[j] == NEWLINE);
        }
        if buf.contains(NEWLINE) {
            let j = choose|j: int| 0 <= j < buf.len() && buf[j] == NEWLINE;
            assert(front[j] == NEWLINE);
        }
        if e > 0 {
            assert(front[e - 1] == buf[e - 1]);
            assert forall|j: int| e - 1 < j < buf.len() implies buf[j] != NEWLINE by {
                if j < front.len() {
                    assert(front[j] == buf[j]);
                }
            }
        }
        if buf.skip(e).contains(NEWLINE) {
            let j = choose|j: int| 0 <= j < buf.skip(e).len() && buf.skip(e)[j] == NEWLINE;
            if j + e < front.len() {
                assert(front.skip(e)[j] == NEWLINE);
            }
        }
    }
}

/// Wherever the last newline is found, that is where the complete lines
/// end; and where none is found, there are none.
pub proof fn lemma_lines_end_at(buf: Seq<u8>, found: Option<usize>)
    requires
        match found {
            Some(i) => is_last(buf, NEWLINE, i as int),
            None => forall|j: int| 0 <= j < buf.len() ==> buf[j] != NEWLINE,
        },
    ensures
        lines_end(buf) == match found {
            Some(i) => i + 1,
            None => 0,
        },
        found is None <==> !buf.contains(NEWLINE),
{
    lemma_lines_end(buf);
    match found {
        Some(i) => {
            assert(buf.contains(NEWLINE));
            let e = lines_end(buf);
            if e - 1 < i {
            } else if e - 1 > i {
            }
        },
        None => {
            if buf.contains(NEWLINE) {
                let j = choose|j: int| 0 <= j < buf.len() && buf[j] == NEWLINE;
            }
        },
    }
}

/// The first place of `needle` in `haystack`, as `memchr::memchr` finds it:
/// an index inside the haystack that holds the needle and has no needle
/// before it, or `None` if the haystack holds no needle at all.
pub assume_specification[ memchr::memchr ](needle: u8, haystack: &[u8]) -> (r: Option<usize>)
    ensures
        match r {
            Some(i) => is_first(haystack@, needle, i as int),
            None => forall|j: int| 0 <= j < haystack@.len() ==> haystack@[j] != needle,
        },
;

/// The last place of `needle` in `haystack`, as `memchr::memrchr` finds it:
/// an index inside the haystack that holds the needle and has no needle
/// after it, or `None` if the haystack holds no needle at all.
pub assume_specification[ memchr::memrchr ](needle: u8, haystack: &[u8]) -> (r: Option<usize>)
    ensures
        match r {
            Some(i) => is_last(haystack@, needle, i as int),
            None => forall|j: int| 0 <= j < haystack@.len() ==> haystack@[j] != needle,
        },
;

} // verus!
