//! Contiguous-window search in sequences of tile-memory indices.

use vstd::prelude::*;

verus! {

/// `needle` occurs in `hay` as a contiguous window that starts at `p`.
pub open spec fn window_at(hay: Seq<u64>, needle: Seq<u64>, p: int) -> bool {
    &&& 0 <= p
    &&& p + needle.len() <= hay.len()
    &&& hay.subrange(p, p + needle.len()) == needle
}

/// `needle` occurs somewhere in `hay` as a contiguous window.
pub open spec fn has_window(hay: Seq<u64>, needle: Seq<u64>) -> bool {
    exists|p: int| window_at(hay, needle, p)
}

/// The least offset at or after `from` at which `needle` occurs in `hay`.
/// (At `from == hay.len()` only the empty sequence fits, and it occurs there.)
pub open spec fn first_window_from(hay: Seq<u64>, needle: Seq<u64>, from: int) -> Option<int>
    decreases hay.len() - from,
{
    if from < 0 || from + needle.len() > hay.len() {
        None
    } else if from >= hay.len() || window_at(hay, needle, from) {
        Some(from)
    } else {
        first_window_from(hay, needle, from + 1)
    }
}

/// The least offset at which `needle` occurs in `hay`.
pub open spec fn first_window(hay: Seq<u64>, needle: Seq<u64>) -> Option<int> {
    first_window_from(hay, needle, 0)
}

/// `first_window_from` returns the least matching offset not below `from`,
/// and `None` exactly when no offset from `from` on matches.
pub proof fn lemma_first_window_from(hay: Seq<u64>, needle: Seq<u64>, from: int)
    requires
        0 <= from,
    ensures
        match first_window_from(hay, needle, from) {
            Some(p) => from <= p && window_at(hay, needle, p) && forall|q: int|
                from <= q < p ==> !window_at(hay, needle, q),
            None => forall|q: int| from <= q ==> !window_at(hay, needle, q),
        },
    decreases hay.len() - from,
{
    if from + needle.len() > hay.len() {
    } else if from >= hay.len() {
        assert(needle.len() == 0);
        assert(hay.subrange(from, from + needle.len()) =~= needle);
    } else if window_at(hay, needle, from) {
    } else {
        lemma_first_window_from(hay, needle, from + 1);
    }
}

/// `first_window` is the least offset of an occurrence, and is `Some`
/// exactly when there is an occurrence.
pub proof fn lemma_first_window(hay: Seq<u64>, needle: Seq<u64>)
    ensures
        first_window(hay, needle).is_some() <==> has_window(hay, needle),
        match first_window(hay, needle) {
            Some(p) => window_at(hay, needle, p) && forall|q: int|
                q < p ==> !window_at(hay, needle, q),
            None => forall|q: int| !window_at(hay, needle, q),
        },
{
    lemma_first_window_from(hay, needle, 0);
}

/// A sequence occurs in itself at offset 0, and that is its first window.
pub proof fn lemma_first_window_self(s: Seq<u64>)
    ensures
        first_window(s, s) == Some(0int),
{
    assert(s.subrange(0, s.len() as int) =~= s);
}

/// A prefix of a sequence occurs in it at offset 0.
pub proof fn lemma_first_window_prefix(hay: Seq<u64>, n: int)
    requires
        0 <= n <= hay.len(),
    ensures
        first_window(hay, hay.subrange(0, n)) == Some(0int),
{
    assert(hay.subrange(0, n).len() == n);
}

/// Whether `needle` occurs in `hay` at offset `p`.
pub fn matches_at(hay: &Vec<u64>, needle: &Vec<u64>, p: usize) -> (r: bool)
    requires
        p + needle.len() <= hay.len(),
    ensures
        r == window_at(hay@, needle@, p as int),
{
    let n: usize = needle.len();
    let mut k: usize = 0;
    while k < n
        invariant
            n == needle.len(),
            p + n <= hay.len(),
            k <= n,
            forall|j: int| 0 <= j < k ==> hay@[p + j] == needle@[j],
        decreases n - k,
    {
        if hay[p + k] != needle[k] {
            proof {
                let w = hay@.subrange(p as int, p + n);
                assert(w[k as int] == hay@[p + k]);
            }
            return false;
        }
        k += 1;
    }
    assert(hay@.subrange(p as int, p + n) =~= needle@);
    true
}

/// The least offset at which `needle` occurs in `hay` as a contiguous
/// window, if it occurs at all. The empty sequence occurs at offset 0.
pub fn find_window(hay: &Vec<u64>, needle: &Vec<u64>) -> (r: Option<usize>)
    ensures
        match r {
            Some(p) => first_window(hay@, needle@) == Some(p as int),
            None => first_window(hay@, needle@).is_none(),
        },
{
    let n: usize = needle.len();
    if n > hay.len() {
        return None;
    }
    if n == 0 {
        assert(hay@.subrange(0, 0) =~= needle@);
        return Some(0);
    }
    let last: usize = hay.len() - n;
    let mut p: usize = 0;
    while p <= last
        invariant
            n == needle.len(),
            n <= hay.len(),
            last == hay.len() - n,
            p <= last + 1,
            0 < n,
            first_window(hay@, needle@) == first_window_from(hay@, needle@, p as int),
        decreases last + 1 - p,
    {
        if matches_at(hay, needle, p) {
            return Some(p);
        }
        p += 1;
    }
    None
}

} // verus!
