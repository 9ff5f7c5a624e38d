//! Binary searches over a suffix array, and what they find.

use vstd::prelude::*;

use crate::construct::{is_suffix_array, sorted, suffix_lt};
use crate::lex::{
    is_prefix, lcp, lemma_lcp_facts, lemma_lcp_symmetric,
    lemma_lex_total, lemma_lex_trans, lemma_prefix_iff_lcp, less_at, lex_lt, prefix_at, suffix,
};

verus! {

/// The suffix named by entry `k` of `sa` sorts strictly before `pat`.
pub open spec fn below(s: Seq<u8>, sa: Seq<u32>, pat: Seq<u8>, k: int) -> bool {
    lex_lt(suffix(s, sa[k] as int), pat)
}

/// `pat` is a prefix of the suffix named by entry `k` of `sa`.
pub open spec fn starts_at(s: Seq<u8>, sa: Seq<u32>, pat: Seq<u8>, k: int) -> bool {
    is_prefix(pat, suffix(s, sa[k] as int))
}

/// `i` is the number of suffixes that sort before `pat`: the place where `pat`
/// would be inserted.
pub open spec fn is_lower_bound(s: Seq<u8>, sa: Seq<u32>, pat: Seq<u8>, i: int) -> bool {
    &&& 0 <= i <= sa.len()
    &&& forall|k: int| 0 <= k < i ==> #[trigger] below(s, sa, pat, k)
    &&& forall|k: int| i <= k < sa.len() ==> !#[trigger] below(s, sa, pat, k)
}

/// `[lo, hi)` is the range of entries of `sa` whose suffixes start with `pat`,
/// placed at the insertion point of `pat` when there are none.
pub open spec fn is_region(s: Seq<u8>, sa: Seq<u32>, pat: Seq<u8>, lo: int, hi: int) -> bool {
    &&& is_lower_bound(s, sa, pat, lo)
    &&& lo <= hi <= sa.len()
    &&& forall|k: int| 0 <= k < sa.len() ==> ((lo <= k < hi) <==> #[trigger] starts_at(s, sa, pat, k))
}

/// `pat` occurs in `s` at position `p`.
pub open spec fn occurs_at(s: Seq<u8>, pat: Seq<u8>, p: int) -> bool {
    0 <= p <= s.len() && is_prefix(pat, suffix(s, p))
}

/// `[lo, hi)` leaves out no suffix that starts with `pat`: those before it sort
/// before `pat`, those after it sort after it.
pub open spec fn encloses(s: Seq<u8>, sa: Seq<u32>, pat: Seq<u8>, lo: int, hi: int) -> bool {
    &&& 0 <= lo <= hi <= sa.len()
    &&& forall|k: int| 0 <= k < lo ==> #[trigger] below(s, sa, pat, k)
    &&& forall|k: int| hi <= k < sa.len() ==> !#[trigger] below(s, sa, pat, k) && !starts_at(
        s,
        sa,
        pat,
        k,
    )
}

/// A suffix that starts with `pat` does not sort before it.
pub proof fn lemma_prefix_not_below(pat: Seq<u8>, u: Seq<u8>)
    ensures
        is_prefix(pat, u) ==> !lex_lt(u, pat),
{
    lemma_prefix_iff_lcp(pat, u);
    lemma_lcp_symmetric(pat, u);
}

/// Past the suffixes that start with `pat`, no later one starts with it.
proof fn lemma_prefix_mono(pat: Seq<u8>, u: Seq<u8>, v: Seq<u8>)
    requires
        !lex_lt(u, pat),
        !is_prefix(pat, u),
        lex_lt(u, v),
    ensures
        !is_prefix(pat, v),
{
    lemma_prefix_iff_lcp(pat, u);
    lemma_prefix_iff_lcp(pat, v);
    lemma_lcp_symmetric(pat, u);
    lemma_lcp_facts(pat, u);
    lemma_lcp_facts(u, v);
    lemma_lcp_facts(pat, v);
    let l = lcp(pat, u);
    let m = lcp(u, v);
    if lcp(pat, v) == pat.len() {
        if m > l {
            assert(v[l as int] == u[l as int]);
            assert(v[l as int] == pat[l as int]);
        } else {
            assert(v[m as int] == pat[m as int]);
            if m < l {
                assert(u[m as int] == pat[m as int]);
            }
        }
    }
}

/// Binary search, inside `[lo, hi)`, for the insertion point of `pat`.
pub fn lower_bound(s: &[u8], sa: &[u32], pat: &[u8], lo: usize, hi: usize) -> (r: usize)
    requires
        is_suffix_array(s@, sa@),
        sorted(s@, sa@),
        encloses(s@, sa@, pat@, lo as int, hi as int),
    ensures
        is_lower_bound(s@, sa@, pat@, r as int),
        lo <= r <= hi,
{
    let mut a: usize = lo;
    let mut b: usize = hi;
    while a < b
        invariant
            is_suffix_array(s@, sa@),
            sorted(s@, sa@),
            encloses(s@, sa@, pat@, lo as int, hi as int),
            lo <= a <= b <= hi,
            forall|k: int| 0 <= k < a ==> #[trigger] below(s@, sa@, pat@, k),
            forall|k: int| b <= k < sa.len() ==> !#[trigger] below(s@, sa@, pat@, k),
        decreases b - a,
    {
        let mid = a + (b - a) / 2;
        let lt = less_at(s, sa[mid] as usize, pat, 0);
        proof {
            assert(suffix(pat@, 0) =~= pat@);
        }
        if lt {
            assert forall|k: int| 0 <= k < mid + 1 implies #[trigger] below(s@, sa@, pat@, k) by {
                if k < mid {
                    assert(suffix_lt(s@, sa[k], sa[mid as int]));
                    lemma_lex_trans(
                        suffix(s@, sa[k] as int),
                        suffix(s@, sa[mid as int] as int),
                        pat@,
                    );
                }
            }
            a = mid + 1;
        } else {
            assert forall|k: int| mid <= k < sa.len() implies !#[trigger] below(s@, sa@, pat@, k) by {
                if k > mid && below(s@, sa@, pat@, k) {
                    assert(suffix_lt(s@, sa[mid as int], sa[k]));
                    lemma_lex_trans(
                        suffix(s@, sa[mid as int] as int),
                        suffix(s@, sa[k] as int),
                        pat@,
                    );
                }
            }
            b = mid;
        }
    }
    a
}

/// Binary search, from the insertion point of `pat` up to `hi`, for the end of
/// the suffixes that start with `pat`.
pub fn region_end(s: &[u8], sa: &[u32], pat: &[u8], start: usize, hi: usize) -> (r: usize)
    requires
        is_suffix_array(s@, sa@),
        sorted(s@, sa@),
        encloses(s@, sa@, pat@, 0, hi as int),
        is_lower_bound(s@, sa@, pat@, start as int),
        start <= hi,
    ensures
        is_region(s@, sa@, pat@, start as int, r as int),
{
    let mut a: usize = start;
    let mut b: usize = hi;
    assert forall|k: int| hi <= k < sa.len() implies !#[trigger] starts_at(s@, sa@, pat@, k) by {
        assert(!below(s@, sa@, pat@, k));
    }
    while a < b
        invariant
            is_suffix_array(s@, sa@),
            sorted(s@, sa@),
            encloses(s@, sa@, pat@, 0, hi as int),
            is_lower_bound(s@, sa@, pat@, start as int),
            start <= a <= b <= hi,
            forall|k: int| start <= k < a ==> #[trigger] starts_at(s@, sa@, pat@, k),
            forall|k: int| b <= k < sa.len() ==> !#[trigger] starts_at(s@, sa@, pat@, k),
        decreases b - a,
    {
        let mid = a + (b - a) / 2;
        if prefix_at(pat, s, sa[mid] as usize) {
            assert forall|k: int| start <= k < mid + 1 implies #[trigger] starts_at(
                s@,
                sa@,
                pat@,
                k,
            ) by {
                if k < mid && !starts_at(s@, sa@, pat@, k) {
                    assert(!below(s@, sa@, pat@, k));
                    assert(suffix_lt(s@, sa[k], sa[mid as int]));
                    lemma_prefix_mono(
                        pat@,
                        suffix(s@, sa[k] as int),
                        suffix(s@, sa[mid as int] as int),
                    );
                }
            }
            a = mid + 1;
        } else {
            assert forall|k: int| mid <= k < sa.len() implies !#[trigger] starts_at(
                s@,
                sa@,
                pat@,
                k,
            ) by {
                if k > mid {
                    assert(!below(s@, sa@, pat@, mid as int));
                    assert(suffix_lt(s@, sa[mid as int], sa[k]));
                    lemma_prefix_mono(
                        pat@,
                        suffix(s@, sa[mid as int] as int),
                        suffix(s@, sa[k] as int),
                    );
                }
            }
            b = mid;
        }
    }
    assert forall|k: int| 0 <= k < sa.len() implies ((start <= k < a) <==> #[trigger] starts_at(
        s@,
        sa@,
        pat@,
        k,
    )) by {
        if k < start {
            assert(below(s@, sa@, pat@, k));
            lemma_prefix_not_below(pat@, suffix(s@, sa[k] as int));
        }
    }
    a
}

/// Common prefix length of `pat` and the suffix named by entry `k` of `sa`.
pub open spec fn lcp_entry(s: Seq<u8>, sa: Seq<u32>, pat: Seq<u8>, k: int) -> nat {
    lcp(pat, suffix(s, sa[k] as int))
}

/// The suffix that shares the longest prefix with `pat` sits next to the
/// insertion point of `pat`: no entry shares more than both neighbours do.
pub proof fn lemma_neighbours_best(s: Seq<u8>, sa: Seq<u32>, pat: Seq<u8>, i: int, k: int)
    requires
        is_suffix_array(s, sa),
        sorted(s, sa),
        is_lower_bound(s, sa, pat, i),
        0 <= k < sa.len(),
    ensures
        k < i ==> lcp_entry(s, sa, pat, k) <= lcp_entry(s, sa, pat, i - 1),
        k >= i ==> lcp_entry(s, sa, pat, k) <= lcp_entry(s, sa, pat, i),
{
    let u = suffix(s, sa[k] as int);
    if k < i - 1 {
        let w = suffix(s, sa[i - 1] as int);
        assert(suffix_lt(s, sa[k], sa[i - 1]));
        assert(below(s, sa, pat, i - 1));
        lemma_lex_trans(u, w, pat);
        lemma_lcp_symmetric(u, pat);
        lemma_lcp_symmetric(w, pat);
    } else if k > i {
        let w = suffix(s, sa[i] as int);
        assert(!below(s, sa, pat, i));
        assert(suffix_lt(s, sa[i], sa[k]));
        if pat == w {
            lemma_lcp_facts(pat, u);
            lemma_lcp_facts(pat, w);
            assert(w.subrange(0, pat.len() as int) =~= pat);
            lemma_prefix_iff_lcp(pat, w);
        } else {
            lemma_lex_total(pat, w);
            lemma_lex_trans(pat, w, u);
        }
    }
}

/// The range `search_lcp` picks once the insertion point `i` of `pat` is known:
/// the neighbour on either side of `i` that shares more with `pat`, the right
/// one on a tie; the empty range at the end of `s` when neither shares a byte.
pub open spec fn lcp_pick(s: Seq<u8>, sa: Seq<u32>, pat: Seq<u8>, i: int) -> (int, int) {
    let r = neighbour_pick(s, sa, pat, i);
    if r.0 == r.1 {
        (s.len() as int, s.len() as int)
    } else {
        r
    }
}

/// The neighbour of the insertion point `i` that shares more with `pat`, as a
/// range of `s`.
pub open spec fn neighbour_pick(s: Seq<u8>, sa: Seq<u32>, pat: Seq<u8>, i: int) -> (int, int) {
    let a = sa[i - 1] as int;
    let b = sa[i] as int;
    let la = lcp(pat, suffix(s, a)) as int;
    let lb = lcp(pat, suffix(s, b)) as int;
    if 0 < i < sa.len() {
        if la > lb {
            (a, a + la)
        } else {
            (b, b + lb)
        }
    } else if i == 0 {
        (b, b + lb)
    } else {
        (a, a + la)
    }
}

/// A query has one answer: the insertion point and the region of a pattern are
/// the same whichever search found them, with or without the bucket table.
pub proof fn lemma_region_unique(
    s: Seq<u8>,
    sa: Seq<u32>,
    pat: Seq<u8>,
    lo1: int,
    hi1: int,
    lo2: int,
    hi2: int,
)
    requires
        is_lower_bound(s, sa, pat, lo1),
        is_lower_bound(s, sa, pat, lo2),
    ensures
        lo1 == lo2,
        is_region(s, sa, pat, lo1, hi1) && is_region(s, sa, pat, lo2, hi2) ==> hi1 == hi2,
{
    if lo1 < lo2 {
        assert(below(s, sa, pat, lo1));
    }
    if lo2 < lo1 {
        assert(below(s, sa, pat, lo2));
    }
    if is_region(s, sa, pat, lo1, hi1) && is_region(s, sa, pat, lo2, hi2) {
        if hi1 < hi2 {
            assert(starts_at(s, sa, pat, hi1));
        }
        if hi2 < hi1 {
            assert(starts_at(s, sa, pat, hi2));
        }
    }
}

} // verus!
