//! What a suffix array is, and how one is built.

use vstd::prelude::*;
use vstd::set_lib::{lemma_int_range, lemma_subset_equality, set_int_range};

use crate::lex::{lemma_lcp_unique, lemma_lex_irreflexive, lemma_lex_trans, lemma_suffixes_differ, less_at, lex_lt, suffix};

verus! {

/// The suffix at `x` sorts strictly before the suffix at `y`.
pub open spec fn suffix_lt(s: Seq<u8>, x: u32, y: u32) -> bool {
    lex_lt(suffix(s, x as int), suffix(s, y as int))
}

/// Every entry of `sa` is a position of `s` or its end.
pub open spec fn in_bounds(s: Seq<u8>, sa: Seq<u32>) -> bool {
    forall|k: int| 0 <= k < sa.len() ==> sa[k] <= s.len()
}

/// The suffixes named by `sa` ascend strictly, any two of them.
pub open spec fn sorted(s: Seq<u8>, sa: Seq<u32>) -> bool {
    forall|a: int, b: int| 0 <= a < b < sa.len() ==> #[trigger] suffix_lt(s, sa[a], sa[b])
}

/// `sa` is the suffix array of `s`: one entry per suffix, the empty one included,
/// each suffix strictly after its predecessor.
pub open spec fn is_suffix_array(s: Seq<u8>, sa: Seq<u32>) -> bool {
    &&& sa.len() == s.len() + 1
    &&& in_bounds(s, sa)
    &&& forall|k: int| 0 < k < sa.len() ==> suffix_lt(s, #[trigger] sa[k - 1], sa[k])
}

proof fn lemma_sorted_from_adjacent(s: Seq<u8>, sa: Seq<u32>, a: int, b: int)
    requires
        in_bounds(s, sa),
        forall|k: int| 0 < k < sa.len() ==> suffix_lt(s, #[trigger] sa[k - 1], sa[k]),
        0 <= a < b < sa.len(),
    ensures
        suffix_lt(s, sa[a], sa[b]),
    decreases b - a,
{
    if a + 1 < b {
        lemma_sorted_from_adjacent(s, sa, a, b - 1);
        assert(suffix_lt(s, sa[b - 1], sa[b]));
        lemma_lex_trans(
            suffix(s, sa[a] as int),
            suffix(s, sa[b - 1] as int),
            suffix(s, sa[b] as int),
        );
    } else {
        assert(sa[b - 1] == sa[a]);
    }
}

/// In a suffix array any earlier suffix sorts before any later one.
pub proof fn lemma_sorted(s: Seq<u8>, sa: Seq<u32>)
    requires
        is_suffix_array(s, sa),
    ensures
        sorted(s, sa),
{
    assert forall|a: int, b: int| 0 <= a < b < sa.len() implies #[trigger] suffix_lt(
        s,
        sa[a],
        sa[b],
    ) by {
        lemma_sorted_from_adjacent(s, sa, a, b);
    }
}

/// Some entry of `sa` is `p`.
pub open spec fn holds_position(sa: Seq<u32>, p: int) -> bool {
    exists|k: int| 0 <= k < sa.len() && sa[k] == p
}

/// A suffix array holds every position of `s`, and its end, exactly once.
pub proof fn lemma_permutation(s: Seq<u8>, sa: Seq<u32>)
    requires
        is_suffix_array(s, sa),
    ensures
        forall|a: int, b: int| 0 <= a < b < sa.len() ==> sa[a] != sa[b],
        forall|p: int| 0 <= p <= s.len() ==> #[trigger] holds_position(sa, p),
{
    lemma_sorted(s, sa);
    assert forall|a: int, b: int| 0 <= a < b < sa.len() implies sa[a] != sa[b] by {
        assert(suffix_lt(s, sa[a], sa[b]));
        lemma_lex_irreflexive(suffix(s, sa[a] as int));
    }
    let t = sa.map_values(|x: u32| x as int);
    assert(t.no_duplicates()) by {
        assert forall|a: int, b: int| 0 <= a < t.len() && 0 <= b < t.len() && a != b implies t[a]
            != t[b] by {
            if a < b {
                assert(sa[a] != sa[b]);
            } else {
                assert(sa[b] != sa[a]);
            }
        }
    }
    t.unique_seq_to_set();
    lemma_int_range(0, s.len() as int + 1);
    assert(t.to_set().subset_of(set_int_range(0, s.len() as int + 1))) by {
        assert forall|x: int| t.to_set().contains(x) implies set_int_range(0, s.len() as int + 1).contains(x) by {
            let k = choose|k: int| 0 <= k < t.len() && t[k] == x;
            assert(sa[k] <= s.len());
        }
    }
    lemma_subset_equality(t.to_set(), set_int_range(0, s.len() as int + 1));
    assert forall|p: int| 0 <= p <= s.len() implies #[trigger] holds_position(sa, p) by {
        assert(set_int_range(0, s.len() as int + 1).contains(p));
        assert(t.to_set().contains(p));
        let k = choose|k: int| 0 <= k < t.len() && t[k] == p;
        assert(sa[k] == p);
    }
}

proof fn lemma_rank_at_least(t: Seq<int>, k: int)
    requires
        0 <= k < t.len(),
        forall|j: int| 0 <= j < t.len() ==> 0 <= #[trigger] t[j],
        forall|j: int| 0 < j < t.len() ==> #[trigger] t[j - 1] < t[j],
    ensures
        t[k] >= k,
    decreases k,
{
    if k > 0 {
        lemma_rank_at_least(t, k - 1);
        assert(t[k - 1] < t[k]);
    }
}

proof fn lemma_rank_at_most(t: Seq<int>, k: int)
    requires
        0 <= k < t.len(),
        forall|j: int| 0 <= j < t.len() ==> #[trigger] t[j] < t.len(),
        forall|j: int| 0 < j < t.len() ==> #[trigger] t[j - 1] < t[j],
    ensures
        t[k] <= k,
    decreases t.len() - k,
{
    if k + 1 < t.len() {
        lemma_rank_at_most(t, k + 1);
        assert(t[k + 1 - 1] < t[k + 1]);
    }
}

/// Where a ranking of the positions of `s` orders their suffixes, the suffix
/// array lists the positions by that ranking.
proof fn lemma_ranked(s: Seq<u8>, sa: Seq<u32>, rank: spec_fn(int) -> int)
    requires
        is_suffix_array(s, sa),
        forall|x: int| 0 <= x <= s.len() ==> 0 <= #[trigger] rank(x) <= s.len(),
        forall|x: int, y: int|
            0 <= x <= s.len() && 0 <= y <= s.len() && #[trigger] rank(x) < #[trigger] rank(y)
                ==> lex_lt(suffix(s, x), suffix(s, y)),
        forall|x: int, y: int|
            0 <= x <= s.len() && 0 <= y <= s.len() && #[trigger] rank(x) == #[trigger] rank(y)
                ==> x == y,
    ensures
        forall|k: int| 0 <= k < sa.len() ==> #[trigger] rank(sa[k] as int) == k,
{
    let t = Seq::new(sa.len(), |k: int| rank(sa[k] as int));
    assert forall|j: int| 0 < j < t.len() implies #[trigger] t[j - 1] < t[j] by {
        let x = sa[j - 1] as int;
        let y = sa[j] as int;
        assert(suffix_lt(s, sa[j - 1], sa[j]));
        if rank(y) < rank(x) {
            lemma_lex_trans(suffix(s, x), suffix(s, y), suffix(s, x));
            lemma_lex_irreflexive(suffix(s, x));
        } else if rank(y) == rank(x) {
            lemma_lex_irreflexive(suffix(s, x));
        }
    }
    assert forall|k: int| 0 <= k < sa.len() implies #[trigger] rank(sa[k] as int) == k by {
        assert(t[k] == rank(sa[k] as int));
        assert forall|j: int| 0 <= j < t.len() implies 0 <= #[trigger] t[j] && t[j] < t.len() by {
            assert(t[j] == rank(sa[j] as int));
        }
        lemma_rank_at_least(t, k);
        lemma_rank_at_most(t, k);
    }
}

/// Of a string of one repeated byte, the suffix array lists the positions from
/// the end down to 0: each suffix is a prefix of the longer ones.
pub proof fn lemma_constant_string(s: Seq<u8>, sa: Seq<u32>)
    requires
        is_suffix_array(s, sa),
        forall|i: int| 0 <= i < s.len() ==> #[trigger] s[i] == s[0],
    ensures
        forall|k: int| 0 <= k < sa.len() ==> #[trigger] sa[k] == s.len() - k,
{
    let n = s.len() as int;
    let rank = |x: int| n - x;
    assert forall|x: int, y: int|
        0 <= x <= n && 0 <= y <= n && #[trigger] rank(x) < #[trigger] rank(y) implies lex_lt(
        suffix(s, x),
        suffix(s, y),
    ) by {
        assert forall|j: int| 0 <= j < n - x implies suffix(s, x)[j] == suffix(s, y)[j] by {
            assert(s[x + j] == s[0] && s[y + j] == s[0]);
        }
        lemma_lcp_unique(suffix(s, x), suffix(s, y), (n - x) as nat);
    }
    lemma_ranked(s, sa, rank);
    assert forall|k: int| 0 <= k < sa.len() implies #[trigger] sa[k] == s.len() - k by {
        assert(rank(sa[k] as int) == k);
    }
}

proof fn lemma_monotone_bytes(s: Seq<u8>, up: bool, p: int, q: int)
    requires
        0 <= p < q < s.len(),
        up ==> forall|i: int| 0 < i < s.len() ==> #[trigger] s[i - 1] < s[i],
        !up ==> forall|i: int| 0 < i < s.len() ==> #[trigger] s[i - 1] > s[i],
    ensures
        up ==> s[p] < s[q],
        !up ==> s[p] > s[q],
    decreases q - p,
{
    if p + 1 < q {
        lemma_monotone_bytes(s, up, p, q - 1);
    }
    let i = q;
    if up {
        assert(s[i - 1] < s[i]);
    } else {
        assert(s[i - 1] > s[i]);
    }
}

/// Of a string of strictly decreasing bytes, the suffix array lists the positions
/// from the end down to 0.
pub proof fn lemma_decreasing_string(s: Seq<u8>, sa: Seq<u32>)
    requires
        is_suffix_array(s, sa),
        forall|i: int| 0 < i < s.len() ==> #[trigger] s[i - 1] > s[i],
    ensures
        forall|k: int| 0 <= k < sa.len() ==> #[trigger] sa[k] == s.len() - k,
{
    let n = s.len() as int;
    let rank = |x: int| n - x;
    assert forall|x: int, y: int|
        0 <= x <= n && 0 <= y <= n && #[trigger] rank(x) < #[trigger] rank(y) implies lex_lt(
        suffix(s, x),
        suffix(s, y),
    ) by {
        if x < n {
            lemma_monotone_bytes(s, false, y, x);
            assert(suffix(s, x)[0] == s[x] && suffix(s, y)[0] == s[y]);
        }
        lemma_lcp_unique(suffix(s, x), suffix(s, y), 0);
    }
    lemma_ranked(s, sa, rank);
    assert forall|k: int| 0 <= k < sa.len() implies #[trigger] sa[k] == s.len() - k by {
        assert(rank(sa[k] as int) == k);
    }
}

/// Of a string of strictly increasing bytes, the suffix array starts with the end
/// of the string and then lists the positions in order: `[n, 0, 1, ..., n - 1]`.
pub proof fn lemma_increasing_string(s: Seq<u8>, sa: Seq<u32>)
    requires
        is_suffix_array(s, sa),
        forall|i: int| 0 < i < s.len() ==> #[trigger] s[i - 1] < s[i],
    ensures
        sa[0] == s.len(),
        forall|k: int| 0 < k < sa.len() ==> #[trigger] sa[k] == k - 1,
{
    let n = s.len() as int;
    let rank = |x: int|
        if x == n {
            0
        } else {
            x + 1
        };
    assert forall|x: int, y: int|
        0 <= x <= n && 0 <= y <= n && #[trigger] rank(x) < #[trigger] rank(y) implies lex_lt(
        suffix(s, x),
        suffix(s, y),
    ) by {
        if x < n {
            lemma_monotone_bytes(s, true, x, y);
            assert(suffix(s, x)[0] == s[x] && suffix(s, y)[0] == s[y]);
        }
        lemma_lcp_unique(suffix(s, x), suffix(s, y), 0);
    }
    lemma_ranked(s, sa, rank);
    assert(rank(sa[0] as int) == 0);
    assert forall|k: int| 0 < k < sa.len() implies #[trigger] sa[k] == k - 1 by {
        assert(rank(sa[k] as int) == k);
    }
}

/// Builds the suffix array of `s` into `sa` by inserting each suffix, from the shortest to
/// the longest, at the place that a binary search over the sorted ones finds.
/// The contents of `sa` are dropped first; its storage is kept.
pub fn build_into(s: &[u8], sa: &mut Vec<u32>)
    requires
        s.len() <= u32::MAX,
    ensures
        is_suffix_array(s@, final(sa)@),
        sorted(s@, final(sa)@),
{
    let n = s.len();
    sa.clear();
    sa.push(n as u32);
    let mut i: usize = n;
    while i > 0
        invariant
            n == s.len(),
            n <= u32::MAX,
            i <= n,
            sa.len() == n - i + 1,
            forall|k: int| 0 <= k < sa.len() ==> i <= #[trigger] sa[k] <= n,
            sorted(s@, sa@),
        decreases i,
    {
        i = i - 1;
        let x = i as u32;
        let mut lo: usize = 0;
        let mut hi: usize = sa.len();
        while lo < hi
            invariant
                i == x,
                i < n,
                n == s.len(),
                lo <= hi <= sa.len(),
                forall|k: int| 0 <= k < sa.len() ==> i < #[trigger] sa[k] <= n,
                sorted(s@, sa@),
                forall|k: int| 0 <= k < lo ==> !#[trigger] suffix_lt(s@, x, sa[k]),
                forall|k: int| hi <= k < sa.len() ==> #[trigger] suffix_lt(s@, x, sa[k]),
            decreases hi - lo,
        {
            let mid = lo + (hi - lo) / 2;
            if less_at(s, i, s, sa[mid] as usize) {
                assert forall|k: int| mid <= k < sa.len() implies #[trigger] suffix_lt(
                    s@,
                    x,
                    sa[k],
                ) by {
                    if k > mid {
                        assert(suffix_lt(s@, sa[mid as int], sa[k]));
                        lemma_lex_trans(
                            suffix(s@, x as int),
                            suffix(s@, sa[mid as int] as int),
                            suffix(s@, sa[k] as int),
                        );
                    }
                }
                hi = mid;
            } else {
                assert forall|k: int| 0 <= k < mid + 1 implies !#[trigger] suffix_lt(
                    s@,
                    x,
                    sa[k],
                ) by {
                    if k < mid && suffix_lt(s@, x, sa[k]) {
                        assert(suffix_lt(s@, sa[k], sa[mid as int]));
                        lemma_lex_trans(
                            suffix(s@, x as int),
                            suffix(s@, sa[k] as int),
                            suffix(s@, sa[mid as int] as int),
                        );
                    }
                }
                lo = mid + 1;
            }
        }
        assert forall|k: int| 0 <= k < lo implies #[trigger] suffix_lt(s@, sa[k], x) by {
            assert(!suffix_lt(s@, x, sa[k]));
            lemma_suffixes_differ(s@, sa[k] as int, x as int);
        }
        let ghost old_sa = sa@;
        sa.insert(lo, x);
        proof {
            assert forall|a: int, b: int| 0 <= a < b < sa.len() implies #[trigger] suffix_lt(
                s@,
                sa[a],
                sa[b],
            ) by {
                if b < lo {
                    assert(suffix_lt(s@, old_sa[a], old_sa[b]));
                } else if b == lo {
                    assert(suffix_lt(s@, old_sa[a], x));
                } else if a < lo {
                    assert(suffix_lt(s@, old_sa[a], old_sa[b - 1]));
                } else if a == lo {
                    assert(suffix_lt(s@, x, old_sa[b - 1]));
                } else {
                    assert(suffix_lt(s@, old_sa[a - 1], old_sa[b - 1]));
                }
            }
        }
    }
    assert forall|k: int| 0 < k < sa.len() implies suffix_lt(s@, #[trigger] sa[k - 1], sa[k]) by {
        assert(suffix_lt(s@, sa[k - 1], sa[k]));
    }
}

/// Builds the suffix array of `s` in a new vector.
pub fn build(s: &[u8]) -> (sa: Vec<u32>)
    requires
        s.len() <= u32::MAX,
    ensures
        is_suffix_array(s@, sa@),
        sorted(s@, sa@),
{
    let mut sa: Vec<u32> = Vec::new();
    build_into(s, &mut sa);
    sa
}

} // verus!
