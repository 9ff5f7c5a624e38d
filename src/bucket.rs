//! The table of buckets by the first two bytes of each suffix.

use vstd::prelude::*;

use crate::construct::{is_suffix_array, sorted, suffix_lt};
use crate::lex::{
    is_prefix, lcp, lemma_lcp_facts, lemma_lcp_unique, lemma_prefix_iff_lcp, lex_lt, suffix,
};

verus! {

/// Number of entries of the bucket table: one bound for each key, and the end.
pub const TABLE_LEN: usize = 65794;

/// The bucket key of a string: 0 for the empty string, then one key for each first
/// byte followed by the end, and one for each pair of first bytes, in the order
/// that the strings sort.
pub open spec fn key_of(u: Seq<u8>) -> int {
    if u.len() == 0 {
        0
    } else if u.len() == 1 {
        u[0] * 257 + 1
    } else {
        u[0] * 257 + u[1] + 2
    }
}

/// The bucket key of the suffix at `p`.
pub open spec fn key_at(s: Seq<u8>, p: int) -> int {
    key_of(suffix(s, p))
}

/// First key of the bucket where the suffixes that start with a non-empty `pat` lie.
pub open spec fn first_key(pat: Seq<u8>) -> int {
    if pat.len() == 1 {
        pat[0] * 257 + 1
    } else {
        pat[0] * 257 + pat[1] + 2
    }
}

/// One past the last key of that bucket.
pub open spec fn end_key(pat: Seq<u8>) -> int {
    if pat.len() == 1 {
        pat[0] * 257 + 258
    } else {
        pat[0] * 257 + pat[1] + 3
    }
}

/// `b[x]` is the first entry of `sa` whose suffix has a key of at least `x`.
pub open spec fn bounds_ok(s: Seq<u8>, sa: Seq<u32>, b: Seq<usize>) -> bool {
    &&& b.len() == TABLE_LEN
    &&& forall|x: int| 0 <= x < TABLE_LEN ==> #[trigger] b[x] <= sa.len()
    &&& forall|x: int, k: int|
        #![trigger b[x], sa[k]]
        0 <= x < TABLE_LEN && 0 <= k < sa.len() ==> ((k < b[x]) <==> key_at(s, sa[k] as int) < x)
}

/// Keys never go down as strings go up.
proof fn lemma_key_mono(u: Seq<u8>, v: Seq<u8>)
    requires
        lex_lt(u, v),
    ensures
        key_of(u) <= key_of(v),
{
    lemma_lcp_facts(u, v);
    if u.len() > 0 && v.len() > 0 && u[0] == v[0] {
        if u.len() >= 2 && v.len() == 1 {
            assert(lcp(u, v) >= 1);
        }
    }
}

/// Strings with a key below the bucket of `pat` sort before it; those with a key
/// past the bucket sort after it and do not start with it.
proof fn lemma_key_bucket(u: Seq<u8>, pat: Seq<u8>)
    requires
        pat.len() >= 1,
    ensures
        key_of(u) < first_key(pat) ==> lex_lt(u, pat),
        key_of(u) >= end_key(pat) ==> !lex_lt(u, pat) && !is_prefix(pat, u),
{
    lemma_lcp_facts(u, pat);
    lemma_lcp_facts(pat, u);
    lemma_prefix_iff_lcp(pat, u);
    if u.len() == 0 || u[0] != pat[0] {
        lemma_lcp_unique(u, pat, 0);
        lemma_lcp_unique(pat, u, 0);
    } else if u.len() == 1 || pat.len() == 1 || u[1] != pat[1] {
        lemma_lcp_unique(u, pat, 1);
        lemma_lcp_unique(pat, u, 1);
    }
}

/// The first two bytes of `pat`, or its one byte.
pub open spec fn lead(pat: Seq<u8>) -> Seq<u8> {
    if pat.len() == 1 {
        pat.subrange(0, 1)
    } else {
        pat.subrange(0, 2)
    }
}

/// The keys of the bucket of `pat` are the keys of the strings that start with its
/// first two bytes, or with its one byte.
proof fn lemma_key_lead(u: Seq<u8>, pat: Seq<u8>)
    requires
        pat.len() >= 1,
    ensures
        (first_key(pat) <= key_of(u) < end_key(pat)) <==> is_prefix(lead(pat), u),
{
    let l = lead(pat);
    if is_prefix(l, u) {
        assert(u.subrange(0, l.len() as int)[0] == u[0]);
        if pat.len() >= 2 {
            assert(u.subrange(0, l.len() as int)[1] == u[1]);
        }
    }
    if first_key(pat) <= key_of(u) < end_key(pat) {
        if pat.len() == 1 {
            assert(u.len() >= 1 && u[0] == pat[0]);
            assert(u.subrange(0, 1) =~= l);
        } else {
            assert(u.len() >= 2 && u[0] == pat[0] && u[1] == pat[1]);
            assert(u.subrange(0, 2) =~= l);
        }
    }
}

/// The bucket key of the suffix of `s` at `p`.
pub fn suffix_key(s: &[u8], p: usize) -> (r: usize)
    requires
        p <= s.len(),
    ensures
        r == key_at(s@, p as int),
        r < TABLE_LEN - 1,
{
    if p == s.len() {
        0
    } else if p + 1 == s.len() {
        s[p] as usize * 257 + 1
    } else {
        s[p] as usize * 257 + s[p + 1] as usize + 2
    }
}

/// The table of bucket bounds of a suffix array, found in one pass over it.
pub fn bucket_bounds(s: &[u8], sa: &[u32]) -> (b: Vec<usize>)
    requires
        is_suffix_array(s@, sa@),
        sorted(s@, sa@),
    ensures
        bounds_ok(s@, sa@, b@),
{
    let mut b: Vec<usize> = Vec::with_capacity(TABLE_LEN);
    let mut k: usize = 0;
    let mut x: usize = 0;
    while x < TABLE_LEN
        invariant
            is_suffix_array(s@, sa@),
            sorted(s@, sa@),
            x <= TABLE_LEN,
            b.len() == x,
            k <= sa.len(),
            forall|j: int| 0 <= j < k ==> key_at(s@, #[trigger] sa[j] as int) < x,
            forall|y: int| 0 <= y < x ==> #[trigger] b[y] <= sa.len(),
            forall|y: int, j: int|
                #![trigger b[y], sa[j]]
                0 <= y < x && 0 <= j < sa.len() ==> ((j < b[y]) <==> key_at(s@, sa[j] as int) < y),
        decreases TABLE_LEN - x,
    {
        while k < sa.len() && suffix_key(s, sa[k] as usize) < x
            invariant
                is_suffix_array(s@, sa@),
                k <= sa.len(),
                forall|j: int| 0 <= j < k ==> key_at(s@, #[trigger] sa[j] as int) < x,
            decreases sa.len() - k,
        {
            k = k + 1;
        }
        if k < sa.len() {
            assert(key_at(s@, sa[k as int] as int) >= x);
        }
        assert forall|j: int| k <= j < sa.len() implies key_at(s@, #[trigger] sa[j] as int) >= x by {
            if j > k {
                assert(suffix_lt(s@, sa[k as int], sa[j]));
                lemma_key_mono(suffix(s@, sa[k as int] as int), suffix(s@, sa[j] as int));
            }
        }
        b.push(k);
        x = x + 1;
    }
    b
}

/// The range of entries that a search for a non-empty `pat` has to look at.
pub fn bucket_of(s: &[u8], sa: &[u32], b: &[usize], pat: &[u8]) -> (r: (usize, usize))
    requires
        bounds_ok(s@, sa@, b@),
        pat.len() >= 1,
    ensures
        r.0 <= r.1 <= sa.len(),
        forall|k: int|
            0 <= k < sa.len() ==> ((r.0 <= k < r.1) <==> first_key(pat@) <= key_at(
                s@,
                #[trigger] sa[k] as int,
            ) < end_key(pat@)),
        forall|k: int|
            0 <= k < sa.len() ==> ((r.0 <= k < r.1) <==> is_prefix(
                lead(pat@),
                suffix(s@, #[trigger] sa[k] as int),
            )),
        forall|k: int| 0 <= k < r.0 ==> lex_lt(suffix(s@, #[trigger] sa[k] as int), pat@),
        forall|k: int|
            r.1 <= k < sa.len() ==> !lex_lt(suffix(s@, #[trigger] sa[k] as int), pat@) && !is_prefix(
                pat@,
                suffix(s@, sa[k] as int),
            ),
{
    let c0 = pat[0] as usize;
    let (lo, hi) = if pat.len() == 1 {
        (c0 * 257 + 1, c0 * 257 + 258)
    } else {
        (c0 * 257 + pat[1] as usize + 2, c0 * 257 + pat[1] as usize + 3)
    };
    let a = b[lo];
    let z = b[hi];
    assert(lo == first_key(pat@) && hi == end_key(pat@));
    assert forall|k: int| 0 <= k < a implies lex_lt(suffix(s@, #[trigger] sa[k] as int), pat@) by {
        assert(key_at(s@, sa[k] as int) < lo);
        lemma_key_bucket(suffix(s@, sa[k] as int), pat@);
    }
    assert forall|k: int| z <= k < sa.len() implies !lex_lt(
        suffix(s@, #[trigger] sa[k] as int),
        pat@,
    ) && !is_prefix(pat@, suffix(s@, sa[k] as int)) by {
        assert(key_at(s@, sa[k] as int) >= hi);
        lemma_key_bucket(suffix(s@, sa[k] as int), pat@);
    }
    if z < a {
        assert(key_at(s@, sa[z as int] as int) < lo);
    }
    assert forall|k: int|
        0 <= k < sa.len() implies ((a <= k < z) <==> first_key(pat@) <= key_at(
            s@,
            #[trigger] sa[k] as int,
        ) < end_key(pat@)) by {
        assert(b@[lo as int] == a && b@[hi as int] == z);
    }
    assert forall|k: int|
        0 <= k < sa.len() implies ((a <= k < z) <==> is_prefix(
            lead(pat@),
            suffix(s@, #[trigger] sa[k] as int),
        )) by {
        lemma_key_lead(suffix(s@, sa[k] as int), pat@);
    }
    (a, z)
}

} // verus!
