//! Common prefixes and the lexicographic order of byte strings.

use vstd::prelude::*;

verus! {

/// Length of the longest common prefix of `a` and `b`, counted from `k` on.
pub open spec fn lcp_from(a: Seq<u8>, b: Seq<u8>, k: nat) -> nat
    decreases a.len() - k,
{
    if k < a.len() && k < b.len() && a[k as int] == b[k as int] {
        lcp_from(a, b, k + 1)
    } else {
        k
    }
}

/// Length of the longest common prefix of `a` and `b`.
pub open spec fn lcp(a: Seq<u8>, b: Seq<u8>) -> nat {
    lcp_from(a, b, 0)
}

/// Common prefix length of the suffix of `a` at `i` and the suffix of `b` at `j`.
pub fn lcp_at(a: &[u8], i: usize, b: &[u8], j: usize) -> (r: usize)
    requires
        i <= a.len(),
        j <= b.len(),
    ensures
        r == lcp(suffix(a@, i as int), suffix(b@, j as int)),
{
    let ghost x = suffix(a@, i as int);
    let ghost y = suffix(b@, j as int);
    let mut k: usize = 0;
    while k < a.len() - i && k < b.len() - j && a[i + k] == b[j + k]
        invariant
            i <= a.len(),
            j <= b.len(),
            x == suffix(a@, i as int),
            y == suffix(b@, j as int),
            k <= a.len() - i,
            k <= b.len() - j,
            lcp_from(x, y, k as nat) == lcp(x, y),
        decreases a.len() - i - k,
    {
        assert(x[k as int] == a@[i + k]);
        assert(y[k as int] == b@[j + k]);
        k = k + 1;
    }
    if k < a.len() - i && k < b.len() - j {
        assert(x[k as int] == a@[i + k]);
        assert(y[k as int] == b@[j + k]);
    }
    k
}

/// Whether the suffix of `a` at `i` sorts strictly before the suffix of `b` at `j`.
pub fn less_at(a: &[u8], i: usize, b: &[u8], j: usize) -> (r: bool)
    requires
        i <= a.len(),
        j <= b.len(),
    ensures
        r == lex_lt(suffix(a@, i as int), suffix(b@, j as int)),
{
    let k = lcp_at(a, i, b, j);
    proof {
        lemma_lcp_facts(suffix(a@, i as int), suffix(b@, j as int));
    }
    if k < b.len() - j {
        k == a.len() - i || a[i + k] < b[j + k]
    } else {
        false
    }
}

/// Whether `p` is a prefix of the suffix of `a` at `i`.
pub fn prefix_at(p: &[u8], a: &[u8], i: usize) -> (r: bool)
    requires
        i <= a.len(),
    ensures
        r == is_prefix(p@, suffix(a@, i as int)),
{
    let k = lcp_at(p, 0, a, i);
    proof {
        assert(suffix(p@, 0) =~= p@);
        lemma_prefix_iff_lcp(p@, suffix(a@, i as int));
    }
    k == p.len()
}

} // verus!

verus! {

/// The suffix of `s` that starts at position `i`.
pub open spec fn suffix(s: Seq<u8>, i: int) -> Seq<u8> {
    s.subrange(i, s.len() as int)
}

/// Strict lexicographic order, where a proper prefix is smaller than the longer string.
pub open spec fn lex_lt(a: Seq<u8>, b: Seq<u8>) -> bool {
    let k = lcp(a, b);
    k < b.len() && (k == a.len() || a[k as int] < b[k as int])
}

/// `p` is a prefix of `a`.
pub open spec fn is_prefix(p: Seq<u8>, a: Seq<u8>) -> bool {
    p.len() <= a.len() && a.subrange(0, p.len() as int) == p
}

proof fn lemma_lcp_from_facts(a: Seq<u8>, b: Seq<u8>, k: nat)
    requires
        k <= a.len(),
        k <= b.len(),
        forall|j: int| 0 <= j < k ==> a[j] == b[j],
    ensures
        k <= lcp_from(a, b, k) <= a.len(),
        lcp_from(a, b, k) <= b.len(),
        forall|j: int| 0 <= j < lcp_from(a, b, k) ==> a[j] == b[j],
        lcp_from(a, b, k) < a.len() && lcp_from(a, b, k) < b.len() ==> a[lcp_from(a, b, k) as int]
            != b[lcp_from(a, b, k) as int],
    decreases a.len() - k,
{
    if k < a.len() && k < b.len() && a[k as int] == b[k as int] {
        lemma_lcp_from_facts(a, b, k + 1);
    }
}

/// What the common prefix length is: both strings agree below it, and at it one
/// of them ends or they differ.
pub proof fn lemma_lcp_facts(a: Seq<u8>, b: Seq<u8>)
    ensures
        lcp(a, b) <= a.len(),
        lcp(a, b) <= b.len(),
        forall|j: int| 0 <= j < lcp(a, b) ==> a[j] == b[j],
        lcp(a, b) < a.len() && lcp(a, b) < b.len() ==> a[lcp(a, b) as int] != b[lcp(a, b) as int],
{
    lemma_lcp_from_facts(a, b, 0);
}

proof fn lemma_lcp_from_unique(a: Seq<u8>, b: Seq<u8>, k: nat, m: nat)
    requires
        k <= m,
        m <= a.len(),
        m <= b.len(),
        forall|j: int| 0 <= j < m ==> a[j] == b[j],
        m == a.len() || m == b.len() || a[m as int] != b[m as int],
    ensures
        lcp_from(a, b, k) == m,
    decreases m - k,
{
    if k < m {
        lemma_lcp_from_unique(a, b, k + 1, m);
    }
}

/// The common prefix length is the first place where the strings end or differ.
pub proof fn lemma_lcp_unique(a: Seq<u8>, b: Seq<u8>, m: nat)
    requires
        m <= a.len(),
        m <= b.len(),
        forall|j: int| 0 <= j < m ==> a[j] == b[j],
        m == a.len() || m == b.len() || a[m as int] != b[m as int],
    ensures
        lcp(a, b) == m,
{
    lemma_lcp_from_unique(a, b, 0, m);
}

pub proof fn lemma_lcp_symmetric(a: Seq<u8>, b: Seq<u8>)
    ensures
        lcp(a, b) == lcp(b, a),
{
    lemma_lcp_facts(a, b);
    lemma_lcp_unique(b, a, lcp(a, b));
}

/// A string is a prefix of another exactly when their common prefix is all of it.
pub proof fn lemma_prefix_iff_lcp(p: Seq<u8>, a: Seq<u8>)
    ensures
        is_prefix(p, a) <==> lcp(p, a) == p.len(),
{
    lemma_lcp_facts(p, a);
    if lcp(p, a) == p.len() {
        assert(a.subrange(0, p.len() as int) =~= p);
    }
    if is_prefix(p, a) {
        assert forall|j: int| 0 <= j < p.len() implies p[j] == a[j] by {
            assert(a.subrange(0, p.len() as int)[j] == a[j]);
        }
        lemma_lcp_unique(p, a, p.len());
    }
}

pub proof fn lemma_lex_irreflexive(a: Seq<u8>)
    ensures
        !lex_lt(a, a),
{
    lemma_lcp_unique(a, a, a.len());
}

/// Two different strings are ordered one way or the other.
pub proof fn lemma_lex_total(a: Seq<u8>, b: Seq<u8>)
    requires
        a != b,
    ensures
        lex_lt(a, b) || lex_lt(b, a),
{
    lemma_lcp_facts(a, b);
    lemma_lcp_symmetric(a, b);
    if lcp(a, b) == a.len() && lcp(a, b) == b.len() {
        assert(a =~= b);
    }
}

/// Order is transitive, and the common prefix of the outer pair is the shorter
/// of the two inner ones.
pub proof fn lemma_lex_trans(a: Seq<u8>, b: Seq<u8>, c: Seq<u8>)
    requires
        lex_lt(a, b),
        lex_lt(b, c),
    ensures
        lex_lt(a, c),
        lcp(a, c) == if lcp(a, b) < lcp(b, c) { lcp(a, b) } else { lcp(b, c) },
{
    lemma_lcp_facts(a, b);
    lemma_lcp_facts(b, c);
    let m = if lcp(a, b) < lcp(b, c) { lcp(a, b) } else { lcp(b, c) };
    lemma_lcp_unique(a, c, m);
}

/// Suffixes that start at different places are different.
pub proof fn lemma_suffixes_differ(s: Seq<u8>, i: int, j: int)
    requires
        0 <= i <= s.len(),
        0 <= j <= s.len(),
        i != j,
    ensures
        suffix(s, i) != suffix(s, j),
        lex_lt(suffix(s, i), suffix(s, j)) || lex_lt(suffix(s, j), suffix(s, i)),
{
    assert(suffix(s, i).len() != suffix(s, j).len());
    lemma_lex_total(suffix(s, i), suffix(s, j));
}

} // verus!
