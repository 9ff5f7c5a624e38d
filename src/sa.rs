//! A byte string that owns its suffix array.

use std::ops::Range;
use vstd::prelude::*;

use crate::bucket::{bounds_ok, bucket_bounds, bucket_of, end_key, first_key, key_at, lead};
use crate::construct::{build, build_into, holds_position, is_suffix_array, lemma_permutation, sorted};
use crate::pack::{pack, pack_indices, unpack, unpack_indices};
use crate::lex::{is_prefix, lcp, lcp_at, lemma_lcp_facts, lemma_lex_irreflexive, less_at, suffix};
use crate::search::{
    below, encloses, is_lower_bound, is_region, lcp_pick, lemma_neighbours_best,
    lemma_prefix_not_below, lower_bound, occurs_at, region_end, starts_at,
};

verus! {

/// Why a suffix array could not be made or taken in.
#[derive(Debug, Clone, Copy, PartialEq, Eq, Structural)]
pub enum SaError {
    /// The string has more bytes than 32-bit indices can address.
    InputTooLarge,
    /// The array given is not the suffix array of the string given.
    InconsistentSA,
    /// The packed bytes do not hold a whole number of indices.
    Corrupt,
}

/// A byte string together with its suffix array.
#[derive(Clone)]
pub struct SuffixArray {
    s: Vec<u8>,
    sa: Vec<u32>,
    bkt: Option<Vec<usize>>,
}

impl SuffixArray {
    /// The byte string.
    pub closed spec fn text(&self) -> Seq<u8> {
        self.s@
    }

    /// The suffix array of the byte string.
    pub closed spec fn array(&self) -> Seq<u32> {
        self.sa@
    }

    /// Whether the table of two-byte buckets has been built.
    pub closed spec fn bucketed(&self) -> bool {
        self.bkt is Some
    }

    /// The bucket table, when built, bounds each bucket of the suffix array.
    pub closed spec fn index_ok(&self) -> bool {
        match self.bkt {
            None => true,
            Some(b) => bounds_ok(self.s@, self.sa@, b@),
        }
    }

    /// The string fits 32-bit indices and the array is its suffix array.
    pub open spec fn wf(&self) -> bool {
        &&& self.text().len() <= u32::MAX
        &&& is_suffix_array(self.text(), self.array())
        &&& sorted(self.text(), self.array())
        &&& self.index_ok()
    }

    /// Builds the suffix array of `s`.
    pub fn new(s: Vec<u8>) -> (r: Result<SuffixArray, SaError>)
        ensures
            s.len() > u32::MAX <==> r == Err::<SuffixArray, SaError>(SaError::InputTooLarge),
            r is Ok <==> s.len() <= u32::MAX,
            r is Ok ==> r->Ok_0.wf() && r->Ok_0.text() == s@ && !r->Ok_0.bucketed(),
    {
        if s.len() > u32::MAX as usize {
            return Err(SaError::InputTooLarge);
        }
        let sa = build(&s);
        Ok(SuffixArray { s, sa, bkt: None })
    }

    /// Replaces the string by `s` and builds its suffix array, in the storage
    /// already held; the value is left as it was when `s` is too large.
    pub fn set(&mut self, s: &[u8]) -> (r: Result<(), SaError>)
        requires
            old(self).wf(),
        ensures
            final(self).wf(),
            s.len() > u32::MAX <==> r == Err::<(), SaError>(SaError::InputTooLarge),
            r is Ok <==> s.len() <= u32::MAX,
            r is Ok ==> final(self).text() == s@ && !final(self).bucketed(),
            r is Err ==> *final(self) == *old(self),
    {
        if s.len() > u32::MAX as usize {
            return Err(SaError::InputTooLarge);
        }
        build_into(s, &mut self.sa);
        copy_into(s, &mut self.s);
        self.bkt = None;
        Ok(())
    }

    /// Gives back the memory that the suffix array holds beyond its length.
    pub fn fit(&mut self)
        requires
            old(self).wf(),
        ensures
            final(self).wf(),
            final(self).text() == old(self).text(),
            final(self).array() == old(self).array(),
            final(self).bucketed() == old(self).bucketed(),
    {
        release_spare(&mut self.sa);
    }

    /// Length of the byte string.
    pub fn len(&self) -> (r: usize)
        ensures
            r == self.text().len(),
    {
        self.s.len()
    }

    /// Whether the byte string is empty.
    pub fn is_empty(&self) -> (r: bool)
        ensures
            r == (self.text().len() == 0),
    {
        self.s.len() == 0
    }

    /// The byte string and its suffix array, borrowed.
    pub fn to_parts(&self) -> (r: (&[u8], &[u32]))
        ensures
            r.0@ == self.text(),
            r.1@ == self.array(),
    {
        (self.s.as_slice(), self.sa.as_slice())
    }

    /// The byte string and its suffix array, taken out.
    pub fn into_parts(self) -> (r: (Vec<u8>, Vec<u32>))
        ensures
            r.0@ == self.text(),
            r.1@ == self.array(),
    {
        (self.s, self.sa)
    }

    /// Puts a string and an array together after checking that the array is the
    /// suffix array of the string.
    pub fn from_parts(s: Vec<u8>, sa: Vec<u32>) -> (r: Result<SuffixArray, SaError>)
        ensures
            s.len() > u32::MAX <==> r == Err::<SuffixArray, SaError>(SaError::InputTooLarge),
            s.len() <= u32::MAX && !is_suffix_array(s@, sa@) <==> r == Err::<
                SuffixArray,
                SaError,
            >(SaError::InconsistentSA),
            r is Ok <==> s.len() <= u32::MAX && is_suffix_array(s@, sa@),
            r is Ok ==> r->Ok_0.wf() && r->Ok_0.text() == s@ && r->Ok_0.array() == sa@
                && !r->Ok_0.bucketed(),
    {
        if s.len() > u32::MAX as usize {
            return Err(SaError::InputTooLarge);
        }
        if check_integrity(&s, &sa) {
            proof {
                crate::construct::lemma_sorted(s@, sa@);
            }
            Ok(SuffixArray { s, sa, bkt: None })
        } else {
            Err(SaError::InconsistentSA)
        }
    }

    /// Puts together a string and an array already known to be its suffix array.
    pub fn unchecked_from_parts(s: Vec<u8>, sa: Vec<u32>) -> (r: SuffixArray)
        requires
            s.len() <= u32::MAX,
            is_suffix_array(s@, sa@),
        ensures
            r.wf(),
            r.text() == s@,
            r.array() == sa@,
            !r.bucketed(),
    {
        proof {
            crate::construct::lemma_sorted(s@, sa@);
        }
        SuffixArray { s, sa, bkt: None }
    }

    /// The suffix array packed into bytes; the string is not part of them.
    pub fn dump_bytes(&self) -> (r: Vec<u8>)
        ensures
            r@ == pack(self.array()),
    {
        pack_indices(self.sa.as_slice())
    }

    /// Takes in a suffix array packed into bytes, for the string `s`, after
    /// checking that it is the suffix array of `s`.
    pub fn load_bytes(s: Vec<u8>, bytes: &[u8]) -> (r: Result<SuffixArray, SaError>)
        ensures
            unpack(bytes@) is None <==> r == Err::<SuffixArray, SaError>(SaError::Corrupt),
            unpack(bytes@) is Some && s.len() > u32::MAX <==> r == Err::<SuffixArray, SaError>(
                SaError::InputTooLarge,
            ),
            unpack(bytes@) is Some && s.len() <= u32::MAX && !is_suffix_array(
                s@,
                unpack(bytes@)->Some_0,
            ) <==> r == Err::<SuffixArray, SaError>(SaError::InconsistentSA),
            r is Ok ==> r->Ok_0.wf() && r->Ok_0.text() == s@ && unpack(bytes@) == Some(
                r->Ok_0.array(),
            ) && !r->Ok_0.bucketed(),
    {
        match unpack_indices(bytes) {
            None => Err(SaError::Corrupt),
            Some(sa) => SuffixArray::from_parts(s, sa),
        }
    }

    /// Takes in a suffix array packed into bytes, for the string `s`, that is
    /// already known to be the suffix array of `s`.
    pub fn unchecked_load_bytes(s: Vec<u8>, bytes: &[u8]) -> (r: Result<SuffixArray, SaError>)
        requires
            s.len() <= u32::MAX,
            unpack(bytes@) is Some ==> is_suffix_array(s@, unpack(bytes@)->Some_0),
        ensures
            unpack(bytes@) is None <==> r == Err::<SuffixArray, SaError>(SaError::Corrupt),
            r is Ok <==> unpack(bytes@) is Some,
            r is Ok ==> r->Ok_0.wf() && r->Ok_0.text() == s@ && unpack(bytes@) == Some(
                r->Ok_0.array(),
            ) && !r->Ok_0.bucketed(),
    {
        match unpack_indices(bytes) {
            None => Err(SaError::Corrupt),
            Some(sa) => Ok(SuffixArray::unchecked_from_parts(s, sa)),
        }
    }

    /// The range of entries where a search for `pat` has to look: with the table
    /// built and `pat` not empty, the bucket of the suffixes that start with the
    /// first two bytes of `pat` (its one byte, when it has one); else all of them.
    fn get_bucket(&self, pat: &[u8]) -> (r: (usize, usize))
        requires
            self.wf(),
        ensures
            encloses(self.text(), self.array(), pat@, r.0 as int, r.1 as int),
            !self.bucketed() || pat.len() == 0 ==> r == (0usize, self.array().len() as usize),
            self.bucketed() && pat.len() >= 1 ==> forall|k: int|
                0 <= k < self.array().len() ==> ((r.0 <= k < r.1) <==> first_key(pat@) <= key_at(
                    self.text(),
                    #[trigger] self.array()[k] as int,
                ) < end_key(pat@)),
            self.bucketed() && pat.len() >= 1 ==> forall|k: int|
                0 <= k < self.array().len() ==> ((r.0 <= k < r.1) <==> is_prefix(
                    lead(pat@),
                    suffix(self.text(), #[trigger] self.array()[k] as int),
                )),
    {
        match &self.bkt {
            Some(b) => {
                if pat.len() == 0 {
                    (0, self.sa.len())
                } else {
                    bucket_of(self.s.as_slice(), self.sa.as_slice(), b.as_slice(), pat)
                }
            },
            None => (0, self.sa.len()),
        }
    }

    /// Builds the table of buckets by the first two bytes, which narrows the
    /// searches of `find_region`, `contains` and `search_all`; it does not change
    /// their results. Nothing is done when the table is there already.
    pub fn enable_buckets(&mut self)
        requires
            old(self).wf(),
        ensures
            final(self).wf(),
            final(self).text() == old(self).text(),
            final(self).array() == old(self).array(),
            final(self).bucketed(),
    {
        if self.bkt.is_some() {
            return;
        }
        let b = bucket_bounds(self.s.as_slice(), self.sa.as_slice());
        self.bkt = Some(b);
    }

    /// The range of entries of the suffix array whose suffixes start with `pat`;
    /// when there are none, an empty range at the place where `pat` would sort.
    pub fn find_region(&self, pat: &[u8]) -> (r: (usize, usize))
        requires
            self.wf(),
        ensures
            is_region(self.text(), self.array(), pat@, r.0 as int, r.1 as int),
    {
        let (lo, hi) = self.get_bucket(pat);
        let start = lower_bound(&self.s, &self.sa, pat, lo, hi);
        let end = region_end(&self.s, &self.sa, pat, start, hi);
        (start, end)
    }

    /// Whether `pat` occurs in the string.
    pub fn contains(&self, pat: &[u8]) -> (r: bool)
        requires
            self.wf(),
        ensures
            r == exists|p: int| #[trigger] occurs_at(self.text(), pat@, p),
    {
        let (lo, hi) = self.find_region(pat);
        proof {
            lemma_region_occurrences(self.text(), self.array(), pat@, lo as int, hi as int);
        }
        lo < hi
    }

    /// The positions where `pat` occurs, overlapping ones included, in the order
    /// of the suffix array.
    pub fn search_all(&self, pat: &[u8]) -> (r: &[u32])
        requires
            self.wf(),
        ensures
            exists|lo: int, hi: int|
                #[trigger] is_region(self.text(), self.array(), pat@, lo, hi) && r@
                    == self.array().subrange(lo, hi),
    {
        let (lo, hi) = self.find_region(pat);
        vstd::slice::slice_subrange(self.sa.as_slice(), lo, hi)
    }

    /// A range of the string that shares with `pat` the longest prefix that any
    /// suffix shares with it; when `pat` is itself a suffix, that suffix; the empty
    /// range at the end of the string when no suffix shares a byte with it.
    pub fn search_lcp(&self, pat: &[u8]) -> (r: Range<usize>)
        requires
            self.wf(),
        ensures
            r.start <= r.end <= self.text().len(),
            lcp(pat@, suffix(self.text(), r.start as int)) == r.end - r.start,
            forall|p: int|
                0 <= p <= self.text().len() ==> #[trigger] lcp(pat@, suffix(self.text(), p))
                    <= r.end - r.start,
            forall|p: int|
                0 <= p <= self.text().len() && #[trigger] suffix(self.text(), p) == pat@ ==> r.start
                    == p && r.end == self.text().len(),
            exists|i: int|
                #[trigger] is_lower_bound(self.text(), self.array(), pat@, i) && (
                r.start as int,
                r.end as int,
            ) == lcp_pick(self.text(), self.array(), pat@, i),
    {
        let s = &self.s;
        let sa = &self.sa;
        let ghost t = self.text();
        let ghost a = self.array();
        let n = s.len();
        let i = lower_bound(s, sa, pat, 0, sa.len());
        proof {
            assert(suffix(pat@, 0) =~= pat@);
        }
        let r0 = if i > 0 && i < sa.len() {
            let pa = sa[i - 1] as usize;
            let pb = sa[i] as usize;
            let la = lcp_at(pat, 0, s, pa);
            let lb = lcp_at(pat, 0, s, pb);
            proof {
                lemma_lcp_facts(pat@, suffix(t, pa as int));
                lemma_lcp_facts(pat@, suffix(t, pb as int));
            }
            if la > lb {
                Range { start: pa, end: pa + la }
            } else {
                Range { start: pb, end: pb + lb }
            }
        } else if i == 0 {
            let pb = sa[i] as usize;
            let lb = lcp_at(pat, 0, s, pb);
            proof {
                lemma_lcp_facts(pat@, suffix(t, pb as int));
            }
            Range { start: pb, end: pb + lb }
        } else {
            let pa = sa[i - 1] as usize;
            let la = lcp_at(pat, 0, s, pa);
            proof {
                lemma_lcp_facts(pat@, suffix(t, pa as int));
            }
            Range { start: pa, end: pa + la }
        };
        let r = if r0.start == r0.end {
            Range { start: n, end: n }
        } else {
            r0
        };
        proof {
            assert((r.start as int, r.end as int) == lcp_pick(t, a, pat@, i as int));
            lemma_permutation(t, a);
            assert forall|p: int| 0 <= p <= t.len() implies #[trigger] lcp(pat@, suffix(t, p))
                <= r.end - r.start by {
                assert(holds_position(a, p));
                let k = choose|k: int| 0 <= k < a.len() && a[k] == p;
                lemma_neighbours_best(t, a, pat@, i as int, k);
            }
            assert forall|p: int| 0 <= p <= t.len() && #[trigger] suffix(t, p) == pat@ implies r.start
                == p && r.end == t.len() by {
                assert(holds_position(a, p));
                let k = choose|k: int| 0 <= k < a.len() && a[k] == p;
                lemma_lex_irreflexive(pat@);
                assert(!below(t, a, pat@, k));
                if k > i {
                    assert(crate::construct::suffix_lt(t, a[i as int], a[k]));
                    assert(!below(t, a, pat@, i as int));
                }
                assert(k == i);
                assert(suffix(t, p).subrange(0, pat@.len() as int) =~= pat@);
                crate::lex::lemma_prefix_iff_lcp(pat@, suffix(t, p));
                if i > 0 {
                    assert(below(t, a, pat@, i - 1));
                    lemma_prefix_not_below(pat@, suffix(t, a[i - 1] as int));
                    crate::lex::lemma_prefix_iff_lcp(pat@, suffix(t, a[i - 1] as int));
                    lemma_lcp_facts(pat@, suffix(t, a[i - 1] as int));
                }
            }
        }
        r
    }
}

impl From<SuffixArray> for Vec<u32> {
    /// The suffix array alone.
    fn from(sa: SuffixArray) -> (r: Vec<u32>) {
        sa.sa
    }
}

impl vstd::std_specs::convert::FromSpecImpl<SuffixArray> for Vec<u32> {
    open spec fn obeys_from_spec() -> bool {
        true
    }

    closed spec fn from_spec(sa: SuffixArray) -> Vec<u32> {
        sa.sa
    }
}

impl AsRef<[u8]> for SuffixArray {
    /// The byte string.
    fn as_ref(&self) -> (r: &[u8])
        ensures
            r@ == self.text(),
    {
        self.s.as_slice()
    }
}

/// Positions in `[lo, hi)` of the suffix array.
pub open spec fn in_region(sa: Seq<u32>, lo: int, hi: int, p: int) -> bool {
    exists|k: int| lo <= k < hi && sa[k] == p
}

/// The entries of the region of `pat` are exactly the positions where `pat`
/// occurs; so the region is empty exactly when `pat` does not occur.
pub proof fn lemma_region_occurrences(s: Seq<u8>, sa: Seq<u32>, pat: Seq<u8>, lo: int, hi: int)
    requires
        is_suffix_array(s, sa),
        is_region(s, sa, pat, lo, hi),
    ensures
        forall|p: int| #[trigger] occurs_at(s, pat, p) <==> in_region(sa, lo, hi, p),
        (lo < hi) <==> exists|p: int| #[trigger] occurs_at(s, pat, p),
{
    lemma_permutation(s, sa);
    assert forall|p: int| #[trigger] occurs_at(s, pat, p) <==> in_region(sa, lo, hi, p) by {
        if occurs_at(s, pat, p) {
            assert(holds_position(sa, p));
            let k = choose|k: int| 0 <= k < sa.len() && sa[k] == p;
            assert(starts_at(s, sa, pat, k));
        }
        if in_region(sa, lo, hi, p) {
            let k = choose|k: int| lo <= k < hi && sa[k] == p;
            assert(starts_at(s, sa, pat, k));
        }
    }
    if lo < hi {
        assert(starts_at(s, sa, pat, lo));
        assert(occurs_at(s, pat, sa[lo] as int));
    }
    if exists|p: int| #[trigger] occurs_at(s, pat, p) {
        let p = choose|p: int| #[trigger] occurs_at(s, pat, p);
        assert(in_region(sa, lo, hi, p));
    }
}

/// Whether `sa` is the suffix array of `s`: the right length, every entry in
/// range, and each suffix strictly after the one before it.
fn check_integrity(s: &Vec<u8>, sa: &Vec<u32>) -> (r: bool)
    requires
        s.len() <= u32::MAX,
    ensures
        r == is_suffix_array(s@, sa@),
{
    if sa.len() == 0 || s.len() != sa.len() - 1 {
        return false;
    }
    let mut k: usize = 0;
    while k < sa.len()
        invariant
            sa.len() == s.len() + 1,
            forall|j: int| 0 <= j < k ==> sa[j] <= s.len(),
        decreases sa.len() - k,
    {
        if sa[k] as usize > s.len() {
            return false;
        }
        k = k + 1;
    }
    let mut k: usize = 1;
    while k < sa.len()
        invariant
            sa.len() == s.len() + 1,
            1 <= k <= sa.len(),
            forall|j: int| 0 <= j < sa.len() ==> sa[j] <= s.len(),
            forall|j: int| 0 < j < k ==> crate::construct::suffix_lt(s@, #[trigger] sa[j - 1], sa[j]),
        decreases sa.len() - k,
    {
        if !less_at(s.as_slice(), sa[k - 1] as usize, s.as_slice(), sa[k] as usize) {
            return false;
        }
        k = k + 1;
    }
    true
}

/// Replaces the contents of `v` by the bytes of `s`, keeping its storage.
fn copy_into(s: &[u8], v: &mut Vec<u8>)
    ensures
        final(v)@ == s@,
{
    v.clear();
    let mut i: usize = 0;
    while i < s.len()
        invariant
            i <= s.len(),
            v@ == s@.subrange(0, i as int),
        decreases s.len() - i,
    {
        v.push(s[i]);
        i = i + 1;
        assert(v@ =~= s@.subrange(0, i as int));
    }
    assert(v@ =~= s@);
}

/// Relies on Vec::shrink_to_fit: it changes the capacity only, never the elements.
#[verifier::external_body]
fn release_spare(v: &mut Vec<u32>)
    ensures
        final(v)@ == old(v)@,
{
    v.shrink_to_fit()
}

} // verus!
