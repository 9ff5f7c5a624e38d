//! Packing a suffix array into bytes and back.

use vstd::prelude::*;

verus! {

/// The four bytes of `x`, least significant first.
pub open spec fn word_bytes(x: u32) -> Seq<u8> {
    seq![x as u8, (x >> 8u32) as u8, (x >> 16u32) as u8, (x >> 24u32) as u8]
}

/// The index held by the four bytes of `b` from `i` on, least significant first.
pub open spec fn word_at(b: Seq<u8>, i: int) -> u32 {
    (b[i] as u32) | ((b[i + 1] as u32) << 8u32) | ((b[i + 2] as u32) << 16u32) | ((b[i
        + 3] as u32) << 24u32)
}

/// The packed form of a sequence of indices: four bytes each, in order.
pub open spec fn pack(sa: Seq<u32>) -> Seq<u8>
    decreases sa.len(),
{
    if sa.len() == 0 {
        Seq::empty()
    } else {
        pack(sa.drop_last()) + word_bytes(sa.last())
    }
}

/// The indices held by packed bytes, or none when the bytes do not make whole
/// indices.
pub open spec fn unpack(b: Seq<u8>) -> Option<Seq<u32>> {
    if b.len() % 4 != 0 {
        None
    } else {
        Some(Seq::new(b.len() / 4, |i: int| word_at(b, 4 * i)))
    }
}

proof fn lemma_word_round_trip(x: u32)
    ensures
        (x as u8 as u32) | (((x >> 8u32) as u8 as u32) << 8u32) | (((x >> 16u32) as u8 as u32)
            << 16u32) | (((x >> 24u32) as u8 as u32) << 24u32) == x,
{
    assert((x as u8 as u32) | (((x >> 8u32) as u8 as u32) << 8u32) | (((x >> 16u32) as u8 as u32)
        << 16u32) | (((x >> 24u32) as u8 as u32) << 24u32) == x) by (bit_vector);
}

proof fn lemma_pack_layout(sa: Seq<u32>)
    ensures
        pack(sa).len() == 4 * sa.len(),
        forall|i: int, j: int|
            0 <= i < sa.len() && 0 <= j < 4 ==> #[trigger] pack(sa)[4 * i + j] == word_bytes(
                sa[i],
            )[j],
    decreases sa.len(),
{
    if sa.len() > 0 {
        let init = sa.drop_last();
        lemma_pack_layout(init);
        assert forall|i: int, j: int| 0 <= i < sa.len() && 0 <= j < 4 implies #[trigger] pack(
            sa,
        )[4 * i + j] == word_bytes(sa[i])[j] by {
            if i < sa.len() - 1 {
                assert(init[i] == sa[i]);
                assert(pack(init)[4 * i + j] == word_bytes(init[i])[j]);
            }
        }
    }
}

/// Unpacking what was packed gives back the same indices.
pub proof fn lemma_pack_round_trip(sa: Seq<u32>)
    ensures
        unpack(pack(sa)) == Some(sa),
{
    lemma_pack_layout(sa);
    let b = pack(sa);
    let n = sa.len() as int;
    assert((4 * n) % 4 == 0);
    assert((4 * n) / 4 == n);
    let r = Seq::new(b.len() / 4, |i: int| word_at(b, 4 * i));
    assert forall|i: int| 0 <= i < n implies r[i] == sa[i] by {
        assert(b[4 * i + 0] == word_bytes(sa[i])[0]);
        assert(b[4 * i + 1] == word_bytes(sa[i])[1]);
        assert(b[4 * i + 2] == word_bytes(sa[i])[2]);
        assert(b[4 * i + 3] == word_bytes(sa[i])[3]);
        lemma_word_round_trip(sa[i]);
    }
    assert(r =~= sa);
}

/// Packs indices into bytes, four each, least significant first.
pub fn pack_indices(sa: &[u32]) -> (r: Vec<u8>)
    ensures
        r@ == pack(sa@),
{
    let mut out: Vec<u8> = Vec::new();
    let mut i: usize = 0;
    while i < sa.len()
        invariant
            i <= sa.len(),
            out@ == pack(sa@.subrange(0, i as int)),
        decreases sa.len() - i,
    {
        let x = sa[i];
        out.push(x as u8);
        out.push((x >> 8u32) as u8);
        out.push((x >> 16u32) as u8);
        out.push((x >> 24u32) as u8);
        proof {
            let next = sa@.subrange(0, i + 1);
            assert(next.drop_last() =~= sa@.subrange(0, i as int));
            assert(out@ =~= pack(next));
        }
        i = i + 1;
    }
    assert(sa@.subrange(0, sa.len() as int) =~= sa@);
    out
}

/// The indices held by packed bytes; `None` when their length is not a multiple
/// of four.
pub fn unpack_indices(b: &[u8]) -> (r: Option<Vec<u32>>)
    ensures
        r is None <==> unpack(b@) is None,
        r is Some ==> unpack(b@) == Some(r->Some_0@),
{
    if b.len() % 4 != 0 {
        return None;
    }
    let ghost full = Seq::new(b@.len() / 4, |i: int| word_at(b@, 4 * i));
    let mut out: Vec<u32> = Vec::new();
    let mut pos: usize = 0;
    while pos < b.len()
        invariant
            b.len() % 4 == 0,
            pos % 4 == 0,
            pos <= b.len(),
            pos == 4 * out.len(),
            full == Seq::new(b@.len() / 4, |i: int| word_at(b@, 4 * i)),
            out@ == full.subrange(0, out.len() as int),
        decreases b.len() - pos,
    {
        let x = (b[pos] as u32) | ((b[pos + 1] as u32) << 8u32) | ((b[pos + 2] as u32) << 16u32)
            | ((b[pos + 3] as u32) << 24u32);
        proof {
            assert(x == word_at(b@, 4 * out.len()));
        }
        out.push(x);
        pos = pos + 4;
        assert(out@ =~= full.subrange(0, out.len() as int));
    }
    assert(out@ =~= full);
    Some(out)
}

} // verus!
