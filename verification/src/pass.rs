//! The steps of one build pass, with the facts each step establishes.
//!
//! A pass works on one buffer: it assigns a bin to every record, pads every
//! bin with fillers, groups the buffer by bin, marks the records that
//! overflow their bin's capacity, and finally groups survivors ahead of the
//! overflow. The functions here are the steps; the bit-level lemmas relate
//! the tag codec's raw words to the record flags the contracts speak of.

use crate::count::{
    cnt, lemma_cnt_bounds, lemma_cnt_eq_pred, lemma_cnt_none, lemma_cnt_prefix, lemma_cnt_push,
    lemma_cnt_take_step, lemma_cnt_window,
};
use crate::crypto::{bin_index_of, prf_of};
use crate::obl::{
    bin_of, is_dummy, is_excess, is_filler, ochoose_bool, ochoose_u32, oeq, ogt, Elem, VAL_SIZE,
};
use crate::pass_ready;
use crate::tag::{
    lemma_tag_field_shifts, TAG_BIN_IDX, TAG_DUMMY, TAG_EXCESS, TAG_FILLER,
};
use vstd::prelude::*;

verus! {

broadcast use vstd::array::axiom_spec_array_fill_for_copy_type;

/// Writing a bin index into an empty bin field keeps every flag bit and
/// makes the field read back exactly that index.
pub(crate) proof fn lemma_set_bin_field(x: u32, v: u32)
    requires
        x & TAG_BIN_IDX == 0,
        v < 0x10000,
    ensures
        (x | (v << 16u32)) & TAG_DUMMY == x & TAG_DUMMY,
        (x | (v << 16u32)) & TAG_FILLER == x & TAG_FILLER,
        (x | (v << 16u32)) & TAG_EXCESS == x & TAG_EXCESS,
        ((x | (v << 16u32)) & TAG_BIN_IDX) >> 16u32 == v,
{
    assert(x & 0xffff_0000u32 == 0 && v < 0x10000 ==> ((x | (v << 16u32)) & 0x1u32 == x & 0x1u32)
        && ((x | (v << 16u32)) & 0x2u32 == x & 0x2u32) && ((x | (v << 16u32)) & 0x4u32 == x
        & 0x4u32) && (((x | (v << 16u32)) & 0xffff_0000u32) >> 16u32 == v)) by (bit_vector);
}

/// Setting the excess flag keeps every other flag and the bin field.
pub(crate) proof fn lemma_set_excess(x: u32)
    ensures
        (x | TAG_EXCESS) & TAG_DUMMY == x & TAG_DUMMY,
        (x | TAG_EXCESS) & TAG_FILLER == x & TAG_FILLER,
        (x | TAG_EXCESS) & TAG_EXCESS != 0,
        (x | TAG_EXCESS) & TAG_BIN_IDX == x & TAG_BIN_IDX,
{
    assert(((x | 0x4u32) & 0x1u32 == x & 0x1u32) && ((x | 0x4u32) & 0x2u32 == x & 0x2u32) && ((x
        | 0x4u32) & 0x4u32 != 0) && ((x | 0x4u32) & 0xffff_0000u32 == x & 0xffff_0000u32))
        by (bit_vector);
}

/// Clearing the excess flag and the bin field keeps the other flags and
/// leaves the record ready for a fresh pass.
pub(crate) proof fn lemma_clear_for_pass(x: u32)
    ensures
        (x & !(TAG_EXCESS | TAG_BIN_IDX)) & TAG_DUMMY == x & TAG_DUMMY,
        (x & !(TAG_EXCESS | TAG_BIN_IDX)) & TAG_FILLER == x & TAG_FILLER,
        (x & !(TAG_EXCESS | TAG_BIN_IDX)) & (TAG_EXCESS | TAG_BIN_IDX) == 0,
{
    assert(((x & !(0x4u32 | 0xffff_0000u32)) & 0x1u32 == x & 0x1u32) && ((x & !(0x4u32
        | 0xffff_0000u32)) & 0x2u32 == x & 0x2u32) && ((x & !(0x4u32 | 0xffff_0000u32)) & (0x4u32
        | 0xffff_0000u32) == 0)) by (bit_vector);
}

/// A record whose tag holds at most the dummy flag has no other flag set
/// and an empty bin field.
pub(crate) proof fn lemma_staged_parts(x: u32)
    requires
        x & !TAG_DUMMY == 0,
    ensures
        x & TAG_FILLER == 0,
        x & (TAG_EXCESS | TAG_BIN_IDX) == 0,
{
    assert(x & !0x1u32 == 0 ==> (x & 0x2u32 == 0) && (x & (0x4u32 | 0xffff_0000u32) == 0))
        by (bit_vector);
}

/// A pass-ready tag has the excess flag clear and the bin field empty.
pub(crate) proof fn lemma_pass_ready_parts(x: u32)
    requires
        x & (TAG_EXCESS | TAG_BIN_IDX) == 0,
    ensures
        x & TAG_EXCESS == 0,
        x & TAG_BIN_IDX == 0,
{
    assert(x & (0x4u32 | 0xffff_0000u32) == 0 ==> (x & 0x4u32 == 0) && (x & 0xffff_0000u32 == 0))
        by (bit_vector);
}

/// A filler's tag: the filler flag plus the bin field set to `v`.
pub(crate) proof fn lemma_filler_tag(v: u32)
    requires
        v < 0x10000,
    ensures
        (TAG_FILLER | (v << 16u32)) & TAG_DUMMY == 0,
        (TAG_FILLER | (v << 16u32)) & TAG_FILLER != 0,
        (TAG_FILLER | (v << 16u32)) & TAG_EXCESS == 0,
        ((TAG_FILLER | (v << 16u32)) & TAG_BIN_IDX) >> 16u32 == v,
{
    assert(v < 0x10000 ==> ((0x2u32 | (v << 16u32)) & 0x1u32 == 0) && ((0x2u32 | (v << 16u32))
        & 0x2u32 != 0) && ((0x2u32 | (v << 16u32)) & 0x4u32 == 0) && (((0x2u32 | (v << 16u32))
        & 0xffff_0000u32) >> 16u32 == v)) by (bit_vector);
}

/// Comparing masked bin fields is comparing the bin indices they encode.
pub(crate) proof fn lemma_bin_field_mono(x: u32, y: u32)
    ensures
        (x & TAG_BIN_IDX) <= (y & TAG_BIN_IDX) <==> ((x & TAG_BIN_IDX) >> 16u32) <= ((y
            & TAG_BIN_IDX) >> 16u32),
{
    assert((x & 0xffff_0000u32) <= (y & 0xffff_0000u32) <==> ((x & 0xffff_0000u32) >> 16u32) <= ((y
        & 0xffff_0000u32) >> 16u32)) by (bit_vector);
}

/// The first sort's composite key orders records by bin index first.
pub(crate) proof fn lemma_group_key_bin_mono(x: u32, y: u32)
    ensures
        (x & (TAG_BIN_IDX | TAG_FILLER)) <= (y & (TAG_BIN_IDX | TAG_FILLER)) ==> ((x & TAG_BIN_IDX)
            >> 16u32) <= ((y & TAG_BIN_IDX) >> 16u32),
{
    assert((x & (0xffff_0000u32 | 0x2u32)) <= (y & (0xffff_0000u32 | 0x2u32)) ==> ((x
        & 0xffff_0000u32) >> 16u32) <= ((y & 0xffff_0000u32) >> 16u32)) by (bit_vector);
}

/// Within one bin, the first sort's composite key orders non-fillers
/// ahead of fillers.
pub(crate) proof fn lemma_group_key_filler_mono(x: u32, y: u32)
    ensures
        (x & (TAG_BIN_IDX | TAG_FILLER)) <= (y & (TAG_BIN_IDX | TAG_FILLER)) && ((x & TAG_BIN_IDX)
            >> 16u32) == ((y & TAG_BIN_IDX) >> 16u32) && (y & TAG_FILLER) == 0 ==> (x & TAG_FILLER)
            == 0,
{
    assert((x & (0xffff_0000u32 | 0x2u32)) <= (y & (0xffff_0000u32 | 0x2u32)) && ((x
        & 0xffff_0000u32) >> 16u32) == ((y & 0xffff_0000u32) >> 16u32) && (y & 0x2u32) == 0 ==> (x
        & 0x2u32) == 0) by (bit_vector);
}

/// Split a 16-bit integer into its little-endian bytes.
pub(crate) fn u16_le_bytes(v: u16) -> (r: [u8; 2])
    ensures
        r@ == crate::le_bytes16(v),
{
    let r = [(v % 256) as u8, (v / 256) as u8];
    proof {
        assert(r@ =~= crate::le_bytes16(v));
    }
    r
}

/// The key material of one pass: the domain-separation byte for the tier,
/// then the caller's secret.
pub(crate) fn domain_key(t: u8, prf_key: &[u8]) -> (r: Vec<u8>)
    ensures
        r@ == seq![t] + prf_key@,
{
    let mut r: Vec<u8> = Vec::new();
    r.push(t);
    let n = prf_key.len();
    let mut i: usize = 0;
    while i < n
        invariant
            i <= n,
            n == prf_key@.len(),
            r@ == seq![t] + prf_key@.take(i as int),
        decreases n - i,
    {
        proof {
            assert((seq![t] + prf_key@.take(i as int)).push(prf_key@[i as int]) =~= seq![t]
                + prf_key@.take(i + 1));
        }
        r.push(prf_key[i]);
        i = i + 1;
    }
    proof {
        assert(prf_key@.take(n as int) =~= prf_key@);
    }
    r
}

/// A record as it leaves bin assignment: the payload and the filler flag
/// are those of `e0`, the excess flag is clear, and the bin field names the
/// bin `e0`'s key hashes to.
pub(crate) open spec fn assigned_from(e: Elem, e0: Elem, pk: Seq<u8>, b: u16) -> bool {
    &&& e.key == e0.key
    &&& e.val == e0.val
    &&& e.tag & TAG_DUMMY == e0.tag & TAG_DUMMY
    &&& e.tag & TAG_FILLER == e0.tag & TAG_FILLER
    &&& !is_excess(e)
    &&& bin_of(e) == bin_index_of(pk, e0.key@, b)
    &&& bin_of(e) < b
}

/// Step 1 of a pass: write every record's bin index, derived from its key
/// under the pass key, into its tag.
pub(crate) fn assign_bins(bins: &mut Vec<Elem>, prf_key: &[u8], b: u16)
    requires
        b >= 1,
        forall|i: int| 0 <= i < old(bins)@.len() ==> pass_ready(old(bins)@[i]),
    ensures
        final(bins)@.len() == old(bins)@.len(),
        forall|i: int|
            0 <= i < old(bins)@.len() ==> assigned_from(
                final(bins)@[i],
                old(bins)@[i],
                prf_key@,
                b,
            ),
{
    let n = bins.len();
    let mut out: Vec<Elem> = Vec::new();
    let mut i: usize = 0;
    while i < n
        invariant
            i <= n,
            b >= 1,
            n == bins@.len(),
            out@.len() == i,
            forall|j: int| 0 <= j < n ==> pass_ready(bins@[j]),
            forall|j: int| 0 <= j < i ==> assigned_from(out@[j], bins@[j], prf_key@, b),
        decreases n - i,
    {
        let mut e = bins[i];
        let bin_idx = crate::crypto::prf_int(prf_key, e.key.as_slice(), b);
        proof {
            lemma_tag_field_shifts();
            lemma_pass_ready_parts(e.tag);
            lemma_set_bin_field(e.tag, bin_idx as u32);
        }
        e.tag = crate::tag::set_val_fit(e.tag, TAG_BIN_IDX, bin_idx as u32);
        out.push(e);
        i = i + 1;
    }
    *bins = out;
}

/// A filler for bin `v` under pass key `pk`: tagged filler, carrying bin
/// `v`, with a key derived from `v` by the keyed hash and an all-zero
/// value.
pub(crate) open spec fn filler_shaped(e: Elem, pk: Seq<u8>, v: int) -> bool {
    &&& e.tag == TAG_FILLER | ((v as u32) << 16u32)
    &&& e.key@ == prf_of(pk, crate::le_bytes16(v as u16))
    &&& forall|j: int| 0 <= j < VAL_SIZE ==> e.val@[j] == 0
}

/// Step 2 of a pass: append, for every bin, exactly `z` fillers carrying
/// that bin's index, so that no bin can come up short of records.
pub(crate) fn add_fillers(bins: &mut Vec<Elem>, prf_key: &[u8], b: u16, z: usize)
    requires
        z >= 1,
        old(bins)@.len() + (b as int) * (z as int) <= usize::MAX,
    ensures
        final(bins)@.len() == old(bins)@.len() + (b as int) * (z as int),
        forall|i: int| 0 <= i < old(bins)@.len() ==> final(bins)@[i] == old(bins)@[i],
        forall|v: int, t: int|
            0 <= v < b && old(bins)@.len() + v * (z as int) <= t < old(bins)@.len() + (v + 1) * (
            z as int) ==> filler_shaped(final(bins)@[t], prf_key@, v),
{
    let base = bins.len();
    let ghost zi = z as int;
    let mut bi: u16 = 0;
    while bi < b
        invariant
            bi <= b,
            z >= 1,
            zi == z as int,
            base == old(bins)@.len(),
            base + (b as int) * zi <= usize::MAX,
            bins@.len() == base + (bi as int) * zi,
            forall|i: int| 0 <= i < base ==> bins@[i] == old(bins)@[i],
            forall|v: int, t: int|
                0 <= v < bi && base + v * zi <= t < base + (v + 1) * zi ==> filler_shaped(
                    bins@[t],
                    prf_key@,
                    v,
                ),
        decreases b - bi,
    {
        proof {
            vstd::arithmetic::mul::lemma_mul_inequality(bi as int + 1, b as int, zi);
            vstd::arithmetic::mul::lemma_mul_is_distributive_add_other_way(zi, bi as int, 1);
        }
        let kb = u16_le_bytes(bi);
        let key = crate::crypto::prf(prf_key, kb.as_slice());
        proof {
            lemma_tag_field_shifts();
        }
        let tagv = crate::tag::set_val_fit(crate::tag::init() | TAG_FILLER, TAG_BIN_IDX, bi as u32);
        let filler = Elem { key, val: [0; VAL_SIZE], tag: tagv };
        proof {
            assert(0u32 | TAG_FILLER == TAG_FILLER) by (bit_vector);
            assert(filler.tag == TAG_FILLER | ((bi as u32) << 16u32));
            assert(filler.key@ == prf_of(prf_key@, crate::le_bytes16(bi)));
            assert(forall|j: int| 0 <= j < VAL_SIZE ==> filler.val@[j] == 0);
            assert(filler_shaped(filler, prf_key@, bi as int));
        }
        let mut k: usize = 0;
        while k < z
            invariant
                k <= z,
                zi == z as int,
                bi < b,
                base + (b as int) * zi <= usize::MAX,
                (bi as int + 1) * zi <= (b as int) * zi,
                bins@.len() == base + (bi as int) * zi + k,
                filler_shaped(filler, prf_key@, bi as int),
                forall|i: int| 0 <= i < base ==> bins@[i] == old(bins)@[i],
                forall|v: int, t: int|
                    0 <= v < bi && base + v * zi <= t < base + (v + 1) * zi ==> filler_shaped(
                        bins@[t],
                        prf_key@,
                        v,
                    ),
                forall|t: int|
                    base + (bi as int) * zi <= t < base + (bi as int) * zi + k ==> bins@[t]
                        == filler,
                base == old(bins)@.len(),
            decreases z - k,
        {
            proof {
                vstd::arithmetic::mul::lemma_mul_is_distributive_add_other_way(zi, bi as int, 1);
            }
            bins.push(filler);
            k = k + 1;
            proof {
                assert forall|v: int, t: int|
                    0 <= v < bi && base + v * zi <= t < base + (v + 1) * zi implies filler_shaped(
                    bins@[t],
                    prf_key@,
                    v,
                ) by {
                    vstd::arithmetic::mul::lemma_mul_inequality(v + 1, bi as int, zi);
                }
            }
        }
        proof {
            vstd::arithmetic::mul::lemma_mul_is_distributive_add_other_way(zi, bi as int, 1);
            assert forall|v: int, t: int|
                0 <= v < bi + 1 && base + v * zi <= t < base + (v + 1) * zi implies filler_shaped(
                bins@[t],
                prf_key@,
                v,
            ) by {
                vstd::arithmetic::mul::lemma_mul_is_distributive_add_other_way(zi, v, 1);
                vstd::arithmetic::mul::lemma_mul_inequality(v + 1, bi as int + 1, zi);
                if v == bi as int {
                    assert(bins@[t] == filler);
                }
            }
        }
        bi = bi + 1;
    }
}

/// Between the two passes: clear every record's excess flag and bin field,
/// so the overflow pile is eligible for a fresh bin assignment.
pub(crate) fn clear_marks(bins: &mut Vec<Elem>)
    ensures
        final(bins)@.len() == old(bins)@.len(),
        forall|i: int|
            0 <= i < old(bins)@.len() ==> {
                let e0 = #[trigger] old(bins)@[i];
                let e = final(bins)@[i];
                &&& e.key == e0.key
                &&& e.val == e0.val
                &&& e.tag & TAG_DUMMY == e0.tag & TAG_DUMMY
                &&& e.tag & TAG_FILLER == e0.tag & TAG_FILLER
                &&& crate::pass_ready(e)
            },
{
    let n = bins.len();
    let mut out: Vec<Elem> = Vec::new();
    let mut i: usize = 0;
    while i < n
        invariant
            i <= n,
            n == bins@.len(),
            out@.len() == i,
            forall|j: int|
                0 <= j < i ==> {
                    let e0 = #[trigger] bins@[j];
                    let e = out@[j];
                    &&& e.key == e0.key
                    &&& e.val == e0.val
                    &&& e.tag & TAG_DUMMY == e0.tag & TAG_DUMMY
                    &&& e.tag & TAG_FILLER == e0.tag & TAG_FILLER
                    &&& crate::pass_ready(e)
                },
        decreases n - i,
    {
        let mut e = bins[i];
        proof {
            lemma_clear_for_pass(e.tag);
        }
        e.tag = crate::tag::unset(e.tag, TAG_EXCESS | TAG_BIN_IDX);
        out.push(e);
        i = i + 1;
    }
    *bins = out;
}

/// Selects the records of bin `v`.
pub(crate) open spec fn bin_fn(v: int) -> spec_fn(Elem) -> bool {
    |e: Elem| bin_of(e) as int == v
}

/// Selects the surviving (non-excess) records of bin `v`.
pub(crate) open spec fn clean_bin_fn(v: int) -> spec_fn(Elem) -> bool {
    |e: Elem| !is_excess(e) && bin_of(e) as int == v
}

/// Selects the surviving (non-excess) records.
pub(crate) open spec fn clean_fn() -> spec_fn(Elem) -> bool {
    |e: Elem| !is_excess(e)
}

/// Selects the surviving non-filler records of bin `v`.
pub(crate) open spec fn clean_nf_bin_fn(v: int) -> spec_fn(Elem) -> bool {
    |e: Elem| !is_excess(e) && !is_filler(e) && bin_of(e) as int == v
}

/// A record as it leaves excess marking: everything but the excess flag is
/// that of `e0`.
pub(crate) open spec fn marked_from(e: Elem, e0: Elem) -> bool {
    &&& e.key == e0.key
    &&& e.val == e0.val
    &&& e.tag & TAG_DUMMY == e0.tag & TAG_DUMMY
    &&& e.tag & TAG_FILLER == e0.tag & TAG_FILLER
    &&& e.tag & TAG_BIN_IDX == e0.tag & TAG_BIN_IDX
}

/// Step 4 of a pass: one linear scan over the bin-grouped buffer keeps a
/// per-bin occupancy count through branch-free selects and marks every
/// record beyond its bin's first `z` as excess. Returns whether any
/// non-filler record was marked.
///
/// The scan's counter resets when the current record's bin differs from the
/// previous one's, which counts correctly because the buffer is grouped by
/// bin on entry. Afterwards every bin keeps exactly the first `z` of its
/// records: a bin with `c` records has `c` survivors when `c <= z` and
/// exactly `z` otherwise — and because each bin holds its non-fillers ahead
/// of its fillers, the survivors of a bin with `c_r` non-filler records
/// include exactly `min(c_r, z)` of them.
pub(crate) fn mark_excess(bins: &mut Vec<Elem>, z: usize) -> (excess_left: bool)
    requires
        1 <= z <= u32::MAX,
        old(bins)@.len() <= u32::MAX,
        forall|i: int, j: int|
            0 <= i < j < old(bins)@.len() ==> bin_of(old(bins)@[i]) <= bin_of(old(bins)@[j]),
        forall|i: int, j: int|
            0 <= i < j < old(bins)@.len() && bin_of(old(bins)@[i]) == bin_of(old(bins)@[j])
                && !is_filler(old(bins)@[j]) ==> !is_filler(old(bins)@[i]),
        forall|i: int| 0 <= i < old(bins)@.len() ==> !is_excess(old(bins)@[i]),
    ensures
        final(bins)@.len() == old(bins)@.len(),
        forall|i: int|
            0 <= i < old(bins)@.len() ==> marked_from(final(bins)@[i], old(bins)@[i]),
        forall|v: int|
            cnt(final(bins)@, clean_bin_fn(v)) == if cnt(old(bins)@, bin_fn(v)) <= z as int {
                cnt(old(bins)@, bin_fn(v))
            } else {
                z as int
            },
        forall|v: int|
            cnt(final(bins)@, clean_nf_bin_fn(v)) == if cnt(old(bins)@, crate::stored_bin_fn(v))
                <= z as int {
                cnt(old(bins)@, crate::stored_bin_fn(v))
            } else {
                z as int
            },
        forall|v: int| cnt(final(bins)@, bin_fn(v)) == cnt(old(bins)@, bin_fn(v)),
        excess_left == (cnt(final(bins)@, crate::exc_nf_fn()) > 0),
{
    let n = bins.len();
    let mut out: Vec<Elem> = Vec::new();
    let mut bin_elem_num: u32 = 0;
    let mut last_bin_idx: u32 = 0;
    let mut excess_left = false;
    let mut i: usize = 0;
    while i < n
        invariant
            i <= n,
            n == bins@.len(),
            out@.len() == i,
            1 <= z <= u32::MAX,
            n <= u32::MAX,
            forall|p: int, q: int| 0 <= p < q < n ==> bin_of(bins@[p]) <= bin_of(bins@[q]),
            forall|p: int, q: int|
                0 <= p < q < n && bin_of(bins@[p]) == bin_of(bins@[q]) && !is_filler(bins@[q])
                    ==> !is_filler(bins@[p]),
            forall|p: int| 0 <= p < n ==> !is_excess(bins@[p]),
            forall|j: int| 0 <= j < i ==> marked_from(out@[j], bins@[j]),
            bin_elem_num as int == cnt(bins@.take(i as int), bin_fn(last_bin_idx as int)),
            i > 0 ==> last_bin_idx == bin_of(bins@[i - 1]),
            i == 0 ==> last_bin_idx == 0 && bin_elem_num == 0,
            forall|v: int|
                cnt(out@, clean_bin_fn(v)) == if cnt(bins@.take(i as int), bin_fn(v)) <= z as int {
                    cnt(bins@.take(i as int), bin_fn(v))
                } else {
                    z as int
                },
            forall|v: int|
                cnt(out@, clean_nf_bin_fn(v)) == if cnt(
                    bins@.take(i as int),
                    crate::stored_bin_fn(v),
                ) <= z as int {
                    cnt(bins@.take(i as int), crate::stored_bin_fn(v))
                } else {
                    z as int
                },
            forall|v: int| cnt(out@, bin_fn(v)) == cnt(bins@.take(i as int), bin_fn(v)),
            excess_left == (cnt(out@, crate::exc_nf_fn()) > 0),
        decreases n - i,
    {
        let mut e = bins[i];
        proof {
            lemma_tag_field_shifts();
            lemma_cnt_bounds(bins@.take(i as int), bin_fn(last_bin_idx as int));
        }
        let bin_idx = crate::tag::get(e.tag, TAG_BIN_IDX);
        let ghost bv = bin_idx as int;
        proof {
            assert(bin_idx == bin_of(e));
            if last_bin_idx != bin_idx {
                // A new bin begins: no earlier record is in it, because the
                // buffer is grouped by bin.
                assert(forall|p: int|
                    0 <= p < i ==> bin_of(#[trigger] bins@[p]) <= bin_of(bins@[i - 1]));
                lemma_cnt_none(bins@.take(i as int), bin_fn(bv));
            }
            lemma_cnt_take_step(bins@, bin_fn(bv), i as int);
        }
        let eq = oeq(last_bin_idx, bin_idx);
        bin_elem_num = ochoose_u32(eq, bin_elem_num + 1, 1);
        last_bin_idx = bin_idx;
        let over = ogt(bin_elem_num, z as u32);
        let new_tag = ochoose_u32(over, e.tag | TAG_EXCESS, e.tag);
        proof {
            lemma_set_excess(e.tag);
            assert(bin_elem_num as int == cnt(bins@.take(i + 1), bin_fn(bv)));
        }
        e.tag = new_tag;
        proof {
            assert(is_excess(e) == over);
            assert(marked_from(e, bins@[i as int]));
            assert(bin_of(e) as int == bv);
            assert forall|v: int|
                cnt(out@.push(e), clean_bin_fn(v)) == if cnt(bins@.take(i + 1), bin_fn(v))
                    <= z as int {
                    cnt(bins@.take(i + 1), bin_fn(v))
                } else {
                    z as int
                } && cnt(out@.push(e), bin_fn(v)) == cnt(bins@.take(i + 1), bin_fn(v)) by {
                lemma_cnt_push(out@, clean_bin_fn(v), e);
                lemma_cnt_push(out@, bin_fn(v), e);
                lemma_cnt_take_step(bins@, bin_fn(v), i as int);
            }
            assert forall|v: int|
                cnt(out@.push(e), clean_nf_bin_fn(v)) == if cnt(
                    bins@.take(i + 1),
                    crate::stored_bin_fn(v),
                ) <= z as int {
                    cnt(bins@.take(i + 1), crate::stored_bin_fn(v))
                } else {
                    z as int
                } by {
                lemma_cnt_push(out@, clean_nf_bin_fn(v), e);
                lemma_cnt_take_step(bins@, crate::stored_bin_fn(v), i as int);
                lemma_cnt_bounds(bins@.take(i as int), crate::stored_bin_fn(v));
                if v == bv && !is_filler(e) {
                    // every record of this bin seen so far is a non-filler,
                    // because fillers sort to the back of their bin: the
                    // occupancy counter therefore counts the non-fillers
                    assert forall|p: int| 0 <= p < i + 1 implies bin_fn(bv)(
                        #[trigger] bins@.take(i + 1)[p],
                    ) == crate::stored_bin_fn(bv)(bins@.take(i + 1)[p]) by {
                        assert(bins@.take(i + 1)[p] == bins@[p]);
                        if p < i && bin_of(bins@[p]) as int == bv {
                            assert(!is_filler(bins@[i as int]));
                            assert(!is_filler(bins@[p]));
                        }
                    }
                    lemma_cnt_eq_pred(bins@.take(i + 1), bin_fn(bv), crate::stored_bin_fn(bv));
                    lemma_cnt_eq_pred(bins@.take(i as int), bin_fn(bv), crate::stored_bin_fn(bv));
                }
            }
            lemma_cnt_push(out@, crate::exc_nf_fn(), e);
        }
        let e_nf = crate::tag::check_not(e.tag, TAG_FILLER);
        excess_left = ochoose_bool(over, ochoose_bool(e_nf, true, excess_left), excess_left);
        proof {
            lemma_cnt_bounds(out@, crate::exc_nf_fn());
            assert(crate::exc_nf_fn()(e) == (over && e_nf));
            assert(excess_left == (cnt(out@.push(e), crate::exc_nf_fn()) > 0));
        }
        out.push(e);
        i = i + 1;
    }
    proof {
        assert(bins@.take(n as int) =~= bins@);
    }
    *bins = out;
    excess_left
}

/// Selects the records of bins below `v` that survived marking.
pub(crate) open spec fn clean_lt_fn(v: int) -> spec_fn(Elem) -> bool {
    |e: Elem| !is_excess(e) && (bin_of(e) as int) < v
}

/// Selects records whose bin index is in range for `b` bins.
pub(crate) open spec fn binlt_fn(b: u16) -> spec_fn(Elem) -> bool {
    |e: Elem| bin_of(e) < b
}

/// Holds of a record that, unless it is a filler, sits in the bin its key
/// hashes to under `pk`.
pub(crate) open spec fn keyed_fn(pk: Seq<u8>, b: u16) -> spec_fn(Elem) -> bool {
    |e: Elem| !is_filler(e) ==> bin_of(e) == bin_index_of(pk, e.key@, b)
}

/// Selects surviving non-filler records.
pub(crate) open spec fn clean_nf_fn() -> spec_fn(Elem) -> bool {
    |e: Elem| !is_excess(e) && !is_filler(e)
}

/// Selects non-filler records whose key hashes to a bin below `v`.
pub(crate) open spec fn hashes_lt_fn(pk: Seq<u8>, b: u16, v: int) -> spec_fn(Elem) -> bool {
    |e: Elem| !is_filler(e) && (bin_index_of(pk, e.key@, b) as int) < v
}

/// Holds of a record that, unless it is a filler, is a filler of the
/// buffer's own input (same key, value, and dummy flag as some input
/// filler) or carries this pass's filler payload.
pub(crate) open spec fn filler_src_fn(pk: Seq<u8>, s0: Seq<Elem>) -> spec_fn(Elem) -> bool {
    |e: Elem|
        is_filler(e) ==> crate::filler_payload(e, pk) || crate::inherited_filler(e, s0)
}

/// Records hashing below `v` are those hashing below `v - 1` plus those
/// hashing to `v - 1`.
pub(crate) proof fn lemma_hashes_split(s: Seq<Elem>, pk: Seq<u8>, b: u16, v: int)
    ensures
        cnt(s, hashes_lt_fn(pk, b, v)) == cnt(s, hashes_lt_fn(pk, b, v - 1)) + cnt(
            s,
            crate::hashes_to_fn(pk, b, v - 1),
        ),
    decreases s.len(),
{
    if s.len() > 0 {
        lemma_hashes_split(s.drop_last(), pk, b, v);
    }
}

/// When no bin below `w` attracts any record, no record hashes below `w`.
pub(crate) proof fn lemma_hashes_prefix_zero(s: Seq<Elem>, pk: Seq<u8>, b: u16, w: int)
    requires
        0 <= w,
        forall|v: int| 0 <= v < w ==> cnt(s, crate::hashes_to_fn(pk, b, v)) == 0,
    ensures
        cnt(s, hashes_lt_fn(pk, b, w)) == 0,
    decreases w,
{
    if w == 0 {
        lemma_cnt_none(s, hashes_lt_fn(pk, b, 0));
    } else {
        lemma_hashes_prefix_zero(s, pk, b, w - 1);
        lemma_hashes_split(s, pk, b, w);
    }
}

/// Non-filler records split into survivors and overflow.
pub(crate) proof fn lemma_nf_split(s: Seq<Elem>)
    ensures
        cnt(s, crate::nf_fn()) == cnt(s, clean_nf_fn()) + cnt(s, crate::exc_nf_fn()),
    decreases s.len(),
{
    if s.len() > 0 {
        lemma_nf_split(s.drop_last());
    }
}

/// Survivors of bins below `v` are the survivors of bins below `v - 1`
/// plus the survivors of bin `v - 1`.
pub(crate) proof fn lemma_clean_split(s: Seq<Elem>, v: int)
    ensures
        cnt(s, clean_lt_fn(v)) == cnt(s, clean_lt_fn(v - 1)) + cnt(s, clean_bin_fn(v - 1)),
    decreases s.len(),
{
    if s.len() > 0 {
        lemma_clean_split(s.drop_last(), v);
    }
}

/// When every bin below `v` keeps exactly `z` survivors, the bins below
/// `v` keep `v * z` survivors in all.
pub(crate) proof fn lemma_clean_prefix_total(s: Seq<Elem>, z: int, v: int)
    requires
        v >= 0,
        forall|w: int| 0 <= w < v ==> cnt(s, clean_bin_fn(w)) == z,
    ensures
        cnt(s, clean_lt_fn(v)) == v * z,
    decreases v,
{
    if v == 0 {
        lemma_cnt_none(s, clean_lt_fn(0));
    } else {
        lemma_clean_prefix_total(s, z, v - 1);
        lemma_clean_split(s, v);
        assert((v - 1) * z + z == v * z) by (nonlinear_arith);
    }
}

/// The rank the second sort assigns to a record: survivors rank by their
/// bin field and stay below 2^32; overflowed records rank at 2^32 or
/// above.
pub(crate) proof fn lemma_rank_form(e: Elem)
    ensures
        !is_excess(e) ==> crate::obl::rank(crate::obl::SortOrder::ExcessSplit, e) == (e.tag
            & TAG_BIN_IDX) as int,
        !is_excess(e) ==> crate::obl::rank(crate::obl::SortOrder::ExcessSplit, e) < 0x1_0000_0000,
        is_excess(e) ==> crate::obl::rank(crate::obl::SortOrder::ExcessSplit, e) >= 0x1_0000_0000,
{
}

/// In a buffer sorted by the second sort's rank, the records of the class
/// "surviving, in a bin below `v`" form a prefix.
pub(crate) proof fn lemma_clean_lt_prefix(s: Seq<Elem>, v: int)
    requires
        crate::obl::sorted_by_rank(crate::obl::SortOrder::ExcessSplit, s),
    ensures
        forall|i: int|
            0 <= i < s.len() ==> (clean_lt_fn(v)(s[i]) <==> i < cnt(s, clean_lt_fn(v))),
{
    assert forall|i: int, j: int|
        0 <= i < j < s.len() && clean_lt_fn(v)(#[trigger] s[j]) implies clean_lt_fn(v)(
        #[trigger] s[i],
    ) by {
        lemma_rank_form(s[j]);
        lemma_rank_form(s[i]);
        lemma_bin_field_mono(s[i].tag, s[j].tag);
    }
    lemma_cnt_prefix(s, clean_lt_fn(v));
}

/// As [`lemma_clean_lt_prefix`], for the class of all survivors.
pub(crate) proof fn lemma_clean_prefix(s: Seq<Elem>)
    requires
        crate::obl::sorted_by_rank(crate::obl::SortOrder::ExcessSplit, s),
    ensures
        forall|i: int| 0 <= i < s.len() ==> (clean_fn()(s[i]) <==> i < cnt(s, clean_fn())),
{
    assert forall|i: int, j: int|
        0 <= i < j < s.len() && clean_fn()(#[trigger] s[j]) implies clean_fn()(#[trigger] s[i]) by {
        lemma_rank_form(s[j]);
        lemma_rank_form(s[i]);
    }
    lemma_cnt_prefix(s, clean_fn());
}

/// The shape of a marked buffer after the second sort: the first `b * z`
/// slots hold exactly the survivors, bin by bin in slot order, and
/// everything after them is overflow.
pub(crate) proof fn lemma_split_structure(s: Seq<Elem>, b: u16, z: usize)
    requires
        b >= 1,
        z >= 1,
        crate::obl::sorted_by_rank(crate::obl::SortOrder::ExcessSplit, s),
        forall|i: int| 0 <= i < s.len() ==> bin_of(s[i]) < b,
        forall|w: int| 0 <= w < b ==> cnt(s, clean_bin_fn(w)) == z as int,
        (b as int) * (z as int) <= s.len(),
    ensures
        forall|i: int| 0 <= i < (b as int) * (z as int) ==> !is_excess(s[i]),
        forall|i: int| (b as int) * (z as int) <= i < s.len() ==> is_excess(s[i]),
        forall|i: int|
            0 <= i < (b as int) * (z as int) ==> bin_of(s[i]) as int == i / (z as int),
{
    let zi = z as int;
    let bz = (b as int) * zi;
    lemma_clean_prefix_total(s, zi, b as int);
    lemma_cnt_eq_pred(s, clean_lt_fn(b as int), clean_fn());
    assert(cnt(s, clean_fn()) == bz);
    lemma_clean_prefix(s);
    assert forall|i: int| 0 <= i < bz implies !is_excess(s[i]) by {
        assert(clean_fn()(s[i]));
    }
    assert forall|i: int| bz <= i < s.len() implies is_excess(s[i]) by {
        assert(!clean_fn()(s[i]));
    }
    assert forall|i: int| 0 <= i < bz implies bin_of(s[i]) as int == i / zi by {
        let v = i / zi;
        vstd::arithmetic::div_mod::lemma_fundamental_div_mod(i, zi);
        vstd::arithmetic::div_mod::lemma_mod_bound(i, zi);
        vstd::arithmetic::mul::lemma_mul_is_commutative(zi, v);
        if v < 0 {
            vstd::arithmetic::mul::lemma_mul_inequality(v, -1, zi);
            assert(false);
        }
        if v >= b {
            vstd::arithmetic::mul::lemma_mul_inequality(b as int, v, zi);
            assert(false);
        }
        // i < (v + 1) * z survivors lie in bins up to v
        lemma_clean_prefix_total(s, zi, v + 1);
        lemma_clean_lt_prefix(s, v + 1);
        vstd::arithmetic::mul::lemma_mul_is_distributive_add_other_way(zi, v, 1);
        assert(i < (v + 1) * zi);
        assert(clean_lt_fn(v + 1)(s[i]));
        // and past the first v * z of them the bin is at least v
        if v > 0 {
            lemma_clean_prefix_total(s, zi, v);
            lemma_clean_lt_prefix(s, v);
            assert(i >= v * zi);
            assert(!clean_lt_fn(v)(s[i]));
        }
    }
}

/// Each bin's fillers, appended as `z`-sized blocks, give every bin index
/// below `b` exactly `z` filler records.
pub(crate) proof fn lemma_fillers_cnt(fill: Seq<Elem>, pk: Seq<u8>, b: u16, z: usize, v: int)
    requires
        z >= 1,
        fill.len() == (b as int) * (z as int),
        forall|w: int, t: int|
            0 <= w < b && w * (z as int) <= t < (w + 1) * (z as int) ==> #[trigger] filler_shaped(
                fill[t],
                pk,
                w,
            ),
        0 <= v < b,
    ensures
        cnt(fill, bin_fn(v)) == z as int,
        forall|t: int| 0 <= t < fill.len() ==> is_filler(#[trigger] fill[t]),
        forall|t: int| 0 <= t < fill.len() ==> !is_dummy(#[trigger] fill[t]),
        forall|t: int| 0 <= t < fill.len() ==> !is_excess(#[trigger] fill[t]),
        forall|t: int| 0 <= t < fill.len() ==> bin_of(#[trigger] fill[t]) < b,
        forall|t: int| 0 <= t < fill.len() ==> crate::filler_payload(#[trigger] fill[t], pk),
{
    let zi = z as int;
    assert forall|t: int| 0 <= t < fill.len() implies {
        let w = t / zi;
        &&& 0 <= w < b
        &&& filler_shaped(fill[t], pk, w)
        &&& bin_of(#[trigger] fill[t]) as int == w
        &&& is_filler(fill[t])
        &&& !is_dummy(fill[t])
        &&& !is_excess(fill[t])
        &&& crate::filler_payload(fill[t], pk)
    } by {
        let w = t / zi;
        vstd::arithmetic::div_mod::lemma_fundamental_div_mod(t, zi);
        vstd::arithmetic::div_mod::lemma_mod_bound(t, zi);
        vstd::arithmetic::mul::lemma_mul_is_commutative(zi, w);
        if w < 0 {
            vstd::arithmetic::mul::lemma_mul_inequality(w, -1, zi);
            assert(false);
        }
        if w >= b {
            vstd::arithmetic::mul::lemma_mul_inequality(b as int, w, zi);
            assert(false);
        }
        vstd::arithmetic::mul::lemma_mul_is_distributive_add_other_way(zi, w, 1);
        assert(filler_shaped(fill[t], pk, w));
        lemma_filler_tag(w as u32);
        lemma_tag_field_shifts();
    }
    assert forall|t: int| 0 <= t < fill.len() implies (bin_fn(v)(#[trigger] fill[t]) <==> v * zi
        <= t < (v + 1) * zi) by {
        let w = t / zi;
        vstd::arithmetic::div_mod::lemma_fundamental_div_mod(t, zi);
        vstd::arithmetic::div_mod::lemma_mod_bound(t, zi);
        vstd::arithmetic::mul::lemma_mul_is_commutative(zi, w);
        vstd::arithmetic::mul::lemma_mul_is_distributive_add_other_way(zi, w, 1);
        vstd::arithmetic::mul::lemma_mul_is_distributive_add_other_way(zi, v, 1);
        if w != v {
            if w < v {
                vstd::arithmetic::mul::lemma_mul_inequality(w + 1, v, zi);
            } else {
                vstd::arithmetic::mul::lemma_mul_inequality(v + 1, w, zi);
            }
        }
    }
    vstd::arithmetic::mul::lemma_mul_is_distributive_add_other_way(zi, v, 1);
    vstd::arithmetic::mul::lemma_mul_inequality(v + 1, b as int, zi);
    lemma_cnt_window(fill, bin_fn(v), v * zi, (v + 1) * zi);
}

} // verus!
