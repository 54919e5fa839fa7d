//! Record type, branch-free primitives, and the sorting primitive.
//!
//! The build and lookup algorithms never branch on values derived from keys,
//! flags, or occupancy counters themselves: every comparison and every
//! conditional update they make goes through the select and compare
//! primitives in this module, which compute their results by whole-word mask
//! arithmetic — both operands of a selection are always read, and no `if`
//! inspects a secret-derived value. The one exception is [`osort`]: the
//! algorithms depend on it only through its functional contract, and the
//! merge sort implementing it here does branch on comparisons internally.

use crate::tag::{TAG_BIN_IDX, TAG_DUMMY, TAG_EXCESS, TAG_FILLER};
use vstd::prelude::*;
use vstd::seq_lib::group_to_multiset_ensures;
use vstd::seq_lib::lemma_multiset_commutative;

verus! {

/// Width of a record key in bytes.
pub const KEY_SIZE: usize = 32;

/// Width of a record value in bytes.
pub const VAL_SIZE: usize = 256;

/// The unit of storage: a fixed-width key, a fixed-width value, and a
/// packed metadata tag (see [`crate::tag`]).
#[derive(Clone, Copy, Debug)]
pub struct Elem {
    pub key: [u8; KEY_SIZE],
    pub val: [u8; VAL_SIZE],
    pub tag: u32,
}

/// The record is a caller-supplied placeholder that no lookup may return.
pub open spec fn is_dummy(e: Elem) -> bool {
    e.tag & TAG_DUMMY != 0
}

/// The record is synthetic padding injected by the build pipeline.
pub open spec fn is_filler(e: Elem) -> bool {
    e.tag & TAG_FILLER != 0
}

/// The record overflowed its bin's capacity in the current pass.
pub open spec fn is_excess(e: Elem) -> bool {
    e.tag & TAG_EXCESS != 0
}

/// The bin index stored in the record's tag.
pub open spec fn bin_of(e: Elem) -> u32 {
    (e.tag & TAG_BIN_IDX) >> 16u32
}

/// Branch-free select on bytes: `a` when `pred`, else `b`.
pub fn ochoose_u8(pred: bool, a: u8, b: u8) -> (r: u8)
    ensures
        r == if pred {
            a
        } else {
            b
        },
{
    let m: u8 = (pred as u8) * 0xff;
    proof {
        assert(((a & 0xffu8) | (b & !0xffu8)) == a) by (bit_vector);
        assert(((a & 0u8) | (b & !0u8)) == b) by (bit_vector);
    }
    (a & m) | (b & !m)
}

/// Branch-free select on 32-bit words: `a` when `pred`, else `b`.
pub fn ochoose_u32(pred: bool, a: u32, b: u32) -> (r: u32)
    ensures
        r == if pred {
            a
        } else {
            b
        },
{
    let m: u32 = (pred as u32) * 0xffff_ffff;
    proof {
        assert(((a & 0xffff_ffffu32) | (b & !0xffff_ffffu32)) == a) by (bit_vector);
        assert(((a & 0u32) | (b & !0u32)) == b) by (bit_vector);
    }
    (a & m) | (b & !m)
}

/// Branch-free select on booleans: `a` when `pred`, else `b`.
pub fn ochoose_bool(pred: bool, a: bool, b: bool) -> (r: bool)
    ensures
        r == if pred {
            a
        } else {
            b
        },
{
    ochoose_u32(pred, a as u32, b as u32) == 1
}

/// Branch-free select on whole values: `a` when `pred`, else `b`.
/// Every byte of both operands is read whatever `pred` is.
pub fn ochoose_val(pred: bool, a: [u8; VAL_SIZE], b: [u8; VAL_SIZE]) -> (r: [u8; VAL_SIZE])
    ensures
        r@ == if pred {
            a@
        } else {
            b@
        },
{
    let mut out: [u8; VAL_SIZE] = [0; VAL_SIZE];
    let mut i: usize = 0;
    while i < VAL_SIZE
        invariant
            i <= VAL_SIZE,
            forall|j: int|
                0 <= j < i ==> out@[j] == if pred {
                    a@[j]
                } else {
                    b@[j]
                },
        decreases VAL_SIZE - i,
    {
        out[i] = ochoose_u8(pred, a[i], b[i]);
        i = i + 1;
    }
    proof {
        if pred {
            assert(out@ =~= a@);
        } else {
            assert(out@ =~= b@);
        }
    }
    out
}

/// Branch-free strict less-than on 32-bit words: the comparison is decided
/// by the sign bit of a wrapping difference.
pub fn olt(a: u32, b: u32) -> (r: bool)
    ensures
        r == (a < b),
{
    let t: u64 = (a as u64).wrapping_sub(b as u64);
    t >= 0x8000_0000_0000_0000
}

/// Branch-free strict greater-than on 32-bit words.
pub fn ogt(a: u32, b: u32) -> (r: bool)
    ensures
        r == (a > b),
{
    olt(b, a)
}

/// Branch-free equality on 32-bit words.
pub fn oeq(a: u32, b: u32) -> (r: bool)
    ensures
        r == (a == b),
{
    let x: u32 = a ^ b;
    proof {
        assert(a ^ b == 0 <==> a == b) by (bit_vector);
    }
    let t: u64 = (x as u64).wrapping_sub(1);
    t >= 0x8000_0000_0000_0000
}

/// Branch-free equality on whole keys: every byte of both keys is read, and
/// the accumulated difference decides the result only after the scan.
pub fn oeq_key(a: [u8; KEY_SIZE], b: [u8; KEY_SIZE]) -> (r: bool)
    ensures
        r == (a@ == b@),
{
    let mut acc: u32 = 0;
    let mut i: usize = 0;
    while i < KEY_SIZE
        invariant
            i <= KEY_SIZE,
            acc == 0 <==> (forall|j: int| 0 <= j < i ==> a@[j] == b@[j]),
        decreases KEY_SIZE - i,
    {
        let d: u32 = (a[i] ^ b[i]) as u32;
        proof {
            let x = a@[i as int];
            let y = b@[i as int];
            assert(x ^ y == 0 <==> x == y) by (bit_vector);
            let acc0 = acc;
            let d0 = d;
            assert((acc0 | d0) == 0 <==> acc0 == 0 && d0 == 0) by (bit_vector);
        }
        acc = acc | d;
        i = i + 1;
    }
    proof {
        if acc == 0 {
            assert(a@ =~= b@);
        } else {
            assert(a@ != b@) by {
                if a@ == b@ {
                    assert(forall|j: int| 0 <= j < KEY_SIZE ==> a@[j] == b@[j]);
                }
            }
        }
    }
    oeq(acc, 0)
}

/// The orderings that [`osort`] can sort by.
#[derive(Clone, Copy, Debug)]
pub enum SortOrder {
    /// Group records by destination bin; within a bin, real and dummy
    /// records come before fillers.
    BinGroup,
    /// Group survivors ahead of overflow: records are ordered by the
    /// excess flag first; surviving records are then ordered by bin,
    /// overflowed ones with real and dummy records ahead of fillers.
    ExcessSplit,
    /// Order records by their whole key, read as a big-endian number.
    WholeKey,
}

/// A key read as a big-endian number.
pub open spec fn be_key_nat(s: Seq<u8>) -> int
    decreases s.len(),
{
    if s.len() == 0 {
        0
    } else {
        be_key_nat(s.drop_last()) * 256 + s.last()
    }
}

/// The secondary key of the second build sort: bin index for survivors,
/// the filler flag for overflowed records.
pub open spec fn split_sel(e: Elem) -> u32 {
    if is_excess(e) {
        e.tag & TAG_FILLER
    } else {
        e.tag & TAG_BIN_IDX
    }
}

/// The numeric rank an ordering assigns to a record; [`osort`] sorts by it.
pub open spec fn rank(o: SortOrder, e: Elem) -> int {
    match o {
        SortOrder::BinGroup => (e.tag & (TAG_BIN_IDX | TAG_FILLER)) as int,
        SortOrder::ExcessSplit => (if is_excess(e) {
            0x1_0000_0000int
        } else {
            0int
        }) + split_sel(e),
        SortOrder::WholeKey => be_key_nat(e.key@),
    }
}

/// The sequence is nondecreasing in the ordering's rank.
pub open spec fn sorted_by_rank(o: SortOrder, s: Seq<Elem>) -> bool {
    forall|i: int, j: int| 0 <= i < j < s.len() ==> rank(o, s[i]) <= rank(o, s[j])
}

/// Extending a prefix by one byte shifts its big-endian value up by one
/// radix place.
pub proof fn lemma_be_take_step(s: Seq<u8>, i: int)
    requires
        0 <= i < s.len(),
    ensures
        be_key_nat(s.take(i + 1)) == be_key_nat(s.take(i)) * 256 + s[i],
{
    assert(s.take(i + 1) =~= s.take(i).push(s[i]));
    assert(s.take(i).push(s[i]).drop_last() =~= s.take(i));
}

/// Branch-free strict less-than on whole keys, by their big-endian value.
/// Every byte of both keys is read whatever the outcome.
pub fn okey_lt(a: &[u8; KEY_SIZE], b: &[u8; KEY_SIZE]) -> (r: bool)
    ensures
        r == (be_key_nat(a@) < be_key_nat(b@)),
{
    let mut lt = false;
    let mut gt = false;
    let mut i: usize = 0;
    while i < KEY_SIZE
        invariant
            i <= KEY_SIZE,
            lt == (be_key_nat(a@.take(i as int)) < be_key_nat(b@.take(i as int))),
            gt == (be_key_nat(a@.take(i as int)) > be_key_nat(b@.take(i as int))),
        decreases KEY_SIZE - i,
    {
        let x = a[i];
        let y = b[i];
        let d_lt = olt(x as u32, y as u32);
        let d_gt = olt(y as u32, x as u32);
        let undecided = ochoose_bool(lt, false, ochoose_bool(gt, false, true));
        proof {
            lemma_be_take_step(a@, i as int);
            lemma_be_take_step(b@, i as int);
        }
        lt = ochoose_bool(undecided, d_lt, lt);
        gt = ochoose_bool(undecided, d_gt, gt);
        i = i + 1;
    }
    proof {
        assert(a@.take(KEY_SIZE as int) =~= a@);
        assert(b@.take(KEY_SIZE as int) =~= b@);
    }
    lt
}

/// Branch-free strict less-than of two records in the given ordering.
pub fn ocmp_lt(o: SortOrder, a: &Elem, b: &Elem) -> (r: bool)
    ensures
        r == (rank(o, *a) < rank(o, *b)),
{
    match o {
        SortOrder::BinGroup => olt(
            a.tag & (TAG_BIN_IDX | TAG_FILLER),
            b.tag & (TAG_BIN_IDX | TAG_FILLER),
        ),
        SortOrder::ExcessSplit => {
            let a_id1 = crate::tag::get(a.tag, TAG_EXCESS);
            let b_id1 = crate::tag::get(b.tag, TAG_EXCESS);
            proof {
                crate::tag::lemma_tag_field_shifts();
                lemma_excess_bit(a.tag);
                lemma_excess_bit(b.tag);
            }
            let id1_ord = olt(a_id1, b_id1);
            let id1_eq = oeq(a_id1, b_id1);

            let id2_excess = ogt(a.tag & TAG_EXCESS, 0);
            let id2_excess_ord = olt(a.tag & TAG_FILLER, b.tag & TAG_FILLER);
            let id2_non_excess_ord = olt(a.tag & TAG_BIN_IDX, b.tag & TAG_BIN_IDX);
            let id2_ord = ochoose_bool(id2_excess, id2_excess_ord, id2_non_excess_ord);

            ochoose_bool(id1_eq, id2_ord, id1_ord)
        },
        SortOrder::WholeKey => okey_lt(&a.key, &b.key),
    }
}

/// The excess flag, shifted down, reads as a one-bit class.
proof fn lemma_excess_bit(x: u32)
    ensures
        (x & TAG_EXCESS) >> 2u32 == (if x & TAG_EXCESS != 0 {
            1u32
        } else {
            0u32
        }),
{
    assert((x & 0x4u32) >> 2u32 == (if x & 0x4u32 != 0 {
        1u32
    } else {
        0u32
    })) by (bit_vector);
}

/// Merge two rank-sorted runs into one.
fn merge_by_rank(l: Vec<Elem>, r: Vec<Elem>, o: SortOrder) -> (out: Vec<Elem>)
    requires
        sorted_by_rank(o, l@),
        sorted_by_rank(o, r@),
    ensures
        out@.len() == l@.len() + r@.len(),
        out@.to_multiset() == l@.to_multiset().add(r@.to_multiset()),
        sorted_by_rank(o, out@),
{
    broadcast use group_to_multiset_ensures;

    let mut out: Vec<Elem> = Vec::new();
    let mut i: usize = 0;
    let mut j: usize = 0;
    while i < l.len() || j < r.len()
        invariant
            sorted_by_rank(o, l@),
            sorted_by_rank(o, r@),
            i <= l@.len(),
            j <= r@.len(),
            out@.len() == i + j,
            sorted_by_rank(o, out@),
            out@.to_multiset() == l@.take(i as int).to_multiset().add(
                r@.take(j as int).to_multiset(),
            ),
            forall|k: int|
                0 <= k < out@.len() && i < l@.len() ==> rank(o, out@[k]) <= rank(o, l@[i as int]),
            forall|k: int|
                0 <= k < out@.len() && j < r@.len() ==> rank(o, out@[k]) <= rank(o, r@[j as int]),
        decreases l@.len() - i + r@.len() - j,
    {
        let take_left: bool = if j >= r.len() {
            true
        } else if i >= l.len() {
            false
        } else {
            !ocmp_lt(o, &r[j], &l[i])
        };
        if take_left {
            let e = l[i];
            proof {
                vstd::seq_lib::to_multiset_build(l@.take(i as int), e);
                vstd::seq_lib::to_multiset_build(out@, e);
                assert(l@.take(i + 1) =~= l@.take(i as int).push(e));
                assert(l@.take(i + 1).to_multiset() == l@.take(i as int).to_multiset().insert(e));
                assert(out@.push(e).to_multiset() =~= l@.take(i + 1).to_multiset().add(
                    r@.take(j as int).to_multiset(),
                ));
            }
            out.push(e);
            i = i + 1;
        } else {
            let e = r[j];
            proof {
                vstd::seq_lib::to_multiset_build(r@.take(j as int), e);
                vstd::seq_lib::to_multiset_build(out@, e);
                assert(r@.take(j + 1) =~= r@.take(j as int).push(e));
                assert(r@.take(j + 1).to_multiset() == r@.take(j as int).to_multiset().insert(e));
                assert(out@.push(e).to_multiset() =~= l@.take(i as int).to_multiset().add(
                    r@.take(j + 1).to_multiset(),
                ));
            }
            out.push(e);
            j = j + 1;
        }
    }
    proof {
        assert(l@.take(l@.len() as int) =~= l@);
        assert(r@.take(r@.len() as int) =~= r@);
    }
    out
}

/// Sort a buffer by the given ordering's rank: merge sort.
fn msort_by_rank(v: Vec<Elem>, o: SortOrder) -> (out: Vec<Elem>)
    ensures
        out@.len() == v@.len(),
        out@.to_multiset() == v@.to_multiset(),
        sorted_by_rank(o, out@),
    decreases v@.len(),
{
    if v.len() <= 1 {
        return v;
    }
    let mid = v.len() / 2;
    let mut left: Vec<Elem> = Vec::new();
    let mut right: Vec<Elem> = Vec::new();
    let mut i: usize = 0;
    while i < mid
        invariant
            i <= mid,
            mid < v@.len(),
            left@ == v@.take(i as int),
        decreases mid - i,
    {
        proof {
            assert(v@.take(i + 1) =~= v@.take(i as int).push(v@[i as int]));
        }
        left.push(v[i]);
        i = i + 1;
    }
    let mut j: usize = mid;
    while j < v.len()
        invariant
            mid <= j <= v@.len(),
            right@ == v@.subrange(mid as int, j as int),
        decreases v@.len() - j,
    {
        proof {
            assert(v@.subrange(mid as int, j + 1) =~= v@.subrange(mid as int, j as int).push(
                v@[j as int],
            ));
        }
        right.push(v[j]);
        j = j + 1;
    }
    proof {
        assert(v@ =~= v@.take(mid as int) + v@.subrange(mid as int, v@.len() as int));
        lemma_multiset_commutative(v@.take(mid as int), v@.subrange(mid as int, v@.len() as int));
    }
    let ls = msort_by_rank(left, o);
    let rs = msort_by_rank(right, o);
    merge_by_rank(ls, rs, o)
}

/// Sort the buffer in the given ordering.
///
/// The contract is what the build pipeline depends on: the result is a
/// permutation of the input, nondecreasing in the ordering's rank. `jobs`
/// is a parallelism hint carried through the interface; this implementation
/// is sequential and does not use it. Ties are left in an unspecified
/// order, and callers get no more than this contract states.
pub fn osort(bins: &mut Vec<Elem>, order: SortOrder, jobs: usize)
    ensures
        final(bins)@.len() == old(bins)@.len(),
        final(bins)@.to_multiset() == old(bins)@.to_multiset(),
        sorted_by_rank(order, final(bins)@),
{
    let _ = jobs;
    let n = bins.len();
    let mut work: Vec<Elem> = Vec::new();
    let mut i: usize = 0;
    while i < n
        invariant
            i <= n,
            n == bins@.len(),
            work@ == bins@.take(i as int),
        decreases n - i,
    {
        proof {
            assert(bins@.take(i + 1) =~= bins@.take(i as int).push(bins@[i as int]));
        }
        work.push(bins[i]);
        i = i + 1;
    }
    proof {
        assert(bins@.take(n as int) =~= bins@);
    }
    *bins = msort_by_rank(work, order);
}

} // verus!
