//! A two-tier oblivious hash table.
//!
//! The table is built in a batch from staged records and then queried. A
//! lookup always scans one full bin of each tier — `2 * z` records, found
//! or not — and every comparison and selection on record data goes through
//! branch-free primitives, so a query's memory walk does not depend on
//! which key, if any, it matches. The build pipeline is phrased over the
//! same branch-free operations and a sorting primitive whose contract is
//! functional: a permutation of the buffer, ordered by the requested rank.
//! The sequential merge sort supplied here meets that contract as plain
//! code; a deployment that must hide the build's access pattern as well
//! puts a data-independent sorting network behind the same contract.
//! Throughout the crate `b` names the bin count per tier and `z` the bin
//! capacity.

pub mod count;
pub mod crypto;
pub mod obl;
mod pass;
pub mod tag;

pub use obl::{Elem, KEY_SIZE, VAL_SIZE};
pub use tag::TAG_DUMMY;

use crate::count::{cnt, proj_mset};
use crate::crypto::bin_index_of;
use crate::obl::{bin_of, is_dummy, is_excess, is_filler};
use crate::tag::{TAG_BIN_IDX, TAG_EXCESS, TAG_FILLER};
use vstd::multiset::Multiset;
use vstd::prelude::*;

verus! {

/// The payload a record carries through a build: its key, its value, and
/// its dummy flag. Bin index and excess marks are pipeline bookkeeping and
/// are not part of the payload.
pub open spec fn rec_fn() -> spec_fn(Elem) -> (Seq<u8>, Seq<u8>, bool) {
    |e: Elem| (e.key@, e.val@, is_dummy(e))
}

/// Selects the records that are not fillers.
pub open spec fn nf_fn() -> spec_fn(Elem) -> bool {
    |e: Elem| !is_filler(e)
}

/// Selects overflowed records that are not fillers.
pub open spec fn exc_nf_fn() -> spec_fn(Elem) -> bool {
    |e: Elem| is_excess(e) && !is_filler(e)
}

/// The multiset of payloads of the non-filler records of `s`.
pub open spec fn nonfiller_recs(s: Seq<Elem>) -> Multiset<(Seq<u8>, Seq<u8>, bool)> {
    proj_mset(s, rec_fn(), nf_fn())
}

/// Selects the non-filler records whose tag names bin `v`.
pub open spec fn stored_bin_fn(v: int) -> spec_fn(Elem) -> bool {
    |e: Elem| !is_filler(e) && bin_of(e) as int == v
}

/// Selects the non-filler records whose key hashes to bin `v` under the
/// pass key `pk`.
pub open spec fn hashes_to_fn(pk: Seq<u8>, b: u16, v: int) -> spec_fn(Elem) -> bool {
    |e: Elem| !is_filler(e) && bin_index_of(pk, e.key@, b) as int == v
}

/// The little-endian bytes of a 16-bit integer: the message from which a
/// bin's filler key is derived.
pub open spec fn le_bytes16(v: u16) -> Seq<u8> {
    seq![(v % 256) as u8, (v / 256) as u8]
}

/// A filler injected under pass key `pk`: its key is the keyed hash's
/// digest of the bin index its tag names, its value is all zeros, and it
/// is not a dummy.
pub open spec fn filler_payload(e: Elem, pk: Seq<u8>) -> bool {
    &&& e.key@ == crate::crypto::prf_of(pk, le_bytes16(bin_of(e) as u16))
    &&& forall|j: int| 0 <= j < VAL_SIZE ==> e.val@[j] == 0
    &&& !is_dummy(e)
}

/// A filler that entered the pass as one of the buffer's own records: some
/// filler of `s` carries its key, value, and dummy flag.
pub open spec fn inherited_filler(e: Elem, s: Seq<Elem>) -> bool {
    exists|j: int|
        0 <= j < s.len() && is_filler(#[trigger] s[j]) && s[j].key == e.key && s[j].val == e.val
            && is_dummy(s[j]) == is_dummy(e)
}

/// A filler carried over from the previous pass: its key is the digest,
/// under that pass's key, of some bin index below `b`; its value is all
/// zeros and it is not a dummy.
pub open spec fn carried_filler(e: Elem, pk1: Seq<u8>, b: u16) -> bool {
    &&& exists|w: int|
        0 <= w < b && e.key@ == crate::crypto::prf_of(pk1, #[trigger] le_bytes16(w as u16))
    &&& forall|j: int| 0 <= j < VAL_SIZE ==> e.val@[j] == 0
    &&& !is_dummy(e)
}

/// A caller-staged record: at most the dummy flag is set in its tag.
pub open spec fn staged(e: Elem) -> bool {
    e.tag & !TAG_DUMMY == 0
}

/// Every record of `s` is a caller-staged record.
pub open spec fn all_staged(s: Seq<Elem>) -> bool {
    forall|i: int| 0 <= i < s.len() ==> staged(s[i])
}

/// Ready to enter a build pass: the excess flag is clear and the bin-index
/// field is empty, so the pass may write a fresh bin assignment.
pub open spec fn pass_ready(e: Elem) -> bool {
    e.tag & (TAG_EXCESS | TAG_BIN_IDX) == 0
}

/// The shape of a finished tier: exactly `b * z` records; the record in
/// slot `i` carries bin index `i / z`, and no record is marked excess.
pub open spec fn tier_shaped(s: Seq<Elem>, b: u16, z: usize) -> bool {
    &&& s.len() == b * z
    &&& forall|i: int| 0 <= i < s.len() ==> bin_of(s[i]) as int == i / (z as int)
    &&& forall|i: int| 0 <= i < s.len() ==> !is_excess(s[i])
}

/// Every non-filler record of `s` sits in the bin its key hashes to under
/// the pass key `pk`.
pub open spec fn bins_keyed(s: Seq<Elem>, pk: Seq<u8>, b: u16) -> bool {
    forall|i: int|
        0 <= i < s.len() && !is_filler(s[i]) ==> bin_of(s[i]) == bin_index_of(pk, s[i].key@, b)
}

/// The domain-separated key material of a tier: the tier's tag byte
/// prepended to the caller's secret.
pub open spec fn tier_key(t: u8, pk: Seq<u8>) -> Seq<u8> {
    seq![t] + pk
}

/// A stored record answers a query key when the keys agree and the record
/// is neither a dummy nor a filler.
pub open spec fn elem_matches(e: Elem, k: Seq<u8>) -> bool {
    e.key@ == k && !is_dummy(e) && !is_filler(e)
}

/// Some record in the window `[lo, lo + n)` of `s` answers the key.
pub open spec fn scan_found(s: Seq<Elem>, lo: int, n: int, k: Seq<u8>) -> bool {
    exists|t: int| lo <= t < lo + n && elem_matches(#[trigger] s[t], k)
}

/// The value of the first record in the window `[lo, lo + n)` of `s` that
/// answers the key, or `dflt` when none does.
pub open spec fn scan_val(s: Seq<Elem>, lo: int, n: int, k: Seq<u8>, dflt: Seq<u8>) -> Seq<u8>
    decreases n,
{
    if n <= 0 {
        dflt
    } else if elem_matches(s[lo], k) {
        s[lo].val@
    } else {
        scan_val(s, lo + 1, n - 1, k, dflt)
    }
}

/// What a lookup of `q` against table `t` under secret `pk` returns: a
/// found flag and the returned value bytes.
///
/// Both tiers' candidate bins are consulted; tier 1 wins a tie. A dummy
/// query is forced to not-found with the query's own placeholder value.
pub open spec fn spec_lookup(t: Oht, q: Elem, pk: Seq<u8>) -> (bool, Seq<u8>) {
    let z = t.z as int;
    let i1 = bin_index_of(tier_key(1, pk), q.key@, t.b) as int;
    let i2 = bin_index_of(tier_key(2, pk), q.key@, t.b) as int;
    let f1 = scan_found(t.bins1@, i1 * z, z, q.key@);
    let f2 = scan_found(t.bins2@, i2 * z, z, q.key@);
    let v1 = scan_val(t.bins1@, i1 * z, z, q.key@, q.val@);
    let v2 = scan_val(t.bins2@, i2 * z, z, q.key@, q.val@);
    if is_dummy(q) {
        (false, q.val@)
    } else if f1 {
        (true, v1)
    } else if f2 {
        (true, v2)
    } else {
        (false, q.val@)
    }
}

/// A window one record longer finds a match exactly when the shorter
/// window does or the new record matches.
proof fn lemma_scan_found_extend(s: Seq<Elem>, lo: int, n: int, k: Seq<u8>)
    requires
        n >= 0,
    ensures
        scan_found(s, lo, n + 1, k) == (scan_found(s, lo, n, k) || elem_matches(s[lo + n], k)),
{
    if scan_found(s, lo, n + 1, k) {
        let t = choose|t: int| lo <= t < lo + n + 1 && elem_matches(#[trigger] s[t], k);
        if t < lo + n {
            assert(scan_found(s, lo, n, k));
        }
    }
    if scan_found(s, lo, n, k) {
        let t = choose|t: int| lo <= t < lo + n && elem_matches(#[trigger] s[t], k);
        assert(elem_matches(s[t], k));
        assert(scan_found(s, lo, n + 1, k));
    }
    if elem_matches(s[lo + n], k) {
        assert(scan_found(s, lo, n + 1, k));
    }
}

/// Extending a window by one record keeps the first match, takes the new
/// record when it is the first match, and otherwise stays at the default.
proof fn lemma_scan_val_extend(s: Seq<Elem>, lo: int, n: int, k: Seq<u8>, dflt: Seq<u8>)
    requires
        n >= 0,
    ensures
        scan_val(s, lo, n + 1, k, dflt) == if scan_found(s, lo, n, k) {
            scan_val(s, lo, n, k, dflt)
        } else if elem_matches(s[lo + n], k) {
            s[lo + n].val@
        } else {
            dflt
        },
    decreases n,
{
    if n == 0 {
        assert(!scan_found(s, lo, 0, k));
        assert(scan_val(s, lo + 1, 0, k, dflt) == dflt);
    } else if elem_matches(s[lo], k) {
        assert(scan_found(s, lo, n, k));
    } else {
        lemma_scan_val_extend(s, lo + 1, n - 1, k, dflt);
        assert(scan_found(s, lo, n, k) == scan_found(s, lo + 1, n - 1, k)) by {
            if scan_found(s, lo, n, k) {
                let t = choose|t: int| lo <= t < lo + n && elem_matches(#[trigger] s[t], k);
                assert(t != lo);
                assert(scan_found(s, lo + 1, n - 1, k));
            }
            if scan_found(s, lo + 1, n - 1, k) {
                let t = choose|t: int|
                    lo + 1 <= t < lo + n && elem_matches(#[trigger] s[t], k);
                assert(scan_found(s, lo, n, k));
            }
        }
    }
}

/// A window without a match yields the default value.
proof fn lemma_scan_val_not_found(s: Seq<Elem>, lo: int, n: int, k: Seq<u8>, dflt: Seq<u8>)
    requires
        !scan_found(s, lo, n, k),
    ensures
        scan_val(s, lo, n, k, dflt) == dflt,
    decreases n,
{
    if n > 0 {
        assert(!elem_matches(s[lo], k));
        assert(!scan_found(s, lo + 1, n - 1, k)) by {
            if scan_found(s, lo + 1, n - 1, k) {
                let t = choose|t: int|
                    lo + 1 <= t < lo + n && elem_matches(#[trigger] s[t], k);
                assert(scan_found(s, lo, n, k));
            }
        }
        lemma_scan_val_not_found(s, lo + 1, n - 1, k, dflt);
    }
}

/// A window with a match yields the value of one of its matching records.
proof fn lemma_scan_val_found(s: Seq<Elem>, lo: int, n: int, k: Seq<u8>, dflt: Seq<u8>)
    requires
        scan_found(s, lo, n, k),
    ensures
        exists|t: int|
            lo <= t < lo + n && elem_matches(#[trigger] s[t], k) && scan_val(s, lo, n, k, dflt)
                == s[t].val@,
    decreases n,
{
    let w = choose|t: int| lo <= t < lo + n && elem_matches(#[trigger] s[t], k);
    assert(n > 0);
    if elem_matches(s[lo], k) {
        assert(lo <= lo < lo + n && elem_matches(s[lo], k) && scan_val(s, lo, n, k, dflt)
            == s[lo].val@);
    } else {
        assert(w != lo);
        assert(scan_found(s, lo + 1, n - 1, k));
        lemma_scan_val_found(s, lo + 1, n - 1, k, dflt);
        let t = choose|t: int|
            lo + 1 <= t < lo + n && elem_matches(#[trigger] s[t], k) && scan_val(
                s,
                lo + 1,
                n - 1,
                k,
                dflt,
            ) == s[t].val@;
        assert(lo <= t < lo + n && elem_matches(s[t], k) && scan_val(s, lo, n, k, dflt)
            == s[t].val@);
    }
}

/// Scanning windows that hold the same records gives the same answers.
proof fn lemma_scan_equiv(
    s: Seq<Elem>,
    lo: int,
    t: Seq<Elem>,
    lo2: int,
    n: int,
    k: Seq<u8>,
    dflt: Seq<u8>,
)
    requires
        n >= 0,
        0 <= lo,
        lo + n <= s.len(),
        0 <= lo2,
        lo2 + n <= t.len(),
        s.subrange(lo, lo + n) == t.subrange(lo2, lo2 + n),
    ensures
        scan_found(s, lo, n, k) == scan_found(t, lo2, n, k),
        scan_val(s, lo, n, k, dflt) == scan_val(t, lo2, n, k, dflt),
    decreases n,
{
    if n > 0 {
        assert(s[lo] == t[lo2]) by {
            assert(s.subrange(lo, lo + n)[0] == s[lo]);
            assert(t.subrange(lo2, lo2 + n)[0] == t[lo2]);
        }
        assert(s.subrange(lo + 1, lo + n) == t.subrange(lo2 + 1, lo2 + n)) by {
            assert(s.subrange(lo + 1, lo + n) =~= s.subrange(lo, lo + n).subrange(1, n));
            assert(t.subrange(lo2 + 1, lo2 + n) =~= t.subrange(lo2, lo2 + n).subrange(1, n));
        }
        lemma_scan_equiv(s, lo + 1, t, lo2 + 1, n - 1, k, dflt);
        lemma_scan_split_first(s, lo, n, k);
        lemma_scan_split_first(t, lo2, n, k);
    }
}

/// A window finds a match exactly when its first record matches or the
/// rest of the window does.
proof fn lemma_scan_split_first(s: Seq<Elem>, lo: int, n: int, k: Seq<u8>)
    requires
        n >= 1,
    ensures
        scan_found(s, lo, n, k) == (scan_found(s, lo + 1, n - 1, k) || elem_matches(s[lo], k)),
{
    if scan_found(s, lo, n, k) {
        let t = choose|t: int| lo <= t < lo + n && elem_matches(#[trigger] s[t], k);
        if t != lo {
            assert(scan_found(s, lo + 1, n - 1, k));
        }
    }
    if scan_found(s, lo + 1, n - 1, k) {
        let t = choose|t: int| lo + 1 <= t < lo + n && elem_matches(#[trigger] s[t], k);
        assert(scan_found(s, lo, n, k));
    }
    if elem_matches(s[lo], k) {
        assert(scan_found(s, lo, n, k));
    }
}

/// Capacity failures of a build.
#[derive(Clone, Copy, Debug, PartialEq, Eq, Structural)]
pub enum OhtError {
    /// After the second pass some real or dummy record was still marked
    /// excess: the table was undersized for the staged batch.
    CapacityExceeded,
}

/// A two-tier oblivious hash table: two fixed-shape tiers of `b` bins with
/// `z` slots each. Records are staged into `bins1`, distributed over both
/// tiers by [`Oht::build`], and then queried with [`Oht::lookup`].
#[derive(Clone, Debug)]
pub struct Oht {
    /// The first tier, built first. Before a build this buffer holds the
    /// staged records.
    pub bins1: Vec<Elem>,
    /// The second tier, built from the first pass's overflow.
    pub bins2: Vec<Elem>,
    /// Bin count per tier.
    pub b: u16,
    /// Bin capacity.
    pub z: usize,
}

impl Oht {
    /// An empty table with shape parameters `(b, z)`, its tier buffers
    /// preallocated to one tier's size.
    pub fn new(b: u16, z: usize) -> (r: Oht)
        requires
            (b as int) * (z as int) <= usize::MAX,
        ensures
            r.b == b,
            r.z == z,
            r.bins1@ == Seq::<Elem>::empty(),
            r.bins2@ == Seq::<Elem>::empty(),
    {
        proof {
            vstd::arithmetic::mul::lemma_mul_nonnegative(b as int, z as int);
        }
        Oht {
            bins1: Vec::with_capacity(b as usize * z),
            bins2: Vec::with_capacity(b as usize * z),
            b,
            z,
        }
    }

    /// Empty both tiers, keeping the shape parameters.
    pub fn clear(&mut self)
        ensures
            final(self).bins1@ == Seq::<Elem>::empty(),
            final(self).bins2@ == Seq::<Elem>::empty(),
            final(self).b == old(self).b,
            final(self).z == old(self).z,
    {
        self.bins1.clear();
        self.bins2.clear();
    }

    /// Stage a batch of records into the first tier's buffer, replacing
    /// whatever the table held.
    pub fn prepare(&mut self, elems: Vec<Elem>)
        ensures
            final(self).bins1@ == elems@,
            final(self).bins2@ == Seq::<Elem>::empty(),
            final(self).b == old(self).b,
            final(self).z == old(self).z,
    {
        self.clear();
        self.bins1 = elems;
    }

    /// One build pass over `bins`: assign a bin to every record, pad every
    /// bin with `z` fillers, group by bin, mark each bin's overflow beyond
    /// `z` records, and split the buffer into a finished tier of exactly
    /// `b * z` records and the overflow pile, which is returned together
    /// with a flag that says whether any non-filler record overflowed.
    ///
    /// `jobs` is the parallelism hint handed to the sorting primitive.
    ///
    /// The finished tier has the exact bin-slice shape; bin `v` keeps
    /// exactly the first `min(c_v, z)` of the `c_v` records whose keys hash
    /// to `v`, padded to `z` with fillers, and the pile holds the records
    /// that did not fit, real and dummy overflow ahead of filler overflow.
    /// The records kept and the records in the pile together carry exactly
    /// the non-filler payloads that came in; every filler anywhere is
    /// either this pass's own — key derived from its bin index under
    /// `prf_key`, zero value — or one the buffer already held.
    pub fn build_pass(b: u16, z: usize, bins: &mut Vec<Elem>, prf_key: &[u8], jobs: usize) -> (r: (
        Vec<Elem>,
        bool,
    ))
        requires
            b >= 1,
            z >= 1,
            old(bins)@.len() + (b as int) * (z as int) <= u32::MAX,
            forall|i: int| 0 <= i < old(bins)@.len() ==> pass_ready(#[trigger] old(bins)@[i]),
        ensures
            final(bins)@.len() == (b as int) * (z as int),
            r.0@.len() == old(bins)@.len(),
            tier_shaped(final(bins)@, b, z),
            nonfiller_recs(final(bins)@).add(nonfiller_recs(r.0@)) == nonfiller_recs(old(bins)@),
            bins_keyed(final(bins)@, prf_key@, b),
            bins_keyed(r.0@, prf_key@, b),
            forall|v: int|
                0 <= v < b ==> cnt(final(bins)@, stored_bin_fn(v)) == (if cnt(
                    old(bins)@,
                    hashes_to_fn(prf_key@, b, v),
                ) <= z as int {
                    cnt(old(bins)@, hashes_to_fn(prf_key@, b, v))
                } else {
                    z as int
                }),
            forall|v: int|
                cnt(final(bins)@, stored_bin_fn(v)) + cnt(r.0@, hashes_to_fn(prf_key@, b, v))
                    == cnt(old(bins)@, hashes_to_fn(prf_key@, b, v)),
            forall|i: int| 0 <= i < r.0@.len() ==> is_excess(#[trigger] r.0@[i]),
            forall|i: int| 0 <= i < r.0@.len() ==> bin_of(#[trigger] r.0@[i]) < b,
            forall|i: int, j: int|
                0 <= i < j < r.0@.len() && !is_filler(#[trigger] r.0@[j]) ==> !is_filler(
                    #[trigger] r.0@[i],
                ),
            forall|i: int|
                0 <= i < final(bins)@.len() && is_filler(#[trigger] final(bins)@[i])
                    ==> filler_payload(final(bins)@[i], prf_key@) || inherited_filler(
                    final(bins)@[i],
                    old(bins)@,
                ),
            forall|i: int|
                0 <= i < r.0@.len() && is_filler(#[trigger] r.0@[i]) ==> filler_payload(
                    r.0@[i],
                    prf_key@,
                ) || inherited_filler(r.0@[i], old(bins)@),
            r.1 == (cnt(r.0@, exc_nf_fn()) > 0),
            cnt(old(bins)@, nf_fn()) > (b as int) * (z as int) ==> r.1,
            (forall|v: int|
                0 <= v < b ==> cnt(old(bins)@, hashes_to_fn(prf_key@, b, v)) <= z as int) ==> cnt(
                r.0@,
                nf_fn(),
            ) == 0,
    {
        let ghost s0 = bins@;
        let ghost pk = prf_key@;
        let ghost zi = z as int;
        let ghost bz = (b as int) * zi;
        proof {
            vstd::arithmetic::mul::lemma_mul_inequality(1, b as int, zi);
        }

        pass::assign_bins(bins, prf_key, b);
        let ghost s1 = bins@;
        proof {
            assert forall|i: int| 0 <= i < s1.len() implies nf_fn()(s1[i]) == nf_fn()(s0[i])
                && (nf_fn()(s1[i]) ==> rec_fn()(s1[i]) == rec_fn()(s0[i])) && pass::binlt_fn(b)(
                #[trigger] s1[i],
            ) && pass::keyed_fn(pk, b)(s1[i]) && !is_excess(s1[i]) && is_dummy(s1[i]) == is_dummy(
                s0[i],
            ) && pass::filler_src_fn(pk, s0)(s1[i]) by {
                assert(pass::assigned_from(s1[i], s0[i], pk, b));
                if is_filler(s1[i]) {
                    assert(is_filler(s0[i]) && s0[i].key == s1[i].key && s0[i].val == s1[i].val
                        && is_dummy(s0[i]) == is_dummy(s1[i]));
                    assert(inherited_filler(s1[i], s0));
                }
            }
            count::lemma_fold_pointwise(s0, s1, rec_fn(), nf_fn());
            assert forall|v: int|
                cnt(s1, hashes_to_fn(pk, b, v)) == cnt(s0, #[trigger] hashes_to_fn(pk, b, v)) by {
                count::lemma_fold_pointwise(s0, s1, rec_fn(), hashes_to_fn(pk, b, v));
            }
        }

        pass::add_fillers(bins, prf_key, b, z);
        let ghost s2 = bins@;
        let ghost fill = s2.skip(s1.len() as int);
        proof {
            assert(s2 =~= s1 + fill);
            assert forall|w: int, t: int|
                0 <= w < b && w * zi <= t < (w + 1) * zi implies #[trigger] pass::filler_shaped(
                fill[t],
                pk,
                w,
            ) by {
                vstd::arithmetic::mul::lemma_mul_nonnegative(w, zi);
                vstd::arithmetic::mul::lemma_mul_inequality(w + 1, b as int, zi);
                assert(fill[t] == s2[s1.len() + t]);
                assert(pass::filler_shaped(s2[s1.len() + t], pk, w));
            }
            assert forall|v: int| 0 <= v < b implies cnt(fill, pass::bin_fn(v)) == zi by {
                pass::lemma_fillers_cnt(fill, pk, b, z, v);
            }
            pass::lemma_fillers_cnt(fill, pk, b, z, 0);
            // non-filler payloads and counts are untouched by the all-filler block
            count::lemma_proj_none(fill, rec_fn(), nf_fn());
            count::lemma_cnt_none(fill, nf_fn());
            count::lemma_proj_concat(s1, fill, rec_fn(), nf_fn());
            count::lemma_cnt_concat(s1, fill, nf_fn());
            assert(nonfiller_recs(s2) =~= nonfiller_recs(s1));
            assert forall|v: int| 0 <= v < b implies cnt(s2, pass::bin_fn(v)) >= zi by {
                count::lemma_cnt_concat(s1, fill, pass::bin_fn(v));
                count::lemma_cnt_bounds(s1, pass::bin_fn(v));
            }
            assert forall|v: int|
                cnt(s2, hashes_to_fn(pk, b, v)) == cnt(s1, #[trigger] hashes_to_fn(pk, b, v)) by {
                count::lemma_cnt_concat(s1, fill, hashes_to_fn(pk, b, v));
                count::lemma_cnt_none(fill, hashes_to_fn(pk, b, v));
            }
            assert(forall|i: int|
                0 <= i < s2.len() ==> pass::binlt_fn(b)(#[trigger] s2[i]) && pass::keyed_fn(pk, b)(
                    s2[i],
                ) && !is_excess(s2[i]) && pass::filler_src_fn(pk, s0)(s2[i]));
        }

        obl::osort(bins, obl::SortOrder::BinGroup, jobs);
        let ghost s3 = bins@;
        proof {
            assert forall|i: int, j: int| 0 <= i < j < s3.len() implies bin_of(#[trigger] s3[i])
                <= bin_of(#[trigger] s3[j]) by {
                pass::lemma_group_key_bin_mono(s3[i].tag, s3[j].tag);
                crate::tag::lemma_tag_field_shifts();
            }
            assert forall|i: int, j: int|
                0 <= i < j < s3.len() && bin_of(#[trigger] s3[i]) == bin_of(#[trigger] s3[j])
                    && !is_filler(s3[j]) implies !is_filler(s3[i]) by {
                pass::lemma_group_key_filler_mono(s3[i].tag, s3[j].tag);
                crate::tag::lemma_tag_field_shifts();
            }
            count::lemma_perm_all(s2, s3, pass::binlt_fn(b));
            count::lemma_perm_all(s2, s3, pass::keyed_fn(pk, b));
            count::lemma_perm_all(s2, s3, pass::clean_fn());
            count::lemma_perm_all(s2, s3, pass::filler_src_fn(pk, s0));
            count::lemma_fold_perm(s2, s3, rec_fn(), nf_fn());
            assert forall|v: int| 0 <= v < b implies cnt(s3, pass::bin_fn(v)) >= zi by {
                count::lemma_fold_perm(s2, s3, rec_fn(), pass::bin_fn(v));
            }
            // on a keyed buffer, counting by stored bin is counting by
            // hashed bin
            assert forall|v: int|
                cnt(s3, #[trigger] crate::stored_bin_fn(v)) == cnt(s0, hashes_to_fn(pk, b, v)) by {
                count::lemma_fold_perm(s2, s3, rec_fn(), hashes_to_fn(pk, b, v));
                assert forall|i: int|
                    0 <= i < s3.len() implies crate::stored_bin_fn(v)(#[trigger] s3[i])
                    == hashes_to_fn(pk, b, v)(s3[i]) by {
                    assert(pass::keyed_fn(pk, b)(s3[i]));
                }
                count::lemma_cnt_eq_pred(s3, crate::stored_bin_fn(v), hashes_to_fn(pk, b, v));
            }
        }

        let excess_left = pass::mark_excess(bins, z);
        let ghost s4 = bins@;
        proof {
            assert forall|i: int| 0 <= i < s4.len() implies nf_fn()(s4[i]) == nf_fn()(s3[i]) && (
            nf_fn()(s4[i]) ==> rec_fn()(s4[i]) == rec_fn()(s3[i])) && pass::binlt_fn(b)(
                #[trigger] s4[i],
            ) && pass::keyed_fn(pk, b)(s4[i]) && is_dummy(s4[i]) == is_dummy(s3[i])
                && pass::filler_src_fn(pk, s0)(s4[i]) by {
                assert(pass::marked_from(s4[i], s3[i]));
                if is_filler(s4[i]) {
                    assert(pass::filler_src_fn(pk, s0)(s3[i]));
                    if filler_payload(s3[i], pk) {
                        assert(filler_payload(s4[i], pk));
                    } else {
                        assert(inherited_filler(s3[i], s0));
                        let j = choose|j: int|
                            0 <= j < s0.len() && is_filler(#[trigger] s0[j]) && s0[j].key
                                == s3[i].key && s0[j].val == s3[i].val && is_dummy(s0[j])
                                == is_dummy(s3[i]);
                        assert(is_filler(s0[j]) && s0[j].key == s4[i].key && s0[j].val == s4[i].val
                            && is_dummy(s0[j]) == is_dummy(s4[i]));
                        assert(inherited_filler(s4[i], s0));
                    }
                }
            }
            count::lemma_fold_pointwise(s3, s4, rec_fn(), nf_fn());
            assert forall|v: int|
                cnt(s4, hashes_to_fn(pk, b, v)) == cnt(s0, #[trigger] hashes_to_fn(pk, b, v)) by {
                count::lemma_fold_perm(s2, s3, rec_fn(), hashes_to_fn(pk, b, v));
                count::lemma_fold_pointwise(s3, s4, rec_fn(), hashes_to_fn(pk, b, v));
            }
            assert forall|w: int| 0 <= w < b implies cnt(s4, pass::clean_bin_fn(w)) == zi by {
                assert(cnt(s3, pass::bin_fn(w)) >= zi);
            }
        }

        obl::osort(bins, obl::SortOrder::ExcessSplit, jobs);
        let ghost s5 = bins@;
        proof {
            count::lemma_perm_all(s4, s5, pass::binlt_fn(b));
            count::lemma_perm_all(s4, s5, pass::keyed_fn(pk, b));
            count::lemma_perm_all(s4, s5, pass::filler_src_fn(pk, s0));
            count::lemma_fold_perm(s4, s5, rec_fn(), nf_fn());
            count::lemma_fold_perm(s4, s5, rec_fn(), exc_nf_fn());
            assert forall|w: int| 0 <= w < b implies cnt(s5, pass::clean_bin_fn(w)) == zi by {
                count::lemma_fold_perm(s4, s5, rec_fn(), pass::clean_bin_fn(w));
            }
            assert forall|v: int|
                cnt(s5, #[trigger] pass::clean_nf_bin_fn(v)) == cnt(s4, pass::clean_nf_bin_fn(v))
                    && cnt(s5, hashes_to_fn(pk, b, v)) == cnt(s4, hashes_to_fn(pk, b, v)) by {
                count::lemma_fold_perm(s4, s5, rec_fn(), pass::clean_nf_bin_fn(v));
                count::lemma_fold_perm(s4, s5, rec_fn(), hashes_to_fn(pk, b, v));
            }
            assert(s5.len() == s0.len() + bz);
        }

        let tail = bins.split_off(b as usize * z);
        let ghost out = bins@;
        let ghost ov = tail@;
        proof {
            assert(s5 =~= out + ov);
            count::lemma_proj_concat(out, ov, rec_fn(), nf_fn());
            count::lemma_cnt_concat(out, ov, exc_nf_fn());
            pass::lemma_split_structure(s5, b, z);
            assert(tier_shaped(out, b, z));
            assert forall|i: int| 0 <= i < ov.len() implies is_excess(#[trigger] ov[i]) && bin_of(
                ov[i],
            ) < b by {
                assert(ov[i] == s5[bz + i]);
                assert(pass::binlt_fn(b)(s5[bz + i]));
            }
            // the pile keeps real and dummy overflow ahead of filler
            // overflow: overflow ranks by the filler flag
            assert forall|i: int, j: int|
                0 <= i < j < ov.len() && !is_filler(#[trigger] ov[j]) implies !is_filler(
                #[trigger] ov[i],
            ) by {
                assert(ov[i] == s5[bz + i]);
                assert(ov[j] == s5[bz + j]);
                assert(obl::rank(obl::SortOrder::ExcessSplit, s5[bz + i]) <= obl::rank(
                    obl::SortOrder::ExcessSplit,
                    s5[bz + j],
                ));
            }
            // both halves keep their keying and their filler provenance
            // slot by slot
            assert forall|i: int| 0 <= i < out.len() && !is_filler(out[i]) implies bin_of(
                #[trigger] out[i],
            ) == bin_index_of(pk, out[i].key@, b) by {
                assert(pass::keyed_fn(pk, b)(s5[i]));
            }
            assert forall|i: int| 0 <= i < ov.len() && !is_filler(ov[i]) implies bin_of(
                #[trigger] ov[i],
            ) == bin_index_of(pk, ov[i].key@, b) by {
                assert(pass::keyed_fn(pk, b)(s5[bz + i]));
            }
            assert forall|i: int|
                0 <= i < out.len() && is_filler(#[trigger] out[i]) implies filler_payload(
                out[i],
                pk,
            ) || inherited_filler(out[i], s0) by {
                assert(pass::filler_src_fn(pk, s0)(s5[i]));
            }
            assert forall|i: int|
                0 <= i < ov.len() && is_filler(#[trigger] ov[i]) implies filler_payload(ov[i], pk)
                    || inherited_filler(ov[i], s0) by {
                assert(pass::filler_src_fn(pk, s0)(s5[bz + i]));
            }
            // per-bin retention and its complement in the pile
            assert forall|v: int|
                cnt(out, #[trigger] stored_bin_fn(v)) == cnt(s5, pass::clean_nf_bin_fn(v)) && cnt(
                    out,
                    stored_bin_fn(v),
                ) + cnt(ov, hashes_to_fn(pk, b, v)) == cnt(s0, hashes_to_fn(pk, b, v)) by {
                count::lemma_cnt_concat(out, ov, pass::clean_nf_bin_fn(v));
                count::lemma_cnt_none(ov, pass::clean_nf_bin_fn(v));
                assert forall|i: int| 0 <= i < out.len() implies stored_bin_fn(v)(
                    #[trigger] out[i],
                ) == pass::clean_nf_bin_fn(v)(out[i]) by {
                    assert(!is_excess(out[i]));
                }
                count::lemma_cnt_eq_pred(out, stored_bin_fn(v), pass::clean_nf_bin_fn(v));
                count::lemma_cnt_concat(out, ov, hashes_to_fn(pk, b, v));
                assert forall|i: int| 0 <= i < out.len() implies stored_bin_fn(v)(
                    #[trigger] out[i],
                ) == hashes_to_fn(pk, b, v)(out[i]) by {}
                count::lemma_cnt_eq_pred(out, stored_bin_fn(v), hashes_to_fn(pk, b, v));
            }
            // the tier's per-bin retention, assembled across the stages
            assert forall|v: int|
                cnt(out, #[trigger] stored_bin_fn(v)) == (if cnt(s0, hashes_to_fn(pk, b, v)) <= zi {
                    cnt(s0, hashes_to_fn(pk, b, v))
                } else {
                    zi
                }) by {
                assert(cnt(out, stored_bin_fn(v)) == cnt(s5, pass::clean_nf_bin_fn(v)));
                assert(cnt(s5, pass::clean_nf_bin_fn(v)) == cnt(s4, pass::clean_nf_bin_fn(v)));
                assert(cnt(s3, stored_bin_fn(v)) == cnt(s0, hashes_to_fn(pk, b, v)));
            }
            // the tier holds no overflow, so the flag is about the pile
            count::lemma_cnt_none(out, exc_nf_fn());
            // a batch beyond one tier's capacity always leaves real overflow
            if cnt(s0, nf_fn()) > bz {
                pass::lemma_nf_split(s4);
                count::lemma_cnt_implies(s4, pass::clean_nf_fn(), pass::clean_fn());
                pass::lemma_clean_prefix_total(s4, zi, b as int);
                count::lemma_cnt_eq_pred(s4, pass::clean_lt_fn(b as int), pass::clean_fn());
                assert(cnt(s4, exc_nf_fn()) > 0);
                assert(cnt(s5, exc_nf_fn()) > 0);
            }
            // a batch whose every bin fits leaves no real record in the pile
            if forall|v: int| 0 <= v < b ==> cnt(s0, #[trigger] hashes_to_fn(pk, b, v)) <= zi {
                assert forall|v: int|
                    0 <= v < b implies cnt(ov, #[trigger] hashes_to_fn(pk, b, v)) == 0 by {
                    count::lemma_cnt_bounds(ov, hashes_to_fn(pk, b, v));
                    assert(cnt(out, stored_bin_fn(v)) == cnt(s0, hashes_to_fn(pk, b, v)));
                    assert(cnt(out, stored_bin_fn(v)) + cnt(ov, hashes_to_fn(pk, b, v)) == cnt(
                        s0,
                        hashes_to_fn(pk, b, v),
                    ));
                }
                pass::lemma_hashes_prefix_zero(ov, pk, b, b as int);
                assert forall|i: int| 0 <= i < ov.len() implies nf_fn()(#[trigger] ov[i])
                    == pass::hashes_lt_fn(pk, b, b as int)(ov[i]) by {
                    assert(bin_index_of(pk, ov[i as int].key@, b) < b);
                }
                count::lemma_cnt_eq_pred(ov, nf_fn(), pass::hashes_lt_fn(pk, b, b as int));
            }
        }
        (tail, excess_left)
    }

    /// Build the table from the staged records.
    ///
    /// Pass 1 distributes the batch over tier 1 under domain byte 1 and
    /// collects the overflow; the overflow is stripped of its marks and
    /// pass 2 redistributes it over tier 2 under domain byte 2. A record
    /// that still overflows in the second pass is dropped and the build
    /// reports [`OhtError::CapacityExceeded`]: the caller must rebuild with
    /// larger `(b, z)`. The table never resizes on its own.
    ///
    /// Both finished tiers have the exact bin-slice shape. Every non-filler
    /// record they hold carries the payload of some staged record; tier 1's
    /// bin `v` keeps exactly `min(c_v, z)` records of the `c_v` staged ones
    /// hashing to `v`, and every filler is one the pipeline derived. A
    /// build that returns `Ok` holds every staged payload exactly once
    /// across the two tiers, and a batch none of whose tier-1 bins is
    /// oversubscribed always returns `Ok`. Values are stored as given:
    /// encrypt before staging and after lookup if values at rest must be
    /// hidden.
    pub fn build(&mut self, prf_key: &[u8], jobs: usize) -> (r: Result<(), OhtError>)
        requires
            old(self).b >= 1,
            old(self).z >= 1,
            all_staged(old(self).bins1@),
            old(self).bins1@.len() + (old(self).b as int) * (old(self).z as int) <= u32::MAX,
        ensures
            final(self).b == old(self).b,
            final(self).z == old(self).z,
            tier_shaped(final(self).bins1@, old(self).b, old(self).z),
            tier_shaped(final(self).bins2@, old(self).b, old(self).z),
            bins_keyed(final(self).bins1@, tier_key(1, prf_key@), old(self).b),
            bins_keyed(final(self).bins2@, tier_key(2, prf_key@), old(self).b),
            nonfiller_recs(final(self).bins1@).add(nonfiller_recs(final(self).bins2@)).subset_of(
                nonfiller_recs(old(self).bins1@),
            ),
            r is Ok ==> nonfiller_recs(final(self).bins1@).add(
                nonfiller_recs(final(self).bins2@),
            ) == nonfiller_recs(old(self).bins1@),
            forall|v: int|
                0 <= v < old(self).b ==> cnt(final(self).bins1@, stored_bin_fn(v)) == (if cnt(
                    old(self).bins1@,
                    hashes_to_fn(tier_key(1, prf_key@), old(self).b, v),
                ) <= old(self).z as int {
                    cnt(old(self).bins1@, hashes_to_fn(tier_key(1, prf_key@), old(self).b, v))
                } else {
                    old(self).z as int
                }),
            forall|i: int|
                0 <= i < final(self).bins1@.len() && is_filler(#[trigger] final(self).bins1@[i])
                    ==> filler_payload(final(self).bins1@[i], tier_key(1, prf_key@)),
            forall|i: int|
                0 <= i < final(self).bins2@.len() && is_filler(#[trigger] final(self).bins2@[i])
                    ==> filler_payload(final(self).bins2@[i], tier_key(2, prf_key@))
                    || carried_filler(final(self).bins2@[i], tier_key(1, prf_key@), old(self).b),
            old(self).bins1@.len() > 2 * (old(self).b as int) * (old(self).z as int) ==> r is Err,
            (forall|v: int|
                0 <= v < old(self).b ==> cnt(
                    old(self).bins1@,
                    hashes_to_fn(tier_key(1, prf_key@), old(self).b, v),
                ) <= old(self).z as int) ==> r is Ok,
    {
        let ghost s0 = self.bins1@;
        let ghost pk = prf_key@;
        let b = self.b;
        let z = self.z;
        let ghost bz = (b as int) * (z as int);
        proof {
            assert forall|i: int|
                0 <= i < s0.len() implies pass_ready(#[trigger] s0[i]) && !is_filler(s0[i]) by {
                pass::lemma_staged_parts(s0[i].tag);
            }
            count::lemma_cnt_all(s0, nf_fn());
        }
        let k1 = pass::domain_key(1, prf_key);
        proof {
            assert(k1@ == tier_key(1, pk));
        }
        let (mut overflow, _spill1) = Self::build_pass(b, z, &mut self.bins1, k1.as_slice(), jobs);
        let ghost out1 = self.bins1@;
        let ghost ov1 = overflow@;
        pass::clear_marks(&mut overflow);
        let ghost ov1c = overflow@;
        proof {
            broadcast use vstd::multiset::group_multiset_axioms;

            assert forall|i: int|
                0 <= i < ov1c.len() implies pass_ready(#[trigger] ov1c[i]) && nf_fn()(ov1c[i])
                == nf_fn()(ov1[i]) && (nf_fn()(ov1c[i]) ==> rec_fn()(ov1c[i]) == rec_fn()(ov1[i]))
                && is_dummy(ov1c[i]) == is_dummy(ov1[i]) by {
                let e0 = ov1[i];
                let e = ov1c[i];
                assert(e.key == e0.key && e.val == e0.val && e.tag & TAG_DUMMY == e0.tag
                    & TAG_DUMMY && e.tag & TAG_FILLER == e0.tag & TAG_FILLER && pass_ready(e));
                assert(is_filler(e) == is_filler(e0));
                assert(is_dummy(e) == is_dummy(e0));
            }
            count::lemma_fold_pointwise(ov1, ov1c, rec_fn(), nf_fn());
            count::lemma_proj_len(s0, rec_fn(), nf_fn());
            count::lemma_proj_len(out1, rec_fn(), nf_fn());
            count::lemma_proj_len(ov1, rec_fn(), nf_fn());
            count::lemma_proj_len(ov1c, rec_fn(), nf_fn());
            count::lemma_cnt_bounds(out1, nf_fn());
            // the overflow holds what tier 1 could not: at least n - b*z
            // non-filler records
            assert(cnt(ov1c, nf_fn()) >= cnt(s0, nf_fn()) - bz);
        }
        let k2 = pass::domain_key(2, prf_key);
        proof {
            assert(k2@ == tier_key(2, pk));
        }
        let (dropped, excess2) = Self::build_pass(b, z, &mut overflow, k2.as_slice(), jobs);
        let ghost out2 = overflow@;
        let ghost dr = dropped@;
        proof {
            broadcast use vstd::multiset::group_multiset_axioms;

            assert(2 * (b as int) * (z as int) == 2 * ((b as int) * (z as int)))
                by (nonlinear_arith);
            // soundness: whatever both tiers hold was staged
            assert(nonfiller_recs(out1).add(nonfiller_recs(out2)).subset_of(nonfiller_recs(s0)))
                by {
                assert forall|rv: (Seq<u8>, Seq<u8>, bool)|
                    #[trigger] nonfiller_recs(out1).add(nonfiller_recs(out2)).count(rv)
                        <= nonfiller_recs(s0).count(rv) by {
                    assert(nonfiller_recs(s0).count(rv) == nonfiller_recs(out1).count(rv)
                        + nonfiller_recs(out2).count(rv) + nonfiller_recs(dr).count(rv));
                }
            }
            if !excess2 {
                // nothing real was dropped: the dropped pile is all
                // filler, so the two tiers carry the whole batch
                count::lemma_cnt_bounds(dr, exc_nf_fn());
                assert forall|i: int| 0 <= i < dr.len() implies !nf_fn()(#[trigger] dr[i]) by {
                    if nf_fn()(dr[i]) {
                        assert(exc_nf_fn()(dr[i]));
                        count::lemma_cnt_witness(dr, exc_nf_fn(), i);
                    }
                }
                count::lemma_proj_none(dr, rec_fn(), nf_fn());
                assert(nonfiller_recs(out2).add(nonfiller_recs(dr)) =~= nonfiller_recs(out2));
                assert(nonfiller_recs(out1).add(nonfiller_recs(out2)) == nonfiller_recs(s0));
            }
            // a batch whose every tier-1 bin fits overflows nothing real,
            // so the second pass cannot fail
            if forall|v: int|
                0 <= v < b ==> cnt(s0, #[trigger] hashes_to_fn(tier_key(1, pk), b, v))
                    <= z as int {
                assert(cnt(ov1, nf_fn()) == 0);
                assert(cnt(ov1c, nf_fn()) == 0);
                count::lemma_proj_len(out2, rec_fn(), nf_fn());
                count::lemma_proj_len(dr, rec_fn(), nf_fn());
                count::lemma_cnt_bounds(out2, nf_fn());
                count::lemma_cnt_bounds(dr, nf_fn());
                assert(cnt(dr, nf_fn()) == 0);
                count::lemma_cnt_implies(dr, exc_nf_fn(), nf_fn());
                count::lemma_cnt_bounds(dr, exc_nf_fn());
                assert(!excess2);
            }
            // tier 1's retention and filler facts come from pass 1: the
            // staged batch holds no fillers, so none could be inherited
            assert forall|i: int|
                0 <= i < out1.len() && is_filler(#[trigger] out1[i]) implies filler_payload(
                out1[i],
                tier_key(1, pk),
            ) by {
                assert(!inherited_filler(out1[i], s0));
            }
            // tier 2's fillers are pass 2's own or pass-1 fillers carried
            // through the cleared pile
            assert forall|i: int|
                0 <= i < out2.len() && is_filler(#[trigger] out2[i]) implies filler_payload(
                out2[i],
                tier_key(2, pk),
            ) || carried_filler(out2[i], tier_key(1, pk), b) by {
                if !filler_payload(out2[i], tier_key(2, pk)) {
                    assert(inherited_filler(out2[i], ov1c));
                    let j = choose|j: int|
                        0 <= j < ov1c.len() && is_filler(#[trigger] ov1c[j]) && ov1c[j].key
                            == out2[i].key && ov1c[j].val == out2[i].val && is_dummy(ov1c[j])
                            == is_dummy(out2[i]);
                    assert(is_filler(ov1[j]) && ov1[j].key == ov1c[j].key && ov1[j].val
                        == ov1c[j].val && is_dummy(ov1[j]) == is_dummy(ov1c[j]));
                    assert(!inherited_filler(ov1[j], s0));
                    assert(filler_payload(ov1[j], tier_key(1, pk)));
                    assert(0 <= bin_of(ov1[j]) < b);
                    assert(out2[i].key@ == crate::crypto::prf_of(
                        tier_key(1, pk),
                        le_bytes16(bin_of(ov1[j]) as u16),
                    ));
                    assert(carried_filler(out2[i], tier_key(1, pk), b));
                }
            }
        }
        self.bins2 = overflow;
        if excess2 {
            Err(OhtError::CapacityExceeded)
        } else {
            Ok(())
        }
    }

    /// Look up a key in the built table.
    ///
    /// Both tiers' candidate bins are scanned in full — exactly `z`
    /// records each, whatever the outcome — and all flag tests and value
    /// selections go through the branch-free primitives, so the access
    /// pattern of a lookup is one and the same for every query. The
    /// query's `val` field is the placeholder returned when nothing is
    /// found; a query tagged dummy is forced to not-found with that
    /// placeholder. Decryption of a stored value is the caller's step
    /// after this returns.
    pub fn lookup(&self, query: Elem, prf_key: &[u8]) -> (r: (bool, [u8; VAL_SIZE]))
        requires
            self.b >= 1,
            self.bins1@.len() == (self.b as int) * (self.z as int),
            self.bins2@.len() == (self.b as int) * (self.z as int),
        ensures
            r.0 == spec_lookup(*self, query, prf_key@).0,
            r.1@ == spec_lookup(*self, query, prf_key@).1,
    {
        let key = &query.key;
        let null_val = &query.val;
        let b = self.b;
        let z = self.z;
        let ghost pk = prf_key@;

        let len1 = self.bins1.len();
        let len2 = self.bins2.len();

        let k1 = pass::domain_key(1, prf_key);
        let bins1_bin_idx = crypto::prf_int(k1.as_slice(), key.as_slice(), b);
        proof {
            vstd::arithmetic::mul::lemma_mul_nonnegative(bins1_bin_idx as int, z as int);
            vstd::arithmetic::mul::lemma_mul_is_distributive_add_other_way(
                z as int,
                bins1_bin_idx as int,
                1,
            );
            vstd::arithmetic::mul::lemma_mul_inequality(
                bins1_bin_idx as int + 1,
                b as int,
                z as int,
            );
        }
        let bins1_bin_start = bins1_bin_idx as usize * z;
        let bins1_range = &self.bins1[bins1_bin_start..bins1_bin_start + z];
        let (bins1_found, bins1_val) = self.lookup_bin(bins1_range, &query);
        proof {
            assert(bins1_range@.subrange(0, z as int) =~= bins1_range@);
            lemma_scan_equiv(
                bins1_range@,
                0,
                self.bins1@,
                bins1_bin_start as int,
                z as int,
                query.key@,
                query.val@,
            );
        }

        let k2 = pass::domain_key(2, prf_key);
        let bins2_bin_idx = crypto::prf_int(k2.as_slice(), key.as_slice(), b);
        proof {
            vstd::arithmetic::mul::lemma_mul_nonnegative(bins2_bin_idx as int, z as int);
            vstd::arithmetic::mul::lemma_mul_is_distributive_add_other_way(
                z as int,
                bins2_bin_idx as int,
                1,
            );
            vstd::arithmetic::mul::lemma_mul_inequality(
                bins2_bin_idx as int + 1,
                b as int,
                z as int,
            );
        }
        let bins2_bin_start = bins2_bin_idx as usize * z;
        let bins2_range = &self.bins2[bins2_bin_start..bins2_bin_start + z];
        let (bins2_found, bins2_val) = self.lookup_bin(bins2_range, &query);
        proof {
            assert(bins2_range@.subrange(0, z as int) =~= bins2_range@);
            lemma_scan_equiv(
                bins2_range@,
                0,
                self.bins2@,
                bins2_bin_start as int,
                z as int,
                query.key@,
                query.val@,
            );
        }

        let found = obl::ochoose_bool(bins1_found, true, bins2_found);
        let val = *null_val;
        let val = obl::ochoose_val(bins2_found, bins2_val, val);
        let val = obl::ochoose_val(bins1_found, bins1_val, val);
        let query_dummy = obl::ogt(query.tag & TAG_DUMMY, 0);
        let found = obl::ochoose_bool(query_dummy, false, found);
        let val = obl::ochoose_val(query_dummy, *null_val, val);
        (found, val)
    }

    /// Scan one bin's records for the query key: every record in the
    /// window is read, and the first one that matches — equal key, neither
    /// dummy nor filler — supplies the returned value. Without a match the
    /// query's own `val` comes back. The found flag and the value are
    /// accumulated through branch-free selects; there is no early exit.
    pub fn lookup_bin(&self, bin_range: &[Elem], query: &Elem) -> (r: (bool, [u8; VAL_SIZE]))
        ensures
            r.0 == scan_found(bin_range@, 0, bin_range@.len() as int, query.key@),
            r.1@ == scan_val(bin_range@, 0, bin_range@.len() as int, query.key@, query.val@),
    {
        let mut found = false;
        let null_val = &query.val;
        let mut val = *null_val;
        let n = bin_range.len();
        let mut i: usize = 0;
        while i < n
            invariant
                i <= n,
                n == bin_range@.len(),
                found == scan_found(bin_range@, 0, i as int, query.key@),
                val@ == scan_val(bin_range@, 0, i as int, query.key@, query.val@),
            decreases n - i,
        {
            let elem = &bin_range[i];
            let key_eq = obl::oeq_key(elem.key, query.key);
            let elem_dummy = obl::ogt(elem.tag & TAG_DUMMY, 0);
            let elem_filler = obl::ogt(elem.tag & TAG_FILLER, 0);
            let found_here = obl::ochoose_bool(
                key_eq,
                obl::ochoose_bool(elem_dummy, false, obl::ochoose_bool(elem_filler, false, true)),
                false,
            );
            proof {
                assert(found_here == elem_matches(bin_range@[i as int], query.key@));
                lemma_scan_found_extend(bin_range@, 0, i as int, query.key@);
                lemma_scan_val_extend(bin_range@, 0, i as int, query.key@, query.val@);
                if !found {
                    lemma_scan_val_not_found(bin_range@, 0, i as int, query.key@, query.val@);
                }
            }
            let fresh = obl::ochoose_bool(found, false, found_here);
            val = obl::ochoose_val(fresh, elem.val, val);
            found = obl::ochoose_bool(found, true, found_here);
            i = i + 1;
        }
        (found, val)
    }

    /// Total number of records the two tiers hold.
    pub fn len(&self) -> (r: usize)
        requires
            self.bins1@.len() + self.bins2@.len() <= usize::MAX,
        ensures
            r == self.bins1@.len() + self.bins2@.len(),
    {
        self.bins1.len() + self.bins2.len()
    }

    /// True when both tiers are empty.
    pub fn is_empty(&self) -> (r: bool)
        requires
            self.bins1@.len() + self.bins2@.len() <= usize::MAX,
        ensures
            r == (self.bins1@.len() + self.bins2@.len() == 0),
    {
        self.len() == 0
    }
}

/// A match in a window puts the pair of the query key and the scanned
/// value among the tier's stored non-filler payloads.
proof fn lemma_scan_rec(s: Seq<Elem>, lo: int, n: int, k: Seq<u8>, dflt: Seq<u8>)
    requires
        scan_found(s, lo, n, k),
        0 <= lo,
        n >= 0,
        lo + n <= s.len(),
    ensures
        nonfiller_recs(s).count((k, scan_val(s, lo, n, k, dflt), false)) > 0,
{
    lemma_scan_val_found(s, lo, n, k, dflt);
    let t0 = choose|t0: int|
        lo <= t0 < lo + n && elem_matches(#[trigger] s[t0], k) && scan_val(s, lo, n, k, dflt)
            == s[t0].val@;
    assert(nf_fn()(s[t0]) && rec_fn()(s[t0]) == (k, scan_val(s, lo, n, k, dflt), false));
    count::lemma_proj_contains(s, rec_fn(), nf_fn(), (k, scan_val(s, lo, n, k, dflt), false));
}

/// A payload a shaped, keyed tier stores is found by scanning the bin its
/// key hashes to.
proof fn lemma_rec_in_tier(s: Seq<Elem>, b: u16, z: usize, pk1: Seq<u8>, rv: (Seq<u8>, Seq<u8>, bool))
    requires
        b >= 1,
        z >= 1,
        tier_shaped(s, b, z),
        bins_keyed(s, pk1, b),
        nonfiller_recs(s).count(rv) > 0,
        rv.2 == false,
    ensures
        scan_found(s, (bin_index_of(pk1, rv.0, b) as int) * (z as int), z as int, rv.0),
{
    let zi = z as int;
    count::lemma_proj_contains(s, rec_fn(), nf_fn(), rv);
    let idx = choose|i: int| 0 <= i < s.len() && nf_fn()(s[i]) && rec_fn()(#[trigger] s[i]) == rv;
    let e = s[idx];
    assert(e.key@ == rv.0 && !is_dummy(e) && !is_filler(e));
    let i1 = bin_index_of(pk1, rv.0, b) as int;
    assert(bin_of(e) == bin_index_of(pk1, rv.0, b));
    assert(bin_of(e) as int == idx / zi);
    vstd::arithmetic::div_mod::lemma_fundamental_div_mod(idx, zi);
    vstd::arithmetic::div_mod::lemma_mod_bound(idx, zi);
    vstd::arithmetic::mul::lemma_mul_is_commutative(zi, i1);
    assert(i1 * zi <= idx < i1 * zi + zi);
    assert(elem_matches(s[idx], rv.0));
    assert(scan_found(s, i1 * zi, zi, rv.0));
}

/// In a distinct-keyed batch, a stored payload with the key of the batch's
/// record `j` is that record's payload.
proof fn lemma_unique_key_val(input: Seq<Elem>, j: int, rv: (Seq<u8>, Seq<u8>, bool))
    requires
        forall|p: int, p2: int|
            0 <= p < p2 < input.len() ==> #[trigger] input[p].key@ != #[trigger] input[p2].key@,
        0 <= j < input.len(),
        rv.0 == input[j].key@,
        nonfiller_recs(input).count(rv) > 0,
    ensures
        rv.1 == input[j].val@,
        rv.2 == is_dummy(input[j]),
{
    count::lemma_proj_contains(input, rec_fn(), nf_fn(), rv);
    let j2 = choose|i: int|
        0 <= i < input.len() && nf_fn()(input[i]) && rec_fn()(#[trigger] input[i]) == rv;
    assert(input[j2].key@ == rv.0);
    if j2 != j {
        assert(input[j2].key@ != input[j].key@);
        assert(false);
    }
}

/// What a lookup finds was staged: a found result carries the key and the
/// value of some staged non-dummy record. In particular a record staged as
/// a dummy is never the returned one, and a key that no staged non-dummy
/// record carried — a filler's internally derived key, say — comes back
/// not-found with the query's placeholder value.
pub proof fn lemma_lookup_sound(t: Oht, input: Seq<Elem>, q: Elem, pk: Seq<u8>)
    requires
        t.b >= 1,
        nonfiller_recs(t.bins1@).add(nonfiller_recs(t.bins2@)).subset_of(nonfiller_recs(input)),
        t.bins1@.len() == (t.b as int) * (t.z as int),
        t.bins2@.len() == (t.b as int) * (t.z as int),
    ensures
        spec_lookup(t, q, pk).0 ==> exists|j: int|
            0 <= j < input.len() && !is_dummy(#[trigger] input[j]) && !is_filler(input[j])
                && input[j].key@ == q.key@ && input[j].val@ == spec_lookup(t, q, pk).1,
        !spec_lookup(t, q, pk).0 ==> spec_lookup(t, q, pk).1 == q.val@,
{
    broadcast use vstd::multiset::group_multiset_axioms;

    let zi = t.z as int;
    let i1 = bin_index_of(tier_key(1, pk), q.key@, t.b) as int;
    let i2 = bin_index_of(tier_key(2, pk), q.key@, t.b) as int;
    if spec_lookup(t, q, pk).0 {
        let v = spec_lookup(t, q, pk).1;
        let rv = (q.key@, v, false);
        assert(nonfiller_recs(input).count(rv) > 0) by {
            if scan_found(t.bins1@, i1 * zi, zi, q.key@) {
                lemma_window_in_tier(t.b, t.z, i1);
                lemma_scan_rec(t.bins1@, i1 * zi, zi, q.key@, q.val@);
            } else {
                lemma_window_in_tier(t.b, t.z, i2);
                lemma_scan_rec(t.bins2@, i2 * zi, zi, q.key@, q.val@);
            }
        }
        count::lemma_proj_contains(input, rec_fn(), nf_fn(), rv);
        let j = choose|i: int|
            0 <= i < input.len() && nf_fn()(input[i]) && rec_fn()(#[trigger] input[i]) == rv;
        assert(0 <= j < input.len() && !is_dummy(input[j]) && !is_filler(input[j])
            && input[j].key@ == q.key@ && input[j].val@ == v);
    }
}

/// A tier's scan window lies inside the tier: bin `i` of a `b`-bin tier
/// with `z`-record bins spans slots `i * z` to `(i + 1) * z`.
proof fn lemma_window_in_tier(b: u16, z: usize, i: int)
    requires
        0 <= i < b,
    ensures
        0 <= i * (z as int),
        i * (z as int) + (z as int) <= (b as int) * (z as int),
{
    let zi = z as int;
    vstd::arithmetic::mul::lemma_mul_nonnegative(i, zi);
    vstd::arithmetic::mul::lemma_mul_is_distributive_add_other_way(zi, i, 1);
    vstd::arithmetic::mul::lemma_mul_inequality(i + 1, b as int, zi);
}

/// Nothing staged below capacity is lost: after a build of a distinct-keyed
/// batch whose two tiers carry the whole batch, each staged record —
/// dummies included — is stored exactly once across the tiers, and looking
/// up a non-dummy record's key returns its value.
pub proof fn lemma_no_loss(t: Oht, input: Seq<Elem>, pk: Seq<u8>, q: Elem, j: int)
    requires
        t.b >= 1,
        t.z >= 1,
        t.bins1@.len() == (t.b as int) * (t.z as int),
        t.bins2@.len() == (t.b as int) * (t.z as int),
        tier_shaped(t.bins1@, t.b, t.z),
        tier_shaped(t.bins2@, t.b, t.z),
        bins_keyed(t.bins1@, tier_key(1, pk), t.b),
        bins_keyed(t.bins2@, tier_key(2, pk), t.b),
        nonfiller_recs(t.bins1@).add(nonfiller_recs(t.bins2@)) == nonfiller_recs(input),
        all_staged(input),
        forall|p: int, p2: int|
            0 <= p < p2 < input.len() ==> #[trigger] input[p].key@ != #[trigger] input[p2].key@,
        0 <= j < input.len(),
        !is_dummy(input[j]),
        !is_dummy(q),
        q.key@ == input[j].key@,
    ensures
        spec_lookup(t, q, pk).0,
        spec_lookup(t, q, pk).1 == input[j].val@,
        nonfiller_recs(t.bins1@).count(rec_fn()(input[j])) + nonfiller_recs(t.bins2@).count(
            rec_fn()(input[j]),
        ) == 1,
{
    broadcast use vstd::multiset::group_multiset_axioms;

    let zi = t.z as int;
    let kq = q.key@;
    let rv = rec_fn()(input[j]);
    assert(rv == (kq, input[j].val@, false));
    // the batch holds the payload exactly once
    assert(nf_fn()(input[j])) by {
        pass::lemma_staged_parts(input[j].tag);
    }
    count::lemma_proj_contains(input, rec_fn(), nf_fn(), rv);
    assert(nonfiller_recs(input).count(rv) >= 1);
    assert forall|p: int, p2: int|
        0 <= p < p2 < input.len() && nf_fn()(input[p]) && nf_fn()(input[p2])
            implies #[trigger] rec_fn()(input[p]) != #[trigger] rec_fn()(input[p2]) by {
        assert(input[p].key@ != input[p2].key@);
    }
    count::lemma_proj_at_most_one(input, rec_fn(), nf_fn(), rv);
    let c1 = nonfiller_recs(t.bins1@).count(rv);
    let c2 = nonfiller_recs(t.bins2@).count(rv);
    assert(c1 + c2 == 1);
    let i1 = bin_index_of(tier_key(1, pk), kq, t.b) as int;
    let i2 = bin_index_of(tier_key(2, pk), kq, t.b) as int;
    lemma_window_in_tier(t.b, t.z, i1);
    lemma_window_in_tier(t.b, t.z, i2);
    if c1 >= 1 {
        lemma_rec_in_tier(t.bins1@, t.b, t.z, tier_key(1, pk), rv);
        assert(scan_found(t.bins1@, i1 * zi, zi, kq));
        lemma_scan_rec(t.bins1@, i1 * zi, zi, kq, q.val@);
        lemma_unique_key_val(input, j, (kq, scan_val(t.bins1@, i1 * zi, zi, kq, q.val@), false));
    } else {
        // tier 1 cannot find the key at all: a match there would be a
        // stored payload with this key, which the batch holds once, in
        // tier 2
        if scan_found(t.bins1@, i1 * zi, zi, kq) {
            lemma_scan_rec(t.bins1@, i1 * zi, zi, kq, q.val@);
            let v1 = scan_val(t.bins1@, i1 * zi, zi, kq, q.val@);
            lemma_unique_key_val(input, j, (kq, v1, false));
            assert((kq, v1, false) == rv);
            assert(false);
        }
        lemma_rec_in_tier(t.bins2@, t.b, t.z, tier_key(2, pk), rv);
        assert(scan_found(t.bins2@, i2 * zi, zi, kq));
        lemma_scan_rec(t.bins2@, i2 * zi, zi, kq, q.val@);
        lemma_unique_key_val(input, j, (kq, scan_val(t.bins2@, i2 * zi, zi, kq, q.val@), false));
    }
}

/// Looking the same query up twice against an unchanged table gives the
/// same answer: what a lookup returns is a function of the table, the
/// query record, and the secret alone.
pub proof fn lemma_lookup_idempotent(
    t: Oht,
    q: Elem,
    pk: Seq<u8>,
    r1: (bool, Seq<u8>),
    r2: (bool, Seq<u8>),
)
    requires
        r1 == spec_lookup(t, q, pk),
        r2 == spec_lookup(t, q, pk),
    ensures
        r1 == r2,
{
}

} // verus!
