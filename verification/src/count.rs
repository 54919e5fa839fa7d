//! Counting and projection lemmas over sequences.
//!
//! The build pipeline's contracts are stated with two folds over record
//! sequences: [`cnt`], the number of elements satisfying a predicate, and
//! [`proj_mset`], the multiset of projections of the elements satisfying a
//! predicate. The lemmas here relate both folds to pushes, concatenations,
//! removals, permutations, and pointwise rewrites, which is exactly how the
//! pipeline manipulates its buffers.

use vstd::multiset::Multiset;
use vstd::prelude::*;
use vstd::seq_lib::group_to_multiset_ensures;

verus! {

/// Number of elements of `s` satisfying `p`.
pub open spec fn cnt<A>(s: Seq<A>, p: spec_fn(A) -> bool) -> int
    decreases s.len(),
{
    if s.len() == 0 {
        0
    } else {
        cnt(s.drop_last(), p) + if p(s.last()) {
            1int
        } else {
            0int
        }
    }
}

/// Multiset of `f`-projections of the elements of `s` satisfying `p`.
pub open spec fn proj_mset<A, B>(s: Seq<A>, f: spec_fn(A) -> B, p: spec_fn(A) -> bool) -> Multiset<
    B,
>
    decreases s.len(),
{
    if s.len() == 0 {
        Multiset::empty()
    } else if p(s.last()) {
        proj_mset(s.drop_last(), f, p).insert(f(s.last()))
    } else {
        proj_mset(s.drop_last(), f, p)
    }
}

pub proof fn lemma_cnt_bounds<A>(s: Seq<A>, p: spec_fn(A) -> bool)
    ensures
        0 <= cnt(s, p) <= s.len(),
    decreases s.len(),
{
    if s.len() > 0 {
        lemma_cnt_bounds(s.drop_last(), p);
    }
}

pub proof fn lemma_cnt_push<A>(s: Seq<A>, p: spec_fn(A) -> bool, x: A)
    ensures
        cnt(s.push(x), p) == cnt(s, p) + if p(x) {
            1int
        } else {
            0int
        },
{
    assert(s.push(x).drop_last() =~= s);
    assert(s.push(x).last() == x);
}

pub proof fn lemma_proj_push<A, B>(s: Seq<A>, f: spec_fn(A) -> B, p: spec_fn(A) -> bool, x: A)
    ensures
        proj_mset(s.push(x), f, p) == if p(x) {
            proj_mset(s, f, p).insert(f(x))
        } else {
            proj_mset(s, f, p)
        },
{
    assert(s.push(x).drop_last() =~= s);
    assert(s.push(x).last() == x);
}

pub proof fn lemma_cnt_concat<A>(a: Seq<A>, b: Seq<A>, p: spec_fn(A) -> bool)
    ensures
        cnt(a + b, p) == cnt(a, p) + cnt(b, p),
    decreases b.len(),
{
    if b.len() == 0 {
        assert(a + b =~= a);
    } else {
        assert((a + b).drop_last() =~= a + b.drop_last());
        assert((a + b).last() == b.last());
        lemma_cnt_concat(a, b.drop_last(), p);
    }
}

pub proof fn lemma_proj_concat<A, B>(a: Seq<A>, b: Seq<A>, f: spec_fn(A) -> B, p: spec_fn(
    A,
) -> bool)
    ensures
        proj_mset(a + b, f, p) == proj_mset(a, f, p).add(proj_mset(b, f, p)),
    decreases b.len(),
{
    if b.len() == 0 {
        assert(a + b =~= a);
        assert(proj_mset(a, f, p).add(Multiset::empty()) =~= proj_mset(a, f, p));
    } else {
        assert((a + b).drop_last() =~= a + b.drop_last());
        assert((a + b).last() == b.last());
        lemma_proj_concat(a, b.drop_last(), f, p);
        if p(b.last()) {
            assert(proj_mset(a, f, p).add(proj_mset(b.drop_last(), f, p)).insert(f(b.last()))
                =~= proj_mset(a, f, p).add(proj_mset(b.drop_last(), f, p).insert(f(b.last()))));
        }
    }
}

/// Counting a prefix one element longer adds the indicator of that element.
pub proof fn lemma_cnt_take_step<A>(s: Seq<A>, p: spec_fn(A) -> bool, i: int)
    requires
        0 <= i < s.len(),
    ensures
        cnt(s.take(i + 1), p) == cnt(s.take(i), p) + if p(s[i]) {
            1int
        } else {
            0int
        },
{
    assert(s.take(i + 1) =~= s.take(i).push(s[i]));
    lemma_cnt_push(s.take(i), p, s[i]);
}

pub proof fn lemma_cnt_all<A>(s: Seq<A>, p: spec_fn(A) -> bool)
    requires
        forall|i: int| 0 <= i < s.len() ==> p(s[i]),
    ensures
        cnt(s, p) == s.len(),
    decreases s.len(),
{
    if s.len() > 0 {
        lemma_cnt_all(s.drop_last(), p);
    }
}

pub proof fn lemma_cnt_none<A>(s: Seq<A>, p: spec_fn(A) -> bool)
    requires
        forall|i: int| 0 <= i < s.len() ==> !p(s[i]),
    ensures
        cnt(s, p) == 0,
    decreases s.len(),
{
    if s.len() > 0 {
        lemma_cnt_none(s.drop_last(), p);
    }
}

/// Two sequences that agree pointwise on the predicate and, where it holds,
/// on the projection, have the same counts and the same projections.
pub proof fn lemma_fold_pointwise<A, B>(
    s: Seq<A>,
    t: Seq<A>,
    f: spec_fn(A) -> B,
    p: spec_fn(A) -> bool,
)
    requires
        s.len() == t.len(),
        forall|i: int| 0 <= i < s.len() ==> p(s[i]) == p(t[i]),
        forall|i: int| 0 <= i < s.len() && p(s[i]) ==> f(s[i]) == f(t[i]),
    ensures
        cnt(s, p) == cnt(t, p),
        proj_mset(s, f, p) == proj_mset(t, f, p),
    decreases s.len(),
{
    if s.len() > 0 {
        assert(s.last() == s[s.len() - 1]);
        assert(t.last() == t[t.len() - 1]);
        lemma_fold_pointwise(s.drop_last(), t.drop_last(), f, p);
    }
}

pub proof fn lemma_cnt_remove<A>(s: Seq<A>, p: spec_fn(A) -> bool, i: int)
    requires
        0 <= i < s.len(),
    ensures
        cnt(s.remove(i), p) == cnt(s, p) - if p(s[i]) {
            1int
        } else {
            0int
        },
{
    let a = s.take(i);
    let b = s.skip(i + 1);
    assert(s.remove(i) =~= a + b);
    assert(s =~= a.push(s[i]) + b);
    lemma_cnt_concat(a, b, p);
    lemma_cnt_concat(a.push(s[i]), b, p);
    lemma_cnt_push(a, p, s[i]);
}

pub proof fn lemma_proj_remove<A, B>(s: Seq<A>, f: spec_fn(A) -> B, p: spec_fn(A) -> bool, i: int)
    requires
        0 <= i < s.len(),
    ensures
        p(s[i]) ==> proj_mset(s, f, p) == proj_mset(s.remove(i), f, p).insert(f(s[i])),
        !p(s[i]) ==> proj_mset(s, f, p) == proj_mset(s.remove(i), f, p),
{
    let a = s.take(i);
    let b = s.skip(i + 1);
    assert(s.remove(i) =~= a + b);
    assert(s =~= a.push(s[i]) + b);
    lemma_proj_concat(a, b, f, p);
    lemma_proj_concat(a.push(s[i]), b, f, p);
    lemma_proj_push(a, f, p, s[i]);
    if p(s[i]) {
        assert(proj_mset(a, f, p).insert(f(s[i])).add(proj_mset(b, f, p)) =~= proj_mset(a, f, p).add(
            proj_mset(b, f, p),
        ).insert(f(s[i])));
    }
}

/// Counts and projections are invariant under permutation.
pub proof fn lemma_fold_perm<A, B>(s: Seq<A>, t: Seq<A>, f: spec_fn(A) -> B, p: spec_fn(A) -> bool)
    requires
        s.to_multiset() == t.to_multiset(),
    ensures
        cnt(s, p) == cnt(t, p),
        proj_mset(s, f, p) == proj_mset(t, f, p),
    decreases s.len(),
{
    broadcast use group_to_multiset_ensures;

    if s.len() == 0 {
        assert(t.to_multiset().len() == 0);
        assert(t.len() == 0);
    } else {
        let x = s.last();
        let s1 = s.drop_last();
        assert(s =~= s1.push(x));
        assert(s.to_multiset() == s1.to_multiset().insert(x));
        assert(s.to_multiset().count(x) > 0);
        assert(t.to_multiset().count(x) > 0);
        assert(t.contains(x));
        let i = choose|i: int| 0 <= i < t.len() && t[i] == x;
        let t1 = t.remove(i);
        assert(t1.to_multiset() == t.to_multiset().remove(x));
        assert(s1.to_multiset() =~= s.to_multiset().remove(x)) by {
            assert(s1.to_multiset().insert(x).remove(x) =~= s1.to_multiset());
        }
        lemma_fold_perm(s1, t1, f, p);
        lemma_cnt_remove(t, p, i);
        lemma_proj_remove(t, f, p, i);
        if p(x) {
            assert(cnt(s, p) == cnt(s1, p) + 1);
            assert(proj_mset(s, f, p) == proj_mset(s1, f, p).insert(f(x)));
        }
    }
}

/// The projection multiset contains a value exactly when some element
/// satisfying the predicate projects to it.
pub proof fn lemma_proj_contains<A, B>(s: Seq<A>, f: spec_fn(A) -> B, p: spec_fn(A) -> bool, y: B)
    ensures
        proj_mset(s, f, p).count(y) > 0 <==> exists|i: int|
            0 <= i < s.len() && p(s[i]) && f(s[i]) == y,
    decreases s.len(),
{
    if s.len() > 0 {
        lemma_proj_contains(s.drop_last(), f, p, y);
        let n = s.len() - 1;
        if p(s[n]) && f(s[n]) == y {
            assert(proj_mset(s, f, p).count(y) > 0);
        } else if exists|i: int| 0 <= i < s.len() && p(s[i]) && f(s[i]) == y {
            let i = choose|i: int| 0 <= i < s.len() && p(s[i]) && f(s[i]) == y;
            if i < n {
                assert(s.drop_last()[i] == s[i]);
            }
        }
    }
}

/// When no two selected elements project to the same value, no projection
/// occurs twice.
pub proof fn lemma_proj_at_most_one<A, B>(s: Seq<A>, f: spec_fn(A) -> B, p: spec_fn(A) -> bool, y: B)
    requires
        forall|i: int, j: int|
            0 <= i < j < s.len() && p(s[i]) && p(s[j]) ==> #[trigger] f(s[i]) != #[trigger] f(s[j]),
    ensures
        proj_mset(s, f, p).count(y) <= 1,
    decreases s.len(),
{
    broadcast use vstd::multiset::group_multiset_axioms;

    if s.len() > 0 {
        let n = s.len() - 1;
        let s1 = s.drop_last();
        assert(forall|i: int| 0 <= i < s1.len() ==> s1[i] == s[i]);
        lemma_proj_at_most_one(s1, f, p, y);
        assert(s.last() == s[n]);
        if p(s[n]) && f(s[n]) == y {
            if proj_mset(s1, f, p).count(y) > 0 {
                lemma_proj_contains(s1, f, p, y);
                let i = choose|i: int| 0 <= i < s1.len() && p(s1[i]) && f(s1[i]) == y;
                assert(f(s[i]) != f(s[n]));
                assert(false);
            }
        }
    }
}

/// The size of the projection multiset is the count of the predicate.
pub proof fn lemma_proj_len<A, B>(s: Seq<A>, f: spec_fn(A) -> B, p: spec_fn(A) -> bool)
    ensures
        proj_mset(s, f, p).len() == cnt(s, p),
    decreases s.len(),
{
    if s.len() > 0 {
        lemma_proj_len(s.drop_last(), f, p);
    }
}

/// A sequence none of whose elements satisfies the predicate projects to
/// the empty multiset.
pub proof fn lemma_proj_none<A, B>(s: Seq<A>, f: spec_fn(A) -> B, p: spec_fn(A) -> bool)
    requires
        forall|i: int| 0 <= i < s.len() ==> !p(s[i]),
    ensures
        proj_mset(s, f, p) == Multiset::<B>::empty(),
    decreases s.len(),
{
    if s.len() > 0 {
        lemma_proj_none(s.drop_last(), f, p);
    }
}

/// Two predicates that agree on every element of a sequence count alike.
pub proof fn lemma_cnt_eq_pred<A>(s: Seq<A>, p: spec_fn(A) -> bool, q: spec_fn(A) -> bool)
    requires
        forall|i: int| 0 <= i < s.len() ==> p(s[i]) == q(s[i]),
    ensures
        cnt(s, p) == cnt(s, q),
    decreases s.len(),
{
    if s.len() > 0 {
        lemma_cnt_eq_pred(s.drop_last(), p, q);
    }
}

/// A predicate that implies another on every element counts no higher.
pub proof fn lemma_cnt_implies<A>(s: Seq<A>, p: spec_fn(A) -> bool, q: spec_fn(A) -> bool)
    requires
        forall|i: int| 0 <= i < s.len() && p(s[i]) ==> q(s[i]),
    ensures
        cnt(s, p) <= cnt(s, q),
    decreases s.len(),
{
    if s.len() > 0 {
        lemma_cnt_implies(s.drop_last(), p, q);
    }
}

/// A property of every element carries over any permutation.
pub proof fn lemma_perm_all<A>(s: Seq<A>, t: Seq<A>, p: spec_fn(A) -> bool)
    requires
        s.to_multiset() == t.to_multiset(),
        forall|i: int| 0 <= i < s.len() ==> p(s[i]),
    ensures
        forall|i: int| 0 <= i < t.len() ==> p(t[i]),
{
    broadcast use group_to_multiset_ensures;

    assert forall|i: int| 0 <= i < t.len() implies p(t[i]) by {
        assert(t.to_multiset().count(t[i]) > 0);
        assert(s.to_multiset().count(t[i]) > 0);
        assert(s.contains(t[i]));
    }
}

/// The count of a predicate that holds exactly on the index window
/// `[a, b)` is the window's width.
pub proof fn lemma_cnt_window<A>(s: Seq<A>, p: spec_fn(A) -> bool, a: int, b: int)
    requires
        0 <= a <= b <= s.len(),
        forall|i: int| 0 <= i < s.len() ==> (p(s[i]) <==> a <= i < b),
    ensures
        cnt(s, p) == b - a,
    decreases s.len(),
{
    if a == b {
        lemma_cnt_none(s, p);
    } else {
        let n = s.len() - 1;
        let s1 = s.drop_last();
        assert(s.last() == s[n]);
        assert(forall|i: int| 0 <= i < s1.len() ==> s1[i] == s[i]);
        if b == s.len() {
            lemma_cnt_window(s1, p, a, b - 1);
        } else {
            lemma_cnt_window(s1, p, a, b);
        }
    }
}

/// An element satisfying the predicate makes the count positive.
pub proof fn lemma_cnt_witness<A>(s: Seq<A>, p: spec_fn(A) -> bool, i: int)
    requires
        0 <= i < s.len(),
        p(s[i]),
    ensures
        cnt(s, p) >= 1,
    decreases s.len(),
{
    lemma_cnt_bounds(s.drop_last(), p);
    if i < s.len() - 1 {
        assert(s.drop_last()[i] == s[i]);
        lemma_cnt_witness(s.drop_last(), p, i);
    } else {
        assert(s.last() == s[i]);
    }
}

/// In a sequence where the predicate only ever steps from true to false,
/// the elements satisfying it are exactly the prefix of length `cnt`.
pub proof fn lemma_cnt_prefix<A>(s: Seq<A>, p: spec_fn(A) -> bool)
    requires
        forall|i: int, j: int| 0 <= i < j < s.len() && p(s[j]) ==> p(s[i]),
    ensures
        forall|i: int| 0 <= i < s.len() ==> (p(s[i]) <==> i < cnt(s, p)),
    decreases s.len(),
{
    lemma_cnt_bounds(s, p);
    if s.len() > 0 {
        let n = s.len() - 1;
        assert(s.last() == s[n]);
        if p(s[n]) {
            assert(forall|i: int| 0 <= i < s.len() ==> p(s[i]));
            lemma_cnt_all(s, p);
        } else {
            let s1 = s.drop_last();
            assert(forall|i: int| 0 <= i < s1.len() ==> s1[i] == s[i]);
            lemma_cnt_prefix(s1, p);
            lemma_cnt_bounds(s1, p);
        }
    }
}

} // verus!
