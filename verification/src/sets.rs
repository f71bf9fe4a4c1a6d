//! Sets of symbol indices, and the measures by which the fixed-point passes
//! are seen to end.

use std::collections::BTreeSet;
use vstd::prelude::*;
use vstd::set_lib::{lemma_len_subset, lemma_subset_equality};

verus! {

broadcast use vstd::std_specs::btree::group_btree_axioms;

/// `BTreeSet::append` of the standard library: moves every element of `other`
/// into `set`, so that `set` holds the union of the two and `other` is left
/// empty.
#[verifier::external_body]
fn set_append(set: &mut BTreeSet<usize>, other: &mut BTreeSet<usize>)
    ensures
        final(set)@ == old(set)@.union(old(other)@),
        final(other)@ == Set::<usize>::empty(),
{
    set.append(other)
}

/// Every element of the set is below `n`.
pub open spec fn below(s: Set<usize>, n: nat) -> bool {
    forall|t: usize| s.contains(t) ==> t < n
}

/// A set of numbers below `n` is finite and has at most `n` elements.
pub proof fn lemma_bounded_finite(s: Set<usize>, n: nat)
    requires
        below(s, n),
    ensures
        s.finite(),
        s.len() <= n,
    decreases n,
{
    if n == 0 {
        assert(s =~= Set::<usize>::empty());
    } else {
        let top = (n - 1) as usize;
        if n - 1 > usize::MAX {
            lemma_bounded_finite(s, (n - 1) as nat);
        } else {
            let rest = s.remove(top);
            lemma_bounded_finite(rest, (n - 1) as nat);
            if s.contains(top) {
                assert(s =~= rest.insert(top));
            } else {
                assert(s =~= rest);
            }
        }
    }
}

/// Adds the elements of `src` to `dst` and says whether `dst` grew.
pub fn union_into(dst: &mut BTreeSet<usize>, src: BTreeSet<usize>) -> (grew: bool)
    requires
        old(dst)@.finite(),
        src@.finite(),
    ensures
        final(dst)@ == old(dst)@.union(src@),
        grew == (final(dst)@ != old(dst)@),
        final(dst)@.finite(),
{
    let mut tmp = src;
    let n1 = dst.len();
    set_append(dst, &mut tmp);
    let grew = dst.len() > n1;
    proof {
        assert(old(dst)@.subset_of(dst@));
        if !grew {
            lemma_len_subset(old(dst)@, dst@);
            lemma_subset_equality(old(dst)@, dst@);
        }
    }
    grew
}

/// Adds `t` to `dst` and says whether it was new.
pub fn insert_into(dst: &mut BTreeSet<usize>, t: usize) -> (grew: bool)
    ensures
        final(dst)@ == old(dst)@.insert(t),
        grew == (final(dst)@ != old(dst)@),
        grew == !old(dst)@.contains(t),
{
    let grew = dst.insert(t);
    proof {
        if !grew {
            assert(dst@ =~= old(dst)@);
        } else {
            assert(dst@.contains(t));
        }
    }
    grew
}

/// The sizes of the sets, added up.
pub open spec fn total_len(sets: Seq<Set<usize>>) -> nat
    decreases sets.len(),
{
    if sets.len() == 0 {
        0
    } else {
        total_len(sets.drop_last()) + sets.last().len()
    }
}

/// Replacing one set by a finite superset raises the total by the number of
/// elements gained.
pub proof fn lemma_total_len_update(sets: Seq<Set<usize>>, i: int, grown: Set<usize>)
    requires
        0 <= i < sets.len(),
        sets[i].subset_of(grown),
        grown.finite(),
    ensures
        total_len(sets.update(i, grown)) == total_len(sets) - sets[i].len() + grown.len(),
        sets[i].len() <= grown.len(),
        sets[i] != grown ==> sets[i].len() < grown.len(),
    decreases sets.len(),
{
    lemma_len_subset(sets[i], grown);
    if sets[i].len() == grown.len() {
        lemma_subset_equality(sets[i], grown);
    }
    let after = sets.update(i, grown);
    if i == sets.len() - 1 {
        assert(after.drop_last() =~= sets.drop_last());
    } else {
        lemma_total_len_update(sets.drop_last(), i, grown);
        assert(after.drop_last() =~= sets.drop_last().update(i, grown));
    }
}

/// Sets that only grew have a total no smaller, and a greater one if any set
/// grew.
pub proof fn lemma_total_len_mono(f: Seq<Set<usize>>, g: Seq<Set<usize>>)
    requires
        f.len() == g.len(),
        forall|i: int| 0 <= i < f.len() ==> (#[trigger] f[i]).subset_of(g[i]),
        forall|i: int| 0 <= i < g.len() ==> (#[trigger] g[i]).finite(),
    ensures
        total_len(f) <= total_len(g),
        f != g ==> total_len(f) < total_len(g),
    decreases f.len(),
{
    if f.len() > 0 {
        let f0 = f.drop_last();
        let g0 = g.drop_last();
        assert forall|i: int| 0 <= i < f0.len() implies (#[trigger] f0[i]).subset_of(g0[i]) by {
            assert(f[i].subset_of(g[i]));
        }
        assert forall|i: int| 0 <= i < g0.len() implies (#[trigger] g0[i]).finite() by {
            assert(g[i].finite());
        }
        lemma_total_len_mono(f0, g0);
        assert(f.last().subset_of(g.last()));
        assert(g.last().finite());
        lemma_len_subset(f.last(), g.last());
        if f.last().len() == g.last().len() {
            lemma_subset_equality(f.last(), g.last());
        }
        if f0 == g0 && f.last() == g.last() {
            assert forall|i: int| 0 <= i < f.len() implies f[i] == g[i] by {
                if i < f.len() - 1 {
                    assert(f0[i] == f[i]);
                    assert(g0[i] == g[i]);
                }
            }
            assert(f =~= g);
        }
    } else {
        assert(f =~= g);
    }
}

/// Sets of numbers below `n` have at most `n` elements each.
pub proof fn lemma_total_len_bound(sets: Seq<Set<usize>>, n: nat)
    requires
        forall|i: int| 0 <= i < sets.len() ==> below(#[trigger] sets[i], n),
    ensures
        total_len(sets) <= sets.len() * n,
    decreases sets.len(),
{
    if sets.len() > 0 {
        lemma_total_len_bound(sets.drop_last(), n);
        lemma_bounded_finite(sets.last(), n);
        assert(sets.len() * n == (sets.len() - 1) * n + n) by (nonlinear_arith);
    }
}

/// How many of the flags are set.
pub open spec fn count_true(flags: Seq<bool>) -> nat
    decreases flags.len(),
{
    if flags.len() == 0 {
        0
    } else {
        count_true(flags.drop_last()) + if flags.last() {
            1nat
        } else {
            0nat
        }
    }
}

/// Setting a flag that was clear raises the count by one, and the count never
/// exceeds the number of flags.
pub proof fn lemma_count_true_set(flags: Seq<bool>, i: int)
    requires
        0 <= i < flags.len(),
        !flags[i],
    ensures
        count_true(flags.update(i, true)) == count_true(flags) + 1,
    decreases flags.len(),
{
    let after = flags.update(i, true);
    if i == flags.len() - 1 {
        assert(after.drop_last() =~= flags.drop_last());
    } else {
        lemma_count_true_set(flags.drop_last(), i);
        assert(after.drop_last() =~= flags.drop_last().update(i, true));
    }
}

/// No more flags are set than there are.
pub proof fn lemma_count_true_bound(flags: Seq<bool>)
    ensures
        count_true(flags) <= flags.len(),
    decreases flags.len(),
{
    if flags.len() > 0 {
        lemma_count_true_bound(flags.drop_last());
    }
}

} // verus!
