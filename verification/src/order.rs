//! Stable ordering of items by a three-part key.
//!
//! The generator orders configurations, actions and states by small integer
//! keys. Rather than moving the items themselves, the order is computed as a
//! list of positions: entry `i` of the result names the item that comes `i`-th.

use vstd::prelude::*;

verus! {

/// A key of three parts, compared part by part from the first.
#[derive(Clone, Copy, Debug, PartialEq, Eq, Structural)]
pub struct Key3 {
    pub k0: usize,
    pub k1: usize,
    pub k2: usize,
}

/// `a` is strictly smaller than `b`, comparing the parts in turn.
pub open spec fn key_less(a: Key3, b: Key3) -> bool {
    a.k0 < b.k0 || (a.k0 == b.k0 && (a.k1 < b.k1 || (a.k1 == b.k1 && a.k2 < b.k2)))
}

/// Item `a` comes before item `b`: its key is smaller, or the keys are equal
/// and `a` stood first.
pub open spec fn comes_before(keys: Seq<Key3>, a: int, b: int) -> bool {
    key_less(keys[a], keys[b]) || (keys[a] == keys[b] && a < b)
}

/// Position `v` is listed in `order`.
pub open spec fn occurs(order: Seq<usize>, v: int) -> bool {
    exists|i: int| 0 <= i < order.len() && #[trigger] order[i] == v
}

/// `order` lists the positions `0 .. upto` of `keys`, each once, so that every
/// position comes before all that follow it.
pub open spec fn orders_prefix(keys: Seq<Key3>, order: Seq<usize>, upto: int) -> bool {
    &&& order.len() == upto
    &&& forall|i: int| 0 <= i < order.len() ==> 0 <= #[trigger] order[i] < upto
    &&& forall|v: int| 0 <= v < upto ==> #[trigger] occurs(order, v)
    &&& forall|i: int, j: int|
        0 <= i < j < order.len() ==> comes_before(keys, #[trigger] order[i] as int, #[trigger] order[j] as int)
}

/// `order` is the stable sort of `keys`.
pub open spec fn is_sorted_order(keys: Seq<Key3>, order: Seq<usize>) -> bool {
    orders_prefix(keys, order, keys.len() as int)
}

/// Whether `a` is strictly smaller than `b`.
pub fn key_lt(a: &Key3, b: &Key3) -> (r: bool)
    ensures
        r == key_less(*a, *b),
{
    a.k0 < b.k0 || (a.k0 == b.k0 && (a.k1 < b.k1 || (a.k1 == b.k1 && a.k2 < b.k2)))
}

/// Computes the stable sort of `keys` as a list of positions.
pub fn sorted_order(keys: &Vec<Key3>) -> (order: Vec<usize>)
    ensures
        is_sorted_order(keys@, order@),
{
    let n = keys.len();
    let mut order: Vec<usize> = Vec::new();
    let mut m: usize = 0;
    while m < n
        invariant
            m <= n,
            n == keys@.len(),
            orders_prefix(keys@, order@, m as int),
        decreases n - m,
    {
        let mut p: usize = 0;
        while p < order.len() && !key_lt(&keys[m], &keys[order[p]])
            invariant
                p <= order@.len(),
                m < n,
                n == keys@.len(),
                orders_prefix(keys@, order@, m as int),
                forall|i: int| 0 <= i < p ==> !key_less(keys@[m as int], keys@[#[trigger] order@[i] as int]),
            decreases order@.len() - p,
        {
            p += 1;
        }
        let ghost prev = order@;
        order.insert(p, m);
        proof {
            let cur = order@;
            assert(cur == prev.insert(p as int, m));
            assert forall|i: int| 0 <= i < cur.len() implies 0 <= #[trigger] cur[i] < m + 1 by {
                if i < p {
                    assert(cur[i] == prev[i]);
                } else if i > p {
                    assert(cur[i] == prev[i - 1]);
                }
            }
            assert forall|v: int| 0 <= v < m + 1 implies #[trigger] occurs(cur, v) by {
                if v == m {
                    assert(cur[p as int] == m);
                } else {
                    assert(occurs(prev, v));
                    let i0 = choose|i: int| 0 <= i < prev.len() && #[trigger] prev[i] == v;
                    if i0 < p {
                        assert(cur[i0] == v);
                    } else {
                        assert(cur[i0 + 1] == v);
                    }
                }
            }
            assert forall|i: int, j: int| 0 <= i < j < cur.len() implies comes_before(
                keys@,
                #[trigger] cur[i] as int,
                #[trigger] cur[j] as int,
            ) by {
                let pi = if i < p { i } else { i - 1 };
                let pj = if j < p { j } else { j - 1 };
                if i == p {
                    assert(cur[j] == prev[pj]);
                    if p < prev.len() {
                        assert(key_less(keys@[m as int], keys@[prev[p as int] as int]));
                        if pj > p {
                            assert(comes_before(keys@, prev[p as int] as int, prev[pj] as int));
                        }
                    }
                } else if j == p {
                    assert(cur[i] == prev[pi]);
                    assert(!key_less(keys@[m as int], keys@[prev[pi] as int]));
                    assert(prev[pi] < m);
                } else {
                    assert(cur[i] == prev[pi]);
                    assert(cur[j] == prev[pj]);
                    assert(comes_before(keys@, prev[pi] as int, prev[pj] as int));
                }
            }
        }
        m += 1;
    }
    order
}

/// In a sorted order no position occurs twice.
pub proof fn lemma_sorted_order_distinct(keys: Seq<Key3>, order: Seq<usize>, i: int, j: int)
    requires
        is_sorted_order(keys, order),
        0 <= i < order.len(),
        0 <= j < order.len(),
        order[i] == order[j],
    ensures
        i == j,
{
    if i < j {
        assert(comes_before(keys, order[i] as int, order[j] as int));
    }
    if j < i {
        assert(comes_before(keys, order[j] as int, order[i] as int));
    }
}

/// The keys rise strictly from each to the next.
pub open spec fn strictly_rising(a: Seq<Key3>) -> bool {
    forall|i: int, j: int| 0 <= i < j < a.len() ==> key_less(#[trigger] a[i], #[trigger] a[j])
}

/// Key `k` is one of `a`.
pub open spec fn among(a: Seq<Key3>, k: Key3) -> bool {
    exists|j: int| 0 <= j < a.len() && #[trigger] a[j] == k
}

/// Where key `a[p]` stands in `b`.
pub open spec fn place_in(a: Seq<Key3>, b: Seq<Key3>, p: int) -> int {
    choose|j: int| 0 <= j < b.len() && #[trigger] b[j] == a[p]
}

/// The places in `b` of the keys of `a` rise as the keys do.
proof fn lemma_places_rise(a: Seq<Key3>, b: Seq<Key3>, p: int, q: int)
    requires
        strictly_rising(a),
        strictly_rising(b),
        forall|i: int| 0 <= i < a.len() ==> among(b, #[trigger] a[i]),
        0 <= p < q < a.len(),
    ensures
        0 <= place_in(a, b, p) < place_in(a, b, q) < b.len(),
{
    assert(among(b, a[p]));
    assert(among(b, a[q]));
    let x = place_in(a, b, p);
    let y = place_in(a, b, q);
    assert(key_less(a[p], a[q]));
    if y < x {
        assert(key_less(b[y], b[x]));
    }
}

/// No key of `a` stands in `b` before its own position.
proof fn lemma_place_not_before(a: Seq<Key3>, b: Seq<Key3>, p: int)
    requires
        strictly_rising(a),
        strictly_rising(b),
        forall|i: int| 0 <= i < a.len() ==> among(b, #[trigger] a[i]),
        0 <= p < a.len(),
    ensures
        p <= place_in(a, b, p) < b.len(),
    decreases p,
{
    assert(among(b, a[p]));
    if p > 0 {
        lemma_place_not_before(a, b, p - 1);
        lemma_places_rise(a, b, p - 1, p);
    }
}

/// No key of `a` stands in `b` after its own position, if `b` is no longer.
proof fn lemma_place_not_after(a: Seq<Key3>, b: Seq<Key3>, p: int)
    requires
        strictly_rising(a),
        strictly_rising(b),
        a.len() == b.len(),
        forall|i: int| 0 <= i < a.len() ==> among(b, #[trigger] a[i]),
        0 <= p < a.len(),
    ensures
        0 <= place_in(a, b, p) <= p,
    decreases a.len() - p,
{
    assert(among(b, a[p]));
    if p + 1 < a.len() {
        lemma_place_not_after(a, b, p + 1);
        lemma_places_rise(a, b, p, p + 1);
    }
}

/// Two strictly rising lists of the same length, of which the second holds
/// every key of the first, are the same list.
pub proof fn lemma_rising_same(a: Seq<Key3>, b: Seq<Key3>)
    requires
        strictly_rising(a),
        strictly_rising(b),
        a.len() == b.len(),
        forall|i: int| 0 <= i < a.len() ==> among(b, #[trigger] a[i]),
    ensures
        a == b,
{
    assert forall|p: int| 0 <= p < a.len() implies a[p] == b[p] by {
        lemma_place_not_before(a, b, p);
        lemma_place_not_after(a, b, p);
        assert(among(b, a[p]));
    }
    assert(a =~= b);
}

/// The keys of distinct items, taken in their sorted order, rise strictly.
pub proof fn lemma_sorted_rises(keys: Seq<Key3>, order: Seq<usize>, sorted: Seq<Key3>)
    requires
        is_sorted_order(keys, order),
        forall|i: int, j: int| 0 <= i < j < keys.len() ==> #[trigger] keys[i] != #[trigger] keys[j],
        sorted.len() == keys.len(),
        forall|i: int| 0 <= i < sorted.len() ==> #[trigger] sorted[i] == keys[order[i] as int],
    ensures
        strictly_rising(sorted),
{
    assert forall|i: int, j: int| 0 <= i < j < sorted.len() implies key_less(
        #[trigger] sorted[i],
        #[trigger] sorted[j],
    ) by {
        assert(comes_before(keys, order[i] as int, order[j] as int));
        if order[i] == order[j] {
            lemma_sorted_order_distinct(keys, order, i, j);
        }
        if order[i] < order[j] {
            assert(keys[order[i] as int] != keys[order[j] as int]);
        } else {
            assert(keys[order[j] as int] != keys[order[i] as int]);
        }
    }
}

/// Where position `a[p]` is listed in `b`.
pub open spec fn listed_at(a: Seq<usize>, b: Seq<usize>, p: int) -> int {
    choose|j: int| 0 <= j < b.len() && #[trigger] b[j] == a[p]
}

/// In two sorted orders of the same keys, what the one lists earlier the
/// other lists earlier too.
proof fn lemma_listed_rise(keys: Seq<Key3>, a: Seq<usize>, b: Seq<usize>, p: int, q: int)
    requires
        is_sorted_order(keys, a),
        is_sorted_order(keys, b),
        0 <= p < q < a.len(),
    ensures
        0 <= listed_at(a, b, p) < listed_at(a, b, q) < b.len(),
{
    assert(occurs(b, a[p] as int));
    assert(occurs(b, a[q] as int));
    let x: int = listed_at(a, b, p);
    let y: int = listed_at(a, b, q);
    assert(comes_before(keys, a[p] as int, a[q] as int));
    if y < x {
        assert(comes_before(keys, b[y] as int, b[x] as int));
    }
}

/// No position stands in the second order before its place in the first.
proof fn lemma_listed_not_before(keys: Seq<Key3>, a: Seq<usize>, b: Seq<usize>, p: int)
    requires
        is_sorted_order(keys, a),
        is_sorted_order(keys, b),
        0 <= p < a.len(),
    ensures
        p <= listed_at(a, b, p) < b.len(),
    decreases p,
{
    assert(occurs(b, a[p] as int));
    if p > 0 {
        lemma_listed_not_before(keys, a, b, p - 1);
        lemma_listed_rise(keys, a, b, p - 1, p);
    }
}

/// No position stands in the second order after its place in the first.
proof fn lemma_listed_not_after(keys: Seq<Key3>, a: Seq<usize>, b: Seq<usize>, p: int)
    requires
        is_sorted_order(keys, a),
        is_sorted_order(keys, b),
        0 <= p < a.len(),
    ensures
        0 <= listed_at(a, b, p) <= p,
    decreases a.len() - p,
{
    assert(occurs(b, a[p] as int));
    if p + 1 < a.len() {
        lemma_listed_not_after(keys, a, b, p + 1);
        lemma_listed_rise(keys, a, b, p, p + 1);
    }
}

/// Keys have one sorted order: two lists that are both the stable sort of the
/// same keys are the same list.
pub proof fn law_one_sorted_order(keys: Seq<Key3>, a: Seq<usize>, b: Seq<usize>)
    requires
        is_sorted_order(keys, a),
        is_sorted_order(keys, b),
    ensures
        a == b,
{
    assert forall|p: int| 0 <= p < a.len() implies a[p] == b[p] by {
        lemma_listed_not_before(keys, a, b, p);
        lemma_listed_not_after(keys, a, b, p);
        assert(occurs(b, a[p] as int));
    }
    assert(a =~= b);
}

} // verus!
