//! Stable sorting.
//!
//! A sort is described by the order in which it takes its items: a sequence that holds every
//! index once, such that an earlier index has the smaller key, or the same key and the smaller
//! index.

use vstd::prelude::*;

use crate::counting::{count, lemma_count_permuted, lemma_count_same};
use crate::double::{lemma_order_key, Double};

verus! {

/// Does the item at index `a` come before the one at index `b`?
pub open spec fn before(keys: Seq<(i64, u32)>, a: int, b: int) -> bool {
    ||| keys[a].0 < keys[b].0
    ||| keys[a].0 == keys[b].0 && keys[a].1 < keys[b].1
    ||| keys[a] == keys[b] && a < b
}

/// `order` lists the indexes of `keys` once each, sorted by key, equal keys in index order.
pub open spec fn stable_sorting(keys: Seq<(i64, u32)>, order: Seq<usize>) -> bool {
    &&& order.len() == keys.len()
    &&& forall|i: int| 0 <= i < order.len() ==> order[i] < keys.len()
    &&& forall|i: int, j: int|
        0 <= i < j < order.len() ==> before(keys, order[i] as int, order[j] as int)
    &&& forall|v: usize| v < keys.len() ==> order.contains(v)
}

/// The items of `items`, taken in the order `order`.
pub open spec fn taken<T>(items: Seq<T>, order: Seq<usize>) -> Seq<T> {
    Seq::new(order.len(), |i: int| items[order[i] as int])
}

/// The keys by which doubles are sorted.
pub open spec fn double_keys(vals: Seq<Double>) -> Seq<(i64, u32)> {
    Seq::new(vals.len(), |i: int| (vals[i].order_key() as i64, 0u32))
}

fn precedes(a: (i64, u32), b: (i64, u32)) -> (r: bool)
    ensures
        r == (a.0 < b.0 || a.0 == b.0 && a.1 < b.1),
{
    a.0 < b.0 || (a.0 == b.0 && a.1 < b.1)
}

/// The order in which a stable sort takes items with these keys.
pub fn stable_order(keys: &Vec<(i64, u32)>) -> (order: Vec<usize>)
    ensures
        stable_sorting(keys@, order@),
{
    let mut order: Vec<usize> = Vec::new();
    let n = keys.len();
    for i in 0..n
        invariant
            n == keys@.len(),
            order@.len() == i,
            forall|a: int| 0 <= a < i ==> order@[a] < i,
            forall|a: int, b: int|
                0 <= a < b < i ==> before(keys@, order@[a] as int, order@[b] as int),
            forall|v: usize| v < i ==> order@.contains(v),
    {
        let mut p: usize = i;
        while p > 0 && precedes(keys[i], keys[order[p - 1]])
            invariant
                0 <= p <= i < keys@.len(),
                order@.len() == i,
                forall|a: int| 0 <= a < i ==> order@[a] < i,
                forall|a: int| p <= a < i ==> before(keys@, i as int, order@[a] as int),
            decreases p,
        {
            p = p - 1;
        }
        let ghost old_order = order@;
        order.insert(p, i);
        assert forall|a: int, b: int| 0 <= a < b < i + 1 implies before(
            keys@,
            order@[a] as int,
            order@[b] as int,
        ) by {
            if b == p {
                assert(order@[a] == old_order[a]);
                if a < p - 1 {
                    assert(before(keys@, old_order[a] as int, old_order[p - 1] as int));
                }
            } else if a == p {
                assert(order@[b] == old_order[b - 1]);
            } else {
                let a0 = if a < p { a } else { a - 1 };
                let b0 = if b < p { b } else { b - 1 };
                assert(order@[a] == old_order[a0] && order@[b] == old_order[b0]);
            }
        }
        assert forall|v: usize| v < i + 1 implies order@.contains(v) by {
            if v == i {
                assert(order@[p as int] == i);
            } else {
                assert(old_order.contains(v));
                let q = choose|q: int| 0 <= q < old_order.len() && old_order[q] == v;
                let q1 = if q < p { q } else { q + 1 };
                assert(order@[q1] == v);
            }
        }
    }
    order
}

/// There is only one stable sorting of given keys.
pub proof fn law_one_sorting(keys: Seq<(i64, u32)>, a: Seq<usize>, b: Seq<usize>)
    requires
        stable_sorting(keys, a),
        stable_sorting(keys, b),
    ensures
        a == b,
{
    assert forall|i: int| 0 <= i < a.len() implies a[i] == b[i] by {
        lemma_one_sorting(keys, a, b, i);
    }
    assert(a =~= b);
}

proof fn lemma_one_sorting(keys: Seq<(i64, u32)>, a: Seq<usize>, b: Seq<usize>, i: int)
    requires
        stable_sorting(keys, a),
        stable_sorting(keys, b),
        0 <= i < a.len(),
    ensures
        a[i] == b[i],
    decreases i,
{
    assert forall|k: int| 0 <= k < i implies a[k] == b[k] by {
        lemma_one_sorting(keys, a, b, k);
    }
    assert(b.contains(a[i]));
    let p = choose|p: int| 0 <= p < b.len() && b[p] == a[i];
    assert(a.contains(b[i]));
    let q = choose|q: int| 0 <= q < a.len() && a[q] == b[i];
    if p < i {
        assert(before(keys, a[p] as int, a[i] as int));
    } else if q < i {
        assert(before(keys, b[q] as int, b[i] as int));
    } else if p > i && q > i {
        assert(before(keys, b[i] as int, b[p] as int));
        assert(before(keys, a[i] as int, a[q] as int));
    }
}

/// Sorts doubles, smallest first; NaNs lie beyond the infinities of their sign.
pub fn sort_doubles(vals: &mut Vec<Double>)
    ensures
        exists|order: Seq<usize>|
            stable_sorting(double_keys(old(vals)@), order) && final(vals)@ == taken(
                old(vals)@,
                order,
            ),
{
    let mut keys: Vec<(i64, u32)> = Vec::new();
    for i in 0..vals.len()
        invariant
            keys@.len() == i,
            i <= vals@.len(),
            forall|j: int| 0 <= j < i ==> keys@[j] == (vals@[j].order_key() as i64, 0u32),
    {
        keys.push((vals[i].key(), 0));
    }
    assert(keys@ =~= double_keys(vals@));
    let order = stable_order(&keys);
    let mut out: Vec<Double> = Vec::new();
    for i in 0..order.len()
        invariant
            stable_sorting(double_keys(vals@), order@),
            out@.len() == i,
            forall|j: int| 0 <= j < i ==> out@[j] == vals@[order@[j] as int],
    {
        out.push(vals[order[i]]);
    }
    assert(out@ =~= taken(vals@, order@));
    *vals = out;
}

/// A sorting takes smaller keys first, by their first parts and then by their second, and equal
/// keys in the order of their indexes. It takes every index, and none twice.
pub proof fn law_sorted_by_key(keys: Seq<(i64, u32)>, order: Seq<usize>)
    requires
        stable_sorting(keys, order),
        keys.len() <= usize::MAX,
    ensures
        order.len() == keys.len(),
        order.no_duplicates(),
        forall|v: usize| v < keys.len() <==> #[trigger] order.contains(v),
        forall|i: int, j: int|
            0 <= i < j < order.len() ==> {
                let (a, b) = (keys[#[trigger] order[i] as int], keys[#[trigger] order[j] as int]);
                &&& a.0 <= b.0
                &&& a.0 == b.0 ==> a.1 <= b.1
                &&& a == b ==> order[i] < order[j]
            },
{
    assert forall|i: int, j: int| 0 <= i < j < order.len() implies {
        let (a, b) = (keys[#[trigger] order[i] as int], keys[#[trigger] order[j] as int]);
        &&& a.0 <= b.0
        &&& a.0 == b.0 ==> a.1 <= b.1
        &&& a == b ==> order[i] < order[j]
        &&& order[i] != order[j]
    } by {
        assert(before(keys, order[i] as int, order[j] as int));
    }
    assert forall|v: usize| #[trigger] order.contains(v) implies v < keys.len() by {
        let i = choose|i: int| 0 <= i < order.len() && order[i] == v;
        assert(order[i] < keys.len());
    }
}

/// Sorted doubles ascend, and as many of them as before have any property: none is lost, none is
/// made up.
pub proof fn law_sorted_doubles(
    vals: Seq<Double>,
    order: Seq<usize>,
    p: spec_fn(Double) -> bool,
)
    requires
        stable_sorting(double_keys(vals), order),
        vals.len() <= usize::MAX,
    ensures
        taken(vals, order).len() == vals.len(),
        forall|i: int, j: int|
            0 <= i < j < vals.len() ==> !(#[trigger] taken(vals, order)[i]).above(
                #[trigger] taken(vals, order)[j],
            ),
        count(vals.len(), |i: int| p(taken(vals, order)[i])) == count(
            vals.len(),
            |i: int| p(vals[i]),
        ),
{
    let keys = double_keys(vals);
    let sorted = taken(vals, order);
    assert forall|i: int, j: int| 0 <= i < j < vals.len() implies order[i] != order[j] by {
        assert(before(keys, order[i] as int, order[j] as int));
    }
    assert forall|i: int, j: int| 0 <= i < j < vals.len() implies !(#[trigger] sorted[i]).above(
        #[trigger] sorted[j],
    ) by {
        assert(before(keys, order[i] as int, order[j] as int));
        lemma_order_key(sorted[j], sorted[i]);
    }
    let q = |v: int| p(vals[v]);
    lemma_count_permuted(vals.len(), order, q);
    lemma_count_same(vals.len(), |i: int| p(sorted[i]), |i: int| q(order[i] as int));
    lemma_count_same(vals.len(), |i: int| p(vals[i]), q);
}

/// Items taken in an order stand in its places.
pub proof fn law_taken<T>(items: Seq<T>, order: Seq<usize>, i: int)
    requires
        0 <= i < order.len(),
    ensures
        taken(items, order).len() == order.len(),
        taken(items, order)[i] == items[order[i] as int],
{
}

} // verus!
