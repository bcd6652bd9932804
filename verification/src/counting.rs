//! How many indexes have a property.

use vstd::prelude::*;
use vstd::relations::injective_on;
use vstd::set_lib::{lemma_map_size, set_int_range};

verus! {

/// How many of the first `n` indexes have the property `p`.
pub open spec fn count(n: nat, p: spec_fn(int) -> bool) -> nat
    decreases n,
{
    if n == 0 {
        0
    } else {
        count((n - 1) as nat, p) + if p(n - 1) {
            1nat
        } else {
            0nat
        }
    }
}

/// Counting goes by what holds of the indexes alone.
pub proof fn lemma_count_same(n: nat, p: spec_fn(int) -> bool, q: spec_fn(int) -> bool)
    requires
        forall|i: int| 0 <= i < n ==> #[trigger] p(i) == q(i),
    ensures
        count(n, p) == count(n, q),
    decreases n,
{
    if n > 0 {
        lemma_count_same((n - 1) as nat, p, q);
    }
}

/// A property that holds of more indexes has the larger count, which is at most `n`.
pub proof fn lemma_count_more(n: nat, p: spec_fn(int) -> bool, q: spec_fn(int) -> bool)
    requires
        forall|i: int| 0 <= i < n && #[trigger] p(i) ==> q(i),
    ensures
        count(n, p) <= count(n, q) <= n,
    decreases n,
{
    if n > 0 {
        lemma_count_more((n - 1) as nat, p, q);
    }
}

/// Counts of two properties that exclude each other add up.
pub proof fn lemma_count_sum(
    n: nat,
    p: spec_fn(int) -> bool,
    q: spec_fn(int) -> bool,
    either: spec_fn(int) -> bool,
)
    requires
        forall|i: int| 0 <= i < n ==> #[trigger] either(i) == (p(i) || q(i)) && !(p(i) && q(i)),
    ensures
        count(n, either) == count(n, p) + count(n, q),
    decreases n,
{
    if n > 0 {
        lemma_count_sum((n - 1) as nat, p, q, either);
    }
}

/// An index with the property makes the count positive, and no index makes it zero.
pub proof fn lemma_count_some(n: nat, p: spec_fn(int) -> bool)
    ensures
        count(n, p) > 0 <==> exists|i: int| 0 <= i < n && #[trigger] p(i),
    decreases n,
{
    if n > 0 {
        lemma_count_some((n - 1) as nat, p);
        if exists|i: int| 0 <= i < n && #[trigger] p(i) {
            let i = choose|i: int| 0 <= i < n && #[trigger] p(i);
            if i < n - 1 {
                assert(0 <= i < n - 1 && p(i));
            }
        }
        if count((n - 1) as nat, p) > 0 {
            let i = choose|i: int| 0 <= i < n - 1 && #[trigger] p(i);
            assert(0 <= i < n && p(i));
        }
        if p(n - 1) {
            assert(0 <= n - 1 < n && p(n - 1));
        }
    }
}

/// The indexes of a range are counted by its length.
pub proof fn lemma_count_range(n: nat, lo: int, hi: int)
    requires
        0 <= lo <= hi <= n,
    ensures
        count(n, |i: int| lo <= i < hi) == hi - lo,
    decreases n,
{
    let p = |i: int| lo <= i < hi;
    if n > 0 {
        if hi == n {
            if lo == n {
                let none = |i: int| n - 1 <= i < n - 1;
                lemma_count_range((n - 1) as nat, n - 1, n - 1);
                lemma_count_same((n - 1) as nat, p, none);
            } else {
                let q = |i: int| lo <= i < n - 1;
                lemma_count_range((n - 1) as nat, lo, n - 1);
                lemma_count_same((n - 1) as nat, p, q);
            }
        } else {
            lemma_count_range((n - 1) as nat, lo, hi);
        }
    }
}

spec fn chosen(n: nat, p: spec_fn(int) -> bool) -> Set<int> {
    set_int_range(0, n as int).filter(p)
}

proof fn lemma_count_set(n: nat, p: spec_fn(int) -> bool)
    ensures
        chosen(n, p).finite(),
        chosen(n, p).len() == count(n, p),
    decreases n,
{
    if n == 0 {
        assert(chosen(n, p) =~= Set::empty());
    } else {
        let less = chosen((n - 1) as nat, p);
        lemma_count_set((n - 1) as nat, p);
        if p(n - 1) {
            assert(chosen(n, p) =~= less.insert(n - 1));
        } else {
            assert(chosen(n, p) =~= less);
        }
    }
}

/// Taking the indexes in another order, each once, leaves the count.
pub proof fn lemma_count_permuted(n: nat, order: Seq<usize>, p: spec_fn(int) -> bool)
    requires
        order.len() == n,
        n <= usize::MAX,
        forall|i: int| 0 <= i < n ==> order[i] < n,
        forall|i: int, j: int| 0 <= i < j < n ==> order[i] != order[j],
        forall|v: usize| v < n ==> order.contains(v),
    ensures
        count(n, |i: int| p(order[i] as int)) == count(n, p),
{
    let q = |i: int| p(order[i] as int);
    let f = |i: int| order[i] as int;
    let x = chosen(n, q);
    let y = chosen(n, p);
    lemma_count_set(n, q);
    lemma_count_set(n, p);
    assert(x.map(f) =~= y) by {
        assert forall|v: int| y.contains(v) implies x.map(f).contains(v) by {
            assert(order.contains(v as usize));
            let i = choose|i: int| 0 <= i < order.len() && order[i] == v as usize;
            assert(x.contains(i) && f(i) == v);
        }
    }
    assert(injective_on(f, x)) by {
        assert forall|i: int, j: int|
            x.contains(i) && x.contains(j) && #[trigger] f(i) == #[trigger] f(j) implies i == j by {
            if i < j {
                assert(order[i] != order[j]);
            }
            if j < i {
                assert(order[j] != order[i]);
            }
        }
    }
    lemma_map_size(x, y, f);
}

/// Those of the first `n` indexes that have the property `p`, in ascending order.
pub open spec fn picked(n: nat, p: spec_fn(int) -> bool) -> Seq<usize>
    decreases n,
{
    if n == 0 {
        Seq::empty()
    } else if p(n - 1) {
        picked((n - 1) as nat, p).push((n - 1) as usize)
    } else {
        picked((n - 1) as nat, p)
    }
}

/// The picked indexes are those with the property, in ascending order, as many as are counted.
pub proof fn lemma_picked(n: nat, p: spec_fn(int) -> bool)
    requires
        n <= usize::MAX,
    ensures
        picked(n, p).len() == count(n, p),
        forall|k: int|
            0 <= k < picked(n, p).len() ==> (#[trigger] picked(n, p)[k]) < n && p(
                picked(n, p)[k] as int,
            ),
        forall|j: int, k: int|
            0 <= j < k < picked(n, p).len() ==> picked(n, p)[j] < picked(n, p)[k],
        forall|i: int| 0 <= i < n && #[trigger] p(i) ==> picked(n, p).contains(i as usize),
    decreases n,
{
    if n > 0 {
        let less = picked((n - 1) as nat, p);
        let all = picked(n, p);
        lemma_picked((n - 1) as nat, p);
        assert forall|i: int| 0 <= i < n && #[trigger] p(i) implies all.contains(i as usize) by {
            if i < n - 1 {
                assert(less.contains(i as usize));
                let k = choose|k: int| 0 <= k < less.len() && less[k] == i as usize;
                assert(all[k] == i as usize);
            } else {
                assert(all[less.len() as int] == i as usize);
            }
        }
        assert forall|k: int| 0 <= k < all.len() implies (#[trigger] all[k]) < n && p(
            all[k] as int,
        ) by {
            if k < less.len() {
                assert(all[k] == less[k]);
            }
        }
    }
}

/// Picking goes by what holds of the indexes alone.
pub proof fn lemma_picked_same(n: nat, p: spec_fn(int) -> bool, q: spec_fn(int) -> bool)
    requires
        forall|i: int| 0 <= i < n ==> #[trigger] p(i) == q(i),
    ensures
        picked(n, p) == picked(n, q),
    decreases n,
{
    if n > 0 {
        lemma_picked_same((n - 1) as nat, p, q);
    }
}

/// If all indexes have the property, all are picked.
pub proof fn lemma_picked_all(n: nat, p: spec_fn(int) -> bool)
    requires
        n <= usize::MAX,
        forall|i: int| 0 <= i < n ==> #[trigger] p(i),
    ensures
        picked(n, p) == Seq::new(n, |i: int| i as usize),
    decreases n,
{
    if n > 0 {
        lemma_picked_all((n - 1) as nat, p);
        assert(p(n - 1));
    }
    assert(picked(n, p) =~= Seq::new(n, |i: int| i as usize));
}

/// A count goes up by one with each index that has the property. The indexes picked are exactly
/// these, in ascending order.
pub proof fn law_counting(n: nat, p: spec_fn(int) -> bool)
    requires
        n <= usize::MAX,
    ensures
        count(0, p) == 0,
        count(n + 1, p) == count(n, p) + if p(n as int) {
            1nat
        } else {
            0nat
        },
        count(n, p) <= n,
        picked(n, p).len() == count(n, p),
        forall|i: int| 0 <= i < n ==> (picked(n, p).contains(i as usize) <==> #[trigger] p(i)),
        forall|j: int, k: int|
            0 <= j < k < picked(n, p).len() ==> picked(n, p)[j] < picked(n, p)[k],
{
    lemma_picked(n, p);
    lemma_count_more(n, p, p);
    assert forall|i: int| 0 <= i < n && picked(n, p).contains(i as usize) implies #[trigger] p(
        i,
    ) by {
        let k = choose|k: int| 0 <= k < picked(n, p).len() && picked(n, p)[k] == i as usize;
        assert(p(picked(n, p)[k] as int));
    }
}

} // verus!
