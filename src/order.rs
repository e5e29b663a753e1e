//! Stable ordering by a pair of integer keys.
use vstd::prelude::*;

verus! {

/// Lexicographic order on key pairs.
pub open spec fn key_lt(a: (int, int), b: (int, int)) -> bool {
    a.0 < b.0 || (a.0 == b.0 && a.1 < b.1)
}

/// The first position from `i` on whose key is greater than `k`.
pub open spec fn first_greater(keys: Seq<(int, int)>, order: Seq<int>, k: (int, int), i: int) -> int
    decreases order.len() - i,
{
    if i < 0 || i >= order.len() {
        order.len() as int
    } else if 0 <= order[i] < keys.len() && key_lt(k, keys[order[i]]) {
        i
    } else {
        first_greater(keys, order, k, i + 1)
    }
}

/// The positions `0..n` of `keys` by ascending key, equal keys in position
/// order: each position is placed after every earlier one whose key is not greater.
pub open spec fn stable_order(keys: Seq<(int, int)>, n: int) -> Seq<int>
    decreases n,
{
    if n <= 0 {
        Seq::empty()
    } else {
        let prev = stable_order(keys, n - 1);
        prev.insert(first_greater(keys, prev, keys[n - 1], 0), n - 1)
    }
}

pub open spec fn key_view(k: (usize, usize)) -> (int, int) {
    (k.0 as int, k.1 as int)
}

proof fn lemma_first_greater(keys: Seq<(int, int)>, order: Seq<int>, k: (int, int), i: int)
    requires
        0 <= i <= order.len(),
    ensures
        i <= first_greater(keys, order, k, i) <= order.len(),
    decreases order.len() - i,
{
    if i < order.len() && !(0 <= order[i] < keys.len() && key_lt(k, keys[order[i]])) {
        lemma_first_greater(keys, order, k, i + 1);
    }
}

/// Every position of the order is one of `0..n`.
pub proof fn lemma_stable_order_range(keys: Seq<(int, int)>, n: int)
    requires
        0 <= n,
    ensures
        stable_order(keys, n).len() == n,
        forall|j: int| 0 <= j < n ==> 0 <= #[trigger] stable_order(keys, n)[j] < n,
    decreases n,
{
    if n > 0 {
        lemma_stable_order_range(keys, n - 1);
        let prev = stable_order(keys, n - 1);
        lemma_first_greater(keys, prev, keys[n - 1], 0);
        let p = first_greater(keys, prev, keys[n - 1], 0);
        assert forall|j: int| 0 <= j < n implies 0 <= #[trigger] stable_order(keys, n)[j] < n by {
            if j < p {
                assert(stable_order(keys, n)[j] == prev[j]);
            } else if j > p {
                assert(stable_order(keys, n)[j] == prev[j - 1]);
            }
        }
    }
}

/// The positions of `keys` by ascending key, equal keys in position order.
pub fn sort_positions(keys: &Vec<(usize, usize)>) -> (r: Vec<usize>)
    ensures
        r@.map_values(|i: usize| i as int) == stable_order(keys@.map_values(|k: (usize, usize)| key_view(k)), keys@.len() as int),
        forall|j: int| 0 <= j < r@.len() ==> (#[trigger] r@[j]) < keys@.len(),
        r@.len() == keys@.len(),
{
    let ghost kv = keys@.map_values(|k: (usize, usize)| key_view(k));
    let mut order: Vec<usize> = Vec::new();
    let mut n: usize = 0;
    while n < keys.len()
        invariant
            n <= keys@.len(),
            kv == keys@.map_values(|k: (usize, usize)| key_view(k)),
            order@.map_values(|i: usize| i as int) == stable_order(kv, n as int),
            order@.len() == n,
            forall|j: int| 0 <= j < order@.len() ==> (#[trigger] order@[j]) < n,
        decreases keys@.len() - n,
    {
        let ghost ov = order@.map_values(|i: usize| i as int);
        let k = keys[n];
        let mut p: usize = 0;
        while p < order.len() && !(k.0 < keys[order[p]].0 || (k.0 == keys[order[p]].0 && k.1 < keys[order[p]].1))
            invariant
                p <= order@.len(),
                ov == order@.map_values(|i: usize| i as int),
                n < keys@.len(),
                k == keys@[n as int],
                kv == keys@.map_values(|k: (usize, usize)| key_view(k)),
                forall|j: int| 0 <= j < order@.len() ==> (#[trigger] order@[j]) < n,
                first_greater(kv, ov, kv[n as int], 0) == first_greater(kv, ov, kv[n as int], p as int),
            decreases order@.len() - p,
        {
            assert(ov[p as int] == order@[p as int] as int);
            p += 1;
        }
        proof {
            if p < order@.len() {
                assert(ov[p as int] == order@[p as int] as int);
            }
            assert(first_greater(kv, ov, kv[n as int], p as int) == p);
        }
        let ghost prev = order@;
        order.insert(p, n);
        proof {
            assert(order@.map_values(|i: usize| i as int) =~= ov.insert(p as int, n as int));
            assert(stable_order(kv, n + 1) == ov.insert(p as int, n as int));
            assert forall|j: int| 0 <= j < order@.len() implies (#[trigger] order@[j]) < n + 1 by {
                if j < p {
                    assert(order@[j] == prev[j]);
                } else if j > p {
                    assert(order@[j] == prev[j - 1]);
                }
            }
        }
        n += 1;
    }
    order
}

} // verus!
