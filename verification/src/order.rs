//! Stable ordering of items by a numeric key.
use vstd::prelude::*;

verus! {

/// Item `a` comes before item `b`: a smaller key, or an equal key and an earlier position.
pub open spec fn key_before(keys: Seq<u64>, a: int, b: int) -> bool {
    keys[a] < keys[b] || (keys[a] == keys[b] && a < b)
}

/// `order` lists the positions of `keys` sorted by key, keeping equal keys
/// in the order they came.
pub open spec fn is_stable_order(keys: Seq<u64>, order: Seq<usize>) -> bool {
    &&& order.len() == keys.len()
    &&& forall|i: int| 0 <= i < order.len() ==> order[i] < keys.len()
    &&& forall|i: int, j: int|
        0 <= i < j < order.len() ==> key_before(keys, order[i] as int, order[j] as int)
}

/// Where insertion sort puts an item with `key` into `order`: after every
/// item whose key is not larger.
pub open spec fn insert_pos(keys: Seq<u64>, order: Seq<usize>, key: u64) -> int
    decreases order.len(),
{
    if order.len() == 0 {
        0
    } else if keys[order.last() as int] > key {
        insert_pos(keys, order.drop_last(), key)
    } else {
        order.len() as int
    }
}

/// The stable ascending order of the first `n` positions of `keys`, built by insertion.
pub open spec fn spec_stable_order(keys: Seq<u64>, n: nat) -> Seq<usize>
    decreases n,
{
    if n == 0 {
        Seq::empty()
    } else {
        let prev = spec_stable_order(keys, (n - 1) as nat);
        prev.insert(insert_pos(keys, prev, keys[n - 1]), (n - 1) as usize)
    }
}

pub proof fn lemma_insert_pos_bound(keys: Seq<u64>, order: Seq<usize>, key: u64)
    ensures
        0 <= insert_pos(keys, order, key) <= order.len(),
    decreases order.len(),
{
    if order.len() > 0 && keys[order.last() as int] > key {
        lemma_insert_pos_bound(keys, order.drop_last(), key);
    }
}

/// The stable order of the first `n` positions lists `n` positions, each below `n`.
pub proof fn lemma_stable_order_indices(keys: Seq<u64>, n: nat)
    ensures
        spec_stable_order(keys, n).len() == n,
        forall|k: int| 0 <= k < n ==> #[trigger] spec_stable_order(keys, n)[k] < n,
    decreases n,
{
    if n > 0 {
        lemma_stable_order_indices(keys, (n - 1) as nat);
        let prev = spec_stable_order(keys, (n - 1) as nat);
        lemma_insert_pos_bound(keys, prev, keys[n - 1]);
        let p = insert_pos(keys, prev, keys[n - 1]);
        let next = prev.insert(p, (n - 1) as usize);
        assert forall|k: int| 0 <= k < n implies #[trigger] next[k] < n by {
            if k < p {
                assert(next[k] == prev[k]);
            } else if k > p {
                assert(next[k] == prev[k - 1]);
            }
        }
    }
}

/// The positions of `keys` in stable ascending key order.
pub fn stable_order(keys: &Vec<u64>) -> (order: Vec<usize>)
    ensures
        is_stable_order(keys@, order@),
        order@ == spec_stable_order(keys@, keys@.len()),
{
    let mut order: Vec<usize> = Vec::new();
    let mut i: usize = 0;
    while i < keys.len()
        invariant
            0 <= i <= keys@.len(),
            order@.len() == i,
            forall|k: int| 0 <= k < order@.len() ==> order@[k] < i,
            forall|a: int, b: int|
                0 <= a < b < order@.len() ==> key_before(keys@, order@[a] as int, order@[b] as int),
            order@ == spec_stable_order(keys@, i as nat),
        decreases keys.len() - i,
    {
        let key = keys[i];
        let mut p: usize = order.len();
        proof {
            assert(order@.take(p as int) =~= order@);
        }
        while p > 0 && keys[order[p - 1]] > key
            invariant
                0 <= p <= order@.len(),
                order@.len() == i,
                i < keys@.len(),
                key == keys@[i as int],
                forall|k: int| 0 <= k < order@.len() ==> order@[k] < i,
                forall|k: int| p <= k < order@.len() ==> keys@[order@[k] as int] > key,
                insert_pos(keys@, order@, key) == insert_pos(keys@, order@.take(p as int), key),
            decreases p,
        {
            proof {
                assert(order@.take(p as int).drop_last() =~= order@.take(p - 1));
            }
            p = p - 1;
        }
        proof {
            if p > 0 {
                assert(order@.take(p as int).last() == order@[p - 1]);
            }
            assert(insert_pos(keys@, order@, key) == p);
        }
        let ghost prev = order@;
        proof {
            if p > 0 {
                assert(keys@[prev[p - 1] as int] <= key);
                assert forall|k: int| 0 <= k < p implies key_before(keys@, prev[k] as int, i as int) by {
                    if k < p - 1 {
                        assert(key_before(keys@, prev[k] as int, prev[p - 1] as int));
                    }
                }
            }
        }
        order.insert(p, i);
        proof {
            assert forall|a: int, b: int|
                0 <= a < b < order@.len() implies key_before(
                keys@,
                order@[a] as int,
                order@[b] as int,
            ) by {
                if b < p {
                    assert(order@[a] == prev[a] && order@[b] == prev[b]);
                } else if b == p {
                    assert(order@[a] == prev[a]);
                } else if a < p {
                    assert(order@[a] == prev[a] && order@[b] == prev[b - 1]);
                    assert(key_before(keys@, prev[a] as int, i as int));
                    assert(keys@[prev[b - 1] as int] > key);
                } else if a == p {
                    assert(order@[b] == prev[b - 1]);
                } else {
                    assert(order@[a] == prev[a - 1] && order@[b] == prev[b - 1]);
                }
            }
        }
        i = i + 1;
    }
    order
}

} // verus!
