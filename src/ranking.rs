//! Stable ordering of candidates by a distance key.
use vstd::prelude::*;

verus! {

/// Index `j` occurs in `order`.
pub open spec fn lists(order: Seq<usize>, j: int) -> bool {
    exists|p: int| 0 <= p < order.len() && order[p] == j
}

/// `order` lists each of the indices `0..n` exactly once, by non-decreasing
/// `key`, and indices with equal keys in increasing order.
pub open spec fn is_stable_order(n: int, key: spec_fn(int) -> int, order: Seq<usize>) -> bool {
    &&& order.len() == n
    &&& forall|p: int| 0 <= p < n ==> #[trigger] order[p] < n
    &&& forall|p: int, q: int| 0 <= p < q < n ==> #[trigger] order[p] != #[trigger] order[q]
    &&& forall|j: int| 0 <= j < n ==> #[trigger] lists(order, j)
    &&& forall|p: int, q: int|
        0 <= p < q < n ==> key(#[trigger] order[p] as int) <= key(#[trigger] order[q] as int)
    &&& forall|p: int, q: int|
        0 <= p < q < n && key(#[trigger] order[p] as int) == key(#[trigger] order[q] as int)
            ==> order[p] < order[q]
}

/// A stable order for one key is one for every key that agrees with it on
/// the indices.
pub proof fn lemma_stable_order_keys(
    n: int,
    key1: spec_fn(int) -> int,
    key2: spec_fn(int) -> int,
    order: Seq<usize>,
)
    requires
        is_stable_order(n, key1, order),
        forall|j: int| 0 <= j < n ==> #[trigger] key1(j) == key2(j),
    ensures
        is_stable_order(n, key2, order),
{
    assert forall|p: int, q: int| 0 <= p < q < n implies key2(#[trigger] order[p] as int) <= key2(
        #[trigger] order[q] as int,
    ) by {
        assert(key1(order[p] as int) == key2(order[p] as int));
        assert(key1(order[q] as int) == key2(order[q] as int));
    }
    assert forall|p: int, q: int|
        0 <= p < q < n && key2(#[trigger] order[p] as int) == key2(#[trigger] order[q] as int)
            implies order[p] < order[q] by {
        assert(key1(order[p] as int) == key2(order[p] as int));
        assert(key1(order[q] as int) == key2(order[q] as int));
    }
}

/// The indices of `keys`, sorted stably by key.
pub fn stable_order(keys: &Vec<u64>) -> (order: Vec<usize>)
    ensures
        is_stable_order(keys.len() as int, |j: int| keys@[j] as int, order@),
{
    let mut order: Vec<usize> = Vec::new();
    let mut i: usize = 0;
    while i < keys.len()
        invariant
            i <= keys.len(),
            order.len() == i,
            forall|p: int| 0 <= p < i ==> #[trigger] order[p] < i,
            forall|p: int, q: int| 0 <= p < q < i ==> #[trigger] order[p] != #[trigger] order[q],
            forall|j: int| 0 <= j < i ==> #[trigger] lists(order@, j),
            forall|p: int, q: int|
                0 <= p < q < i ==> keys[#[trigger] order[p] as int] <= keys[#[trigger] order[q] as int],
            forall|p: int, q: int|
                0 <= p < q < i && keys[#[trigger] order[p] as int] == keys[#[trigger] order[q] as int]
                    ==> order[p] < order[q],
        decreases keys.len() - i,
    {
        let ki = keys[i];
        let mut pos: usize = 0;
        while pos < i && keys[order[pos]] <= ki
            invariant
                pos <= i,
                order.len() == i,
                i < keys.len(),
                ki == keys[i as int],
                forall|p: int| 0 <= p < i ==> #[trigger] order[p] < i,
                forall|p: int| 0 <= p < pos ==> keys[#[trigger] order[p] as int] <= ki,
            decreases i - pos,
        {
            pos = pos + 1;
        }
        let ghost old_order = order@;
        proof {
            assert forall|p: int| pos <= p < i implies keys[#[trigger] old_order[p] as int] > ki by {
                assert(keys[old_order[pos as int] as int] > ki);
                if p > pos {
                    assert(keys[old_order[pos as int] as int] <= keys[old_order[p] as int]);
                }
            }
        }
        order.insert(pos, i);
        proof {
            let n = order@;
            assert(n == old_order.insert(pos as int, i));
            assert forall|p: int| 0 <= p < i + 1 implies #[trigger] n[p] < i + 1 by {
                if p < pos {
                    assert(n[p] == old_order[p]);
                } else if p > pos {
                    assert(n[p] == old_order[p - 1]);
                }
            }
            assert forall|j: int| 0 <= j < i + 1 implies #[trigger] lists(n, j) by {
                if j == i {
                    assert(n[pos as int] == j);
                } else {
                    assert(lists(old_order, j));
                    let p0 = choose|p: int| 0 <= p < old_order.len() && old_order[p] == j;
                    if p0 < pos {
                        assert(n[p0] == j);
                    } else {
                        assert(n[p0 + 1] == j);
                    }
                }
            }
            assert forall|p: int, q: int| 0 <= p < q < i + 1 implies {
                &&& #[trigger] n[p] != #[trigger] n[q]
                &&& keys[n[p] as int] <= keys[n[q] as int]
                &&& (keys[n[p] as int] == keys[n[q] as int] ==> n[p] < n[q])
            } by {
                let op = if p < pos { p } else { p - 1 };
                let oq = if q < pos { q } else { q - 1 };
                if p == pos {
                    assert(n[q] == old_order[oq]);
                    assert(keys[old_order[oq] as int] > ki);
                } else if q == pos {
                    assert(n[p] == old_order[op]);
                    assert(keys[old_order[op] as int] <= ki);
                } else {
                    assert(n[p] == old_order[op]);
                    assert(n[q] == old_order[oq]);
                    assert(op < oq);
                }
            }
        }
        i = i + 1;
    }
    order
}

} // verus!
