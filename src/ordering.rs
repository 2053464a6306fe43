use vstd::prelude::*;

verus! {

/// Item `a` comes before item `b`: a larger key first, equal keys in their
/// input order.
pub open spec fn precedes(keys: Seq<int>, a: int, b: int) -> bool {
    keys[a] > keys[b] || (keys[a] == keys[b] && a < b)
}

/// `order` lists every index of `keys` once, larger keys first, equal keys in
/// their input order.
pub open spec fn is_descending_order(order: Seq<usize>, keys: Seq<int>) -> bool {
    &&& order.len() == keys.len()
    &&& forall|i: int| 0 <= i < order.len() ==> #[trigger] order[i] < keys.len()
    &&& forall|k: usize| k < keys.len() ==> #[trigger] order.contains(k)
    &&& forall|i: int, j: int|
        0 <= i < j < order.len() ==> precedes(keys, #[trigger] order[i] as int, #[trigger] order[j] as int)
}

/// Machine integers as mathematical ones.
pub open spec fn int_keys(keys: Seq<u128>) -> Seq<int> {
    keys.map_values(|k: u128| k as int)
}

/// The indices of `keys`, larger keys first and equal keys in their input
/// order (a stable sort, descending).
pub fn descending_order(keys: &Vec<u128>) -> (order: Vec<usize>)
    ensures
        is_descending_order(order@, int_keys(keys@)),
{
    let n = keys.len();
    let mut order: Vec<usize> = Vec::new();
    let mut i: usize = 0;
    while i < n
        invariant
            n == keys@.len(),
            i <= n,
            order@.len() == i,
            forall|q: int| 0 <= q < order@.len() ==> #[trigger] order@[q] < i,
            forall|k: usize| k < i ==> #[trigger] order@.contains(k),
            forall|a: int, b: int|
                0 <= a < b < order@.len() ==> precedes(int_keys(keys@), #[trigger] order@[a] as int, #[trigger] order@[b] as int),
        decreases n - i,
    {
        let mut pos: usize = 0;
        while pos < order.len() && keys[order[pos]] >= keys[i]
            invariant
                pos <= order@.len(),
                i < n,
                n == keys@.len(),
                forall|q: int| 0 <= q < order@.len() ==> #[trigger] order@[q] < i,
                forall|q: int| 0 <= q < pos ==> keys@[#[trigger] order@[q] as int] >= keys@[i as int],
            decreases order@.len() - pos,
        {
            pos = pos + 1;
        }
        let ghost old_order = order@;
        order.insert(pos, i);
        proof {
            let o = order@;
            assert forall|q: int| 0 <= q < o.len() implies #[trigger] o[q] < i + 1 by {
                if q < pos {
                    assert(o[q] == old_order[q]);
                } else if q > pos {
                    assert(o[q] == old_order[q - 1]);
                }
            }
            assert forall|k: usize| k < i + 1 implies #[trigger] o.contains(k) by {
                if k == i {
                    assert(o[pos as int] == i);
                } else {
                    assert(old_order.contains(k));
                    let q = choose|q: int| 0 <= q < old_order.len() && old_order[q] == k;
                    if q < pos {
                        assert(o[q] == old_order[q]);
                    } else {
                        assert(o[q + 1] == old_order[q]);
                    }
                }
            }
            assert forall|a: int, b: int| 0 <= a < b < o.len() implies precedes(
                int_keys(keys@),
                #[trigger] o[a] as int,
                #[trigger] o[b] as int,
            ) by {
                if b < pos {
                    assert(o[a] == old_order[a] && o[b] == old_order[b]);
                } else if b == pos {
                    assert(o[a] == old_order[a]);
                    assert(keys@[old_order[a] as int] >= keys@[i as int]);
                } else if a > pos {
                    assert(o[a] == old_order[a - 1] && o[b] == old_order[b - 1]);
                } else if a == pos {
                    assert(o[b] == old_order[b - 1]);
                    assert(keys@[old_order[pos as int] as int] < keys@[i as int]);
                    if b - 1 > pos {
                        assert(precedes(int_keys(keys@), old_order[pos as int] as int, old_order[b - 1] as int));
                    }
                } else {
                    assert(o[a] == old_order[a] && o[b] == old_order[b - 1]);
                }
            }
        }
        i = i + 1;
    }
    order
}

/// In a descending order, an item with a larger key stands before one with a
/// smaller key.
pub proof fn lemma_larger_key_first(order: Seq<usize>, keys: Seq<int>, i: int, j: int)
    requires
        is_descending_order(order, keys),
        0 <= i < order.len(),
        0 <= j < order.len(),
        keys[order[i] as int] > keys[order[j] as int],
    ensures
        i < j,
{
    if j < i {
        assert(precedes(keys, order[j] as int, order[i] as int));
    }
}

} // verus!
