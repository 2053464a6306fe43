use vstd::prelude::*;
use crate::ordering::{descending_order, int_keys, is_descending_order, lemma_larger_key_first};

verus! {

/// The number of '/' in a path: its depth below the root of the sweep.
pub open spec fn depth_of(p: Seq<char>) -> nat
    decreases p.len(),
{
    if p.len() == 0 {
        0
    } else {
        depth_of(p.drop_last()) + if p.last() == '/' { 1nat } else { 0nat }
    }
}

/// `child` lies inside the directory `parent`.
pub open spec fn is_inside(child: Seq<char>, parent: Seq<char>) -> bool {
    parent.len() < child.len() && child.subrange(0, parent.len() as int) == parent
        && child[parent.len() as int] == '/'
}

/// The depth of each directory, in the order given.
pub open spec fn depths(dirs: Seq<String>) -> Seq<int> {
    dirs.map_values(|d: String| depth_of(d@) as int)
}

proof fn lemma_depth_prefix(p: Seq<char>, k: int)
    requires
        0 <= k < p.len(),
    ensures
        depth_of(p.subrange(0, k)) + (if p[k] == '/' { 1nat } else { 0nat }) <= depth_of(p),
        depth_of(p) <= p.len(),
    decreases p.len(),
{
    if k == p.len() - 1 {
        assert(p.drop_last() =~= p.subrange(0, k));
    } else {
        assert(p.drop_last().subrange(0, k) =~= p.subrange(0, k));
        lemma_depth_prefix(p.drop_last(), k);
    }
    if p.len() > 1 {
        lemma_depth_prefix(p.drop_last(), 0);
    }
}

/// The number of '/' in `p`.
pub fn depth(p: &str) -> (r: usize)
    ensures
        r == depth_of(p@),
{
    let n = p.unicode_len();
    let mut count: usize = 0;
    let mut i: usize = 0;
    while i < n
        invariant
            i <= n,
            n == p@.len(),
            count == depth_of(p@.subrange(0, i as int)),
            count <= i,
        decreases n - i,
    {
        assert(p@.subrange(0, i + 1).drop_last() =~= p@.subrange(0, i as int));
        if p.get_char(i) == '/' {
            count = count + 1;
        }
        i = i + 1;
    }
    assert(p@.subrange(0, n as int) =~= p@);
    count
}

/// The order in which to visit directories when removing empty ones: the
/// deepest first, directories of equal depth in the order given, so that a
/// directory comes after every directory inside it.
pub fn prune_order(dirs: &Vec<String>) -> (order: Vec<usize>)
    ensures
        is_descending_order(order@, depths(dirs@)),
{
    let mut keys: Vec<u128> = Vec::new();
    let mut i: usize = 0;
    while i < dirs.len()
        invariant
            i <= dirs@.len(),
            keys@.len() == i,
            int_keys(keys@) == depths(dirs@).subrange(0, i as int),
        decreases dirs@.len() - i,
    {
        let d = depth(dirs[i].as_str());
        let ghost before = keys@;
        keys.push(d as u128);
        proof {
            assert(keys@.drop_last() == before);
            assert forall|q: int| 0 <= q < i + 1 implies #[trigger] int_keys(keys@)[q] == depths(
                dirs@,
            )[q] by {
                if q < i {
                    assert(int_keys(before)[q] == depths(dirs@).subrange(0, i as int)[q]);
                    assert(keys@[q] == before[q]);
                } else {
                    assert(keys@[q] == d as u128);
                }
            }
            assert(int_keys(keys@) =~= depths(dirs@).subrange(0, i + 1));
        }
        i = i + 1;
    }
    assert(int_keys(keys@) =~= depths(dirs@));
    descending_order(&keys)
}

/// Children before parents: in the pruning order, a directory inside another
/// is visited first, so that a directory emptied by the removal of its
/// children is itself checked later in the same sweep.
pub proof fn lemma_children_first(dirs: Seq<String>, order: Seq<usize>, inner: int, outer: int)
    requires
        is_descending_order(order, depths(dirs)),
        0 <= inner < order.len(),
        0 <= outer < order.len(),
        is_inside(dirs[order[inner] as int]@, dirs[order[outer] as int]@),
    ensures
        inner < outer,
{
    let c = dirs[order[inner] as int]@;
    let p = dirs[order[outer] as int]@;
    lemma_depth_prefix(c, p.len() as int);
    if p.len() > 0 {
        lemma_depth_prefix(p, 0);
    }
    assert(depth_of(c) > depth_of(p));
    assert(depths(dirs)[order[inner] as int] == depth_of(c) as int);
    assert(depths(dirs)[order[outer] as int] == depth_of(p) as int);
    lemma_larger_key_first(order, depths(dirs), inner, outer);
}

} // verus!
