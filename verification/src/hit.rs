use vstd::prelude::*;

pub mod simple;
pub mod groups;
pub mod cascade;
pub mod shapes;
pub mod hone;

verus! {

/// A pair of shapes, given by their positions in the flattened shape list,
/// that the intersection tester examines together.
#[derive(Clone, Copy, Debug)]
pub struct TestPair {
    pub i0: usize,
    pub i1: usize,
    pub reverse: bool,
}

/// What the tester found for one shape: the hits on it and the closest misses.
pub struct Score<H, O> {
    pub hits: Vec<H>,
    pub outs: Vec<O>,
}

/// The items of `v` in the opposite order.
pub fn reversed<X>(v: Vec<X>) -> (r: Vec<X>)
    ensures
        r@ == v@.reverse(),
{
    let ghost all = v@;
    let mut pending = v;
    let mut r: Vec<X> = Vec::new();
    while pending.len() > 0
        invariant
            pending@.len() <= all.len(),
            pending@ == all.take(pending@.len() as int),
            r@ == all.subrange(pending@.len() as int, all.len() as int).reverse(),
        decreases pending@.len(),
    {
        let item = pending.pop().unwrap();
        proof {
            assert(all.subrange(pending@.len() as int, all.len() as int).reverse() =~=
                all.subrange(pending@.len() as int + 1, all.len() as int).reverse().push(item));
        }
        r.push(item);
        assert(pending@ =~= all.take(pending@.len() as int));
    }
    assert(all.subrange(0, all.len() as int) =~= all);
    r
}

/// Sum of the first `j` sizes: where item list number `j` begins once all lists
/// are laid end to end.
pub open spec fn offset(sizes: Seq<nat>, j: int) -> nat
    decreases j,
{
    if j <= 0 {
        0
    } else {
        offset(sizes, j - 1) + sizes[j - 1]
    }
}

/// Position in the flattened list of item `i` of list `j`.
pub open spec fn flat_index(sizes: Seq<nat>, j: int, i: int) -> int {
    offset(sizes, j) + i
}

/// The lengths of the given lists.
pub open spec fn sizes_of<T>(lists: Seq<Vec<T>>) -> Seq<nat> {
    Seq::new(lists.len(), |j: int| lists[j]@.len())
}

/// The total number of items in all lists.
pub open spec fn total(sizes: Seq<nat>) -> nat {
    offset(sizes, sizes.len() as int)
}

pub proof fn lemma_offset_monotonic(sizes: Seq<nat>, a: int, b: int)
    requires
        0 <= a <= b <= sizes.len(),
    ensures
        offset(sizes, a) <= offset(sizes, b),
    decreases b - a,
{
    if a < b {
        lemma_offset_monotonic(sizes, a, b - 1);
    }
}

/// Items of earlier lists come before the items of later lists.
pub proof fn lemma_flat_index_bound(sizes: Seq<nat>, j: int, i: int, k: int)
    requires
        0 <= j < k <= sizes.len(),
        0 <= i < sizes[j],
    ensures
        flat_index(sizes, j, i) < offset(sizes, k),
{
    lemma_offset_monotonic(sizes, j + 1, k);
}

/// Each position of the flattened list belongs to exactly one list and item.
pub proof fn lemma_flat_index_unique(sizes: Seq<nat>, j0: int, i0: int, j1: int, i1: int)
    requires
        0 <= j0 < sizes.len(),
        0 <= j1 < sizes.len(),
        0 <= i0 < sizes[j0],
        0 <= i1 < sizes[j1],
        flat_index(sizes, j0, i0) == flat_index(sizes, j1, i1),
    ensures
        j0 == j1,
        i0 == i1,
{
    if j0 < j1 {
        lemma_flat_index_bound(sizes, j0, i0, j1);
    } else if j1 < j0 {
        lemma_flat_index_bound(sizes, j1, i1, j0);
    }
}

} // verus!
