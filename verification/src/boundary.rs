use vstd::prelude::*;

verus! {

/// `i` is the smallest boundary index below `count` that `used` does not hold.
pub open spec fn is_first_unused(used: Seq<usize>, count: int, i: int) -> bool {
    &&& 0 <= i < count
    &&& !used.contains(i as usize)
    &&& forall|j: usize| j < i ==> #[trigger] used.contains(j)
}

/// Every boundary index below `count` is held by `used`.
pub open spec fn all_used(used: Seq<usize>, count: int) -> bool {
    forall|j: usize| j < count ==> #[trigger] used.contains(j)
}

/// The walk that joins the trim boundaries of a face into closed loops: the
/// boundary being traced, the one that began the current loop, the boundaries
/// taken so far, and whether a loop is open.
pub struct BoundaryWalk {
    pub current: usize,
    pub start: usize,
    pub used: Vec<usize>,
    pub open: bool,
}

fn holds(used: &Vec<usize>, i: usize) -> (found: bool)
    ensures
        found == used@.contains(i),
{
    let mut k: usize = 0;
    while k < used.len()
        invariant
            0 <= k <= used@.len(),
            forall|j: int| 0 <= j < k ==> used@[j] != i,
        decreases used@.len() - k,
    {
        if used[k] == i {
            assert(used@[k as int] == i);
            return true;
        }
        k = k + 1;
    }
    false
}

impl BoundaryWalk {
    /// A walk that starts at the first boundary with no loop open.
    pub fn new() -> (walk: Self)
        ensures
            walk.current == 0,
            walk.start == 0,
            walk.used@ == Seq::<usize>::empty(),
            !walk.open,
    {
        BoundaryWalk { current: 0, start: 0, used: Vec::new(), open: false }
    }

    /// Takes the next point of the traced boundary: says whether it begins a
    /// new loop (no loop was open) or continues the open one.
    pub fn take_point(&mut self) -> (begins: bool)
        ensures
            begins == !old(self).open,
            final(self).open,
            final(self).current == old(self).current,
            final(self).start == old(self).start,
            final(self).used@ == old(self).used@,
    {
        let begins = !self.open;
        self.open = true;
        begins
    }

    /// Moves on to boundary `next`, the one that follows the traced boundary.
    /// When `next` is the boundary that began the loop, the loop closes and the
    /// walk goes on from the first of the `count` boundaries not taken yet, if
    /// any. Says whether the loop closed.
    pub fn advance(&mut self, next: usize, count: usize) -> (closed: bool)
        ensures
            closed == (next == old(self).start),
            final(self).used@ == old(self).used@.push(next),
            !closed ==> final(self).current == next && final(self).start == old(self).start
                && final(self).open == old(self).open,
            closed ==> !final(self).open,
            closed && all_used(final(self).used@, count as int) ==> final(self).current == next
                && final(self).start == old(self).start,
            closed && !all_used(final(self).used@, count as int) ==> final(self).current == final(self).start
                && is_first_unused(final(self).used@, count as int, final(self).start as int),
    {
        self.used.push(next);
        self.current = next;
        if next == self.start {
            self.open = false;
            let mut i: usize = 0;
            while i < count
                invariant
                    0 <= i <= count,
                    forall|j: usize| j < i ==> #[trigger] self.used@.contains(j),
                    self.used@ == old(self).used@.push(next),
                    self.current == next,
                    next == old(self).start,
                    self.start == old(self).start,
                    !self.open,
                decreases count - i,
            {
                if !holds(&self.used, i) {
                    self.current = i;
                    self.start = i;
                    assert(is_first_unused(self.used@, count as int, i as int));
                    return true;
                }
                i = i + 1;
            }
            true
        } else {
            false
        }
    }
}

} // verus!
