use vstd::prelude::*;

verus! {

/// A rational B-spline basis: its sign, its order (degree plus one), its knot
/// vector (control count plus order knots) and one weight per control. The
/// values of sign, knots and weights are of type `F`.
pub struct Nurbs<F> {
    pub sign: F,
    pub order: usize,
    pub knots: Vec<F>,
    pub weights: Vec<F>,
}

/// Samples taken along a basis with `weight_count` weights: one at each
/// control, and `count` more per order above linear between neighbours.
pub open spec fn sample_count(weight_count: int, order: int, count: int) -> int {
    weight_count + count * (order - 2) * (weight_count - 1)
}

/// The order made valid for `control_count` controls: no more than the
/// control count, and at least linear.
pub open spec fn valid_order(order: int, control_count: int) -> int {
    let capped = if order < control_count { order } else { control_count };
    if capped < 2 { 2 } else { capped }
}

/// Knot `k` of the open (clamped) knot vector for `control_count` controls of
/// order `order`, before it is divided by the last knot: `order - 1` zeros,
/// the steps `0 ..= last`, then `order - 1` copies of `last`, where `last` is
/// `control_count - order + 1`.
pub open spec fn open_knot(control_count: int, order: int, k: int) -> int {
    let repeats = order - 1;
    let last = control_count + order - 2 * repeats - 1;
    if k < repeats {
        0
    } else if k <= repeats + last {
        k - repeats
    } else {
        last
    }
}

/// The number of knots of that open knot vector.
pub open spec fn open_knot_count(control_count: int, order: int) -> int {
    control_count + order
}

impl<F: Copy> Nurbs<F> {
    /// How many samples to take along this basis, with `count` samples per
    /// span between neighbouring controls for each order above linear.
    pub fn get_sample_count(&self, count: usize) -> (samples: usize)
        requires
            self.weights@.len() >= 1,
            self.order >= 2,
            count * (self.order - 2) <= usize::MAX,
            sample_count(self.weights@.len() as int, self.order as int, count as int) <= usize::MAX,
        ensures
            samples == sample_count(self.weights@.len() as int, self.order as int, count as int),
    {
        let mul = self.weights.len() - 1;
        proof {
            assert(0 <= count * (self.order - 2) * mul) by (nonlinear_arith)
                requires
                    self.order >= 2,
                    mul >= 0,
            ;
        }
        self.weights.len() + count * (self.order - 2) * mul
    }

    /// The order made valid for `control_count` controls.
    pub fn get_valid_order(&self, control_count: usize) -> (order: usize)
        ensures
            order == valid_order(self.order as int, control_count as int),
    {
        let capped = if self.order < control_count { self.order } else { control_count };
        if capped < 2 { 2 } else { capped }
    }

    /// The weights if there is one per control, else weight `one` for each of
    /// the `control_count` controls.
    pub fn get_valid_weights(&self, control_count: usize, one: F) -> (weights: Vec<F>)
        ensures
            self.weights@.len() == control_count ==> weights@ == self.weights@,
            self.weights@.len() != control_count ==> weights@ == Seq::new(control_count as nat, |i: int| one),
    {
        let mut weights: Vec<F> = Vec::new();
        if self.weights.len() == control_count {
            let mut i: usize = 0;
            while i < self.weights.len()
                invariant
                    0 <= i <= self.weights@.len(),
                    weights@ == self.weights@.take(i as int),
                decreases self.weights@.len() - i,
            {
                weights.push(self.weights[i]);
                assert(self.weights@.take(i as int + 1) =~= self.weights@.take(i as int).push(self.weights@[i as int]));
                i = i + 1;
            }
            assert(self.weights@.take(self.weights@.len() as int) =~= self.weights@);
        } else {
            let mut i: usize = 0;
            while i < control_count
                invariant
                    0 <= i <= control_count,
                    weights@ == Seq::new(i as nat, |k: int| one),
                decreases control_count - i,
            {
                weights.push(one);
                assert(weights@ =~= Seq::new(i as nat + 1, |k: int| one));
                i = i + 1;
            }
        }
        weights
    }

    /// Whether the knot vector has the length that `control_count` controls of
    /// order `order` need; if not, an open knot vector takes its place.
    pub fn has_valid_knots(&self, control_count: usize, order: usize) -> (fits: bool)
        requires
            control_count + order <= usize::MAX,
        ensures
            fits == (self.knots@.len() == control_count + order),
    {
        self.knots.len() == control_count + order
    }
}

/// The open knot vector for `control_count` controls of order `order`, as
/// whole steps before division by the last knot.
pub fn get_open_knots(control_count: usize, order: usize) -> (knots: Vec<usize>)
    requires
        order >= 1,
        control_count + 1 >= order,
        control_count + order <= usize::MAX,
    ensures
        knots@.len() == open_knot_count(control_count as int, order as int),
        forall|k: int| 0 <= k < knots@.len() ==> #[trigger] knots@[k] == open_knot(control_count as int, order as int, k),
{
    let repeats = order - 1;
    let max_knot = control_count + order - (repeats * 2) - 1;
    let mut knots: Vec<usize> = Vec::new();
    let mut k: usize = 0;
    while k < repeats
        invariant
            repeats == order - 1,
            max_knot == control_count + order - 2 * repeats - 1,
            0 <= k <= repeats,
            knots@.len() == k,
            forall|i: int| 0 <= i < k ==> #[trigger] knots@[i] == open_knot(control_count as int, order as int, i),
        decreases repeats - k,
    {
        knots.push(0);
        k = k + 1;
    }
    let mut step: usize = 0;
    while step <= max_knot
        invariant
            repeats == order - 1,
            max_knot == control_count + order - 2 * repeats - 1,
            0 <= step <= max_knot + 1,
            knots@.len() == repeats + step,
            control_count + order <= usize::MAX,
            forall|i: int| 0 <= i < knots@.len() ==> #[trigger] knots@[i] == open_knot(control_count as int, order as int, i),
        decreases max_knot + 1 - step,
    {
        knots.push(step);
        step = step + 1;
    }
    let mut k: usize = 0;
    while k < repeats
        invariant
            repeats == order - 1,
            max_knot == control_count + order - 2 * repeats - 1,
            0 <= k <= repeats,
            knots@.len() == repeats + max_knot + 1 + k,
            forall|i: int| 0 <= i < knots@.len() ==> #[trigger] knots@[i] == open_knot(control_count as int, order as int, i),
        decreases repeats - k,
    {
        knots.push(max_knot);
        k = k + 1;
    }
    knots
}

/// The open knot vector is clamped: it never decreases, its first `order`
/// knots are zero and its last `order` knots are all the last knot.
pub proof fn lemma_open_knots_clamped(control_count: int, order: int)
    requires
        order >= 1,
        control_count + 1 >= order,
    ensures
        forall|i: int, j: int| 0 <= i <= j < open_knot_count(control_count, order)
            ==> #[trigger] open_knot(control_count, order, i) <= #[trigger] open_knot(control_count, order, j),
        forall|i: int| 0 <= i < order ==> #[trigger] open_knot(control_count, order, i) == 0,
        forall|i: int| control_count <= i < open_knot_count(control_count, order)
            ==> #[trigger] open_knot(control_count, order, i) == control_count - order + 1,
{
}

} // verus!
