use vstd::prelude::*;

verus! {

/// A shape of a model: a point, a curve or a facet.
pub enum Shape<P, C, F> {
    Point(P),
    Curve(C),
    Facet(F),
}

/// The shapes of all parts, part after part.
pub open spec fn all_shapes<P, C, F>(parts: Seq<Vec<Shape<P, C, F>>>) -> Seq<Shape<P, C, F>>
    decreases parts.len(),
{
    if parts.len() == 0 {
        seq![]
    } else {
        all_shapes(parts.drop_last()) + parts.last()@
    }
}

/// The points among `shapes`, in order.
pub open spec fn points_of<P, C, F>(shapes: Seq<Shape<P, C, F>>) -> Seq<P>
    decreases shapes.len(),
{
    if shapes.len() == 0 {
        seq![]
    } else {
        match shapes.last() {
            Shape::Point(p) => points_of(shapes.drop_last()).push(p),
            _ => points_of(shapes.drop_last()),
        }
    }
}

/// The curves among `shapes`, in order.
pub open spec fn curves_of<P, C, F>(shapes: Seq<Shape<P, C, F>>) -> Seq<C>
    decreases shapes.len(),
{
    if shapes.len() == 0 {
        seq![]
    } else {
        match shapes.last() {
            Shape::Curve(c) => curves_of(shapes.drop_last()).push(c),
            _ => curves_of(shapes.drop_last()),
        }
    }
}

/// The facets among `shapes`, in order.
pub open spec fn facets_of<P, C, F>(shapes: Seq<Shape<P, C, F>>) -> Seq<F>
    decreases shapes.len(),
{
    if shapes.len() == 0 {
        seq![]
    } else {
        match shapes.last() {
            Shape::Facet(f) => facets_of(shapes.drop_last()).push(f),
            _ => facets_of(shapes.drop_last()),
        }
    }
}

/// The points, curves and facets of a list of shapes, each kind in order.
pub fn split_shapes<P, C, F>(shapes: Vec<Shape<P, C, F>>) -> (kinds: (Vec<P>, Vec<C>, Vec<F>))
    ensures
        kinds.0@ == points_of(shapes@),
        kinds.1@ == curves_of(shapes@),
        kinds.2@ == facets_of(shapes@),
{
    let ghost all = shapes@;
    let mut pending = crate::hit::reversed(shapes);
    let mut points: Vec<P> = Vec::new();
    let mut curves: Vec<C> = Vec::new();
    let mut facets: Vec<F> = Vec::new();
    while pending.len() > 0
        invariant
            pending@.len() <= all.len(),
            pending@ == all.subrange(all.len() - pending@.len(), all.len() as int).reverse(),
            points@ == points_of(all.take(all.len() - pending@.len())),
            curves@ == curves_of(all.take(all.len() - pending@.len())),
            facets@ == facets_of(all.take(all.len() - pending@.len())),
        decreases pending@.len(),
    {
        let ghost done = all.len() - pending@.len();
        let shape = pending.pop().unwrap();
        proof {
            assert(shape == all[done]);
            assert(all.take(done + 1).drop_last() =~= all.take(done));
            assert(pending@ =~= all.subrange(all.len() - pending@.len(), all.len() as int).reverse());
        }
        match shape {
            Shape::Point(p) => points.push(p),
            Shape::Curve(c) => curves.push(c),
            Shape::Facet(f) => facets.push(f),
        }
    }
    assert(all.take(all.len() as int) =~= all);
    (points, curves, facets)
}

proof fn lemma_kinds_concat<P, C, F>(a: Seq<Shape<P, C, F>>, b: Seq<Shape<P, C, F>>)
    ensures
        points_of(a + b) == points_of(a) + points_of(b),
        curves_of(a + b) == curves_of(a) + curves_of(b),
        facets_of(a + b) == facets_of(a) + facets_of(b),
    decreases b.len(),
{
    if b.len() == 0 {
        assert(a + b =~= a);
        assert(points_of(a) + points_of(b) =~= points_of(a));
        assert(curves_of(a) + curves_of(b) =~= curves_of(a));
        assert(facets_of(a) + facets_of(b) =~= facets_of(a));
    } else {
        lemma_kinds_concat(a, b.drop_last());
        assert((a + b).drop_last() =~= a + b.drop_last());
        assert((a + b).last() == b.last());
        match b.last() {
            Shape::Point(x) => {
                assert(points_of(a) + points_of(b.drop_last()).push(x) =~= (points_of(a) + points_of(b.drop_last())).push(x));
            },
            Shape::Curve(x) => {
                assert(curves_of(a) + curves_of(b.drop_last()).push(x) =~= (curves_of(a) + curves_of(b.drop_last())).push(x));
            },
            Shape::Facet(x) => {
                assert(facets_of(a) + facets_of(b.drop_last()).push(x) =~= (facets_of(a) + facets_of(b.drop_last())).push(x));
            },
        }
    }
}

proof fn lemma_next_part<P, C, F>(all: Seq<Vec<Shape<P, C, F>>>, done: int)
    requires
        0 <= done < all.len(),
    ensures
        all_shapes(all.take(done + 1)) == all_shapes(all.take(done)) + all[done]@,
        points_of(all_shapes(all.take(done + 1))) == points_of(all_shapes(all.take(done))) + points_of(all[done]@),
        curves_of(all_shapes(all.take(done + 1))) == curves_of(all_shapes(all.take(done))) + curves_of(all[done]@),
        facets_of(all_shapes(all.take(done + 1))) == facets_of(all_shapes(all.take(done))) + facets_of(all[done]@),
{
    assert(all.take(done + 1).drop_last() =~= all.take(done));
    assert(all.take(done + 1).last() == all[done]);
    lemma_kinds_concat(all_shapes(all.take(done)), all[done]@);
}

/// The shapes of all parts, part after part.
pub fn get_shapes<P, C, F>(parts: Vec<Vec<Shape<P, C, F>>>) -> (shapes: Vec<Shape<P, C, F>>)
    ensures
        shapes@ == all_shapes(parts@),
{
    let ghost all = parts@;
    let mut pending = crate::hit::reversed(parts);
    let mut shapes: Vec<Shape<P, C, F>> = Vec::new();
    while pending.len() > 0
        invariant
            pending@.len() <= all.len(),
            pending@ == all.subrange(all.len() - pending@.len(), all.len() as int).reverse(),
            shapes@ == all_shapes(all.take(all.len() - pending@.len())),
        decreases pending@.len(),
    {
        let ghost done = all.len() - pending@.len();
        let mut part = pending.pop().unwrap();
        proof {
            assert(part == all[done]);
            assert(pending@ =~= all.subrange(all.len() - pending@.len(), all.len() as int).reverse());
            lemma_next_part(all, done);
        }
        shapes.append(&mut part);
    }
    assert(all.take(all.len() as int) =~= all);
    shapes
}

/// The points among the shapes of all parts, in order.
pub fn get_points<P, C, F>(parts: Vec<Vec<Shape<P, C, F>>>) -> (points: Vec<P>)
    ensures
        points@ == points_of(all_shapes(parts@)),
{
    let ghost all = parts@;
    let mut pending = crate::hit::reversed(parts);
    let mut points: Vec<P> = Vec::new();
    while pending.len() > 0
        invariant
            pending@.len() <= all.len(),
            pending@ == all.subrange(all.len() - pending@.len(), all.len() as int).reverse(),
            points@ == points_of(all_shapes(all.take(all.len() - pending@.len()))),
        decreases pending@.len(),
    {
        let ghost done = all.len() - pending@.len();
        let part = pending.pop().unwrap();
        proof {
            assert(part == all[done]);
            assert(pending@ =~= all.subrange(all.len() - pending@.len(), all.len() as int).reverse());
            lemma_next_part(all, done);
        }
        let (mut found, _, _) = split_shapes(part);
        points.append(&mut found);
    }
    assert(all.take(all.len() as int) =~= all);
    points
}

/// The curves among the shapes of all parts, in order.
pub fn get_curves<P, C, F>(parts: Vec<Vec<Shape<P, C, F>>>) -> (curves: Vec<C>)
    ensures
        curves@ == curves_of(all_shapes(parts@)),
{
    let ghost all = parts@;
    let mut pending = crate::hit::reversed(parts);
    let mut curves: Vec<C> = Vec::new();
    while pending.len() > 0
        invariant
            pending@.len() <= all.len(),
            pending@ == all.subrange(all.len() - pending@.len(), all.len() as int).reverse(),
            curves@ == curves_of(all_shapes(all.take(all.len() - pending@.len()))),
        decreases pending@.len(),
    {
        let ghost done = all.len() - pending@.len();
        let part = pending.pop().unwrap();
        proof {
            assert(part == all[done]);
            assert(pending@ =~= all.subrange(all.len() - pending@.len(), all.len() as int).reverse());
            lemma_next_part(all, done);
        }
        let (_, mut found, _) = split_shapes(part);
        curves.append(&mut found);
    }
    assert(all.take(all.len() as int) =~= all);
    curves
}

/// The facets among the shapes of all parts, in order.
pub fn get_facets<P, C, F>(parts: Vec<Vec<Shape<P, C, F>>>) -> (facets: Vec<F>)
    ensures
        facets@ == facets_of(all_shapes(parts@)),
{
    let ghost all = parts@;
    let mut pending = crate::hit::reversed(parts);
    let mut facets: Vec<F> = Vec::new();
    while pending.len() > 0
        invariant
            pending@.len() <= all.len(),
            pending@ == all.subrange(all.len() - pending@.len(), all.len() as int).reverse(),
            facets@ == facets_of(all_shapes(all.take(all.len() - pending@.len()))),
        decreases pending@.len(),
    {
        let ghost done = all.len() - pending@.len();
        let part = pending.pop().unwrap();
        proof {
            assert(part == all[done]);
            assert(pending@ =~= all.subrange(all.len() - pending@.len(), all.len() as int).reverse());
            lemma_next_part(all, done);
        }
        let (_, _, mut found) = split_shapes(part);
        facets.append(&mut found);
    }
    assert(all.take(all.len() as int) =~= all);
    facets
}

/// The curves and the facets among the shapes of all parts, each in order.
pub fn get_curves_and_facets<P, C, F>(parts: Vec<Vec<Shape<P, C, F>>>) -> (found: (Vec<C>, Vec<F>))
    ensures
        found.0@ == curves_of(all_shapes(parts@)),
        found.1@ == facets_of(all_shapes(parts@)),
{
    let ghost all = parts@;
    let mut pending = crate::hit::reversed(parts);
    let mut curves: Vec<C> = Vec::new();
    let mut facets: Vec<F> = Vec::new();
    while pending.len() > 0
        invariant
            pending@.len() <= all.len(),
            pending@ == all.subrange(all.len() - pending@.len(), all.len() as int).reverse(),
            curves@ == curves_of(all_shapes(all.take(all.len() - pending@.len()))),
            facets@ == facets_of(all_shapes(all.take(all.len() - pending@.len()))),
        decreases pending@.len(),
    {
        let ghost done = all.len() - pending@.len();
        let part = pending.pop().unwrap();
        proof {
            assert(part == all[done]);
            assert(pending@ =~= all.subrange(all.len() - pending@.len(), all.len() as int).reverse());
            lemma_next_part(all, done);
        }
        let (_, mut part_curves, mut part_facets) = split_shapes(part);
        curves.append(&mut part_curves);
        facets.append(&mut part_facets);
    }
    assert(all.take(all.len() as int) =~= all);
    (curves, facets)
}

/// The curves of each part, one group per part.
pub fn get_grouped_curves<P, C, F>(parts: Vec<Vec<Shape<P, C, F>>>) -> (groups: Vec<Vec<C>>)
    ensures
        groups@.len() == parts@.len(),
        forall|q: int| 0 <= q < parts@.len() ==> (#[trigger] groups@[q])@ == curves_of(parts@[q]@),
{
    let ghost all = parts@;
    let mut pending = crate::hit::reversed(parts);
    let mut groups: Vec<Vec<C>> = Vec::new();
    while pending.len() > 0
        invariant
            pending@.len() <= all.len(),
            pending@ == all.subrange(all.len() - pending@.len(), all.len() as int).reverse(),
            groups@.len() == all.len() - pending@.len(),
            forall|q: int| 0 <= q < groups@.len() ==> (#[trigger] groups@[q])@ == curves_of(all[q]@),
        decreases pending@.len(),
    {
        let ghost done = all.len() - pending@.len();
        let part = pending.pop().unwrap();
        proof {
            assert(part == all[done]);
            assert(pending@ =~= all.subrange(all.len() - pending@.len(), all.len() as int).reverse());
        }
        let (_, group, _) = split_shapes(part);
        groups.push(group);
    }
    groups
}

/// The facets of each part, one group per part.
pub fn get_grouped_facets<P, C, F>(parts: Vec<Vec<Shape<P, C, F>>>) -> (groups: Vec<Vec<F>>)
    ensures
        groups@.len() == parts@.len(),
        forall|q: int| 0 <= q < parts@.len() ==> (#[trigger] groups@[q])@ == facets_of(parts@[q]@),
{
    let ghost all = parts@;
    let mut pending = crate::hit::reversed(parts);
    let mut groups: Vec<Vec<F>> = Vec::new();
    while pending.len() > 0
        invariant
            pending@.len() <= all.len(),
            pending@ == all.subrange(all.len() - pending@.len(), all.len() as int).reverse(),
            groups@.len() == all.len() - pending@.len(),
            forall|q: int| 0 <= q < groups@.len() ==> (#[trigger] groups@[q])@ == facets_of(all[q]@),
        decreases pending@.len(),
    {
        let ghost done = all.len() - pending@.len();
        let part = pending.pop().unwrap();
        proof {
            assert(part == all[done]);
            assert(pending@ =~= all.subrange(all.len() - pending@.len(), all.len() as int).reverse());
        }
        let (_, _, group) = split_shapes(part);
        groups.push(group);
    }
    groups
}

/// `copies` holds a clone of each item of `items`, in order.
pub open spec fn clones_of<T: Clone>(items: Seq<T>, copies: Seq<T>) -> bool {
    &&& copies.len() == items.len()
    &&& forall|k: int| 0 <= k < items.len() ==> cloned::<T>(items[k], #[trigger] copies[k])
}

/// The curves and the facets of all parts, each in order, together with a
/// copy of them grouped by part.
pub fn get_grouped_curves_and_facets<P, C: Clone, F: Clone>(parts: Vec<Vec<Shape<P, C, F>>>) -> (found: (Vec<C>, Vec<F>, Vec<Vec<C>>, Vec<Vec<F>>))
    ensures
        found.0@ == curves_of(all_shapes(parts@)),
        found.1@ == facets_of(all_shapes(parts@)),
        found.2@.len() == parts@.len(),
        found.3@.len() == parts@.len(),
        forall|q: int| 0 <= q < parts@.len() ==> clones_of(curves_of(parts@[q]@), (#[trigger] found.2@[q])@),
        forall|q: int| 0 <= q < parts@.len() ==> clones_of(facets_of(parts@[q]@), (#[trigger] found.3@[q])@),
{
    let ghost all = parts@;
    let mut pending = crate::hit::reversed(parts);
    let mut curves: Vec<C> = Vec::new();
    let mut facets: Vec<F> = Vec::new();
    let mut curve_groups: Vec<Vec<C>> = Vec::new();
    let mut facet_groups: Vec<Vec<F>> = Vec::new();
    while pending.len() > 0
        invariant
            pending@.len() <= all.len(),
            pending@ == all.subrange(all.len() - pending@.len(), all.len() as int).reverse(),
            curves@ == curves_of(all_shapes(all.take(all.len() - pending@.len()))),
            facets@ == facets_of(all_shapes(all.take(all.len() - pending@.len()))),
            curve_groups@.len() == all.len() - pending@.len(),
            facet_groups@.len() == all.len() - pending@.len(),
            forall|q: int| 0 <= q < curve_groups@.len() ==> clones_of(curves_of(all[q]@), (#[trigger] curve_groups@[q])@),
            forall|q: int| 0 <= q < facet_groups@.len() ==> clones_of(facets_of(all[q]@), (#[trigger] facet_groups@[q])@),
        decreases pending@.len(),
    {
        let ghost done = all.len() - pending@.len();
        let part = pending.pop().unwrap();
        proof {
            assert(part == all[done]);
            assert(pending@ =~= all.subrange(all.len() - pending@.len(), all.len() as int).reverse());
            lemma_next_part(all, done);
        }
        let (_, mut curve_group, mut facet_group) = split_shapes(part);
        curve_groups.push(curve_group.clone());
        facet_groups.push(facet_group.clone());
        curves.append(&mut curve_group);
        facets.append(&mut facet_group);
    }
    assert(all.take(all.len() as int) =~= all);
    (curves, facets, curve_groups, facet_groups)
}

/// The groups laid end to end.
pub open spec fn joined<X>(groups: Seq<Seq<X>>) -> Seq<X>
    decreases groups.len(),
{
    if groups.len() == 0 {
        seq![]
    } else {
        joined(groups.drop_last()) + groups.last()
    }
}

/// The curves of each part, part by part.
pub open spec fn part_curves<P, C, F>(parts: Seq<Vec<Shape<P, C, F>>>) -> Seq<Seq<C>> {
    Seq::new(parts.len(), |q: int| curves_of(parts[q]@))
}

/// The facets of each part, part by part.
pub open spec fn part_facets<P, C, F>(parts: Seq<Vec<Shape<P, C, F>>>) -> Seq<Seq<F>> {
    Seq::new(parts.len(), |q: int| facets_of(parts[q]@))
}

/// The curves grouped by part, laid end to end, are the curves of all parts;
/// the same holds of the facets.
pub proof fn lemma_groups_join_to_all<P, C, F>(parts: Seq<Vec<Shape<P, C, F>>>)
    ensures
        joined(part_curves(parts)) == curves_of(all_shapes(parts)),
        joined(part_facets(parts)) == facets_of(all_shapes(parts)),
    decreases parts.len(),
{
    if parts.len() > 0 {
        let rest = parts.drop_last();
        lemma_groups_join_to_all(rest);
        assert(part_curves(parts).drop_last() =~= part_curves(rest));
        assert(part_facets(parts).drop_last() =~= part_facets(rest));
        lemma_kinds_concat(all_shapes(rest), parts.last()@);
    }
}

/// The highest of the ranks, zero when there are none.
pub open spec fn top_rank(ranks: Seq<u8>) -> u8
    decreases ranks.len(),
{
    if ranks.len() == 0 {
        0
    } else {
        let rest = top_rank(ranks.drop_last());
        if ranks.last() > rest { ranks.last() } else { rest }
    }
}

/// The highest rank among shapes of the given ranks, zero when there are none.
pub fn high_rank(ranks: &Vec<u8>) -> (rank: u8)
    ensures
        rank == top_rank(ranks@),
{
    let mut rank: u8 = 0;
    let mut k: usize = 0;
    while k < ranks.len()
        invariant
            0 <= k <= ranks@.len(),
            rank == top_rank(ranks@.take(k as int)),
        decreases ranks@.len() - k,
    {
        assert(ranks@.take(k as int + 1).drop_last() =~= ranks@.take(k as int));
        if ranks[k] > rank {
            rank = ranks[k];
        }
        k = k + 1;
    }
    assert(ranks@.take(ranks@.len() as int) =~= ranks@);
    rank
}

/// The top rank is one of the ranks, and no rank is above it.
pub proof fn lemma_top_rank_is_max(ranks: Seq<u8>)
    ensures
        forall|k: int| 0 <= k < ranks.len() ==> ranks[k] <= top_rank(ranks),
        ranks.len() > 0 ==> ranks.contains(top_rank(ranks)),
    decreases ranks.len(),
{
    if ranks.len() > 0 {
        let rest = ranks.drop_last();
        lemma_top_rank_is_max(rest);
        assert forall|k: int| 0 <= k < ranks.len() implies ranks[k] <= top_rank(ranks) by {
            if k < rest.len() {
                assert(ranks[k] == rest[k]);
            }
        }
        if ranks.last() > top_rank(rest) {
            assert(ranks[ranks.len() - 1] == top_rank(ranks));
        } else if rest.len() > 0 {
            let w = choose|w: int| 0 <= w < rest.len() && rest[w] == top_rank(rest);
            assert(ranks[w] == top_rank(ranks));
        } else {
            assert(ranks[0] == top_rank(ranks));
        }
    }
}

/// The positions, in order, of the shapes whose rank is `rank`.
pub open spec fn rank_positions(ranks: Seq<u8>, rank: u8) -> Seq<usize>
    decreases ranks.len(),
{
    if ranks.len() == 0 {
        seq![]
    } else if ranks.last() == rank {
        rank_positions(ranks.drop_last(), rank).push((ranks.len() - 1) as usize)
    } else {
        rank_positions(ranks.drop_last(), rank)
    }
}

/// The positions of the shapes of rank `rank`, in order.
pub fn of_rank(ranks: &Vec<u8>, rank: u8) -> (positions: Vec<usize>)
    ensures
        positions@ == rank_positions(ranks@, rank),
        forall|t: int| 0 <= t < positions@.len()
            ==> #[trigger] positions@[t] < ranks@.len() && ranks@[positions@[t] as int] == rank,
        forall|t1: int, t2: int| 0 <= t1 < t2 < positions@.len() ==> #[trigger] positions@[t1] < #[trigger] positions@[t2],
        forall|k: int| 0 <= k < ranks@.len() && #[trigger] ranks@[k] == rank ==> positions@.contains(k as usize),
{
    let mut positions: Vec<usize> = Vec::new();
    let mut k: usize = 0;
    while k < ranks.len()
        invariant
            0 <= k <= ranks@.len(),
            positions@ == rank_positions(ranks@.take(k as int), rank),
        decreases ranks@.len() - k,
    {
        assert(ranks@.take(k as int + 1).drop_last() =~= ranks@.take(k as int));
        if ranks[k] == rank {
            positions.push(k);
        }
        k = k + 1;
    }
    assert(ranks@.take(ranks@.len() as int) =~= ranks@);
    proof {
        lemma_of_rank_exact(ranks@, rank);
    }
    positions
}

/// The positions of rank `rank` are exactly the places of the shapes of that
/// rank, each once, in increasing order.
pub proof fn lemma_of_rank_exact(ranks: Seq<u8>, rank: u8)
    requires
        ranks.len() <= usize::MAX,
    ensures
        forall|t: int| 0 <= t < rank_positions(ranks, rank).len()
            ==> #[trigger] rank_positions(ranks, rank)[t] < ranks.len()
                && ranks[rank_positions(ranks, rank)[t] as int] == rank,
        forall|t1: int, t2: int| 0 <= t1 < t2 < rank_positions(ranks, rank).len()
            ==> #[trigger] rank_positions(ranks, rank)[t1] < #[trigger] rank_positions(ranks, rank)[t2],
        forall|k: int| 0 <= k < ranks.len() && #[trigger] ranks[k] == rank
            ==> rank_positions(ranks, rank).contains(k as usize),
    decreases ranks.len(),
{
    if ranks.len() > 0 {
        let rest = ranks.drop_last();
        lemma_of_rank_exact(rest, rank);
        let r = rank_positions(rest, rank);
        let n = ranks.len() - 1;
        assert forall|t: int| 0 <= t < r.len() implies #[trigger] r[t] < rest.len() && ranks[r[t] as int] == rank by {
            assert(rest[r[t] as int] == ranks[r[t] as int]);
        }
        assert forall|k: int| 0 <= k < ranks.len() && #[trigger] ranks[k] == rank
            implies rank_positions(ranks, rank).contains(k as usize) by {
            if k < n {
                assert(rest[k] == ranks[k]);
                let t = choose|t: int| 0 <= t < r.len() && r[t] == k as usize;
                if ranks.last() == rank {
                    assert(rank_positions(ranks, rank)[t] == k as usize);
                } else {
                    assert(rank_positions(ranks, rank)[t] == k as usize);
                }
            } else {
                assert(rank_positions(ranks, rank) == r.push(n as usize));
                assert(rank_positions(ranks, rank)[r.len() as int] == k as usize);
            }
        }
    }
}

/// The points among the shapes are exactly the payloads of the shapes that
/// are points, in order: the `Point` shapes kept by a filter, then unwrapped.
pub proof fn lemma_points_are_the_point_shapes<P, C, F>(shapes: Seq<Shape<P, C, F>>)
    ensures
        points_of(shapes) == shapes.filter(|x: Shape<P, C, F>| x is Point).map_values(|x: Shape<P, C, F>| x->Point_0),
    decreases shapes.len(),
{
    reveal(Seq::filter);
    let keep = |x: Shape<P, C, F>| x is Point;
    let take = |x: Shape<P, C, F>| x->Point_0;
    if shapes.len() > 0 {
        lemma_points_are_the_point_shapes(shapes.drop_last());
        let sub = shapes.drop_last().filter(keep);
        if keep(shapes.last()) {
            assert(sub.push(shapes.last()).map_values(take) =~= sub.map_values(take).push(take(shapes.last())));
        }
    } else {
        assert(shapes.filter(keep).map_values(take) =~= seq![]);
    }
}

/// The curves among the shapes are exactly the payloads of the shapes that
/// are curves, in order: the `Curve` shapes kept by a filter, then unwrapped.
pub proof fn lemma_curves_are_the_curve_shapes<P, C, F>(shapes: Seq<Shape<P, C, F>>)
    ensures
        curves_of(shapes) == shapes.filter(|x: Shape<P, C, F>| x is Curve).map_values(|x: Shape<P, C, F>| x->Curve_0),
    decreases shapes.len(),
{
    reveal(Seq::filter);
    let keep = |x: Shape<P, C, F>| x is Curve;
    let take = |x: Shape<P, C, F>| x->Curve_0;
    if shapes.len() > 0 {
        lemma_curves_are_the_curve_shapes(shapes.drop_last());
        let sub = shapes.drop_last().filter(keep);
        if keep(shapes.last()) {
            assert(sub.push(shapes.last()).map_values(take) =~= sub.map_values(take).push(take(shapes.last())));
        }
    } else {
        assert(shapes.filter(keep).map_values(take) =~= seq![]);
    }
}

/// The facets among the shapes are exactly the payloads of the shapes that
/// are facets, in order: the `Facet` shapes kept by a filter, then unwrapped.
pub proof fn lemma_facets_are_the_facet_shapes<P, C, F>(shapes: Seq<Shape<P, C, F>>)
    ensures
        facets_of(shapes) == shapes.filter(|x: Shape<P, C, F>| x is Facet).map_values(|x: Shape<P, C, F>| x->Facet_0),
    decreases shapes.len(),
{
    reveal(Seq::filter);
    let keep = |x: Shape<P, C, F>| x is Facet;
    let take = |x: Shape<P, C, F>| x->Facet_0;
    if shapes.len() > 0 {
        lemma_facets_are_the_facet_shapes(shapes.drop_last());
        let sub = shapes.drop_last().filter(keep);
        if keep(shapes.last()) {
            assert(sub.push(shapes.last()).map_values(take) =~= sub.map_values(take).push(take(shapes.last())));
        }
    } else {
        assert(shapes.filter(keep).map_values(take) =~= seq![]);
    }
}

/// The shapes of all parts are the parts' shape lists concatenated in order.
pub proof fn lemma_all_shapes_concatenate<P, C, F>(parts: Seq<Vec<Shape<P, C, F>>>)
    ensures
        all_shapes(parts) == parts.map_values(|v: Vec<Shape<P, C, F>>| v@).flatten(),
    decreases parts.len(),
{
    let lists = parts.map_values(|v: Vec<Shape<P, C, F>>| v@);
    lemma_all_shapes_alt(parts);
    lists.lemma_flatten_and_flatten_alt_are_equivalent();
}

proof fn lemma_all_shapes_alt<P, C, F>(parts: Seq<Vec<Shape<P, C, F>>>)
    ensures
        all_shapes(parts) == parts.map_values(|v: Vec<Shape<P, C, F>>| v@).flatten_alt(),
    decreases parts.len(),
{
    if parts.len() > 0 {
        lemma_all_shapes_alt(parts.drop_last());
        let lists = parts.map_values(|v: Vec<Shape<P, C, F>>| v@);
        assert(lists.drop_last() =~= parts.drop_last().map_values(|v: Vec<Shape<P, C, F>>| v@));
    } else {
        let lists = parts.map_values(|v: Vec<Shape<P, C, F>>| v@);
        assert(lists.len() == 0);
    }
}

} // verus!
