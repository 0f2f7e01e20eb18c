use cadkernel::shape::{
    get_curves, get_curves_and_facets, get_facets, get_grouped_curves, get_grouped_curves_and_facets,
    get_grouped_facets, get_points, get_shapes, high_rank, of_rank, split_shapes, Shape,
};
use cadkernel::trim::{trim_spans, TrimSpan};
use cadkernel::boundary::BoundaryWalk;

type S = Shape<u8, String, char>;

fn parts() -> Vec<Vec<S>> {
    vec![
        vec![Shape::Point(1), Shape::Curve("c1".to_string()), Shape::Facet('f')],
        vec![],
        vec![Shape::Curve("c2".to_string()), Shape::Point(2), Shape::Curve("c3".to_string())],
    ]
}

fn kind(s: &S) -> String {
    match s {
        Shape::Point(p) => format!("p{}", p),
        Shape::Curve(c) => c.clone(),
        Shape::Facet(f) => f.to_string(),
    }
}

#[test]
fn shapes_of_all_parts_in_order() {
    let shapes = get_shapes(parts());
    let names: Vec<String> = shapes.iter().map(kind).collect();
    assert_eq!(names, vec!["p1", "c1", "f", "c2", "p2", "c3"]);
}

#[test]
fn points_curves_and_facets_are_picked_in_order() {
    assert_eq!(get_points(parts()), vec![1, 2]);
    assert_eq!(get_curves(parts()), vec!["c1", "c2", "c3"]);
    assert_eq!(get_facets(parts()), vec!['f']);
    let (curves, facets) = get_curves_and_facets(parts());
    assert_eq!(curves, vec!["c1", "c2", "c3"]);
    assert_eq!(facets, vec!['f']);
}

#[test]
fn split_sorts_one_list_by_kind() {
    let (p, c, f) = split_shapes(parts().remove(2));
    assert_eq!(p, vec![2]);
    assert_eq!(c, vec!["c2", "c3"]);
    assert!(f.is_empty());
}

#[test]
fn groups_keep_one_entry_per_part() {
    let curves = get_grouped_curves(parts());
    assert_eq!(curves, vec![vec!["c1".to_string()], vec![], vec!["c2".to_string(), "c3".to_string()]]);
    let facets = get_grouped_facets(parts());
    assert_eq!(facets, vec![vec!['f'], vec![], vec![]]);
}

#[test]
fn grouped_and_flat_lists_agree() {
    let (curves, facets, curve_groups, facet_groups) = get_grouped_curves_and_facets(parts());
    assert_eq!(curves, vec!["c1", "c2", "c3"]);
    assert_eq!(facets, vec!['f']);
    let joined: Vec<String> = curve_groups.concat();
    assert_eq!(joined, curves);
    assert_eq!(facet_groups.concat(), facets);
    assert_eq!(curve_groups.len(), 3);
}

fn spans(entering: &[bool]) -> Vec<(Vec<usize>, Option<usize>)> {
    trim_spans(&entering.to_vec()).into_iter().map(|TrimSpan { mins, max }| (mins, max)).collect()
}

#[test]
fn trim_keeps_the_piece_between_entering_and_leaving() {
    assert_eq!(spans(&[true, false]), vec![(vec![0], Some(1))]);
}

#[test]
fn trim_keeps_the_start_up_to_a_leaving_hit() {
    assert_eq!(spans(&[false]), vec![(vec![], Some(0))]);
}

#[test]
fn trim_keeps_the_open_end_after_an_entering_hit() {
    assert_eq!(spans(&[true]), vec![(vec![0], None)]);
    assert_eq!(spans(&[false, true]), vec![(vec![], Some(0)), (vec![1], None)]);
}

#[test]
fn trim_repeated_entering_hits_all_move_the_start() {
    assert_eq!(
        spans(&[true, true, false, false, true]),
        vec![(vec![0, 1], Some(2)), (vec![], Some(3)), (vec![4], None)]
    );
}

#[test]
fn trim_uses_every_hit_once() {
    let entering = [true, false, true, true, false, true, false];
    let mut used = vec![];
    for (mins, max) in spans(&entering) {
        used.extend(mins);
        used.extend(max);
    }
    assert_eq!(used, (0..entering.len()).collect::<Vec<usize>>());
}

#[test]
fn boundary_walk_closes_a_loop_and_moves_to_an_unused_boundary() {
    let mut walk = BoundaryWalk::new();
    assert!(walk.take_point());
    assert!(!walk.take_point());
    assert!(!walk.advance(2, 4));
    assert_eq!(walk.current, 2);
    assert!(walk.open);
    assert!(walk.advance(0, 4));
    assert!(!walk.open);
    assert_eq!(walk.used, vec![2, 0]);
    assert_eq!(walk.current, 1);
    assert_eq!(walk.start, 1);
    assert!(walk.take_point());
}

#[test]
fn boundary_walk_stays_when_every_boundary_is_used() {
    let mut walk = BoundaryWalk::new();
    walk.take_point();
    assert!(walk.advance(0, 1));
    assert_eq!(walk.current, 0);
    assert_eq!(walk.start, 0);
}

#[test]
fn high_rank_is_the_largest_rank() {
    assert_eq!(high_rank(&vec![1, 2, 0, 1]), 2);
    assert_eq!(high_rank(&vec![]), 0);
    assert_eq!(high_rank(&vec![0, 0]), 0);
}

#[test]
fn of_rank_lists_the_positions_of_that_rank() {
    assert_eq!(of_rank(&vec![1, 2, 1, 0, 1], 1), vec![0, 2, 4]);
    assert_eq!(of_rank(&vec![1, 2], 3), Vec::<usize>::new());
}
