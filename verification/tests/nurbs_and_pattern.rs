use cadkernel::nurbs::{get_open_knots, Nurbs};
use cadkernel::grid_pattern::{get_cells, get_counts, get_divisors};

fn nurbs(order: usize, knots: usize, weights: usize) -> Nurbs<f32> {
    Nurbs { sign: 1.0, order, knots: vec![0.0; knots], weights: vec![1.0; weights] }
}

#[test]
fn sample_count_of_a_linear_basis_is_its_weight_count() {
    assert_eq!(nurbs(2, 0, 5).get_sample_count(10), 5);
}

#[test]
fn sample_count_grows_with_order_and_count() {
    assert_eq!(nurbs(3, 0, 4).get_sample_count(10), 4 + 10 * 1 * 3);
    assert_eq!(nurbs(4, 0, 3).get_sample_count(5), 3 + 5 * 2 * 2);
    assert_eq!(nurbs(4, 0, 1).get_sample_count(5), 1);
}

#[test]
fn valid_order_is_capped_and_at_least_linear() {
    assert_eq!(nurbs(3, 0, 0).get_valid_order(5), 3);
    assert_eq!(nurbs(6, 0, 0).get_valid_order(4), 4);
    assert_eq!(nurbs(1, 0, 0).get_valid_order(4), 2);
    assert_eq!(nurbs(3, 0, 0).get_valid_order(1), 2);
}

#[test]
fn valid_weights_keep_one_per_control_or_fall_back() {
    let mut n = nurbs(2, 0, 0);
    n.weights = vec![0.5, 2.0, 1.5];
    assert_eq!(n.get_valid_weights(3, 1.0), vec![0.5, 2.0, 1.5]);
    assert_eq!(n.get_valid_weights(2, 1.0), vec![1.0, 1.0]);
    assert_eq!(n.get_valid_weights(0, 1.0), Vec::<f32>::new());
}

#[test]
fn knots_fit_when_there_are_control_count_plus_order() {
    assert!(nurbs(3, 7, 0).has_valid_knots(4, 3));
    assert!(!nurbs(3, 6, 0).has_valid_knots(4, 3));
}

#[test]
fn open_knots_are_clamped_at_both_ends() {
    assert_eq!(get_open_knots(4, 3), vec![0, 0, 0, 1, 2, 2, 2]);
    assert_eq!(get_open_knots(2, 2), vec![0, 0, 1, 1]);
    assert_eq!(get_open_knots(5, 2), vec![0, 0, 1, 2, 3, 4, 4]);
}

#[test]
fn open_knots_never_decrease() {
    let knots = get_open_knots(9, 4);
    assert_eq!(knots.len(), 13);
    assert!(knots.windows(2).all(|w| w[0] <= w[1]));
    assert_eq!(&knots[..4], &[0, 0, 0, 0]);
    assert_eq!(&knots[9..], &[6, 6, 6, 6]);
}

#[test]
fn counts_prefer_the_count_triple_and_stay_positive() {
    assert_eq!(get_counts([3, 0, 0], 5, 2, 0), [3, 2, 1]);
    assert_eq!(get_counts([0, 0, 0], 0, 0, 0), [1, 1, 1]);
    assert_eq!(get_counts([2, 4, 6], 1, 1, 1), [2, 4, 6]);
}

#[test]
fn divisors_are_gaps_between_copies() {
    assert_eq!(get_divisors([1, 2, 5]), [1, 1, 4]);
    assert_eq!(get_divisors([0, 3, 1]), [1, 2, 1]);
}

#[test]
fn cells_run_x_then_y_then_z() {
    let cells = get_cells([2, 1, 3]);
    assert_eq!(
        cells,
        vec![[0, 0, 0], [0, 0, 1], [0, 0, 2], [1, 0, 0], [1, 0, 1], [1, 0, 2]]
    );
    assert!(get_cells([3, 0, 2]).is_empty());
}
