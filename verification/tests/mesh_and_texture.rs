use cadkernel::mesh::{flip_triangles, get_mesh_from_faces, get_trivec, get_trivec_with_offset, Mesh};
use cadkernel::texture::{add_i32_zeros, pad_with};
use cadkernel::digest::index_weighted_sum;

#[test]
fn trivec_of_a_two_by_three_grid() {
    let t = get_trivec(2, 3);
    assert_eq!(t, vec![0, 1, 3, 1, 4, 3, 1, 2, 4, 2, 5, 4]);
}

#[test]
fn trivec_with_offset_moves_every_index() {
    let t = get_trivec_with_offset(2, 2, 10);
    assert_eq!(t, vec![10, 11, 12, 11, 13, 12]);
}

#[test]
fn trivec_of_a_single_row_is_empty() {
    assert!(get_trivec(1, 5).is_empty());
    assert!(get_trivec(4, 1).is_empty());
}

#[test]
fn trivec_indices_stay_inside_the_grid() {
    let (u, v) = (4, 5);
    let t = get_trivec(u, v);
    assert_eq!(t.len(), 6 * (u - 1) * (v - 1));
    assert!(t.iter().all(|&i| i < u * v));
}

#[test]
fn meshes_join_with_moved_indices() {
    let a = Mesh { vector: vec![0, 0, 0, 1, 0, 0, 0, 1, 0], triangles: vec![0, 1, 2] };
    let b = Mesh { vector: vec![5, 5, 5, 6, 5, 5, 5, 6, 5, 6, 6, 5], triangles: vec![0, 1, 2, 1, 3, 2] };
    let joined = get_mesh_from_faces(vec![a, b]);
    assert_eq!(joined.vector.len(), 21);
    assert_eq!(joined.vector[9..12], [5, 5, 5]);
    assert_eq!(joined.triangles, vec![0, 1, 2, 3, 4, 5, 4, 6, 5]);
    assert!(joined.triangles.iter().all(|&i| i < joined.vector.len() / 3));
}

#[test]
fn joining_no_meshes_gives_an_empty_mesh() {
    let joined: Mesh<f32> = get_mesh_from_faces(vec![]);
    assert!(joined.vector.is_empty());
    assert!(joined.triangles.is_empty());
}

#[test]
fn flipping_swaps_the_first_two_corners() {
    let mut t = vec![0, 1, 2, 3, 4, 5, 6];
    flip_triangles(&mut t);
    assert_eq!(t, vec![1, 0, 2, 4, 3, 5, 6]);
}

#[test]
fn flipping_twice_restores_the_triangles() {
    let original = get_trivec(3, 4);
    let mut t = original.clone();
    flip_triangles(&mut t);
    assert_ne!(t, original);
    flip_triangles(&mut t);
    assert_eq!(t, original);
}

#[test]
fn i32_texels_are_padded_with_zeros() {
    let mut texels = vec![7, 8, 9];
    add_i32_zeros(&mut texels, 6);
    assert_eq!(texels, vec![7, 8, 9, 0, 0, 0]);
}

#[test]
fn padding_to_the_current_length_changes_nothing() {
    let mut texels = vec![1, 2];
    add_i32_zeros(&mut texels, 2);
    assert_eq!(texels, vec![1, 2]);
}

#[test]
fn float_texels_are_padded_with_the_fill() {
    let mut texels = vec![0.5f32];
    pad_with(&mut texels, 4, 0.0);
    assert_eq!(texels, vec![0.5, 0.0, 0.0, 0.0]);
}

#[test]
fn digest_weights_each_value_by_its_position() {
    assert_eq!(index_weighted_sum(&vec![9, 2, 3, 4]), 0 * 9 + 2 + 2 * 3 + 3 * 4);
    assert_eq!(index_weighted_sum(&vec![]), 0);
    assert_eq!(index_weighted_sum(&vec![100]), 0);
}

#[test]
fn an_offset_moves_every_triangle_index_by_itself() {
    let plain = get_trivec(3, 4);
    let moved = get_trivec_with_offset(3, 4, 7);
    assert_eq!(plain.len(), moved.len());
    for (a, b) in plain.iter().zip(moved.iter()) {
        assert_eq!(*a + 7, *b);
    }
}
