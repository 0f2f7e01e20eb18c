use vstd::prelude::*;

verus! {

/// Vertex index of corner `r` (of six) of the two triangles that cover grid
/// cell `(u, v)` of a grid with `v_count` vertices per column.
pub open spec fn cell_corner(v_count: int, offset: int, u: int, v: int, r: int) -> int {
    let u0_v0 = u * v_count + v + offset;
    let u0_v1 = u * v_count + v + 1 + offset;
    let u1_v0 = (u + 1) * v_count + v + offset;
    let u1_v1 = (u + 1) * v_count + v + 1 + offset;
    if r == 0 {
        u0_v0
    } else if r == 1 || r == 3 {
        u0_v1
    } else if r == 2 || r == 5 {
        u1_v0
    } else {
        u1_v1
    }
}

/// Position in the triangle list of corner `r` of cell `(u, v)`.
pub open spec fn corner_slot(v_count: int, u: int, v: int, r: int) -> int {
    6 * (u * (v_count - 1) + v) + r
}

/// The grid is well formed enough for the triangle list to be computed.
pub open spec fn grid_fits(u_count: int, v_count: int, offset: int) -> bool {
    &&& u_count >= 1
    &&& u_count >= 2 ==> v_count >= 1
    &&& u_count * v_count + offset <= usize::MAX
    &&& 6 * (u_count - 1) * (v_count - 1) <= usize::MAX
}

proof fn lemma_slot_bounds(v_count: int, u: int, v: int, r: int, u_now: int, v_now: int)
    requires
        v_count >= 1,
        0 <= u,
        0 <= v < v_count - 1,
        0 <= r < 6,
        0 <= u_now,
        0 <= v_now <= v_count - 1,
        u < u_now || (u == u_now && v < v_now),
    ensures
        0 <= corner_slot(v_count, u, v, r) < 6 * (u_now * (v_count - 1) + v_now),
{
    if u < u_now {
        assert(u * (v_count - 1) + v < u_now * (v_count - 1)) by (nonlinear_arith)
            requires
                u < u_now,
                0 <= v < v_count - 1,
                0 <= u,
        ;
    }
    assert(0 <= u * (v_count - 1)) by (nonlinear_arith)
        requires
            0 <= u,
            v_count >= 1,
    ;
}

/// The triangle list of a grid of `u_count` by `v_count` vertices numbered
/// from `offset`: entry `k` is corner `k % 6` of the cell counted `k / 6`,
/// cells running along `v` within each column of cells.
pub open spec fn grid_triangles(u_count: int, v_count: int, offset: int) -> Seq<usize> {
    let cells_v = v_count - 1;
    Seq::new(
        (6 * (u_count - 1) * (v_count - 1)) as nat,
        |k: int| cell_corner(v_count, offset, (k / 6) / cells_v, (k / 6) % cells_v, k % 6) as usize,
    )
}

/// Every position of the triangle list is a corner of exactly the cell and
/// corner that `grid_triangles` reads there.
proof fn lemma_slot_decompose(u_count: int, v_count: int, k: int)
    requires
        u_count >= 1,
        v_count >= 2,
        0 <= k < 6 * (u_count - 1) * (v_count - 1),
    ensures
        0 <= (k / 6) / (v_count - 1) < u_count - 1,
        0 <= (k / 6) % (v_count - 1) < v_count - 1,
        0 <= k % 6 < 6,
        corner_slot(v_count, (k / 6) / (v_count - 1), (k / 6) % (v_count - 1), k % 6) == k,
{
    let cells = (u_count - 1) * (v_count - 1);
    let c = k / 6;
    let r = k % 6;
    let w = v_count - 1;
    vstd::arithmetic::div_mod::lemma_fundamental_div_mod(k, 6);
    vstd::arithmetic::div_mod::lemma_mod_pos_bound(k, 6);
    vstd::arithmetic::div_mod::lemma_div_pos_is_pos(k, 6);
    assert(6 * (u_count - 1) * (v_count - 1) == 6 * cells) by (nonlinear_arith)
        requires
            cells == (u_count - 1) * (v_count - 1),
    ;
    vstd::arithmetic::div_mod::lemma_multiply_divide_lt(k, 6, cells);
    assert(c < cells);
    let u = c / w;
    let v = c % w;
    vstd::arithmetic::div_mod::lemma_fundamental_div_mod(c, w);
    vstd::arithmetic::div_mod::lemma_mod_pos_bound(c, w);
    vstd::arithmetic::div_mod::lemma_div_pos_is_pos(c, w);
    assert(cells == w * (u_count - 1)) by (nonlinear_arith)
        requires
            cells == (u_count - 1) * (v_count - 1),
            w == v_count - 1,
    ;
    vstd::arithmetic::div_mod::lemma_multiply_divide_lt(c, w, u_count - 1);
    assert(w * u == u * w) by (nonlinear_arith);
}

/// Entry `k` of a grid's triangle list, with `c = k / 6` the cell counted
/// along `v` within each column of cells and `r = k % 6` the corner: cell
/// `(c / (v_count - 1), c % (v_count - 1))` has its vertex `u * v_count + v`
/// numbered from `offset`, and corners 2, 4, 5 step one column on (`v_count`
/// vertices) while corners 1, 3, 4 step one row on.
pub proof fn lemma_grid_triangles_closed_form(u_count: int, v_count: int, offset: int)
    requires
        offset >= 0,
        grid_fits(u_count, v_count, offset),
    ensures
        forall|k: int| 0 <= k < grid_triangles(u_count, v_count, offset).len() ==> #[trigger] grid_triangles(u_count, v_count, offset)[k] ==
            ((k / 6) / (v_count - 1)) * v_count + (k / 6) % (v_count - 1) + offset
            + (if k % 6 == 2 || k % 6 == 4 || k % 6 == 5 { v_count } else { 0 })
            + (if k % 6 == 1 || k % 6 == 3 || k % 6 == 4 { 1int } else { 0int }),
{
    let g = grid_triangles(u_count, v_count, offset);
    assert forall|k: int| 0 <= k < g.len() implies #[trigger] g[k] ==
            ((k / 6) / (v_count - 1)) * v_count + (k / 6) % (v_count - 1) + offset
            + (if k % 6 == 2 || k % 6 == 4 || k % 6 == 5 { v_count } else { 0 })
            + (if k % 6 == 1 || k % 6 == 3 || k % 6 == 4 { 1int } else { 0int }) by {
        if v_count < 2 {
            assert(6 * (u_count - 1) * (v_count - 1) == 0) by (nonlinear_arith)
                requires
                    u_count == 1 || v_count == 1,
            ;
        } else {
            lemma_slot_decompose(u_count, v_count, k);
            let w = v_count - 1;
            let u = (k / 6) / w;
            let v = (k / 6) % w;
            assert(0 <= u * v_count) by (nonlinear_arith)
                requires
                    u >= 0,
                    v_count >= 0,
            ;
            assert((u + 1) * v_count + v + 1 < u_count * v_count) by (nonlinear_arith)
                requires
                    0 <= u < u_count - 1,
                    0 <= v < v_count - 1,
            ;
            assert((u + 1) * v_count == u * v_count + v_count) by (nonlinear_arith);
        }
    }
}

/// The triangles of a grid of `u_count` by `v_count` vertices, numbered from
/// `offset` column by column: two triangles for each cell, cell after cell.
pub fn get_trivec_with_offset(u_count: usize, v_count: usize, offset: usize) -> (vector: Vec<usize>)
    requires
        grid_fits(u_count as int, v_count as int, offset as int),
    ensures
        vector@ == grid_triangles(u_count as int, v_count as int, offset as int),
        vector@.len() == 6 * (u_count - 1) * (v_count - 1),
        forall|u: int, v: int, r: int| 0 <= u < u_count - 1 && 0 <= v < v_count - 1 && 0 <= r < 6
            ==> vector@[#[trigger] corner_slot(v_count as int, u, v, r)] == cell_corner(v_count as int, offset as int, u, v, r),
        forall|k: int| 0 <= k < vector@.len() ==> offset <= #[trigger] vector@[k] < u_count * v_count + offset,
        forall|k: int| 0 <= k < vector@.len() ==> #[trigger] vector@[k] ==
            ((k / 6) / (v_count - 1)) * v_count + (k / 6) % (v_count - 1) + offset
            + (if k % 6 == 2 || k % 6 == 4 || k % 6 == 5 { v_count } else { 0 })
            + (if k % 6 == 1 || k % 6 == 3 || k % 6 == 4 { 1int } else { 0int }),
{
    let mut vector: Vec<usize> = Vec::new();
    let mut u: usize = 0;
    while u < u_count - 1
        invariant
            grid_fits(u_count as int, v_count as int, offset as int),
            0 <= u <= u_count - 1,
            u < u_count - 1 ==> v_count >= 1,
            vector@.len() == 6 * (u * (v_count - 1)),
            forall|u2: int, v2: int, r: int| 0 <= u2 < u && 0 <= v2 < v_count - 1 && 0 <= r < 6
                ==> vector@[#[trigger] corner_slot(v_count as int, u2, v2, r)] == cell_corner(v_count as int, offset as int, u2, v2, r),
            forall|k: int| 0 <= k < vector@.len() ==> offset <= #[trigger] vector@[k] < u_count * v_count + offset,
        decreases u_count - 1 - u,
    {
        let mut v: usize = 0;
        while v < v_count - 1
            invariant
                grid_fits(u_count as int, v_count as int, offset as int),
                v_count >= 1,
                0 <= u < u_count - 1,
                0 <= v <= v_count - 1,
                vector@.len() == 6 * (u * (v_count - 1) + v),
                forall|u2: int, v2: int, r: int| 0 <= r < 6 && 0 <= v2 < v_count - 1 && (0 <= u2 < u || (u2 == u && 0 <= v2 < v))
                    ==> vector@[#[trigger] corner_slot(v_count as int, u2, v2, r)] == cell_corner(v_count as int, offset as int, u2, v2, r),
                forall|k: int| 0 <= k < vector@.len() ==> offset <= #[trigger] vector@[k] < u_count * v_count + offset,
            decreases v_count - 1 - v,
        {
            proof {
                assert((u + 1) * v_count + v + 1 + offset < u_count * v_count + offset) by (nonlinear_arith)
                    requires
                        u + 2 <= u_count,
                        v + 2 <= v_count,
                        0 <= v,
                ;
                assert(u * v_count <= (u + 1) * v_count) by (nonlinear_arith)
                    requires
                        v_count >= 0,
                ;
                assert((u + 1) * v_count == u * v_count + v_count) by (nonlinear_arith);
                assert(0 <= u * v_count) by (nonlinear_arith)
                    requires
                        v_count >= 0,
                        u >= 0,
                ;
                assert(6 * (u * (v_count - 1) + v) + 6 <= 6 * (u_count - 1) * (v_count - 1)) by (nonlinear_arith)
                    requires
                        u + 1 <= u_count - 1,
                        v + 1 <= v_count - 1,
                        0 <= u,
                        0 <= v,
                ;
            }
            let local_u0_v0 = u * v_count + v + offset;
            let local_u0_v1 = u * v_count + v + 1 + offset;
            let local_u1_v0 = (u + 1) * v_count + v + offset;
            let local_u1_v1 = (u + 1) * v_count + v + 1 + offset;
            let ghost before = vector@;
            vector.push(local_u0_v0);
            vector.push(local_u0_v1);
            vector.push(local_u1_v0);
            vector.push(local_u0_v1);
            vector.push(local_u1_v1);
            vector.push(local_u1_v0);
            proof {
                assert forall|k: int| 0 <= k < vector@.len() implies offset <= #[trigger] vector@[k] < u_count * v_count + offset by {
                    if k < before.len() {
                        assert(vector@[k] == before[k]);
                    }
                }
                assert forall|u2: int, v2: int, r: int| 0 <= r < 6 && 0 <= v2 < v_count - 1 && (0 <= u2 < u || (u2 == u && 0 <= v2 < v + 1))
                    implies vector@[#[trigger] corner_slot(v_count as int, u2, v2, r)] == cell_corner(v_count as int, offset as int, u2, v2, r) by {
                    if u2 == u && v2 == v {
                        assert(corner_slot(v_count as int, u2, v2, r) == before.len() + r);
                    } else {
                        lemma_slot_bounds(v_count as int, u2, v2, r, u as int, v as int);
                    }
                }
            }
            v = v + 1;
        }
        assert(6 * (u * (v_count - 1) + (v_count - 1)) == 6 * ((u + 1) * (v_count - 1))) by (nonlinear_arith);
        u = u + 1;
    }
    proof {
        assert(6 * ((u_count - 1) * (v_count - 1)) == 6 * (u_count - 1) * (v_count - 1)) by (nonlinear_arith);
        let expected = grid_triangles(u_count as int, v_count as int, offset as int);
        assert forall|k: int| 0 <= k < vector@.len() implies vector@[k] == expected[k] by {
            if v_count < 2 {
                assert(6 * (u_count - 1) * (v_count - 1) == 0) by (nonlinear_arith)
                    requires
                        v_count == 1 || v_count == 0,
                        u_count >= 1,
                        u_count >= 2 ==> v_count >= 1,
                ;
            } else {
                lemma_slot_decompose(u_count as int, v_count as int, k);
                let w = (v_count - 1) as int;
                let u = (k / 6) / w;
                let v = (k / 6) % w;
                assert(vector@[corner_slot(v_count as int, u, v, k % 6)] == cell_corner(v_count as int, offset as int, u, v, k % 6));
            }
        }
        assert(vector@ =~= expected);
        lemma_grid_triangles_closed_form(u_count as int, v_count as int, offset as int);
    }
    vector
}

/// Numbering the grid's vertices from `offset` moves every index of its
/// triangles up by `offset` and changes nothing else.
pub proof fn lemma_offset_moves_indices(u_count: int, v_count: int, offset: int)
    requires
        offset >= 0,
        grid_fits(u_count, v_count, offset),
    ensures
        grid_triangles(u_count, v_count, offset).len() == grid_triangles(u_count, v_count, 0).len(),
        forall|k: int| 0 <= k < grid_triangles(u_count, v_count, 0).len()
            ==> #[trigger] grid_triangles(u_count, v_count, offset)[k] == grid_triangles(u_count, v_count, 0)[k] + offset,
{
    assert forall|k: int| 0 <= k < grid_triangles(u_count, v_count, 0).len()
        implies #[trigger] grid_triangles(u_count, v_count, offset)[k] == grid_triangles(u_count, v_count, 0)[k] + offset by {
        if v_count < 2 {
            assert(6 * (u_count - 1) * (v_count - 1) == 0) by (nonlinear_arith)
                requires
                    u_count == 1 || v_count == 1,
            ;
        } else {
            lemma_slot_decompose(u_count, v_count, k);
            let w = v_count - 1;
            let u = (k / 6) / w;
            let v = (k / 6) % w;
            assert(0 <= u * v_count) by (nonlinear_arith)
                requires
                    u >= 0,
                    v_count >= 0,
            ;
            assert((u + 1) * v_count + v + 1 < u_count * v_count) by (nonlinear_arith)
                requires
                    0 <= u < u_count - 1,
                    0 <= v < v_count - 1,
            ;
            assert((u + 1) * v_count == u * v_count + v_count) by (nonlinear_arith);
        }
    }
}

/// The triangles of a grid of `u_count` by `v_count` vertices numbered from zero.
pub fn get_trivec(u_count: usize, v_count: usize) -> (vector: Vec<usize>)
    requires
        grid_fits(u_count as int, v_count as int, 0),
    ensures
        vector@ == grid_triangles(u_count as int, v_count as int, 0),
        vector@.len() == 6 * (u_count - 1) * (v_count - 1),
        forall|u: int, v: int, r: int| 0 <= u < u_count - 1 && 0 <= v < v_count - 1 && 0 <= r < 6
            ==> vector@[#[trigger] corner_slot(v_count as int, u, v, r)] == cell_corner(v_count as int, 0, u, v, r),
        forall|k: int| 0 <= k < vector@.len() ==> #[trigger] vector@[k] < u_count * v_count,
        forall|k: int| 0 <= k < vector@.len() ==> #[trigger] vector@[k] ==
            ((k / 6) / (v_count - 1)) * v_count + (k / 6) % (v_count - 1) + 0
            + (if k % 6 == 2 || k % 6 == 4 || k % 6 == 5 { v_count } else { 0 })
            + (if k % 6 == 1 || k % 6 == 3 || k % 6 == 4 { 1int } else { 0int }),
{
    get_trivec_with_offset(u_count, v_count, 0)
}

/// Vertex coordinates, three per vertex, and triangles as triples of vertex indices.
pub struct Mesh<T> {
    pub vector: Vec<T>,
    pub triangles: Vec<usize>,
}

/// For each mesh, its number of whole vertices.
pub open spec fn vertex_counts<T>(meshes: Seq<Mesh<T>>) -> Seq<nat> {
    Seq::new(meshes.len(), |p: int| meshes[p].vector@.len() / 3)
}

/// The coordinates of the first `p` meshes, one after the other.
pub open spec fn joined_vectors<T>(meshes: Seq<Mesh<T>>, p: int) -> Seq<T>
    decreases p,
{
    if p <= 0 {
        seq![]
    } else {
        joined_vectors(meshes, p - 1) + meshes[p - 1].vector@
    }
}

/// Each index of `triangles` moved up by `shift`.
pub open spec fn shifted(triangles: Seq<usize>, shift: int) -> Seq<usize> {
    Seq::new(triangles.len(), |k: int| (triangles[k] + shift) as usize)
}

/// The triangles of the first `p` meshes, each mesh's indices moved past the
/// whole vertices of the meshes before it.
pub open spec fn joined_triangles<T>(meshes: Seq<Mesh<T>>, p: int) -> Seq<usize>
    decreases p,
{
    if p <= 0 {
        seq![]
    } else {
        joined_triangles(meshes, p - 1) + shifted(meshes[p - 1].triangles@, crate::hit::offset(vertex_counts(meshes), p - 1) as int)
    }
}

/// The meshes can be joined without an index or a length leaving `usize`.
pub open spec fn meshes_fit<T>(meshes: Seq<Mesh<T>>) -> bool {
    &&& joined_vectors(meshes, meshes.len() as int).len() <= usize::MAX
    &&& crate::hit::total(vertex_counts(meshes)) <= usize::MAX
    &&& forall|p: int, k: int| 0 <= p < meshes.len() && 0 <= k < meshes[p].triangles@.len()
        ==> #[trigger] meshes[p].triangles@[k] + crate::hit::offset(vertex_counts(meshes), p) <= usize::MAX
}

proof fn lemma_joined_vectors_grow<T>(meshes: Seq<Mesh<T>>, a: int, b: int)
    requires
        0 <= a <= b <= meshes.len(),
    ensures
        joined_vectors(meshes, a).len() <= joined_vectors(meshes, b).len(),
    decreases b - a,
{
    if a < b {
        lemma_joined_vectors_grow(meshes, a, b - 1);
    }
}

/// One mesh made of the given meshes: their coordinates one after the other,
/// and their triangles with each mesh's vertex indices moved past the vertices
/// of the meshes before it.
pub fn get_mesh_from_faces<T: Copy>(meshes: Vec<Mesh<T>>) -> (mesh: Mesh<T>)
    requires
        meshes_fit(meshes@),
    ensures
        mesh.vector@ == joined_vectors(meshes@, meshes@.len() as int),
        mesh.triangles@ == joined_triangles(meshes@, meshes@.len() as int),
        mesh.triangles@.len() == crate::hit::offset(triangle_counts(meshes@), meshes@.len() as int),
        forall|p: int, k: int| 0 <= p < meshes@.len() && 0 <= k < meshes@[p].triangles@.len()
            ==> mesh.triangles@[crate::hit::offset(triangle_counts(meshes@), p) + k]
                == #[trigger] meshes@[p].triangles@[k] + crate::hit::offset(vertex_counts(meshes@), p),
        forall|p: int, x: int| 0 <= p < meshes@.len() && 0 <= x < meshes@[p].vector@.len()
            ==> mesh.vector@[crate::hit::offset(coordinate_counts(meshes@), p) + x] == #[trigger] meshes@[p].vector@[x],
{
    let mut vector: Vec<T> = Vec::new();
    let mut triangles: Vec<usize> = Vec::new();
    let mut offset: usize = 0;
    let mut p: usize = 0;
    while p < meshes.len()
        invariant
            meshes_fit(meshes@),
            0 <= p <= meshes@.len(),
            vector@ == joined_vectors(meshes@, p as int),
            triangles@ == joined_triangles(meshes@, p as int),
            offset == crate::hit::offset(vertex_counts(meshes@), p as int),
        decreases meshes@.len() - p,
    {
        let part = &meshes[p];
        proof {
            lemma_joined_vectors_grow(meshes@, p as int + 1, meshes@.len() as int);
            crate::hit::lemma_offset_monotonic(vertex_counts(meshes@), p as int + 1, meshes@.len() as int);
        }
        let mut i: usize = 0;
        while i < part.vector.len()
            invariant
                0 <= i <= part.vector@.len(),
                vector@ == joined_vectors(meshes@, p as int) + part.vector@.take(i as int),
                joined_vectors(meshes@, p as int).len() + part.vector@.len() <= usize::MAX,
            decreases part.vector@.len() - i,
        {
            let ghost before = vector@;
            vector.push(part.vector[i]);
            assert(part.vector@.take(i as int + 1) =~= part.vector@.take(i as int).push(part.vector@[i as int]));
            i = i + 1;
        }
        assert(part.vector@.take(part.vector@.len() as int) =~= part.vector@);
        let ghost shift = crate::hit::offset(vertex_counts(meshes@), p as int);
        let mut k: usize = 0;
        while k < part.triangles.len()
            invariant
                0 <= k <= part.triangles@.len(),
                part == &meshes@[p as int],
                0 <= p < meshes@.len(),
                meshes_fit(meshes@),
                offset == shift,
                shift == crate::hit::offset(vertex_counts(meshes@), p as int),
                triangles@ == joined_triangles(meshes@, p as int) + shifted(part.triangles@, shift as int).take(k as int),
            decreases part.triangles@.len() - k,
        {
            assert(meshes@[p as int].triangles@[k as int] + shift <= usize::MAX);
            triangles.push(part.triangles[k] + offset);
            assert(shifted(part.triangles@, shift as int).take(k as int + 1)
                =~= shifted(part.triangles@, shift as int).take(k as int).push((part.triangles@[k as int] + shift) as usize));
            k = k + 1;
        }
        assert(shifted(part.triangles@, shift as int).take(part.triangles@.len() as int) =~= shifted(part.triangles@, shift as int));
        offset = offset + part.vector.len() / 3;
        p = p + 1;
    }
    proof {
        lemma_joined_triangles_layout(meshes@, meshes@.len() as int);
        lemma_joined_vectors_layout(meshes@, meshes@.len() as int);
    }
    Mesh { vector, triangles }
}

/// Every triangle of the mesh names one of its whole vertices.
pub open spec fn indices_in_range(triangles: Seq<usize>, vertex_count: nat) -> bool {
    forall|k: int| 0 <= k < triangles.len() ==> #[trigger] triangles[k] < vertex_count
}

proof fn lemma_joined_prefix_in_range<T>(meshes: Seq<Mesh<T>>, p: int)
    requires
        meshes_fit(meshes),
        0 <= p <= meshes.len(),
        forall|q: int| 0 <= q < meshes.len()
            ==> indices_in_range(#[trigger] meshes[q].triangles@, meshes[q].vector@.len() / 3),
    ensures
        indices_in_range(joined_triangles(meshes, p), crate::hit::offset(vertex_counts(meshes), p)),
        3 * crate::hit::offset(vertex_counts(meshes), p) <= joined_vectors(meshes, p).len(),
    decreases p,
{
    if p > 0 {
        lemma_joined_prefix_in_range(meshes, p - 1);
        let sizes = vertex_counts(meshes);
        let before = joined_triangles(meshes, p - 1);
        let added = shifted(meshes[p - 1].triangles@, crate::hit::offset(sizes, p - 1) as int);
        assert(indices_in_range(meshes[p - 1].triangles@, meshes[p - 1].vector@.len() / 3));
        assert forall|k: int| 0 <= k < joined_triangles(meshes, p).len()
            implies #[trigger] joined_triangles(meshes, p)[k] < crate::hit::offset(sizes, p) by {
            if k < before.len() {
                assert(joined_triangles(meshes, p)[k] == before[k]);
            } else {
                let j = k - before.len();
                assert(joined_triangles(meshes, p)[k] == added[j]);
                assert(meshes[p - 1].triangles@[j] + crate::hit::offset(sizes, p - 1) <= usize::MAX);
            }
        }
    }
}

/// Joining meshes whose triangles name their own vertices gives triangles that
/// name vertices of the joined coordinates.
pub proof fn lemma_joined_mesh_in_range<T>(meshes: Seq<Mesh<T>>)
    requires
        meshes_fit(meshes),
        forall|q: int| 0 <= q < meshes.len()
            ==> indices_in_range(#[trigger] meshes[q].triangles@, meshes[q].vector@.len() / 3),
    ensures
        indices_in_range(
            joined_triangles(meshes, meshes.len() as int),
            joined_vectors(meshes, meshes.len() as int).len() / 3,
        ),
{
    lemma_joined_prefix_in_range(meshes, meshes.len() as int);
}

/// The triangle list with the first two corners of every whole triangle
/// swapped, which turns each triangle over; a trailing partial triangle stays.
pub open spec fn flipped(triangles: Seq<usize>) -> Seq<usize> {
    let whole = 3 * (triangles.len() / 3);
    Seq::new(
        triangles.len(),
        |i: int|
            if i < whole && i % 3 == 0 {
                triangles[i + 1]
            } else if i < whole && i % 3 == 1 {
                triangles[i - 1]
            } else {
                triangles[i]
            },
    )
}

/// Turns every triangle over by swapping its first two corners.
pub fn flip_triangles(triangles: &mut Vec<usize>)
    ensures
        final(triangles)@ == flipped(old(triangles)@),
{
    let ghost start = triangles@;
    let count = triangles.len() / 3;
    let mut k: usize = 0;
    assert(3 * count <= start.len());
    while k < count
        invariant
            count == start.len() / 3,
            3 * count <= start.len() <= usize::MAX,
            0 <= k <= count,
            triangles@.len() == start.len(),
            forall|i: int| 0 <= i < 3 * k ==> #[trigger] triangles@[i] == flipped(start)[i],
            forall|i: int| 3 * k <= i < start.len() ==> #[trigger] triangles@[i] == start[i],
        decreases count - k,
    {
        let i = k * 3;
        let index = triangles[i];
        let next = triangles[i + 1];
        triangles.set(i, next);
        triangles.set(i + 1, index);
        proof {
            assert forall|j: int| 0 <= j < 3 * (k + 1) implies #[trigger] triangles@[j] == flipped(start)[j] by {
                if j >= 3 * k {
                    assert(j == i || j == i + 1 || j == i + 2);
                }
            }
        }
        k = k + 1;
    }
    assert(triangles@ =~= flipped(start));
}

/// Turning the triangles over twice gives them back as they were.
pub proof fn lemma_flip_twice(triangles: Seq<usize>)
    ensures
        flipped(flipped(triangles)) == triangles,
{
    let once = flipped(triangles);
    assert forall|i: int| 0 <= i < triangles.len() implies #[trigger] flipped(once)[i] == triangles[i] by {
        let whole = 3 * (triangles.len() / 3);
        if i < whole && i % 3 == 0 {
            assert(once[i + 1] == triangles[i]);
        } else if i < whole && i % 3 == 1 {
            assert(once[i - 1] == triangles[i]);
        }
    }
    assert(flipped(once) =~= triangles);
}

/// For each mesh, its number of triangle indices.
pub open spec fn triangle_counts<T>(meshes: Seq<Mesh<T>>) -> Seq<nat> {
    Seq::new(meshes.len(), |p: int| meshes[p].triangles@.len())
}

/// For each mesh, its number of coordinates.
pub open spec fn coordinate_counts<T>(meshes: Seq<Mesh<T>>) -> Seq<nat> {
    Seq::new(meshes.len(), |p: int| meshes[p].vector@.len())
}

/// The joined triangle list holds the triangles of each mesh in turn, each
/// index moved up by the whole vertices of all meshes before it.
pub proof fn lemma_joined_triangles_layout<T>(meshes: Seq<Mesh<T>>, n: int)
    requires
        meshes_fit(meshes),
        0 <= n <= meshes.len(),
    ensures
        joined_triangles(meshes, n).len() == crate::hit::offset(triangle_counts(meshes), n),
        forall|p: int, k: int| 0 <= p < n && 0 <= k < meshes[p].triangles@.len()
            ==> joined_triangles(meshes, n)[crate::hit::offset(triangle_counts(meshes), p) + k]
                == #[trigger] meshes[p].triangles@[k] + crate::hit::offset(vertex_counts(meshes), p),
    decreases n,
{
    if n > 0 {
        lemma_joined_triangles_layout(meshes, n - 1);
        let counts = triangle_counts(meshes);
        let before = joined_triangles(meshes, n - 1);
        assert forall|p: int, k: int| 0 <= p < n && 0 <= k < meshes[p].triangles@.len()
            implies joined_triangles(meshes, n)[crate::hit::offset(counts, p) + k]
                == #[trigger] meshes[p].triangles@[k] + crate::hit::offset(vertex_counts(meshes), p) by {
            assert(meshes[p].triangles@[k] + crate::hit::offset(vertex_counts(meshes), p) <= usize::MAX);
            if p < n - 1 {
                crate::hit::lemma_offset_monotonic(counts, p + 1, n - 1);
                assert(counts[p] == meshes[p].triangles@.len());
                assert(joined_triangles(meshes, n)[crate::hit::offset(counts, p) + k] == before[crate::hit::offset(counts, p) + k]);
            } else {
                assert(counts[p] == meshes[p].triangles@.len());
            }
        }
    }
}

/// The joined coordinates hold the coordinates of each mesh in turn.
pub proof fn lemma_joined_vectors_layout<T>(meshes: Seq<Mesh<T>>, n: int)
    requires
        0 <= n <= meshes.len(),
    ensures
        joined_vectors(meshes, n).len() == crate::hit::offset(coordinate_counts(meshes), n),
        forall|p: int, x: int| 0 <= p < n && 0 <= x < meshes[p].vector@.len()
            ==> joined_vectors(meshes, n)[crate::hit::offset(coordinate_counts(meshes), p) + x]
                == #[trigger] meshes[p].vector@[x],
    decreases n,
{
    if n > 0 {
        lemma_joined_vectors_layout(meshes, n - 1);
        let counts = coordinate_counts(meshes);
        let before = joined_vectors(meshes, n - 1);
        assert forall|p: int, x: int| 0 <= p < n && 0 <= x < meshes[p].vector@.len()
            implies joined_vectors(meshes, n)[crate::hit::offset(counts, p) + x] == #[trigger] meshes[p].vector@[x] by {
            assert(counts[p] == meshes[p].vector@.len());
            if p < n - 1 {
                crate::hit::lemma_offset_monotonic(counts, p + 1, n - 1);
                assert(joined_vectors(meshes, n)[crate::hit::offset(counts, p) + x] == before[crate::hit::offset(counts, p) + x]);
            }
        }
    }
}

proof fn lemma_whole_vertex_offsets<T>(meshes: Seq<Mesh<T>>, p: int)
    requires
        0 <= p <= meshes.len(),
        forall|q: int| 0 <= q < meshes.len() ==> #[trigger] meshes[q].vector@.len() % 3 == 0,
    ensures
        crate::hit::offset(coordinate_counts(meshes), p) == 3 * crate::hit::offset(vertex_counts(meshes), p),
    decreases p,
{
    if p > 0 {
        lemma_whole_vertex_offsets(meshes, p - 1);
        assert(meshes[p - 1].vector@.len() % 3 == 0);
        assert(coordinate_counts(meshes)[p - 1] == 3 * vertex_counts(meshes)[p - 1]);
    }
}

/// When every mesh holds whole vertices, joining keeps what each triangle
/// corner points at: index `k` of the triangles of mesh `p`, read in the
/// joined mesh, names the same coordinates in the joined coordinates as it
/// names in mesh `p`.
pub proof fn lemma_joined_corner_keeps_its_point<T>(meshes: Seq<Mesh<T>>, p: int, k: int, c: int)
    requires
        meshes_fit(meshes),
        forall|q: int| 0 <= q < meshes.len() ==> #[trigger] meshes[q].vector@.len() % 3 == 0,
        0 <= p < meshes.len(),
        0 <= k < meshes[p].triangles@.len(),
        meshes[p].triangles@[k] < meshes[p].vector@.len() / 3,
        0 <= c < 3,
    ensures
        ({
            let n = meshes.len() as int;
            let joined = joined_triangles(meshes, n)[crate::hit::offset(triangle_counts(meshes), p) + k];
            joined_vectors(meshes, n)[3 * joined + c] == meshes[p].vector@[3 * meshes[p].triangles@[k] + c]
        }),
{
    let n = meshes.len() as int;
    lemma_joined_triangles_layout(meshes, n);
    lemma_joined_vectors_layout(meshes, n);
    lemma_whole_vertex_offsets(meshes, p);
    let t = meshes[p].triangles@[k] as int;
    let base = crate::hit::offset(vertex_counts(meshes), p) as int;
    assert(joined_triangles(meshes, n)[crate::hit::offset(triangle_counts(meshes), p) + k] == t + base);
    assert(0 <= 3 * t + c < meshes[p].vector@.len());
    assert(3 * (t + base) + c == crate::hit::offset(coordinate_counts(meshes), p) + (3 * t + c));
}

} // verus!
