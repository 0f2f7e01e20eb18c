use vstd::prelude::*;

verus! {

/// The copies along one axis: the count given in the count triple when it is
/// set, else the axis's own count, and at least one.
pub open spec fn axis_count(given: int, own: int) -> int {
    let chosen = if given > 0 { given } else { own };
    if chosen < 1 { 1 } else { chosen }
}

/// The gaps between copies along an axis of `count` copies, at least one.
pub open spec fn axis_divisor(count: int) -> int {
    if count > 1 { count - 1 } else { 1 }
}

/// Position in the cell list of cell `(x, y, z)` of a grid with `cy` by `cz`
/// cells in each `x` layer: `x` outermost, `z` innermost.
pub open spec fn cell_slot(cy: int, cz: int, x: int, y: int, z: int) -> int {
    (x * cy + y) * cz + z
}

/// The copies along each axis for a pattern whose count triple is `count` and
/// whose own counts are `x_count`, `y_count` and `z_count`.
pub fn get_counts(count: [usize; 3], x_count: usize, y_count: usize, z_count: usize) -> (counts: [usize; 3])
    ensures
        counts[0] == axis_count(count[0] as int, x_count as int),
        counts[1] == axis_count(count[1] as int, y_count as int),
        counts[2] == axis_count(count[2] as int, z_count as int),
{
    let mut x = x_count;
    let mut y = y_count;
    let mut z = z_count;
    if count[0] > 0 {
        x = count[0];
    }
    if count[1] > 0 {
        y = count[1];
    }
    if count[2] > 0 {
        z = count[2];
    }
    if x < 1 {
        x = 1;
    }
    if y < 1 {
        y = 1;
    }
    if z < 1 {
        z = 1;
    }
    [x, y, z]
}

/// The gaps between copies along each axis.
pub fn get_divisors(count: [usize; 3]) -> (divisors: [usize; 3])
    ensures
        divisors[0] == axis_divisor(count[0] as int),
        divisors[1] == axis_divisor(count[1] as int),
        divisors[2] == axis_divisor(count[2] as int),
{
    let dx = if count[0] > 1 { count[0] - 1 } else { 1 };
    let dy = if count[1] > 1 { count[1] - 1 } else { 1 };
    let dz = if count[2] > 1 { count[2] - 1 } else { 1 };
    [dx, dy, dz]
}

proof fn lemma_slot_order(cy: int, cz: int, x0: int, y0: int, z0: int, x: int, y: int, z: int)
    requires
        cy >= 1,
        cz >= 1,
        0 <= x0,
        0 <= y0 < cy,
        0 <= z0 < cz,
        0 <= x,
        0 <= y < cy,
        0 <= z <= cz,
        x0 < x || (x0 == x && y0 < y) || (x0 == x && y0 == y && z0 < z),
    ensures
        0 <= cell_slot(cy, cz, x0, y0, z0) < cell_slot(cy, cz, x, y, z),
{
    assert(0 <= x0 * cy + y0) by (nonlinear_arith)
        requires
            0 <= x0,
            0 <= y0,
            cy >= 1,
    ;
    assert(0 <= (x0 * cy + y0) * cz) by (nonlinear_arith)
        requires
            0 <= x0 * cy + y0,
            cz >= 1,
    ;
    if x0 < x {
        assert(x0 * cy + y0 < x * cy) by (nonlinear_arith)
            requires
                x0 < x,
                y0 < cy,
                cy >= 1,
        ;
    }
    if x0 * cy + y0 < x * cy + y {
        assert((x0 * cy + y0) * cz + z0 < (x * cy + y) * cz) by (nonlinear_arith)
            requires
                x0 * cy + y0 < x * cy + y,
                z0 < cz,
                cz >= 1,
        ;
    }
}

proof fn lemma_cell_decompose(cx: int, cy: int, cz: int, k: int)
    requires
        cy >= 1,
        cz >= 1,
        0 <= k < cx * cy * cz,
    ensures
        0 <= (k / cz) / cy < cx,
        0 <= (k / cz) % cy < cy,
        0 <= k % cz < cz,
        cell_slot(cy, cz, (k / cz) / cy, (k / cz) % cy, k % cz) == k,
{
    let c = k / cz;
    vstd::arithmetic::div_mod::lemma_fundamental_div_mod(k, cz);
    vstd::arithmetic::div_mod::lemma_mod_pos_bound(k, cz);
    vstd::arithmetic::div_mod::lemma_div_pos_is_pos(k, cz);
    assert(cx * cy * cz == cz * (cx * cy)) by (nonlinear_arith);
    vstd::arithmetic::div_mod::lemma_multiply_divide_lt(k, cz, cx * cy);
    vstd::arithmetic::div_mod::lemma_fundamental_div_mod(c, cy);
    vstd::arithmetic::div_mod::lemma_mod_pos_bound(c, cy);
    vstd::arithmetic::div_mod::lemma_div_pos_is_pos(c, cy);
    assert(cx * cy == cy * cx) by (nonlinear_arith);
    vstd::arithmetic::div_mod::lemma_multiply_divide_lt(c, cy, cx);
    let x = c / cy;
    let y = c % cy;
    assert(cy * x == x * cy) by (nonlinear_arith);
    assert(cz * c == c * cz) by (nonlinear_arith);
}

/// Every cell of a grid of `count` cells, `x` outermost and `z` innermost.
pub fn get_cells(count: [usize; 3]) -> (cells: Vec<[usize; 3]>)
    requires
        count[0] * count[1] * count[2] <= usize::MAX,
    ensures
        cells@.len() == count[0] * count[1] * count[2],
        forall|x: int, y: int, z: int| 0 <= x < count[0] && 0 <= y < count[1] && 0 <= z < count[2]
            ==> cells@[#[trigger] cell_slot(count[1] as int, count[2] as int, x, y, z)] == [x as usize, y as usize, z as usize],
        forall|k: int| 0 <= k < cells@.len() ==> #[trigger] cells@[k]
            == [((k / count[2] as int) / count[1] as int) as usize, ((k / count[2] as int) % count[1] as int) as usize,
                (k % count[2] as int) as usize],
{
    let cx = count[0];
    let cy = count[1];
    let cz = count[2];
    let mut cells: Vec<[usize; 3]> = Vec::new();
    if cy == 0 || cz == 0 {
        assert(cx * cy * cz == 0) by (nonlinear_arith)
            requires
                cy == 0 || cz == 0,
        ;
        return cells;
    }
    let mut x: usize = 0;
    assert(0 * cy * cz == 0) by (nonlinear_arith);
    while x < cx
        invariant
            cx == count[0],
            cy == count[1],
            cz == count[2],
            cy >= 1,
            cz >= 1,
            cx * cy * cz <= usize::MAX,
            0 <= x <= cx,
            cells@.len() == x * cy * cz,
            forall|x0: int, y0: int, z0: int| 0 <= x0 < x && 0 <= y0 < cy && 0 <= z0 < cz
                ==> cells@[#[trigger] cell_slot(cy as int, cz as int, x0, y0, z0)] == [x0 as usize, y0 as usize, z0 as usize],
        decreases cx - x,
    {
        let mut y: usize = 0;
        assert(x * cy * cz == (x * cy + 0) * cz) by (nonlinear_arith);
        while y < cy
            invariant
                cx == count[0],
                cy == count[1],
                cz == count[2],
                cy >= 1,
                cz >= 1,
                cx * cy * cz <= usize::MAX,
                0 <= x < cx,
                0 <= y <= cy,
                cells@.len() == (x * cy + y) * cz,
                forall|x0: int, y0: int, z0: int| 0 <= y0 < cy && 0 <= z0 < cz && (0 <= x0 < x || (x0 == x && 0 <= y0 < y))
                    ==> cells@[#[trigger] cell_slot(cy as int, cz as int, x0, y0, z0)] == [x0 as usize, y0 as usize, z0 as usize],
            decreases cy - y,
        {
            let mut z: usize = 0;
            while z < cz
                invariant
                    cx == count[0],
                    cy == count[1],
                    cz == count[2],
                    cy >= 1,
                    cz >= 1,
                    cx * cy * cz <= usize::MAX,
                    0 <= x < cx,
                    0 <= y < cy,
                    0 <= z <= cz,
                    cells@.len() == (x * cy + y) * cz + z,
                    forall|x0: int, y0: int, z0: int| 0 <= y0 < cy && 0 <= z0 < cz
                        && (0 <= x0 < x || (x0 == x && 0 <= y0 < y) || (x0 == x && y0 == y && 0 <= z0 < z))
                        ==> cells@[#[trigger] cell_slot(cy as int, cz as int, x0, y0, z0)] == [x0 as usize, y0 as usize, z0 as usize],
                decreases cz - z,
            {
                proof {
                    assert((x * cy + y) * cz + z < cx * cy * cz) by (nonlinear_arith)
                        requires
                            x + 1 <= cx,
                            y + 1 <= cy,
                            z + 1 <= cz,
                            0 <= x,
                            0 <= y,
                            0 <= z,
                    ;
                }
                let ghost before = cells@;
                cells.push([x, y, z]);
                proof {
                    assert forall|x0: int, y0: int, z0: int| 0 <= y0 < cy && 0 <= z0 < cz
                        && (0 <= x0 < x || (x0 == x && 0 <= y0 < y) || (x0 == x && y0 == y && 0 <= z0 < z + 1))
                        implies cells@[#[trigger] cell_slot(cy as int, cz as int, x0, y0, z0)] == [x0 as usize, y0 as usize, z0 as usize] by {
                        if x0 == x && y0 == y && z0 == z {
                        } else {
                            lemma_slot_order(cy as int, cz as int, x0, y0, z0, x as int, y as int, z as int);
                        }
                    }
                }
                z = z + 1;
            }
            assert((x * cy + y) * cz + cz == (x * cy + y + 1) * cz) by (nonlinear_arith);
            y = y + 1;
        }
        assert((x * cy + cy) * cz == (x + 1) * cy * cz) by (nonlinear_arith);
        x = x + 1;
    }
    assert(cx * cy * cz == x * cy * cz);
    assert forall|k: int| 0 <= k < cells@.len() implies #[trigger] cells@[k]
        == [((k / cz as int) / cy as int) as usize, ((k / cz as int) % cy as int) as usize, (k % cz as int) as usize] by {
        lemma_cell_decompose(cx as int, cy as int, cz as int, k);
        let x = (k / cz as int) / cy as int;
        let y = (k / cz as int) % cy as int;
        let z = k % cz as int;
        assert(cells@[cell_slot(cy as int, cz as int, x, y, z)] == [x as usize, y as usize, z as usize]);
    }
    cells
}

} // verus!
