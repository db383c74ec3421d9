//! Bricks: axis-aligned boxes of voxels, in grid-index space.
//!
//! A brick claims the cells between its inclusive minimum and maximum
//! corners and carries one non-empty color index. The predicates here say
//! what a correct merge output is: bricks stay inside the grid, agree with
//! the grid's colors, never overlap, and together cover every occupied
//! cell. Re-expanding bricks back into a grid is also defined here.

use vstd::prelude::*;

use crate::grid::cell;
use crate::grid::in_grid;
use crate::grid::index;
use crate::grid::lemma_cell_update;
use crate::grid::lemma_idx3_bounds;
use vstd::pervasive::VecAdditionalExecFns;

verus! {

/// An axis-aligned box of grid cells, corners inclusive, with one color.
#[derive(Clone, Copy, Debug)]
pub struct GridBrick {
    pub x_min: usize,
    pub x_max: usize,
    pub y_min: usize,
    pub y_max: usize,
    pub z_min: usize,
    pub z_max: usize,
    pub color_idx: usize,
}

/// The brick claims cell `(x, y, z)`.
pub open spec fn brick_covers(b: GridBrick, x: int, y: int, z: int) -> bool {
    b.x_min <= x <= b.x_max && b.y_min <= y <= b.y_max && b.z_min <= z <= b.z_max
}

/// The brick's corners are ordered and lie inside an `n × n × n` grid.
pub open spec fn brick_in_grid(b: GridBrick, n: int) -> bool {
    b.x_min <= b.x_max < n && b.y_min <= b.y_max < n && b.z_min <= b.z_max < n
}

/// Every cell the brick claims holds the brick's color, which is not the
/// empty index.
pub open spec fn brick_matches_grid(g: Seq<usize>, n: int, b: GridBrick) -> bool {
    &&& b.color_idx != 0
    &&& forall|x: int, y: int, z: int|
        #[trigger] brick_covers(b, x, y, z) ==> cell(g, n, x, y, z) == b.color_idx
}

/// Some brick of the list claims cell `(x, y, z)`.
pub open spec fn covered(bricks: Seq<GridBrick>, x: int, y: int, z: int) -> bool {
    exists|i: int| 0 <= i < bricks.len() && #[trigger] brick_covers(bricks[i], x, y, z)
}

/// No cell is claimed by two bricks of the list.
pub open spec fn bricks_disjoint(bricks: Seq<GridBrick>) -> bool {
    forall|i: int, j: int, x: int, y: int, z: int|
        #![trigger brick_covers(bricks[i], x, y, z), brick_covers(bricks[j], x, y, z)]
        0 <= i < bricks.len() && 0 <= j < bricks.len() && i != j && brick_covers(
            bricks[i],
            x,
            y,
            z,
        ) ==> !brick_covers(bricks[j], x, y, z)
}

/// The brick list is a correct compression of grid `g`: bricks lie in the
/// grid, each is monochromatic with a non-empty color taken from the grid,
/// no two bricks overlap, and every cell is occupied exactly when some
/// brick claims it.
pub open spec fn merge_output_ok(g: Seq<usize>, n: int, bricks: Seq<GridBrick>) -> bool {
    &&& g.len() == n * n * n
    &&& forall|i: int| 0 <= i < bricks.len() ==> brick_in_grid(#[trigger] bricks[i], n)
    &&& forall|i: int| 0 <= i < bricks.len() ==> brick_matches_grid(g, n, #[trigger] bricks[i])
    &&& bricks_disjoint(bricks)
    &&& forall|x: int, y: int, z: int|
        in_grid(x, y, z, n) ==> ((#[trigger] cell(g, n, x, y, z) != 0) <==> covered(
            bricks,
            x,
            y,
            z,
        ))
}

/// A brick is one z-slice thick, and a run along at most one of the x and
/// y axes: under a merge bound of `l` the run stays shorter than `l + 1`
/// cells, and with no bound the brick is a single cell.
pub open spec fn brick_extents_ok(b: GridBrick, max_merge_length: Option<usize>) -> bool {
    &&& b.z_min == b.z_max
    &&& match max_merge_length {
        Option::None => b.x_min == b.x_max && b.y_min == b.y_max,
        Option::Some(l) => (b.y_min == b.y_max && b.x_max - b.x_min < l) || (b.x_min == b.x_max
            && b.y_max - b.y_min < l),
    }
}

/// Appending a brick that claims no cell any listed brick claims keeps
/// the list's bricks in-grid, monochromatic and disjoint, and extends the
/// claimed cells by exactly the new brick's cells.
pub proof fn lemma_bricks_push(bs: Seq<GridBrick>, b: GridBrick, g: Seq<usize>, n: int)
    requires
        forall|i: int| 0 <= i < bs.len() ==> brick_in_grid(#[trigger] bs[i], n),
        forall|i: int| 0 <= i < bs.len() ==> brick_matches_grid(g, n, #[trigger] bs[i]),
        bricks_disjoint(bs),
        brick_in_grid(b, n),
        brick_matches_grid(g, n, b),
        forall|x: int, y: int, z: int|
            #[trigger] brick_covers(b, x, y, z) ==> !covered(bs, x, y, z),
    ensures
        forall|i: int| 0 <= i < bs.push(b).len() ==> brick_in_grid(#[trigger] bs.push(b)[i], n),
        forall|i: int|
            0 <= i < bs.push(b).len() ==> brick_matches_grid(g, n, #[trigger] bs.push(b)[i]),
        bricks_disjoint(bs.push(b)),
        forall|x: int, y: int, z: int|
            #[trigger] covered(bs.push(b), x, y, z) <==> covered(bs, x, y, z) || brick_covers(
                b,
                x,
                y,
                z,
            ),
{
    let bsp = bs.push(b);
    assert forall|i: int| 0 <= i < bsp.len() implies brick_in_grid(#[trigger] bsp[i], n)
        && brick_matches_grid(g, n, bsp[i]) by {
        if i < bs.len() {
            assert(bsp[i] == bs[i]);
        } else {
            assert(bsp[i] == b);
        }
    }
    assert forall|i: int, j: int, x: int, y: int, z: int|
        #![trigger brick_covers(bsp[i], x, y, z), brick_covers(bsp[j], x, y, z)]
        0 <= i < bsp.len() && 0 <= j < bsp.len() && i != j && brick_covers(
        bsp[i],
        x,
        y,
        z,
    ) implies !brick_covers(bsp[j], x, y, z) by {
        if brick_covers(bsp[j], x, y, z) {
            if i < bs.len() && j < bs.len() {
                assert(bsp[i] == bs[i] && bsp[j] == bs[j]);
            } else if i < bs.len() {
                assert(bsp[i] == bs[i] && bsp[j] == b);
                assert(covered(bs, x, y, z));
            } else {
                assert(bsp[i] == b && bsp[j] == bs[j]);
                assert(covered(bs, x, y, z));
            }
        }
    }
    assert forall|x: int, y: int, z: int| #[trigger]
        covered(bsp, x, y, z) <==> covered(bs, x, y, z) || brick_covers(b, x, y, z) by {
        if covered(bsp, x, y, z) {
            let i = choose|i: int| 0 <= i < bsp.len() && #[trigger] brick_covers(bsp[i], x, y, z);
            if i < bs.len() {
                assert(bsp[i] == bs[i]);
                assert(brick_covers(bs[i], x, y, z));
            } else {
                assert(bsp[i] == b);
            }
        }
        if covered(bs, x, y, z) {
            let i = choose|i: int| 0 <= i < bs.len() && #[trigger] brick_covers(bs[i], x, y, z);
            assert(brick_covers(bsp[i], x, y, z));
        }
        if brick_covers(b, x, y, z) {
            assert(brick_covers(bsp[bs.len() as int], x, y, z));
        }
    }
}

/// Color that re-expanding the brick list writes at cell `(x, y, z)`:
/// the color of the last brick claiming the cell, or `0` if none does.
pub open spec fn color_at(bricks: Seq<GridBrick>, x: int, y: int, z: int) -> usize
    decreases bricks.len(),
{
    if bricks.len() == 0 {
        0
    } else if brick_covers(bricks.last(), x, y, z) {
        bricks.last().color_idx
    } else {
        color_at(bricks.drop_last(), x, y, z)
    }
}

/// A prefix of a disjoint brick list is disjoint.
proof fn lemma_disjoint_drop_last(bricks: Seq<GridBrick>)
    requires
        bricks.len() > 0,
        bricks_disjoint(bricks),
    ensures
        bricks_disjoint(bricks.drop_last()),
{
}

/// In a disjoint brick list, a cell claimed by brick `i` re-expands to
/// brick `i`'s color.
pub proof fn lemma_color_at_covered(bricks: Seq<GridBrick>, i: int, x: int, y: int, z: int)
    requires
        bricks_disjoint(bricks),
        0 <= i < bricks.len(),
        brick_covers(bricks[i], x, y, z),
    ensures
        color_at(bricks, x, y, z) == bricks[i].color_idx,
    decreases bricks.len(),
{
    if i == bricks.len() - 1 {
        assert(brick_covers(bricks.last(), x, y, z));
    } else {
        assert(!brick_covers(bricks.last(), x, y, z));
        lemma_disjoint_drop_last(bricks);
        assert(bricks.drop_last()[i] == bricks[i]);
        lemma_color_at_covered(bricks.drop_last(), i, x, y, z);
    }
}

/// A cell no brick claims re-expands to the empty color.
pub proof fn lemma_color_at_uncovered(bricks: Seq<GridBrick>, x: int, y: int, z: int)
    requires
        !covered(bricks, x, y, z),
    ensures
        color_at(bricks, x, y, z) == 0,
    decreases bricks.len(),
{
    if bricks.len() > 0 {
        assert(!brick_covers(bricks.last(), x, y, z));
        assert(forall|i: int|
            0 <= i < bricks.drop_last().len() ==> bricks.drop_last()[i] == bricks[i]);
        lemma_color_at_uncovered(bricks.drop_last(), x, y, z);
    }
}

/// Round trip of merging: re-expanding a correct merge output writes back
/// exactly the grid it was produced from — the same cells are occupied,
/// with the same colors, so a second merge runs on an identical grid and
/// claims the same total volume with the same color at every cell.
pub proof fn lemma_merge_round_trip(g: Seq<usize>, n: int, bricks: Seq<GridBrick>)
    requires
        merge_output_ok(g, n, bricks),
    ensures
        forall|x: int, y: int, z: int|
            in_grid(x, y, z, n) ==> color_at(bricks, x, y, z) == #[trigger] cell(g, n, x, y, z),
{
    assert forall|x: int, y: int, z: int| in_grid(x, y, z, n) implies color_at(bricks, x, y, z)
        == #[trigger] cell(g, n, x, y, z) by {
        if cell(g, n, x, y, z) != 0 {
            let i = choose|i: int|
                0 <= i < bricks.len() && #[trigger] brick_covers(bricks[i], x, y, z);
            lemma_color_at_covered(bricks, i, x, y, z);
            assert(brick_matches_grid(g, n, bricks[i]));
        } else {
            if covered(bricks, x, y, z) {
                let i = choose|i: int|
                    0 <= i < bricks.len() && #[trigger] brick_covers(bricks[i], x, y, z);
                assert(brick_matches_grid(g, n, bricks[i]));
            }
            lemma_color_at_uncovered(bricks, x, y, z);
        }
    }
}

/// Write value `v` into every cell the brick claims, leaving all other
/// cells unchanged.
pub fn fill_brick_cells(grid: &mut Vec<usize>, n: usize, b: GridBrick, v: usize)
    requires
        old(grid)@.len() == n * n * n,
        brick_in_grid(b, n as int),
    ensures
        final(grid)@.len() == old(grid)@.len(),
        forall|x: int, y: int, z: int|
            in_grid(x, y, z, n as int) ==> #[trigger] cell(final(grid)@, n as int, x, y, z) == (
            if brick_covers(b, x, y, z) {
                v
            } else {
                cell(old(grid)@, n as int, x, y, z)
            }),
{
    let ghost g0 = old(grid)@;
    let ghost nn = n as int;
    proof {
        vstd::std_specs::vec::axiom_spec_len(grid);
        assert(nn * nn * nn <= usize::MAX);
    }
    let mut z: usize = b.z_min;
    while z <= b.z_max
        invariant
            grid@.len() == g0.len() == nn * nn * nn,
            nn * nn * nn <= usize::MAX,
            brick_in_grid(b, nn),
            b.z_min <= z <= b.z_max + 1,
            n == nn,
            forall|x: int, y: int, zz: int|
                in_grid(x, y, zz, nn) ==> #[trigger] cell(grid@, nn, x, y, zz) == (if brick_covers(
                    b,
                    x,
                    y,
                    zz,
                ) && zz < z {
                    v
                } else {
                    cell(g0, nn, x, y, zz)
                }),
        decreases b.z_max + 1 - z,
    {
        let mut y: usize = b.y_min;
        while y <= b.y_max
            invariant
                grid@.len() == g0.len() == nn * nn * nn,
                nn * nn * nn <= usize::MAX,
                brick_in_grid(b, nn),
                b.z_min <= z <= b.z_max,
                b.y_min <= y <= b.y_max + 1,
                n == nn,
                forall|x: int, yy: int, zz: int|
                    in_grid(x, yy, zz, nn) ==> #[trigger] cell(grid@, nn, x, yy, zz) == (
                    if brick_covers(b, x, yy, zz) && (zz < z || (zz == z && yy < y)) {
                        v
                    } else {
                        cell(g0, nn, x, yy, zz)
                    }),
            decreases b.y_max + 1 - y,
        {
            let mut x: usize = b.x_min;
            while x <= b.x_max
                invariant
                    grid@.len() == g0.len() == nn * nn * nn,
                    nn * nn * nn <= usize::MAX,
                    brick_in_grid(b, nn),
                    b.z_min <= z <= b.z_max,
                    b.y_min <= y <= b.y_max,
                    b.x_min <= x <= b.x_max + 1,
                    n == nn,
                    forall|xx: int, yy: int, zz: int|
                        in_grid(xx, yy, zz, nn) ==> #[trigger] cell(grid@, nn, xx, yy, zz) == (
                        if brick_covers(b, xx, yy, zz) && (zz < z || (zz == z && yy < y) || (zz == z
                            && yy == y && xx < x)) {
                            v
                        } else {
                            cell(g0, nn, xx, yy, zz)
                        }),
                decreases b.x_max + 1 - x,
            {
                let ghost gprev = grid@;
                let fi = index(x, y, z, n);
                grid.set(fi, v);
                proof {
                    lemma_cell_update(gprev, nn, x as int, y as int, z as int, v);
                }
                x += 1;
            }
            y += 1;
        }
        z += 1;
    }
}

/// Re-expand a brick list into a dense grid: every cell gets the color of
/// the last brick claiming it, or `0` where no brick does.
pub fn bricks_to_grid(bricks: &Vec<GridBrick>, n: usize) -> (grid: Vec<usize>)
    requires
        n * n * n <= usize::MAX,
        forall|i: int| 0 <= i < bricks@.len() ==> brick_in_grid(#[trigger] bricks@[i], n as int),
    ensures
        grid@.len() == n * n * n,
        forall|x: int, y: int, z: int|
            in_grid(x, y, z, n as int) ==> #[trigger] cell(grid@, n as int, x, y, z) == color_at(
                bricks@,
                x,
                y,
                z,
            ),
{
    let ghost nn = n as int;
    let mut grid: Vec<usize> = Vec::new();
    proof {
        assert(n == 0 || n * n <= n * n * n) by (nonlinear_arith);
    }
    let target = (n * n) * n;
    while grid.len() < target
        invariant
            grid@.len() <= target,
            target == nn * nn * nn,
            forall|k: int| 0 <= k < grid@.len() ==> grid@[k] == 0,
        decreases target - grid@.len(),
    {
        grid.push(0);
    }
    proof {
        assert forall|x: int, y: int, z: int| in_grid(x, y, z, nn) implies #[trigger] cell(
            grid@,
            nn,
            x,
            y,
            z,
        ) == color_at(bricks@.take(0), x, y, z) by {
            lemma_idx3_bounds(x, y, z, nn);
        }
    }
    let mut i: usize = 0;
    while i < bricks.len()
        invariant
            grid@.len() == nn * nn * nn,
            n == nn,
            i <= bricks@.len(),
            forall|j: int| 0 <= j < bricks@.len() ==> brick_in_grid(#[trigger] bricks@[j], nn),
            forall|x: int, y: int, z: int|
                in_grid(x, y, z, nn) ==> #[trigger] cell(grid@, nn, x, y, z) == color_at(
                    bricks@.take(i as int),
                    x,
                    y,
                    z,
                ),
        decreases bricks@.len() - i,
    {
        let ghost gprev = grid@;
        let b = bricks[i];
        fill_brick_cells(&mut grid, n, b, b.color_idx);
        proof {
            let pre = bricks@.take(i as int);
            let post = bricks@.take(i + 1int);
            assert(post.drop_last() =~= pre);
            assert(post.last() == bricks@[i as int]);
            assert forall|x: int, y: int, z: int| in_grid(x, y, z, nn) implies #[trigger] cell(
                grid@,
                nn,
                x,
                y,
                z,
            ) == color_at(post, x, y, z) by {
                if brick_covers(b, x, y, z) {
                    assert(cell(grid@, nn, x, y, z) == b.color_idx);
                } else {
                    assert(cell(grid@, nn, x, y, z) == cell(gprev, nn, x, y, z));
                }
            }
        }
        i += 1;
    }
    proof {
        assert(bricks@.take(bricks@.len() as int) =~= bricks@);
    }
    grid
}

} // verus!
