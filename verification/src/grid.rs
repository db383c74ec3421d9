//! Dense cubic voxel grid: flat indexing and per-cell reasoning.
//!
//! A grid of resolution `n` is a `Vec<usize>` of length `n * n * n`; the
//! cell at coordinates `(x, y, z)` lives at flat position `x + y*n + z*n*n`
//! and holds a color index, `0` meaning the cell is empty.

use vstd::prelude::*;

verus! {

/// Flat position of cell `(x, y, z)` in a dense `n × n × n` grid,
/// with `x` varying fastest.
pub open spec fn idx3(x: int, y: int, z: int, n: int) -> int {
    x + y * n + z * n * n
}

/// The coordinates name a cell of an `n × n × n` grid.
pub open spec fn in_grid(x: int, y: int, z: int, n: int) -> bool {
    0 <= x < n && 0 <= y < n && 0 <= z < n
}

/// The color index stored for cell `(x, y, z)`.
pub open spec fn cell(g: Seq<usize>, n: int, x: int, y: int, z: int) -> usize {
    g[idx3(x, y, z, n)]
}

/// Number of non-empty cells among the first `k` flat positions.
pub open spec fn count_occupied_prefix(g: Seq<usize>, k: int) -> int
    decreases k,
{
    if k <= 0 {
        0
    } else {
        count_occupied_prefix(g, k - 1) + if g[k - 1] != 0 {
            1int
        } else {
            0int
        }
    }
}

/// Number of non-empty cells of the whole grid.
pub open spec fn count_occupied(g: Seq<usize>) -> int {
    count_occupied_prefix(g, g.len() as int)
}

/// The flat position of an in-grid cell lies within the grid's storage.
pub proof fn lemma_idx3_bounds(x: int, y: int, z: int, n: int)
    requires
        in_grid(x, y, z, n),
    ensures
        0 <= idx3(x, y, z, n) < n * n * n,
{
    assert(0 <= x + y * n + z * n * n < n * n * n) by (nonlinear_arith)
        requires
            0 <= x < n,
            0 <= y < n,
            0 <= z < n,
    ;
}

/// Distinct in-grid cells have distinct flat positions.
pub proof fn lemma_idx3_injective(x1: int, y1: int, z1: int, x2: int, y2: int, z2: int, n: int)
    requires
        in_grid(x1, y1, z1, n),
        in_grid(x2, y2, z2, n),
        idx3(x1, y1, z1, n) == idx3(x2, y2, z2, n),
    ensures
        x1 == x2 && y1 == y2 && z1 == z2,
{
    assert(x1 == x2 && y1 == y2 && z1 == z2) by (nonlinear_arith)
        requires
            0 <= x1 < n,
            0 <= y1 < n,
            0 <= z1 < n,
            0 <= x2 < n,
            0 <= y2 < n,
            0 <= z2 < n,
            x1 + y1 * n + z1 * n * n == x2 + y2 * n + z2 * n * n,
    ;
}

/// Updating one cell's flat position changes that cell and no other.
pub proof fn lemma_cell_update(m: Seq<usize>, n: int, x0: int, y0: int, z0: int, v: usize)
    requires
        m.len() == n * n * n,
        in_grid(x0, y0, z0, n),
    ensures
        cell(m.update(idx3(x0, y0, z0, n), v), n, x0, y0, z0) == v,
        forall|x: int, y: int, z: int|
            in_grid(x, y, z, n) && !(x == x0 && y == y0 && z == z0) ==> #[trigger] cell(
                m.update(idx3(x0, y0, z0, n), v),
                n,
                x,
                y,
                z,
            ) == cell(m, n, x, y, z),
{
    lemma_idx3_bounds(x0, y0, z0, n);
    assert forall|x: int, y: int, z: int|
        in_grid(x, y, z, n) && !(x == x0 && y == y0 && z == z0) implies #[trigger] cell(
        m.update(idx3(x0, y0, z0, n), v),
        n,
        x,
        y,
        z,
    ) == cell(m, n, x, y, z) by {
        lemma_idx3_bounds(x, y, z, n);
        if idx3(x, y, z, n) == idx3(x0, y0, z0, n) {
            lemma_idx3_injective(x, y, z, x0, y0, z0, n);
        }
    }
}

/// Flat position of cell `(x, y, z)` in a dense `n × n × n` grid stored
/// with `x` varying fastest, `z` slowest.
pub fn index(x: usize, y: usize, z: usize, n: usize) -> (r: usize)
    requires
        x < n,
        y < n,
        z < n,
        n * n * n <= usize::MAX,
    ensures
        r == idx3(x as int, y as int, z as int, n as int),
        r < n * n * n,
{
    proof {
        lemma_idx3_bounds(x as int, y as int, z as int, n as int);
        assert((n * n <= n * n * n) && (x + y * n < n * n) && (z * (n * n) == z * n * n) && (
        x + y * n + z * n * n < n * n * n)) by (nonlinear_arith)
            requires
                x < n,
                y < n,
                z < n,
        ;
    }
    x + y * n + z * (n * n)
}

} // verus!
