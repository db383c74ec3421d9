//! Index-space half of triangle rasterization.
//!
//! Turning a polygonal face into triangles, and writing the grid cells a
//! triangle overlaps, are grid-index logic and verified here. Deciding
//! which cells a triangle overlaps needs the mesh's floating-point
//! coordinates and happens outside the library; the chosen cells come
//! back as plain coordinate triples.

use vstd::prelude::*;

use crate::grid::cell;
use crate::grid::in_grid;
use crate::grid::index;
use crate::grid::lemma_cell_update;
use vstd::pervasive::VecAdditionalExecFns;

verus! {

/// The coordinate triple `(x, y, z)` occurs in the cell list.
pub open spec fn cell_listed(cells: Seq<(usize, usize, usize)>, x: int, y: int, z: int) -> bool {
    exists|i: int|
        0 <= i < cells.len() && (#[trigger] cells[i]).0 == x && cells[i].1 == y && cells[i].2 == z
}

/// Fan-triangulate a polygonal face: a face `[v0, v1, ..., vk]` becomes
/// the triangles `(v0, vi, vi+1)` for `i = 1 .. k-1`, in that order.
pub fn fan_triangles(face: &Vec<usize>) -> (tris: Vec<(usize, usize, usize)>)
    requires
        face@.len() >= 3,
    ensures
        tris@.len() == face@.len() - 2,
        forall|i: int|
            0 <= i < tris@.len() ==> #[trigger] tris@[i] == (face@[0], face@[i + 1], face@[i + 2]),
{
    let mut tris: Vec<(usize, usize, usize)> = Vec::new();
    let v0 = face[0];
    let mut k: usize = 1;
    while k < face.len() - 1
        invariant
            face@.len() >= 3,
            1 <= k,
            k + 1 <= face@.len(),
            tris@.len() == k - 1,
            v0 == face@[0],
            forall|i: int|
                0 <= i < tris@.len() ==> #[trigger] tris@[i] == (
                    face@[0],
                    face@[i + 1],
                    face@[i + 2],
                ),
        decreases face@.len() - k,
    {
        tris.push((v0, face[k], face[k + 1]));
        k += 1;
    }
    tris
}

/// Write `color_idx` into every listed cell of the grid, leaving all
/// other cells unchanged.
pub fn paint_cells(
    grid: &mut Vec<usize>,
    n: usize,
    cells: &Vec<(usize, usize, usize)>,
    color_idx: usize,
)
    requires
        old(grid)@.len() == n * n * n,
        forall|i: int|
            0 <= i < cells@.len() ==> in_grid(
                (#[trigger] cells@[i]).0 as int,
                cells@[i].1 as int,
                cells@[i].2 as int,
                n as int,
            ),
    ensures
        final(grid)@.len() == old(grid)@.len(),
        forall|x: int, y: int, z: int|
            in_grid(x, y, z, n as int) ==> #[trigger] cell(final(grid)@, n as int, x, y, z) == (
            if cell_listed(cells@, x, y, z) {
                color_idx
            } else {
                cell(old(grid)@, n as int, x, y, z)
            }),
{
    let ghost nn = n as int;
    let ghost g0 = old(grid)@;
    proof {
        vstd::std_specs::vec::axiom_spec_len(grid);
        assert(nn * nn * nn <= usize::MAX);
    }
    let mut i: usize = 0;
    while i < cells.len()
        invariant
            grid@.len() == g0.len() == nn * nn * nn,
            nn * nn * nn <= usize::MAX,
            n == nn,
            i <= cells@.len(),
            forall|j: int|
                0 <= j < cells@.len() ==> in_grid(
                    (#[trigger] cells@[j]).0 as int,
                    cells@[j].1 as int,
                    cells@[j].2 as int,
                    nn,
                ),
            forall|x: int, y: int, z: int|
                in_grid(x, y, z, nn) ==> #[trigger] cell(grid@, nn, x, y, z) == (if cell_listed(
                    cells@.take(i as int),
                    x,
                    y,
                    z,
                ) {
                    color_idx
                } else {
                    cell(g0, nn, x, y, z)
                }),
        decreases cells@.len() - i,
    {
        let ghost gprev = grid@;
        let c = cells[i];
        let fi = index(c.0, c.1, c.2, n);
        grid.set(fi, color_idx);
        proof {
            lemma_cell_update(gprev, nn, c.0 as int, c.1 as int, c.2 as int, color_idx);
            let pre = cells@.take(i as int);
            let post = cells@.take(i + 1int);
            assert(post.drop_last() =~= pre);
            assert(post.last() == cells@[i as int]);
            assert forall|x: int, y: int, z: int| in_grid(x, y, z, nn) implies #[trigger] cell(
                grid@,
                nn,
                x,
                y,
                z,
            ) == (if cell_listed(post, x, y, z) {
                color_idx
            } else {
                cell(g0, nn, x, y, z)
            }) by {
                if x == c.0 as int && y == c.1 as int && z == c.2 as int {
                    assert((post[i as int]).0 == x && post[i as int].1 == y && post[i as int].2
                        == z);
                    assert(cell_listed(post, x, y, z));
                } else {
                    assert(cell(grid@, nn, x, y, z) == cell(gprev, nn, x, y, z));
                    if cell_listed(post, x, y, z) {
                        let j = choose|j: int|
                            0 <= j < post.len() && (#[trigger] post[j]).0 == x && post[j].1 == y
                                && post[j].2 == z;
                        assert(j < i as int + 1);
                        assert(j != i as int);
                        assert(pre[j] == post[j]);
                        assert(cell_listed(pre, x, y, z));
                    }
                    if cell_listed(pre, x, y, z) {
                        let j = choose|j: int|
                            0 <= j < pre.len() && (#[trigger] pre[j]).0 == x && pre[j].1 == y
                                && pre[j].2 == z;
                        assert(post[j] == pre[j]);
                        assert(cell_listed(post, x, y, z));
                    }
                }
            }
        }
        i += 1;
    }
    proof {
        assert(cells@.take(cells@.len() as int) =~= cells@);
    }
}

} // verus!
