//! Greedy merging of a voxel grid into bricks.
//!
//! Each z-slice is compressed on its own: first runs of adjacent
//! same-colored voxels along x, then along y over the cells the x-runs
//! left, then single-cell bricks for everything still unclaimed. A mask
//! grid records which cells a brick has claimed. With no merge bound the
//! passes are skipped and every occupied cell becomes its own brick.

use vstd::prelude::*;

use crate::brick::GridBrick;
use crate::brick::brick_covers;
use crate::brick::brick_extents_ok;
use crate::brick::brick_in_grid;
use crate::brick::brick_matches_grid;
use crate::brick::bricks_disjoint;
use crate::brick::covered;
use crate::brick::lemma_bricks_push;
use crate::brick::fill_brick_cells;
use crate::brick::merge_output_ok;
use crate::grid::cell;
use crate::grid::count_occupied;
use crate::grid::count_occupied_prefix;
use crate::grid::idx3;
use crate::grid::in_grid;
use crate::grid::index;
use crate::grid::lemma_idx3_bounds;
use crate::grid::lemma_idx3_injective;

verus! {

/// Working state of the merge: the bricks emitted so far lie in the grid,
/// are monochromatic and pairwise disjoint, and the mask marks exactly
/// the cells they claim.
pub open spec fn merge_inv(g: Seq<usize>, n: int, merged: Seq<usize>, bricks: Seq<GridBrick>) -> bool {
    &&& g.len() == n * n * n
    &&& merged.len() == g.len()
    &&& forall|i: int| 0 <= i < bricks.len() ==> brick_in_grid(#[trigger] bricks[i], n)
    &&& forall|i: int| 0 <= i < bricks.len() ==> brick_matches_grid(g, n, #[trigger] bricks[i])
    &&& bricks_disjoint(bricks)
    &&& forall|x: int, y: int, z: int|
        in_grid(x, y, z, n) ==> ((#[trigger] cell(merged, n, x, y, z) != 0) <==> covered(
            bricks,
            x,
            y,
            z,
        ))
}

/// No cell of z-slice `z` has been claimed yet.
pub open spec fn slice_unclaimed(n: int, merged: Seq<usize>, z: int) -> bool {
    forall|a: int, c: int| 0 <= a < n && 0 <= c < n ==> #[trigger] cell(merged, n, a, c, z) == 0
}

/// Every occupied cell of z-slice `z` has been claimed.
pub open spec fn slice_claimed(g: Seq<usize>, n: int, merged: Seq<usize>, z: int) -> bool {
    forall|a: int, c: int|
        0 <= a < n && 0 <= c < n && cell(g, n, a, c, z) != 0 ==> #[trigger] cell(
            merged,
            n,
            a,
            c,
            z,
        ) != 0
}

/// The run brick is right-maximal: it ends only at the grid edge, at the
/// length bound `l`, or where the grid's color changes.
pub open spec fn run_maximal_x(g: Seq<usize>, n: int, l: usize, b: GridBrick) -> bool {
    ||| b.x_max + 1 == n
    ||| b.x_max - b.x_min + 1 == l
    ||| cell(g, n, b.x_max + 1, b.y_min as int, b.z_min as int) != b.color_idx
}

/// A grid of `len` cells, all empty.
fn zero_grid(len: usize) -> (v: Vec<usize>)
    ensures
        v@.len() == len,
        forall|k: int| 0 <= k < len ==> v@[k] == 0,
{
    let mut v: Vec<usize> = Vec::new();
    while v.len() < len
        invariant
            v@.len() <= len,
            forall|k: int| 0 <= k < v@.len() ==> v@[k] == 0,
        decreases len - v@.len(),
    {
        v.push(0);
    }
    v
}

/// Claim a brick: mark every cell it covers in the mask and append it to
/// the output. The brick must be monochromatic in the grid and claim only
/// still-unmarked cells; the working-state invariant is preserved.
fn emit_brick(
    voxels: &Vec<usize>,
    n: usize,
    merged: &mut Vec<usize>,
    bricks: &mut Vec<GridBrick>,
    b: GridBrick,
)
    requires
        merge_inv(voxels@, n as int, old(merged)@, old(bricks)@),
        brick_in_grid(b, n as int),
        brick_matches_grid(voxels@, n as int, b),
        forall|x: int, y: int, z: int|
            #[trigger] brick_covers(b, x, y, z) ==> cell(old(merged)@, n as int, x, y, z) == 0,
    ensures
        merge_inv(voxels@, n as int, final(merged)@, final(bricks)@),
        final(bricks)@ == old(bricks)@.push(b),
        final(merged)@.len() == old(merged)@.len(),
        forall|x: int, y: int, z: int|
            in_grid(x, y, z, n as int) ==> #[trigger] cell(final(merged)@, n as int, x, y, z) == (
            if brick_covers(b, x, y, z) {
                1usize
            } else {
                cell(old(merged)@, n as int, x, y, z)
            }),
{
    let ghost nn = n as int;
    let ghost g = voxels@;
    let ghost bs0 = old(bricks)@;
    fill_brick_cells(merged, n, b, 1);
    bricks.push(b);
    proof {
        assert forall|x: int, y: int, z: int|
            #[trigger] brick_covers(b, x, y, z) implies !covered(bs0, x, y, z) by {
            assert(in_grid(x, y, z, nn));
            assert(cell(old(merged)@, nn, x, y, z) == 0);
        }
        lemma_bricks_push(bs0, b, g, nn);
        assert forall|x: int, y: int, z: int| in_grid(x, y, z, nn) implies ((#[trigger] cell(
            merged@,
            nn,
            x,
            y,
            z,
        ) != 0) <==> covered(bricks@, x, y, z)) by {
            assert(covered(bricks@, x, y, z) <==> covered(bs0, x, y, z) || brick_covers(
                b,
                x,
                y,
                z,
            ));
        }
    }
}

/// Merge with no bound: every occupied cell becomes its own brick, in
/// z-slice order, rows then columns. The brick count equals the occupied
/// cell count.
fn collect_singletons(voxels: &Vec<usize>, n: usize) -> (bricks: Vec<GridBrick>)
    requires
        voxels@.len() == n * n * n,
    ensures
        merge_output_ok(voxels@, n as int, bricks@),
        forall|i: int|
            0 <= i < bricks@.len() ==> brick_extents_ok(
                #[trigger] bricks@[i],
                Option::<usize>::None,
            ),
        bricks@.len() == count_occupied(voxels@),
{
    let ghost nn = n as int;
    let ghost g = voxels@;
    proof {
        vstd::std_specs::vec::axiom_spec_len(voxels);
        assert(nn * nn * nn <= usize::MAX);
    }
    let mut bricks: Vec<GridBrick> = Vec::new();
    let mut z: usize = 0;
    while z < n
        invariant
            voxels@ == g,
            g.len() == nn * nn * nn,
            nn * nn * nn <= usize::MAX,
            n == nn,
            z <= n,
            forall|i: int| 0 <= i < bricks@.len() ==> brick_in_grid(#[trigger] bricks@[i], nn),
            forall|i: int|
                0 <= i < bricks@.len() ==> brick_matches_grid(g, nn, #[trigger] bricks@[i]),
            bricks_disjoint(bricks@),
            forall|i: int|
                0 <= i < bricks@.len() ==> brick_extents_ok(
                    #[trigger] bricks@[i],
                    Option::<usize>::None,
                ),
            forall|a: int, c: int, d: int|
                in_grid(a, c, d, nn) ==> (#[trigger] covered(bricks@, a, c, d) <==> (idx3(
                    a,
                    c,
                    d,
                    nn,
                ) < idx3(0, 0, z as int, nn) && cell(g, nn, a, c, d) != 0)),
            bricks@.len() == count_occupied_prefix(g, idx3(0, 0, z as int, nn)),
        decreases n - z,
    {
        let mut y: usize = 0;
        while y < n
            invariant
                voxels@ == g,
                g.len() == nn * nn * nn,
                nn * nn * nn <= usize::MAX,
                n == nn,
                z < n,
                y <= n,
                forall|i: int| 0 <= i < bricks@.len() ==> brick_in_grid(#[trigger] bricks@[i], nn),
                forall|i: int|
                    0 <= i < bricks@.len() ==> brick_matches_grid(g, nn, #[trigger] bricks@[i]),
                bricks_disjoint(bricks@),
                forall|i: int|
                    0 <= i < bricks@.len() ==> brick_extents_ok(
                        #[trigger] bricks@[i],
                        Option::<usize>::None,
                    ),
                forall|a: int, c: int, d: int|
                    in_grid(a, c, d, nn) ==> (#[trigger] covered(bricks@, a, c, d) <==> (idx3(
                        a,
                        c,
                        d,
                        nn,
                    ) < idx3(0, y as int, z as int, nn) && cell(g, nn, a, c, d) != 0)),
                bricks@.len() == count_occupied_prefix(g, idx3(0, y as int, z as int, nn)),
            decreases n - y,
        {
            let mut x: usize = 0;
            while x < n
                invariant
                    voxels@ == g,
                    g.len() == nn * nn * nn,
                    nn * nn * nn <= usize::MAX,
                    n == nn,
                    z < n,
                    y < n,
                    x <= n,
                    forall|i: int|
                        0 <= i < bricks@.len() ==> brick_in_grid(#[trigger] bricks@[i], nn),
                    forall|i: int|
                        0 <= i < bricks@.len() ==> brick_matches_grid(g, nn, #[trigger] bricks@[i]),
                    bricks_disjoint(bricks@),
                    forall|i: int|
                        0 <= i < bricks@.len() ==> brick_extents_ok(
                            #[trigger] bricks@[i],
                            Option::<usize>::None,
                        ),
                    forall|a: int, c: int, d: int|
                        in_grid(a, c, d, nn) ==> (#[trigger] covered(bricks@, a, c, d) <==> (idx3(
                            a,
                            c,
                            d,
                            nn,
                        ) < idx3(x as int, y as int, z as int, nn) && cell(g, nn, a, c, d) != 0)),
                    bricks@.len() == count_occupied_prefix(
                        g,
                        idx3(x as int, y as int, z as int, nn),
                    ),
                decreases n - x,
            {
                let ghost bs0 = bricks@;
                let ghost k = idx3(x as int, y as int, z as int, nn);
                proof {
                    lemma_idx3_bounds(x as int, y as int, z as int, nn);
                }
                let vi = index(x, y, z, n);
                let c = voxels[vi];
                if c != 0 {
                    let b = GridBrick {
                        x_min: x,
                        x_max: x,
                        y_min: y,
                        y_max: y,
                        z_min: z,
                        z_max: z,
                        color_idx: c,
                    };
                    bricks.push(b);
                    proof {
                        assert forall|a: int, cc: int, d: int|
                            #[trigger] brick_covers(b, a, cc, d) implies !covered(bs0, a, cc, d) by {
                            assert(a == x as int && cc == y as int && d == z as int);
                        }
                        assert(brick_matches_grid(g, nn, b)) by {
                            assert forall|a: int, cc: int, d: int|
                                #[trigger] brick_covers(b, a, cc, d) implies cell(g, nn, a, cc, d)
                                == b.color_idx by {
                                assert(a == x as int && cc == y as int && d == z as int);
                            }
                        }
                        lemma_bricks_push(bs0, b, g, nn);
                        assert forall|a: int, cc: int, d: int|
                            in_grid(a, cc, d, nn) implies (#[trigger] covered(bricks@, a, cc, d)
                            <==> (idx3(a, cc, d, nn) < k + 1 && cell(g, nn, a, cc, d) != 0)) by {
                            assert(covered(bricks@, a, cc, d) <==> covered(bs0, a, cc, d)
                                || brick_covers(b, a, cc, d));
                            if idx3(a, cc, d, nn) == k {
                                lemma_idx3_injective(a, cc, d, x as int, y as int, z as int, nn);
                            }
                            if brick_covers(b, a, cc, d) {
                                assert(a == x as int && cc == y as int && d == z as int);
                            }
                        }
                    }
                } else {
                    proof {
                        assert forall|a: int, cc: int, d: int|
                            in_grid(a, cc, d, nn) implies (#[trigger] covered(bricks@, a, cc, d)
                            <==> (idx3(a, cc, d, nn) < k + 1 && cell(g, nn, a, cc, d) != 0)) by {
                            if idx3(a, cc, d, nn) == k {
                                lemma_idx3_injective(a, cc, d, x as int, y as int, z as int, nn);
                            }
                        }
                    }
                }
                proof {
                    assert(count_occupied_prefix(g, k + 1) == count_occupied_prefix(g, k) + (
                    if g[k] != 0 {
                        1int
                    } else {
                        0int
                    }));
                    assert(idx3(x as int + 1, y as int, z as int, nn) == k + 1);
                }
                x += 1;
            }
            proof {
                assert((y as int + 1) * nn == y as int * nn + nn) by (nonlinear_arith);
            }
            y += 1;
        }
        proof {
            assert((z as int + 1) * nn * nn == nn * nn + z as int * nn * nn) by (nonlinear_arith);
            assert(n as int * nn == nn * nn);
        }
        z += 1;
    }
    proof {
        assert(idx3(0, 0, nn, nn) == nn * nn * nn) by (nonlinear_arith);
        assert forall|a: int, c: int, d: int|
            in_grid(a, c, d, nn) && #[trigger] cell(g, nn, a, c, d) != 0 implies covered(
            bricks@,
            a,
            c,
            d,
        ) by {
            lemma_idx3_bounds(a, c, d, nn);
        }
        assert forall|a: int, c: int, d: int|
            in_grid(a, c, d, nn) && #[trigger] covered(bricks@, a, c, d) implies cell(
            g,
            nn,
            a,
            c,
            d,
        ) != 0 by {}
    }
    bricks
}

/// Merge runs of same-colored voxels along x in z-slice `z`, left to
/// right per row: a run starts at an unclaimed occupied cell, keeps the
/// starting cell's color, and extends until the grid edge, `l` cells, or
/// a color change. Each run becomes one brick (runs of length 1 too), so
/// afterwards every occupied cell of the slice is claimed.
fn pass_x(
    voxels: &Vec<usize>,
    n: usize,
    l: usize,
    z: usize,
    merged: &mut Vec<usize>,
    bricks: &mut Vec<GridBrick>,
)
    requires
        1 <= l,
        z < n,
        merge_inv(voxels@, n as int, old(merged)@, old(bricks)@),
        slice_unclaimed(n as int, old(merged)@, z as int),
    ensures
        merge_inv(voxels@, n as int, final(merged)@, final(bricks)@),
        final(merged)@.len() == old(merged)@.len(),
        old(bricks)@.len() <= final(bricks)@.len(),
        forall|i: int| 0 <= i < old(bricks)@.len() ==> final(bricks)@[i] == old(bricks)@[i],
        forall|i: int|
            old(bricks)@.len() <= i < final(bricks)@.len() ==> brick_extents_ok(
                #[trigger] final(bricks)@[i],
                Option::Some(l),
            ),
        forall|i: int|
            old(bricks)@.len() <= i < final(bricks)@.len() ==> (#[trigger] final(bricks)@[i]).y_min
                == final(bricks)@[i].y_max && run_maximal_x(
                voxels@,
                n as int,
                l,
                final(bricks)@[i],
            ),
        forall|a: int, c: int, d: int|
            in_grid(a, c, d, n as int) && d != z as int ==> #[trigger] cell(
                final(merged)@,
                n as int,
                a,
                c,
                d,
            ) == cell(old(merged)@, n as int, a, c, d),
        slice_claimed(voxels@, n as int, final(merged)@, z as int),
{
    let ghost nn = n as int;
    let ghost g = voxels@;
    let ghost m0 = old(merged)@;
    let ghost bs0 = old(bricks)@;
    proof {
        vstd::std_specs::vec::axiom_spec_len(voxels);
        assert(nn * nn * nn <= usize::MAX);
    }
    let mut y: usize = 0;
    while y < n
        invariant
            voxels@ == g,
            n == nn,
            nn * nn * nn <= usize::MAX,
            1 <= l,
            z < n,
            y <= n,
            merge_inv(g, nn, merged@, bricks@),
            merged@.len() == m0.len(),
            bs0.len() <= bricks@.len(),
            forall|i: int| 0 <= i < bs0.len() ==> bricks@[i] == bs0[i],
            forall|i: int|
                bs0.len() <= i < bricks@.len() ==> brick_extents_ok(
                    #[trigger] bricks@[i],
                    Option::Some(l),
                ),
            forall|i: int|
                bs0.len() <= i < bricks@.len() ==> (#[trigger] bricks@[i]).y_min
                    == bricks@[i].y_max && run_maximal_x(g, nn, l, bricks@[i]),
            forall|a: int, c: int, d: int|
                in_grid(a, c, d, nn) && d != z as int ==> #[trigger] cell(merged@, nn, a, c, d)
                    == cell(m0, nn, a, c, d),
            forall|a: int, c: int|
                0 <= a < nn && y <= c < nn ==> #[trigger] cell(merged@, nn, a, c, z as int) == 0,
            forall|a: int, c: int|
                0 <= a < nn && 0 <= c < y as int && cell(g, nn, a, c, z as int) != 0
                    ==> #[trigger] cell(merged@, nn, a, c, z as int) != 0,
        decreases n - y,
    {
        let mut x: usize = 0;
        while x < n
            invariant
                voxels@ == g,
                n == nn,
                nn * nn * nn <= usize::MAX,
                1 <= l,
                z < n,
                y < n,
                x <= n,
                merge_inv(g, nn, merged@, bricks@),
                merged@.len() == m0.len(),
                bs0.len() <= bricks@.len(),
                forall|i: int| 0 <= i < bs0.len() ==> bricks@[i] == bs0[i],
                forall|i: int|
                    bs0.len() <= i < bricks@.len() ==> brick_extents_ok(
                        #[trigger] bricks@[i],
                        Option::Some(l),
                    ),
                forall|i: int|
                    bs0.len() <= i < bricks@.len() ==> (#[trigger] bricks@[i]).y_min
                        == bricks@[i].y_max && run_maximal_x(g, nn, l, bricks@[i]),
                forall|a: int, c: int, d: int|
                    in_grid(a, c, d, nn) && d != z as int ==> #[trigger] cell(merged@, nn, a, c, d)
                        == cell(m0, nn, a, c, d),
                forall|a: int, c: int|
                    0 <= a < nn && (y as int) < c < nn ==> #[trigger] cell(merged@, nn, a, c, z as int)
                        == 0,
                forall|a: int| x <= a < nn ==> #[trigger] cell(merged@, nn, a, y as int, z as int) == 0,
                forall|a: int, c: int|
                    0 <= a < nn && 0 <= c < y as int && cell(g, nn, a, c, z as int) != 0
                        ==> #[trigger] cell(merged@, nn, a, c, z as int) != 0,
                forall|a: int|
                    0 <= a < x as int && cell(g, nn, a, y as int, z as int) != 0 ==> #[trigger] cell(
                        merged@,
                        nn,
                        a,
                        y as int,
                        z as int,
                    ) != 0,
            decreases n - x,
        {
            let vi = index(x, y, z, n);
            let c = voxels[vi];
            if c != 0 {
                let ghost m1 = merged@;
                let ghost bs1 = bricks@;
                let start_x = x;
                let mut run: usize = 0;
                while x < n && run < l && voxels[index(x, y, z, n)] == c
                    invariant
                        voxels@ == g,
                        n == nn,
                        nn * nn * nn <= usize::MAX,
                        z < n,
                        y < n,
                        merged@ == m1,
                        bricks@ == bs1,
                        merged@.len() == g.len() == nn * nn * nn,
                        start_x as int + run == x as int,
                        start_x < n,
                        x <= n,
                        run <= l,
                        1 <= l,
                        c != 0,
                        c == cell(g, nn, start_x as int, y as int, z as int),
                        forall|xx: int|
                            start_x <= xx < x ==> #[trigger] cell(g, nn, xx, y as int, z as int)
                                == c,
                        forall|xx: int|
                            start_x <= xx < nn ==> #[trigger] cell(m1, nn, xx, y as int, z as int)
                                == 0,
                    decreases n - x,
                {
                    x += 1;
                    run += 1;
                }
                proof {
                    if run == 0 {
                        assert(false);
                    }
                }
                let b = GridBrick {
                    x_min: start_x,
                    x_max: x - 1,
                    y_min: y,
                    y_max: y,
                    z_min: z,
                    z_max: z,
                    color_idx: c,
                };
                proof {
                    assert(brick_in_grid(b, nn));
                    assert forall|aa: int, cc: int, dd: int|
                        #[trigger] brick_covers(b, aa, cc, dd) implies cell(g, nn, aa, cc, dd) == c
                        && cell(m1, nn, aa, cc, dd) == 0 by {
                        assert(cc == y as int && dd == z as int && start_x <= aa < x);
                    }
                    assert(brick_matches_grid(g, nn, b));
                    assert(run_maximal_x(g, nn, l, b)) by {
                        if x < n && run < l {
                            assert(cell(g, nn, x as int, y as int, z as int) != c);
                        }
                    }
                }
                emit_brick(voxels, n, merged, bricks, b);
                proof {
                    assert(bricks@ == bs1.push(b));
                    assert forall|i: int| 0 <= i < bs0.len() implies bricks@[i] == bs0[i] by {
                        assert(bricks@[i] == bs1[i]);
                    }
                    assert(brick_extents_ok(b, Option::Some(l)));
                    assert forall|i: int|
                        bs0.len() <= i < bricks@.len() implies brick_extents_ok(
                        #[trigger] bricks@[i],
                        Option::Some(l),
                    ) && bricks@[i].y_min == bricks@[i].y_max && run_maximal_x(
                        g,
                        nn,
                        l,
                        bricks@[i],
                    ) by {
                        if i < bs1.len() {
                            assert(bricks@[i] == bs1[i]);
                        } else {
                            assert(bricks@[i] == b);
                        }
                    }
                }
            } else {
                x += 1;
            }
        }
        y += 1;
    }
}

/// Merge runs of same-colored voxels along y in z-slice `z`, over the
/// cells the x-runs left unclaimed, column by column, with the same run
/// rules as the x pass.
fn pass_y(
    voxels: &Vec<usize>,
    n: usize,
    l: usize,
    z: usize,
    merged: &mut Vec<usize>,
    bricks: &mut Vec<GridBrick>,
)
    requires
        1 <= l,
        z < n,
        merge_inv(voxels@, n as int, old(merged)@, old(bricks)@),
    ensures
        merge_inv(voxels@, n as int, final(merged)@, final(bricks)@),
        final(merged)@.len() == old(merged)@.len(),
        old(bricks)@.len() <= final(bricks)@.len(),
        forall|i: int| 0 <= i < old(bricks)@.len() ==> final(bricks)@[i] == old(bricks)@[i],
        forall|i: int|
            old(bricks)@.len() <= i < final(bricks)@.len() ==> brick_extents_ok(
                #[trigger] final(bricks)@[i],
                Option::Some(l),
            ),
        forall|a: int, c: int, d: int|
            in_grid(a, c, d, n as int) && cell(old(merged)@, n as int, a, c, d) != 0
                ==> #[trigger] cell(final(merged)@, n as int, a, c, d) != 0,
        slice_claimed(voxels@, n as int, old(merged)@, z as int) ==> final(merged)@ == old(
            merged,
        )@ && final(bricks)@ == old(bricks)@,
{
    let ghost nn = n as int;
    let ghost g = voxels@;
    let ghost m0 = old(merged)@;
    let ghost bs0 = old(bricks)@;
    proof {
        vstd::std_specs::vec::axiom_spec_len(voxels);
        assert(nn * nn * nn <= usize::MAX);
    }
    let mut x: usize = 0;
    while x < n
        invariant
            voxels@ == g,
            n == nn,
            nn * nn * nn <= usize::MAX,
            1 <= l,
            z < n,
            x <= n,
            merge_inv(g, nn, merged@, bricks@),
            merged@.len() == m0.len(),
            bs0.len() <= bricks@.len(),
            forall|i: int| 0 <= i < bs0.len() ==> bricks@[i] == bs0[i],
            forall|i: int|
                bs0.len() <= i < bricks@.len() ==> brick_extents_ok(
                    #[trigger] bricks@[i],
                    Option::Some(l),
                ),
            forall|a: int, c: int, d: int|
                in_grid(a, c, d, nn) && cell(m0, nn, a, c, d) != 0 ==> #[trigger] cell(
                    merged@,
                    nn,
                    a,
                    c,
                    d,
                ) != 0,
            slice_claimed(g, nn, m0, z as int) ==> (merged@ == m0 && bricks@ == bs0),
        decreases n - x,
    {
        let mut y: usize = 0;
        while y < n
            invariant
                voxels@ == g,
                n == nn,
                nn * nn * nn <= usize::MAX,
                1 <= l,
                z < n,
                x < n,
                y <= n,
                merge_inv(g, nn, merged@, bricks@),
                merged@.len() == m0.len(),
                bs0.len() <= bricks@.len(),
                forall|i: int| 0 <= i < bs0.len() ==> bricks@[i] == bs0[i],
                forall|i: int|
                    bs0.len() <= i < bricks@.len() ==> brick_extents_ok(
                        #[trigger] bricks@[i],
                        Option::Some(l),
                    ),
                forall|a: int, c: int, d: int|
                    in_grid(a, c, d, nn) && cell(m0, nn, a, c, d) != 0 ==> #[trigger] cell(
                        merged@,
                        nn,
                        a,
                        c,
                        d,
                    ) != 0,
                slice_claimed(g, nn, m0, z as int) ==> (merged@ == m0 && bricks@ == bs0),
            decreases n - y,
        {
            let vi = index(x, y, z, n);
            let c = voxels[vi];
            if c != 0 && merged[vi] == 0 {
                proof {
                    if slice_claimed(g, nn, m0, z as int) {
                        assert(cell(m0, nn, x as int, y as int, z as int) != 0);
                        assert(cell(merged@, nn, x as int, y as int, z as int) == 0);
                        assert(false);
                    }
                }
                let ghost m1 = merged@;
                let ghost bs1 = bricks@;
                let start_y = y;
                let mut run: usize = 0;
                while y < n && run < l && merged[index(x, y, z, n)] == 0 && voxels[index(
                    x,
                    y,
                    z,
                    n,
                )] == c
                    invariant
                        voxels@ == g,
                        n == nn,
                        nn * nn * nn <= usize::MAX,
                        z < n,
                        x < n,
                        merged@ == m1,
                        bricks@ == bs1,
                        merged@.len() == g.len() == nn * nn * nn,
                        start_y as int + run == y as int,
                        start_y < n,
                        y <= n,
                        run <= l,
                        c != 0,
                        c == cell(g, nn, x as int, start_y as int, z as int),
                        cell(m1, nn, x as int, start_y as int, z as int) == 0,
                        forall|yy: int|
                            start_y <= yy < y ==> #[trigger] cell(g, nn, x as int, yy, z as int)
                                == c,
                        forall|yy: int|
                            start_y <= yy < y ==> #[trigger] cell(m1, nn, x as int, yy, z as int)
                                == 0,
                    decreases n - y,
                {
                    y += 1;
                    run += 1;
                }
                proof {
                    if run == 0 {
                        assert(false);
                    }
                }
                let b = GridBrick {
                    x_min: x,
                    x_max: x,
                    y_min: start_y,
                    y_max: y - 1,
                    z_min: z,
                    z_max: z,
                    color_idx: c,
                };
                proof {
                    assert(brick_in_grid(b, nn));
                    assert forall|aa: int, cc: int, dd: int|
                        #[trigger] brick_covers(b, aa, cc, dd) implies cell(g, nn, aa, cc, dd) == c
                        && cell(m1, nn, aa, cc, dd) == 0 by {
                        assert(aa == x as int && dd == z as int && start_y <= cc < y);
                    }
                    assert(brick_matches_grid(g, nn, b));
                }
                emit_brick(voxels, n, merged, bricks, b);
                proof {
                    assert(bricks@ == bs1.push(b));
                    assert forall|i: int| 0 <= i < bs0.len() implies bricks@[i] == bs0[i] by {
                        assert(bricks@[i] == bs1[i]);
                    }
                    assert(brick_extents_ok(b, Option::Some(l)));
                    assert forall|i: int|
                        bs0.len() <= i < bricks@.len() implies brick_extents_ok(
                        #[trigger] bricks@[i],
                        Option::Some(l),
                    ) by {
                        if i < bs1.len() {
                            assert(bricks@[i] == bs1[i]);
                        } else {
                            assert(bricks@[i] == b);
                        }
                    }
                }
            } else {
                y += 1;
            }
        }
        x += 1;
    }
}

/// Give every occupied cell of z-slice `z` that no brick has claimed yet
/// its own single-cell brick; afterwards every occupied cell of the slice
/// is claimed.
fn pass_singletons(
    voxels: &Vec<usize>,
    n: usize,
    z: usize,
    merged: &mut Vec<usize>,
    bricks: &mut Vec<GridBrick>,
)
    requires
        z < n,
        merge_inv(voxels@, n as int, old(merged)@, old(bricks)@),
    ensures
        merge_inv(voxels@, n as int, final(merged)@, final(bricks)@),
        final(merged)@.len() == old(merged)@.len(),
        old(bricks)@.len() <= final(bricks)@.len(),
        forall|i: int| 0 <= i < old(bricks)@.len() ==> final(bricks)@[i] == old(bricks)@[i],
        forall|i: int|
            old(bricks)@.len() <= i < final(bricks)@.len() ==> (#[trigger] final(bricks)@[i]).x_min
                == final(bricks)@[i].x_max && final(bricks)@[i].y_min == final(bricks)@[i].y_max
                && final(bricks)@[i].z_min == final(bricks)@[i].z_max,
        forall|a: int, c: int, d: int|
            in_grid(a, c, d, n as int) && cell(old(merged)@, n as int, a, c, d) != 0
                ==> #[trigger] cell(final(merged)@, n as int, a, c, d) != 0,
        forall|a: int, c: int|
            0 <= a < n as int && 0 <= c < n as int && cell(voxels@, n as int, a, c, z as int) != 0
                ==> #[trigger] cell(final(merged)@, n as int, a, c, z as int) != 0,
        slice_claimed(voxels@, n as int, old(merged)@, z as int) ==> final(merged)@ == old(
            merged,
        )@ && final(bricks)@ == old(bricks)@,
{
    let ghost nn = n as int;
    let ghost g = voxels@;
    let ghost m0 = old(merged)@;
    let ghost bs0 = old(bricks)@;
    proof {
        vstd::std_specs::vec::axiom_spec_len(voxels);
        assert(nn * nn * nn <= usize::MAX);
    }
    let mut y: usize = 0;
    while y < n
        invariant
            voxels@ == g,
            n == nn,
            nn * nn * nn <= usize::MAX,
            z < n,
            y <= n,
            merge_inv(g, nn, merged@, bricks@),
            merged@.len() == m0.len(),
            bs0.len() <= bricks@.len(),
            forall|i: int| 0 <= i < bs0.len() ==> bricks@[i] == bs0[i],
            forall|i: int|
                bs0.len() <= i < bricks@.len() ==> (#[trigger] bricks@[i]).x_min
                    == bricks@[i].x_max && bricks@[i].y_min == bricks@[i].y_max
                    && bricks@[i].z_min == bricks@[i].z_max,
            forall|a: int, c: int, d: int|
                in_grid(a, c, d, nn) && cell(m0, nn, a, c, d) != 0 ==> #[trigger] cell(
                    merged@,
                    nn,
                    a,
                    c,
                    d,
                ) != 0,
            forall|a: int, c: int|
                0 <= a < nn && 0 <= c < y as int && cell(g, nn, a, c, z as int) != 0
                    ==> #[trigger] cell(merged@, nn, a, c, z as int) != 0,
            slice_claimed(g, nn, m0, z as int) ==> (merged@ == m0 && bricks@ == bs0),
        decreases n - y,
    {
        let mut x: usize = 0;
        while x < n
            invariant
                voxels@ == g,
                n == nn,
                nn * nn * nn <= usize::MAX,
                z < n,
                y < n,
                x <= n,
                merge_inv(g, nn, merged@, bricks@),
                merged@.len() == m0.len(),
                bs0.len() <= bricks@.len(),
                forall|i: int| 0 <= i < bs0.len() ==> bricks@[i] == bs0[i],
                forall|i: int|
                    bs0.len() <= i < bricks@.len() ==> (#[trigger] bricks@[i]).x_min
                        == bricks@[i].x_max && bricks@[i].y_min == bricks@[i].y_max
                        && bricks@[i].z_min == bricks@[i].z_max,
                forall|a: int, c: int, d: int|
                    in_grid(a, c, d, nn) && cell(m0, nn, a, c, d) != 0 ==> #[trigger] cell(
                        merged@,
                        nn,
                        a,
                        c,
                        d,
                    ) != 0,
                forall|a: int, c: int|
                    0 <= a < nn && 0 <= c < y as int && cell(g, nn, a, c, z as int) != 0
                        ==> #[trigger] cell(merged@, nn, a, c, z as int) != 0,
                forall|a: int|
                    0 <= a < x as int && cell(g, nn, a, y as int, z as int) != 0 ==> #[trigger] cell(
                        merged@,
                        nn,
                        a,
                        y as int,
                        z as int,
                    ) != 0,
                slice_claimed(g, nn, m0, z as int) ==> (merged@ == m0 && bricks@ == bs0),
            decreases n - x,
        {
            let vi = index(x, y, z, n);
            let c = voxels[vi];
            if c != 0 && merged[vi] == 0 {
                proof {
                    if slice_claimed(g, nn, m0, z as int) {
                        assert(cell(m0, nn, x as int, y as int, z as int) != 0);
                        assert(cell(merged@, nn, x as int, y as int, z as int) == 0);
                        assert(false);
                    }
                }
                let ghost m1 = merged@;
                let ghost bs1 = bricks@;
                let b = GridBrick {
                    x_min: x,
                    x_max: x,
                    y_min: y,
                    y_max: y,
                    z_min: z,
                    z_max: z,
                    color_idx: c,
                };
                proof {
                    assert forall|aa: int, cc: int, dd: int|
                        #[trigger] brick_covers(b, aa, cc, dd) implies cell(g, nn, aa, cc, dd) == c
                        && cell(m1, nn, aa, cc, dd) == 0 by {
                        assert(aa == x as int && cc == y as int && dd == z as int);
                    }
                    assert(brick_matches_grid(g, nn, b));
                }
                emit_brick(voxels, n, merged, bricks, b);
                proof {
                    assert(bricks@ == bs1.push(b));
                    assert forall|i: int| 0 <= i < bs0.len() implies bricks@[i] == bs0[i] by {
                        assert(bricks@[i] == bs1[i]);
                    }
                    assert forall|i: int|
                        bs0.len() <= i < bricks@.len() implies (#[trigger] bricks@[i]).x_min
                        == bricks@[i].x_max && bricks@[i].y_min == bricks@[i].y_max
                        && bricks@[i].z_min == bricks@[i].z_max by {
                        if i < bs1.len() {
                            assert(bricks@[i] == bs1[i]);
                        } else {
                            assert(bricks@[i] == b);
                        }
                    }
                }
            }
            x += 1;
        }
        y += 1;
    }
}

/// Merge with bound `l`: per z-slice, x-runs, then y-runs over what the
/// x-runs left, then single cells for the rest. Since an x-run starts at
/// every occupied unclaimed cell (runs of length 1 included), the x pass
/// claims every occupied cell of its slice, and the later passes find
/// nothing left; they stay as the algorithm's stated phases.
fn merge_with_runs(voxels: &Vec<usize>, n: usize, l: usize) -> (bricks: Vec<GridBrick>)
    requires
        voxels@.len() == n * n * n,
        1 <= l,
    ensures
        merge_output_ok(voxels@, n as int, bricks@),
        forall|i: int|
            0 <= i < bricks@.len() ==> brick_extents_ok(#[trigger] bricks@[i], Option::Some(l)),
        forall|i: int|
            0 <= i < bricks@.len() ==> (#[trigger] bricks@[i]).y_min == bricks@[i].y_max
                && run_maximal_x(voxels@, n as int, l, bricks@[i]),
{
    let ghost nn = n as int;
    let ghost g = voxels@;
    let mut merged = zero_grid(voxels.len());
    let mut bricks: Vec<GridBrick> = Vec::new();
    proof {
        assert forall|a: int, c: int, d: int| in_grid(a, c, d, nn) implies ((#[trigger] cell(
            merged@,
            nn,
            a,
            c,
            d,
        ) != 0) <==> covered(bricks@, a, c, d)) by {
            lemma_idx3_bounds(a, c, d, nn);
        }
        assert(merge_inv(g, nn, merged@, bricks@));
    }
    let mut z: usize = 0;
    while z < n
        invariant
            voxels@ == g,
            n == nn,
            1 <= l,
            z <= n,
            merge_inv(g, nn, merged@, bricks@),
            forall|i: int|
                0 <= i < bricks@.len() ==> brick_extents_ok(#[trigger] bricks@[i], Option::Some(l)),
            forall|i: int|
                0 <= i < bricks@.len() ==> (#[trigger] bricks@[i]).y_min == bricks@[i].y_max
                    && run_maximal_x(g, nn, l, bricks@[i]),
            forall|a: int, c: int, d: int|
                in_grid(a, c, d, nn) && d >= z as int ==> #[trigger] cell(merged@, nn, a, c, d)
                    == 0,
            forall|a: int, c: int, d: int|
                in_grid(a, c, d, nn) && d < z as int && cell(g, nn, a, c, d) != 0
                    ==> #[trigger] cell(merged@, nn, a, c, d) != 0,
        decreases n - z,
    {
        let ghost bs_a = bricks@;
        let ghost m_a = merged@;
        proof {
            assert(slice_unclaimed(nn, merged@, z as int));
        }
        pass_x(voxels, n, l, z, &mut merged, &mut bricks);
        let ghost bs_b = bricks@;
        let ghost m_b = merged@;
        pass_y(voxels, n, l, z, &mut merged, &mut bricks);
        proof {
            assert(merged@ == m_b && bricks@ == bs_b);
        }
        pass_singletons(voxels, n, z, &mut merged, &mut bricks);
        proof {
            assert(merged@ == m_b && bricks@ == bs_b);
            assert forall|i: int| 0 <= i < bricks@.len() implies brick_extents_ok(
                #[trigger] bricks@[i],
                Option::Some(l),
            ) && bricks@[i].y_min == bricks@[i].y_max && run_maximal_x(g, nn, l, bricks@[i]) by {
                if i < bs_a.len() {
                    assert(bricks@[i] == bs_a[i]);
                }
            }
            assert forall|a: int, c: int, d: int|
                in_grid(a, c, d, nn) && d >= z as int + 1 implies #[trigger] cell(
                merged@,
                nn,
                a,
                c,
                d,
            ) == 0 by {
                assert(cell(merged@, nn, a, c, d) == cell(m_a, nn, a, c, d));
            }
            assert forall|a: int, c: int, d: int|
                in_grid(a, c, d, nn) && d < z as int + 1 && cell(g, nn, a, c, d) != 0
                implies #[trigger] cell(merged@, nn, a, c, d) != 0 by {
                if d < z as int {
                    assert(cell(merged@, nn, a, c, d) == cell(m_a, nn, a, c, d));
                }
            }
        }
        z += 1;
    }
    proof {
        assert forall|a: int, c: int, d: int| in_grid(a, c, d, nn) implies ((#[trigger] cell(
            g,
            nn,
            a,
            c,
            d,
        ) != 0) <==> covered(bricks@, a, c, d)) by {
            if cell(g, nn, a, c, d) != 0 {
                assert(cell(merged@, nn, a, c, d) != 0);
            }
            if covered(bricks@, a, c, d) {
                let i = choose|i: int|
                    0 <= i < bricks@.len() && #[trigger] brick_covers(bricks@[i], a, c, d);
                assert(brick_matches_grid(g, nn, bricks@[i]));
            }
        }
    }
    bricks
}

/// Compress the grid into bricks that exactly cover its occupied cells.
///
/// Every returned brick lies inside the grid, claims only cells holding
/// its own (non-empty) color, and no cell is claimed twice; together the
/// bricks claim exactly the occupied cells. Each brick is one z-slice
/// thick and runs along at most one of the x and y axes, never longer
/// than `max_merge_length` cells. Under a bound, every brick is a
/// right-maximal x-run: it ends only at the grid edge, at the bound, or
/// where the color changes, so two bricks abutting along x with one
/// color can only arise from the bound. With no bound given, every
/// occupied cell becomes its own single-cell brick, so the brick count
/// equals the occupied-cell count.
pub fn merge_voxels(
    voxels: &Vec<usize>,
    size: usize,
    max_merge_length: Option<usize>,
) -> (bricks: Vec<GridBrick>)
    requires
        voxels@.len() == size * size * size,
        match max_merge_length {
            Option::Some(l) => 1 <= l,
            Option::None => true,
        },
    ensures
        merge_output_ok(voxels@, size as int, bricks@),
        forall|i: int|
            0 <= i < bricks@.len() ==> brick_extents_ok(#[trigger] bricks@[i], max_merge_length),
        forall|i: int|
            0 <= i < bricks@.len() ==> match max_merge_length {
                Option::Some(l) => (#[trigger] bricks@[i]).y_min == bricks@[i].y_max
                    && run_maximal_x(voxels@, size as int, l, bricks@[i]),
                Option::None => true,
            },
        max_merge_length is None ==> bricks@.len() == count_occupied(voxels@),
{
    match max_merge_length {
        Option::None => collect_singletons(voxels, size),
        Option::Some(l) => merge_with_runs(voxels, size, l),
    }
}

} // verus!
