use voxel_bricks::brick::{bricks_to_grid, GridBrick};
use voxel_bricks::grid::index;
use voxel_bricks::merge::merge_voxels;

fn grid(n: usize) -> Vec<usize> {
    vec![0; n * n * n]
}

fn covers(b: &GridBrick, x: usize, y: usize, z: usize) -> bool {
    b.x_min <= x && x <= b.x_max && b.y_min <= y && y <= b.y_max && b.z_min <= z && z <= b.z_max
}

/// Every occupied cell is covered by exactly one brick, every brick cell
/// holds the brick's color.
fn check_exact_cover(voxels: &[usize], n: usize, bricks: &[GridBrick]) {
    for z in 0..n {
        for y in 0..n {
            for x in 0..n {
                let v = voxels[index(x, y, z, n)];
                let covering: Vec<&GridBrick> =
                    bricks.iter().filter(|b| covers(b, x, y, z)).collect();
                if v != 0 {
                    assert_eq!(covering.len(), 1, "cell ({x},{y},{z}) cover count");
                    assert_eq!(covering[0].color_idx, v, "cell ({x},{y},{z}) color");
                } else {
                    assert_eq!(covering.len(), 0, "empty cell ({x},{y},{z}) covered");
                }
            }
        }
    }
}

#[test]
fn no_bound_gives_one_brick_per_voxel() {
    let n: usize = 3;
    let mut v = grid(n);
    v[index(0, 0, 0, n)] = 1;
    v[index(2, 1, 0, n)] = 2;
    v[index(1, 1, 1, n)] = 3;
    v[index(2, 2, 2, n)] = 1;
    let bricks = merge_voxels(&v, n, None);
    assert_eq!(bricks.len(), 4);
    for b in &bricks {
        assert_eq!(b.x_min, b.x_max);
        assert_eq!(b.y_min, b.y_max);
        assert_eq!(b.z_min, b.z_max);
    }
    check_exact_cover(&v, n, &bricks);
}

#[test]
fn row_of_five_with_bound_three_splits_three_plus_two() {
    let n: usize = 5;
    let mut v = grid(n);
    for x in 0..5 {
        v[index(x, 0, 0, n)] = 1;
    }
    let bricks = merge_voxels(&v, n, Some(3));
    assert_eq!(bricks.len(), 2);
    assert_eq!((bricks[0].x_min, bricks[0].x_max), (0, 2));
    assert_eq!((bricks[1].x_min, bricks[1].x_max), (3, 4));
    for b in &bricks {
        assert_eq!(b.color_idx, 1);
        assert_eq!((b.y_min, b.y_max), (0, 0));
        assert_eq!((b.z_min, b.z_max), (0, 0));
    }
    check_exact_cover(&v, n, &bricks);
}

#[test]
fn different_colors_never_merge() {
    let n: usize = 2;
    let mut v = grid(n);
    v[index(0, 0, 0, n)] = 1;
    v[index(1, 0, 0, n)] = 2;
    let bricks = merge_voxels(&v, n, Some(4));
    assert_eq!(bricks.len(), 2);
    assert_eq!(bricks[0].color_idx, 1);
    assert_eq!((bricks[0].x_min, bricks[0].x_max), (0, 0));
    assert_eq!(bricks[1].color_idx, 2);
    assert_eq!((bricks[1].x_min, bricks[1].x_max), (1, 1));
    check_exact_cover(&v, n, &bricks);
}

#[test]
fn merge_bound_caps_extent() {
    let n: usize = 7;
    let mut v = grid(n);
    for x in 0..7 {
        v[index(x, 3, 2, n)] = 5;
    }
    for y in 0..6 {
        v[index(6, y, 4, n)] = 2;
    }
    let bricks = merge_voxels(&v, n, Some(3));
    for b in &bricks {
        assert!(b.x_max - b.x_min < 3);
        assert!(b.y_max - b.y_min < 3);
        assert_eq!(b.z_min, b.z_max);
        assert!(b.x_min == b.x_max || b.y_min == b.y_max);
    }
    check_exact_cover(&v, n, &bricks);
}

#[test]
fn column_splits_into_single_cell_bricks() {
    let n: usize = 3;
    let mut v = grid(n);
    for y in 0..3 {
        v[index(0, y, 0, n)] = 4;
    }
    let bricks = merge_voxels(&v, n, Some(3));
    // the x pass takes the first cell of each row; runs then form along x
    // only, so three one-cell bricks of the same color result
    check_exact_cover(&v, n, &bricks);
    let mut total: usize = 0;
    for b in &bricks {
        assert_eq!(b.color_idx, 4);
        total += (b.x_max - b.x_min + 1) * (b.y_max - b.y_min + 1);
    }
    assert_eq!(total, 3);
}

#[test]
fn l_shape_splits_into_x_runs() {
    let n: usize = 4;
    let mut v = grid(n);
    // a horizontal arm y=0, x=0..3 and a vertical arm x=0, y=1..3
    for x in 0..4 {
        v[index(x, 0, 0, n)] = 7;
    }
    for y in 1..4 {
        v[index(0, y, 0, n)] = 7;
    }
    let bricks = merge_voxels(&v, n, Some(4));
    // the x pass claims runs of length 1 as well, so the vertical arm
    // becomes three single-cell bricks after the horizontal run
    assert_eq!(bricks.len(), 4);
    assert_eq!(
        (bricks[0].x_min, bricks[0].x_max, bricks[0].y_min, bricks[0].y_max),
        (0, 3, 0, 0)
    );
    for (i, b) in bricks.iter().enumerate().skip(1) {
        assert_eq!((b.x_min, b.x_max, b.y_min, b.y_max), (0, 0, i, i));
    }
    check_exact_cover(&v, n, &bricks);
}

#[test]
fn slices_never_merge_across_z() {
    let n: usize = 2;
    let mut v = grid(n);
    v[index(0, 0, 0, n)] = 3;
    v[index(0, 0, 1, n)] = 3;
    let bricks = merge_voxels(&v, n, Some(2));
    assert_eq!(bricks.len(), 2);
    assert_eq!(bricks[0].z_min, bricks[0].z_max);
    assert_eq!(bricks[1].z_min, bricks[1].z_max);
    check_exact_cover(&v, n, &bricks);
}

#[test]
fn empty_grid_gives_no_bricks() {
    let n: usize = 3;
    let v = grid(n);
    assert!(merge_voxels(&v, n, None).is_empty());
    assert!(merge_voxels(&v, n, Some(2)).is_empty());
}

#[test]
fn zero_resolution_gives_no_bricks() {
    let v: Vec<usize> = Vec::new();
    assert!(merge_voxels(&v, 0, None).is_empty());
}

#[test]
fn round_trip_restores_the_grid() {
    let n: usize = 4;
    let mut v = grid(n);
    for x in 0..4 {
        v[index(x, 1, 2, n)] = 1;
    }
    v[index(0, 0, 0, n)] = 2;
    v[index(1, 0, 0, n)] = 2;
    v[index(3, 3, 3, n)] = 9;
    let bricks = merge_voxels(&v, n, Some(3));
    let expanded = bricks_to_grid(&bricks, n);
    assert_eq!(expanded, v);
    // a second merge on the re-expanded grid claims the same cells with
    // the same colors, whatever bound it uses
    let again = merge_voxels(&expanded, n, None);
    check_exact_cover(&v, n, &again);
}

#[test]
fn bound_one_gives_single_cell_bricks() {
    let n: usize = 3;
    let mut v = grid(n);
    for x in 0..3 {
        v[index(x, 0, 0, n)] = 1;
    }
    let bricks = merge_voxels(&v, n, Some(1));
    assert_eq!(bricks.len(), 3);
    for b in &bricks {
        assert_eq!(b.x_min, b.x_max);
        assert_eq!(b.y_min, b.y_max);
    }
    check_exact_cover(&v, n, &bricks);
}

#[test]
fn expansion_writes_the_last_covering_brick() {
    let n: usize = 2;
    let first = GridBrick {
        x_min: 0,
        x_max: 1,
        y_min: 0,
        y_max: 0,
        z_min: 0,
        z_max: 0,
        color_idx: 1,
    };
    let second = GridBrick {
        x_min: 1,
        x_max: 1,
        y_min: 0,
        y_max: 1,
        z_min: 0,
        z_max: 0,
        color_idx: 2,
    };
    let g = bricks_to_grid(&vec![first, second], n);
    assert_eq!(g[index(0, 0, 0, n)], 1);
    assert_eq!(g[index(1, 0, 0, n)], 2);
    assert_eq!(g[index(1, 1, 0, n)], 2);
    assert_eq!(g[index(0, 1, 0, n)], 0);
    assert_eq!(g.len(), n * n * n);
}
