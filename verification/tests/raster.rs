use voxel_bricks::export::box_quad_faces;
use voxel_bricks::grid::index;
use voxel_bricks::raster::{fan_triangles, paint_cells};

#[test]
fn flat_index_is_x_fastest() {
    assert_eq!(index(0, 0, 0, 4), 0);
    assert_eq!(index(1, 0, 0, 4), 1);
    assert_eq!(index(0, 1, 0, 4), 4);
    assert_eq!(index(0, 0, 1, 4), 16);
    assert_eq!(index(1, 2, 3, 4), 1 + 2 * 4 + 3 * 16);
}

#[test]
fn triangle_face_is_one_triangle() {
    let tris = fan_triangles(&vec![4, 9, 2]);
    assert_eq!(tris, vec![(4, 9, 2)]);
}

#[test]
fn quad_face_fans_into_two_triangles() {
    let tris = fan_triangles(&vec![0, 1, 2, 3]);
    assert_eq!(tris, vec![(0, 1, 2), (0, 2, 3)]);
}

#[test]
fn pentagon_fans_from_first_vertex() {
    let tris = fan_triangles(&vec![5, 6, 7, 8, 9]);
    assert_eq!(tris, vec![(5, 6, 7), (5, 7, 8), (5, 8, 9)]);
}

#[test]
fn paint_writes_only_the_listed_cells() {
    let n: usize = 3;
    let mut g = vec![0; n * n * n];
    paint_cells(&mut g, n, &vec![(0, 0, 0), (2, 1, 0)], 4);
    assert_eq!(g[index(0, 0, 0, n)], 4);
    assert_eq!(g[index(2, 1, 0, n)], 4);
    assert_eq!(g.iter().filter(|&&c| c != 0).count(), 2);
}

#[test]
fn later_paint_wins_on_shared_cells() {
    let n: usize = 2;
    let mut g = vec![0; n * n * n];
    paint_cells(&mut g, n, &vec![(0, 0, 0), (1, 0, 0)], 1);
    paint_cells(&mut g, n, &vec![(1, 0, 0), (1, 1, 0)], 2);
    assert_eq!(g[index(0, 0, 0, n)], 1);
    assert_eq!(g[index(1, 0, 0, n)], 2);
    assert_eq!(g[index(1, 1, 0, n)], 2);
}

#[test]
fn box_faces_use_the_given_corner_indices() {
    let faces = box_quad_faces(&vec![10, 11, 12, 13, 14, 15, 16, 17]);
    assert_eq!(
        faces,
        vec![
            (10, 11, 12, 13),
            (14, 15, 16, 17),
            (10, 11, 15, 14),
            (13, 12, 16, 17),
            (11, 12, 16, 15),
            (10, 13, 17, 14),
        ]
    );
}
