//! Voxel-to-brick conversion library.
//!
//! A triangulated mesh is rasterized into a dense cubic grid of color
//! indices (index 0 means "empty"), and the grid is then compressed into
//! axis-aligned rectangular bricks: runs of adjacent same-colored voxels
//! merged along the x or y axis of each z-slice, bounded by an optional
//! maximum run length. The grid bookkeeping, the merge algorithm and the
//! index-space geometry are verified here; reading meshes, writing meshes
//! and the floating-point triangle rasterization live outside the library
//! and exchange plain values with it.

pub mod brick;
pub mod color;
pub mod export;
pub mod grid;
pub mod merge;
pub mod raster;
