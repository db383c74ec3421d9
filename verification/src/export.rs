//! Index-space half of mesh export.
//!
//! A brick is written out as a box: eight corner vertices and six quad
//! faces. Which corners make up which face is fixed topology on vertex
//! indices and verified here; corner coordinates and file output stay
//! outside the library.

use vstd::prelude::*;

verus! {

/// The six quad faces of a box whose eight corner vertices have the
/// given indices, corners ordered as: the four corners of the low z face
/// counter-clockwise, then the four corners of the high z face in the
/// same x/y order. Faces come in the order: low z, high z, low y, high
/// y, high x, low x.
pub fn box_quad_faces(indices: &Vec<usize>) -> (faces: Vec<(usize, usize, usize, usize)>)
    requires
        indices@.len() == 8,
    ensures
        faces@.len() == 6,
        faces@[0] == (indices@[0], indices@[1], indices@[2], indices@[3]),
        faces@[1] == (indices@[4], indices@[5], indices@[6], indices@[7]),
        faces@[2] == (indices@[0], indices@[1], indices@[5], indices@[4]),
        faces@[3] == (indices@[3], indices@[2], indices@[6], indices@[7]),
        faces@[4] == (indices@[1], indices@[2], indices@[6], indices@[5]),
        faces@[5] == (indices@[0], indices@[3], indices@[7], indices@[4]),
{
    let mut faces: Vec<(usize, usize, usize, usize)> = Vec::new();
    faces.push((indices[0], indices[1], indices[2], indices[3]));
    faces.push((indices[4], indices[5], indices[6], indices[7]));
    faces.push((indices[0], indices[1], indices[5], indices[4]));
    faces.push((indices[3], indices[2], indices[6], indices[7]));
    faces.push((indices[1], indices[2], indices[6], indices[5]));
    faces.push((indices[0], indices[3], indices[7], indices[4]));
    faces
}

} // verus!
