//! Material name lookup.
//!
//! Materials are an ordered list of unique names; their position in the
//! list is the color index stored in the voxel grid. A name that is used
//! but not declared gets the index one past the last declared material.

use vstd::prelude::*;

verus! {

/// Set `curr_color_idx` to the position of `color` in the material list,
/// or to the list's length when the name is not declared.
pub fn process_curr_color_idx(color: &String, colors: &Vec<String>, curr_color_idx: &mut usize)
    ensures
        *final(curr_color_idx) <= colors@.len(),
        *final(curr_color_idx) < colors@.len() ==> colors@[*final(curr_color_idx) as int]@
            == color@,
        forall|j: int| 0 <= j < *final(curr_color_idx) ==> colors@[j]@ != color@,
        *final(curr_color_idx) == colors@.len() ==> forall|j: int|
            0 <= j < colors@.len() ==> colors@[j]@ != color@,
{
    let mut idx: usize = 0;
    while idx < colors.len()
        invariant
            idx <= colors@.len(),
            forall|j: int| 0 <= j < idx ==> colors@[j]@ != color@,
        decreases colors@.len() - idx,
    {
        let name = &colors[idx];
        if name.eq(color) {
            *curr_color_idx = idx;
            return ;
        }
        idx += 1;
    }
    *curr_color_idx = colors.len();
}

} // verus!
