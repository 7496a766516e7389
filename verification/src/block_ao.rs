//! Per-vertex ambient occlusion levels for exposed cube faces.
use vstd::prelude::*;

verus! {

/// The occluder that stands in for the in-plane diagonal: when both sides
/// occlude, the face's first edge neighbour takes the diagonal's place.
pub open spec fn corner_occludes(side1_occ: bool, side2_occ: bool, diag_occ: bool, shade0_occ: bool) -> bool {
    if side1_occ && side2_occ { shade0_occ } else { diag_occ }
}

pub open spec fn bool_count(b: bool) -> int {
    if b { 1 } else { 0 }
}

/// AO level `0..=3` (0 darkest): three minus the number of occluders among
/// the two sides and the corner.
pub open spec fn spec_vertex_ao_level(side1_occ: bool, side2_occ: bool, diag_occ: bool, shade0_occ: bool) -> int {
    3 - (bool_count(side1_occ) + bool_count(side2_occ)
        + bool_count(corner_occludes(side1_occ, side2_occ, diag_occ, shade0_occ)))
}

/// Per-vertex AO level (`0..=3`, `0` darkest) for an exposed face.
///
/// `shade0_occ` is whether the face's first edge neighbour occludes; it
/// replaces the diagonal when both sides occlude.
pub fn vertex_ao_level(side1_occ: bool, side2_occ: bool, diag_occ: bool, shade0_occ: bool) -> (level: u8)
    ensures
        level == spec_vertex_ao_level(side1_occ, side2_occ, diag_occ, shade0_occ),
        level <= 3,
{
    let corner_occ = if side1_occ && side2_occ { shade0_occ } else { diag_occ };
    3 - (side1_occ as u8 + side2_occ as u8 + corner_occ as u8)
}

/// The level does not depend on which side is which; unless both sides
/// occlude, it is three less one for each occluding side and one for an
/// occluding diagonal; with both sides occluding, it is one, or zero when
/// the first edge neighbour occludes too.
pub proof fn law_vertex_ao_level(a: bool, b: bool, d: bool, s: bool)
    ensures
        spec_vertex_ao_level(a, b, d, s) == spec_vertex_ao_level(b, a, d, s),
        !(a && b) ==> spec_vertex_ao_level(a, b, d, s) == 3 - bool_count(a) - bool_count(b) - bool_count(d),
        a && b ==> spec_vertex_ao_level(a, b, d, s) == 1 - bool_count(s),
        0 <= spec_vertex_ao_level(a, b, d, s) <= 3,
{
}

} // verus!
