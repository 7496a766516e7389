//! Where each face cell of the padded chunk lives.
use vstd::prelude::*;

use crate::bitmask::bit;

verus! {

pub open spec fn pad(cs: int) -> int {
    cs + 2
}

/// Index of padded voxel `(a, b, c)`; `c` varies fastest.
pub open spec fn vidx(cs: int, a: int, b: int, c: int) -> int {
    (a * pad(cs) + b) * pad(cs) + c
}

pub open spec fn in_pad(cs: int, p: (int, int, int)) -> bool {
    0 <= p.0 < pad(cs) && 0 <= p.1 < pad(cs) && 0 <= p.2 < pad(cs)
}

/// Index of the row mask of face `f`, layer `l`, row `r`.
pub open spec fn midx(cs: int, f: int, l: int, r: int) -> int {
    f * (cs * cs) + l * cs + r
}

/// The padded voxel behind face cell `(l, r, k)` of face `f`: faces 0 and 1
/// are layered along the first coordinate, faces 2 and 3 along the second,
/// faces 4 and 5 along the third; bit `k` of faces 4 and 5 starts at 1.
pub open spec fn cell_of(f: int, l: int, r: int, k: int) -> (int, int, int) {
    if f < 2 {
        (l + 1, r + 1, k + 1)
    } else if f < 4 {
        (r + 1, l + 1, k + 1)
    } else {
        (l + 1, r + 1, k)
    }
}

/// The voxel that face `f` of voxel `p` looks onto.
pub open spec fn neighbour(f: int, p: (int, int, int)) -> (int, int, int) {
    if f == 0 {
        (p.0 + 1, p.1, p.2)
    } else if f == 1 {
        (p.0 - 1, p.1, p.2)
    } else if f == 2 {
        (p.0, p.1 + 1, p.2)
    } else if f == 3 {
        (p.0, p.1 - 1, p.2)
    } else if f == 4 {
        (p.0, p.1, p.2 + 1)
    } else {
        (p.0, p.1, p.2 - 1)
    }
}

/// The bits a row mask of face `f` may use.
pub open spec fn bit_in_range(cs: int, f: int, k: int) -> bool {
    if f < 4 {
        0 <= k < cs
    } else {
        1 <= k <= cs
    }
}

/// A face of voxel `v1` towards voxel `v2` is drawn when `v2` is air, or is
/// a different voxel that lets light through.
pub open spec fn face_shows(v1: u16, v2: u16, transparents: Set<u16>) -> bool {
    v2 == 0 || (v1 != v2 && transparents.contains(v2))
}

pub open spec fn voxel_at(cs: int, voxels: Seq<u16>, p: (int, int, int)) -> u16 {
    voxels[vidx(cs, p.0, p.1, p.2)]
}

/// Face cell `(l, r, k)` of face `f` belongs to a solid voxel of the chunk
/// and is not hidden by its neighbour.
pub open spec fn exposed(cs: int, voxels: Seq<u16>, transparents: Set<u16>, f: int, l: int, r: int, k: int) -> bool {
    &&& 0 <= l < cs
    &&& 0 <= r < cs
    &&& bit_in_range(cs, f, k)
    &&& voxel_at(cs, voxels, cell_of(f, l, r, k)) != 0
    &&& face_shows(
        voxel_at(cs, voxels, cell_of(f, l, r, k)),
        voxel_at(cs, voxels, neighbour(f, cell_of(f, l, r, k))),
        transparents,
    )
}

pub open spec fn mask_bit(cs: int, masks: Seq<u64>, f: int, l: int, r: int, k: int) -> bool {
    bit(masks[midx(cs, f, l, r)], k)
}

pub proof fn lemma_vidx_bounds(cs: int, a: int, b: int, c: int)
    requires
        cs >= 0,
        in_pad(cs, (a, b, c)),
    ensures
        0 <= vidx(cs, a, b, c) < pad(cs) * pad(cs) * pad(cs),
{
    let p = pad(cs);
    assert(0 <= a * p + b < p * p) by (nonlinear_arith)
        requires 0 <= a < p, 0 <= b < p;
    assert(0 <= (a * p + b) * p + c < p * p * p) by (nonlinear_arith)
        requires 0 <= a * p + b < p * p, 0 <= c < p;
}

pub proof fn lemma_midx_bounds(cs: int, f: int, l: int, r: int)
    requires
        0 <= f < 6,
        0 <= l < cs,
        0 <= r < cs,
    ensures
        0 <= midx(cs, f, l, r) < 6 * (cs * cs),
{
    assert(0 <= l * cs + r < cs * cs) by (nonlinear_arith)
        requires 0 <= l < cs, 0 <= r < cs;
    assert(0 <= f * (cs * cs) <= 5 * (cs * cs)) by (nonlinear_arith)
        requires 0 <= f < 6, cs >= 0;
}

pub proof fn lemma_midx_injective(cs: int, f: int, l: int, r: int, f2: int, l2: int, r2: int)
    requires
        0 <= f < 6, 0 <= l < cs, 0 <= r < cs,
        0 <= f2 < 6, 0 <= l2 < cs, 0 <= r2 < cs,
        midx(cs, f, l, r) == midx(cs, f2, l2, r2),
    ensures
        f == f2 && l == l2 && r == r2,
{
    assert(f == f2 && l == l2 && r == r2) by (nonlinear_arith)
        requires
            0 <= f < 6, 0 <= l < cs, 0 <= r < cs,
            0 <= f2 < 6, 0 <= l2 < cs, 0 <= r2 < cs,
            f * (cs * cs) + l * cs + r == f2 * (cs * cs) + l2 * cs + r2;
}

/// A face between two voxels of the same id is never drawn, nor one that
/// looks onto an opaque voxel; a face of a solid voxel of the grid that
/// looks onto air always is.
pub proof fn law_faces_between_equal_voxels_hidden(cs: int, voxels: Seq<u16>, transparents: Set<u16>, f: int, l: int,
    r: int, k: int)
    ensures
        voxel_at(cs, voxels, cell_of(f, l, r, k)) == voxel_at(cs, voxels, neighbour(f, cell_of(f, l, r, k))) ==> !exposed(
            cs,
            voxels,
            transparents,
            f,
            l,
            r,
            k,
        ),
        voxel_at(cs, voxels, neighbour(f, cell_of(f, l, r, k))) != 0 && !transparents.contains(
            voxel_at(cs, voxels, neighbour(f, cell_of(f, l, r, k))),
        ) ==> !exposed(cs, voxels, transparents, f, l, r, k),
        0 <= l < cs && 0 <= r < cs && bit_in_range(cs, f, k) && voxel_at(cs, voxels, cell_of(f, l, r, k)) != 0
            && voxel_at(cs, voxels, neighbour(f, cell_of(f, l, r, k))) == 0 ==> exposed(cs, voxels, transparents, f, l, r, k),
{
}

} // verus!
