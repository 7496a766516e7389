//! Per-vertex ambient occlusion of every marked face cell.
use vstd::prelude::*;

use super::geometry::{in_pad, lemma_vidx_bounds, mask_bit, midx, lemma_midx_bounds, pad, vidx};
use super::GreedyMesher;
use crate::bitmask::{bit, lemma_clear_one, lemma_lowest_bit, lemma_zero_iff_no_bits};
use vstd::std_specs::bits::u64_trailing_zeros;

verus! {

/// Outward normal of face index `f`.
pub open spec fn normal(f: int) -> (int, int, int) {
    if f == 0 {
        (0, 0, 1)
    } else if f == 1 {
        (0, 0, -1)
    } else if f == 2 {
        (0, 1, 0)
    } else if f == 3 {
        (0, -1, 0)
    } else if f == 4 {
        (1, 0, 0)
    } else {
        (-1, 0, 0)
    }
}

pub open spec fn spec_axis_to_xyz(axis: int, a: int, b: int, c: int) -> (int, int, int) {
    if axis == 0 {
        (a, b, c)
    } else if axis == 1 {
        (b, c, a)
    } else {
        (c, a, b)
    }
}

/// The offset of neighbour `j` (0 and 1 the sides, 2 the corner) of vertex
/// `i` of face `f`.
pub open spec fn ao_offset(f: int, i: int, j: int) -> (int, int, int) {
    let t: (int, int, int, int, int, int, int, int, int) = if f == 0 || f == 1 {
        if i == 0 {
            (-1, 0, 0, 0, -1, 0, -1, -1, 0)
        } else if i == 1 {
            (1, 0, 0, 0, -1, 0, 1, -1, 0)
        } else if i == 2 {
            (1, 0, 0, 0, 1, 0, 1, 1, 0)
        } else {
            (-1, 0, 0, 0, 1, 0, -1, 1, 0)
        }
    } else if f == 2 {
        if i == 0 {
            (-1, 0, 0, 0, 0, -1, -1, 0, -1)
        } else if i == 1 {
            (1, 0, 0, 0, 0, -1, 1, 0, -1)
        } else if i == 2 {
            (1, 0, 0, 0, 0, 1, 1, 0, 1)
        } else {
            (-1, 0, 0, 0, 0, 1, -1, 0, 1)
        }
    } else if f == 3 {
        if i == 0 {
            (-1, 0, 0, 0, 0, 1, -1, 0, 1)
        } else if i == 1 {
            (1, 0, 0, 0, 0, 1, 1, 0, 1)
        } else if i == 2 {
            (1, 0, 0, 0, 0, -1, 1, 0, -1)
        } else {
            (-1, 0, 0, 0, 0, -1, -1, 0, -1)
        }
    } else if f == 4 {
        if i == 0 {
            (0, -1, 0, 0, 0, -1, 0, -1, -1)
        } else if i == 1 {
            (0, 1, 0, 0, 0, -1, 0, 1, -1)
        } else if i == 2 {
            (0, 1, 0, 0, 0, 1, 0, 1, 1)
        } else {
            (0, -1, 0, 0, 0, 1, 0, -1, 1)
        }
    } else {
        if i == 0 {
            (0, 1, 0, 0, 0, -1, 0, 1, -1)
        } else if i == 1 {
            (0, -1, 0, 0, 0, -1, 0, -1, -1)
        } else if i == 2 {
            (0, -1, 0, 0, 0, 1, 0, -1, 1)
        } else {
            (0, 1, 0, 0, 0, 1, 0, 1, 1)
        }
    };
    if j == 0 {
        (t.0, t.1, t.2)
    } else if j == 1 {
        (t.3, t.4, t.5)
    } else {
        (t.6, t.7, t.8)
    }
}

pub open spec fn add3(p: (int, int, int), q: (int, int, int)) -> (int, int, int) {
    (p.0 + q.0, p.1 + q.1, p.2 + q.2)
}

/// The occluder at `(x, y, z)`; anything outside the padded chunk is open.
pub open spec fn occ_at(cs: int, occluders: Seq<bool>, p: (int, int, int)) -> bool {
    in_pad(cs, p) && occluders[vidx(cs, p.1, p.0, p.2)]
}

pub open spec fn count(b: bool) -> int {
    if b {
        1
    } else {
        0
    }
}

/// AO level of vertex `i` of face `f` at `base`: 0 when both sides
/// occlude, else three minus the occluding sides and corner.
pub open spec fn vertex_ao(cs: int, occluders: Seq<bool>, f: int, base: (int, int, int), i: int) -> int {
    let s1 = occ_at(cs, occluders, add3(base, ao_offset(f, i, 0)));
    let s2 = occ_at(cs, occluders, add3(base, ao_offset(f, i, 1)));
    let c = occ_at(cs, occluders, add3(base, ao_offset(f, i, 2)));
    level(s1, s2, c)
}

/// The four vertex levels, first vertex in the two high bits.
pub open spec fn packed_ao(cs: int, occluders: Seq<bool>, f: int, base: (int, int, int)) -> int {
    64 * vertex_ao(cs, occluders, f, base, 0) + 16 * vertex_ao(cs, occluders, f, base, 1) + 4
        * vertex_ao(cs, occluders, f, base, 2) + vertex_ao(cs, occluders, f, base, 3)
}

/// The voxel in front of face cell `(l, r, k)` of face `f`, in the
/// coordinates the occluder array is indexed by: the cell's padded voxel
/// `(a, b, c)` (index `(a * p + b) * p + c`) sits at `(c, b, a)`, so that
/// faces 0 and 1 look along `z`, faces 2 and 3 along `y`, and faces 4 and 5
/// along `x`.
pub open spec fn ao_base(f: int, l: int, r: int, k: int) -> (int, int, int) {
    let p = if f < 2 {
        spec_axis_to_xyz(0, k + 1, r + 1, l + 1)
    } else if f < 4 {
        spec_axis_to_xyz(1, r + 1, k + 1, l + 1)
    } else {
        spec_axis_to_xyz(2, r + 1, l + 1, k)
    };
    add3(p, normal(f))
}

/// The packed AO of face cell `(l, r, k)` of face `f`.
pub open spec fn cell_ao(cs: int, occluders: Seq<bool>, f: int, l: int, r: int, k: int) -> int {
    packed_ao(cs, occluders, f, ao_base(f, l, r, k))
}

/// Where the AO of face cell `(l, r, k)` is kept; faces 4 and 5 number
/// their bits from 1.
pub open spec fn ao_index(cs: int, f: int, l: int, r: int, k: int) -> int {
    f * (cs * cs) * cs + (l * cs + r) * cs + (if f < 4 { k } else { k - 1 })
}

/// The column of face cell bit `k` in the AO grid.
pub open spec fn ao_col(f: int, k: int) -> int {
    if f < 4 {
        k
    } else {
        k - 1
    }
}

pub proof fn lemma_ao_index(cs: int, f: int, l: int, r: int, k: int)
    requires
        0 <= f < 6,
        0 <= l < cs,
        0 <= r < cs,
        0 <= ao_col(f, k) < cs,
    ensures
        0 <= ao_index(cs, f, l, r, k) < 6 * (cs * cs) * cs,
        ao_index(cs, f, l, r, k) == midx(cs, f, l, r) * cs + ao_col(f, k),
{
    let c = ao_col(f, k);
    lemma_midx_bounds(cs, f, l, r);
    assert(ao_index(cs, f, l, r, k) == midx(cs, f, l, r) * cs + c) by (nonlinear_arith)
        requires
            c == ao_col(f, k),
            ao_index(cs, f, l, r, k) == f * (cs * cs) * cs + (l * cs + r) * cs + c,
            midx(cs, f, l, r) == f * (cs * cs) + l * cs + r;
    assert(0 <= midx(cs, f, l, r) * cs + c < 6 * (cs * cs) * cs) by (nonlinear_arith)
        requires 0 <= midx(cs, f, l, r) < 6 * (cs * cs), 0 <= c < cs;
}

pub proof fn lemma_ao_index_injective(cs: int, f: int, l: int, r: int, k: int, f2: int, l2: int, r2: int, k2: int)
    requires
        0 <= f < 6, 0 <= l < cs, 0 <= r < cs, 0 <= ao_col(f, k) < cs,
        0 <= f2 < 6, 0 <= l2 < cs, 0 <= r2 < cs, 0 <= ao_col(f2, k2) < cs,
        ao_index(cs, f, l, r, k) == ao_index(cs, f2, l2, r2, k2),
    ensures
        f == f2 && l == l2 && r == r2 && k == k2,
{
    lemma_ao_index(cs, f, l, r, k);
    lemma_ao_index(cs, f2, l2, r2, k2);
    let m1 = midx(cs, f, l, r);
    let m2 = midx(cs, f2, l2, r2);
    let c1 = ao_col(f, k);
    let c2 = ao_col(f2, k2);
    assert(m1 == m2 && c1 == c2) by (nonlinear_arith)
        requires m1 * cs + c1 == m2 * cs + c2, 0 <= c1 < cs, 0 <= c2 < cs;
    super::geometry::lemma_midx_injective(cs, f, l, r, f2, l2, r2);
}

/// The marked cells of rows before `(f, l, r)`, and the cells of that row
/// outside `rest`, carry their AO.
pub open spec fn ao_done(cs: int, masks: Seq<u64>, ao: Seq<u8>, occluders: Seq<bool>, f0: int, l0: int,
    r0: int, rest: u64) -> bool {
    forall|f: int, l: int, r: int, k: int|
        0 <= f < 6 && 0 <= l < cs && 0 <= r < cs && 0 <= ao_col(f, k) < cs && #[trigger] mask_bit(cs, masks, f, l, r, k)
            && (f < f0 || (f == f0 && l < l0) || (f == f0 && l == l0 && r < r0) || (f == f0 && l == l0
            && r == r0 && !bit(rest, k))) ==> ao[ao_index(cs, f, l, r, k)] == cell_ao(cs, occluders, f, l, r, k)
}

impl<const CS: usize> GreedyMesher<CS> {
    /// Stores the packed AO of every marked face cell.
    pub(super) fn compute_ao(&mut self, occluders: &[bool])
        requires
            old(self).wf(),
            CS <= 63,
            occluders@.len() >= pad(CS as int) * pad(CS as int) * pad(CS as int),
        ensures
            final(self).wf(),
            final(self).quads == old(self).quads,
            final(self).face_masks == old(self).face_masks,
            forall|f: int, l: int, r: int, k: int|
                0 <= f < 6 && 0 <= l < CS && 0 <= r < CS && #[trigger] mask_bit(CS as int, final(self).face_masks@, f, l, r, k)
                    ==> final(self).ao_faces@[ao_index(CS as int, f, l, r, k)] == cell_ao(CS as int, occluders@, f, l, r, k),
    {
        let ghost n = CS as int;
        proof {
            lemma_max_bits();
        }
        let mut face: usize = 0;
        while face < 6
            invariant
                n == CS as int,
                CS <= 63,
                face <= 6,
                occluders@.len() >= pad(n) * pad(n) * pad(n),
                self.wf(),
                self.quads == old(self).quads,
                self.face_masks == old(self).face_masks,
                ao_done(n, self.face_masks@, self.ao_faces@, occluders@, face as int, 0, 0, u64::MAX),
            decreases 6 - face,
        {
            let mut layer: usize = 0;
            while layer < CS
                invariant
                    n == CS as int,
                    CS <= 63,
                    face < 6,
                    layer <= CS,
                    occluders@.len() >= pad(n) * pad(n) * pad(n),
                    self.wf(),
                    self.quads == old(self).quads,
                    self.face_masks == old(self).face_masks,
                    ao_done(n, self.face_masks@, self.ao_faces@, occluders@, face as int, layer as int, 0, u64::MAX),
                decreases CS - layer,
            {
                let mut row: usize = 0;
                while row < CS
                    invariant
                        n == CS as int,
                        CS <= 63,
                        face < 6,
                        layer < CS,
                        row <= CS,
                        occluders@.len() >= pad(n) * pad(n) * pad(n),
                        self.wf(),
                        self.quads == old(self).quads,
                        self.face_masks == old(self).face_masks,
                        ao_done(n, self.face_masks@, self.ao_faces@, occluders@, face as int, layer as int, row as int, u64::MAX),
                    decreases CS - row,
                {
                    self.ao_row(occluders, face, layer, row);
                    row += 1;
                }
                proof {
                    lemma_ao_done_next_layer(n, self.face_masks@, self.ao_faces@, occluders@, face as int, layer as int);
                }
                layer += 1;
            }
            proof {
                lemma_ao_done_next_face(n, self.face_masks@, self.ao_faces@, occluders@, face as int);
            }
            face += 1;
        }
    }

    /// Stores the AO of the marked cells of one row mask.
    fn ao_row(&mut self, occluders: &[bool], face: usize, layer: usize, row: usize)
        requires
            old(self).wf(),
            CS <= 63,
            face < 6,
            layer < CS,
            row < CS,
            occluders@.len() >= pad(CS as int) * pad(CS as int) * pad(CS as int),
            ao_done(CS as int, old(self).face_masks@, old(self).ao_faces@, occluders@, face as int, layer as int, row as int, u64::MAX),
        ensures
            final(self).wf(),
            final(self).quads == old(self).quads,
            final(self).face_masks == old(self).face_masks,
            ao_done(CS as int, final(self).face_masks@, final(self).ao_faces@, occluders@, face as int, layer as int,
                row + 1, u64::MAX),
    {
        let ghost n = CS as int;
        proof {
            assert(CS * CS <= 63 * 63) by (nonlinear_arith) requires CS <= 63;
        }
        let cs_2 = CS * CS;
        proof {
            lemma_midx_bounds(n, face as int, layer as int, row as int);
            assert(cs_2 * 6 <= 63 * 63 * 6) by (nonlinear_arith) requires cs_2 == CS * CS, CS <= 63;
            assert(face * cs_2 + layer * CS + row == midx(n, face as int, layer as int, row as int));
        }
        let mask_idx = row + layer * CS + face * cs_2;
        let bits = self.face_masks[mask_idx];
        let mut remaining = bits;
        while remaining != 0
            invariant
                n == CS as int,
                CS <= 63,
                face < 6,
                layer < CS,
                row < CS,
                cs_2 == n * n,
                mask_idx == midx(n, face as int, layer as int, row as int),
                bits == self.face_masks@[mask_idx as int],
                occluders@.len() >= pad(n) * pad(n) * pad(n),
                self.wf(),
                self.quads == old(self).quads,
                self.face_masks == old(self).face_masks,
                forall|k: int| #[trigger] bit(remaining, k) ==> bit(bits, k),
                ao_done(n, self.face_masks@, self.ao_faces@, occluders@, face as int, layer as int, row as int, remaining),
            decreases remaining,
        {
            proof {
                lemma_lowest_bit(remaining);
            }
            let bit_pos = remaining.trailing_zeros() as usize;
            proof {
                lemma_clear_one(remaining, bit_pos as u64);
                assert(bit(bits, bit_pos as int));
                assert(mask_bit(n, self.face_masks@, face as int, layer as int, row as int, bit_pos as int));
                assert(super::geometry::bit_in_range(n, face as int, bit_pos as int));
                assert(remaining & !(1u64 << bit_pos as u64) < remaining) by (bit_vector)
                    requires bit_pos < 64, (remaining >> bit_pos as u64) & 1u64 == 1u64;
            }
            remaining = remaining & !(1u64 << bit_pos as u64);
            let ao = if face < 2 {
                let (x, y, z) = axis_to_xyz(0, bit_pos + 1, row + 1, layer + 1);
                cell_vertex_ao::<CS>(face as u8, x, y, z, occluders)
            } else if face < 4 {
                let (x, y, z) = axis_to_xyz(1, row + 1, bit_pos + 1, layer + 1);
                cell_vertex_ao::<CS>(face as u8, x, y, z, occluders)
            } else {
                let (x, y, z) = axis_to_xyz(2, row + 1, layer + 1, bit_pos);
                cell_vertex_ao::<CS>(face as u8, x, y, z, occluders)
            };
            let col = if face < 4 { bit_pos } else { bit_pos - 1 };
            proof {
                lemma_ao_index(n, face as int, layer as int, row as int, bit_pos as int);
                assert(face * cs_2 * CS + (layer * CS + row) * CS + col == ao_index(n, face as int,
                    layer as int, row as int, bit_pos as int)) by (nonlinear_arith)
                    requires
                        cs_2 == n * n,
                        n == CS,
                        col == ao_col(face as int, bit_pos as int),
                        ao_index(n, face as int, layer as int, row as int, bit_pos as int)
                            == face * (n * n) * n + (layer * n + row) * n + ao_col(face as int, bit_pos as int);
                assert(face * cs_2 * CS + (layer * CS + row) * CS + col < 6 * 63 * 63 * 63) by (nonlinear_arith)
                    requires
                        face < 6, cs_2 == CS * CS, layer < CS, row < CS, col < CS, CS <= 63;
            }
            let ao_idx = face * cs_2 * CS + (layer * CS + row) * CS + col;
            let ghost old_ao = self.ao_faces@;
            self.ao_faces.set(ao_idx, ao);
            proof {
                assert forall|f: int, l: int, r: int, k: int|
                    0 <= f < 6 && 0 <= l < n && 0 <= r < n && 0 <= ao_col(f, k) < n && #[trigger] mask_bit(n, self.face_masks@, f, l, r, k)
                        && (f < face || (f == face && l < layer) || (f == face && l == layer && r < row) || (f == face && l == layer
                        && r == row && !bit(remaining, k)))
                    implies self.ao_faces@[ao_index(n, f, l, r, k)] == cell_ao(n, occluders@, f, l, r, k) by {
                    lemma_ao_index(n, f, l, r, k);
                    if ao_index(n, f, l, r, k) == ao_idx {
                        lemma_ao_index_injective(n, f, l, r, k, face as int, layer as int, row as int, bit_pos as int);
                    } else {
                        assert(self.ao_faces@[ao_index(n, f, l, r, k)] == old_ao[ao_index(n, f, l, r, k)]);
                    }
                }
            }
        }
        proof {
            lemma_zero_iff_no_bits(remaining);
            lemma_max_bits();
            assert forall|f: int, l: int, r: int, k: int|
                0 <= f < 6 && 0 <= l < n && 0 <= r < n && 0 <= ao_col(f, k) < n && #[trigger] mask_bit(n, self.face_masks@, f, l, r, k)
                    && (f < face || (f == face && l < layer) || (f == face && l == layer && r < row + 1) || (f == face
                    && l == layer && r == row + 1 && !bit(u64::MAX, k)))
                implies self.ao_faces@[ao_index(n, f, l, r, k)] == cell_ao(n, occluders@, f, l, r, k) by {
                if f == face && l == layer && r == row {
                    assert(!bit(remaining, k));
                }
            }
        }
    }
}

pub proof fn lemma_max_bits()
    ensures
        forall|k: int| 0 <= k < 64 ==> #[trigger] bit(u64::MAX, k),
{
    assert forall|k: int| 0 <= k < 64 implies #[trigger] bit(u64::MAX, k) by {
        let kk = k as u64;
        assert(kk < 64 ==> (0xffff_ffff_ffff_ffffu64 >> kk) & 1u64 == 1u64) by (bit_vector);
    }
}

proof fn lemma_ao_done_next_layer(cs: int, masks: Seq<u64>, ao: Seq<u8>, occluders: Seq<bool>, f0: int, l0: int)
    requires
        ao_done(cs, masks, ao, occluders, f0, l0, cs, u64::MAX),
    ensures
        ao_done(cs, masks, ao, occluders, f0, l0 + 1, 0, u64::MAX),
{
    lemma_max_bits();
}

proof fn lemma_ao_done_next_face(cs: int, masks: Seq<u64>, ao: Seq<u8>, occluders: Seq<bool>, f0: int)
    requires
        ao_done(cs, masks, ao, occluders, f0, cs, 0, u64::MAX),
    ensures
        ao_done(cs, masks, ao, occluders, f0 + 1, 0, 0, u64::MAX),
{
    lemma_max_bits();
}

/// `axis_to_xyz` permutes the mask coordinates into chunk coordinates.
fn axis_to_xyz(axis: usize, a: usize, b: usize, c: usize) -> (r: (usize, usize, usize))
    ensures
        (r.0 as int, r.1 as int, r.2 as int) == spec_axis_to_xyz(axis as int, a as int, b as int, c as int),
{
    if axis == 0 {
        (a, b, c)
    } else if axis == 1 {
        (b, c, a)
    } else {
        (c, a, b)
    }
}

fn face_normal(face: u8) -> (r: (i32, i32, i32))
    requires
        face < 6,
    ensures
        (r.0 as int, r.1 as int, r.2 as int) == normal(face as int),
{
    if face == 0 {
        (0, 0, 1)
    } else if face == 1 {
        (0, 0, -1)
    } else if face == 2 {
        (0, 1, 0)
    } else if face == 3 {
        (0, -1, 0)
    } else if face == 4 {
        (1, 0, 0)
    } else {
        (-1, 0, 0)
    }
}

/// The side, side and corner offsets of each vertex of face `face`.
fn face_ao_neighbors(face: u8) -> (r: [[[i32; 3]; 3]; 4])
    requires
        face < 6,
    ensures
        forall|i: int, j: int|
            0 <= i < 4 && 0 <= j < 3 ==> (r[i][j][0] as int, r[i][j][1] as int, r[i][j][2] as int)
                == #[trigger] ao_offset(face as int, i, j),
        forall|i: int, j: int, d: int| 0 <= i < 4 && 0 <= j < 3 && 0 <= d < 3 ==> -1 <= #[trigger] r[i][j][d] <= 1,
{
    let r = if face == 0 || face == 1 {
        [
            [[-1, 0, 0], [0, -1, 0], [-1, -1, 0]],
            [[1, 0, 0], [0, -1, 0], [1, -1, 0]],
            [[1, 0, 0], [0, 1, 0], [1, 1, 0]],
            [[-1, 0, 0], [0, 1, 0], [-1, 1, 0]],
        ]
    } else if face == 2 {
        [
            [[-1, 0, 0], [0, 0, -1], [-1, 0, -1]],
            [[1, 0, 0], [0, 0, -1], [1, 0, -1]],
            [[1, 0, 0], [0, 0, 1], [1, 0, 1]],
            [[-1, 0, 0], [0, 0, 1], [-1, 0, 1]],
        ]
    } else if face == 3 {
        [
            [[-1, 0, 0], [0, 0, 1], [-1, 0, 1]],
            [[1, 0, 0], [0, 0, 1], [1, 0, 1]],
            [[1, 0, 0], [0, 0, -1], [1, 0, -1]],
            [[-1, 0, 0], [0, 0, -1], [-1, 0, -1]],
        ]
    } else if face == 4 {
        [
            [[0, -1, 0], [0, 0, -1], [0, -1, -1]],
            [[0, 1, 0], [0, 0, -1], [0, 1, -1]],
            [[0, 1, 0], [0, 0, 1], [0, 1, 1]],
            [[0, -1, 0], [0, 0, 1], [0, -1, 1]],
        ]
    } else {
        [
            [[0, 1, 0], [0, 0, -1], [0, 1, -1]],
            [[0, -1, 0], [0, 0, -1], [0, -1, -1]],
            [[0, -1, 0], [0, 0, 1], [0, -1, 1]],
            [[0, 1, 0], [0, 0, 1], [0, 1, 1]],
        ]
    };
    proof {
        assert forall|i: int, j: int| 0 <= i < 4 && 0 <= j < 3 implies (r[i][j][0] as int, r[i][j][1] as int,
            r[i][j][2] as int) == #[trigger] ao_offset(face as int, i, j) by {
            assert(i == 0 || i == 1 || i == 2 || i == 3);
            assert(j == 0 || j == 1 || j == 2);
        }
        assert forall|i: int, j: int, d: int| 0 <= i < 4 && 0 <= j < 3 && 0 <= d < 3 implies -1 <= #[trigger] r[i][j][d]
            <= 1 by {
            assert(i == 0 || i == 1 || i == 2 || i == 3);
            assert(j == 0 || j == 1 || j == 2);
            assert(d == 0 || d == 1 || d == 2);
        }
    }
    r
}

/// Whether the voxel at `(x, y, z)` occludes; outside the padded chunk
/// nothing does.
fn occ<const CS: usize>(occluders: &[bool], x: i32, y: i32, z: i32) -> (r: bool)
    requires
        CS <= 63,
        occluders@.len() >= pad(CS as int) * pad(CS as int) * pad(CS as int),
    ensures
        r == occ_at(CS as int, occluders@, (x as int, y as int, z as int)),
{
    if x < 0 || y < 0 || z < 0 {
        return false;
    }
    let cs_p = CS + 2;
    let (x, y, z) = (x as usize, y as usize, z as usize);
    if x >= cs_p || y >= cs_p || z >= cs_p {
        return false;
    }
    proof {
        lemma_vidx_bounds(CS as int, y as int, x as int, z as int);
        assert(y * cs_p <= 65 * 65) by (nonlinear_arith)
            requires y < cs_p, cs_p <= 65;
        assert(y * cs_p + x < cs_p * cs_p) by (nonlinear_arith)
            requires y < cs_p, x < cs_p;
        assert((y * cs_p + x) * cs_p <= 65 * 65 * 65) by (nonlinear_arith)
            requires y * cs_p + x < cs_p * cs_p, cs_p <= 65;
    }
    occluders[(y * cs_p + x) * cs_p + z]
}

/// AO level of a vertex from whether its two sides and its corner
/// occlude: 0 when both sides do, else three minus the occluders.
pub open spec fn level(s1: bool, s2: bool, c: bool) -> int {
    if s1 && s2 {
        0
    } else {
        3 - (count(s1) + count(s2) + count(c))
    }
}

/// The level of vertex `i` from the answers `obs`, three per vertex: side,
/// side, corner.
pub open spec fn obs_level(obs: Seq<bool>, i: int) -> int {
    level(obs[3 * i], obs[3 * i + 1], obs[3 * i + 2])
}

/// The four levels packed, first vertex in the two high bits.
pub open spec fn packed_obs(obs: Seq<bool>) -> int {
    64 * obs_level(obs, 0) + 16 * obs_level(obs, 1) + 4 * obs_level(obs, 2) + obs_level(obs, 3)
}

/// The levels of vertices `0..i`, packed.
pub open spec fn obs_prefix(obs: Seq<bool>, i: int) -> int {
    if i <= 0 {
        0
    } else if i == 1 {
        64 * obs_level(obs, 0)
    } else if i == 2 {
        64 * obs_level(obs, 0) + 16 * obs_level(obs, 1)
    } else if i == 3 {
        64 * obs_level(obs, 0) + 16 * obs_level(obs, 1) + 4 * obs_level(obs, 2)
    } else {
        packed_obs(obs)
    }
}

/// The voxel asked about in the `k`-th occluder query for a face whose
/// front voxel is `fv`: neighbour `k % 3` of vertex `k / 3`.
pub open spec fn probe(f: int, fv: (i32, i32, i32), k: int) -> (i32, i32, i32) {
    let o = ao_offset(f, k / 3, k % 3);
    ((fv.0 + o.0) as i32, (fv.1 + o.1) as i32, (fv.2 + o.2) as i32)
}

proof fn lemma_level_range(s1: bool, s2: bool, c: bool)
    ensures
        0 <= level(s1, s2, c) <= 3,
{
}

/// The packed AO of the four vertices of a face whose front voxel is
/// `(fx, fy, fz)`, asking `occ` whether each side and corner voxel
/// occludes; first vertex in the two high bits.
#[verifier::spinoff_prover]
#[verifier::rlimit(40)]
pub fn compute_vertex_ao_packed<F: Fn(i32, i32, i32) -> bool>(face: u8, fx: i32, fy: i32, fz: i32, occ: &F) -> (r: u8)
    requires
        face < 6,
        i32::MIN < fx < i32::MAX,
        i32::MIN < fy < i32::MAX,
        i32::MIN < fz < i32::MAX,
        forall|a: i32, b: i32, c: i32| call_requires(*occ, (a, b, c)),
    ensures
        exists|obs: Seq<bool>|
            obs.len() == 12 && (forall|k: int| 0 <= k < 12 ==> call_ensures(*occ, probe(face as int, (fx, fy, fz), k),
                #[trigger] obs[k])) && r as int == packed_obs(obs),
{
    let ghost fv = (fx, fy, fz);
    let neighbors = face_ao_neighbors(face);
    let mut packed = 0u8;
    let ghost mut obs: Seq<bool> = Seq::empty();
    let mut i: usize = 0;
    while i < 4
        invariant
            face < 6,
            i <= 4,
            fv == (fx, fy, fz),
            i32::MIN < fx < i32::MAX,
            i32::MIN < fy < i32::MAX,
            i32::MIN < fz < i32::MAX,
            forall|a: i32, b: i32, c: i32| call_requires(*occ, (a, b, c)),
            forall|i: int, j: int|
                0 <= i < 4 && 0 <= j < 3 ==> (neighbors[i][j][0] as int, neighbors[i][j][1] as int,
                    neighbors[i][j][2] as int) == #[trigger] ao_offset(face as int, i, j),
            forall|i: int, j: int, d: int|
                0 <= i < 4 && 0 <= j < 3 && 0 <= d < 3 ==> -1 <= #[trigger] neighbors[i][j][d] <= 1,
            obs.len() == 3 * i,
            forall|k: int| 0 <= k < 3 * i ==> call_ensures(*occ, probe(face as int, fv, k), #[trigger] obs[k]),
            packed as int == obs_prefix(obs, i as int),
        decreases 4 - i,
    {
        let s1 = neighbors[i][0];
        let s2 = neighbors[i][1];
        let c = neighbors[i][2];
        proof {
            assert(-1 <= neighbors[i as int][0][0] <= 1 && -1 <= neighbors[i as int][0][1] <= 1 && -1
                <= neighbors[i as int][0][2] <= 1);
            assert(-1 <= neighbors[i as int][1][0] <= 1 && -1 <= neighbors[i as int][1][1] <= 1 && -1
                <= neighbors[i as int][1][2] <= 1);
            assert(-1 <= neighbors[i as int][2][0] <= 1 && -1 <= neighbors[i as int][2][1] <= 1 && -1
                <= neighbors[i as int][2][2] <= 1);
            assert((s1[0] as int, s1[1] as int, s1[2] as int) == ao_offset(face as int, i as int, 0));
            assert((s2[0] as int, s2[1] as int, s2[2] as int) == ao_offset(face as int, i as int, 1));
            assert((c[0] as int, c[1] as int, c[2] as int) == ao_offset(face as int, i as int, 2));
            assert((3 * i) / 3 == i && (3 * i) % 3 == 0);
            assert((3 * i + 1) / 3 == i && (3 * i + 1) % 3 == 1);
            assert((3 * i + 2) / 3 == i && (3 * i + 2) % 3 == 2);
        }
        let ghost before = obs;
        let o1 = occ(fx + s1[0], fy + s1[1], fz + s1[2]);
        proof {
            obs = obs.push(o1);
        }
        let o2 = occ(fx + s2[0], fy + s2[1], fz + s2[2]);
        proof {
            obs = obs.push(o2);
        }
        let o3 = occ(fx + c[0], fy + c[1], fz + c[2]);
        proof {
            obs = obs.push(o3);
        }
        let side1: u8 = if o1 { 1 } else { 0 };
        let side2: u8 = if o2 { 1 } else { 0 };
        let corner: u8 = if o3 { 1 } else { 0 };
        let ao: u8 = if side1 == 1 && side2 == 1 { 0 } else { 3 - (side1 + side2 + corner) };
        proof {
            assert(obs[3 * i as int] == o1 && obs[3 * i + 1] == o2 && obs[3 * i + 2] == o3);
            assert(ao as int == obs_level(obs, i as int));
            lemma_level_range(obs[0], obs[1], obs[2]);
            lemma_level_range(obs[3], obs[4], obs[5]);
            lemma_level_range(obs[6], obs[7], obs[8]);
            assert(obs_prefix(obs, i as int) == obs_prefix(before, i as int));
            lemma_obs_prefix_low_zero(obs, i as int);
            lemma_or_at(packed, ao, i as u8);
        }
        packed = packed | (ao << (6 - i * 2) as u8);
        i += 1;
    }
    packed
}

proof fn lemma_obs_prefix_low_zero(obs: Seq<bool>, i: int)
    requires
        0 <= i < 4,
        obs.len() >= 3 * i,
    ensures
        i == 0 ==> obs_prefix(obs, i) == 0,
        i == 1 ==> obs_prefix(obs, i) % 64 == 0,
        i == 2 ==> obs_prefix(obs, i) % 16 == 0,
        i == 3 ==> obs_prefix(obs, i) % 4 == 0,
        0 <= obs_prefix(obs, i) < 256,
{
    let a0 = if i >= 1 { obs_level(obs, 0) } else { 0 };
    let a1 = if i >= 2 { obs_level(obs, 1) } else { 0 };
    let a2 = if i >= 3 { obs_level(obs, 2) } else { 0 };
    if i >= 1 {
        lemma_level_range(obs[0], obs[1], obs[2]);
    }
    if i >= 2 {
        lemma_level_range(obs[3], obs[4], obs[5]);
    }
    if i >= 3 {
        lemma_level_range(obs[6], obs[7], obs[8]);
    }
    if i == 1 {
        assert((a0 * 64) % 64 == 0) by (nonlinear_arith);
    } else if i == 2 {
        assert((a0 * 64 + a1 * 16) % 16 == 0) by (nonlinear_arith);
    } else if i == 3 {
        assert((a0 * 64 + a1 * 16 + a2 * 4) % 4 == 0) by (nonlinear_arith);
    }
}

/// The packed AO of the face of cell voxel `(x, y, z)` facing `face`, read
/// from the occluder grid.
fn cell_vertex_ao<const CS: usize>(face: u8, x: usize, y: usize, z: usize, occluders: &[bool]) -> (r: u8)
    requires
        face < 6,
        CS <= 63,
        x <= 65 && y <= 65 && z <= 65,
        occluders@.len() >= pad(CS as int) * pad(CS as int) * pad(CS as int),
    ensures
        r as int == packed_ao(CS as int, occluders@, face as int, add3((x as int, y as int, z as int), normal(face as int))),
{
    let (nx, ny, nz) = face_normal(face);
    let fx = x as i32 + nx;
    let fy = y as i32 + ny;
    let fz = z as i32 + nz;
    let ghost base = (fx as int, fy as int, fz as int);
    let ask = |a: i32, b: i32, c: i32| -> (o: bool)
        requires
            CS <= 63,
            occluders@.len() >= pad(CS as int) * pad(CS as int) * pad(CS as int),
        ensures
            o == occ_at(CS as int, occluders@, (a as int, b as int, c as int)),
        { occ::<CS>(occluders, a, b, c) };
    let r = compute_vertex_ao_packed(face, fx, fy, fz, &ask);
    proof {
        let obs = choose|obs: Seq<bool>|
            obs.len() == 12 && (forall|k: int| 0 <= k < 12 ==> call_ensures(ask, probe(face as int, (fx, fy, fz), k),
                #[trigger] obs[k])) && r as int == packed_obs(obs);
        assert forall|i: int, j: int| 0 <= i < 4 && 0 <= j < 3 implies obs[3 * i + j] == occ_at(CS as int, occluders@,
            add3(base, #[trigger] ao_offset(face as int, i, j))) by {
            let k = 3 * i + j;
            assert(k / 3 == i && k % 3 == j);
            assert(call_ensures(ask, probe(face as int, (fx, fy, fz), k), obs[k]));
            lemma_offset_range(face as int, i, j);
        }
        assert(obs_level(obs, 0) == vertex_ao(CS as int, occluders@, face as int, base, 0)) by {
            assert(ao_offset(face as int, 0, 0) == ao_offset(face as int, 0, 0));
            assert(obs[0] == occ_at(CS as int, occluders@, add3(base, ao_offset(face as int, 0, 0))));
            assert(obs[1] == occ_at(CS as int, occluders@, add3(base, ao_offset(face as int, 0, 1))));
            assert(obs[2] == occ_at(CS as int, occluders@, add3(base, ao_offset(face as int, 0, 2))));
        }
        assert(obs_level(obs, 1) == vertex_ao(CS as int, occluders@, face as int, base, 1)) by {
            assert(obs[3] == occ_at(CS as int, occluders@, add3(base, ao_offset(face as int, 1, 0))));
            assert(obs[4] == occ_at(CS as int, occluders@, add3(base, ao_offset(face as int, 1, 1))));
            assert(obs[5] == occ_at(CS as int, occluders@, add3(base, ao_offset(face as int, 1, 2))));
        }
        assert(obs_level(obs, 2) == vertex_ao(CS as int, occluders@, face as int, base, 2)) by {
            assert(obs[6] == occ_at(CS as int, occluders@, add3(base, ao_offset(face as int, 2, 0))));
            assert(obs[7] == occ_at(CS as int, occluders@, add3(base, ao_offset(face as int, 2, 1))));
            assert(obs[8] == occ_at(CS as int, occluders@, add3(base, ao_offset(face as int, 2, 2))));
        }
        assert(obs_level(obs, 3) == vertex_ao(CS as int, occluders@, face as int, base, 3)) by {
            assert(obs[9] == occ_at(CS as int, occluders@, add3(base, ao_offset(face as int, 3, 0))));
            assert(obs[10] == occ_at(CS as int, occluders@, add3(base, ao_offset(face as int, 3, 1))));
            assert(obs[11] == occ_at(CS as int, occluders@, add3(base, ao_offset(face as int, 3, 2))));
        }
    }
    r
}

/// Every neighbour offset is -1, 0 or 1 along each axis.
proof fn lemma_offset_range(f: int, i: int, j: int)
    ensures
        -1 <= ao_offset(f, i, j).0 <= 1,
        -1 <= ao_offset(f, i, j).1 <= 1,
        -1 <= ao_offset(f, i, j).2 <= 1,
{
}

pub proof fn lemma_vertex_ao_range(cs: int, occluders: Seq<bool>, f: int, base: (int, int, int), i: int)
    ensures
        0 <= vertex_ao(cs, occluders, f, base, i) <= 3,
{
}

/// Each vertex's level stands in two bits of its own in the packed AO:
/// vertex `i`, from the answers to its side, side and corner queries, in
/// the bits worth `4^(3 - i)` and twice that.
pub proof fn law_packed_ao_levels(obs: Seq<bool>, i: int)
    requires
        obs.len() == 12,
        0 <= i < 4,
    ensures
        (packed_obs(obs) / pow4(3 - i)) % 4 == obs_level(obs, i),
{
    let a = obs_level(obs, 0);
    let b = obs_level(obs, 1);
    let c = obs_level(obs, 2);
    let d = obs_level(obs, 3);
    lemma_level_range(obs[0], obs[1], obs[2]);
    lemma_level_range(obs[3], obs[4], obs[5]);
    lemma_level_range(obs[6], obs[7], obs[8]);
    lemma_level_range(obs[9], obs[10], obs[11]);
    let p = packed_obs(obs);
    assert(p == 64 * a + 16 * b + 4 * c + d);
    if i == 0 {
        assert((p / 64) % 4 == a) by (nonlinear_arith)
            requires p == 64 * a + 16 * b + 4 * c + d, 0 <= a <= 3, 0 <= b <= 3, 0 <= c <= 3, 0 <= d <= 3;
    } else if i == 1 {
        assert((p / 16) % 4 == b) by (nonlinear_arith)
            requires p == 64 * a + 16 * b + 4 * c + d, 0 <= a <= 3, 0 <= b <= 3, 0 <= c <= 3, 0 <= d <= 3;
    } else if i == 2 {
        assert((p / 4) % 4 == c) by (nonlinear_arith)
            requires p == 64 * a + 16 * b + 4 * c + d, 0 <= a <= 3, 0 <= b <= 3, 0 <= c <= 3, 0 <= d <= 3;
    } else {
        assert((p / 1) % 4 == d) by (nonlinear_arith)
            requires p == 64 * a + 16 * b + 4 * c + d, 0 <= a <= 3, 0 <= b <= 3, 0 <= c <= 3, 0 <= d <= 3;
    }
}

pub open spec fn pow4(e: int) -> int {
    if e == 0 {
        1
    } else if e == 1 {
        4
    } else if e == 2 {
        16
    } else {
        64
    }
}

proof fn lemma_or_at(p: u8, ao: u8, i: u8)
    requires
        i < 4,
        ao <= 3,
        i == 0 ==> p == 0,
        i == 1 ==> p % 64 == 0,
        i == 2 ==> p % 16 == 0,
        i == 3 ==> p % 4 == 0,
    ensures
        (p | (ao << (6 - i * 2) as u8)) as int == p + ao * pow4(3 - i),
{
    if i == 0 {
        assert(p == 0 && ao <= 3 ==> (p | (ao << 6u8)) == ao * 64) by (bit_vector);
    } else if i == 1 {
        assert(p % 64 == 0 && ao <= 3 ==> (p | (ao << 4u8)) == p + ao * 16) by (bit_vector);
    } else if i == 2 {
        assert(p % 16 == 0 && ao <= 3 ==> (p | (ao << 2u8)) == p + ao * 4) by (bit_vector);
    } else {
        assert(p % 4 == 0 && ao <= 3 ==> (p | (ao << 0u8)) == p + ao) by (bit_vector);
    }
}

} // verus!
