//! Greedy meshing of a padded voxel chunk into merged quads.
use vstd::prelude::*;

pub mod ao;
pub mod cull;
pub mod merge;
pub mod geometry;

use std::collections::BTreeSet;

use crate::bitmask::bit;
use ao::{ao_index, cell_ao};
use geometry::{bit_in_range, exposed, lemma_midx_bounds, mask_bit, midx, pad};
use merge::{covers, emitted_in_order, extends, face_cols, face_merged, face_rows, face_type, forward_next, in_grid, merge_shape, stops_forward, zeros};

verus! {

/// The six low bits of a packed field.
pub const MASK_6: u64 = 0b111111;

/// A merged rectangle of equal faces: position, extent and voxel id packed
/// into one word (`x | y << 6 | z << 12 | w << 18 | h << 24 | id << 32`),
/// plus the four per-vertex AO levels packed two bits each.
#[derive(Copy, Clone)]
pub struct Quad {
    packed: u64,
    pub ao: u8,
}

/// The packed word that `Quad::pack` builds from its fields.
pub open spec fn pack_word(x: u64, y: u64, z: u64, w: u64, h: u64, v_type: u64) -> u64 {
    (v_type << 32u64) | (h << 24u64) | (w << 18u64) | (z << 12u64) | (y << 6u64) | x
}

/// The quad with packed word `word` and AO bits `ao`.
pub closed spec fn quad_of(word: u64, ao: u8) -> Quad {
    Quad { packed: word, ao }
}

impl Quad {
    /// The packed position/extent/id word.
    pub closed spec fn word(self) -> u64 {
        self.packed
    }

    /// The packed per-vertex AO levels.
    pub closed spec fn ao_bits(self) -> u8 {
        self.ao
    }

    pub open spec fn spec_x(self) -> u64 {
        self.word() & MASK_6
    }

    pub open spec fn spec_y(self) -> u64 {
        (self.word() >> 6u64) & MASK_6
    }

    pub open spec fn spec_z(self) -> u64 {
        (self.word() >> 12u64) & MASK_6
    }

    pub open spec fn spec_width(self) -> u64 {
        (self.word() >> 18u64) & MASK_6
    }

    pub open spec fn spec_height(self) -> u64 {
        (self.word() >> 24u64) & MASK_6
    }

    pub open spec fn spec_voxel_id(self) -> u64 {
        (self.word() >> 32u64) & 0xffff
    }

    /// Packs a quad. Every coordinate and extent must fit in six bits and
    /// the voxel id in sixteen for the fields to read back unchanged.
    fn pack(x: usize, y: usize, z: usize, w: usize, h: usize, v_type: usize, ao: u8) -> (q: Self)
        ensures
            q.word() == pack_word(x as u64, y as u64, z as u64, w as u64, h as u64, v_type as u64),
            q.ao_bits() == ao,
            q == quad_of(pack_word(x as u64, y as u64, z as u64, w as u64, h as u64, v_type as u64), ao),
            x < 64 && y < 64 && z < 64 && w < 64 && h < 64 && v_type < 0x10000 ==> {
                &&& q.spec_x() == x
                &&& q.spec_y() == y
                &&& q.spec_z() == z
                &&& q.spec_width() == w
                &&& q.spec_height() == h
                &&& q.spec_voxel_id() == v_type
            },
    {
        let packed = ((v_type as u64) << 32u64) | ((h as u64) << 24u64) | ((w as u64) << 18u64)
            | ((z as u64) << 12u64) | ((y as u64) << 6u64) | (x as u64);
        let q = Quad { packed, ao };
        proof {
            lemma_pack_fields(x as u64, y as u64, z as u64, w as u64, h as u64, v_type as u64);
        }
        q
    }

    /// The quad's origin `[x, y, z]`.
    pub fn xyz(&self) -> (r: [u32; 3])
        ensures
            r[0] == self.spec_x(),
            r[1] == self.spec_y(),
            r[2] == self.spec_z(),
    {
        let p = self.packed;
        proof {
            assert(p & MASK_6 <= 63) by (bit_vector);
            assert((p >> 6u64) & MASK_6 <= 63) by (bit_vector);
            assert((p >> 12u64) & MASK_6 <= 63) by (bit_vector);
        }
        [(p & MASK_6) as u32, ((p >> 6u64) & MASK_6) as u32, ((p >> 12u64) & MASK_6) as u32]
    }

    pub fn width(&self) -> (r: u32)
        ensures
            r == self.spec_width(),
    {
        let p = self.packed;
        proof {
            assert((p >> 18u64) & MASK_6 <= 63) by (bit_vector);
        }
        ((p >> 18u64) & MASK_6) as u32
    }

    pub fn height(&self) -> (r: u32)
        ensures
            r == self.spec_height(),
    {
        let p = self.packed;
        proof {
            assert((p >> 24u64) & MASK_6 <= 63) by (bit_vector);
        }
        ((p >> 24u64) & MASK_6) as u32
    }

    /// The voxel id: the low sixteen bits above the extents.
    pub fn voxel_id(&self) -> (r: u16)
        ensures
            r == self.spec_voxel_id(),
    {
        let p = self.packed;
        proof {
            assert((p >> 32u64) as u16 == (p >> 32u64) & 0xffff) by (bit_vector);
        }
        (p >> 32u64) as u16
    }

    /// The four vertex AO levels, first vertex in the two high bits.
    pub fn ao_levels(&self) -> (r: [u8; 4])
        ensures
            r[0] == (self.ao_bits() >> 6u8) & 3,
            r[1] == (self.ao_bits() >> 4u8) & 3,
            r[2] == (self.ao_bits() >> 2u8) & 3,
            r[3] == self.ao_bits() & 3,
    {
        [(self.ao >> 6u8) & 3, (self.ao >> 4u8) & 3, (self.ao >> 2u8) & 3, self.ao & 3]
    }
}

/// Fields that fit their widths read back unchanged from the packed word.
pub proof fn lemma_pack_fields(x: u64, y: u64, z: u64, w: u64, h: u64, v: u64)
    ensures
        x < 64 && y < 64 && z < 64 && w < 64 && h < 64 && v < 0x10000 ==> {
            let p = pack_word(x, y, z, w, h, v);
            &&& p & MASK_6 == x
            &&& (p >> 6u64) & MASK_6 == y
            &&& (p >> 12u64) & MASK_6 == z
            &&& (p >> 18u64) & MASK_6 == w
            &&& (p >> 24u64) & MASK_6 == h
            &&& (p >> 32u64) & 0xffff == v
        },
{
    assert(x < 64 && y < 64 && z < 64 && w < 64 && h < 64 && v < 0x10000 ==> {
        let p = (v << 32u64) | (h << 24u64) | (w << 18u64) | (z << 12u64) | (y << 6u64) | x;
        &&& p & 0b111111u64 == x
        &&& (p >> 6u64) & 0b111111u64 == y
        &&& (p >> 12u64) & 0b111111u64 == z
        &&& (p >> 18u64) & 0b111111u64 == w
        &&& (p >> 24u64) & 0b111111u64 == h
        &&& (p >> 32u64) & 0xffff == v
    }) by (bit_vector);
}

/// Packing then unpacking a quad gives back its origin, extent and voxel id,
/// for every field that fits its width.
pub proof fn law_pack_unpack(x: usize, y: usize, z: usize, w: usize, h: usize, v: usize, ao: u8, q: Quad)
    requires
        x < 64, y < 64, z < 64, w < 64, h < 64, v < 0x10000,
        q.word() == pack_word(x as u64, y as u64, z as u64, w as u64, h as u64, v as u64),
    ensures
        q.spec_x() == x,
        q.spec_y() == y,
        q.spec_z() == z,
        q.spec_width() == w,
        q.spec_height() == h,
        q.spec_voxel_id() == v,
{
    lemma_pack_fields(x as u64, y as u64, z as u64, w as u64, h as u64, v as u64);
}

/// A face of a cube.
#[derive(Clone, Copy, PartialEq, Eq, Structural, Debug)]
pub enum Face {
    Up,
    Down,
    Right,
    Left,
    Front,
    Back,
}

pub open spec fn face_of_index(v: usize) -> Face {
    if v == 0 {
        Face::Up
    } else if v == 1 {
        Face::Down
    } else if v == 2 {
        Face::Right
    } else if v == 3 {
        Face::Left
    } else if v == 4 {
        Face::Front
    } else {
        Face::Back
    }
}

impl From<usize> for Face {
    /// The face at a mesher face index; any index past 4 is `Back`.
    fn from(v: usize) -> (f: Self) {
        if v == 0 {
            Face::Up
        } else if v == 1 {
            Face::Down
        } else if v == 2 {
            Face::Right
        } else if v == 3 {
            Face::Left
        } else if v == 4 {
            Face::Front
        } else {
            Face::Back
        }
    }
}

impl vstd::std_specs::convert::FromSpecImpl<usize> for Face {
    open spec fn obeys_from_spec() -> bool {
        true
    }

    open spec fn from_spec(v: usize) -> Face {
        face_of_index(v)
    }
}

pub open spec fn spec_offset(f: Face) -> (int, int, int) {
    match f {
        Face::Up => (0, 1, 0),
        Face::Down => (0, -1, 0),
        Face::Right => (1, 0, 0),
        Face::Left => (-1, 0, 0),
        Face::Front => (0, 0, 1),
        Face::Back => (0, 0, -1),
    }
}

impl Face {
    /// The unit step from a block to its neighbour across this face.
    pub fn offset(&self) -> (r: [i32; 3])
        ensures
            (r[0] as int, r[1] as int, r[2] as int) == spec_offset(*self),
    {
        match self {
            Face::Up => [0, 1, 0],
            Face::Down => [0, -1, 0],
            Face::Right => [1, 0, 0],
            Face::Left => [-1, 0, 0],
            Face::Front => [0, 0, 1],
            Face::Back => [0, 0, -1],
        }
    }
}

/// Opposite faces step in opposite directions, and every step is a unit step.
pub proof fn law_offsets_opposite(f: Face)
    ensures
        ({
            let (x, y, z) = spec_offset(f);
            let g = match f {
                Face::Up => Face::Down,
                Face::Down => Face::Up,
                Face::Right => Face::Left,
                Face::Left => Face::Right,
                Face::Front => Face::Back,
                Face::Back => Face::Front,
            };
            let (a, b, c) = spec_offset(g);
            &&& a == -x && b == -y && c == -z
            &&& x * x + y * y + z * z == 1
        }),
{
}

/// Greedy mesher for a chunk of `CS`³ voxels padded by one voxel on each side.
pub struct GreedyMesher<const CS: usize> {
    /// Quads emitted so far, one list per face index `0..6`.
    pub quads: [Vec<Quad>; 6],
    face_masks: Vec<u64>,
    ao_faces: Vec<u8>,
    forward_merged: Vec<u8>,
    right_merged: Vec<u8>,
}

impl<const CS: usize> GreedyMesher<CS> {
    /// Bit `k` of the row mask of face `f`, layer `l`, row `r`.
    pub closed spec fn mask_cell(self, f: int, l: int, r: int, k: int) -> bool {
        mask_bit(CS as int, self.face_masks@, f, l, r, k)
    }


    /// The quads emitted for face index `f`: `quads[f]`.
    pub closed spec fn face_quads(self, f: int) -> Seq<Quad> {
        self.quads[f]@
    }

    /// The quads emitted for face index `f`.
    pub fn quads_of(&self, f: usize) -> (r: &Vec<Quad>)
        requires
            f < 6,
        ensures
            r@ == self.face_quads(f as int),
    {
        &self.quads[f]
    }

    pub closed spec fn wf(self) -> bool {
        let n = CS as int;
        &&& self.face_masks@.len() == 6 * (n * n)
        &&& self.ao_faces@.len() == 6 * (n * n) * n
        &&& self.forward_merged@.len() == n * n
        &&& self.right_merged@.len() == n
        &&& forall|i: int| 0 <= i < n * n ==> self.forward_merged@[i] == 0
        &&& forall|i: int| 0 <= i < n ==> self.right_merged@[i] == 0
        &&& forall|f: int, l: int, r: int, k: int|
            0 <= f < 6 && 0 <= l < n && 0 <= r < n && #[trigger] mask_bit(n, self.face_masks@, f, l, r, k)
                ==> bit_in_range(n, f, k)
    }

    /// A mesher with no marked faces and no quads.
    pub fn new() -> (m: Self)
        requires
            (CS as int) * (CS as int) * (CS as int) * 6 <= usize::MAX,
        ensures
            m.wf(),
            forall|f: int| 0 <= f < 6 ==> (#[trigger] m.face_quads(f)).len() == 0,
            forall|f: int, l: int, r: int, k: int|
                0 <= f < 6 && 0 <= l < CS && 0 <= r < CS ==> !#[trigger] m.mask_cell(f, l, r, k),
    {
        let ghost n = CS as int;
        assert(n * n <= n * n * n * 6 && n * n * 6 <= n * n * n * 6 && n * n * 6 * n == n * n * n * 6)
            by (nonlinear_arith)
            requires n >= 0;
        let cs2 = CS * CS;
        let face_masks: Vec<u64> = vec![0u64; cs2 * 6];
        let ao_faces: Vec<u8> = vec![0u8; cs2 * 6 * CS];
        let forward_merged: Vec<u8> = vec![0u8; cs2];
        let right_merged: Vec<u8> = vec![0u8; CS];
        let m = GreedyMesher {
            face_masks,
            ao_faces,
            forward_merged,
            right_merged,
            quads: [Vec::new(), Vec::new(), Vec::new(), Vec::new(), Vec::new(), Vec::new()],
        };
        proof {
            assert forall|f: int, l: int, r: int, k: int|
                0 <= f < 6 && 0 <= l < n && 0 <= r < n implies !#[trigger] mask_bit(n, m.face_masks@, f, l, r, k) by {
                lemma_midx_bounds(n, f, l, r);
                let x = m.face_masks@[midx(n, f, l, r)];
                assert(x == 0);
                if 0 <= k < 64 {
                    let kk = k as u64;
                    assert(x == 0 ==> (x >> kk) & 1u64 == 0u64) by (bit_vector);
                }
            }
        }
        m
    }
}


impl<const CS: usize> GreedyMesher<CS> {
    /// The quads that greedy merging appends to `quads` for face `f`, from
    /// the marked cells, the voxels and the stored AO of each marked cell:
    /// on faces 0 to 3, layer by layer and row by row, a cell waits for the
    /// next row while that row's cell matches it, and a closing cell takes
    /// in the columns to its right that match it and wait on as many rows;
    /// on faces 4 and 5, row by row and column by column, a cell waits for
    /// the next row while it matches and no column run passes through it,
    /// else hands its run to the next column while that one matches with as
    /// many rows, else closes a quad.
    pub closed spec fn greedy_quads(self, voxels: Seq<u16>, f: int, quads: Seq<Quad>) -> Seq<Quad> {
        let n = CS as int;
        if f < 4 {
            face_rows(n, self.face_masks@, voxels, self.ao_faces@, f, 0, zeros(n * n), quads).1
        } else {
            face_cols(n, self.face_masks@, voxels, self.ao_faces@, f, 0, zeros(n * n), zeros(n), quads).2
        }
    }

    /// The stored AO of every marked cell is the AO of its vertices.
    pub closed spec fn ao_stored(self, occluders: Seq<bool>) -> bool {
        forall|f: int, l: int, r: int, k: int|
            0 <= f < 6 && 0 <= l < CS && 0 <= r < CS && #[trigger] mask_bit(CS as int, self.face_masks@, f, l, r, k)
                ==> self.ao_faces@[ao_index(CS as int, f, l, r, k)] == cell_ao(CS as int, occluders, f, l, r, k)
    }

    /// Merging stopped quad `q` of face `f` where it had to: the face cell
    /// past its end (`forward_next`) is outside the grid, unmarked, or of
    /// another voxel id or AO value than the quad.
    pub open spec fn stops(self, voxels: Seq<u16>, occluders: Seq<bool>, f: int, q: Quad) -> bool {
        let n = CS as int;
        match forward_next(f, q) {
            Some(c) => !(in_grid(n, f, c.0, c.1, c.2) && self.mask_cell(f, c.0, c.1, c.2) && face_type(n, voxels, f,
                c.0, c.1, c.2) == q.spec_voxel_id() && cell_ao(n, occluders, f, c.0, c.1, c.2) == q.ao_bits()),
            None => true,
        }
    }

    /// The quads of face `f` from `s0` on cover each marked cell of that face
    /// exactly once, each covers only marked cells of one voxel id and one
    /// AO value, none stops short of a row that could have joined it, and
    /// they come in the order of the cells that closed them.
    pub open spec fn meshes_face(self, voxels: Seq<u16>, occluders: Seq<bool>, f: int, s0: int) -> bool {
        let n = CS as int;
        let qs = self.face_quads(f);
        &&& 0 <= s0 <= qs.len()
        &&& forall|q: int| s0 <= q < qs.len() ==> (#[trigger] qs[q]).spec_width() >= 1 && qs[q].spec_height() >= 1
            && self.stops(voxels, occluders, f, qs[q])
        &&& emitted_in_order(f, qs, s0)
        &&& forall|l: int, r: int, k: int|
            #![trigger self.mask_cell(f, l, r, k)]
            in_grid(n, f, l, r, k) && self.mask_cell(f, l, r, k) ==> exists|q: int|
                s0 <= q < qs.len() && #[trigger] covers(f, qs[q], l, r, k)
        &&& forall|q: int, l: int, r: int, k: int|
            s0 <= q < qs.len() && #[trigger] covers(f, qs[q], l, r, k) ==> in_grid(n, f, l, r, k) && self.mask_cell(
                f,
                l,
                r,
                k,
            ) && face_type(n, voxels, f, l, r, k) == qs[q].spec_voxel_id() && cell_ao(n, occluders, f, l, r, k)
                == qs[q].ao_bits()
        &&& forall|q1: int, q2: int, l: int, r: int, k: int|
            s0 <= q1 < qs.len() && s0 <= q2 < qs.len() && #[trigger] covers(f, qs[q1], l, r, k) && #[trigger] covers(
                f,
                qs[q2],
                l,
                r,
                k,
            ) ==> q1 == q2
    }

    /// Meshes one chunk: marks every face of a solid voxel that shows
    /// towards its neighbour, stores the AO of each marked face, and appends
    /// to each face's list the quads that merge its marked faces.
    pub fn mesh(&mut self, voxels: &[u16], occluders: &[bool], transparents: &BTreeSet<u16>)
        requires
            old(self).wf(),
            CS <= 63,
            voxels@.len() >= pad(CS as int) * pad(CS as int) * pad(CS as int),
            occluders@.len() >= pad(CS as int) * pad(CS as int) * pad(CS as int),
        ensures
            final(self).wf(),
            forall|f: int, l: int, r: int, k: int|
                0 <= f < 6 && 0 <= l < CS && 0 <= r < CS ==> #[trigger] final(self).mask_cell(f, l, r, k) == (old(
                    self,
                ).mask_cell(f, l, r, k) || exposed(CS as int, voxels@, transparents@, f, l, r, k)),
            forall|f: int|
                0 <= f < 6 ==> extends(#[trigger] final(self).face_quads(f), old(self).face_quads(f))
                    && final(self).meshes_face(voxels@, occluders@, f, old(self).face_quads(f).len() as int),
            final(self).ao_stored(occluders@),
            forall|f: int|
                0 <= f < 6 ==> #[trigger] final(self).face_quads(f) == final(self).greedy_quads(voxels@, f, old(
                    self,
                ).face_quads(f)),
    {
        let ghost n = CS as int;
        self.face_culling(voxels, transparents);
        self.compute_ao(occluders);
        proof {
            assert(n <= n * n) by (nonlinear_arith) requires 0 <= n;
        }
        self.face_merging(voxels);
        proof {
            assert forall|f: int| 0 <= f < 6 implies extends(#[trigger] self.face_quads(f), old(self).face_quads(f))
                && self.meshes_face(voxels@, occluders@, f, old(self).face_quads(f).len() as int) by {
                assert(face_merged(n, self.face_masks@, voxels@, self.ao_faces@, f, self.quads[f]@,
                    old(self).quads[f]@.len() as int));
                let qs = self.face_quads(f);
                let s0 = old(self).quads[f]@.len() as int;
                assert forall|q: int, l: int, r: int, k: int| s0 <= q < qs.len() && #[trigger] covers(f, qs[q], l, r, k)
                    implies cell_ao(n, occluders@, f, l, r, k) == qs[q].ao_bits() by {
                    assert(mask_bit(n, self.face_masks@, f, l, r, k));
                }
                assert forall|l: int, r: int, k: int| in_grid(n, f, l, r, k) && #[trigger] self.mask_cell(f, l, r, k)
                    implies exists|q: int| s0 <= q < qs.len() && #[trigger] covers(f, qs[q], l, r, k) by {
                    assert(mask_bit(n, self.face_masks@, f, l, r, k));
                }
                assert forall|q: int| s0 <= q < qs.len() implies #[trigger] self.stops(voxels@, occluders@, f, qs[q]) by {
                    assert(stops_forward(n, self.face_masks@, voxels@, self.ao_faces@, f, qs[q]));
                    if let Some(c) = forward_next(f, qs[q]) {
                        if in_grid(n, f, c.0, c.1, c.2) && self.mask_cell(f, c.0, c.1, c.2) {
                            assert(mask_bit(n, self.face_masks@, f, c.0, c.1, c.2));
                        }
                    }
                }
            }
        }
    }
}

impl<const CS: usize> GreedyMesher<CS> {
    /// A face with exactly one marked cell gets exactly one quad, and that
    /// quad covers the cell.
    pub proof fn law_single_cell_one_quad(self, voxels: Seq<u16>, occluders: Seq<bool>, f: int, s0: int, l: int,
        r: int, k: int)
        requires
            0 <= f < 6,
            self.meshes_face(voxels, occluders, f, s0),
            in_grid(CS as int, f, l, r, k),
            self.mask_cell(f, l, r, k),
            forall|l2: int, r2: int, k2: int|
                in_grid(CS as int, f, l2, r2, k2) && #[trigger] self.mask_cell(f, l2, r2, k2) ==> l2 == l && r2 == r
                    && k2 == k,
        ensures
            self.face_quads(f).len() == s0 + 1,
            covers(f, self.face_quads(f)[s0], l, r, k),
    {
        let qs = self.face_quads(f);
        let q = choose|q: int| s0 <= q < qs.len() && #[trigger] covers(f, qs[q], l, r, k);
        assert forall|i: int| s0 <= i < qs.len() implies covers(f, #[trigger] qs[i], l, r, k) by {
            let c = origin_cell(f, qs[i]);
            assert(covers(f, qs[i], c.0, c.1, c.2));
            assert(self.mask_cell(f, c.0, c.1, c.2));
        }
        if qs.len() > s0 + 1 {
            assert(covers(f, qs[s0], l, r, k));
            assert(covers(f, qs[s0 + 1], l, r, k));
        }
        assert(covers(f, qs[q], l, r, k));
    }
}

/// The face cell at the packed origin corner of quad `q` of face `f`.
pub open spec fn origin_cell(f: int, q: Quad) -> (int, int, int) {
    let x = q.spec_x() as int;
    let y = q.spec_y() as int;
    let z = q.spec_z() as int;
    if f == 0 {
        (y - 1, x, z)
    } else if f == 1 {
        (y, x - 1, z)
    } else if f == 2 {
        (x - 1, y - 1, z)
    } else if f == 3 {
        (x, y, z)
    } else if f == 4 {
        (y, x - 1, z)
    } else {
        (y, x, z + 1)
    }
}

/// The index of padded voxel `(x, y, z)`, with `y` the slowest axis and `z`
/// the fastest.
pub fn pad_linearize<const CS: usize>(x: usize, y: usize, z: usize) -> (r: usize)
    requires
        CS + 2 <= usize::MAX,
        (y * (CS + 2) + x) * (CS + 2) + z <= usize::MAX,
    ensures
        r == (y * (CS + 2) + x) * (CS + 2) + z,
{
    let cs_p = CS + 2;
    proof {
        let a = y * cs_p;
        assert(a >= 0) by (nonlinear_arith)
            requires a == y * cs_p, y >= 0, cs_p >= 0;
        assert(a + x <= (a + x) * cs_p) by (nonlinear_arith)
            requires cs_p >= 2, x >= 0, a >= 0;
    }
    (y * cs_p + x) * cs_p + z
}

/// The padded index of a voxel inside the padded chunk lies below
/// `(CS + 2)³`, and two such voxels share an index only if they are the
/// same voxel.
pub proof fn law_pad_index_injective(cs: int, x: int, y: int, z: int, x2: int, y2: int, z2: int)
    requires
        cs >= 0,
        0 <= x < cs + 2,
        0 <= y < cs + 2,
        0 <= z < cs + 2,
        0 <= x2 < cs + 2,
        0 <= y2 < cs + 2,
        0 <= z2 < cs + 2,
    ensures
        0 <= (y * (cs + 2) + x) * (cs + 2) + z < (cs + 2) * (cs + 2) * (cs + 2),
        (y * (cs + 2) + x) * (cs + 2) + z == (y2 * (cs + 2) + x2) * (cs + 2) + z2 ==> x == x2 && y == y2 && z == z2,
{
    let p = cs + 2;
    let a = y * p + x;
    let a2 = y2 * p + x2;
    assert(0 <= a < p * p) by (nonlinear_arith)
        requires a == y * p + x, 0 <= x < p, 0 <= y < p;
    assert(0 <= a2 < p * p) by (nonlinear_arith)
        requires a2 == y2 * p + x2, 0 <= x2 < p, 0 <= y2 < p;
    assert(0 <= a * p + z < p * p * p) by (nonlinear_arith)
        requires 0 <= a < p * p, 0 <= z < p;
    if a * p + z == a2 * p + z2 {
        assert(a == a2 && z == z2) by (nonlinear_arith)
            requires a * p + z == a2 * p + z2, 0 <= z < p, 0 <= z2 < p, 0 <= a, 0 <= a2;
        assert(x == x2 && y == y2) by (nonlinear_arith)
            requires y * p + x == y2 * p + x2, 0 <= x < p, 0 <= x2 < p, 0 <= y, 0 <= y2;
    }
}

} // verus!
