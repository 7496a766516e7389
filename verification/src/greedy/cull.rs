//! Face culling: one mask bit per visible face of each solid voxel.
use std::collections::BTreeSet;

use vstd::prelude::*;

use super::geometry::{
    bit_in_range, cell_of, exposed, face_shows, lemma_midx_bounds, lemma_midx_injective, lemma_vidx_bounds,
    mask_bit, midx, neighbour, pad, vidx, voxel_at,
};
use super::GreedyMesher;
use crate::bitmask::lemma_or_shifted;

verus! {

impl<const CS: usize> GreedyMesher<CS> {
    /// Marks, for every solid voxel of the chunk, each of its six faces that
    /// `face_shows` towards the neighbour, as one bit of that face's row mask.
    pub(super) fn face_culling(&mut self, voxels: &[u16], transparents: &BTreeSet<u16>)
        requires
            old(self).wf(),
            CS <= 63,
            voxels@.len() >= pad(CS as int) * pad(CS as int) * pad(CS as int),
        ensures
            final(self).wf(),
            final(self).quads == old(self).quads,
            final(self).ao_faces == old(self).ao_faces,
            forall|f: int, l: int, r: int, k: int|
                0 <= f < 6 && 0 <= l < CS && 0 <= r < CS ==> #[trigger] mask_bit(CS as int, final(self).face_masks@, f, l, r, k)
                    == (mask_bit(CS as int, old(self).face_masks@, f, l, r, k)
                    || exposed(CS as int, voxels@, transparents@, f, l, r, k)),
    {
        let ghost n = CS as int;
        let ghost old_masks = self.face_masks@;
        let cs_p = CS + 2;
        proof {
            assert(cs_p * cs_p <= 65 * 65 && CS * CS <= 63 * 63) by (nonlinear_arith)
                requires cs_p <= 65, CS <= 63;
        }
        let cs_p2 = cs_p * cs_p;
        let cs_2 = CS * CS;
        let mut a: usize = 1;
        while a < cs_p - 1
            invariant
                n == CS as int,
                1 <= a <= cs_p - 1,
                cs_p == n + 2,
                cs_p2 == cs_p * cs_p,
                cs_2 == n * n,
                CS <= 63,
                voxels@.len() >= pad(n) * pad(n) * pad(n),
                self.face_masks@.len() == old_masks.len(),
                old_masks == old(self).face_masks@,
                old(self).wf(),
                self.quads == old(self).quads,
                self.ao_faces == old(self).ao_faces,
                self.forward_merged == old(self).forward_merged,
                self.right_merged == old(self).right_merged,
                culled_before(n, self.face_masks@, old_masks, voxels@, transparents@, a as int, 1, 1),
            decreases cs_p - a,
        {
            proof {
                assert(a * cs_p <= 65 * 65) by (nonlinear_arith)
                    requires cs_p <= 65, a <= 65;
            }
            let a_cs_p = a * cs_p;
            let mut b: usize = 1;
            while b < cs_p - 1
                invariant
                    n == CS as int,
                    1 <= a < cs_p - 1,
                    1 <= b <= cs_p - 1,
                    cs_p == n + 2,
                    cs_p2 == cs_p * cs_p,
                    cs_2 == n * n,
                    a_cs_p == a * cs_p,
                    CS <= 63,
                    voxels@.len() >= pad(n) * pad(n) * pad(n),
                    self.face_masks@.len() == old_masks.len(),
                    old_masks == old(self).face_masks@,
                    old(self).wf(),
                    self.quads == old(self).quads,
                    self.ao_faces == old(self).ao_faces,
                    self.forward_merged == old(self).forward_merged,
                    self.right_merged == old(self).right_merged,
                    culled_before(n, self.face_masks@, old_masks, voxels@, transparents@, a as int, b as int, 1),
                decreases cs_p - b,
            {
                proof {
                    assert(a * cs_p + b < cs_p * cs_p) by (nonlinear_arith)
                        requires a < cs_p, b < cs_p;
                    assert(cs_p * cs_p <= 65 * 65) by (nonlinear_arith)
                        requires cs_p <= 65;
                    assert((a_cs_p + b) * cs_p <= 65 * 65 * 65) by (nonlinear_arith)
                        requires cs_p <= 65, a_cs_p + b <= 65 * 65;
                    assert((a - 1) * CS <= 63 * 63 && (b - 1) * CS <= 63 * 63) by (nonlinear_arith)
                        requires a <= 64, b <= 64, CS <= 63, a >= 1, b >= 1;
                    assert((b - 1) + (a - 1) * CS == midx(n, 0, a - 1, b - 1));
                    assert((a - 1) + (b - 1) * CS == midx(n, 0, b - 1, a - 1));
                }
                let ab = (a_cs_p + b) * cs_p;
                let ba_index = (b - 1) + (a - 1) * CS;
                let ab_index = (a - 1) + (b - 1) * CS;
                let mut c: usize = 1;
                while c < cs_p - 1
                    invariant
                        n == CS as int,
                        1 <= a < cs_p - 1,
                        1 <= b < cs_p - 1,
                        1 <= c <= cs_p - 1,
                        cs_p == n + 2,
                        cs_p2 == cs_p * cs_p,
                        cs_2 == n * n,
                        ab == (a * cs_p + b) * cs_p,
                        ab <= 65 * 65 * 65,
                        ba_index == midx(n, 0, a - 1, b - 1),
                        ab_index == midx(n, 0, b - 1, a - 1),
                        CS <= 63,
                        voxels@.len() >= pad(n) * pad(n) * pad(n),
                        self.face_masks@.len() == old_masks.len(),
                        old_masks == old(self).face_masks@,
                        old(self).wf(),
                        self.quads == old(self).quads,
                        self.ao_faces == old(self).ao_faces,
                        self.forward_merged == old(self).forward_merged,
                        self.right_merged == old(self).right_merged,
                        culled_before(n, self.face_masks@, old_masks, voxels@, transparents@, a as int, b as int, c as int),
                    decreases cs_p - c,
                {
                    let abc = ab + c;
                    proof {
                        lemma_vidx_bounds(n, a as int, b as int, c as int);
                        lemma_vidx_bounds(n, a + 1, b as int, c as int);
                        lemma_vidx_bounds(n, a - 1, b as int, c as int);
                        lemma_vidx_bounds(n, a as int, b + 1, c as int);
                        lemma_vidx_bounds(n, a as int, b - 1, c as int);
                        lemma_vidx_bounds(n, a as int, b as int, c + 1);
                        lemma_vidx_bounds(n, a as int, b as int, c - 1);
                        assert(abc == vidx(n, a as int, b as int, c as int));
                        assert(abc + cs_p2 == vidx(n, a + 1, b as int, c as int)) by (nonlinear_arith)
                            requires abc == (a * cs_p + b) * cs_p + c, cs_p2 == cs_p * cs_p, cs_p == n + 2;
                        assert(abc - cs_p2 == vidx(n, a - 1, b as int, c as int)) by (nonlinear_arith)
                            requires abc == (a * cs_p + b) * cs_p + c, cs_p2 == cs_p * cs_p, cs_p == n + 2;
                        assert(abc + cs_p == vidx(n, a as int, b + 1, c as int)) by (nonlinear_arith)
                            requires abc == (a * cs_p + b) * cs_p + c, cs_p == n + 2;
                        assert(abc - cs_p == vidx(n, a as int, b - 1, c as int)) by (nonlinear_arith)
                            requires abc == (a * cs_p + b) * cs_p + c, cs_p == n + 2;
                    }
                    let v1 = voxels[abc];
                    if v1 != 0 {
                        self.cull_voxel(voxels, transparents, a, b, c, abc, ba_index, ab_index);
                    } else {
                        proof {
                            assert forall|f: int, l: int, r: int, k: int|
                                0 <= f < 6 && 0 <= l < n && 0 <= r < n && exposed(n, voxels@, transparents@, f, l, r, k)
                                implies cell_of(f, l, r, k) != (a as int, b as int, c as int) by {}
                        }
                    }
                    c += 1;
                }
                b += 1;
            }
            a += 1;
        }
        proof {
            assert forall|f: int, l: int, r: int, k: int|
                0 <= f < 6 && 0 <= l < n && 0 <= r < n && #[trigger] mask_bit(n, self.face_masks@, f, l, r, k)
                implies bit_in_range(n, f, k) by {}
        }
    }

    /// Marks the six faces of the solid voxel `(a, b, c)`.
    fn cull_voxel(&mut self, voxels: &[u16], transparents: &BTreeSet<u16>, a: usize, b: usize, c: usize,
        abc: usize, ba_index: usize, ab_index: usize)
        requires
            CS <= 63,
            1 <= a <= CS, 1 <= b <= CS, 1 <= c <= CS,
            voxels@.len() >= pad(CS as int) * pad(CS as int) * pad(CS as int),
            abc == vidx(CS as int, a as int, b as int, c as int),
            ba_index == midx(CS as int, 0, a - 1, b - 1),
            ab_index == midx(CS as int, 0, b - 1, a - 1),
            voxels@[abc as int] != 0,
            old(self).face_masks@.len() == 6 * (CS * CS),
        ensures
            final(self).face_masks@.len() == old(self).face_masks@.len(),
            final(self).quads == old(self).quads,
            final(self).ao_faces == old(self).ao_faces,
            final(self).forward_merged == old(self).forward_merged,
            final(self).right_merged == old(self).right_merged,
            culled_upto(CS as int, final(self).face_masks@, old(self).face_masks@, voxels@, transparents@,
                a as int, b as int, c as int, 6),
    {
        let ghost n = CS as int;
        let ghost m0 = self.face_masks@;
        let cs_p = CS + 2;
        proof {
            assert(cs_p * cs_p <= 65 * 65 && CS * CS <= 63 * 63) by (nonlinear_arith)
                requires cs_p <= 65, CS <= 63;
        }
        let cs_p2 = cs_p * cs_p;
        let cs_2 = CS * CS;
        proof {
            lemma_vidx_bounds(n, a as int, b as int, c as int);
            lemma_vidx_bounds(n, a + 1, b as int, c as int);
            lemma_vidx_bounds(n, a - 1, b as int, c as int);
            lemma_vidx_bounds(n, a as int, b + 1, c as int);
            lemma_vidx_bounds(n, a as int, b - 1, c as int);
            lemma_vidx_bounds(n, a as int, b as int, c + 1);
            lemma_vidx_bounds(n, a as int, b as int, c - 1);
            assert(abc + cs_p2 == vidx(n, a + 1, b as int, c as int)) by (nonlinear_arith)
                requires abc == (a * cs_p + b) * cs_p + c, cs_p2 == cs_p * cs_p, cs_p == n + 2;
            assert(abc - cs_p2 == vidx(n, a - 1, b as int, c as int)) by (nonlinear_arith)
                requires abc == (a * cs_p + b) * cs_p + c, cs_p2 == cs_p * cs_p, cs_p == n + 2;
            assert(abc + cs_p == vidx(n, a as int, b + 1, c as int)) by (nonlinear_arith)
                requires abc == (a * cs_p + b) * cs_p + c, cs_p == n + 2;
            assert(abc - cs_p == vidx(n, a as int, b - 1, c as int)) by (nonlinear_arith)
                requires abc == (a * cs_p + b) * cs_p + c, cs_p == n + 2;
            lemma_midx_bounds(n, 0, a - 1, b - 1);
            lemma_midx_bounds(n, 1, a - 1, b - 1);
            lemma_midx_bounds(n, 2, b - 1, a - 1);
            lemma_midx_bounds(n, 3, b - 1, a - 1);
            lemma_midx_bounds(n, 4, a - 1, b - 1);
            lemma_midx_bounds(n, 5, a - 1, b - 1);
            assert(culled_upto(n, m0, m0, voxels@, transparents@, a as int, b as int, c as int, 0));
        }
        let v1 = voxels[abc];
        let ghost m1 = self.face_masks@;
        self.or_mask_bit(ba_index, face_value(v1, voxels[abc + cs_p2], transparents), c - 1);
        proof { lemma_cull_step(n, m1, self.face_masks@, m0, voxels@, transparents@, a as int, b as int, c as int, 0); }
        let ghost m1 = self.face_masks@;
        self.or_mask_bit(ba_index + cs_2, face_value(v1, voxels[abc - cs_p2], transparents), c - 1);
        proof { lemma_cull_step(n, m1, self.face_masks@, m0, voxels@, transparents@, a as int, b as int, c as int, 1); }
        let ghost m1 = self.face_masks@;
        self.or_mask_bit(ab_index + 2 * cs_2, face_value(v1, voxels[abc + cs_p], transparents), c - 1);
        proof { lemma_cull_step(n, m1, self.face_masks@, m0, voxels@, transparents@, a as int, b as int, c as int, 2); }
        let ghost m1 = self.face_masks@;
        self.or_mask_bit(ab_index + 3 * cs_2, face_value(v1, voxels[abc - cs_p], transparents), c - 1);
        proof { lemma_cull_step(n, m1, self.face_masks@, m0, voxels@, transparents@, a as int, b as int, c as int, 3); }
        let ghost m1 = self.face_masks@;
        self.or_mask_bit(ba_index + 4 * cs_2, face_value(v1, voxels[abc + 1], transparents), c);
        proof { lemma_cull_step(n, m1, self.face_masks@, m0, voxels@, transparents@, a as int, b as int, c as int, 4); }
        let ghost m1 = self.face_masks@;
        self.or_mask_bit(ba_index + 5 * cs_2, face_value(v1, voxels[abc - 1], transparents), c);
        proof { lemma_cull_step(n, m1, self.face_masks@, m0, voxels@, transparents@, a as int, b as int, c as int, 5); }
    }

    fn or_mask_bit(&mut self, idx: usize, v: u64, s: usize)
        requires
            idx < old(self).face_masks@.len(),
            v <= 1,
            s < 64,
        ensures
            final(self).face_masks@ == old(self).face_masks@.update(idx as int, old(self).face_masks@[idx as int] | (v << s as u64)),
            final(self).quads == old(self).quads,
            final(self).ao_faces == old(self).ao_faces,
            final(self).forward_merged == old(self).forward_merged,
            final(self).right_merged == old(self).right_merged,
    {
        let m = self.face_masks[idx];
        self.face_masks.set(idx, m | (v << s as u64));
    }
}

/// Whether face `v1 -> v2` shows, as a mask bit.
fn face_value(v1: u16, v2: u16, transparents: &BTreeSet<u16>) -> (r: u64)
    ensures
        r == (if face_shows(v1, v2, transparents@) { 1u64 } else { 0u64 }),
{
    broadcast use vstd::std_specs::btree::group_btree_axioms, vstd::laws_cmp::group_laws_cmp;

    if v2 == 0 || (v1 != v2 && transparents.contains(&v2)) {
        1
    } else {
        0
    }
}

pub open spec fn lex_before(p: (int, int, int), a: int, b: int, c: int) -> bool {
    p.0 < a || (p.0 == a && p.1 < b) || (p.0 == a && p.1 == b && p.2 < c)
}

/// Every face cell of a voxel before `(a, b, c)` has been marked.
pub open spec fn culled_before(cs: int, masks: Seq<u64>, old_masks: Seq<u64>, voxels: Seq<u16>,
    transparents: Set<u16>, a: int, b: int, c: int) -> bool {
    forall|f: int, l: int, r: int, k: int|
        0 <= f < 6 && 0 <= l < cs && 0 <= r < cs ==> #[trigger] mask_bit(cs, masks, f, l, r, k) == (
        mask_bit(cs, old_masks, f, l, r, k) || (exposed(cs, voxels, transparents, f, l, r, k)
            && lex_before(cell_of(f, l, r, k), a, b, c)))
}

/// The faces `0..j` of voxel `(a, b, c)` have been marked on top of `old_masks`.
pub open spec fn culled_upto(cs: int, masks: Seq<u64>, old_masks: Seq<u64>, voxels: Seq<u16>,
    transparents: Set<u16>, a: int, b: int, c: int, j: int) -> bool {
    &&& masks.len() == old_masks.len()
    &&& forall|f: int, l: int, r: int, k: int|
        0 <= f < 6 && 0 <= l < cs && 0 <= r < cs ==> #[trigger] mask_bit(cs, masks, f, l, r, k) == (
        mask_bit(cs, old_masks, f, l, r, k) || (f < j && cell_of(f, l, r, k) == (a, b, c)
            && exposed(cs, voxels, transparents, f, l, r, k)))
}

/// The layer and row of face `f`'s mask that voxel `(a, b, c)` writes to,
/// and its bit.
pub open spec fn cull_target(f: int, a: int, b: int, c: int) -> (int, int, int) {
    if f < 2 {
        (a - 1, b - 1, c - 1)
    } else if f < 4 {
        (b - 1, a - 1, c - 1)
    } else {
        (a - 1, b - 1, c)
    }
}

proof fn lemma_cull_step(cs: int, m1: Seq<u64>, m2: Seq<u64>, m0: Seq<u64>, voxels: Seq<u16>,
    transparents: Set<u16>, a: int, b: int, c: int, j: int)
    requires
        cs <= 63,
        1 <= a <= cs, 1 <= b <= cs, 1 <= c <= cs,
        0 <= j < 6,
        voxels.len() >= pad(cs) * pad(cs) * pad(cs),
        voxel_at(cs, voxels, (a, b, c)) != 0,
        culled_upto(cs, m1, m0, voxels, transparents, a, b, c, j),
        m0.len() == 6 * (cs * cs),
        ({
            let t = cull_target(j, a, b, c);
            let v: u64 = if face_shows(voxel_at(cs, voxels, (a, b, c)),
                voxel_at(cs, voxels, neighbour(j, (a, b, c))), transparents) { 1 } else { 0 };
            m2 == m1.update(midx(cs, j, t.0, t.1), m1[midx(cs, j, t.0, t.1)] | (v << (t.2 as u64)))
        }),
    ensures
        culled_upto(cs, m2, m0, voxels, transparents, a, b, c, j + 1),
{
    let t = cull_target(j, a, b, c);
    let v: u64 = if face_shows(voxel_at(cs, voxels, (a, b, c)),
        voxel_at(cs, voxels, neighbour(j, (a, b, c))), transparents) { 1 } else { 0 };
    lemma_midx_bounds(cs, j, t.0, t.1);
    lemma_or_shifted(m1[midx(cs, j, t.0, t.1)], v, t.2 as u64);
    assert forall|f: int, l: int, r: int, k: int|
        0 <= f < 6 && 0 <= l < cs && 0 <= r < cs implies #[trigger] mask_bit(cs, m2, f, l, r, k) == (
        mask_bit(cs, m0, f, l, r, k) || (f < j + 1 && cell_of(f, l, r, k) == (a, b, c)
            && exposed(cs, voxels, transparents, f, l, r, k))) by {
        lemma_midx_bounds(cs, f, l, r);
        assert(mask_bit(cs, m1, f, l, r, k) == (
            mask_bit(cs, m0, f, l, r, k) || (f < j && cell_of(f, l, r, k) == (a, b, c)
                && exposed(cs, voxels, transparents, f, l, r, k))));
        if midx(cs, f, l, r) == midx(cs, j, t.0, t.1) {
            lemma_midx_injective(cs, f, l, r, j, t.0, t.1);
        }
    }
}

} // verus!
