//! Greedy merging of marked face cells into quads.
use vstd::prelude::*;

use super::ao::{ao_col, ao_index, lemma_ao_index};
use super::geometry::{cell_of, lemma_midx_bounds, lemma_vidx_bounds, mask_bit, midx, pad, vidx, voxel_at, bit_in_range};
use super::{GreedyMesher, Quad, law_pack_unpack, pack_word, quad_of};
use crate::bitmask::{bit, lemma_clear_below, lemma_clear_one, lemma_lowest_bit, lemma_test_bit, lemma_zero_iff_no_bits, low_bits};
use vstd::std_specs::bits::u64_trailing_zeros;
use vstd::arithmetic::div_mod::{lemma_fundamental_div_mod, lemma_mod_pos_bound};

verus! {

/// The face cells that quad `q` of face `f` covers, read back from its
/// packed origin and extent.
pub open spec fn covers(f: int, q: Quad, l: int, r: int, k: int) -> bool {
    let x = q.spec_x() as int;
    let y = q.spec_y() as int;
    let z = q.spec_z() as int;
    let w = q.spec_width() as int;
    let h = q.spec_height() as int;
    if f == 0 {
        l == y - 1 && x <= r < x + w && z <= k < z + h
    } else if f == 1 {
        l == y && x - w <= r < x && z <= k < z + h
    } else if f == 2 {
        l == x - 1 && y - w <= r < y && z <= k < z + h
    } else if f == 3 {
        l == x && y <= r < y + w && z <= k < z + h
    } else if f == 4 {
        k == z && y <= l < y + h && x - w <= r < x
    } else {
        k == z + 1 && y <= l < y + h && x <= r < x + w
    }
}

/// The voxel a face cell belongs to.
pub open spec fn face_type(cs: int, voxels: Seq<u16>, f: int, l: int, r: int, k: int) -> u16 {
    voxel_at(cs, voxels, cell_of(f, l, r, k))
}

/// The packed AO stored for a face cell.
pub open spec fn face_ao(cs: int, ao: Seq<u8>, f: int, l: int, r: int, k: int) -> u8 {
    ao[ao_index(cs, f, l, r, k)]
}

pub open spec fn in_grid(cs: int, f: int, l: int, r: int, k: int) -> bool {
    0 <= l < cs && 0 <= r < cs && bit_in_range(cs, f, k)
}

/// The face cell where merging would have carried quad `q` of face `f`
/// one row further: past the end of its first column on faces 0 to 3, and
/// past the end of its only column on faces 4 and 5 when it is one cell
/// wide. Other quads of faces 4 and 5 have none.
pub open spec fn forward_next(f: int, q: Quad) -> Option<(int, int, int)> {
    let x = q.spec_x() as int;
    let y = q.spec_y() as int;
    let z = q.spec_z() as int;
    let w = q.spec_width() as int;
    let h = q.spec_height() as int;
    if f == 0 {
        Some((y - 1, x + w, z))
    } else if f == 1 {
        Some((y, x, z))
    } else if f == 2 {
        Some((x - 1, y, z))
    } else if f == 3 {
        Some((x, y + w, z))
    } else if w != 1 {
        None
    } else if f == 4 {
        Some((y + h, x - 1, z))
    } else {
        Some((y + h, x, z + 1))
    }
}

/// Merging stopped quad `q` where it had to: the face cell past its end
/// (`forward_next`) is outside the grid, unmarked, or of another voxel or
/// AO than the quad.
pub open spec fn stops_forward(cs: int, masks: Seq<u64>, voxels: Seq<u16>, ao: Seq<u8>, f: int, q: Quad) -> bool {
    match forward_next(f, q) {
        Some(c) => !(in_grid(cs, f, c.0, c.1, c.2) && mask_bit(cs, masks, f, c.0, c.1, c.2) && face_type(cs, voxels, f,
            c.0, c.1, c.2) == q.spec_voxel_id() && face_ao(cs, ao, f, c.0, c.1, c.2) == q.ao_bits()),
        None => true,
    }
}

/// The face cell at which quad `q` of face `f` is closed, as (layer, row,
/// column) on faces 0 to 3 and (row, column, bit) on faces 4 and 5: its
/// last row and first column on faces 0 to 3, its last row and last column
/// on faces 4 and 5.
pub open spec fn emit_key(f: int, q: Quad) -> (int, int, int) {
    let x = q.spec_x() as int;
    let y = q.spec_y() as int;
    let z = q.spec_z() as int;
    let w = q.spec_width() as int;
    let h = q.spec_height() as int;
    if f == 0 {
        (y - 1, x + w - 1, z)
    } else if f == 1 {
        (y, x - 1, z)
    } else if f == 2 {
        (x - 1, y - 1, z)
    } else if f == 3 {
        (x, y + w - 1, z)
    } else if f == 4 {
        (y + h - 1, x - 1, z)
    } else {
        (y + h - 1, x + w - 1, z + 1)
    }
}

/// `a` comes before `b` in the order the merger walks the face cells.
pub open spec fn key_lt(a: (int, int, int), b: (int, int, int)) -> bool {
    a.0 < b.0 || (a.0 == b.0 && (a.1 < b.1 || (a.1 == b.1 && a.2 < b.2)))
}

/// The quads from `s0` on come in the order of the cells that closed them.
pub open spec fn emitted_in_order(f: int, quads: Seq<Quad>, s0: int) -> bool {
    forall|i: int, j: int| s0 <= i < j < quads.len() ==> key_lt(emit_key(f, #[trigger] quads[i]), emit_key(f, #[trigger] quads[j]))
}

/// The quads from `s0` on are in order, all closed before cell `pos`.
pub open spec fn ordered_before(f: int, quads: Seq<Quad>, s0: int, pos: (int, int, int)) -> bool {
    &&& emitted_in_order(f, quads, s0)
    &&& forall|i: int| s0 <= i < quads.len() ==> key_lt(emit_key(f, #[trigger] quads[i]), pos)
}

proof fn lemma_ordered_later(f: int, quads: Seq<Quad>, s0: int, pos: (int, int, int), pos2: (int, int, int))
    requires
        ordered_before(f, quads, s0, pos),
        !key_lt(pos2, pos),
    ensures
        ordered_before(f, quads, s0, pos2),
{
}

proof fn lemma_ordered_push(f: int, quads: Seq<Quad>, s0: int, q: Quad, pos: (int, int, int), pos2: (int, int, int))
    requires
        0 <= s0 <= quads.len(),
        ordered_before(f, quads, s0, pos),
        emit_key(f, q) == pos,
        key_lt(pos, pos2),
    ensures
        ordered_before(f, quads.push(q), s0, pos2),
{
    let qs = quads.push(q);
    assert forall|i: int, j: int| s0 <= i < j < qs.len() implies key_lt(emit_key(f, #[trigger] qs[i]), emit_key(f,
        #[trigger] qs[j])) by {
        assert(qs[i] == quads[i]);
        if j < quads.len() {
            assert(qs[j] == quads[j]);
        }
    }
    assert forall|i: int| s0 <= i < qs.len() implies key_lt(emit_key(f, #[trigger] qs[i]), pos2) by {
        if i < quads.len() {
            assert(qs[i] == quads[i]);
        }
    }
}

// ---------------------------------------------------------------------------
// The quads that greedy merging emits, faces 0 to 3
// ---------------------------------------------------------------------------

/// Marked cell `(l, r, k)` waits for the next row: the cell of row `r + 1`
/// in its column is marked and has its voxel and AO.
pub open spec fn joins_next_row(cs: int, masks: Seq<u64>, voxels: Seq<u16>, ao: Seq<u8>, f: int, l: int, r: int,
    k: int) -> bool {
    r + 1 < cs && mask_bit(cs, masks, f, l, r + 1, k) && face_type(cs, voxels, f, l, r + 1, k) == face_type(cs, voxels,
        f, l, r, k) && face_ao(cs, ao, f, l, r + 1, k) == face_ao(cs, ao, f, l, r, k)
}

/// The first column from `j` on that cannot join the run that starts at
/// column `p` of row `r`: a joining column is marked, has as many pending
/// rows, and has the same voxel and AO.
pub open spec fn run_end(cs: int, masks: Seq<u64>, voxels: Seq<u16>, ao: Seq<u8>, f: int, l: int, r: int,
    fm: Seq<u8>, p: int, j: int) -> int
    decreases cs - j,
{
    if j < cs && mask_bit(cs, masks, f, l, r, j) && fm[j] == fm[p] && face_type(cs, voxels, f, l, r, j) == face_type(
        cs, voxels, f, l, r, p) && face_ao(cs, ao, f, l, r, j) == face_ao(cs, ao, f, l, r, p) {
        run_end(cs, masks, voxels, ao, f, l, r, fm, p, j + 1)
    } else {
        j
    }
}

/// The quad of face `f` (0 to 3) closed at row `r`, column `p` of layer
/// `l`: `w` columns wide, over the `pend` pending rows and row `r`.
pub open spec fn row_quad(f: int, l: int, r: int, p: int, w: int, pend: int, v: u16, a: u8) -> Quad {
    let front = r - pend;
    let up = if f % 2 == 0 { l + 1 } else { l };
    let len = pend + 1;
    let word = if f == 0 {
        pack_word(front as u64, up as u64, p as u64, len as u64, w as u64, v as u64)
    } else if f == 1 {
        pack_word((front + len) as u64, up as u64, p as u64, len as u64, w as u64, v as u64)
    } else if f == 2 {
        pack_word(up as u64, (front + len) as u64, p as u64, len as u64, w as u64, v as u64)
    } else {
        pack_word(up as u64, front as u64, p as u64, len as u64, w as u64, v as u64)
    };
    quad_of(word, a)
}

/// `fm` with the entries `p .. e` set to zero.
pub open spec fn zero_range(fm: Seq<u8>, p: int, e: int) -> Seq<u8> {
    Seq::new(fm.len(), |i: int| if p <= i < e { 0u8 } else { fm[i] })
}

/// Greedy merging of row `r` of layer `l` from column `p` on, with pending
/// row counts `fm` and the quads so far: a marked cell that the next row
/// can join waits for it; any other marked cell closes a quad over its
/// pending rows, extended right over the columns that can join it.
pub open spec fn row_step(cs: int, masks: Seq<u64>, voxels: Seq<u16>, ao: Seq<u8>, f: int, l: int, r: int, p: int,
    fm: Seq<u8>, quads: Seq<Quad>) -> (Seq<u8>, Seq<Quad>)
    decreases cs - p,
{
    if p < 0 || p >= cs {
        (fm, quads)
    } else if !mask_bit(cs, masks, f, l, r, p) {
        row_step(cs, masks, voxels, ao, f, l, r, p + 1, fm, quads)
    } else if joins_next_row(cs, masks, voxels, ao, f, l, r, p) {
        row_step(cs, masks, voxels, ao, f, l, r, p + 1, fm.update(p, (fm[p] + 1) as u8), quads)
    } else {
        let e = run_end(cs, masks, voxels, ao, f, l, r, fm, p, p + 1);
        if e <= p || e > cs {
            (fm, quads)
        } else {
            let q = row_quad(f, l, r, p, e - p, fm[p] as int, face_type(cs, voxels, f, l, r, p), face_ao(cs, ao, f, l, r,
                p));
            row_step(cs, masks, voxels, ao, f, l, r, e, zero_range(fm, p, e), quads.push(q))
        }
    }
}

/// Greedy merging of the rows of layer `l` from row `r` on.
pub open spec fn layer_rows(cs: int, masks: Seq<u64>, voxels: Seq<u16>, ao: Seq<u8>, f: int, l: int, r: int,
    fm: Seq<u8>, quads: Seq<Quad>) -> (Seq<u8>, Seq<Quad>)
    decreases cs - r,
{
    if r < 0 || r >= cs {
        (fm, quads)
    } else {
        let st = row_step(cs, masks, voxels, ao, f, l, r, 0, fm, quads);
        layer_rows(cs, masks, voxels, ao, f, l, r + 1, st.0, st.1)
    }
}

/// Greedy merging of the layers of face `f` from layer `l` on.
pub open spec fn face_rows(cs: int, masks: Seq<u64>, voxels: Seq<u16>, ao: Seq<u8>, f: int, l: int, fm: Seq<u8>,
    quads: Seq<Quad>) -> (Seq<u8>, Seq<Quad>)
    decreases cs - l,
{
    if l < 0 || l >= cs {
        (fm, quads)
    } else {
        let st = layer_rows(cs, masks, voxels, ao, f, l, 0, fm, quads);
        face_rows(cs, masks, voxels, ao, f, l + 1, st.0, st.1)
    }
}

/// `n` zero counts.
pub open spec fn zeros(n: int) -> Seq<u8> {
    Seq::new(n as nat, |i: int| 0u8)
}

/// Skipping columns with no marked cell changes nothing.
proof fn lemma_row_step_skip(cs: int, masks: Seq<u64>, voxels: Seq<u16>, ao: Seq<u8>, f: int, l: int, r: int, p: int,
    q: int, fm: Seq<u8>, quads: Seq<Quad>)
    requires
        0 <= p <= q <= cs,
        forall|k: int| p <= k < q ==> !#[trigger] mask_bit(cs, masks, f, l, r, k),
    ensures
        row_step(cs, masks, voxels, ao, f, l, r, p, fm, quads) == row_step(cs, masks, voxels, ao, f, l, r, q, fm,
            quads),
    decreases q - p,
{
    if p < q {
        lemma_row_step_skip(cs, masks, voxels, ao, f, l, r, p + 1, q, fm, quads);
    }
}

// ---------------------------------------------------------------------------
// The quads that greedy merging emits, faces 4 and 5
// ---------------------------------------------------------------------------

/// Marked cell `(l, r, k)` of face 4 or 5 may wait for the next row: no
/// column run passes through it, and the cell of row `l + 1` is marked and
/// has its voxel and AO.
pub open spec fn col_joins_next_row(cs: int, masks: Seq<u64>, voxels: Seq<u16>, ao: Seq<u8>, f: int, l: int, r: int,
    k: int, rm: Seq<u8>) -> bool {
    rm[k - 1] == 0 && l + 1 < cs && mask_bit(cs, masks, f, l + 1, r, k) && face_type(cs, voxels, f, l + 1, r, k)
        == face_type(cs, voxels, f, l, r, k) && face_ao(cs, ao, f, l + 1, r, k) == face_ao(cs, ao, f, l, r, k)
}

/// Marked cell `(l, r, k)` of face 4 or 5 passes its run on to column
/// `r + 1`: that cell is marked, has as many pending rows, and has the same
/// voxel and AO.
pub open spec fn col_joins_right(cs: int, masks: Seq<u64>, voxels: Seq<u16>, ao: Seq<u8>, f: int, l: int, r: int,
    k: int, fm: Seq<u8>) -> bool {
    r + 1 < cs && mask_bit(cs, masks, f, l, r + 1, k) && fm[r * cs + k - 1] == fm[(r + 1) * cs + k - 1] && face_type(
        cs, voxels, f, l, r + 1, k) == face_type(cs, voxels, f, l, r, k) && face_ao(cs, ao, f, l, r + 1, k) == face_ao(
        cs, ao, f, l, r, k)
}

/// The quad of face 4 or 5 closed at row `l`, column `r`, bit `k`: over the
/// `rc` columns passed on to it and its own, and the `h` pending rows and
/// its own.
pub open spec fn col_quad(f: int, l: int, r: int, k: int, rc: int, h: int, v: u16, a: u8) -> Quad {
    let left = r - rc;
    let front = l - h;
    let up = if f % 2 == 0 { k } else { k - 1 };
    let w = 1 + rc;
    let len = 1 + h;
    let x = if f == 4 { left + w } else { left };
    quad_of(pack_word(x as u64, front as u64, up as u64, w as u64, len as u64, v as u64), a)
}

/// Greedy merging of column `r` of row `l` from bit `p` on, with pending
/// row counts `fm`, run widths `rm` and the quads so far: a marked cell
/// waits for the next row if it can, else passes its run to the next
/// column if it can, else closes a quad.
pub open spec fn col_step(cs: int, masks: Seq<u64>, voxels: Seq<u16>, ao: Seq<u8>, f: int, l: int, r: int, p: int,
    fm: Seq<u8>, rm: Seq<u8>, quads: Seq<Quad>) -> (Seq<u8>, Seq<u8>, Seq<Quad>)
    decreases cs + 1 - p,
{
    if p < 0 || p > cs {
        (fm, rm, quads)
    } else if !mask_bit(cs, masks, f, l, r, p) {
        col_step(cs, masks, voxels, ao, f, l, r, p + 1, fm, rm, quads)
    } else {
        let i = r * cs + p - 1;
        if col_joins_next_row(cs, masks, voxels, ao, f, l, r, p, rm) {
            col_step(cs, masks, voxels, ao, f, l, r, p + 1, fm.update(i, (fm[i] + 1) as u8), rm, quads)
        } else if col_joins_right(cs, masks, voxels, ao, f, l, r, p, fm) {
            col_step(cs, masks, voxels, ao, f, l, r, p + 1, fm.update(i, 0u8), rm.update(p - 1, (rm[p - 1] + 1) as u8),
                quads)
        } else {
            let q = col_quad(f, l, r, p, rm[p - 1] as int, fm[i] as int, face_type(cs, voxels, f, l, r, p), face_ao(cs,
                ao, f, l, r, p));
            col_step(cs, masks, voxels, ao, f, l, r, p + 1, fm.update(i, 0u8), rm.update(p - 1, 0u8), quads.push(q))
        }
    }
}

/// Greedy merging of the columns of row `l` from column `r` on.
pub open spec fn row_cols(cs: int, masks: Seq<u64>, voxels: Seq<u16>, ao: Seq<u8>, f: int, l: int, r: int,
    fm: Seq<u8>, rm: Seq<u8>, quads: Seq<Quad>) -> (Seq<u8>, Seq<u8>, Seq<Quad>)
    decreases cs - r,
{
    if r < 0 || r >= cs {
        (fm, rm, quads)
    } else {
        let st = col_step(cs, masks, voxels, ao, f, l, r, 0, fm, rm, quads);
        row_cols(cs, masks, voxels, ao, f, l, r + 1, st.0, st.1, st.2)
    }
}

/// Greedy merging of the rows of face `f` (4 or 5) from row `l` on.
pub open spec fn face_cols(cs: int, masks: Seq<u64>, voxels: Seq<u16>, ao: Seq<u8>, f: int, l: int, fm: Seq<u8>,
    rm: Seq<u8>, quads: Seq<Quad>) -> (Seq<u8>, Seq<u8>, Seq<Quad>)
    decreases cs - l,
{
    if l < 0 || l >= cs {
        (fm, rm, quads)
    } else {
        let st = row_cols(cs, masks, voxels, ao, f, l, 0, fm, rm, quads);
        face_cols(cs, masks, voxels, ao, f, l + 1, st.0, st.1, st.2)
    }
}

/// Skipping bits with no marked cell changes nothing.
proof fn lemma_col_step_skip(cs: int, masks: Seq<u64>, voxels: Seq<u16>, ao: Seq<u8>, f: int, l: int, r: int, p: int,
    q: int, fm: Seq<u8>, rm: Seq<u8>, quads: Seq<Quad>)
    requires
        0 <= p <= q <= cs + 1,
        forall|k: int| p <= k < q ==> !#[trigger] mask_bit(cs, masks, f, l, r, k),
    ensures
        col_step(cs, masks, voxels, ao, f, l, r, p, fm, rm, quads) == col_step(cs, masks, voxels, ao, f, l, r, q, fm, rm,
            quads),
    decreases q - p,
{
    if p < q {
        lemma_col_step_skip(cs, masks, voxels, ao, f, l, r, p + 1, q, fm, rm, quads);
    }
}

/// The quads from `s0` on cover exactly the cells `own` assigns them, each
/// cell once, and every quad is uniform in voxel and AO.
pub open spec fn quads_ok(cs: int, masks: Seq<u64>, voxels: Seq<u16>, ao: Seq<u8>, f: int, quads: Seq<Quad>, s0: int,
    own: Map<(int, int, int), int>) -> bool {
    &&& 0 <= s0 <= quads.len()
    &&& forall|q: int| s0 <= q < quads.len() ==> (#[trigger] quads[q]).spec_width() >= 1 && quads[q].spec_height() >= 1
        && stops_forward(cs, masks, voxels, ao, f, quads[q])
    &&& forall|c: (int, int, int)| #[trigger] own.contains_key(c) ==> s0 <= own[c] < quads.len()
    &&& forall|q: int, l: int, r: int, k: int|
        s0 <= q < quads.len() ==> (#[trigger] covers(f, quads[q], l, r, k) <==> (own.contains_key((l, r, k))
            && own[(l, r, k)] == q))
    &&& forall|q: int, l: int, r: int, k: int|
        s0 <= q < quads.len() && #[trigger] covers(f, quads[q], l, r, k) ==> face_type(cs, voxels, f, l, r, k)
            == quads[q].spec_voxel_id() && face_ao(cs, ao, f, l, r, k) == quads[q].ao_bits()
}

/// Pushing quad `q` whose cells are exactly the unowned cells `inr` keeps
/// `quads_ok`, with those cells owned by the new quad.
pub proof fn lemma_push_quad(cs: int, masks: Seq<u64>, voxels: Seq<u16>, ao: Seq<u8>, f: int, quads: Seq<Quad>,
    s0: int, own: Map<(int, int, int), int>, q: Quad, inr: spec_fn(int, int, int) -> bool)
    requires
        quads_ok(cs, masks, voxels, ao, f, quads, s0, own),
        stops_forward(cs, masks, voxels, ao, f, q),
        forall|l: int, r: int, k: int| #[trigger] covers(f, q, l, r, k) == inr(l, r, k),
        q.spec_width() >= 1 && q.spec_height() >= 1,
        forall|l: int, r: int, k: int| #[trigger] inr(l, r, k) ==> !own.contains_key((l, r, k)),
        forall|l: int, r: int, k: int| #[trigger] inr(l, r, k) ==> face_type(cs, voxels, f, l, r, k) == q.spec_voxel_id()
            && face_ao(cs, ao, f, l, r, k) == q.ao_bits(),
    ensures
        quads_ok(cs, masks, voxels, ao, f, quads.push(q), s0, add_rect(own, inr, quads.len() as int)),
{
    let n = quads.len() as int;
    let own2 = add_rect(own, inr, n);
    let qs = quads.push(q);
    assert forall|c: (int, int, int)| #[trigger] own2.contains_key(c) implies s0 <= own2[c] < qs.len() by {
        if inr(c.0, c.1, c.2) {
        } else {
            assert(own.contains_key(c));
        }
    }
    assert forall|qi: int, l: int, r: int, k: int| s0 <= qi < qs.len() implies (#[trigger] covers(f, qs[qi], l, r, k)
        <==> (own2.contains_key((l, r, k)) && own2[(l, r, k)] == qi)) by {
        if qi == n {
            assert(covers(f, q, l, r, k) == inr(l, r, k));
            if !inr(l, r, k) && own.contains_key((l, r, k)) {
                assert(own[(l, r, k)] < n);
            }
        } else {
            assert(qs[qi] == quads[qi]);
            if inr(l, r, k) {
                assert(!own.contains_key((l, r, k)));
                assert(!covers(f, quads[qi], l, r, k));
            }
        }
    }
    assert forall|qi: int, l: int, r: int, k: int| s0 <= qi < qs.len() && #[trigger] covers(f, qs[qi], l, r, k)
        implies face_type(cs, voxels, f, l, r, k) == qs[qi].spec_voxel_id() && face_ao(cs, ao, f, l, r, k)
        == qs[qi].ao_bits() by {
        if qi == n {
            assert(inr(l, r, k));
        } else {
            assert(qs[qi] == quads[qi]);
        }
    }
}

/// `q` starts with the quads of `q0`.
pub open spec fn extends(q: Seq<Quad>, q0: Seq<Quad>) -> bool {
    q0.len() <= q.len() && forall|i: int| 0 <= i < q0.len() ==> q[i] == q0[i]
}

/// `own` with the cells of `inr` assigned to quad `q`.
pub open spec fn add_rect(own: Map<(int, int, int), int>, inr: spec_fn(int, int, int) -> bool, q: int) -> Map<
    (int, int, int),
    int,
> {
    Map::new(
        |c: (int, int, int)| own.contains_key(c) || inr(c.0, c.1, c.2),
        |c: (int, int, int)| if inr(c.0, c.1, c.2) { q } else { own[c] },
    )
}

// ---------------------------------------------------------------------------
// Faces 0 to 3: rows of bits, merged forward across rows, then rightward
// ---------------------------------------------------------------------------

/// Row at which column `k` stands: columns left of `p` have consumed row `r`.
pub open spec fn frontier(r: int, p: int, k: int) -> int {
    if k < p {
        r + 1
    } else {
        r
    }
}

/// A marked cell of layer `l` before layer `l0`, or before the pending run of
/// its column.
pub open spec fn merged_rows(cs: int, masks: Seq<u64>, f: int, l0: int, r0: int, p: int, fm: Seq<u8>, l: int,
    r: int, k: int) -> bool {
    mask_bit(cs, masks, f, l, r, k) && (l < l0 || (l == l0 && r < frontier(r0, p, k) - fm[k]))
}

/// The `cnt` cells of column `k` below row `fr` are marked and match the
/// marked cell at row `fr`.
pub open spec fn pending_col(cs: int, masks: Seq<u64>, voxels: Seq<u16>, ao: Seq<u8>, f: int, l0: int, fr: int,
    cnt: int, k: int) -> bool {
    cnt > 0 ==> {
        &&& fr < cs
        &&& fr - cnt >= 0
        &&& mask_bit(cs, masks, f, l0, fr, k)
        &&& forall|r: int| fr - cnt <= r < fr ==> #[trigger] mask_bit(cs, masks, f, l0, r, k)
            && face_type(cs, voxels, f, l0, r, k) == face_type(cs, voxels, f, l0, fr, k)
            && face_ao(cs, ao, f, l0, r, k) == face_ao(cs, ao, f, l0, fr, k)
    }
}

/// Every cell of a pending run matches the cell at its column's frontier.
pub open spec fn pending_rows(cs: int, masks: Seq<u64>, voxels: Seq<u16>, ao: Seq<u8>, f: int, l0: int, r0: int,
    p: int, fm: Seq<u8>) -> bool {
    &&& fm.len() == cs * cs
    &&& 0 <= cs <= cs * cs
    &&& forall|i: int| cs <= i < cs * cs ==> fm[i] == 0
    &&& forall|k: int| 0 <= k < cs ==> #[trigger] pending_col(cs, masks, voxels, ao, f, l0, frontier(r0, p, k), fm[k] as int, k)
}

pub open spec fn own_rows(cs: int, masks: Seq<u64>, f: int, l0: int, r0: int, p: int, fm: Seq<u8>, own: Map<
    (int, int, int),
    int,
>) -> bool {
    forall|l: int, r: int, k: int|
        #![trigger own.contains_key((l, r, k))]
        #![trigger mask_bit(cs, masks, f, l, r, k)]
        own.contains_key((l, r, k)) <==> (0 <= l < cs && 0 <= r < cs && 0 <= k < cs && merged_rows(
            cs,
            masks,
            f,
            l0,
            r0,
            p,
            fm,
            l,
            r,
            k,
        ))
}

/// The whole merging state of faces 0 to 3 at layer `l0`, row `r0`, with
/// the columns before `p` of that row consumed.
pub open spec fn rows_state(cs: int, masks: Seq<u64>, voxels: Seq<u16>, ao: Seq<u8>, f: int, l0: int, r0: int,
    p: int, fm: Seq<u8>, quads: Seq<Quad>, s0: int, own: Map<(int, int, int), int>) -> bool {
    &&& 0 <= f < 4
    &&& pending_rows(cs, masks, voxels, ao, f, l0, r0, p, fm)
    &&& own_rows(cs, masks, f, l0, r0, p, fm, own)
    &&& quads_ok(cs, masks, voxels, ao, f, quads, s0, own)
}

impl<const CS: usize> GreedyMesher<CS> {
    /// The packed AO kept for face `face`, layer `layer`, row `forward`,
    /// column `right` of the AO grid.
    fn get_ao(&self, face: usize, layer: usize, forward: usize, right: usize) -> (r: u8)
        requires
            self.ao_faces@.len() == 6 * (CS * CS) * CS,
            CS <= 63,
            face < 6,
            layer < CS,
            forward < CS,
            right < CS,
        ensures
            r == self.ao_faces@[face * (CS * CS) * CS + (layer * CS + forward) * CS + right],
            r == face_ao(CS as int, self.ao_faces@, face as int, layer as int, forward as int,
                if face < 4 { right as int } else { right + 1 }),
    {
        let ghost n = CS as int;
        proof {
            let k = if face < 4 { right as int } else { right + 1 };
            assert(ao_col(face as int, k) == right);
            lemma_ao_index(n, face as int, layer as int, forward as int, k);
            assert(CS * CS <= 63 * 63) by (nonlinear_arith) requires CS <= 63;
            assert(face * (CS * CS) * CS + (layer * CS + forward) * CS + right == ao_index(n, face as int, layer as int,
                forward as int, k)) by (nonlinear_arith)
                requires
                    n == CS,
                    ao_col(face as int, k) == right,
                    ao_index(n, face as int, layer as int, forward as int, k) == face * (n * n) * n + (layer * n
                        + forward) * n + ao_col(face as int, k);
            assert(face * (CS * CS) * CS <= 6 * 63 * 63 * 63) by (nonlinear_arith)
                requires face < 6, CS <= 63;
            assert((layer * CS + forward) * CS <= 63 * 63 * 63) by (nonlinear_arith)
                requires layer < CS, forward < CS, CS <= 63;
            assert(face * (CS * CS) <= 6 * 63 * 63 && layer * CS <= 63 * 63) by (nonlinear_arith)
                requires face < 6, layer < CS, CS <= 63;
        }
        let cs_2 = CS * CS;
        let idx = face * cs_2 * CS + (layer * CS + forward) * CS + right;
        self.ao_faces[idx]
    }
}

/// Index of padded voxel `(a, b, c)` of a face cell, per axis: `a` is the
/// row, `b` the column, `c` the layer of faces 0 to 3 on axes 0 and 1.
fn get_axis_index<const CS: usize>(axis: usize, a: usize, b: usize, c: usize) -> (r: usize)
    requires
        CS <= 63,
        a < CS + 2,
        b < CS + 2,
        c < CS + 2,
    ensures
        r == spec_axis_index(CS as int, axis as int, a as int, b as int, c as int),
        r < pad(CS as int) * pad(CS as int) * pad(CS as int),
{
    let cs_p = CS + 2;
    proof {
        assert(cs_p * cs_p <= 65 * 65) by (nonlinear_arith) requires cs_p <= 65;
        assert(a * cs_p <= 65 * 65 && b * cs_p <= 65 * 65 && c * cs_p <= 65 * 65) by (nonlinear_arith)
            requires a < cs_p, b < cs_p, c < cs_p, cs_p <= 65;
        assert(a * (cs_p * cs_p) <= 65 * 65 * 65 && b * (cs_p * cs_p) <= 65 * 65 * 65 && c * (cs_p * cs_p) <= 65
            * 65 * 65) by (nonlinear_arith)
            requires a < cs_p, b < cs_p, c < cs_p, cs_p <= 65;
    }
    let cs_p2 = cs_p * cs_p;
    let r = if axis == 0 {
        b + (a * cs_p) + (c * cs_p2)
    } else if axis == 1 {
        b + (c * cs_p) + (a * cs_p2)
    } else {
        c + (a * cs_p) + (b * cs_p2)
    };
    proof {
        let n = CS as int;
        if axis == 0 {
            assert(r == vidx(n, c as int, a as int, b as int)) by (nonlinear_arith)
                requires r == b + a * cs_p + c * cs_p2, cs_p2 == cs_p * cs_p, cs_p == n + 2;
            lemma_vidx_bounds(n, c as int, a as int, b as int);
        } else if axis == 1 {
            assert(r == vidx(n, a as int, c as int, b as int)) by (nonlinear_arith)
                requires r == b + c * cs_p + a * cs_p2, cs_p2 == cs_p * cs_p, cs_p == n + 2;
            lemma_vidx_bounds(n, a as int, c as int, b as int);
        } else {
            assert(r == vidx(n, b as int, a as int, c as int)) by (nonlinear_arith)
                requires r == c + a * cs_p + b * cs_p2, cs_p2 == cs_p * cs_p, cs_p == n + 2;
            lemma_vidx_bounds(n, b as int, a as int, c as int);
        }
    }
    r
}

pub open spec fn spec_axis_index(cs: int, axis: int, a: int, b: int, c: int) -> int {
    if axis == 0 {
        vidx(cs, c, a, b)
    } else if axis == 1 {
        vidx(cs, a, c, b)
    } else {
        vidx(cs, b, a, c)
    }
}

/// `get_axis_index` finds the voxel of a face cell.
pub proof fn lemma_axis_index_cell(cs: int, f: int, l: int, r: int, k: int)
    requires
        0 <= f < 6,
    ensures
        f < 4 ==> spec_axis_index(cs, f / 2, r + 1, k + 1, l + 1) == vidx(cs, cell_of(f, l, r, k).0, cell_of(f, l, r, k).1,
            cell_of(f, l, r, k).2),
        f >= 4 ==> spec_axis_index(cs, 2, r + 1, l + 1, k) == vidx(cs, cell_of(f, l, r, k).0, cell_of(f, l, r, k).1,
            cell_of(f, l, r, k).2),
{
}


/// Advancing over columns with no cell in the current row changes nothing.
proof fn lemma_rows_skip(cs: int, masks: Seq<u64>, voxels: Seq<u16>, ao: Seq<u8>, f: int, l0: int, r0: int, p: int,
    p2: int, fm: Seq<u8>, quads: Seq<Quad>, s0: int, own: Map<(int, int, int), int>)
    requires
        rows_state(cs, masks, voxels, ao, f, l0, r0, p, fm, quads, s0, own),
        0 <= p <= p2 <= cs,
        0 <= r0 < cs,
        forall|k: int| p <= k < p2 ==> !#[trigger] mask_bit(cs, masks, f, l0, r0, k),
    ensures
        rows_state(cs, masks, voxels, ao, f, l0, r0, p2, fm, quads, s0, own),
{
    assert forall|k: int| p <= k < p2 && 0 <= k < cs implies fm[k] == 0 by {
        assert(pending_col(cs, masks, voxels, ao, f, l0, frontier(r0, p, k), fm[k] as int, k));
        if fm[k] > 0 {
            assert(mask_bit(cs, masks, f, l0, r0, k));
        }
    }
    assert forall|k: int| 0 <= k < cs implies #[trigger] pending_col(cs, masks, voxels, ao, f, l0, frontier(r0, p2, k),
        fm[k] as int, k) by {
        assert(pending_col(cs, masks, voxels, ao, f, l0, frontier(r0, p, k), fm[k] as int, k));
        if p <= k < p2 {
            assert(fm[k] == 0);
        } else {
            assert(frontier(r0, p2, k) == frontier(r0, p, k));
        }
    }
    assert forall|l: int, r: int, k: int|
        #![trigger own.contains_key((l, r, k))]
        #![trigger mask_bit(cs, masks, f, l, r, k)]
        own.contains_key((l, r, k)) <==> (0 <= l < cs && 0 <= r < cs && 0 <= k < cs && merged_rows(cs, masks, f,
            l0, r0, p2, fm, l, r, k)) by {
        if 0 <= l < cs && 0 <= r < cs && 0 <= k < cs {
            assert(merged_rows(cs, masks, f, l0, r0, p2, fm, l, r, k) == merged_rows(cs, masks, f, l0, r0, p, fm, l,
                r, k));
        }
    }
}

/// A row at `p = cs` is the next row at `p = 0`.
proof fn lemma_rows_next_row(cs: int, masks: Seq<u64>, voxels: Seq<u16>, ao: Seq<u8>, f: int, l0: int, r0: int,
    fm: Seq<u8>, quads: Seq<Quad>, s0: int, own: Map<(int, int, int), int>)
    requires
        rows_state(cs, masks, voxels, ao, f, l0, r0, cs, fm, quads, s0, own),
    ensures
        rows_state(cs, masks, voxels, ao, f, l0, r0 + 1, 0, fm, quads, s0, own),
{
    assert forall|k: int| 0 <= k < cs implies #[trigger] pending_col(cs, masks, voxels, ao, f, l0, frontier(r0 + 1, 0,
        k), fm[k] as int, k) by {
        assert(pending_col(cs, masks, voxels, ao, f, l0, frontier(r0, cs, k), fm[k] as int, k));
    }
    assert forall|l: int, r: int, k: int|
        #![trigger own.contains_key((l, r, k))]
        #![trigger mask_bit(cs, masks, f, l, r, k)]
        own.contains_key((l, r, k)) <==> (0 <= l < cs && 0 <= r < cs && 0 <= k < cs && merged_rows(cs, masks, f,
            l0, r0 + 1, 0, fm, l, r, k)) by {
        if 0 <= l < cs && 0 <= r < cs && 0 <= k < cs {
            assert(merged_rows(cs, masks, f, l0, r0 + 1, 0, fm, l, r, k) == merged_rows(cs, masks, f, l0, r0, cs, fm,
                l, r, k));
        }
    }
}

/// At the end of a layer nothing is pending, and the layer is done.
proof fn lemma_rows_next_layer(cs: int, masks: Seq<u64>, voxels: Seq<u16>, ao: Seq<u8>, f: int, l0: int,
    fm: Seq<u8>, quads: Seq<Quad>, s0: int, own: Map<(int, int, int), int>)
    requires
        rows_state(cs, masks, voxels, ao, f, l0, cs, 0, fm, quads, s0, own),
    ensures
        rows_state(cs, masks, voxels, ao, f, l0 + 1, 0, 0, fm, quads, s0, own),
        forall|i: int| 0 <= i < cs * cs ==> fm[i] == 0,
{
    assert forall|i: int| 0 <= i < cs * cs implies fm[i] == 0 by {
        if i < cs {
            assert(pending_col(cs, masks, voxels, ao, f, l0, frontier(cs, 0, i), fm[i] as int, i));
        }
    }
    assert forall|k: int| 0 <= k < cs implies #[trigger] pending_col(cs, masks, voxels, ao, f, l0 + 1, frontier(0, 0,
        k), fm[k] as int, k) by {
        assert(fm[k] == 0);
    }
    assert forall|l: int, r: int, k: int|
        #![trigger own.contains_key((l, r, k))]
        #![trigger mask_bit(cs, masks, f, l, r, k)]
        own.contains_key((l, r, k)) <==> (0 <= l < cs && 0 <= r < cs && 0 <= k < cs && merged_rows(cs, masks, f,
            l0 + 1, 0, 0, fm, l, r, k)) by {
        if 0 <= l < cs && 0 <= r < cs && 0 <= k < cs {
            assert(merged_rows(cs, masks, f, l0 + 1, 0, 0, fm, l, r, k) == merged_rows(cs, masks, f, l0, cs, 0, fm, l,
                r, k));
        }
    }
}

/// Deferring column `p`'s cell to the next row keeps the state.
proof fn lemma_rows_defer(cs: int, masks: Seq<u64>, voxels: Seq<u16>, ao: Seq<u8>, f: int, l0: int, r0: int, p: int,
    fm: Seq<u8>, quads: Seq<Quad>, s0: int, own: Map<(int, int, int), int>)
    requires
        rows_state(cs, masks, voxels, ao, f, l0, r0, p, fm, quads, s0, own),
        0 <= p < cs,
        0 <= r0 < cs,
        r0 + 1 < cs,
        fm[p] < 255,
        mask_bit(cs, masks, f, l0, r0, p),
        mask_bit(cs, masks, f, l0, r0 + 1, p),
        face_type(cs, voxels, f, l0, r0, p) == face_type(cs, voxels, f, l0, r0 + 1, p),
        face_ao(cs, ao, f, l0, r0, p) == face_ao(cs, ao, f, l0, r0 + 1, p),
    ensures
        rows_state(cs, masks, voxels, ao, f, l0, r0, p + 1, fm.update(p, (fm[p] + 1) as u8), quads, s0, own),
{
    let fm2 = fm.update(p, (fm[p] + 1) as u8);
    assert(p < fm.len());
    assert(fm2.len() == fm.len());
    assert(fm2[p] == fm[p] + 1);
    assert(pending_col(cs, masks, voxels, ao, f, l0, frontier(r0, p, p), fm[p] as int, p));
    assert(frontier(r0, p, p) == r0);
    assert forall|r: int| r0 + 1 - fm2[p] <= r < r0 + 1 implies #[trigger] mask_bit(cs, masks, f, l0, r, p)
        && face_type(cs, voxels, f, l0, r, p) == face_type(cs, voxels, f, l0, r0 + 1, p)
        && face_ao(cs, ao, f, l0, r, p) == face_ao(cs, ao, f, l0, r0 + 1, p) by {
        if r < r0 {
            assert(fm[p] > 0);
            assert(r0 - fm[p] <= r < r0);
        }
    }
    assert(pending_col(cs, masks, voxels, ao, f, l0, r0 + 1, fm2[p] as int, p));
    assert forall|k: int| 0 <= k < cs implies #[trigger] pending_col(cs, masks, voxels, ao, f, l0, frontier(r0, p + 1, k),
        fm2[k] as int, k) by {
        if k == p {
            assert(frontier(r0, p + 1, k) == r0 + 1);
        } else {
            assert(fm2[k] == fm[k]);
            assert(frontier(r0, p + 1, k) == frontier(r0, p, k));
            assert(pending_col(cs, masks, voxels, ao, f, l0, frontier(r0, p, k), fm[k] as int, k));
        }
    }
    assert forall|i: int| cs <= i < cs * cs implies fm2[i] == 0 by {}
    assert forall|l: int, r: int, k: int|
        #![trigger own.contains_key((l, r, k))]
        #![trigger mask_bit(cs, masks, f, l, r, k)]
        own.contains_key((l, r, k)) <==> (0 <= l < cs && 0 <= r < cs && 0 <= k < cs && merged_rows(cs, masks, f,
            l0, r0, p + 1, fm2, l, r, k)) by {
        if 0 <= l < cs && 0 <= r < cs && 0 <= k < cs {
            if k == p {
                assert(fm2[k] == fm[k] + 1);
                assert(frontier(r0, p + 1, k) - fm2[k] == frontier(r0, p, k) - fm[k]);
            } else {
                assert(fm2[k] == fm[k]);
                assert(frontier(r0, p + 1, k) == frontier(r0, p, k));
            }
            assert(merged_rows(cs, masks, f, l0, r0, p + 1, fm2, l, r, k) == merged_rows(cs, masks, f, l0, r0, p, fm,
                l, r, k));
        }
    }
}

/// The cells of a run about to be emitted: the pending rows and the current
/// row of columns `p .. p + w`.
pub open spec fn run_cells(l0: int, r0: int, fm0: int, p: int, w: int) -> spec_fn(int, int, int) -> bool {
    |l: int, r: int, k: int| l == l0 && r0 - fm0 <= r <= r0 && p <= k < p + w
}

/// Emitting the quad of the run starting at column `p` keeps the state.
proof fn lemma_rows_emit(cs: int, masks: Seq<u64>, voxels: Seq<u16>, ao: Seq<u8>, f: int, l0: int, r0: int, p: int,
    w: int, fm: Seq<u8>, fm2: Seq<u8>, quads: Seq<Quad>, s0: int, own: Map<(int, int, int), int>, q: Quad)
    requires
        rows_state(cs, masks, voxels, ao, f, l0, r0, p, fm, quads, s0, own),
        0 <= l0 < cs,
        0 <= p,
        1 <= w,
        p + w <= cs,
        0 <= r0 < cs,
        forall|k: int| p <= k < p + w ==> #[trigger] mask_bit(cs, masks, f, l0, r0, k) && fm[k] == fm[p]
            && face_type(cs, voxels, f, l0, r0, k) == q.spec_voxel_id()
            && face_ao(cs, ao, f, l0, r0, k) == q.ao_bits(),
        fm2.len() == fm.len(),
        forall|i: int| 0 <= i < fm.len() ==> #[trigger] fm2[i] == if p <= i < p + w { 0 } else { fm[i] },
        forall|l: int, r: int, k: int| #[trigger] covers(f, q, l, r, k) == run_cells(l0, r0, fm[p] as int, p, w)(l, r, k),
        stops_forward(cs, masks, voxels, ao, f, q),
    ensures
        rows_state(cs, masks, voxels, ao, f, l0, r0, p + w, fm2, quads.push(q), s0,
            add_rect(own, run_cells(l0, r0, fm[p] as int, p, w), quads.len() as int)),
{
    let fm0 = fm[p] as int;
    let inr = run_cells(l0, r0, fm0, p, w);
    assert forall|l: int, r: int, k: int| #[trigger] inr(l, r, k) implies !own.contains_key((l, r, k)) by {
        assert(l == l0 && r0 - fm0 <= r <= r0 && p <= k < p + w);
        assert(mask_bit(cs, masks, f, l0, r0, k));
        assert(fm[k] == fm[p]);
        assert(frontier(r0, p, k) == r0);
        if own.contains_key((l, r, k)) {
            assert(merged_rows(cs, masks, f, l0, r0, p, fm, l, r, k));
        }
    }
    assert forall|l: int, r: int, k: int| #[trigger] inr(l, r, k) implies face_type(cs, voxels, f, l, r, k)
        == q.spec_voxel_id() && face_ao(cs, ao, f, l, r, k) == q.ao_bits() && mask_bit(cs, masks, f, l, r, k) by {
        assert(l == l0 && r0 - fm0 <= r <= r0 && p <= k < p + w);
        assert(mask_bit(cs, masks, f, l0, r0, k));
        assert(fm[k] == fm[p]);
        if r < r0 {
            assert(fm[k] > 0);
            let fr = frontier(r0, p, k);
            assert(fr == r0);
            assert(pending_col(cs, masks, voxels, ao, f, l0, fr, fm[k] as int, k));
            assert(fr - fm[k] <= r < fr);
            assert(mask_bit(cs, masks, f, l0, r, k));
            assert(face_type(cs, voxels, f, l0, r, k) == face_type(cs, voxels, f, l0, r0, k));
            assert(face_ao(cs, ao, f, l0, r, k) == face_ao(cs, ao, f, l0, r0, k));
        }
    }
    assert(inr(l0, r0, p));
    assert(covers(f, q, l0, r0, p));
    lemma_push_quad(cs, masks, voxels, ao, f, quads, s0, own, q, inr);
    let own2 = add_rect(own, inr, quads.len() as int);
    assert forall|k: int| 0 <= k < cs implies #[trigger] pending_col(cs, masks, voxels, ao, f, l0, frontier(r0, p + w, k),
        fm2[k] as int, k) by {
        if p <= k < p + w {
            assert(fm2[k] == 0);
        } else {
            assert(fm2[k] == fm[k]);
            assert(frontier(r0, p + w, k) == frontier(r0, p, k));
            assert(pending_col(cs, masks, voxels, ao, f, l0, frontier(r0, p, k), fm[k] as int, k));
        }
    }
    assert forall|i: int| cs <= i < cs * cs implies fm2[i] == 0 by {}
    assert forall|l: int, r: int, k: int|
        #![trigger own2.contains_key((l, r, k))]
        #![trigger mask_bit(cs, masks, f, l, r, k)]
        own2.contains_key((l, r, k)) <==> (0 <= l < cs && 0 <= r < cs && 0 <= k < cs && merged_rows(cs, masks, f,
            l0, r0, p + w, fm2, l, r, k)) by {
        if inr(l, r, k) {
            assert(l == l0 && r0 - fm0 <= r <= r0 && p <= k < p + w);
            assert(mask_bit(cs, masks, f, l0, r0, k));
            assert(mask_bit(cs, masks, f, l, r, k));
            if fm0 > 0 {
                assert(fm[p] > 0);
                assert(pending_col(cs, masks, voxels, ao, f, l0, frontier(r0, p, p), fm[p] as int, p));
                assert(frontier(r0, p, p) - fm[p] >= 0);
            }
            assert(0 <= r);
            assert(fm2[k] == 0);
            assert(merged_rows(cs, masks, f, l0, r0, p + w, fm2, l, r, k));
        } else {
            assert(own2.contains_key((l, r, k)) == own.contains_key((l, r, k)));
            if 0 <= l < cs && 0 <= r < cs && 0 <= k < cs {
                if p <= k < p + w && l == l0 {
                    assert(mask_bit(cs, masks, f, l0, r0, k));
                    assert(frontier(r0, p, k) - fm[k] == r0 - fm0);
                    assert(fm2[k] == 0);
                } else {
                    assert(merged_rows(cs, masks, f, l0, r0, p + w, fm2, l, r, k) == merged_rows(cs, masks, f, l0, r0,
                        p, fm, l, r, k));
                }
            }
        }
    }
}


/// Every marked cell of face `f` is covered by exactly one quad from `s0`
/// on, each such quad is uniform in voxel and AO, none stops short of a row
/// that could have joined it (`stops_forward`), and the quads come in the
/// order of the cells that closed them (`emitted_in_order`).
pub open spec fn face_merged(cs: int, masks: Seq<u64>, voxels: Seq<u16>, ao: Seq<u8>, f: int, quads: Seq<Quad>,
    s0: int) -> bool {
    &&& 0 <= s0 <= quads.len()
    &&& forall|q: int| s0 <= q < quads.len() ==> (#[trigger] quads[q]).spec_width() >= 1 && quads[q].spec_height() >= 1
        && stops_forward(cs, masks, voxels, ao, f, quads[q])
    &&& emitted_in_order(f, quads, s0)
    &&& forall|l: int, r: int, k: int|
        #![trigger mask_bit(cs, masks, f, l, r, k)]
        in_grid(cs, f, l, r, k) && mask_bit(cs, masks, f, l, r, k) ==> exists|q: int|
            s0 <= q < quads.len() && #[trigger] covers(f, quads[q], l, r, k)
    &&& forall|q: int, l: int, r: int, k: int|
        s0 <= q < quads.len() && #[trigger] covers(f, quads[q], l, r, k) ==> in_grid(cs, f, l, r, k) && mask_bit(
            cs,
            masks,
            f,
            l,
            r,
            k,
        ) && face_type(cs, voxels, f, l, r, k) == quads[q].spec_voxel_id() && face_ao(cs, ao, f, l, r, k)
            == quads[q].ao_bits()
    &&& forall|q1: int, q2: int, l: int, r: int, k: int|
        s0 <= q1 < quads.len() && s0 <= q2 < quads.len() && #[trigger] covers(f, quads[q1], l, r, k) && #[trigger] covers(
            f,
            quads[q2],
            l,
            r,
            k,
        ) ==> q1 == q2
}

/// When `own` holds exactly the marked cells, the quads merge the face.
proof fn lemma_face_merged(cs: int, masks: Seq<u64>, voxels: Seq<u16>, ao: Seq<u8>, f: int, quads: Seq<Quad>, s0: int,
    own: Map<(int, int, int), int>)
    requires
        quads_ok(cs, masks, voxels, ao, f, quads, s0, own),
        emitted_in_order(f, quads, s0),
        forall|l: int, r: int, k: int|
            #![trigger own.contains_key((l, r, k))]
            #![trigger mask_bit(cs, masks, f, l, r, k)]
            own.contains_key((l, r, k)) <==> (in_grid(cs, f, l, r, k) && mask_bit(cs, masks, f, l, r, k)),
    ensures
        face_merged(cs, masks, voxels, ao, f, quads, s0),
{
    assert forall|l: int, r: int, k: int|
        #![trigger mask_bit(cs, masks, f, l, r, k)]
        in_grid(cs, f, l, r, k) && mask_bit(cs, masks, f, l, r, k) implies exists|q: int|
            s0 <= q < quads.len() && #[trigger] covers(f, quads[q], l, r, k) by {
        assert(own.contains_key((l, r, k)));
        let q = own[(l, r, k)];
        assert(covers(f, quads[q], l, r, k));
    }
    assert forall|q: int, l: int, r: int, k: int|
        s0 <= q < quads.len() && #[trigger] covers(f, quads[q], l, r, k) implies in_grid(cs, f, l, r, k) && mask_bit(
        cs, masks, f, l, r, k) by {
        assert(own.contains_key((l, r, k)));
    }
}

/// A state of faces 0 to 3 that has finished layer `cs` has merged the face.
proof fn lemma_rows_face_done(cs: int, masks: Seq<u64>, voxels: Seq<u16>, ao: Seq<u8>, f: int, fm: Seq<u8>,
    quads: Seq<Quad>, s0: int, own: Map<(int, int, int), int>)
    requires
        rows_state(cs, masks, voxels, ao, f, cs, 0, 0, fm, quads, s0, own),
        emitted_in_order(f, quads, s0),
    ensures
        face_merged(cs, masks, voxels, ao, f, quads, s0),
{
    assert forall|l: int, r: int, k: int|
        #![trigger own.contains_key((l, r, k))]
        #![trigger mask_bit(cs, masks, f, l, r, k)]
        own.contains_key((l, r, k)) <==> (in_grid(cs, f, l, r, k) && mask_bit(cs, masks, f, l, r, k)) by {
        if 0 <= l < cs && 0 <= r < cs && 0 <= k < cs {
            assert(merged_rows(cs, masks, f, cs, 0, 0, fm, l, r, k) == mask_bit(cs, masks, f, l, r, k));
        }
    }
    lemma_face_merged(cs, masks, voxels, ao, f, quads, s0, own);
}

/// The row-merging precondition on the mesher's buffers.
pub open spec fn merge_shape(cs: int, masks: Seq<u64>, ao: Seq<u8>, fm: Seq<u8>, rm: Seq<u8>) -> bool {
    &&& 0 <= cs <= 63
    &&& cs <= cs * cs
    &&& masks.len() == 6 * (cs * cs)
    &&& ao.len() == 6 * (cs * cs) * cs
    &&& fm.len() == cs * cs
    &&& rm.len() == cs
    &&& forall|f: int, l: int, r: int, k: int|
        0 <= f < 6 && 0 <= l < cs && 0 <= r < cs && #[trigger] mask_bit(cs, masks, f, l, r, k) ==> bit_in_range(cs, f, k)
}

proof fn lemma_not_face_even(face: usize)
    ensures
        (!face) & 1usize == (if face % 2 == 0 { 1usize } else { 0usize }),
{
    assert((!face) & 1usize == (if face % 2 == 0 { 1usize } else { 0usize })) by (bit_vector);
}

impl<const CS: usize> GreedyMesher<CS> {
    /// Merges row `forward` of layer `layer` of face `face` (0 to 3): each
    /// marked cell either waits for the matching cell of the next row, or
    /// closes a quad over its pending rows that extends right across columns
    /// with the same pending height, voxel and AO.
    #[verifier::spinoff_prover]
    fn merge_row_rows(&mut self, voxels: &[u16], face: usize, layer: usize, forward: usize, Ghost(s0): Ghost<int>,
        Ghost(own0): Ghost<Map<(int, int, int), int>>) -> (own: Ghost<Map<(int, int, int), int>>)
        requires
            merge_shape(CS as int, old(self).face_masks@, old(self).ao_faces@, old(self).forward_merged@,
                old(self).right_merged@),
            face < 4,
            layer < CS,
            forward < CS,
            voxels@.len() >= pad(CS as int) * pad(CS as int) * pad(CS as int),
            rows_state(CS as int, old(self).face_masks@, voxels@, old(self).ao_faces@, face as int, layer as int,
                forward as int, 0, old(self).forward_merged@, old(self).quads[face as int]@, s0, own0),
            ordered_before(face as int, old(self).quads[face as int]@, s0, (layer as int, forward as int, 0)),
        ensures
            merge_shape(CS as int, final(self).face_masks@, final(self).ao_faces@, final(self).forward_merged@,
                final(self).right_merged@),
            final(self).face_masks == old(self).face_masks,
            final(self).ao_faces == old(self).ao_faces,
            final(self).right_merged == old(self).right_merged,
            forall|j: int| 0 <= j < 6 && j != face ==> final(self).quads[j] == old(self).quads[j],
            extends(final(self).quads[face as int]@, old(self).quads[face as int]@),
            rows_state(CS as int, final(self).face_masks@, voxels@, final(self).ao_faces@, face as int, layer as int,
                forward + 1, 0, final(self).forward_merged@, final(self).quads[face as int]@, s0, own@),
            ordered_before(face as int, final(self).quads[face as int]@, s0, (layer as int, forward + 1, 0)),
            (final(self).forward_merged@, final(self).quads[face as int]@) == row_step(CS as int, old(
                self,
            ).face_masks@, voxels@, old(self).ao_faces@, face as int, layer as int, forward as int, 0, old(
                self,
            ).forward_merged@, old(self).quads[face as int]@),
    {
        let ghost n = CS as int;
        let ghost masks = self.face_masks@;
        let ghost aos = self.ao_faces@;
        proof {
            assert(CS * CS <= 63 * 63) by (nonlinear_arith) requires CS <= 63;
            assert(layer * CS <= 63 * 63) by (nonlinear_arith) requires layer < CS, CS <= 63;
            lemma_midx_bounds(n, face as int, layer as int, forward as int);
        }
        let cs_2 = CS * CS;
        let axis = face / 2;
        let bits_location = layer * CS + face * cs_2;
        let mut bits_here = self.face_masks[forward + bits_location];
        let ghost row_bits = bits_here;
        let ghost fm_init = self.forward_merged@;
        let ghost q_init = self.quads[face as int]@;
        let ghost mut own = own0;
        let ghost mut p: int = 0;
        if bits_here == 0 {
            proof {
                lemma_zero_iff_no_bits(bits_here);
                lemma_rows_skip(n, masks, voxels@, aos, face as int, layer as int, forward as int, 0, n,
                    self.forward_merged@, self.quads[face as int]@, s0, own);
                lemma_rows_next_row(n, masks, voxels@, aos, face as int, layer as int, forward as int,
                    self.forward_merged@, self.quads[face as int]@, s0, own);
                lemma_ordered_later(face as int, self.quads[face as int]@, s0, (layer as int, forward as int, 0), (
                    layer as int, forward + 1, 0));
                assert forall|k: int| 0 <= k < n implies !#[trigger] mask_bit(n, masks, face as int, layer as int,
                    forward as int, k) by {
                    assert(!bit(bits_here, k));
                }
                lemma_row_step_skip(n, masks, voxels@, aos, face as int, layer as int, forward as int, 0, n, fm_init,
                    q_init);
            }
            return Ghost(own);
        }
        let bits_next = if forward + 1 < CS {
            proof {
                lemma_midx_bounds(n, face as int, layer as int, forward + 1);
            }
            self.face_masks[(forward + 1) + bits_location]
        } else {
            0
        };
        proof {
            lemma_zero_iff_no_bits(0);
        }
        let mut right_merged: usize = 1;
        while bits_here != 0
            invariant
                n == CS as int,
                merge_shape(n, self.face_masks@, self.ao_faces@, self.forward_merged@, self.right_merged@),
                face < 4,
                layer < CS,
                forward < CS,
                axis == face / 2,
                voxels@.len() >= pad(n) * pad(n) * pad(n),
                self.face_masks@ == masks,
                self.ao_faces@ == aos,
                self.face_masks == old(self).face_masks,
                self.ao_faces == old(self).ao_faces,
                self.right_merged == old(self).right_merged,
                forall|j: int| 0 <= j < 6 && j != face ==> self.quads[j] == old(self).quads[j],
                extends(self.quads[face as int]@, old(self).quads[face as int]@),
                row_bits == masks[midx(n, face as int, layer as int, forward as int)],
                forall|k: int| #[trigger] bit(bits_next, k) ==> forward + 1 < CS && mask_bit(n, masks, face as int,
                    layer as int, forward + 1, k),
                forward + 1 < CS ==> bits_next == masks[midx(n, face as int, layer as int, forward + 1)],
                0 <= p <= n,
                forall|k: int| #[trigger] bit(bits_here, k) == (bit(row_bits, k) && k >= p),
                right_merged == 1,
                rows_state(n, masks, voxels@, aos, face as int, layer as int, forward as int, p,
                    self.forward_merged@, self.quads[face as int]@, s0, own),
                ordered_before(face as int, self.quads[face as int]@, s0, (layer as int, forward as int, p)),
                row_step(n, masks, voxels@, aos, face as int, layer as int, forward as int, p, self.forward_merged@,
                    self.quads[face as int]@) == row_step(n, masks, voxels@, aos, face as int, layer as int, forward as int, 0, fm_init, q_init),
                fm_init.len() == n * n,
            decreases bits_here,
        {
            proof {
                lemma_lowest_bit(bits_here);
            }
            let bit_pos = bits_here.trailing_zeros() as usize;
            proof {
                assert(bit(row_bits, bit_pos as int));
                assert(mask_bit(n, masks, face as int, layer as int, forward as int, bit_pos as int));
                assert(bit_pos < CS);
                assert(bit_pos >= p);
                assert forall|k: int| p <= k < bit_pos implies !#[trigger] mask_bit(n, masks, face as int,
                    layer as int, forward as int, k) by {
                    assert(!bit(bits_here, k));
                }
                lemma_rows_skip(n, masks, voxels@, aos, face as int, layer as int, forward as int, p,
                    bit_pos as int, self.forward_merged@, self.quads[face as int]@, s0, own);
                lemma_ordered_later(face as int, self.quads[face as int]@, s0, (layer as int, forward as int, p), (
                    layer as int, forward as int, bit_pos as int));
                lemma_row_step_skip(n, masks, voxels@, aos, face as int, layer as int, forward as int, p,
                    bit_pos as int, self.forward_merged@, self.quads[face as int]@);
                p = bit_pos as int;
                lemma_axis_index_cell(n, face as int, layer as int, forward as int, bit_pos as int);
            }
            let v_type = voxels[get_axis_index::<CS>(axis, forward + 1, bit_pos + 1, layer + 1)];
            let ao_here = self.get_ao(face, layer, forward, bit_pos);
            proof {
                lemma_test_bit(bits_next, bit_pos as u64);
                lemma_axis_index_cell(n, face as int, layer as int, forward + 1, bit_pos as int);
            }
            if (bits_next >> bit_pos as u64 & 1) != 0 && v_type == voxels[get_axis_index::<CS>(
                axis,
                forward + 2,
                bit_pos + 1,
                layer + 1,
            )] && ao_here == self.get_ao(face, layer, forward + 1, bit_pos) {
                proof {
                    lemma_axis_index_cell(n, face as int, layer as int, forward + 1, bit_pos as int);
                    lemma_clear_one(bits_here, bit_pos as u64);
                    assert(pending_col(n, masks, voxels@, aos, face as int, layer as int, forward as int,
                        self.forward_merged@[bit_pos as int] as int, bit_pos as int));
                    assert(self.forward_merged@[bit_pos as int] < 255);
                    lemma_rows_defer(n, masks, voxels@, aos, face as int, layer as int, forward as int, p,
                        self.forward_merged@, self.quads[face as int]@, s0, own);
                    assert(bits_here & !(1u64 << bit_pos as u64) < bits_here) by (bit_vector)
                        requires bit_pos < 64, (bits_here >> bit_pos as u64) & 1u64 == 1u64;
                }
                let fm_here = self.forward_merged[bit_pos];
                self.forward_merged.set(bit_pos, fm_here + 1);
                bits_here = bits_here & !(1u64 << bit_pos as u64);
                proof {
                    lemma_ordered_later(face as int, self.quads[face as int]@, s0, (layer as int, forward as int, p), (
                        layer as int, forward as int, bit_pos + 1));
                    assert(joins_next_row(n, masks, voxels@, aos, face as int, layer as int, forward as int,
                        bit_pos as int));
                    p = bit_pos + 1;
                }
                continue;
            }
            let ghost stop = !(forward + 1 < CS && mask_bit(n, masks, face as int, layer as int, forward + 1,
                bit_pos as int) && face_type(n, voxels@, face as int, layer as int, forward + 1, bit_pos as int) == v_type
                && face_ao(n, aos, face as int, layer as int, forward + 1, bit_pos as int) == ao_here);
            proof {
                if forward + 1 < CS && mask_bit(n, masks, face as int, layer as int, forward + 1, bit_pos as int) {
                    assert(bit(bits_next, bit_pos as int));
                }
                assert(stop);
            }
            let ghost fm_before = self.forward_merged@;
            let ghost bits_here_before = bits_here;
            let fm0 = self.forward_merged[bit_pos];
            let mut right = bit_pos + 1;
            while right < CS
                invariant
                    n == CS as int,
                    merge_shape(n, self.face_masks@, self.ao_faces@, self.forward_merged@, self.right_merged@),
                    face < 4,
                    layer < CS,
                    forward < CS,
                    axis == face / 2,
                    voxels@.len() >= pad(n) * pad(n) * pad(n),
                    self.face_masks@ == masks,
                    self.ao_faces@ == aos,
                    self.face_masks == old(self).face_masks,
                    self.ao_faces == old(self).ao_faces,
                    self.right_merged == old(self).right_merged,
                    forall|j: int| 0 <= j < 6 && j != face ==> self.quads[j] == old(self).quads[j],
                extends(self.quads[face as int]@, old(self).quads[face as int]@),
                    bit_pos < right <= CS,
                    p == bit_pos,
                    0 <= p <= n,
                    row_bits == masks[midx(n, face as int, layer as int, forward as int)],
                    forall|k: int| #[trigger] bit(bits_here, k) == (bit(row_bits, k) && k >= p),
                    bit(row_bits, bit_pos as int),
                    v_type == face_type(n, voxels@, face as int, layer as int, forward as int, bit_pos as int),
                    ao_here == face_ao(n, aos, face as int, layer as int, forward as int, bit_pos as int),
                    forall|k: int| #[trigger] bit(bits_next, k) ==> forward + 1 < CS && mask_bit(n, masks, face as int,
                        layer as int, forward + 1, k),
                    forward + 1 < CS ==> bits_next == masks[midx(n, face as int, layer as int, forward + 1)],
                    stop,
                    rows_state(n, masks, voxels@, aos, face as int, layer as int, forward as int, p, fm_before,
                        self.quads[face as int]@, s0, own),
                    ordered_before(face as int, self.quads[face as int]@, s0, (layer as int, forward as int, p)),
                    right_merged == right - bit_pos,
                    fm0 == fm_before[bit_pos as int],
                    self.forward_merged@.len() == fm_before.len(),
                    forall|i: int| 0 <= i < fm_before.len() ==> #[trigger] self.forward_merged@[i] == if bit_pos < i
                        < right { 0 } else { fm_before[i] },
                    forall|k: int| bit_pos < k < right ==> #[trigger] bit(bits_here, k) && fm_before[k] == fm0
                        && face_type(n, voxels@, face as int, layer as int, forward as int, k) == v_type
                        && face_ao(n, aos, face as int, layer as int, forward as int, k) == ao_here,
                    row_step(n, masks, voxels@, aos, face as int, layer as int, forward as int, p, fm_before,
                        self.quads[face as int]@) == row_step(n, masks, voxels@, aos, face as int, layer as int, forward as int, 0, fm_init, q_init),
                    fm_init.len() == n * n,
                    run_end(n, masks, voxels@, aos, face as int, layer as int, forward as int, fm_before, bit_pos as int, right as int) == run_end(n, masks, voxels@, aos, face as int, layer as int, forward as int, fm_before, bit_pos as int, bit_pos + 1),
                    !joins_next_row(n, masks, voxels@, aos, face as int, layer as int, forward as int, bit_pos as int),
                ensures
                    run_end(n, masks, voxels@, aos, face as int, layer as int, forward as int, fm_before, bit_pos as int, right as int) == right,
                decreases CS - right,
            {
                proof {
                    lemma_test_bit(bits_here, right as u64);
                    lemma_axis_index_cell(n, face as int, layer as int, forward as int, right as int);
                }
                if (bits_here >> right as u64 & 1) == 0 || self.forward_merged[bit_pos] != self.forward_merged[right]
                    || v_type != voxels[get_axis_index::<CS>(axis, forward + 1, right + 1, layer + 1)] || ao_here
                    != self.get_ao(face, layer, forward, right) {
                    break;
                }
                let ghost fm_prev = self.forward_merged@;
                proof {
                    assert(bit(bits_here, right as int));
                    assert(fm_prev[bit_pos as int] == fm0);
                    assert(fm_prev[right as int] == fm_before[right as int]);
                    assert(fm_before[right as int] == fm0);
                    assert(face_type(n, voxels@, face as int, layer as int, forward as int, right as int) == v_type);
                    assert(face_ao(n, aos, face as int, layer as int, forward as int, right as int) == ao_here);
                    assert(mask_bit(n, masks, face as int, layer as int, forward as int, right as int));
                    assert(run_end(n, masks, voxels@, aos, face as int, layer as int, forward as int, fm_before, bit_pos as int, right as int) == run_end(n, masks, voxels@, aos, face as int, layer as int, forward as int, fm_before, bit_pos as int, right + 1));
                }
                self.forward_merged.set(right, 0);
                right_merged += 1;
                right += 1;
                proof {
                    assert forall|k: int| bit_pos < k < right implies #[trigger] bit(bits_here, k) && fm_before[k]
                        == fm0 && face_type(n, voxels@, face as int, layer as int, forward as int, k) == v_type
                        && face_ao(n, aos, face as int, layer as int, forward as int, k) == ao_here by {
                        if k < right - 1 {
                            assert(bit(bits_here, k));
                        }
                    }
                }
            }
            let ghost sh = (bit_pos + right_merged) as u64;
            proof {
                lemma_clear_below(bits_here, sh);
                assert(sh < 64 ==> 1u64 << sh >= 1u64) by (bit_vector);
                let bp = bit_pos as u64;
                let bh = bits_here;
                assert(bp < sh && sh < 64 && (bh >> bp) & 1u64 == 1u64 ==> (bh & !low_bits(sh)) < bh) by (bit_vector);
            }
            bits_here = bits_here & !((1u64 << (bit_pos + right_merged) as u64) - 1);
            proof {
                assert(bits_here == bits_here_before & !low_bits(sh));
            }
            proof {
                if fm0 > 0 {
                    assert(fm_before[bit_pos as int] > 0);
                    assert(frontier(forward as int, p, bit_pos as int) == forward);
                    assert(pending_col(n, masks, voxels@, aos, face as int, layer as int, forward as int,
                        fm0 as int, bit_pos as int));
                }
                assert(fm0 <= forward);
                assert(bit_pos + right_merged <= CS);
                assert forall|k: int| #[trigger] bit(bits_here, k) == (bit(row_bits, k) && k >= bit_pos + right_merged) by {
                    assert(bit(bits_here_before, k) == (bit(row_bits, k) && k >= p));
                }
            }
            let mesh_front = forward - fm0 as usize;
            let mesh_left = bit_pos;
            proof {
                lemma_not_face_even(face);
            }
            let mesh_up = layer + (!face & 1);
            let mesh_width = right_merged;
            let mesh_length = (fm0 + 1) as usize;
            self.forward_merged.set(bit_pos, 0);
            let ghost w = right_merged as int;
            right_merged = 1;
            let quad = if face == 0 {
                Quad::pack(mesh_front, mesh_up, mesh_left, mesh_length, mesh_width, v_type as usize, ao_here)
            } else if face == 1 {
                Quad::pack(mesh_front + mesh_length, mesh_up, mesh_left, mesh_length, mesh_width, v_type as usize, ao_here)
            } else if face == 2 {
                Quad::pack(mesh_up, mesh_front + mesh_length, mesh_left, mesh_length, mesh_width, v_type as usize, ao_here)
            } else {
                Quad::pack(mesh_up, mesh_front, mesh_left, mesh_length, mesh_width, v_type as usize, ao_here)
            };
            proof {
                let inr = run_cells(layer as int, forward as int, fm0 as int, bit_pos as int, w);
                assert(quad.spec_voxel_id() == v_type);
                assert(quad.ao_bits() == ao_here);
                assert forall|k: int| bit_pos <= k < bit_pos + w implies #[trigger] mask_bit(n, masks, face as int,
                    layer as int, forward as int, k) && fm_before[k] == fm_before[bit_pos as int]
                    && face_type(n, voxels@, face as int, layer as int, forward as int, k) == quad.spec_voxel_id()
                    && face_ao(n, aos, face as int, layer as int, forward as int, k) == quad.ao_bits() by {
                    if k > bit_pos {
                        assert(bit(bits_here_before, k));
                    }
                }
                assert forall|l: int, r: int, k: int| #[trigger] covers(face as int, quad, l, r, k) == inr(l, r, k) by {}
                assert(forward_next(face as int, quad) == Some((layer as int, forward + 1, bit_pos as int)));
                lemma_rows_emit(n, masks, voxels@, aos, face as int, layer as int, forward as int, bit_pos as int,
                    w, fm_before, self.forward_merged@, self.quads[face as int]@, s0, own, quad);
                assert(emit_key(face as int, quad) == (layer as int, forward as int, bit_pos as int));
                lemma_ordered_push(face as int, self.quads[face as int]@, s0, quad, (layer as int, forward as int,
                    bit_pos as int), (layer as int, forward as int, bit_pos + w));
                assert(right == bit_pos + w);
                assert(self.forward_merged@ =~= zero_range(fm_before, bit_pos as int, bit_pos + w));
                assert(quad == row_quad(face as int, layer as int, forward as int, bit_pos as int, w, fm0 as int,
                    v_type, ao_here));
                assert(row_step(n, masks, voxels@, aos, face as int, layer as int, forward as int, bit_pos as int,
                    fm_before, self.quads[face as int]@) == row_step(n, masks, voxels@, aos, face as int, layer as int,
                    forward as int, bit_pos + w, zero_range(fm_before, bit_pos as int, bit_pos + w), self.quads[
                    face as int]@.push(quad)));
                own = add_rect(own, inr, self.quads[face as int]@.len() as int);
                p = bit_pos + w;
            }
            self.quads[face].push(quad);
        }
        proof {
            lemma_zero_iff_no_bits(bits_here);
            assert forall|k: int| p <= k < n implies !#[trigger] mask_bit(n, masks, face as int, layer as int,
                forward as int, k) by {
                assert(!bit(bits_here, k));
            }
            lemma_rows_skip(n, masks, voxels@, aos, face as int, layer as int, forward as int, p, n,
                self.forward_merged@, self.quads[face as int]@, s0, own);
            lemma_rows_next_row(n, masks, voxels@, aos, face as int, layer as int, forward as int,
                self.forward_merged@, self.quads[face as int]@, s0, own);
            lemma_ordered_later(face as int, self.quads[face as int]@, s0, (layer as int, forward as int, p), (
                layer as int, forward + 1, 0));
            lemma_row_step_skip(n, masks, voxels@, aos, face as int, layer as int, forward as int, p, n,
                self.forward_merged@, self.quads[face as int]@);
        }
        Ghost(own)
    }
}


// ---------------------------------------------------------------------------
// Faces 4 and 5: one grid per bit, rows merged forward and columns rightward
// ---------------------------------------------------------------------------

/// The pending height kept for column `r`, bit `k`.
pub open spec fn fmv(cs: int, fm: Seq<u8>, r: int, k: int) -> int {
    fm[r * cs + k - 1] as int
}

/// The column that bit `k` stands at: bits before `p` have consumed
/// column `r0`.
pub open spec fn cpos(r0: int, p: int, k: int) -> int {
    if k < p {
        r0 + 1
    } else {
        r0
    }
}

/// The `cnt` cells of column `r` above row `fr` of bit `k` are marked and
/// match the marked cell at row `fr`.
pub open spec fn pending_cell(cs: int, masks: Seq<u64>, voxels: Seq<u16>, ao: Seq<u8>, f: int, fr: int, cnt: int,
    r: int, k: int) -> bool {
    cnt > 0 ==> {
        &&& fr < cs
        &&& fr - cnt >= 0
        &&& mask_bit(cs, masks, f, fr, r, k)
        &&& forall|l: int| fr - cnt <= l < fr ==> #[trigger] mask_bit(cs, masks, f, l, r, k)
            && face_type(cs, voxels, f, l, r, k) == face_type(cs, voxels, f, fr, r, k)
            && face_ao(cs, ao, f, l, r, k) == face_ao(cs, ao, f, fr, r, k)
    }
}

/// The `rc` columns before column `c` of bit `k` wait, over rows
/// `l0 - h ..= l0`, to be merged with column `c`, whose cell at row `l0` is
/// marked and matches them all.
pub open spec fn chain_ok(cs: int, masks: Seq<u64>, voxels: Seq<u16>, ao: Seq<u8>, f: int, fm: Seq<u8>, l0: int,
    c: int, rc: int, h: int, k: int) -> bool {
    rc > 0 ==> {
        &&& c < cs
        &&& c - rc >= 0
        &&& l0 - h >= 0
        &&& mask_bit(cs, masks, f, l0, c, k)
        &&& forall|r: int| c - rc <= r < c ==> #[trigger] fmv(cs, fm, r, k) == 0
        &&& forall|l: int, r: int| l0 - h <= l <= l0 && c - rc <= r < c ==> #[trigger] mask_bit(cs, masks, f, l, r, k)
            && face_type(cs, voxels, f, l, r, k) == face_type(cs, voxels, f, l0, c, k)
            && face_ao(cs, ao, f, l, r, k) == face_ao(cs, ao, f, l0, c, k)
    }
}

pub open spec fn in_chain(c: int, rc: int, r: int) -> bool {
    c - rc <= r < c
}

/// A marked cell that is neither pending in its column nor waiting in a
/// chain.
pub open spec fn cols_done(cs: int, masks: Seq<u64>, f: int, l0: int, r0: int, p: int, fm: Seq<u8>, rm: Seq<u8>,
    l: int, r: int, k: int) -> bool {
    let c = cpos(r0, p, k);
    mask_bit(cs, masks, f, l, r, k) && if in_chain(c, rm[k - 1] as int, r) {
        l < l0 - fmv(cs, fm, c, k)
    } else {
        l < frontier(l0, c, r) - fmv(cs, fm, r, k)
    }
}

pub open spec fn own_cols(cs: int, masks: Seq<u64>, f: int, l0: int, r0: int, p: int, fm: Seq<u8>, rm: Seq<u8>, own: Map<
    (int, int, int),
    int,
>) -> bool {
    forall|l: int, r: int, k: int|
        #![trigger own.contains_key((l, r, k))]
        #![trigger mask_bit(cs, masks, f, l, r, k)]
        own.contains_key((l, r, k)) <==> (0 <= l < cs && 0 <= r < cs && 1 <= k <= cs && cols_done(
            cs,
            masks,
            f,
            l0,
            r0,
            p,
            fm,
            rm,
            l,
            r,
            k,
        ))
}

/// The whole merging state of faces 4 and 5 at row `l0`, column `r0`, with
/// the bits before `p` of that cell consumed.
pub open spec fn cols_state(cs: int, masks: Seq<u64>, voxels: Seq<u16>, ao: Seq<u8>, f: int, l0: int, r0: int,
    p: int, fm: Seq<u8>, rm: Seq<u8>, quads: Seq<Quad>, s0: int, own: Map<(int, int, int), int>) -> bool {
    &&& 4 <= f < 6
    &&& 0 <= cs <= cs * cs
    &&& fm.len() == cs * cs
    &&& rm.len() == cs
    &&& forall|r: int, k: int| 0 <= r < cs && 1 <= k <= cs ==> #[trigger] pending_cell(cs, masks, voxels, ao, f,
        frontier(l0, cpos(r0, p, k), r), fmv(cs, fm, r, k), r, k)
    &&& forall|k: int| 1 <= k <= cs ==> #[trigger] chain_ok(cs, masks, voxels, ao, f, fm, l0, cpos(r0, p, k),
        rm[k - 1] as int, fmv(cs, fm, cpos(r0, p, k), k), k)
    &&& own_cols(cs, masks, f, l0, r0, p, fm, rm, own)
    &&& quads_ok(cs, masks, voxels, ao, f, quads, s0, own)
}

pub proof fn lemma_fm_index(cs: int, r: int, k: int)
    requires
        0 <= r < cs,
        1 <= k <= cs,
    ensures
        0 <= r * cs + k - 1 < cs * cs,
{
    assert(0 <= r * cs + k - 1 < cs * cs) by (nonlinear_arith)
        requires 0 <= r < cs, 1 <= k <= cs;
}

pub proof fn lemma_fm_index_injective(cs: int, r: int, k: int, r2: int, k2: int)
    requires
        0 <= r < cs,
        1 <= k <= cs,
        0 <= r2 < cs,
        1 <= k2 <= cs,
        r * cs + k - 1 == r2 * cs + k2 - 1,
    ensures
        r == r2 && k == k2,
{
    assert(r == r2 && k == k2) by (nonlinear_arith)
        requires 0 <= r < cs, 1 <= k <= cs, 0 <= r2 < cs, 1 <= k2 <= cs, r * cs + k == r2 * cs + k2;
}

/// An unmarked cell has nothing pending and no chain waiting on it.
proof fn lemma_cols_unmarked(cs: int, masks: Seq<u64>, voxels: Seq<u16>, ao: Seq<u8>, f: int, l0: int, r0: int,
    p: int, fm: Seq<u8>, rm: Seq<u8>, quads: Seq<Quad>, s0: int, own: Map<(int, int, int), int>, k: int)
    requires
        cols_state(cs, masks, voxels, ao, f, l0, r0, p, fm, rm, quads, s0, own),
        0 <= r0 < cs,
        1 <= k <= cs,
        k >= p,
        !mask_bit(cs, masks, f, l0, r0, k),
    ensures
        fmv(cs, fm, r0, k) == 0,
        rm[k - 1] == 0,
{
    assert(pending_cell(cs, masks, voxels, ao, f, frontier(l0, cpos(r0, p, k), r0), fmv(cs, fm, r0, k), r0, k));
    assert(chain_ok(cs, masks, voxels, ao, f, fm, l0, cpos(r0, p, k), rm[k - 1] as int, fmv(cs, fm, cpos(r0, p, k), k),
        k));
}

/// Stepping past bits with no cell changes nothing.
proof fn lemma_cols_skip(cs: int, masks: Seq<u64>, voxels: Seq<u16>, ao: Seq<u8>, f: int, l0: int, r0: int, p: int,
    p2: int, fm: Seq<u8>, rm: Seq<u8>, quads: Seq<Quad>, s0: int, own: Map<(int, int, int), int>)
    requires
        cols_state(cs, masks, voxels, ao, f, l0, r0, p, fm, rm, quads, s0, own),
        0 <= r0 < cs,
        0 <= p <= p2 <= cs + 1,
        forall|k: int| p <= k < p2 ==> !#[trigger] mask_bit(cs, masks, f, l0, r0, k),
    ensures
        cols_state(cs, masks, voxels, ao, f, l0, r0, p2, fm, rm, quads, s0, own),
{
    assert forall|k: int| 1 <= k <= cs && p <= k < p2 implies fmv(cs, fm, r0, k) == 0 && rm[k - 1] == 0 by {
        lemma_cols_unmarked(cs, masks, voxels, ao, f, l0, r0, p, fm, rm, quads, s0, own, k);
    }
    assert forall|r: int, k: int| 0 <= r < cs && 1 <= k <= cs implies #[trigger] pending_cell(cs, masks, voxels, ao, f,
        frontier(l0, cpos(r0, p2, k), r), fmv(cs, fm, r, k), r, k) by {
        assert(pending_cell(cs, masks, voxels, ao, f, frontier(l0, cpos(r0, p, k), r), fmv(cs, fm, r, k), r, k));
        if p <= k < p2 && r == r0 {
        } else {
            assert(frontier(l0, cpos(r0, p2, k), r) == frontier(l0, cpos(r0, p, k), r));
        }
    }
    assert forall|k: int| 1 <= k <= cs implies #[trigger] chain_ok(cs, masks, voxels, ao, f, fm, l0, cpos(r0, p2, k),
        rm[k - 1] as int, fmv(cs, fm, cpos(r0, p2, k), k), k) by {
        assert(chain_ok(cs, masks, voxels, ao, f, fm, l0, cpos(r0, p, k), rm[k - 1] as int, fmv(cs, fm, cpos(r0, p, k),
            k), k));
    }
    assert forall|l: int, r: int, k: int|
        #![trigger own.contains_key((l, r, k))]
        #![trigger mask_bit(cs, masks, f, l, r, k)]
        own.contains_key((l, r, k)) <==> (0 <= l < cs && 0 <= r < cs && 1 <= k <= cs && cols_done(cs, masks, f, l0, r0,
            p2, fm, rm, l, r, k)) by {
        if 0 <= l < cs && 0 <= r < cs && 1 <= k <= cs {
            if p <= k < p2 {
                lemma_cols_unmarked(cs, masks, voxels, ao, f, l0, r0, p, fm, rm, quads, s0, own, k);
                if r == r0 {
                    assert(fmv(cs, fm, r0, k) == 0);
                    if l == l0 {
                        assert(!mask_bit(cs, masks, f, l0, r0, k));
                    }
                }
            }
            assert(cols_done(cs, masks, f, l0, r0, p2, fm, rm, l, r, k) == cols_done(cs, masks, f, l0, r0, p, fm, rm,
                l, r, k));
        }
    }
}

/// A cell at `p = cs + 1` is the next cell of its row at `p = 0`.
proof fn lemma_cols_next_col(cs: int, masks: Seq<u64>, voxels: Seq<u16>, ao: Seq<u8>, f: int, l0: int, r0: int,
    fm: Seq<u8>, rm: Seq<u8>, quads: Seq<Quad>, s0: int, own: Map<(int, int, int), int>)
    requires
        cols_state(cs, masks, voxels, ao, f, l0, r0, cs + 1, fm, rm, quads, s0, own),
    ensures
        cols_state(cs, masks, voxels, ao, f, l0, r0 + 1, 0, fm, rm, quads, s0, own),
{
    assert forall|r: int, k: int| 0 <= r < cs && 1 <= k <= cs implies #[trigger] pending_cell(cs, masks, voxels, ao, f,
        frontier(l0, cpos(r0 + 1, 0, k), r), fmv(cs, fm, r, k), r, k) by {
        assert(pending_cell(cs, masks, voxels, ao, f, frontier(l0, cpos(r0, cs + 1, k), r), fmv(cs, fm, r, k), r, k));
    }
    assert forall|k: int| 1 <= k <= cs implies #[trigger] chain_ok(cs, masks, voxels, ao, f, fm, l0, cpos(r0 + 1, 0, k),
        rm[k - 1] as int, fmv(cs, fm, cpos(r0 + 1, 0, k), k), k) by {
        assert(chain_ok(cs, masks, voxels, ao, f, fm, l0, cpos(r0, cs + 1, k), rm[k - 1] as int, fmv(cs, fm, cpos(r0, cs
            + 1, k), k), k));
    }
    assert forall|l: int, r: int, k: int|
        #![trigger own.contains_key((l, r, k))]
        #![trigger mask_bit(cs, masks, f, l, r, k)]
        own.contains_key((l, r, k)) <==> (0 <= l < cs && 0 <= r < cs && 1 <= k <= cs && cols_done(cs, masks, f, l0, r0
            + 1, 0, fm, rm, l, r, k)) by {
        if 0 <= l < cs && 0 <= r < cs && 1 <= k <= cs {
            assert(cols_done(cs, masks, f, l0, r0 + 1, 0, fm, rm, l, r, k) == cols_done(cs, masks, f, l0, r0, cs + 1, fm,
                rm, l, r, k));
        }
    }
}

/// At the end of a row no chain waits, and the row is the next row's start.
proof fn lemma_cols_next_row(cs: int, masks: Seq<u64>, voxels: Seq<u16>, ao: Seq<u8>, f: int, l0: int, fm: Seq<u8>,
    rm: Seq<u8>, quads: Seq<Quad>, s0: int, own: Map<(int, int, int), int>)
    requires
        cols_state(cs, masks, voxels, ao, f, l0, cs, 0, fm, rm, quads, s0, own),
    ensures
        cols_state(cs, masks, voxels, ao, f, l0 + 1, 0, 0, fm, rm, quads, s0, own),
        forall|i: int| 0 <= i < cs ==> rm[i] == 0,
{
    assert forall|i: int| 0 <= i < cs implies rm[i] == 0 by {
        let k = i + 1;
        assert(chain_ok(cs, masks, voxels, ao, f, fm, l0, cpos(cs, 0, k), rm[k - 1] as int, fmv(cs, fm, cpos(cs, 0, k),
            k), k));
    }
    assert forall|r: int, k: int| 0 <= r < cs && 1 <= k <= cs implies #[trigger] pending_cell(cs, masks, voxels, ao, f,
        frontier(l0 + 1, cpos(0, 0, k), r), fmv(cs, fm, r, k), r, k) by {
        assert(pending_cell(cs, masks, voxels, ao, f, frontier(l0, cpos(cs, 0, k), r), fmv(cs, fm, r, k), r, k));
    }
    assert forall|k: int| 1 <= k <= cs implies #[trigger] chain_ok(cs, masks, voxels, ao, f, fm, l0 + 1, cpos(0, 0, k),
        rm[k - 1] as int, fmv(cs, fm, cpos(0, 0, k), k), k) by {
        assert(rm[k - 1] == 0);
    }
    assert forall|l: int, r: int, k: int|
        #![trigger own.contains_key((l, r, k))]
        #![trigger mask_bit(cs, masks, f, l, r, k)]
        own.contains_key((l, r, k)) <==> (0 <= l < cs && 0 <= r < cs && 1 <= k <= cs && cols_done(cs, masks, f, l0 + 1,
            0, 0, fm, rm, l, r, k)) by {
        if 0 <= l < cs && 0 <= r < cs && 1 <= k <= cs {
            assert(rm[k - 1] == 0);
            assert(cols_done(cs, masks, f, l0 + 1, 0, 0, fm, rm, l, r, k) == cols_done(cs, masks, f, l0, cs, 0, fm, rm,
                l, r, k));
        }
    }
}

/// A finished face of faces 4 and 5 has nothing pending and is merged.
proof fn lemma_cols_face_done(cs: int, masks: Seq<u64>, voxels: Seq<u16>, ao: Seq<u8>, f: int, fm: Seq<u8>,
    rm: Seq<u8>, quads: Seq<Quad>, s0: int, own: Map<(int, int, int), int>)
    requires
        cols_state(cs, masks, voxels, ao, f, cs, 0, 0, fm, rm, quads, s0, own),
        forall|i: int| 0 <= i < cs ==> rm[i] == 0,
        emitted_in_order(f, quads, s0),
    ensures
        face_merged(cs, masks, voxels, ao, f, quads, s0),
        forall|i: int| 0 <= i < cs * cs ==> fm[i] == 0,
{
    assert forall|i: int| 0 <= i < cs * cs implies fm[i] == 0 by {
        assert(cs > 0) by (nonlinear_arith) requires 0 <= i < cs * cs, cs >= 0;
        let r = i / cs;
        let k = i % cs + 1;
        lemma_fundamental_div_mod(i, cs);
        lemma_mod_pos_bound(i, cs);
        assert(i == r * cs + k - 1 && 0 <= r < cs && 1 <= k <= cs) by (nonlinear_arith)
            requires 0 <= i < cs * cs, i == cs * r + (k - 1), 0 <= k - 1 < cs;
        assert(pending_cell(cs, masks, voxels, ao, f, frontier(cs, cpos(0, 0, k), r), fmv(cs, fm, r, k), r, k));
    }
    assert forall|l: int, r: int, k: int|
        #![trigger own.contains_key((l, r, k))]
        #![trigger mask_bit(cs, masks, f, l, r, k)]
        own.contains_key((l, r, k)) <==> (in_grid(cs, f, l, r, k) && mask_bit(cs, masks, f, l, r, k)) by {
        if 0 <= l < cs && 0 <= r < cs && 1 <= k <= cs {
            lemma_fm_index(cs, r, k);
            assert(rm[k - 1] == 0);
            assert(fmv(cs, fm, r, k) == 0);
        }
    }
    lemma_face_merged(cs, masks, voxels, ao, f, quads, s0, own);
}


/// The index of column `r`, bit `k` differs from that of any other column
/// and bit.
proof fn lemma_fm_other(cs: int, r: int, k: int, r2: int, k2: int)
    requires
        0 <= r < cs,
        1 <= k <= cs,
        0 <= r2 < cs,
        1 <= k2 <= cs,
        r != r2 || k != k2,
    ensures
        r * cs + k - 1 != r2 * cs + k2 - 1,
{
    if r * cs + k - 1 == r2 * cs + k2 - 1 {
        lemma_fm_index_injective(cs, r, k, r2, k2);
    }
}

/// Deferring the cell at row `l0`, column `r0`, bit `k` to the next row
/// keeps the state.
#[verifier::spinoff_prover]
#[verifier::rlimit(40)]
proof fn lemma_cols_defer(cs: int, masks: Seq<u64>, voxels: Seq<u16>, ao: Seq<u8>, f: int, l0: int, r0: int, k: int,
    fm: Seq<u8>, rm: Seq<u8>, quads: Seq<Quad>, s0: int, own: Map<(int, int, int), int>)
    requires
        cols_state(cs, masks, voxels, ao, f, l0, r0, k, fm, rm, quads, s0, own),
        0 <= l0,
        l0 + 1 < cs,
        0 <= r0 < cs,
        1 <= k <= cs,
        rm[k - 1] == 0,
        fmv(cs, fm, r0, k) < 255,
        mask_bit(cs, masks, f, l0, r0, k),
        mask_bit(cs, masks, f, l0 + 1, r0, k),
        face_type(cs, voxels, f, l0, r0, k) == face_type(cs, voxels, f, l0 + 1, r0, k),
        face_ao(cs, ao, f, l0, r0, k) == face_ao(cs, ao, f, l0 + 1, r0, k),
    ensures
        cols_state(cs, masks, voxels, ao, f, l0, r0, k + 1, fm.update(r0 * cs + k - 1, (fmv(cs, fm, r0, k) + 1) as u8),
            rm, quads, s0, own),
{
    let i = r0 * cs + k - 1;
    lemma_fm_index(cs, r0, k);
    let h = fmv(cs, fm, r0, k);
    let fm2 = fm.update(i, (h + 1) as u8);
    assert(fmv(cs, fm2, r0, k) == h + 1);
    assert forall|r: int, kk: int| 0 <= r < cs && 1 <= kk <= cs && (r != r0 || kk != k) implies fmv(cs, fm2, r, kk)
        == fmv(cs, fm, r, kk) by {
        lemma_fm_other(cs, r, kk, r0, k);
        lemma_fm_index(cs, r, kk);
    }
    assert(pending_cell(cs, masks, voxels, ao, f, frontier(l0, cpos(r0, k, k), r0), h, r0, k));
    assert forall|l: int| l0 + 1 - (h + 1) <= l < l0 + 1 implies #[trigger] mask_bit(cs, masks, f, l, r0, k)
        && face_type(cs, voxels, f, l, r0, k) == face_type(cs, voxels, f, l0 + 1, r0, k)
        && face_ao(cs, ao, f, l, r0, k) == face_ao(cs, ao, f, l0 + 1, r0, k) by {
        if l < l0 {
            assert(mask_bit(cs, masks, f, l, r0, k));
        }
    }
    assert forall|r: int, kk: int| 0 <= r < cs && 1 <= kk <= cs implies #[trigger] pending_cell(cs, masks, voxels, ao,
        f, frontier(l0, cpos(r0, k + 1, kk), r), fmv(cs, fm2, r, kk), r, kk) by {
        if r == r0 && kk == k {
            assert(frontier(l0, cpos(r0, k + 1, kk), r) == l0 + 1);
        } else {
            assert(pending_cell(cs, masks, voxels, ao, f, frontier(l0, cpos(r0, k, kk), r), fmv(cs, fm, r, kk), r, kk));
            assert(frontier(l0, cpos(r0, k + 1, kk), r) == frontier(l0, cpos(r0, k, kk), r));
        }
    }
    assert forall|kk: int| 1 <= kk <= cs implies #[trigger] chain_ok(cs, masks, voxels, ao, f, fm2, l0, cpos(r0, k + 1,
        kk), rm[kk - 1] as int, fmv(cs, fm2, cpos(r0, k + 1, kk), kk), kk) by {
        if kk != k {
            assert(chain_ok(cs, masks, voxels, ao, f, fm, l0, cpos(r0, k, kk), rm[kk - 1] as int, fmv(cs, fm, cpos(r0,
                k, kk), kk), kk));
            assert(cpos(r0, k + 1, kk) == cpos(r0, k, kk));
            if rm[kk - 1] > 0 {
                let c = cpos(r0, k, kk);
                assert(fmv(cs, fm2, c, kk) == fmv(cs, fm, c, kk));
                assert forall|r: int| c - rm[kk - 1] <= r < c implies #[trigger] fmv(cs, fm2, r, kk) == 0 by {
                    assert(fmv(cs, fm, r, kk) == 0);
                }
            }
        }
    }
    assert forall|l: int, r: int, kk: int|
        #![trigger own.contains_key((l, r, kk))]
        #![trigger mask_bit(cs, masks, f, l, r, kk)]
        own.contains_key((l, r, kk)) <==> (0 <= l < cs && 0 <= r < cs && 1 <= kk <= cs && cols_done(cs, masks, f, l0,
            r0, k + 1, fm2, rm, l, r, kk)) by {
        if 0 <= l < cs && 0 <= r < cs && 1 <= kk <= cs {
            if kk != k {
                let c = cpos(r0, k, kk);
                assert(cpos(r0, k + 1, kk) == c);
                assert(chain_ok(cs, masks, voxels, ao, f, fm, l0, c, rm[kk - 1] as int, fmv(cs, fm, c, kk), kk));
                if in_chain(c, rm[kk - 1] as int, r) {
                    assert(fmv(cs, fm2, c, kk) == fmv(cs, fm, c, kk));
                }
            } else if r != r0 {
                assert(frontier(l0, cpos(r0, k + 1, kk), r) == frontier(l0, cpos(r0, k, kk), r));
            }
            assert(cols_done(cs, masks, f, l0, r0, k + 1, fm2, rm, l, r, kk) == cols_done(cs, masks, f, l0, r0, k, fm,
                rm, l, r, kk));
        }
    }
}


/// Merging the cell at row `l0`, column `r0`, bit `k` into the chain that
/// waits for column `r0 + 1` keeps the state.
proof fn lemma_cols_merge(cs: int, masks: Seq<u64>, voxels: Seq<u16>, ao: Seq<u8>, f: int, l0: int, r0: int, k: int,
    fm: Seq<u8>, rm: Seq<u8>, quads: Seq<Quad>, s0: int, own: Map<(int, int, int), int>)
    requires
        cols_state(cs, masks, voxels, ao, f, l0, r0, k, fm, rm, quads, s0, own),
        0 <= l0 < cs,
        0 <= r0,
        r0 + 1 < cs,
        1 <= k <= cs,
        rm[k - 1] < 255,
        fmv(cs, fm, r0, k) == fmv(cs, fm, r0 + 1, k),
        mask_bit(cs, masks, f, l0, r0, k),
        mask_bit(cs, masks, f, l0, r0 + 1, k),
        face_type(cs, voxels, f, l0, r0, k) == face_type(cs, voxels, f, l0, r0 + 1, k),
        face_ao(cs, ao, f, l0, r0, k) == face_ao(cs, ao, f, l0, r0 + 1, k),
    ensures
        cols_state(cs, masks, voxels, ao, f, l0, r0, k + 1, fm.update(r0 * cs + k - 1, 0u8), rm.update(k - 1,
            (rm[k - 1] + 1) as u8), quads, s0, own),
{
    let i = r0 * cs + k - 1;
    lemma_fm_index(cs, r0, k);
    let h = fmv(cs, fm, r0, k);
    let rc = rm[k - 1] as int;
    let fm2 = fm.update(i, 0u8);
    let rm2 = rm.update(k - 1, (rc + 1) as u8);
    assert(fmv(cs, fm2, r0, k) == 0);
    assert forall|r: int, kk: int| 0 <= r < cs && 1 <= kk <= cs && (r != r0 || kk != k) implies fmv(cs, fm2, r, kk)
        == fmv(cs, fm, r, kk) by {
        lemma_fm_other(cs, r, kk, r0, k);
        lemma_fm_index(cs, r, kk);
    }
    assert(fmv(cs, fm2, r0 + 1, k) == h);
    assert(pending_cell(cs, masks, voxels, ao, f, frontier(l0, cpos(r0, k, k), r0), h, r0, k));
    assert(chain_ok(cs, masks, voxels, ao, f, fm, l0, cpos(r0, k, k), rc, fmv(cs, fm, cpos(r0, k, k), k), k));
    assert forall|r: int, kk: int| 0 <= r < cs && 1 <= kk <= cs implies #[trigger] pending_cell(cs, masks, voxels, ao,
        f, frontier(l0, cpos(r0, k + 1, kk), r), fmv(cs, fm2, r, kk), r, kk) by {
        if r == r0 && kk == k {
        } else {
            assert(pending_cell(cs, masks, voxels, ao, f, frontier(l0, cpos(r0, k, kk), r), fmv(cs, fm, r, kk), r, kk));
            assert(frontier(l0, cpos(r0, k + 1, kk), r) == frontier(l0, cpos(r0, k, kk), r));
        }
    }
    assert forall|r: int| r0 + 1 - (rc + 1) <= r < r0 + 1 implies #[trigger] fmv(cs, fm2, r, k) == 0 by {
        if r < r0 {
            assert(fmv(cs, fm, r, k) == 0);
        }
    }
    assert forall|l: int, r: int| l0 - h <= l <= l0 && r0 + 1 - (rc + 1) <= r < r0 + 1 implies #[trigger] mask_bit(cs,
        masks, f, l, r, k) && face_type(cs, voxels, f, l, r, k) == face_type(cs, voxels, f, l0, r0 + 1, k) && face_ao(
        cs, ao, f, l, r, k) == face_ao(cs, ao, f, l0, r0 + 1, k) by {
        if r < r0 {
            assert(mask_bit(cs, masks, f, l, r, k));
        } else if l < l0 {
            assert(mask_bit(cs, masks, f, l, r0, k));
        }
    }
    assert(chain_ok(cs, masks, voxels, ao, f, fm2, l0, r0 + 1, rc + 1, h, k));
    assert forall|kk: int| 1 <= kk <= cs implies #[trigger] chain_ok(cs, masks, voxels, ao, f, fm2, l0, cpos(r0, k + 1,
        kk), rm2[kk - 1] as int, fmv(cs, fm2, cpos(r0, k + 1, kk), kk), kk) by {
        if kk != k {
            assert(rm2[kk - 1] == rm[kk - 1]);
            assert(chain_ok(cs, masks, voxels, ao, f, fm, l0, cpos(r0, k, kk), rm[kk - 1] as int, fmv(cs, fm, cpos(r0,
                k, kk), kk), kk));
            assert(cpos(r0, k + 1, kk) == cpos(r0, k, kk));
            if rm[kk - 1] > 0 {
                let c = cpos(r0, k, kk);
                assert(fmv(cs, fm2, c, kk) == fmv(cs, fm, c, kk));
                assert forall|r: int| c - rm[kk - 1] <= r < c implies #[trigger] fmv(cs, fm2, r, kk) == 0 by {
                    assert(fmv(cs, fm, r, kk) == 0);
                }
            }
        }
    }
    assert forall|l: int, r: int, kk: int|
        #![trigger own.contains_key((l, r, kk))]
        #![trigger mask_bit(cs, masks, f, l, r, kk)]
        own.contains_key((l, r, kk)) <==> (0 <= l < cs && 0 <= r < cs && 1 <= kk <= cs && cols_done(cs, masks, f, l0,
            r0, k + 1, fm2, rm2, l, r, kk)) by {
        if 0 <= l < cs && 0 <= r < cs && 1 <= kk <= cs {
            if kk != k {
                let c = cpos(r0, k, kk);
                assert(rm2[kk - 1] == rm[kk - 1]);
                assert(cpos(r0, k + 1, kk) == c);
                assert(chain_ok(cs, masks, voxels, ao, f, fm, l0, c, rm[kk - 1] as int, fmv(cs, fm, c, kk), kk));
                if in_chain(c, rm[kk - 1] as int, r) {
                    assert(fmv(cs, fm2, c, kk) == fmv(cs, fm, c, kk));
                }
            } else if r != r0 {
                assert(frontier(l0, cpos(r0, k + 1, kk), r) == frontier(l0, cpos(r0, k, kk), r));
            }
            assert(cols_done(cs, masks, f, l0, r0, k + 1, fm2, rm2, l, r, kk) == cols_done(cs, masks, f, l0, r0, k, fm,
                rm, l, r, kk));
        }
    }
}


/// The cells of a quad of faces 4 and 5 about to be emitted: rows
/// `l0 - h ..= l0` of columns `r0 - rc ..= r0`, at bit `k`.
pub open spec fn col_cells(l0: int, r0: int, k: int, h: int, rc: int) -> spec_fn(int, int, int) -> bool {
    |l: int, r: int, kk: int| kk == k && l0 - h <= l <= l0 && r0 - rc <= r <= r0
}

/// Emitting the quad that closes the cell at row `l0`, column `r0`, bit `k`
/// with its pending rows and waiting columns keeps the state.
proof fn lemma_cols_emit(cs: int, masks: Seq<u64>, voxels: Seq<u16>, ao: Seq<u8>, f: int, l0: int, r0: int, k: int,
    fm: Seq<u8>, rm: Seq<u8>, quads: Seq<Quad>, s0: int, own: Map<(int, int, int), int>, q: Quad)
    requires
        cols_state(cs, masks, voxels, ao, f, l0, r0, k, fm, rm, quads, s0, own),
        0 <= l0 < cs,
        0 <= r0 < cs,
        1 <= k <= cs,
        mask_bit(cs, masks, f, l0, r0, k),
        q.spec_voxel_id() == face_type(cs, voxels, f, l0, r0, k),
        q.ao_bits() == face_ao(cs, ao, f, l0, r0, k),
        forall|l: int, r: int, kk: int| #[trigger] covers(f, q, l, r, kk) == col_cells(l0, r0, k, fmv(cs, fm, r0, k),
            rm[k - 1] as int)(l, r, kk),
        stops_forward(cs, masks, voxels, ao, f, q),
    ensures
        cols_state(cs, masks, voxels, ao, f, l0, r0, k + 1, fm.update(r0 * cs + k - 1, 0u8), rm.update(k - 1, 0u8),
            quads.push(q), s0, add_rect(own, col_cells(l0, r0, k, fmv(cs, fm, r0, k), rm[k - 1] as int),
            quads.len() as int)),
{
    let i = r0 * cs + k - 1;
    lemma_fm_index(cs, r0, k);
    let h = fmv(cs, fm, r0, k);
    let rc = rm[k - 1] as int;
    let fm2 = fm.update(i, 0u8);
    let rm2 = rm.update(k - 1, 0u8);
    let inr = col_cells(l0, r0, k, h, rc);
    assert(fmv(cs, fm2, r0, k) == 0);
    assert forall|r: int, kk: int| 0 <= r < cs && 1 <= kk <= cs && (r != r0 || kk != k) implies fmv(cs, fm2, r, kk)
        == fmv(cs, fm, r, kk) by {
        lemma_fm_other(cs, r, kk, r0, k);
        lemma_fm_index(cs, r, kk);
    }
    assert(pending_cell(cs, masks, voxels, ao, f, frontier(l0, cpos(r0, k, k), r0), h, r0, k));
    assert(chain_ok(cs, masks, voxels, ao, f, fm, l0, cpos(r0, k, k), rc, fmv(cs, fm, cpos(r0, k, k), k), k));
    assert(l0 - h >= 0 && r0 - rc >= 0);
    assert forall|l: int, r: int, kk: int| #[trigger] inr(l, r, kk) implies face_type(cs, voxels, f, l, r, kk)
        == q.spec_voxel_id() && face_ao(cs, ao, f, l, r, kk) == q.ao_bits() && mask_bit(cs, masks, f, l, r, kk) by {
        if r < r0 {
            assert(mask_bit(cs, masks, f, l, r, k));
        } else if l < l0 {
            assert(mask_bit(cs, masks, f, l, r0, k));
        }
    }
    assert forall|l: int, r: int, kk: int| #[trigger] inr(l, r, kk) implies !own.contains_key((l, r, kk)) by {
        assert(!cols_done(cs, masks, f, l0, r0, k, fm, rm, l, r, kk));
    }
    assert(inr(l0, r0, k));
    assert(covers(f, q, l0, r0, k));
    lemma_push_quad(cs, masks, voxels, ao, f, quads, s0, own, q, inr);
    let own2 = add_rect(own, inr, quads.len() as int);
    assert forall|r: int, kk: int| 0 <= r < cs && 1 <= kk <= cs implies #[trigger] pending_cell(cs, masks, voxels, ao,
        f, frontier(l0, cpos(r0, k + 1, kk), r), fmv(cs, fm2, r, kk), r, kk) by {
        if r == r0 && kk == k {
        } else {
            assert(pending_cell(cs, masks, voxels, ao, f, frontier(l0, cpos(r0, k, kk), r), fmv(cs, fm, r, kk), r, kk));
            assert(frontier(l0, cpos(r0, k + 1, kk), r) == frontier(l0, cpos(r0, k, kk), r));
        }
    }
    assert forall|kk: int| 1 <= kk <= cs implies #[trigger] chain_ok(cs, masks, voxels, ao, f, fm2, l0, cpos(r0, k + 1,
        kk), rm2[kk - 1] as int, fmv(cs, fm2, cpos(r0, k + 1, kk), kk), kk) by {
        if kk == k {
            assert(rm2[k - 1] == 0);
        }
        if kk != k {
            assert(rm2[kk - 1] == rm[kk - 1]);
            assert(chain_ok(cs, masks, voxels, ao, f, fm, l0, cpos(r0, k, kk), rm[kk - 1] as int, fmv(cs, fm, cpos(r0,
                k, kk), kk), kk));
            assert(cpos(r0, k + 1, kk) == cpos(r0, k, kk));
            if rm[kk - 1] > 0 {
                let c = cpos(r0, k, kk);
                assert(fmv(cs, fm2, c, kk) == fmv(cs, fm, c, kk));
                assert forall|r: int| c - rm[kk - 1] <= r < c implies #[trigger] fmv(cs, fm2, r, kk) == 0 by {
                    assert(fmv(cs, fm, r, kk) == 0);
                }
            }
        }
    }
    assert forall|l: int, r: int, kk: int|
        #![trigger own2.contains_key((l, r, kk))]
        #![trigger mask_bit(cs, masks, f, l, r, kk)]
        own2.contains_key((l, r, kk)) <==> (0 <= l < cs && 0 <= r < cs && 1 <= kk <= cs && cols_done(cs, masks, f, l0,
            r0, k + 1, fm2, rm2, l, r, kk)) by {
        if inr(l, r, kk) {
            assert(mask_bit(cs, masks, f, l, r, kk));
            assert(fmv(cs, fm2, r, k) == 0) by {
                if r < r0 {
                    assert(fmv(cs, fm, r, k) == 0);
                }
            }
            assert(cols_done(cs, masks, f, l0, r0, k + 1, fm2, rm2, l, r, kk));
        } else {
            assert(own2.contains_key((l, r, kk)) == own.contains_key((l, r, kk)));
            if 0 <= l < cs && 0 <= r < cs && 1 <= kk <= cs {
                if kk != k {
                    let c = cpos(r0, k, kk);
                    assert(rm2[kk - 1] == rm[kk - 1]);
                    assert(cpos(r0, k + 1, kk) == c);
                    assert(chain_ok(cs, masks, voxels, ao, f, fm, l0, c, rm[kk - 1] as int, fmv(cs, fm, c, kk), kk));
                    if in_chain(c, rm[kk - 1] as int, r) {
                        assert(fmv(cs, fm2, c, kk) == fmv(cs, fm, c, kk));
                    }
                    assert(cols_done(cs, masks, f, l0, r0, k + 1, fm2, rm2, l, r, kk) == cols_done(cs, masks, f, l0,
                        r0, k, fm, rm, l, r, kk));
                } else if r0 - rc <= r <= r0 {
                    if r < r0 {
                        assert(fmv(cs, fm, r, k) == 0);
                    }
                    assert(fmv(cs, fm2, r, k) == 0);
                    assert(cols_done(cs, masks, f, l0, r0, k + 1, fm2, rm2, l, r, kk) == (mask_bit(cs, masks, f, l, r,
                        kk) && l <= l0));
                    assert(cols_done(cs, masks, f, l0, r0, k, fm, rm, l, r, kk) == (mask_bit(cs, masks, f, l, r, kk)
                        && l < l0 - h));
                } else {
                    assert(frontier(l0, cpos(r0, k + 1, kk), r) == frontier(l0, cpos(r0, k, kk), r));
                    assert(cols_done(cs, masks, f, l0, r0, k + 1, fm2, rm2, l, r, kk) == cols_done(cs, masks, f, l0,
                        r0, k, fm, rm, l, r, kk));
                }
            }
        }
    }
}


impl<const CS: usize> GreedyMesher<CS> {
    /// Merges the cell at row `forward`, column `right` of face `face` (4 or
    /// 5), bit by bit: each marked bit either waits for the matching bit of
    /// the next row, joins the matching bit of the next column, or closes a
    /// quad over its pending rows and waiting columns.
    #[verifier::spinoff_prover]
    fn merge_col_cols(&mut self, voxels: &[u16], face: usize, forward: usize, right: usize, Ghost(s0): Ghost<int>,
        Ghost(own0): Ghost<Map<(int, int, int), int>>) -> (own: Ghost<Map<(int, int, int), int>>)
        requires
            merge_shape(CS as int, old(self).face_masks@, old(self).ao_faces@, old(self).forward_merged@,
                old(self).right_merged@),
            4 <= face < 6,
            forward < CS,
            right < CS,
            voxels@.len() >= pad(CS as int) * pad(CS as int) * pad(CS as int),
            cols_state(CS as int, old(self).face_masks@, voxels@, old(self).ao_faces@, face as int, forward as int,
                right as int, 0, old(self).forward_merged@, old(self).right_merged@, old(self).quads[face as int]@, s0,
                own0),
            ordered_before(face as int, old(self).quads[face as int]@, s0, (forward as int, right as int, 0)),
        ensures
            merge_shape(CS as int, final(self).face_masks@, final(self).ao_faces@, final(self).forward_merged@,
                final(self).right_merged@),
            final(self).face_masks == old(self).face_masks,
            final(self).ao_faces == old(self).ao_faces,
            forall|j: int| 0 <= j < 6 && j != face ==> final(self).quads[j] == old(self).quads[j],
            extends(final(self).quads[face as int]@, old(self).quads[face as int]@),
            cols_state(CS as int, final(self).face_masks@, voxels@, final(self).ao_faces@, face as int, forward as int,
                right + 1, 0, final(self).forward_merged@, final(self).right_merged@, final(self).quads[face as int]@,
                s0, own@),
            ordered_before(face as int, final(self).quads[face as int]@, s0, (forward as int, right + 1, 0)),
            (final(self).forward_merged@, final(self).right_merged@, final(self).quads[face as int]@) == col_step(
                CS as int,
                old(self).face_masks@,
                voxels@,
                old(self).ao_faces@,
                face as int,
                forward as int,
                right as int,
                0,
                old(self).forward_merged@,
                old(self).right_merged@,
                old(self).quads[face as int]@,
            ),
    {
        let ghost n = CS as int;
        let ghost masks = self.face_masks@;
        let ghost aos = self.ao_faces@;
        proof {
            assert(CS * CS <= 63 * 63) by (nonlinear_arith) requires CS <= 63;
            assert(forward * CS <= 63 * 63 && right * CS <= 63 * 63) by (nonlinear_arith)
                requires forward < CS, right < CS, CS <= 63;
            lemma_midx_bounds(n, face as int, forward as int, right as int);
        }
        let cs_2 = CS * CS;
        let axis = face / 2;
        let bits_location = forward * CS + face * cs_2;
        let mut bits_here = self.face_masks[right + bits_location];
        let ghost cell_bits = bits_here;
        let ghost fm_init = self.forward_merged@;
        let ghost rm_init = self.right_merged@;
        let ghost q_init = self.quads[face as int]@;
        let ghost mut own = own0;
        let ghost mut p: int = 0;
        if bits_here == 0 {
            proof {
                lemma_zero_iff_no_bits(bits_here);
                assert forall|k: int| 0 <= k < n + 1 implies !#[trigger] mask_bit(n, masks, face as int,
                    forward as int, right as int, k) by {
                    if 0 <= k < 64 {
                        assert(!bit(cell_bits, k));
                    } else {
                        assert(!bit_in_range(n, face as int, k));
                    }
                }
                lemma_cols_skip(n, masks, voxels@, aos, face as int, forward as int, right as int, 0, n + 1,
                    self.forward_merged@, self.right_merged@, self.quads[face as int]@, s0, own);
                lemma_cols_next_col(n, masks, voxels@, aos, face as int, forward as int, right as int,
                    self.forward_merged@, self.right_merged@, self.quads[face as int]@, s0, own);
                lemma_ordered_later(face as int, self.quads[face as int]@, s0, (forward as int, right as int, 0), (
                    forward as int, right + 1, 0));
                lemma_col_step_skip(n, masks, voxels@, aos, face as int, forward as int, right as int, 0, n + 1, fm_init, rm_init, q_init);
            }
            return Ghost(own);
        }
        let bits_forward = if forward < CS - 1 {
            proof {
                lemma_midx_bounds(n, face as int, forward + 1, right as int);
            }
            self.face_masks[right + (forward + 1) * CS + face * cs_2]
        } else {
            0
        };
        let bits_right = if right < CS - 1 {
            proof {
                lemma_midx_bounds(n, face as int, forward as int, right + 1);
            }
            self.face_masks[right + 1 + bits_location]
        } else {
            0
        };
        proof {
            lemma_zero_iff_no_bits(0);
        }
        let right_cs = right * CS;
        while bits_here != 0
            invariant
                n == CS as int,
                merge_shape(n, self.face_masks@, self.ao_faces@, self.forward_merged@, self.right_merged@),
                4 <= face < 6,
                forward < CS,
                right < CS,
                axis == face / 2,
                right_cs == right * CS,
                right * CS <= 63 * 63,
                voxels@.len() >= pad(n) * pad(n) * pad(n),
                self.face_masks@ == masks,
                self.ao_faces@ == aos,
                self.face_masks == old(self).face_masks,
                self.ao_faces == old(self).ao_faces,
                forall|j: int| 0 <= j < 6 && j != face ==> self.quads[j] == old(self).quads[j],
                extends(self.quads[face as int]@, old(self).quads[face as int]@),
                cell_bits == masks[midx(n, face as int, forward as int, right as int)],
                forall|k: int| #[trigger] bit(bits_forward, k) ==> forward + 1 < CS && mask_bit(n, masks, face as int,
                    forward + 1, right as int, k),
                forward + 1 < CS ==> bits_forward == masks[midx(n, face as int, forward + 1, right as int)],
                forall|k: int| #[trigger] bit(bits_right, k) ==> right + 1 < CS && mask_bit(n, masks, face as int,
                    forward as int, right + 1, k),
                0 <= p <= n + 1,
                forall|k: int| #[trigger] bit(bits_here, k) == (bit(cell_bits, k) && k >= p),
                cols_state(n, masks, voxels@, aos, face as int, forward as int, right as int, p,
                    self.forward_merged@, self.right_merged@, self.quads[face as int]@, s0, own),
                ordered_before(face as int, self.quads[face as int]@, s0, (forward as int, right as int, p)),
                col_step(n, masks, voxels@, aos, face as int, forward as int, right as int, p, self.forward_merged@, self.right_merged@, self.quads[face as int]@) == col_step(n, masks, voxels@, aos, face as int, forward as int, right as int, 0, fm_init, rm_init, q_init),
                right + 1 < CS ==> bits_right == masks[midx(n, face as int, forward as int, right + 1)],
            decreases bits_here,
        {
            proof {
                lemma_lowest_bit(bits_here);
            }
            let bit_pos = bits_here.trailing_zeros() as usize;
            proof {
                assert(bit(cell_bits, bit_pos as int));
                assert(mask_bit(n, masks, face as int, forward as int, right as int, bit_pos as int));
                assert(1 <= bit_pos <= CS);
                assert(bit_pos >= p);
                assert forall|k: int| p <= k < bit_pos implies !#[trigger] mask_bit(n, masks, face as int,
                    forward as int, right as int, k) by {
                    assert(!bit(bits_here, k));
                }
                lemma_cols_skip(n, masks, voxels@, aos, face as int, forward as int, right as int, p, bit_pos as int,
                    self.forward_merged@, self.right_merged@, self.quads[face as int]@, s0, own);
                lemma_ordered_later(face as int, self.quads[face as int]@, s0, (forward as int, right as int, p), (
                    forward as int, right as int, bit_pos as int));
                lemma_col_step_skip(n, masks, voxels@, aos, face as int, forward as int, right as int, p, bit_pos as int, self.forward_merged@, self.right_merged@,
                    self.quads[face as int]@);
                p = bit_pos as int;
                lemma_clear_one(bits_here, bit_pos as u64);
                let bh = bits_here;
                let bp = bit_pos as u64;
                assert(bh & !(1u64 << bp) < bh) by (bit_vector)
                    requires bp < 64, (bh >> bp) & 1u64 == 1u64;
            }
            bits_here = bits_here & !(1u64 << bit_pos as u64);
            proof {
                lemma_axis_index_cell(n, face as int, forward as int, right as int, bit_pos as int);
                lemma_fm_index(n, right as int, bit_pos as int);
                assert(right_cs + (bit_pos - 1) == right * CS + bit_pos - 1);
                assert(pending_cell(n, masks, voxels@, aos, face as int, frontier(forward as int, cpos(right as int,
                    p, bit_pos as int), right as int), fmv(n, self.forward_merged@, right as int, bit_pos as int),
                    right as int, bit_pos as int));
                assert(chain_ok(n, masks, voxels@, aos, face as int, self.forward_merged@, forward as int, cpos(
                    right as int, p, bit_pos as int), self.right_merged@[bit_pos - 1] as int, fmv(n,
                    self.forward_merged@, cpos(right as int, p, bit_pos as int), bit_pos as int), bit_pos as int));
                lemma_test_bit(bits_forward, bit_pos as u64);
                lemma_test_bit(bits_right, bit_pos as u64);
                lemma_axis_index_cell(n, face as int, forward + 1, right as int, bit_pos as int);
            }
            let v_type = voxels[get_axis_index::<CS>(axis, right + 1, forward + 1, bit_pos)];
            let ao_here = self.get_ao(face, forward, right, bit_pos - 1);
            let forward_merge_i = right_cs + (bit_pos - 1);
            let ao_forward = if (bits_forward >> bit_pos as u64 & 1) != 0 {
                self.get_ao(face, forward + 1, right, bit_pos - 1)
            } else {
                255
            };
            let ao_right = if (bits_right >> bit_pos as u64 & 1) != 0 {
                self.get_ao(face, forward, right + 1, bit_pos - 1)
            } else {
                255
            };
            let rm_here = self.right_merged[bit_pos - 1];
            let ghost jn = col_joins_next_row(n, masks, voxels@, aos, face as int, forward as int, right as int, bit_pos as int, self.right_merged@);
            let ghost jr = col_joins_right(n, masks, voxels@, aos, face as int, forward as int, right as int, bit_pos as int, self.forward_merged@);
            let ghost st0 = (self.forward_merged@, self.right_merged@, self.quads[face as int]@);
            proof {
                lemma_axis_index_cell(n, face as int, forward as int, right + 1, bit_pos as int);
                if forward + 1 < CS && mask_bit(n, masks, face as int, forward + 1, right as int, bit_pos as int) {
                    assert(bit(bits_forward, bit_pos as int));
                }
                if right + 1 < CS && mask_bit(n, masks, face as int, forward as int, right + 1, bit_pos as int) {
                    assert(bit(bits_right, bit_pos as int));
                }
            }
            if rm_here == 0 && (bits_forward >> bit_pos as u64 & 1) != 0 && v_type == voxels[get_axis_index::<CS>(
                axis,
                right + 1,
                forward + 2,
                bit_pos,
            )] && ao_here == ao_forward {
                proof {
                    lemma_axis_index_cell(n, face as int, forward + 1, right as int, bit_pos as int);
                    lemma_cols_defer(n, masks, voxels@, aos, face as int, forward as int, right as int, bit_pos as int,
                        self.forward_merged@, self.right_merged@, self.quads[face as int]@, s0, own);
                    lemma_ordered_later(face as int, self.quads[face as int]@, s0, (forward as int, right as int, p), (
                        forward as int, right as int, bit_pos + 1));
                    assert(jn);
                    p = bit_pos + 1;
                }
                let fm_here = self.forward_merged[forward_merge_i];
                self.forward_merged.set(forward_merge_i, fm_here + 1);
                proof {
                    assert(col_step(n, masks, voxels@, aos, face as int, forward as int, right as int, bit_pos as int, st0.0, st0.1, st0.2) == col_step(n, masks, voxels@, aos, face as int, forward as int, right as int,
                        bit_pos + 1, self.forward_merged@, self.right_merged@, self.quads[face as int]@));
                }
                continue;
            }
            let ghost stop = rm_here == 0 ==> !(forward + 1 < CS && mask_bit(n, masks, face as int, forward + 1,
                right as int, bit_pos as int) && face_type(n, voxels@, face as int, forward + 1, right as int, bit_pos as int)
                == v_type && face_ao(n, aos, face as int, forward + 1, right as int, bit_pos as int) == ao_here);
            proof {
                if forward + 1 < CS && mask_bit(n, masks, face as int, forward + 1, right as int, bit_pos as int) {
                    assert(bit(bits_forward, bit_pos as int));
                }
                assert(stop);
            }
            proof {
                if bit(bits_right, bit_pos as int) {
                    lemma_fm_index(n, right + 1, bit_pos as int);
                    assert((right_cs + CS) + (bit_pos - 1) == (right + 1) * CS + bit_pos - 1) by (nonlinear_arith)
                        requires right_cs == right * CS;
                }
            }
            if (bits_right >> bit_pos as u64 & 1) != 0 && self.forward_merged[forward_merge_i]
                == self.forward_merged[(right_cs + CS) + (bit_pos - 1)] && v_type == voxels[get_axis_index::<CS>(
                axis,
                right + 2,
                forward + 1,
                bit_pos,
            )] && ao_here == ao_right {
                proof {
                    lemma_axis_index_cell(n, face as int, forward as int, right + 1, bit_pos as int);
                    lemma_cols_merge(n, masks, voxels@, aos, face as int, forward as int, right as int, bit_pos as int,
                        self.forward_merged@, self.right_merged@, self.quads[face as int]@, s0, own);
                    lemma_ordered_later(face as int, self.quads[face as int]@, s0, (forward as int, right as int, p), (
                        forward as int, right as int, bit_pos + 1));
                    assert(!jn);
                    assert(jr);
                    p = bit_pos + 1;
                }
                self.forward_merged.set(forward_merge_i, 0);
                self.right_merged.set(bit_pos - 1, rm_here + 1);
                proof {
                    assert(col_step(n, masks, voxels@, aos, face as int, forward as int, right as int, bit_pos as int, st0.0, st0.1, st0.2) == col_step(n, masks, voxels@, aos, face as int, forward as int, right as int,
                        bit_pos + 1, self.forward_merged@, self.right_merged@, self.quads[face as int]@));
                }
                continue;
            }
            let ghost old_fm = self.forward_merged@;
            let ghost old_rm = self.right_merged@;
            let fm_here = self.forward_merged[forward_merge_i];
            proof {
                if fm_here > 0 {
                    assert(fm_here <= forward);
                }
                if rm_here > 0 {
                    assert(rm_here <= right);
                }
            }
            let mesh_left = right - rm_here as usize;
            let mesh_front = forward - fm_here as usize;
            proof {
                lemma_not_face_even(face);
            }
            let mesh_up = bit_pos - 1 + (!face & 1);
            let mesh_width = 1 + rm_here;
            let mesh_length = 1 + fm_here;
            self.forward_merged.set(forward_merge_i, 0);
            self.right_merged.set(bit_pos - 1, 0);
            let quad = Quad::pack(
                mesh_left + (if face == 4 { mesh_width } else { 0 }) as usize,
                mesh_front,
                mesh_up,
                mesh_width as usize,
                mesh_length as usize,
                v_type as usize,
                ao_here,
            );
            proof {
                let h = fm_here as int;
                let rc = rm_here as int;
                assert forall|l: int, r: int, kk: int| #[trigger] covers(face as int, quad, l, r, kk) == col_cells(
                    forward as int, right as int, bit_pos as int, h, rc)(l, r, kk) by {}
                if rm_here == 0 {
                    assert(forward_next(face as int, quad) == Some((forward + 1, right as int, bit_pos as int)));
                } else {
                    assert(forward_next(face as int, quad) is None);
                }
                assert(emit_key(face as int, quad) == (forward as int, right as int, bit_pos as int));
                assert(!jn);
                assert(!jr);
                assert(quad == col_quad(face as int, forward as int, right as int, bit_pos as int, rm_here as int,
                    fm_here as int, v_type, ao_here));
                assert(col_step(n, masks, voxels@, aos, face as int, forward as int, right as int, bit_pos as int, st0.0, st0.1, st0.2) == col_step(n, masks, voxels@, aos, face as int, forward as int, right as int,
                    bit_pos + 1, self.forward_merged@, self.right_merged@, self.quads[face as int]@.push(quad)));
                lemma_ordered_push(face as int, self.quads[face as int]@, s0, quad, (forward as int, right as int,
                    bit_pos as int), (forward as int, right as int, bit_pos + 1));
                lemma_cols_emit(n, masks, voxels@, aos, face as int, forward as int, right as int, bit_pos as int,
                    old_fm, old_rm, self.quads[face as int]@, s0, own, quad);
                own = add_rect(own, col_cells(forward as int, right as int, bit_pos as int, h, rc),
                    self.quads[face as int]@.len() as int);
                p = bit_pos + 1;
            }
            self.quads[face].push(quad);
        }
        proof {
            lemma_zero_iff_no_bits(bits_here);
            assert forall|k: int| p <= k < n + 1 implies !#[trigger] mask_bit(n, masks, face as int, forward as int,
                right as int, k) by {
                if 0 <= k < 64 {
                    assert(!bit(bits_here, k));
                } else {
                    assert(!bit_in_range(n, face as int, k));
                }
            }
            lemma_cols_skip(n, masks, voxels@, aos, face as int, forward as int, right as int, p, n + 1,
                self.forward_merged@, self.right_merged@, self.quads[face as int]@, s0, own);
            lemma_cols_next_col(n, masks, voxels@, aos, face as int, forward as int, right as int,
                self.forward_merged@, self.right_merged@, self.quads[face as int]@, s0, own);
            lemma_ordered_later(face as int, self.quads[face as int]@, s0, (forward as int, right as int, p), (
                forward as int, right + 1, 0));
            lemma_col_step_skip(n, masks, voxels@, aos, face as int, forward as int, right as int, p, n + 1, self.forward_merged@, self.right_merged@,
                self.quads[face as int]@);
        }
        Ghost(own)
    }
}


/// With nothing pending, merging faces 0 to 3 starts at layer 0, row 0,
/// owning no cell.
proof fn lemma_rows_start(cs: int, masks: Seq<u64>, voxels: Seq<u16>, ao: Seq<u8>, f: int, fm: Seq<u8>,
    quads: Seq<Quad>)
    requires
        0 <= f < 4,
        0 <= cs <= cs * cs,
        fm.len() == cs * cs,
        forall|i: int| 0 <= i < cs * cs ==> fm[i] == 0,
    ensures
        rows_state(cs, masks, voxels, ao, f, 0, 0, 0, fm, quads, quads.len() as int, Map::empty()),
{
    assert forall|k: int| 0 <= k < cs implies #[trigger] pending_col(cs, masks, voxels, ao, f, 0, frontier(0, 0, k),
        fm[k] as int, k) by {
        assert(fm[k] == 0);
    }
}

/// With nothing pending or waiting, merging faces 4 and 5 starts at row 0,
/// column 0, owning no cell.
proof fn lemma_cols_start(cs: int, masks: Seq<u64>, voxels: Seq<u16>, ao: Seq<u8>, f: int, fm: Seq<u8>, rm: Seq<u8>,
    quads: Seq<Quad>)
    requires
        4 <= f < 6,
        0 <= cs <= cs * cs,
        fm.len() == cs * cs,
        rm.len() == cs,
        forall|i: int| 0 <= i < cs * cs ==> fm[i] == 0,
        forall|i: int| 0 <= i < cs ==> rm[i] == 0,
    ensures
        cols_state(cs, masks, voxels, ao, f, 0, 0, 0, fm, rm, quads, quads.len() as int, Map::empty()),
{
    let own = Map::<(int, int, int), int>::empty();
    assert forall|r: int, k: int| 0 <= r < cs && 1 <= k <= cs implies #[trigger] pending_cell(cs, masks, voxels, ao, f,
        frontier(0, cpos(0, 0, k), r), fmv(cs, fm, r, k), r, k) by {
        lemma_fm_index(cs, r, k);
    }
    assert forall|k: int| 1 <= k <= cs implies #[trigger] chain_ok(cs, masks, voxels, ao, f, fm, 0, cpos(0, 0, k),
        rm[k - 1] as int, fmv(cs, fm, cpos(0, 0, k), k), k) by {
        assert(rm[k - 1] == 0);
    }
    assert forall|l: int, r: int, k: int|
        #![trigger own.contains_key((l, r, k))]
        #![trigger mask_bit(cs, masks, f, l, r, k)]
        own.contains_key((l, r, k)) <==> (0 <= l < cs && 0 <= r < cs && 1 <= k <= cs && cols_done(cs, masks, f, 0, 0,
            0, fm, rm, l, r, k)) by {
        if 0 <= l < cs && 0 <= r < cs && 1 <= k <= cs {
            assert(rm[k - 1] == 0);
            lemma_fm_index(cs, r, k);
        }
    }
}


impl<const CS: usize> GreedyMesher<CS> {
    /// Merges the marked cells of every face into quads, appended to that
    /// face's list: faces 0 to 3 row by row within each layer, faces 4 and 5
    /// cell by cell within each row.
    pub(super) fn face_merging(&mut self, voxels: &[u16])
        requires
            merge_shape(CS as int, old(self).face_masks@, old(self).ao_faces@, old(self).forward_merged@,
                old(self).right_merged@),
            forall|i: int| 0 <= i < CS * CS ==> old(self).forward_merged@[i] == 0,
            forall|i: int| 0 <= i < CS ==> old(self).right_merged@[i] == 0,
            voxels@.len() >= pad(CS as int) * pad(CS as int) * pad(CS as int),
        ensures
            merge_shape(CS as int, final(self).face_masks@, final(self).ao_faces@, final(self).forward_merged@,
                final(self).right_merged@),
            final(self).face_masks == old(self).face_masks,
            final(self).ao_faces == old(self).ao_faces,
            forall|i: int| 0 <= i < CS * CS ==> final(self).forward_merged@[i] == 0,
            forall|i: int| 0 <= i < CS ==> final(self).right_merged@[i] == 0,
            forall|f: int|
                0 <= f < 6 ==> extends(#[trigger] final(self).quads[f]@, old(self).quads[f]@) && face_merged(
                    CS as int,
                    final(self).face_masks@,
                    voxels@,
                    final(self).ao_faces@,
                    f,
                    final(self).quads[f]@,
                    old(self).quads[f]@.len() as int,
                ),
            forall|f: int|
                0 <= f < 4 ==> #[trigger] final(self).quads[f]@ == face_rows(CS as int, old(self).face_masks@, voxels@,
                    old(self).ao_faces@, f, 0, zeros(CS * CS), old(self).quads[f]@).1,
            forall|f: int|
                4 <= f < 6 ==> #[trigger] final(self).quads[f]@ == face_cols(CS as int, old(self).face_masks@, voxels@,
                    old(self).ao_faces@, f, 0, zeros(CS * CS), zeros(CS as int), old(self).quads[f]@).2,
    {
        let ghost n = CS as int;
        let ghost masks = self.face_masks@;
        let ghost aos = self.ao_faces@;
        let mut face: usize = 0;
        while face < 4
            invariant
                n == CS as int,
                face <= 4,
                merge_shape(n, self.face_masks@, self.ao_faces@, self.forward_merged@, self.right_merged@),
                voxels@.len() >= pad(n) * pad(n) * pad(n),
                self.face_masks@ == masks,
                self.ao_faces@ == aos,
                self.face_masks == old(self).face_masks,
                self.ao_faces == old(self).ao_faces,
                forall|i: int| 0 <= i < n * n ==> self.forward_merged@[i] == 0,
                forall|i: int| 0 <= i < n ==> self.right_merged@[i] == 0,
                forall|f: int|
                    0 <= f < face ==> extends(#[trigger] self.quads[f]@, old(self).quads[f]@) && face_merged(n, masks,
                        voxels@, aos, f, self.quads[f]@, old(self).quads[f]@.len() as int),
                forall|f: int| face <= f < 6 ==> #[trigger] self.quads[f] == old(self).quads[f],
                forall|f: int| 0 <= f < face ==> #[trigger] self.quads[f]@ == face_rows(n, masks, voxels@, aos, f, 0, zeros(n * n), old(self).quads[f]@).1,
                self.forward_merged@.len() == n * n,
            decreases 4 - face,
        {
            let ghost qs = self.quads;
            let ghost s0 = self.quads[face as int]@.len() as int;
            let ghost mut own: Map<(int, int, int), int> = Map::empty();
            proof {
                lemma_rows_start(n, masks, voxels@, aos, face as int, self.forward_merged@, self.quads[face as int]@);
                assert(self.forward_merged@ =~= zeros(n * n));
            }
            let mut layer: usize = 0;
            while layer < CS
                invariant
                    n == CS as int,
                    face < 4,
                    layer <= CS,
                    merge_shape(n, self.face_masks@, self.ao_faces@, self.forward_merged@, self.right_merged@),
                    forall|i: int| 0 <= i < n * n ==> self.forward_merged@[i] == 0,
                    voxels@.len() >= pad(n) * pad(n) * pad(n),
                    self.face_masks@ == masks,
                    self.ao_faces@ == aos,
                    self.face_masks == old(self).face_masks,
                    self.ao_faces == old(self).ao_faces,
                    forall|i: int| 0 <= i < n ==> self.right_merged@[i] == 0,
                    forall|j: int| 0 <= j < 6 && j != face ==> #[trigger] self.quads[j] == qs[j],
                    extends(self.quads[face as int]@, qs[face as int]@),
                    s0 == qs[face as int]@.len(),
                    rows_state(n, masks, voxels@, aos, face as int, layer as int, 0, 0, self.forward_merged@,
                        self.quads[face as int]@, s0, own),
                    ordered_before(face as int, self.quads[face as int]@, s0, (layer as int, 0, 0)),
                    face_rows(n, masks, voxels@, aos, face as int, layer as int, self.forward_merged@,
                        self.quads[face as int]@) == face_rows(n, masks, voxels@, aos, face as int, 0, zeros(n * n), qs[face as int]@),
                    self.forward_merged@.len() == n * n,
                decreases CS - layer,
            {
                let ghost fm_l = self.forward_merged@;
                let ghost q_l = self.quads[face as int]@;
                let mut forward: usize = 0;
                while forward < CS
                    invariant
                        n == CS as int,
                        face < 4,
                        layer < CS,
                        forward <= CS,
                        merge_shape(n, self.face_masks@, self.ao_faces@, self.forward_merged@, self.right_merged@),
                        voxels@.len() >= pad(n) * pad(n) * pad(n),
                        self.face_masks@ == masks,
                        self.ao_faces@ == aos,
                        self.face_masks == old(self).face_masks,
                        self.ao_faces == old(self).ao_faces,
                        forall|i: int| 0 <= i < n ==> self.right_merged@[i] == 0,
                        forall|j: int| 0 <= j < 6 && j != face ==> #[trigger] self.quads[j] == qs[j],
                        extends(self.quads[face as int]@, qs[face as int]@),
                        s0 == qs[face as int]@.len(),
                        rows_state(n, masks, voxels@, aos, face as int, layer as int, forward as int, 0,
                            self.forward_merged@, self.quads[face as int]@, s0, own),
                        ordered_before(face as int, self.quads[face as int]@, s0, (layer as int, forward as int, 0)),
                        layer_rows(n, masks, voxels@, aos, face as int, layer as int, forward as int,
                            self.forward_merged@, self.quads[face as int]@) == layer_rows(n, masks, voxels@, aos,
                            face as int, layer as int, 0, fm_l, q_l),
                        face_rows(n, masks, voxels@, aos, face as int, layer as int, fm_l, q_l) == face_rows(n, masks, voxels@, aos, face as int, 0, zeros(n * n), qs[face as int]@),
                        self.forward_merged@.len() == n * n,
                    decreases CS - forward,
                {
                    let ghost before = self.quads[face as int]@;
                    let ghost fm_b = self.forward_merged@;
                    let g = self.merge_row_rows(voxels, face, layer, forward, Ghost(s0), Ghost(own));
                    proof {
                        assert(layer_rows(n, masks, voxels@, aos, face as int, layer as int, forward as int, fm_b,
                            before) == layer_rows(n, masks, voxels@, aos, face as int, layer as int, forward + 1,
                            self.forward_merged@, self.quads[face as int]@));
                        own = g@;
                        assert(extends(self.quads[face as int]@, qs[face as int]@)) by {
                            assert(extends(self.quads[face as int]@, before));
                        }
                    }
                    forward += 1;
                }
                proof {
                    lemma_rows_next_layer(n, masks, voxels@, aos, face as int, layer as int, self.forward_merged@,
                        self.quads[face as int]@, s0, own);
                    lemma_ordered_later(face as int, self.quads[face as int]@, s0, (layer as int, forward as int, 0), (
                        layer + 1, 0, 0));
                    assert(layer_rows(n, masks, voxels@, aos, face as int, layer as int, 0, fm_l, q_l) == (
                        self.forward_merged@, self.quads[face as int]@));
                }
                layer += 1;
            }
            proof {
                lemma_rows_face_done(n, masks, voxels@, aos, face as int, self.forward_merged@,
                    self.quads[face as int]@, s0, own);
                assert(qs[face as int] == old(self).quads[face as int]);
                assert(self.quads[face as int]@ == face_rows(n, masks, voxels@, aos, face as int, 0, zeros(n * n), old(self).quads[face as int]@).1);
            }
            face += 1;
        }
        while face < 6
            invariant
                n == CS as int,
                4 <= face <= 6,
                merge_shape(n, self.face_masks@, self.ao_faces@, self.forward_merged@, self.right_merged@),
                voxels@.len() >= pad(n) * pad(n) * pad(n),
                self.face_masks@ == masks,
                self.ao_faces@ == aos,
                self.face_masks == old(self).face_masks,
                self.ao_faces == old(self).ao_faces,
                forall|i: int| 0 <= i < n * n ==> self.forward_merged@[i] == 0,
                forall|i: int| 0 <= i < n ==> self.right_merged@[i] == 0,
                forall|f: int|
                    0 <= f < face ==> extends(#[trigger] self.quads[f]@, old(self).quads[f]@) && face_merged(n, masks,
                        voxels@, aos, f, self.quads[f]@, old(self).quads[f]@.len() as int),
                forall|f: int| face <= f < 6 ==> #[trigger] self.quads[f] == old(self).quads[f],
                forall|f: int| 0 <= f < 4 ==> #[trigger] self.quads[f]@ == face_rows(n, masks, voxels@, aos, f, 0, zeros(
                    n * n), old(self).quads[f]@).1,
                forall|f: int| 4 <= f < face ==> #[trigger] self.quads[f]@ == face_cols(n, masks, voxels@, aos, f, 0,
                    zeros(n * n), zeros(n), old(self).quads[f]@).2,
                self.forward_merged@.len() == n * n,
                self.right_merged@.len() == n,
            decreases 6 - face,
        {
            let ghost qs = self.quads;
            let ghost s0 = self.quads[face as int]@.len() as int;
            let ghost mut own: Map<(int, int, int), int> = Map::empty();
            proof {
                assert(self.forward_merged@ =~= zeros(n * n));
                assert(self.right_merged@ =~= zeros(n));
                lemma_cols_start(n, masks, voxels@, aos, face as int, self.forward_merged@, self.right_merged@,
                    self.quads[face as int]@);
            }
            let mut forward: usize = 0;
            while forward < CS
                invariant
                    n == CS as int,
                    4 <= face < 6,
                    forward <= CS,
                    merge_shape(n, self.face_masks@, self.ao_faces@, self.forward_merged@, self.right_merged@),
                    voxels@.len() >= pad(n) * pad(n) * pad(n),
                    self.face_masks@ == masks,
                    self.ao_faces@ == aos,
                    self.face_masks == old(self).face_masks,
                    self.ao_faces == old(self).ao_faces,
                    forall|i: int| 0 <= i < n ==> self.right_merged@[i] == 0,
                    forall|j: int| 0 <= j < 6 && j != face ==> #[trigger] self.quads[j] == qs[j],
                    extends(self.quads[face as int]@, qs[face as int]@),
                    s0 == qs[face as int]@.len(),
                    cols_state(n, masks, voxels@, aos, face as int, forward as int, 0, 0, self.forward_merged@,
                        self.right_merged@, self.quads[face as int]@, s0, own),
                    ordered_before(face as int, self.quads[face as int]@, s0, (forward as int, 0, 0)),
                    face_cols(n, masks, voxels@, aos, face as int, forward as int, self.forward_merged@,
                        self.right_merged@, self.quads[face as int]@) == face_cols(n, masks, voxels@, aos, face as int, 0, zeros(n * n), zeros(n), qs[face as int]@),
                decreases CS - forward,
            {
                let ghost fm_l = self.forward_merged@;
                let ghost rm_l = self.right_merged@;
                let ghost q_l = self.quads[face as int]@;
                let mut right: usize = 0;
                while right < CS
                    invariant
                        n == CS as int,
                        4 <= face < 6,
                        forward < CS,
                        right <= CS,
                        merge_shape(n, self.face_masks@, self.ao_faces@, self.forward_merged@, self.right_merged@),
                        voxels@.len() >= pad(n) * pad(n) * pad(n),
                        self.face_masks@ == masks,
                        self.ao_faces@ == aos,
                        self.face_masks == old(self).face_masks,
                        self.ao_faces == old(self).ao_faces,
                        forall|j: int| 0 <= j < 6 && j != face ==> #[trigger] self.quads[j] == qs[j],
                        extends(self.quads[face as int]@, qs[face as int]@),
                        s0 == qs[face as int]@.len(),
                        cols_state(n, masks, voxels@, aos, face as int, forward as int, right as int, 0,
                            self.forward_merged@, self.right_merged@, self.quads[face as int]@, s0, own),
                        ordered_before(face as int, self.quads[face as int]@, s0, (forward as int, right as int, 0)),
                        row_cols(n, masks, voxels@, aos, face as int, forward as int, right as int, self.forward_merged@,
                            self.right_merged@, self.quads[face as int]@) == row_cols(n, masks, voxels@, aos,
                            face as int, forward as int, 0, fm_l, rm_l, q_l),
                        face_cols(n, masks, voxels@, aos, face as int, forward as int, fm_l, rm_l, q_l) == face_cols(n, masks, voxels@, aos, face as int, 0, zeros(n * n), zeros(n), qs[face as int]@),
                    decreases CS - right,
                {
                    let ghost before = self.quads[face as int]@;
                    let ghost fm_b = self.forward_merged@;
                    let ghost rm_b = self.right_merged@;
                    let g = self.merge_col_cols(voxels, face, forward, right, Ghost(s0), Ghost(own));
                    proof {
                        assert(row_cols(n, masks, voxels@, aos, face as int, forward as int, right as int, fm_b, rm_b,
                            before) == row_cols(n, masks, voxels@, aos, face as int, forward as int, right + 1,
                            self.forward_merged@, self.right_merged@, self.quads[face as int]@));
                        own = g@;
                        assert(extends(self.quads[face as int]@, qs[face as int]@)) by {
                            assert(extends(self.quads[face as int]@, before));
                        }
                    }
                    right += 1;
                }
                proof {
                    lemma_cols_next_row(n, masks, voxels@, aos, face as int, forward as int, self.forward_merged@,
                        self.right_merged@, self.quads[face as int]@, s0, own);
                    lemma_ordered_later(face as int, self.quads[face as int]@, s0, (forward as int, right as int, 0), (
                        forward + 1, 0, 0));
                    assert(row_cols(n, masks, voxels@, aos, face as int, forward as int, 0, fm_l, rm_l, q_l) == (
                        self.forward_merged@, self.right_merged@, self.quads[face as int]@));
                }
                forward += 1;
            }
            proof {
                lemma_cols_face_done(n, masks, voxels@, aos, face as int, self.forward_merged@, self.right_merged@,
                    self.quads[face as int]@, s0, own);
                assert(qs[face as int] == old(self).quads[face as int]);
                assert(self.quads[face as int]@ == face_cols(n, masks, voxels@, aos, face as int, 0, zeros(n * n),
                    zeros(n), old(self).quads[face as int]@).2);
            }
            face += 1;
        }
    }
}

} // verus!
