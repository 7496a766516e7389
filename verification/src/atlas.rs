//! Packing block textures into one square atlas: shelf placement, the
//! choice of atlas size, and the atlas pixels.
use vstd::prelude::*;
use vstd::slice::{slice_subrange, slice_to_vec};

verus! {

/// Edge of the placeholder tile kept at the atlas origin.
pub const MISSING_TILE: u32 = 16;

/// The atlas never grows past this edge.
pub const MAX_ATLAS_SIZE: u32 = 8192;

/// A texture to place: its size, and whether it has any pixels.
#[derive(Clone, Copy, Debug, PartialEq, Eq, Structural)]
pub struct PackSource {
    pub w: u32,
    pub h: u32,
    pub has_data: bool,
}

/// Where the shelf packer stands: the next free column of the current
/// shelf, the shelf's top row and height, and whether all fitted so far.
pub struct ShelfState {
    pub x: int,
    pub y: int,
    pub shelf_h: int,
    pub all_fit: bool,
}

/// The packer before any texture: the placeholder tile fills the start of
/// the first shelf.
pub open spec fn shelf_start() -> ShelfState {
    ShelfState { x: MISSING_TILE as int, y: 0, shelf_h: MISSING_TILE as int, all_fit: true }
}

/// One texture: a texture without pixels is skipped; one that overflows
/// the shelf to the right starts a new shelf under the current one; one
/// that then overflows the atlas at the bottom is left out.
pub open spec fn shelf_next(st: ShelfState, s: PackSource, size: int) -> (ShelfState, Option<(int, int)>) {
    if !s.has_data {
        (st, None)
    } else {
        let new_shelf = st.x + s.w > size;
        let x = if new_shelf { 0 } else { st.x };
        let y = if new_shelf { st.y + st.shelf_h } else { st.y };
        let sh = if new_shelf { 0 } else { st.shelf_h };
        if y + s.h > size {
            (ShelfState { x, y, shelf_h: sh, all_fit: false }, None)
        } else {
            (ShelfState { x: x + s.w, y, shelf_h: if sh >= s.h { sh } else { s.h as int }, all_fit: st.all_fit }, Some((x, y)))
        }
    }
}

/// The packer after the textures of `srcs`, in order.
pub open spec fn shelf_run(srcs: Seq<PackSource>, size: int) -> ShelfState
    decreases srcs.len(),
{
    if srcs.len() == 0 {
        shelf_start()
    } else {
        shelf_next(shelf_run(srcs.drop_last(), size), srcs.last(), size).0
    }
}

/// Where texture `i` of `srcs` goes, if anywhere.
pub open spec fn shelf_place(srcs: Seq<PackSource>, size: int, i: int) -> Option<(int, int)> {
    shelf_next(shelf_run(srcs.take(i), size), srcs[i], size).1
}

pub open spec fn placement_view(p: Option<(u32, u32)>) -> Option<(int, int)> {
    match p {
        Some((x, y)) => Some((x as int, y as int)),
        None => None,
    }
}

proof fn lemma_run_step(srcs: Seq<PackSource>, size: int, i: int)
    requires
        0 <= i < srcs.len(),
    ensures
        shelf_run(srcs.take(i + 1), size) == shelf_next(shelf_run(srcs.take(i), size), srcs[i], size).0,
{
    assert(srcs.take(i + 1).drop_last() =~= srcs.take(i));
}

/// Places each texture in order on shelves, left to right, the
/// placeholder tile first; says where each went, and whether all fitted.
pub fn pack(sources: &[PackSource], atlas_size: u32) -> (r: (Vec<Option<(u32, u32)>>, bool))
    ensures
        r.0@.len() == sources@.len(),
        forall|i: int| 0 <= i < sources@.len() ==> placement_view(#[trigger] r.0@[i]) == shelf_place(sources@,
            atlas_size as int, i),
        r.1 == shelf_run(sources@, atlas_size as int).all_fit,
{
    let ghost size = atlas_size as int;
    let edge = atlas_size as u64;
    let mut placements: Vec<Option<(u32, u32)>> = Vec::new();
    let mut cursor_x: u64 = MISSING_TILE as u64;
    let mut cursor_y: u64 = 0;
    let mut shelf_h: u64 = MISSING_TILE as u64;
    let mut all_fit = true;
    let mut i: usize = 0;
    while i < sources.len()
        invariant
            size == atlas_size,
            edge == atlas_size,
            i <= sources@.len(),
            placements@.len() == i,
            forall|j: int| 0 <= j < i ==> placement_view(#[trigger] placements@[j]) == shelf_place(sources@, size, j),
            shelf_run(sources@.take(i as int), size) == (ShelfState {
                x: cursor_x as int,
                y: cursor_y as int,
                shelf_h: shelf_h as int,
                all_fit,
            }),
            cursor_x <= u32::MAX,
            shelf_h <= u32::MAX,
            cursor_y + shelf_h <= if atlas_size >= MISSING_TILE { atlas_size as int } else { MISSING_TILE as int },
        decreases sources@.len() - i,
    {
        let src = sources[i];
        proof {
            lemma_run_step(sources@, size, i as int);
        }
        if !src.has_data {
            placements.push(None);
            i += 1;
            continue;
        }
        let w = src.w as u64;
        let h = src.h as u64;
        if cursor_x + w > edge {
            cursor_y += shelf_h;
            cursor_x = 0;
            shelf_h = 0;
        }
        if cursor_y + h > edge {
            all_fit = false;
            placements.push(None);
            i += 1;
            continue;
        }
        placements.push(Some((cursor_x as u32, cursor_y as u32)));
        cursor_x += w;
        if h > shelf_h {
            shelf_h = h;
        }
        i += 1;
    }
    proof {
        assert(sources@.take(sources@.len() as int) =~= sources@);
    }
    (placements, all_fit)
}


/// Two rectangles, each given by its corner and size, share no cell.
pub open spec fn disjoint(x1: int, y1: int, w1: int, h1: int, x2: int, y2: int, w2: int, h2: int) -> bool {
    x1 + w1 <= x2 || x2 + w2 <= x1 || y1 + h1 <= y2 || y2 + h2 <= y1
}

/// A rectangle that the packer has left behind: on an earlier shelf, or
/// on the current shelf left of the free column and no taller than it.
pub open spec fn behind(st: ShelfState, x: int, y: int, w: int, h: int) -> bool {
    (y + h <= st.y) || (y == st.y && x + w <= st.x && h <= st.shelf_h)
}

/// Everything placed among the first `n` textures, and the placeholder
/// tile, is behind the packer.
proof fn lemma_shelf_behind(srcs: Seq<PackSource>, size: int, n: int)
    requires
        0 <= n <= srcs.len(),
    ensures
        ({
            let st = shelf_run(srcs.take(n), size);
            &&& st.x >= 0 && st.y >= 0 && st.shelf_h >= 0
            &&& behind(st, 0, 0, MISSING_TILE as int, MISSING_TILE as int)
            &&& forall|j: int|
                0 <= j < n && #[trigger] shelf_place(srcs, size, j) is Some ==> behind(
                    st,
                    (shelf_place(srcs, size, j)->0).0,
                    (shelf_place(srcs, size, j)->0).1,
                    srcs[j].w as int,
                    srcs[j].h as int,
                )
        }),
    decreases n,
{
    if n == 0 {
        assert(srcs.take(0) =~= Seq::<PackSource>::empty());
    } else {
        lemma_shelf_behind(srcs, size, n - 1);
        lemma_run_step(srcs, size, n - 1);
    }
}


/// Texture `i` is placed, and its rectangle is `(x, y, w, h)`.
pub open spec fn placed_at(srcs: Seq<PackSource>, size: int, i: int, x: int, y: int) -> bool {
    shelf_place(srcs, size, i) == Some((x, y))
}

/// When no texture with pixels is wider than the atlas, each placed
/// texture lies inside the atlas and clear of the placeholder tile, and no
/// two placed textures overlap.
pub proof fn law_pack_disjoint(srcs: Seq<PackSource>, size: int)
    requires
        size >= 0,
        forall|i: int| 0 <= i < srcs.len() && (#[trigger] srcs[i]).has_data ==> srcs[i].w <= size,
    ensures
        forall|i: int, x: int, y: int|
            0 <= i < srcs.len() && #[trigger] placed_at(srcs, size, i, x, y) ==> {
                &&& 0 <= x && x + srcs[i].w <= size
                &&& 0 <= y && y + srcs[i].h <= size
                &&& disjoint(x, y, srcs[i].w as int, srcs[i].h as int, 0, 0, MISSING_TILE as int, MISSING_TILE as int)
            },
        forall|i: int, j: int, xi: int, yi: int, xj: int, yj: int|
            0 <= j < i < srcs.len() && #[trigger] placed_at(srcs, size, i, xi, yi) && #[trigger] placed_at(
                srcs,
                size,
                j,
                xj,
                yj,
            ) ==> disjoint(xi, yi, srcs[i].w as int, srcs[i].h as int, xj, yj, srcs[j].w as int, srcs[j].h as int),
{
    assert forall|i: int, x: int, y: int|
        0 <= i < srcs.len() && #[trigger] placed_at(srcs, size, i, x, y) implies {
            &&& 0 <= x && x + srcs[i].w <= size
            &&& 0 <= y && y + srcs[i].h <= size
            &&& disjoint(x, y, srcs[i].w as int, srcs[i].h as int, 0, 0, MISSING_TILE as int, MISSING_TILE as int)
        } by {
        lemma_shelf_behind(srcs, size, i);
        assert(srcs[i].w <= size);
    }
    assert forall|i: int, j: int, xi: int, yi: int, xj: int, yj: int|
        0 <= j < i < srcs.len() && #[trigger] placed_at(srcs, size, i, xi, yi) && #[trigger] placed_at(
            srcs,
            size,
            j,
            xj,
            yj,
        ) implies disjoint(xi, yi, srcs[i].w as int, srcs[i].h as int, xj, yj, srcs[j].w as int, srcs[j].h as int) by {
        lemma_shelf_behind(srcs, size, i);
        assert(shelf_place(srcs, size, j) is Some);
        assert(behind(shelf_run(srcs.take(i), size), xj, yj, srcs[j].w as int, srcs[j].h as int));
    }
}


/// The atlas edge chosen from a first guess `s`: doubled until every
/// texture fits, but not past `MAX_ATLAS_SIZE`.
pub open spec fn atlas_size_for(srcs: Seq<PackSource>, s: int) -> int
    decreases 2 * MAX_ATLAS_SIZE - s,
{
    if s <= 0 || s >= MAX_ATLAS_SIZE || shelf_run(srcs, s).all_fit {
        s
    } else {
        atlas_size_for(srcs, 2 * s)
    }
}

/// Chooses the atlas edge, starting from `initial` and doubling until all
/// textures fit or the edge reaches `MAX_ATLAS_SIZE`, and places the
/// textures at that edge.
pub fn plan_atlas(sources: &[PackSource], initial: u32) -> (r: (u32, Vec<Option<(u32, u32)>>))
    requires
        1 <= initial,
    ensures
        r.0 == atlas_size_for(sources@, initial as int),
        r.1@.len() == sources@.len(),
        forall|i: int| 0 <= i < sources@.len() ==> placement_view(#[trigger] r.1@[i]) == shelf_place(sources@,
            r.0 as int, i),
{
    let mut size = initial;
    loop
        invariant
            1 <= size,
            atlas_size_for(sources@, initial as int) == atlas_size_for(sources@, size as int),
        decreases 2 * MAX_ATLAS_SIZE - size,
    {
        let (placements, all_fit) = pack(sources, size);
        if all_fit || size >= MAX_ATLAS_SIZE {
            return (size, placements);
        }
        size = size * 2;
    }
}


/// The first frame of a texture: an animated texture stacks its frames top
/// to bottom, each as tall as the texture is wide. Gives the frame's pixels
/// and height.
pub fn first_frame(data: &[u8], w: u32, h: u32) -> (r: (Vec<u8>, u32))
    requires
        w * 4 <= usize::MAX,
        (if h > w { w } else { h }) * w * 4 <= data@.len(),
    ensures
        r.1 == if h > w { w } else { h },
        r.0@ == data@.subrange(0, r.1 * w * 4),
{
    let frame_size = if h > w { w } else { h };
    let n = data.len();
    let row_bytes = w as usize * 4;
    proof {
        assert(frame_size * row_bytes == frame_size * w * 4) by (nonlinear_arith)
            requires row_bytes == w * 4;
    }
    let frame = slice_subrange(data, 0, frame_size as usize * row_bytes);
    (slice_to_vec(frame), frame_size)
}


/// A texture for the atlas: its size and its RGBA pixels, row by row.
pub struct AtlasSource {
    pub w: u32,
    pub h: u32,
    pub data: Vec<u8>,
}

/// Byte `c` of the placeholder tile's pixel `(px, py)`: 8 × 8 squares of
/// magenta and black, magenta at the corner.
pub open spec fn tile_byte(px: int, py: int, c: int) -> u8 {
    if (px / 8 + py / 8) % 2 == 0 {
        if c == 1 { 0 } else { 255 }
    } else {
        if c == 3 { 255 } else { 0 }
    }
}

/// Where byte `c` of pixel `(px, py)` of a `w`-wide RGBA image is.
pub open spec fn pixel_index(w: int, px: int, py: int, c: int) -> int {
    (py * w + px) * 4 + c
}

/// Pixel `(px, py)` lies in the `w` × `h` rectangle at `(x, y)`.
pub open spec fn in_rect(x: int, y: int, w: int, h: int, px: int, py: int) -> bool {
    x <= px < x + w && y <= py < y + h
}

/// Byte `c` of pixel `pos` of an RGBA image, pixels counted row by row.
pub open spec fn lin(pos: int, c: int) -> int {
    pos * 4 + c
}

/// Row `t` of a `w`-wide texture drawn at pixel `(x, y)` of a `size`-wide
/// atlas covers pixel `pos`: each texture row is drawn as one run of `w`
/// pixels from pixel `(x, y + t)`, so that a row wider than the atlas runs
/// on into the rows below.
pub open spec fn row_hits(size: int, x: int, y: int, w: int, t: int, pos: int) -> bool {
    0 <= pos - ((y + t) * size + x) < w
}

/// The last of the first `rows` texture rows that covers pixel `pos`, or
/// -1 if none does.
pub open spec fn last_row_hit(size: int, x: int, y: int, w: int, rows: int, pos: int) -> int
    decreases rows,
{
    if rows <= 0 {
        -1
    } else if row_hits(size, x, y, w, rows - 1, pos) {
        rows - 1
    } else {
        last_row_hit(size, x, y, w, rows - 1, pos)
    }
}

/// Byte `c` of pixel `pos` of a `size`-wide image after drawing the `w`-wide
/// texture `data` at `(x, y)`, its first `rows` rows, over `before`.
pub open spec fn drawn_byte(size: int, x: int, y: int, w: int, rows: int, data: Seq<u8>, before: Seq<u8>, pos: int,
    c: int) -> u8 {
    let t = last_row_hit(size, x, y, w, rows, pos);
    if t >= 0 {
        data[pixel_index(w, pos - ((y + t) * size + x), t, c)]
    } else {
        before[lin(pos, c)]
    }
}

/// Byte `c` of pixel `(px, py)` of the `size`-wide atlas once the first `n`
/// textures are drawn: that of the last texture row drawn over the pixel,
/// else the placeholder tile's, else zero.
pub open spec fn atlas_byte(srcs: Seq<AtlasSource>, pl: Seq<Option<(u32, u32)>>, size: int, n: int, px: int, py: int,
    c: int) -> u8
    decreases n,
{
    if n <= 0 {
        if px < MISSING_TILE && py < MISSING_TILE {
            tile_byte(px, py, c)
        } else {
            0
        }
    } else {
        match pl[n - 1] {
            Some((x, y)) => {
                let w = srcs[n - 1].w as int;
                let pos = py * size + px;
                let t = last_row_hit(size, x as int, y as int, w, srcs[n - 1].h as int, pos);
                if t >= 0 {
                    srcs[n - 1].data@[pixel_index(w, pos - ((y + t) * size + x), t, c)]
                } else {
                    atlas_byte(srcs, pl, size, n - 1, px, py, c)
                }
            },
            None => atlas_byte(srcs, pl, size, n - 1, px, py, c),
        }
    }
}

/// For a texture that fits across the atlas, the rows that cover a pixel
/// are those of its rectangle: pixel `(px, py)` is covered exactly when it
/// lies in the rectangle, by texture row `py - y`, at column `px - x`.
proof fn lemma_rows_in_rect(size: int, x: int, y: int, w: int, h: int, px: int, py: int)
    requires
        0 <= x,
        0 <= y,
        0 <= w,
        x + w <= size,
        0 <= px < size,
        0 <= py,
    ensures
        last_row_hit(size, x, y, w, h, py * size + px) == if in_rect(x, y, w, h, px, py) { py - y } else { -1 },
        in_rect(x, y, w, h, px, py) ==> py * size + px - ((y + (py - y)) * size + x) == px - x,
    decreases h,
{
    if h > 0 {
        lemma_rows_in_rect(size, x, y, w, h - 1, px, py);
        let t = h - 1;
        let d = py - y - t;
        assert(py * size + px - ((y + t) * size + x) == d * size + (px - x)) by (nonlinear_arith)
            requires d == py - y - t;
        if d >= 1 {
            assert(d * size >= size) by (nonlinear_arith)
                requires d >= 1, size >= 0;
        } else if d <= -1 {
            assert(d * size <= -size) by (nonlinear_arith)
                requires d <= -1, size >= 0;
        }
    }
    assert(py * size + px - ((y + (py - y)) * size + x) == px - x) by (nonlinear_arith);
}

proof fn lemma_pixel_index(w: int, px: int, py: int, c: int, px2: int, py2: int, c2: int)
    requires
        0 <= px < w,
        0 <= px2 < w,
        0 <= py,
        0 <= py2,
        0 <= c < 4,
        0 <= c2 < 4,
    ensures
        pixel_index(w, px, py, c) == pixel_index(w, px2, py2, c2) ==> px == px2 && py == py2 && c == c2,
        0 <= pixel_index(w, px, py, c),
{
    let a = py * w + px;
    let b = py2 * w + px2;
    assert(0 <= a) by (nonlinear_arith)
        requires a == py * w + px, 0 <= py, 0 <= px, px < w;
    if pixel_index(w, px, py, c) == pixel_index(w, px2, py2, c2) {
        assert(a == b && c == c2);
        assert(px == px2 && py == py2) by (nonlinear_arith)
            requires py * w + px == py2 * w + px2, 0 <= px < w, 0 <= px2 < w, 0 <= py, 0 <= py2;
    }
}

proof fn lemma_pixel_index_bound(w: int, h: int, px: int, py: int, c: int)
    requires
        0 <= px < w,
        0 <= py < h,
        0 <= c < 4,
    ensures
        0 <= pixel_index(w, px, py, c) < w * h * 4,
{
    assert(0 <= (py * w + px) * 4 + c < w * h * 4) by (nonlinear_arith)
        requires 0 <= px < w, 0 <= py < h, 0 <= c < 4;
}

/// Draws the `w` × `h` image `data` into the `size`-wide RGBA image
/// `pixels` with its corner at `(x, y)`, row by row, each row as one run of
/// pixels (`row_hits`).
fn blit_rows(pixels: &mut Vec<u8>, size: u32, data: &Vec<u8>, w: u32, h: u32, x: u32, y: u32)
    requires
        old(pixels)@.len() == size * size * 4,
        size * size * 4 <= u32::MAX,
        w * h * 4 <= data@.len(),
        w > 0 && h > 0 ==> (y + h - 1) * size + x + w <= size * size,
    ensures
        final(pixels)@.len() == old(pixels)@.len(),
        forall|pos: int, c: int|
            0 <= pos < size * size && 0 <= c < 4 ==> #[trigger] final(pixels)@[lin(pos, c)] == drawn_byte(
                size as int,
                x as int,
                y as int,
                w as int,
                h as int,
                data@,
                old(pixels)@,
                pos,
                c,
            ),
{
    let ghost before = pixels@;
    let ghost n = size as int;
    let mut py: u32 = 0;
    while py < h
        invariant
            py <= h,
            pixels@.len() == before.len(),
            before.len() == size * size * 4,
            size * size * 4 <= u32::MAX,
            n == size,
            w * h * 4 <= data@.len(),
            w > 0 && h > 0 ==> (y + h - 1) * size + x + w <= size * size,
            forall|pos: int, c: int|
                0 <= pos < n * n && 0 <= c < 4 ==> #[trigger] pixels@[lin(pos, c)] == drawn_byte(n, x as int, y as int,
                    w as int, py as int, data@, before, pos, c),
        decreases h - py,
    {
        let mut px: u32 = 0;
        while px < w
            invariant
                py < h,
                px <= w,
                pixels@.len() == before.len(),
                before.len() == size * size * 4,
                size * size * 4 <= u32::MAX,
                n == size,
                w * h * 4 <= data@.len(),
                w > 0 && h > 0 ==> (y + h - 1) * size + x + w <= size * size,
                forall|pos: int, c: int|
                    0 <= pos < n * n && 0 <= c < 4 ==> #[trigger] pixels@[lin(pos, c)] == if row_hits(n, x as int,
                        y as int, w as int, py as int, pos) && pos - ((y + py) * n + x) < px {
                        data@[pixel_index(w as int, pos - ((y + py) * n + x), py as int, c)]
                    } else {
                        drawn_byte(n, x as int, y as int, w as int, py as int, data@, before, pos, c)
                    },
            decreases w - px,
        {
            proof {
                lemma_pixel_index_bound(w as int, h as int, px as int, py as int, 3);
                assert((y + py) * size <= (y + h - 1) * size) by (nonlinear_arith)
                    requires py <= h - 1, size >= 0;
            }
            let data_len = data.len();
            proof {
                assert(data_len == data@.len());
                assert((py * w + px) * 4 + 3 < data_len);
                assert(size >= 1) by (nonlinear_arith)
                    requires (y + h - 1) * size + x + w <= size * size, w >= 1, x >= 0, y + h - 1 >= 0;
                assert(y + py <= size) by (nonlinear_arith)
                    requires (y + py) * size <= (y + h - 1) * size, (y + h - 1) * size + x + w <= size * size, size >= 1,
                        x >= 0, w >= 1;
            }
            let s = ((py as usize) * (w as usize) + px as usize) * 4;
            let d = (((y + py) * size + x + px) * 4) as usize;
            let ghost p0 = (y + py) * n + x + px;
            let mut c: usize = 0;
            while c < 4
                invariant
                    py < h,
                    px < w,
                    c <= 4,
                    pixels@.len() == before.len(),
                    before.len() == size * size * 4,
                    n == size,
                    s == pixel_index(w as int, px as int, py as int, 0),
                    p0 == (y + py) * n + x + px,
                    0 <= p0 < n * n,
                    d == lin(p0, 0),
                    s + 4 <= data@.len(),
                    forall|pos: int, cc: int|
                        0 <= pos < n * n && 0 <= cc < 4 ==> #[trigger] pixels@[lin(pos, cc)] == if (row_hits(n, x as int,
                            y as int, w as int, py as int, pos) && pos - ((y + py) * n + x) < px) || (pos == p0 && cc
                            < c) {
                            data@[pixel_index(w as int, pos - ((y + py) * n + x), py as int, cc)]
                        } else {
                            drawn_byte(n, x as int, y as int, w as int, py as int, data@, before, pos, cc)
                        },
                decreases 4 - c,
            {
                let ghost prev = pixels@;
                pixels.set(d + c, data[s + c]);
                proof {
                    assert forall|pos: int, cc: int| 0 <= pos < n * n && 0 <= cc < 4 implies #[trigger] pixels@[lin(pos,
                        cc)] == if (row_hits(n, x as int, y as int, w as int, py as int, pos) && pos - ((y + py) * n
                        + x) < px) || (pos == p0 && cc < c + 1) {
                        data@[pixel_index(w as int, pos - ((y + py) * n + x), py as int, cc)]
                    } else {
                        drawn_byte(n, x as int, y as int, w as int, py as int, data@, before, pos, cc)
                    } by {
                        if pos == p0 && cc == c {
                            assert(lin(pos, cc) == d + c);
                        } else {
                            assert(lin(pos, cc) != d + c);
                            assert(pixels@[lin(pos, cc)] == prev[lin(pos, cc)]);
                        }
                    }
                }
                c += 1;
            }
            proof {
                assert forall|pos: int, cc: int| 0 <= pos < n * n && 0 <= cc < 4 implies #[trigger] pixels@[lin(pos,
                    cc)] == if row_hits(n, x as int, y as int, w as int, py as int, pos) && pos - ((y + py) * n + x) < px
                    + 1 {
                    data@[pixel_index(w as int, pos - ((y + py) * n + x), py as int, cc)]
                } else {
                    drawn_byte(n, x as int, y as int, w as int, py as int, data@, before, pos, cc)
                } by {
                    if pos == p0 {
                        assert(row_hits(n, x as int, y as int, w as int, py as int, pos));
                    }
                }
            }
            px += 1;
        }
        proof {
            assert forall|pos: int, cc: int| 0 <= pos < n * n && 0 <= cc < 4 implies #[trigger] pixels@[lin(pos, cc)]
                == drawn_byte(n, x as int, y as int, w as int, py + 1, data@, before, pos, cc) by {
                assert(last_row_hit(n, x as int, y as int, w as int, py + 1, pos) == if row_hits(n, x as int, y as int,
                    w as int, py as int, pos) { py as int } else { last_row_hit(n, x as int, y as int, w as int,
                    py as int, pos) });
            }
        }
        py += 1;
    }
}


/// The placeholder tile's pixels.
fn placeholder_tile() -> (r: Vec<u8>)
    ensures
        r@.len() == MISSING_TILE * MISSING_TILE * 4,
        forall|px: int, py: int, c: int|
            0 <= px < MISSING_TILE && 0 <= py < MISSING_TILE && 0 <= c < 4 ==> #[trigger] r@[pixel_index(
                MISSING_TILE as int,
                px,
                py,
                c,
            )] == tile_byte(px, py, c),
{
    let mut out: Vec<u8> = Vec::new();
    let mut py: u32 = 0;
    while py < MISSING_TILE
        invariant
            py <= MISSING_TILE,
            out@.len() == py * MISSING_TILE * 4,
            forall|qx: int, qy: int, c: int|
                0 <= qx < MISSING_TILE && 0 <= qy < py && 0 <= c < 4 ==> #[trigger] out@[pixel_index(
                    MISSING_TILE as int,
                    qx,
                    qy,
                    c,
                )] == tile_byte(qx, qy, c),
        decreases MISSING_TILE - py,
    {
        let mut px: u32 = 0;
        while px < MISSING_TILE
            invariant
                py < MISSING_TILE,
                px <= MISSING_TILE,
                out@.len() == (py * MISSING_TILE + px) * 4,
                forall|qx: int, qy: int, c: int|
                    0 <= qx < MISSING_TILE && 0 <= qy < MISSING_TILE && 0 <= c < 4 && (qy < py || (qy == py && qx < px))
                        ==> #[trigger] out@[pixel_index(MISSING_TILE as int, qx, qy, c)] == tile_byte(qx, qy, c),
            decreases MISSING_TILE - px,
        {
            let is_check = ((px / 8) + (py / 8)) % 2 == 0;
            let ghost prev = out@;
            if is_check {
                out.push(255);
                out.push(0);
                out.push(255);
                out.push(255);
            } else {
                out.push(0);
                out.push(0);
                out.push(0);
                out.push(255);
            }
            proof {
                assert forall|qx: int, qy: int, c: int|
                    0 <= qx < MISSING_TILE && 0 <= qy < MISSING_TILE && 0 <= c < 4 && (qy < py || (qy == py && qx < px
                        + 1)) implies #[trigger] out@[pixel_index(MISSING_TILE as int, qx, qy, c)] == tile_byte(qx, qy, c) by {
                    if qy == py && qx == px {
                    } else {
                        assert(pixel_index(MISSING_TILE as int, qx, qy, c) < prev.len());
                        assert(out@[pixel_index(MISSING_TILE as int, qx, qy, c)] == prev[pixel_index(MISSING_TILE as int,
                            qx, qy, c)]);
                    }
                }
            }
            px += 1;
        }
        py += 1;
    }
    out
}

/// Every placed texture holds all its pixels, and its last pixel, drawn
/// row by row, falls inside the atlas.
pub open spec fn placements_fit(srcs: Seq<AtlasSource>, pl: Seq<Option<(u32, u32)>>, size: int) -> bool {
    forall|j: int|
        0 <= j < srcs.len() && (#[trigger] pl[j]) is Some ==> {
            &&& srcs[j].w > 0 && srcs[j].h > 0 ==> ((pl[j]->0).1 + srcs[j].h - 1) * size + (pl[j]->0).0 + srcs[j].w
                <= size * size
            &&& srcs[j].w * srcs[j].h * 4 <= srcs[j].data@.len()
        }
}

/// The atlas image: the placeholder tile at the corner, then each placed
/// texture drawn in order.
pub fn atlas_pixels(size: u32, sources: &[AtlasSource], placements: &[Option<(u32, u32)>]) -> (r: Vec<u8>)
    requires
        MISSING_TILE <= size,
        size * size * 4 <= u32::MAX,
        placements@.len() == sources@.len(),
        placements_fit(sources@, placements@, size as int),
    ensures
        r@.len() == size * size * 4,
        forall|px: int, py: int, c: int|
            0 <= px < size && 0 <= py < size && 0 <= c < 4 ==> #[trigger] r@[pixel_index(size as int, px, py, c)]
                == atlas_byte(sources@, placements@, size as int, sources@.len() as int, px, py, c),
{
    let ghost n = size as int;
    let total = (size * size * 4) as usize;
    let mut pixels: Vec<u8> = vec![0u8; total];
    let ghost zero = pixels@;
    let tile = placeholder_tile();
    proof {
        assert(MISSING_TILE * MISSING_TILE * 4 <= size * size * 4) by (nonlinear_arith)
            requires MISSING_TILE <= size;
        assert((0 + MISSING_TILE - 1) * size + 0 + MISSING_TILE <= size * size) by (nonlinear_arith)
            requires MISSING_TILE <= size;
    }
    blit_rows(&mut pixels, size, &tile, MISSING_TILE, MISSING_TILE, 0, 0);
    proof {
        assert forall|px: int, py: int, c: int|
            0 <= px < size && 0 <= py < size && 0 <= c < 4 implies #[trigger] pixels@[pixel_index(n, px, py, c)]
            == atlas_byte(sources@, placements@, n, 0, px, py, c) by {
            lemma_pixel_index_bound(n, n, px, py, c);
            assert(0 <= py * n + px < n * n) by (nonlinear_arith)
                requires 0 <= px < n, 0 <= py < n;
            assert(pixel_index(n, px, py, c) == lin(py * n + px, c));
            lemma_rows_in_rect(n, 0, 0, MISSING_TILE as int, MISSING_TILE as int, px, py);
        }
    }
    let mut j: usize = 0;
    while j < sources.len()
        invariant
            n == size,
            j <= sources@.len(),
            placements@.len() == sources@.len(),
            placements_fit(sources@, placements@, n),
            size * size * 4 <= u32::MAX,
            pixels@.len() == size * size * 4,
            forall|px: int, py: int, c: int|
                0 <= px < size && 0 <= py < size && 0 <= c < 4 ==> #[trigger] pixels@[pixel_index(n, px, py, c)]
                    == atlas_byte(sources@, placements@, n, j as int, px, py, c),
        decreases sources@.len() - j,
    {
        let ghost prev = pixels@;
        match placements[j] {
            Some((x, y)) => {
                let src = &sources[j];
                proof {
                    assert(placements@[j as int] is Some);
                }
                blit_rows(&mut pixels, size, &src.data, src.w, src.h, x, y);
                proof {
                    assert forall|px: int, py: int, c: int|
                        0 <= px < size && 0 <= py < size && 0 <= c < 4 implies #[trigger] pixels@[pixel_index(n, px, py,
                        c)] == atlas_byte(sources@, placements@, n, j + 1, px, py, c) by {
                        assert(0 <= py * n + px < n * n) by (nonlinear_arith)
                            requires 0 <= px < n, 0 <= py < n;
                        assert(pixel_index(n, px, py, c) == lin(py * n + px, c));
                    }
                }
            },
            None => {},
        }
        j += 1;
    }
    pixels
}


/// Texture `i`, where the packer places it at edge `size`, ends inside the
/// atlas when drawn row by row.
pub open spec fn draws_inside(srcs: Seq<PackSource>, size: int, i: int) -> bool {
    match shelf_place(srcs, size, i) {
        Some((x, y)) => srcs[i].w > 0 && srcs[i].h > 0 ==> (y + srcs[i].h - 1) * size + x + srcs[i].w <= size * size,
        None => true,
    }
}

/// The textures as the packer sees them.
pub open spec fn pack_view(srcs: Seq<AtlasSource>) -> Seq<PackSource> {
    Seq::new(srcs.len(), |i: int| PackSource { w: srcs[i].w, h: srcs[i].h, has_data: srcs[i].data@.len() > 0 })
}

/// Lays out the atlas: chooses its edge from `initial`, places the
/// textures, and draws the atlas image.
pub fn layout_atlas(sources: &[AtlasSource], initial: u32) -> (r: (u32, Vec<Option<(u32, u32)>>, Vec<u8>))
    requires
        1 <= initial <= 32767,
        atlas_size_for(pack_view(sources@), initial as int) >= MISSING_TILE,
        forall|i: int| 0 <= i < sources@.len() && (#[trigger] sources@[i]).data@.len() > 0 ==> sources@[i].w
            * sources@[i].h * 4 <= sources@[i].data@.len() && draws_inside(pack_view(sources@), atlas_size_for(
            pack_view(sources@),
            initial as int,
        ), i),
    ensures
        r.0 == atlas_size_for(pack_view(sources@), initial as int),
        r.1@.len() == sources@.len(),
        forall|i: int| 0 <= i < sources@.len() ==> placement_view(#[trigger] r.1@[i]) == shelf_place(
            pack_view(sources@),
            r.0 as int,
            i,
        ),
        (forall|i: int| 0 <= i < sources@.len() && (#[trigger] sources@[i]).data@.len() > 0 ==> sources@[i].w <= r.0)
            ==> placements_disjoint(sources@, r.1@) && placements_across(sources@, r.1@, r.0 as int),
        r.2@.len() == r.0 * r.0 * 4,
        forall|px: int, py: int, c: int|
            0 <= px < r.0 && 0 <= py < r.0 && 0 <= c < 4 ==> #[trigger] r.2@[pixel_index(r.0 as int, px, py, c)]
                == atlas_byte(sources@, r.1@, r.0 as int, sources@.len() as int, px, py, c),
{
    let mut packs: Vec<PackSource> = Vec::new();
    let mut i: usize = 0;
    while i < sources.len()
        invariant
            i <= sources@.len(),
            packs@ == pack_view(sources@).take(i as int),
        decreases sources@.len() - i,
    {
        packs.push(PackSource { w: sources[i].w, h: sources[i].h, has_data: sources[i].data.len() > 0 });
        proof {
            assert(packs@ =~= pack_view(sources@).take(i + 1));
        }
        i += 1;
    }
    proof {
        assert(packs@ =~= pack_view(sources@));
    }
    let (size, placements) = plan_atlas(packs.as_slice(), initial);
    proof {
        lemma_atlas_size_bound(packs@, initial as int);
        assert(size * size * 4 <= u32::MAX) by (nonlinear_arith)
            requires size <= 32767;
        assert forall|j: int| 0 <= j < sources@.len() && (#[trigger] placements@[j]) is Some implies {
            &&& sources@[j].w > 0 && sources@[j].h > 0 ==> ((placements@[j]->0).1 + sources@[j].h - 1) * size + (
                placements@[j]->0).0 + sources@[j].w <= size * size
            &&& sources@[j].w * sources@[j].h * 4 <= sources@[j].data@.len()
        } by {
            let (x, y) = placements@[j]->0;
            assert(placement_view(placements@[j]) == shelf_place(packs@, size as int, j));
            assert(packs@[j].has_data);
            assert(draws_inside(packs@, size as int, j));
        }
        if forall|i: int| 0 <= i < sources@.len() && (#[trigger] sources@[i]).data@.len() > 0 ==> sources@[i].w <= size {
            assert forall|i: int| 0 <= i < packs@.len() && (#[trigger] packs@[i]).has_data implies packs@[i].w
                <= size by {
                assert(sources@[i].data@.len() > 0);
            }
            law_pack_disjoint(packs@, size as int);
            assert forall|j: int| 0 <= j < sources@.len() && (#[trigger] placements@[j]) is Some implies (
                placements@[j]->0).0 + sources@[j].w <= size by {
                let (x, y) = placements@[j]->0;
                assert(placement_view(placements@[j]) == shelf_place(packs@, size as int, j));
                assert(placed_at(packs@, size as int, j, x as int, y as int));
            }
            assert forall|a: int, b: int|
                0 <= a < b < sources@.len() && (#[trigger] placements@[a]) is Some && (#[trigger] placements@[b]) is Some
                implies disjoint(
                (placements@[a]->0).0 as int,
                (placements@[a]->0).1 as int,
                sources@[a].w as int,
                sources@[a].h as int,
                (placements@[b]->0).0 as int,
                (placements@[b]->0).1 as int,
                sources@[b].w as int,
                sources@[b].h as int,
            ) by {
                let (xa, ya) = placements@[a]->0;
                let (xb, yb) = placements@[b]->0;
                assert(placement_view(placements@[a]) == shelf_place(packs@, size as int, a));
                assert(placement_view(placements@[b]) == shelf_place(packs@, size as int, b));
                assert(placed_at(packs@, size as int, a, xa as int, ya as int));
                assert(placed_at(packs@, size as int, b, xb as int, yb as int));
            }
        }
    }
    let pixels = atlas_pixels(size, sources, placements.as_slice());
    (size, placements, pixels)
}

/// The chosen edge is the first guess doubled while below the cap, so it
/// is at least the first guess and, for a first guess below 32768, below
/// that too.
proof fn lemma_atlas_size_bound(srcs: Seq<PackSource>, s: int)
    requires
        1 <= s <= 32767,
    ensures
        s <= atlas_size_for(srcs, s) <= 32767,
    decreases 2 * MAX_ATLAS_SIZE - s,
{
    if s < MAX_ATLAS_SIZE && !shelf_run(srcs, s).all_fit {
        lemma_atlas_size_bound(srcs, 2 * s);
    }
}


/// No two placed textures overlap.
pub open spec fn placements_disjoint(srcs: Seq<AtlasSource>, pl: Seq<Option<(u32, u32)>>) -> bool {
    forall|a: int, b: int|
        0 <= a < b < srcs.len() && (#[trigger] pl[a]) is Some && (#[trigger] pl[b]) is Some ==> disjoint(
            (pl[a]->0).0 as int,
            (pl[a]->0).1 as int,
            srcs[a].w as int,
            srcs[a].h as int,
            (pl[b]->0).0 as int,
            (pl[b]->0).1 as int,
            srcs[b].w as int,
            srcs[b].h as int,
        )
}

/// Every placed texture fits across the `size`-wide atlas.
pub open spec fn placements_across(srcs: Seq<AtlasSource>, pl: Seq<Option<(u32, u32)>>, size: int) -> bool {
    forall|j: int| 0 <= j < srcs.len() && (#[trigger] pl[j]) is Some ==> (pl[j]->0).0 + srcs[j].w <= size
}

proof fn lemma_shows_texture(srcs: Seq<AtlasSource>, pl: Seq<Option<(u32, u32)>>, size: int, n: int, j: int, px: int,
    py: int, c: int)
    requires
        pl.len() == srcs.len(),
        0 <= j < n <= srcs.len(),
        pl[j] is Some,
        0 <= px < size,
        in_rect((pl[j]->0).0 as int, (pl[j]->0).1 as int, srcs[j].w as int, srcs[j].h as int, px, py),
        placements_disjoint(srcs, pl),
        placements_across(srcs, pl, size),
    ensures
        atlas_byte(srcs, pl, size, n, px, py, c) == srcs[j].data@[pixel_index(
            srcs[j].w as int,
            px - (pl[j]->0).0,
            py - (pl[j]->0).1,
            c,
        )],
    decreases n,
{
    let k = n - 1;
    if pl[k] is Some {
        let (x, y) = pl[k]->0;
        lemma_rows_in_rect(size, x as int, y as int, srcs[k].w as int, srcs[k].h as int, px, py);
    }
    if k != j {
        lemma_shows_texture(srcs, pl, size, n - 1, j, px, py, c);
        if pl[k] is Some {
            assert(pl[j] is Some && pl[k] is Some);
        }
    }
}

/// When no two placed textures overlap and each fits across the atlas,
/// every atlas pixel that a placed texture covers shows that texture's
/// pixel.
pub proof fn law_atlas_shows_texture(srcs: Seq<AtlasSource>, pl: Seq<Option<(u32, u32)>>, size: int, j: int, px: int,
    py: int, c: int)
    requires
        pl.len() == srcs.len(),
        0 <= j < srcs.len(),
        pl[j] is Some,
        0 <= px < size,
        in_rect((pl[j]->0).0 as int, (pl[j]->0).1 as int, srcs[j].w as int, srcs[j].h as int, px, py),
        placements_disjoint(srcs, pl),
        placements_across(srcs, pl, size),
    ensures
        atlas_byte(srcs, pl, size, srcs.len() as int, px, py, c) == srcs[j].data@[pixel_index(
            srcs[j].w as int,
            px - (pl[j]->0).0,
            py - (pl[j]->0).1,
            c,
        )],
{
    lemma_shows_texture(srcs, pl, size, srcs.len() as int, j, px, py, c);
}


/// How tall a texture counts as when ordering: at least the placeholder
/// tile's height.
pub open spec fn sort_key(s: AtlasSource) -> int {
    if s.h >= MISSING_TILE {
        s.h as int
    } else {
        MISSING_TILE as int
    }
}

fn key_of(s: &AtlasSource) -> (r: u32)
    ensures
        r == sort_key(*s),
{
    if s.h >= MISSING_TILE {
        s.h
    } else {
        MISSING_TILE
    }
}

/// `r` is `s` reordered by `perm` (`r[i]` is `s[perm[i]]`), tallest first,
/// with textures of equal height in their order in `s`.
pub open spec fn stable_tallest_first(r: Seq<AtlasSource>, s: Seq<AtlasSource>, perm: Seq<int>) -> bool {
    &&& perm.len() == r.len()
    &&& forall|i: int| 0 <= i < r.len() ==> 0 <= #[trigger] perm[i] < s.len() && r[i] == s[perm[i]]
    &&& forall|i: int, j: int| 0 <= i < j < r.len() ==> #[trigger] perm[i] != #[trigger] perm[j]
    &&& forall|i: int, j: int| 0 <= i < j < r.len() ==> sort_key(#[trigger] r[i]) >= sort_key(#[trigger] r[j])
    &&& forall|i: int, j: int|
        0 <= i < j < r.len() && sort_key(#[trigger] r[i]) == sort_key(#[trigger] r[j]) ==> perm[i] < perm[j]
}

/// Orders the textures tallest first, keeping the order of textures of
/// equal height; every texture counts as at least as tall as the
/// placeholder tile.
pub fn sort_tallest_first(sources: Vec<AtlasSource>) -> (r: Vec<AtlasSource>)
    ensures
        r@.len() == sources@.len(),
        exists|perm: Seq<int>| stable_tallest_first(r@, sources@, perm),
{
    let ghost s = sources@;
    let mut out: Vec<AtlasSource> = Vec::new();
    let ghost mut perm: Seq<int> = Seq::empty();
    for x in it: sources.into_iter()
        invariant
            it.seq() == s,
            out@.len() == it.index(),
            stable_tallest_first(out@, s, perm),
            forall|i: int| 0 <= i < perm.len() ==> #[trigger] perm[i] < it.index(),
    {
        let ghost t = it.index();
        let key = key_of(&x);
        let mut p: usize = 0;
        while p < out.len() && key_of(&out[p]) >= key
            invariant
                p <= out@.len(),
                key == sort_key(x),
                forall|i: int| 0 <= i < p ==> sort_key(#[trigger] out@[i]) >= key,
            decreases out@.len() - p,
        {
            p += 1;
        }
        let ghost old_out = out@;
        let ghost old_perm = perm;
        proof {
            assert(x == s[t]);
            if p < old_out.len() {
                assert(sort_key(old_out[p as int]) < key);
            }
        }
        out.insert(p, x);
        proof {
            perm = old_perm.insert(p as int, t);
            assert forall|i: int| 0 <= i < out@.len() implies 0 <= #[trigger] perm[i] < s.len() && out@[i]
                == s[perm[i]] by {
                if i < p {
                } else if i == p {
                } else {
                    assert(out@[i] == old_out[i - 1]);
                    assert(perm[i] == old_perm[i - 1]);
                }
            }
            assert forall|i: int, j: int| 0 <= i < j < out@.len() implies #[trigger] perm[i] != #[trigger] perm[j] by {
                if i < p && j < p {
                    assert(old_perm[i] != old_perm[j]);
                } else if i < p && j == p {
                    assert(old_perm[i] < t);
                } else if i < p && j > p {
                    assert(perm[j] == old_perm[j - 1]);
                    assert(old_perm[i] != old_perm[j - 1]);
                } else if i == p {
                    assert(perm[j] == old_perm[j - 1]);
                    assert(old_perm[j - 1] < t);
                } else {
                    assert(perm[i] == old_perm[i - 1]);
                    assert(perm[j] == old_perm[j - 1]);
                    assert(old_perm[i - 1] != old_perm[j - 1]);
                }
            }
            assert forall|i: int, j: int| 0 <= i < j < out@.len() implies sort_key(#[trigger] out@[i]) >= sort_key(
                #[trigger] out@[j]) by {
                if j < p {
                    assert(sort_key(old_out[i]) >= sort_key(old_out[j]));
                } else if j == p {
                    assert(sort_key(old_out[i]) >= key);
                } else if i < p {
                    assert(out@[j] == old_out[j - 1]);
                    assert(sort_key(old_out[i]) >= sort_key(old_out[j - 1]));
                } else if i == p {
                    assert(out@[j] == old_out[j - 1]);
                    assert(sort_key(old_out[p as int]) >= sort_key(old_out[j - 1]) || j - 1 == p);
                } else {
                    assert(out@[i] == old_out[i - 1]);
                    assert(out@[j] == old_out[j - 1]);
                    assert(sort_key(old_out[i - 1]) >= sort_key(old_out[j - 1]));
                }
            }
            assert forall|i: int, j: int|
                0 <= i < j < out@.len() && sort_key(#[trigger] out@[i]) == sort_key(#[trigger] out@[j]) implies perm[i]
                < perm[j] by {
                if j < p {
                    assert(old_perm[i] < old_perm[j]);
                } else if j == p {
                    assert(old_perm[i] < t);
                } else if i < p {
                    assert(out@[j] == old_out[j - 1]);
                    assert(perm[j] == old_perm[j - 1]);
                    assert(old_perm[i] < old_perm[j - 1]);
                } else if i == p {
                    assert(out@[j] == old_out[j - 1]);
                    assert(sort_key(old_out[p as int]) >= sort_key(old_out[j - 1]) || j - 1 == p);
                    assert(false);
                } else {
                    assert(out@[i] == old_out[i - 1]);
                    assert(out@[j] == old_out[j - 1]);
                    assert(perm[i] == old_perm[i - 1]);
                    assert(perm[j] == old_perm[j - 1]);
                    assert(old_perm[i - 1] < old_perm[j - 1]);
                }
            }
            assert forall|i: int| 0 <= i < perm.len() implies #[trigger] perm[i] < t + 1 by {
                if i < p {
                } else if i == p {
                } else {
                    assert(perm[i] == old_perm[i - 1]);
                }
            }
        }
    }
    out
}

} // verus!
