//! Texture data prepared on the CPU: fallback images, mirrored panorama
//! faces and their cubemap staging buffer, and texture asset names.
use vstd::prelude::*;
use vstd::string::StringExecFns;

use crate::text::{decimal, decimal_string, has_prefix, starts_with};

verus! {

/// The colour of the placeholder entity texture.
pub open spec fn entity_fallback_color() -> Seq<u8> {
    seq![219u8, 148u8, 148u8, 255u8]
}

/// The colour of the placeholder player skin.
pub open spec fn skin_fallback_color() -> Seq<u8> {
    seq![196u8, 161u8, 125u8, 255u8]
}

/// `pixels` holds `n` RGBA pixels, all of colour `color`.
pub open spec fn solid(pixels: Seq<u8>, n: int, color: Seq<u8>) -> bool {
    &&& pixels.len() == 4 * n
    &&& forall|p: int, c: int| 0 <= p < n && 0 <= c < 4 ==> #[trigger] pixels[4 * p + c] == color[c]
}

/// `n` pixels of one colour.
fn solid_pixels(n: usize, c0: u8, c1: u8, c2: u8, c3: u8) -> (r: Vec<u8>)
    requires
        4 * n <= usize::MAX,
    ensures
        solid(r@, n as int, seq![c0, c1, c2, c3]),
{
    let ghost color = seq![c0, c1, c2, c3];
    let mut out: Vec<u8> = Vec::new();
    let mut p: usize = 0;
    while p < n
        invariant
            p <= n,
            4 * n <= usize::MAX,
            color == seq![c0, c1, c2, c3],
            solid(out@, p as int, color),
        decreases n - p,
    {
        out.push(c0);
        out.push(c1);
        out.push(c2);
        out.push(c3);
        proof {
            assert forall|q: int, c: int| 0 <= q < p + 1 && 0 <= c < 4 implies #[trigger] out@[4 * q + c]
                == color[c] by {
                if q < p {
                    assert(out@[4 * q + c] == out@.subrange(0, 4 * p)[4 * q + c]);
                }
            }
        }
        p += 1;
    }
    out
}

/// A `size` × `size` placeholder entity texture.
pub fn fallback_texture(size: u32) -> (r: (Vec<u8>, u32, u32))
    requires
        size * size * 4 <= u32::MAX,
    ensures
        solid(r.0@, (size * size) as int, entity_fallback_color()),
        r.1 == size,
        r.2 == size,
{
    let n = (size * size) as usize;
    let pixels = solid_pixels(n, 219, 148, 148, 255);
    (pixels, size, size)
}

/// A 64 × 64 placeholder player skin.
pub fn fallback_skin() -> (r: (Vec<u8>, u32, u32))
    ensures
        solid(r.0@, 64 * 64 as int, skin_fallback_color()),
        r.1 == 64,
        r.2 == 64,
{
    let pixels = solid_pixels(64 * 64, 196, 161, 125, 255);
    (pixels, 64, 64)
}


/// Where pixel `x` of row `y` of a `w`-pixel-wide RGBA image starts.
pub open spec fn px(w: int, y: int, x: int) -> int {
    (y * w + x) * 4
}

/// `out` is `data`, a `w` × `h` RGBA image, mirrored left to right, over
/// the first `w * h` pixels, given from byte `base` on.
pub open spec fn mirrored(out: Seq<u8>, base: int, data: Seq<u8>, w: int, h: int) -> bool {
    forall|y: int, x: int, c: int|
        0 <= y < h && 0 <= x < w && 0 <= c < 4 ==> #[trigger] out[base + px(w, y, x) + c] == data[px(w, y, w - 1 - x)
            + c]
}

proof fn lemma_px_bounds(w: int, h: int, y: int, x: int)
    requires
        0 <= y < h,
        0 <= x < w,
    ensures
        0 <= y * w + x < w * h,
        (y * w + x) + 1 <= w * h,
        0 <= y * w,
        y * w + w == (y + 1) * w,
        (y + 1) * w <= w * h,
{
    assert(0 <= y * w + x < w * h && 0 <= y * w && y * w + w == (y + 1) * w && (y + 1) * w <= w * h)
        by (nonlinear_arith)
        requires 0 <= y < h, 0 <= x < w;
}

/// Appends to `out` the `w` × `h` RGBA image `data` mirrored left to right.
fn push_mirrored(out: &mut Vec<u8>, data: &[u8], w: usize, h: usize)
    requires
        w * h * 4 <= data@.len(),
        old(out)@.len() + w * h * 4 <= usize::MAX,
    ensures
        final(out)@.len() == old(out)@.len() + w * h * 4,
        final(out)@.subrange(0, old(out)@.len() as int) == old(out)@,
        mirrored(final(out)@, old(out)@.len() as int, data@, w as int, h as int),
{
    let ghost base = out@.len() as int;
    let ghost start = out@;
    let mut y: usize = 0;
    proof {
        assert(w * h * 4 == (w * h) * 4);
    }
    while y < h
        invariant
            y <= h,
            w * h * 4 <= data@.len(),
            base + w * h * 4 <= usize::MAX,
            base == start.len(),
            out@.len() == base + y * w * 4,
            y * w <= w * h,
            out@.subrange(0, base) == start,
            forall|yy: int, xx: int, cc: int|
                0 <= yy < y && 0 <= xx < w && 0 <= cc < 4 ==> #[trigger] out@[base + px(w as int, yy, xx) + cc]
                    == data@[px(w as int, yy, w - 1 - xx) + cc],
        decreases h - y,
    {
        let mut x: usize = 0;
        proof {
            assert forall|yy: int, xx: int, cc: int|
                0 <= yy < h && 0 <= xx < w && 0 <= cc < 4 && yy * w + xx < y * w + 0 implies #[trigger] out@[base
                + px(w as int, yy, xx) + cc] == data@[px(w as int, yy, w - 1 - xx) + cc] by {
                assert(yy < y) by (nonlinear_arith)
                    requires yy * w + xx < y * w, 0 <= xx, 0 <= yy;
            }
        }
        while x < w
            invariant
                y < h,
                x <= w,
                w * h * 4 <= data@.len(),
                base + w * h * 4 <= usize::MAX,
                base == start.len(),
                out@.len() == base + (y * w + x) * 4,
                y * w + x <= w * h,
                out@.subrange(0, base) == start,
                forall|yy: int, xx: int, cc: int|
                    0 <= yy < h && 0 <= xx < w && 0 <= cc < 4 && yy * w + xx < y * w + x ==> #[trigger] out@[base
                        + px(w as int, yy, xx) + cc] == data@[px(w as int, yy, w - 1 - xx) + cc],
            decreases w - x,
        {
            proof {
                lemma_px_bounds(w as int, h as int, y as int, x as int);
                lemma_px_bounds(w as int, h as int, y as int, (w - 1 - x) as int);
            }
            let src = (y * w + (w - 1 - x)) * 4;
            let ghost before = out@;
            let mut c: usize = 0;
            while c < 4
                invariant
                    y < h,
                    x < w,
                    c <= 4,
                    src == (y * w + (w - 1 - x)) * 4,
                    src + 4 <= data@.len(),
                    before.len() == base + (y * w + x) * 4,
                    base + (y * w + x) * 4 + 4 <= usize::MAX,
                    out@.len() == before.len() + c,
                    out@.subrange(0, before.len() as int) == before,
                    forall|cc: int| 0 <= cc < c ==> #[trigger] out@[before.len() + cc] == data@[src + cc],
                decreases 4 - c,
            {
                out.push(data[src + c]);
                proof {
                    assert(out@.subrange(0, before.len() as int) =~= before);
                }
                c += 1;
            }
            proof {
                assert forall|yy: int, xx: int, cc: int|
                    0 <= yy < h && 0 <= xx < w && 0 <= cc < 4 && yy * w + xx < y * w + x + 1 implies #[trigger] out@[base
                    + px(w as int, yy, xx) + cc] == data@[px(w as int, yy, w - 1 - xx) + cc] by {
                    lemma_px_bounds(w as int, h as int, yy, xx);
                    if yy * w + xx < y * w + x {
                        assert(out@[base + px(w as int, yy, xx) + cc] == before[base + px(w as int, yy, xx) + cc]);
                    } else {
                        assert(yy * w + xx == y * w + x);
                        assert(yy == y && xx == x) by (nonlinear_arith)
                            requires yy * w + xx == y * w + x, 0 <= xx < w, 0 <= x < w, 0 <= yy, 0 <= y;
                        assert(out@[before.len() + cc] == data@[src + cc]);
                    }
                }
                assert(out@.subrange(0, base) =~= before.subrange(0, base));
            }
            x += 1;
        }
        proof {
            assert((y * w + w) * 4 == (y + 1) * w * 4) by (nonlinear_arith);
            assert((y + 1) * w <= w * h) by (nonlinear_arith)
                requires y < h;
            assert forall|yy: int, xx: int, cc: int|
                0 <= yy < y + 1 && 0 <= xx < w && 0 <= cc < 4 implies #[trigger] out@[base + px(w as int, yy, xx) + cc]
                == data@[px(w as int, yy, w - 1 - xx) + cc] by {
                assert(yy * w + xx < y * w + w) by (nonlinear_arith)
                    requires yy < y + 1, xx < w;
            }
        }
        y += 1;
    }
    proof {
        assert(y * w * 4 == w * h * 4) by (nonlinear_arith) requires y == h;
        assert(mirrored(out@, base, data@, w as int, h as int));
    }
}

/// `data`, a `w` × `h` RGBA image, mirrored left to right; bytes past the
/// image are zero.
pub fn flip_horizontal(data: &[u8], w: u32, h: u32) -> (r: Vec<u8>)
    requires
        w * 4 <= u32::MAX,
        w * h * 4 <= data@.len(),
    ensures
        r@.len() == data@.len(),
        mirrored(r@, 0, data@, w as int, h as int),
        forall|i: int| w * h * 4 <= i < r@.len() ==> r@[i] == 0,
{
    let mut out: Vec<u8> = Vec::new();
    let n = data.len();
    push_mirrored(&mut out, data, w as usize, h as usize);
    let ghost img = out@;
    while out.len() < n
        invariant
            img.len() == w * h * 4,
            img.len() <= out@.len() <= n,
            n == data@.len(),
            out@.subrange(0, img.len() as int) == img,
            forall|i: int| img.len() <= i < out@.len() ==> out@[i] == 0,
        decreases n - out@.len(),
    {
        out.push(0);
        proof {
            assert(out@.subrange(0, img.len() as int) =~= img);
        }
    }
    proof {
        assert forall|y: int, x: int, c: int| 0 <= y < h && 0 <= x < w && 0 <= c < 4 implies #[trigger] out@[0
            + px(w as int, y, x) + c] == data@[px(w as int, y, w - 1 - x) + c] by {
            lemma_px_bounds(w as int, h as int, y, x);
            assert(img[0 + px(w as int, y, x) + c] == data@[px(w as int, y, w - 1 - x) + c]);
            assert(out@[px(w as int, y, x) + c] == out@.subrange(0, img.len() as int)[px(w as int, y, x) + c]);
        }
    }
    out
}


/// The cubemap layer of each panorama face: the panorama numbers its faces
/// in another order than the cubemap's layers.
pub const FACE_TO_LAYER: [u32; 6] = [4, 1, 5, 0, 2, 3];

pub open spec fn face_layer(i: int) -> int {
    if i == 0 {
        4
    } else if i == 1 {
        1
    } else if i == 2 {
        5
    } else if i == 3 {
        0
    } else if i == 4 {
        2
    } else {
        3
    }
}

/// The panorama face that goes into cubemap layer `l`.
fn layer_face(l: usize) -> (i: usize)
    requires
        l < 6,
    ensures
        i < 6,
        face_layer(i as int) == l,
{
    if l == 0 {
        3
    } else if l == 1 {
        1
    } else if l == 2 {
        4
    } else if l == 3 {
        5
    } else if l == 4 {
        0
    } else {
        2
    }
}

/// A longer buffer with the same start keeps a mirrored image that lies
/// within that start.
proof fn lemma_mirrored_prefix(out: Seq<u8>, out2: Seq<u8>, base: int, data: Seq<u8>, w: int, h: int)
    requires
        0 <= base,
        0 <= w,
        0 <= h,
        base + w * h * 4 <= out.len() <= out2.len(),
        out2.subrange(0, out.len() as int) == out,
        mirrored(out, base, data, w, h),
    ensures
        mirrored(out2, base, data, w, h),
{
    assert forall|y: int, x: int, c: int| 0 <= y < h && 0 <= x < w && 0 <= c < 4 implies #[trigger] out2[base
        + px(w, y, x) + c] == data[px(w, y, w - 1 - x) + c] by {
        lemma_px_bounds(w, h, y, x);
        assert((y * w + x) * 4 + c < w * h * 4) by (nonlinear_arith)
            requires y * w + x + 1 <= w * h, 0 <= c < 4;
        assert(out2[base + px(w, y, x) + c] == out2.subrange(0, out.len() as int)[base + px(w, y, x) + c]);
    }
}

/// The staging buffer of a panorama cubemap: each of the six `w` × `h`
/// faces, mirrored left to right, in its cubemap layer.
pub fn cubemap_staging(faces: &Vec<Vec<u8>>, w: u32, h: u32) -> (r: Vec<u8>)
    requires
        faces@.len() == 6,
        w * h * 4 <= u32::MAX,
        6 * (w * h * 4) <= usize::MAX,
        forall|i: int| 0 <= i < 6 ==> (#[trigger] faces@[i])@.len() == w * h * 4,
    ensures
        r@.len() == 6 * (w * h * 4),
        forall|i: int| 0 <= i < 6 ==> mirrored(r@, face_layer(i) * (w * h * 4), (#[trigger] faces@[i])@, w as int, h as int),
{
    let face_bytes = (w * h * 4) as usize;
    let mut out: Vec<u8> = Vec::new();
    let mut l: usize = 0;
    while l < 6
        invariant
            l <= 6,
            faces@.len() == 6,
            face_bytes == w * h * 4,
            face_bytes <= u32::MAX,
            6 * face_bytes <= usize::MAX,
            forall|i: int| 0 <= i < 6 ==> (#[trigger] faces@[i])@.len() == w * h * 4,
            out@.len() == l * face_bytes,
            forall|i: int| 0 <= i < 6 && face_layer(i) < l ==> mirrored(out@, face_layer(i) * face_bytes, (
                #[trigger] faces@[i])@, w as int, h as int),
        decreases 6 - l,
    {
        let i = layer_face(l);
        let ghost before = out@;
        proof {
            assert(l * face_bytes + face_bytes <= 6 * face_bytes) by (nonlinear_arith)
                requires l < 6, face_bytes >= 0;
        }
        push_mirrored(&mut out, faces[i].as_slice(), w as usize, h as usize);
        proof {
            assert forall|j: int| 0 <= j < 6 && face_layer(j) < l + 1 implies mirrored(out@, face_layer(j) * face_bytes,
                (#[trigger] faces@[j])@, w as int, h as int) by {
                if face_layer(j) < l {
                    assert(face_layer(j) * face_bytes + w * h * 4 <= l * face_bytes) by (nonlinear_arith)
                        requires face_layer(j) < l, face_bytes == w * h * 4;
                    lemma_mirrored_prefix(before, out@, face_layer(j) * face_bytes, faces@[j]@, w as int, h as int);
                } else {
                    assert(j == i);
                }
            }
            assert(out@.len() == (l + 1) * face_bytes) by (nonlinear_arith)
                requires out@.len() == l * face_bytes + face_bytes;
        }
        l += 1;
    }
    out
}


/// The asset path of a block, item or entity texture key: item and entity
/// textures live beside the block ones, under their own folder.
pub open spec fn atlas_path(key: Seq<char>) -> Seq<char> {
    if has_prefix(key, "item/"@) || has_prefix(key, "entity/"@) {
        "minecraft/textures/"@ + key + ".png"@
    } else {
        "minecraft/textures/block/"@ + key + ".png"@
    }
}

/// The asset path of the texture `key` names.
pub fn atlas_asset_path(key: &str) -> (r: String)
    ensures
        r@ == atlas_path(key@),
{
    let mut out = if starts_with(key, "item/") || starts_with(key, "entity/") {
        String::from_str("minecraft/textures/")
    } else {
        String::from_str("minecraft/textures/block/")
    };
    out.append(key);
    out.append(".png");
    out
}


/// The file name of panorama face `i` when it lies loose beside the game's
/// assets.
pub fn panorama_file_name(i: u32) -> (r: String)
    ensures
        r@ == "panorama_"@ + decimal(i as nat) + ".png"@,
{
    let mut out = String::from_str("panorama_");
    let d = decimal_string(i);
    out.append(d.as_str());
    out.append(".png");
    out
}

/// The asset key of panorama face `i`.
pub fn panorama_asset_key(i: u32) -> (r: String)
    ensures
        r@ == "minecraft/textures/gui/title/background/panorama_"@ + decimal(i as nat) + ".png"@,
{
    let mut out = String::from_str("minecraft/textures/gui/title/background/panorama_");
    let d = decimal_string(i);
    out.append(d.as_str());
    out.append(".png");
    out
}


/// Mirroring an image twice gives it back.
pub proof fn law_mirror_twice(a: Seq<u8>, b: Seq<u8>, c: Seq<u8>, w: int, h: int)
    requires
        mirrored(b, 0, a, w, h),
        mirrored(c, 0, b, w, h),
    ensures
        forall|y: int, x: int, ch: int|
            0 <= y < h && 0 <= x < w && 0 <= ch < 4 ==> #[trigger] c[px(w, y, x) + ch] == a[px(w, y, x) + ch],
{
    assert forall|y: int, x: int, ch: int| 0 <= y < h && 0 <= x < w && 0 <= ch < 4 implies #[trigger] c[px(w, y, x)
        + ch] == a[px(w, y, x) + ch] by {
        assert(c[0 + px(w, y, x) + ch] == b[px(w, y, w - 1 - x) + ch]);
        assert(b[0 + px(w, y, w - 1 - x) + ch] == a[px(w, y, w - 1 - (w - 1 - x)) + ch]);
    }
}


/// The size of mip level `i` of a `w` × `h` image: each level halves the
/// one before, rounding down, but never below one pixel.
pub open spec fn mip_extent(w: int, h: int, i: nat) -> (int, int)
    decreases i,
{
    if i == 0 {
        (w, h)
    } else {
        let (pw, ph) = mip_extent(w, h, (i - 1) as nat);
        (if pw / 2 >= 1 { pw / 2 } else { 1 }, if ph / 2 >= 1 { ph / 2 } else { 1 })
    }
}

/// The sizes of the first `levels` mip levels of a `w` × `h` image, each
/// blitted from the one before when the cubemap's mip chain is built.
pub fn mip_extents(w: i32, h: i32, levels: u32) -> (r: Vec<(i32, i32)>)
    requires
        w >= 0,
        h >= 0,
    ensures
        r@.len() == levels,
        forall|i: int| 0 <= i < levels ==> #[trigger] r@[i] == (mip_extent(w as int, h as int, i as nat).0 as i32,
            mip_extent(w as int, h as int, i as nat).1 as i32),
{
    let mut out: Vec<(i32, i32)> = Vec::new();
    let mut mw = w;
    let mut mh = h;
    let mut i: u32 = 0;
    while i < levels
        invariant
            i <= levels,
            out@.len() == i,
            0 <= mw && (mw <= w || mw == 1),
            0 <= mh && (mh <= h || mh == 1),
            (mw as int, mh as int) == mip_extent(w as int, h as int, i as nat),
            forall|j: int| 0 <= j < i ==> #[trigger] out@[j] == (mip_extent(w as int, h as int, j as nat).0 as i32,
                mip_extent(w as int, h as int, j as nat).1 as i32),
        decreases levels - i,
    {
        out.push((mw, mh));
        let nw = if mw / 2 >= 1 { mw / 2 } else { 1 };
        let nh = if mh / 2 >= 1 { mh / 2 } else { 1 };
        mw = nw;
        mh = nh;
        i += 1;
    }
    out
}

/// Where each cubemap layer starts in the staging buffer of `w` × `h`
/// faces.
pub fn layer_offsets(w: u32, h: u32) -> (r: Vec<u64>)
    requires
        w * h * 4 <= u32::MAX,
    ensures
        r@.len() == 6,
        forall|l: int| 0 <= l < 6 ==> #[trigger] r@[l] == l * (w * h * 4),
{
    let face_bytes = (w * h * 4) as u64;
    let mut out: Vec<u64> = Vec::new();
    let mut l: u64 = 0;
    while l < 6
        invariant
            l <= 6,
            face_bytes == w * h * 4,
            face_bytes <= u32::MAX,
            out@.len() == l,
            forall|j: int| 0 <= j < l ==> #[trigger] out@[j] == j * (w * h * 4),
        decreases 6 - l,
    {
        proof {
            assert(l * face_bytes <= 6 * (u32::MAX as int)) by (nonlinear_arith)
                requires l < 6, face_bytes <= u32::MAX;
        }
        out.push(l * face_bytes);
        l += 1;
    }
    out
}

/// A loaded panorama face can go into the cubemap: it was found and is
/// larger than one pixel each way.
pub open spec fn face_usable(face: Option<(u32, u32)>) -> bool {
    match face {
        Some((w, h)) => w > 1 && h > 1,
        None => false,
    }
}

/// The face size of the panorama cubemap from the six loaded faces (each
/// its size, or nothing if it could not be found or read): the last face's
/// size when every face is usable; otherwise none, and the fallback cubemap
/// is used.
pub fn cubemap_extent(faces: &[Option<(u32, u32)>]) -> (r: Option<(u32, u32)>)
    requires
        faces@.len() == 6,
    ensures
        r == if forall|i: int| 0 <= i < 6 ==> face_usable(#[trigger] faces@[i]) {
            faces@[5]
        } else {
            None::<(u32, u32)>
        },
{
    let mut i: usize = 0;
    let mut size: Option<(u32, u32)> = None;
    while i < 6
        invariant
            faces@.len() == 6,
            i <= 6,
            forall|j: int| 0 <= j < i ==> face_usable(#[trigger] faces@[j]),
            i > 0 ==> size == faces@[i - 1],
        decreases 6 - i,
    {
        match faces[i] {
            Some((w, h)) => {
                if w <= 1 || h <= 1 {
                    return None;
                }
                size = Some((w, h));
            },
            None => {
                return None;
            },
        }
        i += 1;
    }
    size
}

} // verus!
