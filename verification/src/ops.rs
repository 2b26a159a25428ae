//! Whole-image gathers: crop, flip, quarter-turn rotation, padding and
//! auto-trim. They move pixels without looking inside them, so they work for
//! any pixel type. Each output tile `k` is named `tile_hash(k)` — the engine
//! passes the derivation that addresses the op's outputs.

use vstd::prelude::*;

use crate::geometry::{Rect, Size};
use crate::hash::{self, ContentHash};
use crate::tile::{lemma_flat_index, spec_grid_dims, tile_count, TileRef, TiledImage};
use vstd::bytes::{spec_u32_to_le_bytes, u32_to_le_bytes};

verus! {

/// The hash function may be called on every tile index.
pub open spec fn hash_fn_ok<F: Fn(u32) -> ContentHash>(f: F) -> bool {
    forall|i: u32| #[trigger] f.requires((i,))
}

/// Every tile of `img` is named by `f` applied to its index.
pub open spec fn named_by<P, F: Fn(u32) -> ContentHash>(img: TiledImage<P>, f: F) -> bool {
    forall|k: int| 0 <= k < img.tile_total() ==> call_ensures(f, (k as u32,), #[trigger] img.hash_at(k))
}

/// An image of `size` can be built: its tile count fits in a u32 index and its
/// pixel count in a usize.
pub open spec fn buildable(size: Size) -> bool {
    &&& tile_count(size) <= u32::MAX
    &&& size.spec_area() <= usize::MAX
}

/// Gather `rect` from the input into a fresh grid.
pub fn crop<P: Copy, F: Fn(u32) -> ContentHash>(
    input: &TiledImage<P>,
    rect: Rect,
    tile_hash: &F,
) -> (out: TiledImage<P>)
    requires
        input.wf(),
        rect.spec_fits_in(input.spec_size()),
        buildable(rect.spec_size()),
        hash_fn_ok(*tile_hash),
    ensures
        out.wf(),
        out.spec_size() == rect.spec_size(),
        forall|x: int, y: int|
            0 <= x < rect.width && 0 <= y < rect.height ==> #[trigger] out.pixel_at(x, y)
                == input.pixel_at(rect.x + x, rect.y + y),
        named_by(out, *tile_hash),
{
    let w = rect.width as usize;
    let n = rect.size().area() as usize;
    let mut flat: Vec<P> = Vec::with_capacity(n);
    let mut i: usize = 0;
    while i < n
        invariant
            input.wf(),
            rect.spec_fits_in(input.spec_size()),
            0 <= i <= n,
            n == rect.width * rect.height,
            w == rect.width,
            flat@.len() == i,
            forall|j: int|
                0 <= j < i ==> #[trigger] flat@[j] == input.pixel_at(
                    rect.x + j % (w as int),
                    rect.y + j / (w as int),
                ),
        decreases n - i,
    {
        let ghost gi = i as int;
        proof {
            assert(w > 0 && gi / (w as int) < rect.height) by (nonlinear_arith)
                requires
                    0 <= gi < n,
                    n == w * rect.height,
            ;
        }
        let x = (i % w) as u32;
        let y = (i / w) as u32;
        flat.push(input.pixel(rect.x + x, rect.y + y));
        i = i + 1;
    }
    let out = TiledImage::from_flat_f32(rect.size(), flat.as_slice(), tile_hash);
    proof {
        assert forall|x: int, y: int|
            0 <= x < rect.width && 0 <= y < rect.height implies #[trigger] out.pixel_at(x, y)
            == input.pixel_at(rect.x + x, rect.y + y) by {
            lemma_flat_index(w as int, rect.height as int, x, y);
        }
    }
    out
}

/// Where output pixel `(x, y)` of a mirror across `axis` comes from.
pub open spec fn flip_source(axis: crate::pipeline::FlipAxis, size: Size, x: int, y: int) -> (
    int,
    int,
) {
    match axis {
        crate::pipeline::FlipAxis::Horizontal => (size.width - 1 - x, y),
        crate::pipeline::FlipAxis::Vertical => (x, size.height - 1 - y),
    }
}

/// Mirror across `axis`. Size-preserving whole-image gather.
pub fn flip<P: Copy, F: Fn(u32) -> ContentHash>(
    input: &TiledImage<P>,
    axis: crate::pipeline::FlipAxis,
    tile_hash: &F,
) -> (out: TiledImage<P>)
    requires
        input.wf(),
        buildable(input.spec_size()),
        hash_fn_ok(*tile_hash),
    ensures
        out.wf(),
        out.spec_size() == input.spec_size(),
        forall|x: int, y: int|
            0 <= x < input.spec_size().width && 0 <= y < input.spec_size().height
                ==> #[trigger] out.pixel_at(x, y) == input.pixel_at(
                flip_source(axis, input.spec_size(), x, y).0,
                flip_source(axis, input.spec_size(), x, y).1,
            ),
        named_by(out, *tile_hash),
{
    let size = input.size();
    let w = size.width as usize;
    let n = size.area() as usize;
    let mut flat: Vec<P> = Vec::with_capacity(n);
    let mut i: usize = 0;
    while i < n
        invariant
            input.wf(),
            size == input.spec_size(),
            0 <= i <= n,
            n == size.width * size.height,
            w == size.width,
            flat@.len() == i,
            forall|j: int|
                0 <= j < i ==> #[trigger] flat@[j] == input.pixel_at(
                    flip_source(axis, size, j % (w as int), j / (w as int)).0,
                    flip_source(axis, size, j % (w as int), j / (w as int)).1,
                ),
        decreases n - i,
    {
        let ghost gi = i as int;
        proof {
            assert(w > 0 && gi / (w as int) < size.height) by (nonlinear_arith)
                requires
                    0 <= gi < n,
                    n == w * size.height,
            ;
        }
        let x = (i % w) as u32;
        let y = (i / w) as u32;
        let (sx, sy) = match axis {
            crate::pipeline::FlipAxis::Horizontal => ((size.width - 1) - x, y),
            crate::pipeline::FlipAxis::Vertical => (x, (size.height - 1) - y),
        };
        flat.push(input.pixel(sx, sy));
        i = i + 1;
    }
    let out = TiledImage::from_flat_f32(size, flat.as_slice(), tile_hash);
    proof {
        assert forall|x: int, y: int|
            0 <= x < size.width && 0 <= y < size.height implies #[trigger] out.pixel_at(x, y)
            == input.pixel_at(flip_source(axis, size, x, y).0, flip_source(axis, size, x, y).1) by {
            lemma_flat_index(w as int, size.height as int, x, y);
        }
    }
    out
}

/// Size after `k` clockwise quarter turns.
pub open spec fn quarter_turn_size(size: Size, k: u8) -> Size {
    if k % 2 == 1 {
        Size { width: size.height, height: size.width }
    } else {
        size
    }
}

/// Where output pixel `(x, y)` of `k` clockwise quarter turns of an image of
/// `size` comes from.
pub open spec fn quarter_turn_source(size: Size, k: u8, x: int, y: int) -> (int, int) {
    if k == 1 {
        (y, size.height - 1 - x)
    } else if k == 2 {
        (size.width - 1 - x, size.height - 1 - y)
    } else if k == 3 {
        (size.width - 1 - y, x)
    } else {
        (x, y)
    }
}

/// Mirroring twice across the same axis restores the image: the source map
/// of a flip stays inside the image and is its own inverse.
pub proof fn lemma_flip_involution(axis: crate::pipeline::FlipAxis, size: Size, x: int, y: int)
    requires
        0 <= x < size.width,
        0 <= y < size.height,
    ensures
        0 <= flip_source(axis, size, x, y).0 < size.width,
        0 <= flip_source(axis, size, x, y).1 < size.height,
        flip_source(
            axis,
            size,
            flip_source(axis, size, x, y).0,
            flip_source(axis, size, x, y).1,
        ) == (x, y),
{
}

/// `k` clockwise quarter turns followed by `(4 - k) % 4` more restore the
/// image: the size comes back, and every output pixel of the second turn
/// traces back to its own position in the image turned first.
pub proof fn lemma_quarter_turn_inverse(size: Size, k: u8, x: int, y: int)
    requires
        k < 4,
        0 <= x < size.width,
        0 <= y < size.height,
    ensures
        quarter_turn_size(quarter_turn_size(size, k), ((4 - k) % 4) as u8) == size,
        0 <= quarter_turn_source(quarter_turn_size(size, k), ((4 - k) % 4) as u8, x, y).0
            < quarter_turn_size(size, k).width,
        0 <= quarter_turn_source(quarter_turn_size(size, k), ((4 - k) % 4) as u8, x, y).1
            < quarter_turn_size(size, k).height,
        quarter_turn_source(
            size,
            k,
            quarter_turn_source(quarter_turn_size(size, k), ((4 - k) % 4) as u8, x, y).0,
            quarter_turn_source(quarter_turn_size(size, k), ((4 - k) % 4) as u8, x, y).1,
        ) == (x, y),
{
}

/// A half turn is a horizontal mirror followed by a vertical one.
pub proof fn lemma_half_turn_is_two_flips(size: Size, x: int, y: int)
    ensures
        quarter_turn_source(size, 2, x, y) == flip_source(
            crate::pipeline::FlipAxis::Horizontal,
            size,
            flip_source(crate::pipeline::FlipAxis::Vertical, size, x, y).0,
            flip_source(crate::pipeline::FlipAxis::Vertical, size, x, y).1,
        ),
{
}

/// Rotate clockwise by `k` quarter turns (`k` in `0..4`): an exact pixel
/// permutation.
pub fn rotate_quarter<P: Copy, F: Fn(u32) -> ContentHash>(
    input: &TiledImage<P>,
    k: u8,
    tile_hash: &F,
) -> (out: TiledImage<P>)
    requires
        input.wf(),
        k < 4,
        buildable(input.spec_size()),
        hash_fn_ok(*tile_hash),
    ensures
        out.wf(),
        out.spec_size() == quarter_turn_size(input.spec_size(), k),
        forall|x: int, y: int|
            0 <= x < out.spec_size().width && 0 <= y < out.spec_size().height
                ==> #[trigger] out.pixel_at(x, y) == input.pixel_at(
                quarter_turn_source(input.spec_size(), k, x, y).0,
                quarter_turn_source(input.spec_size(), k, x, y).1,
            ),
        named_by(out, *tile_hash),
{
    let src = input.size();
    let out_size = if k % 2 == 1 {
        Size::new(src.height, src.width)
    } else {
        src
    };
    proof {
        assert(out_size.spec_area() == src.spec_area()) by (nonlinear_arith)
            requires
                out_size.width == src.width && out_size.height == src.height
                    || out_size.width == src.height && out_size.height == src.width,
        ;
        assert(tile_count(out_size) <= u32::MAX) by (nonlinear_arith)
            requires
                tile_count(src) <= u32::MAX,
                out_size.width == src.width && out_size.height == src.height
                    || out_size.width == src.height && out_size.height == src.width,
                tile_count(src) == ((src.width + 255) / 256) * ((src.height + 255) / 256),
                tile_count(out_size) == ((out_size.width + 255) / 256) * ((out_size.height + 255)
                    / 256),
        ;
    }
    let w = out_size.width as usize;
    let n = out_size.area() as usize;
    let mut flat: Vec<P> = Vec::with_capacity(n);
    let mut i: usize = 0;
    while i < n
        invariant
            input.wf(),
            src == input.spec_size(),
            k < 4,
            out_size == quarter_turn_size(src, k),
            0 <= i <= n,
            n == out_size.width * out_size.height,
            w == out_size.width,
            flat@.len() == i,
            forall|j: int|
                0 <= j < i ==> #[trigger] flat@[j] == input.pixel_at(
                    quarter_turn_source(src, k, j % (w as int), j / (w as int)).0,
                    quarter_turn_source(src, k, j % (w as int), j / (w as int)).1,
                ),
        decreases n - i,
    {
        let ghost gi = i as int;
        proof {
            assert(w > 0 && gi / (w as int) < out_size.height) by (nonlinear_arith)
                requires
                    0 <= gi < n,
                    n == w * out_size.height,
            ;
        }
        let ox = (i % w) as u32;
        let oy = (i / w) as u32;
        let (sx, sy) = if k == 1 {
            (oy, (src.height - 1) - ox)
        } else if k == 2 {
            ((src.width - 1) - ox, (src.height - 1) - oy)
        } else if k == 3 {
            ((src.width - 1) - oy, ox)
        } else {
            (ox, oy)
        };
        flat.push(input.pixel(sx, sy));
        i = i + 1;
    }
    let out = TiledImage::from_flat_f32(out_size, flat.as_slice(), tile_hash);
    proof {
        assert forall|x: int, y: int|
            0 <= x < out_size.width && 0 <= y < out_size.height implies #[trigger] out.pixel_at(
            x,
            y,
        ) == input.pixel_at(
            quarter_turn_source(src, k, x, y).0,
            quarter_turn_source(src, k, x, y).1,
        ) by {
            lemma_flat_index(w as int, out_size.height as int, x, y);
        }
    }
    out
}

/// Output pixel `(x, y)` of padding lies on the copied source image.
pub open spec fn in_source(src: Size, left: int, top: int, x: int, y: int) -> bool {
    left <= x < left + src.width && top <= y < top + src.height
}

/// Place `input` at `(left, top)` on a canvas of `out` size filled with `fill`.
/// The border is an exact solid fill; the interior is copied unchanged.
pub fn pad<P: Copy, F: Fn(u32) -> ContentHash>(
    input: &TiledImage<P>,
    out: Size,
    left: u32,
    top: u32,
    fill: P,
    tile_hash: &F,
) -> (res: TiledImage<P>)
    requires
        input.wf(),
        left + input.spec_size().width <= out.width,
        top + input.spec_size().height <= out.height,
        buildable(out),
        hash_fn_ok(*tile_hash),
    ensures
        res.wf(),
        res.spec_size() == out,
        forall|x: int, y: int|
            0 <= x < out.width && 0 <= y < out.height ==> #[trigger] res.pixel_at(x, y) == if in_source(
                input.spec_size(),
                left as int,
                top as int,
                x,
                y,
            ) {
                input.pixel_at(x - left, y - top)
            } else {
                fill
            },
        named_by(res, *tile_hash),
{
    let src = input.size();
    let w = out.width as usize;
    let n = out.area() as usize;
    let mut flat: Vec<P> = Vec::with_capacity(n);
    let mut i: usize = 0;
    while i < n
        invariant
            input.wf(),
            src == input.spec_size(),
            left + src.width <= out.width,
            top + src.height <= out.height,
            0 <= i <= n,
            n == out.width * out.height,
            w == out.width,
            flat@.len() == i,
            forall|j: int|
                0 <= j < i ==> #[trigger] flat@[j] == if in_source(
                    src,
                    left as int,
                    top as int,
                    j % (w as int),
                    j / (w as int),
                ) {
                    input.pixel_at(j % (w as int) - left, j / (w as int) - top)
                } else {
                    fill
                },
        decreases n - i,
    {
        let ghost gi = i as int;
        proof {
            assert(w > 0 && gi / (w as int) < out.height) by (nonlinear_arith)
                requires
                    0 <= gi < n,
                    n == w * out.height,
            ;
        }
        let x = (i % w) as u32;
        let y = (i / w) as u32;
        let p = if left <= x && x < left + src.width && top <= y && y < top + src.height {
            input.pixel(x - left, y - top)
        } else {
            fill
        };
        flat.push(p);
        i = i + 1;
    }
    let res = TiledImage::from_flat_f32(out, flat.as_slice(), tile_hash);
    proof {
        assert forall|x: int, y: int| 0 <= x < out.width && 0 <= y < out.height implies #[trigger] res.pixel_at(
            x,
            y,
        ) == if in_source(src, left as int, top as int, x, y) {
            input.pixel_at(x - left, y - top)
        } else {
            fill
        } by {
            lemma_flat_index(w as int, out.height as int, x, y);
        }
    }
    res
}

/// Pixel `(x, y)` of a `w`-wide image is background, per the row-major mask.
pub open spec fn is_bg(background: Seq<bool>, w: int, x: int, y: int) -> bool {
    background[y * w + x]
}

/// `r` is the tightest rectangle enclosing every non-background pixel of an
/// image of `size`: it contains them all, and each of its four edges touches one.
pub open spec fn is_content_bounds(size: Size, background: Seq<bool>, r: Rect) -> bool {
    let w = size.width as int;
    let h = size.height as int;
    &&& r.spec_fits_in(size)
    &&& forall|x: int, y: int|
        0 <= x < w && 0 <= y < h && !#[trigger] is_bg(background, w, x, y) ==> r.x <= x < r.x
            + r.width && r.y <= y < r.y + r.height
    &&& exists|y: int| 0 <= y < h && !#[trigger] is_bg(background, w, r.x as int, y)
    &&& exists|y: int| 0 <= y < h && !#[trigger] is_bg(background, w, r.x + r.width - 1, y)
    &&& exists|x: int| 0 <= x < w && !#[trigger] is_bg(background, w, x, r.y as int)
    &&& exists|x: int| 0 <= x < w && !#[trigger] is_bg(background, w, x, r.y + r.height - 1)
}

/// Every pixel of an image of `size` is background.
pub open spec fn all_background(size: Size, background: Seq<bool>) -> bool {
    forall|x: int, y: int|
        0 <= x < size.width && 0 <= y < size.height ==> #[trigger] is_bg(
            background,
            size.width as int,
            x,
            y,
        )
}

/// Tightest rectangle enclosing all pixels that are not background.
/// `background` is the row-major mask of pixels that match the background
/// reference (within the tolerance the caller applied). `None` when the whole
/// image is background.
pub fn content_bounds(size: Size, background: &[bool]) -> (r: Option<Rect>)
    requires
        background@.len() == size.width * size.height,
    ensures
        r is None <==> all_background(size, background@),
        r matches Some(b) ==> is_content_bounds(size, background@, b),
{
    let w = size.width as usize;
    let n = background.len();
    let mut found = false;
    let (mut minx, mut maxx, mut miny, mut maxy) = (0u32, 0u32, 0u32, 0u32);
    let ghost mut wminx: int = 0;
    let ghost mut wmaxx: int = 0;
    let ghost mut wminy: int = 0;
    let ghost mut wmaxy: int = 0;
    let mut i: usize = 0;
    while i < n
        invariant
            0 <= i <= n,
            n == background@.len(),
            n == size.width * size.height,
            w == size.width,
            !found ==> forall|j: int| 0 <= j < i ==> background@[j],
            found ==> {
                &&& forall|j: int|
                    0 <= j < i && !background@[j] ==> minx <= j % (w as int) <= maxx && miny <= j
                        / (w as int) <= maxy
                &&& 0 <= wminx < i && !background@[wminx] && wminx % (w as int) == minx
                &&& 0 <= wmaxx < i && !background@[wmaxx] && wmaxx % (w as int) == maxx
                &&& 0 <= wminy < i && !background@[wminy] && wminy / (w as int) == miny
                &&& 0 <= wmaxy < i && !background@[wmaxy] && wmaxy / (w as int) == maxy
            },
        decreases n - i,
    {
        let ghost gi = i as int;
        proof {
            assert(w > 0 && gi / (w as int) < size.height) by (nonlinear_arith)
                requires
                    0 <= gi < n,
                    n == w * size.height,
            ;
        }
        if !background[i] {
            let x = (i % w) as u32;
            let y = (i / w) as u32;
            if !found {
                found = true;
                minx = x;
                maxx = x;
                miny = y;
                maxy = y;
                proof {
                    wminx = gi;
                    wmaxx = gi;
                    wminy = gi;
                    wmaxy = gi;
                }
            } else {
                if x < minx {
                    minx = x;
                    proof {
                        wminx = gi;
                    }
                }
                if x > maxx {
                    maxx = x;
                    proof {
                        wmaxx = gi;
                    }
                }
                if y > maxy {
                    maxy = y;
                    proof {
                        wmaxy = gi;
                    }
                }
                proof {
                    // rows are scanned in order: this pixel is at or below miny
                    vstd::arithmetic::div_mod::lemma_div_is_ordered(wminy, gi, w as int);
                }
            }
        }
        i = i + 1;
    }
    if !found {
        proof {
            assert forall|x: int, y: int|
                0 <= x < size.width && 0 <= y < size.height implies #[trigger] is_bg(
                background@,
                size.width as int,
                x,
                y,
            ) by {
                lemma_flat_index(w as int, size.height as int, x, y);
            }
        }
        return None;
    }
    proof {
        let wi = w as int;
        let h = size.height as int;
        assert(wminx < n && wmaxx < n && wminy < n && wmaxy < n);
        assert(wi > 0) by (nonlinear_arith)
            requires
                0 <= wminx < wi * h,
                h >= 0,
        ;
        vstd::arithmetic::div_mod::lemma_fundamental_div_mod(wmaxx, wi);
        vstd::arithmetic::div_mod::lemma_fundamental_div_mod(wmaxy, wi);
        assert(maxx < size.width) by {
            vstd::arithmetic::div_mod::lemma_mod_bound(wmaxx, wi);
        }
        assert(maxy < h) by (nonlinear_arith)
            requires
                0 <= wmaxy < wi * h,
                maxy == wmaxy / wi,
                wi > 0,
        ;
        assert(minx <= maxx);
        assert(miny <= maxy);
    }
    let r = Rect::new(minx, miny, maxx - minx + 1, maxy - miny + 1);
    proof {
        let wi = w as int;
        let h = size.height as int;
        assert(wi > 0) by (nonlinear_arith)
            requires
                0 <= wminx < wi * h,
                h >= 0,
        ;
        assert forall|x: int, y: int|
            0 <= x < wi && 0 <= y < h && !#[trigger] is_bg(background@, wi, x, y) implies r.x <= x
            < r.x + r.width && r.y <= y < r.y + r.height by {
            lemma_flat_index(wi, h, x, y);
        }
        let (ax, ay) = (wminx % wi, wminx / wi);
        lemma_flat_index(wi, h, 0, 0);
        assert(0 <= ay < h) by (nonlinear_arith)
            requires
                0 <= wminx < wi * h,
                ay == wminx / wi,
                wi > 0,
        ;
        vstd::arithmetic::div_mod::lemma_fundamental_div_mod(wminx, wi);
        vstd::arithmetic::mul::lemma_mul_is_commutative(ay, wi);
        assert(is_bg(background@, wi, r.x as int, ay) == background@[wminx]);
        let by_ = wmaxx / wi;
        assert(0 <= by_ < h) by (nonlinear_arith)
            requires
                0 <= wmaxx < wi * h,
                by_ == wmaxx / wi,
                wi > 0,
        ;
        vstd::arithmetic::mul::lemma_mul_is_commutative(by_, wi);
        assert(is_bg(background@, wi, r.x + r.width - 1, by_) == background@[wmaxx]);
        let cx = wminy % wi;
        vstd::arithmetic::div_mod::lemma_fundamental_div_mod(wminy, wi);
        vstd::arithmetic::div_mod::lemma_mod_bound(wminy, wi);
        vstd::arithmetic::mul::lemma_mul_is_commutative(miny as int, wi);
        assert(is_bg(background@, wi, cx, r.y as int) == background@[wminy]);
        let dx = wmaxy % wi;
        vstd::arithmetic::div_mod::lemma_mod_bound(wmaxy, wi);
        vstd::arithmetic::mul::lemma_mul_is_commutative(maxy as int, wi);
        assert(is_bg(background@, wi, dx, r.y + r.height - 1) == background@[wmaxy]);
    }
    Some(r)
}

/// Bytes naming a trim rectangle: x, y, width, height, little-endian.
pub open spec fn rect_tag(r: Rect) -> Seq<u8> {
    spec_u32_to_le_bytes(r.x) + spec_u32_to_le_bytes(r.y) + spec_u32_to_le_bytes(r.width)
        + spec_u32_to_le_bytes(r.height)
}

/// Every tile of `input` under a new name: tile `k` is shared unchanged and
/// named `tile_hash(k)`.
pub fn clone_all<P, F: Fn(u32) -> ContentHash>(input: &TiledImage<P>, tile_hash: &F) -> (out: TiledImage<P>)
    requires
        input.wf(),
        hash_fn_ok(*tile_hash),
    ensures
        out.wf(),
        out.spec_size() == input.spec_size(),
        out.tile_total() == input.tile_total(),
        forall|k: int|
            0 <= k < out.tile_total() ==> (#[trigger] out.tile_refs()[k]).tile == input.tile_refs()[k].tile,
        forall|x: int, y: int|
            0 <= x < input.spec_size().width && 0 <= y < input.spec_size().height ==> #[trigger] out.pixel_at(x, y)
                == input.pixel_at(x, y),
        named_by(out, *tile_hash),
{
    let tiles = input.tiles();
    proof {
        input.lemma_wf_tiles();
    }
    let mut v: Vec<TileRef<P>> = Vec::with_capacity(tiles.len());
    let mut i: usize = 0;
    while i < tiles.len()
        invariant
            0 <= i <= tiles@.len(),
            tiles@ == input.tile_refs(),
            tiles@.len() <= u32::MAX,
            hash_fn_ok(*tile_hash),
            v@.len() == i,
            forall|k: int| 0 <= k < i ==> (#[trigger] v@[k]).tile == tiles@[k].tile,
            forall|k: int| 0 <= k < i ==> call_ensures(*tile_hash, (k as u32,), (#[trigger] v@[k]).hash),
        decreases tiles@.len() - i,
    {
        let h = tile_hash(i as u32);
        v.push(TileRef { hash: h, tile: crate::tile::share(&tiles[i].tile) });
        i = i + 1;
    }
    proof {
        let size = input.spec_size();
        let cols = spec_grid_dims(size).0 as int;
        assert forall|k: int| 0 <= k < v@.len() implies crate::tile::tile_fits(
            *(#[trigger] v@[k]).tile,
            size,
            (k % cols) as nat,
            (k / cols) as nat,
        ) by {
            assert(v@[k].tile == input.tile_refs()[k].tile);
        }
    }
    let out = TiledImage::new(input.size(), v);
    proof {
        assert forall|x: int, y: int|
            0 <= x < input.spec_size().width && 0 <= y < input.spec_size().height implies #[trigger] out.pixel_at(x, y)
            == input.pixel_at(x, y) by {
            crate::tile::lemma_locate(input.spec_size(), x, y);
        }
    }
    out
}

/// The row-major background mask of `img`: entry `y * width + x` is what
/// `is_bg` says of pixel `(x, y)`.
pub fn background_mask<P: Copy, F: Fn(&P) -> bool>(img: &TiledImage<P>, is_bg: &F) -> (mask: Vec<bool>)
    requires
        img.wf(),
        img.spec_size().spec_area() <= usize::MAX,
        forall|p: P| #[trigger] is_bg.requires((&p,)),
    ensures
        mask@.len() == img.spec_size().width * img.spec_size().height,
        forall|x: int, y: int|
            0 <= x < img.spec_size().width && 0 <= y < img.spec_size().height ==> call_ensures(
                *is_bg,
                (&img.pixel_at(x, y),),
                #[trigger] mask@[y * img.spec_size().width + x],
            ),
{
    let size = img.size();
    let w = size.width as usize;
    let n = size.area() as usize;
    let mut mask: Vec<bool> = Vec::with_capacity(n);
    let mut i: usize = 0;
    while i < n
        invariant
            img.wf(),
            size == img.spec_size(),
            forall|p: P| #[trigger] is_bg.requires((&p,)),
            0 <= i <= n,
            n == size.width * size.height,
            w == size.width,
            mask@.len() == i,
            forall|j: int|
                0 <= j < i ==> call_ensures(
                    *is_bg,
                    (&img.pixel_at(j % (w as int), j / (w as int)),),
                    #[trigger] mask@[j],
                ),
        decreases n - i,
    {
        let ghost gi = i as int;
        proof {
            assert(w > 0 && gi / (w as int) < size.height) by (nonlinear_arith)
                requires
                    0 <= gi < n,
                    n == w * size.height,
            ;
        }
        let x = (i % w) as u32;
        let y = (i / w) as u32;
        let p = img.pixel(x, y);
        mask.push(is_bg(&p));
        i = i + 1;
    }
    proof {
        assert forall|x: int, y: int|
            0 <= x < size.width && 0 <= y < size.height implies call_ensures(
            *is_bg,
            (&img.pixel_at(x, y),),
            #[trigger] mask@[y * size.width + x],
        ) by {
            lemma_flat_index(w as int, size.height as int, x, y);
        }
    }
    mask
}

/// Pixel `(x, y)` lies in the rectangle at `(rx0, ry0)` of `rw × rh`.
pub open spec fn in_region(rx0: u32, ry0: u32, rw: u32, rh: u32, x: int, y: int) -> bool {
    rx0 <= x < rx0 + rw && ry0 <= y < ry0 + rh
}

/// Tile `k` of an image of `size` shares at least one pixel with the rectangle.
pub open spec fn tile_meets_region(size: Size, k: int, rx0: u32, ry0: u32, rw: u32, rh: u32) -> bool {
    let cols = spec_grid_dims(size).0 as int;
    let (col, row) = (k % cols, k / cols);
    let (tw, th) = crate::tile::spec_tile_dims(size, col as nat, row as nat);
    exists|x: int, y: int|
        col * 256 <= x < col * 256 + tw && row * 256 <= y < row * 256 + th && in_region(rx0, ry0, rw, rh, x, y)
}

/// Copy the `rw × rh` rectangle at `(rx0, ry0)` out of the image, row-major.
pub fn read_region<P: Copy>(input: &TiledImage<P>, rx0: u32, ry0: u32, rw: u32, rh: u32) -> (out: Vec<P>)
    requires
        input.wf(),
        rx0 + rw <= input.spec_size().width,
        ry0 + rh <= input.spec_size().height,
        rw * rh <= usize::MAX,
    ensures
        out@.len() == rw * rh,
        forall|x: int, y: int|
            0 <= x < rw && 0 <= y < rh ==> #[trigger] out@[y * rw + x] == input.pixel_at(rx0 + x, ry0 + y),
{
    let w = rw as usize;
    let n = rw as usize * rh as usize;
    let mut out: Vec<P> = Vec::with_capacity(n);
    let mut i: usize = 0;
    while i < n
        invariant
            input.wf(),
            rx0 + rw <= input.spec_size().width,
            ry0 + rh <= input.spec_size().height,
            0 <= i <= n,
            n == rw * rh,
            w == rw,
            out@.len() == i,
            forall|j: int|
                0 <= j < i ==> #[trigger] out@[j] == input.pixel_at(rx0 + j % (w as int), ry0 + j / (w as int)),
        decreases n - i,
    {
        let ghost gi = i as int;
        proof {
            assert(w > 0 && gi / (w as int) < rh) by (nonlinear_arith)
                requires
                    0 <= gi < n,
                    n == w * rh,
            ;
        }
        let x = (i % w) as u32;
        let y = (i / w) as u32;
        out.push(input.pixel(rx0 + x, ry0 + y));
        i = i + 1;
    }
    proof {
        assert forall|x: int, y: int| 0 <= x < rw && 0 <= y < rh implies #[trigger] out@[y * rw + x]
            == input.pixel_at(rx0 + x, ry0 + y) by {
            lemma_flat_index(w as int, rh as int, x, y);
        }
    }
    out
}

/// The tile `t` at offset `(ox0, oy0)` with the rectangle's pixels replaced
/// by `region`.
fn patch_tile<P: Copy>(
    t: &crate::tile::Tile<P>,
    ox0: u32,
    oy0: u32,
    rx0: u32,
    ry0: u32,
    rw: u32,
    rh: u32,
    region: &[P],
) -> (o: crate::tile::Tile<P>)
    requires
        t.wf(),
        t.width <= 256,
        t.height <= 256,
        ox0 + t.width <= u32::MAX,
        oy0 + t.height <= u32::MAX,
        rx0 + rw <= u32::MAX,
        ry0 + rh <= u32::MAX,
        region@.len() == rw * rh,
    ensures
        o.width == t.width,
        o.height == t.height,
        o.wf(),
        forall|i: int|
            0 <= i < t.width * t.height ==> #[trigger] o.px@[i] == if in_region(
                rx0,
                ry0,
                rw,
                rh,
                ox0 + i % (t.width as int),
                oy0 + i / (t.width as int),
            ) {
                region@[(oy0 + i / (t.width as int) - ry0) * rw + (ox0 + i % (t.width as int) - rx0)]
            } else {
                t.px@[i]
            },
{
    let tw = t.width;
    let th = t.height;
    proof {
        assert(tw * th <= 65536) by (nonlinear_arith)
            requires
                tw <= 256,
                th <= 256,
        ;
    }
    let n = tw as usize * th as usize;
    let rlen = region.len();
    let mut px: Vec<P> = Vec::with_capacity(n);
    let mut i: usize = 0;
    while i < n
        invariant
            0 <= i <= n,
            n == tw * th,
            rlen == region@.len(),
            tw == t.width,
            th == t.height,
            t.wf(),
            tw <= 256,
            th <= 256,
            ox0 + tw <= u32::MAX,
            oy0 + th <= u32::MAX,
            rx0 + rw <= u32::MAX,
            ry0 + rh <= u32::MAX,
            region@.len() == rw * rh,
            px@.len() == i,
            forall|j: int|
                0 <= j < i ==> #[trigger] px@[j] == if in_region(
                    rx0,
                    ry0,
                    rw,
                    rh,
                    ox0 + j % (tw as int),
                    oy0 + j / (tw as int),
                ) {
                    region@[(oy0 + j / (tw as int) - ry0) * rw + (ox0 + j % (tw as int) - rx0)]
                } else {
                    t.px@[j]
                },
        decreases n - i,
    {
        let ghost gi = i as int;
        proof {
            assert(tw > 0 && gi / (tw as int) < th) by (nonlinear_arith)
                requires
                    0 <= gi < n,
                    n == tw * th,
            ;
        }
        let lx = (i % tw as usize) as u32;
        let ly = (i / tw as usize) as u32;
        let gx = ox0 + lx;
        let gy = oy0 + ly;
        let p = if rx0 <= gx && gx < rx0 + rw && ry0 <= gy && gy < ry0 + rh {
            let dx = gx - rx0;
            let dy = gy - ry0;
            proof {
                assert(dy * rw + dx < rw * rh) by (nonlinear_arith)
                    requires
                        dx < rw,
                        dy < rh,
                ;
            }
            region[dy as usize * rw as usize + dx as usize]
        } else {
            t.px[i]
        };
        px.push(p);
        i = i + 1;
    }
    crate::tile::Tile::new(tw, th, px)
}

/// Overwrite the `rw × rh` rectangle at `(rx0, ry0)` with `region` (row-major)
/// and keep every other pixel. Tiles the rectangle does not touch are shared
/// unchanged; every tile `k` is named `tile_hash(k)`.
pub fn write_region<P: Copy, F: Fn(u32) -> ContentHash>(
    input: &TiledImage<P>,
    rx0: u32,
    ry0: u32,
    rw: u32,
    rh: u32,
    region: &[P],
    tile_hash: &F,
) -> (out: TiledImage<P>)
    requires
        input.wf(),
        rx0 + rw <= input.spec_size().width,
        ry0 + rh <= input.spec_size().height,
        region@.len() == rw * rh,
        hash_fn_ok(*tile_hash),
    ensures
        out.wf(),
        out.spec_size() == input.spec_size(),
        named_by(out, *tile_hash),
        forall|x: int, y: int|
            0 <= x < input.spec_size().width && 0 <= y < input.spec_size().height ==> #[trigger] out.pixel_at(x, y)
                == if in_region(rx0, ry0, rw, rh, x, y) {
                region@[(y - ry0) * rw + (x - rx0)]
            } else {
                input.pixel_at(x, y)
            },
        forall|k: int|
            0 <= k < out.tile_total() && !tile_meets_region(input.spec_size(), k, rx0, ry0, rw, rh)
                ==> (#[trigger] out.tile_refs()[k]).tile == input.tile_refs()[k].tile,
{
    let size = input.size();
    proof {
        input.lemma_wf_tiles();
    }
    let (cols, rows) = input.grid();
    let n = cols * rows;
    let tiles = input.tiles();
    let rx1 = rx0 + rw;
    let ry1 = ry0 + rh;
    let mut out_tiles: Vec<TileRef<P>> = Vec::with_capacity(n as usize);
    let mut k: u32 = 0;
    while k < n
        invariant
            0 <= k <= n,
            n == tile_count(size),
            cols == spec_grid_dims(size).0,
            rows == spec_grid_dims(size).1,
            size == input.spec_size(),
            tiles@ == input.tile_refs(),
            crate::tile::grid_wf(size, tiles@),
            rx1 == rx0 + rw,
            ry1 == ry0 + rh,
            rx1 <= size.width,
            ry1 <= size.height,
            region@.len() == rw * rh,
            hash_fn_ok(*tile_hash),
            out_tiles@.len() == k,
            forall|j: int|
                0 <= j < k ==> call_ensures(*tile_hash, (j as u32,), (#[trigger] out_tiles@[j]).hash),
            forall|j: int|
                0 <= j < k ==> {
                    let col = j % (cols as int);
                    let row = j / (cols as int);
                    let (tw, th) = crate::tile::spec_tile_dims(size, col as nat, row as nat);
                    &&& crate::tile::tile_fits(*(#[trigger] out_tiles@[j]).tile, size, col as nat, row as nat)
                    &&& !tile_meets_region(size, j, rx0, ry0, rw, rh) ==> out_tiles@[j].tile == tiles@[j].tile
                    &&& forall|i: int|
                        0 <= i < tw * th ==> #[trigger] out_tiles@[j].tile.px@[i] == if in_region(
                            rx0,
                            ry0,
                            rw,
                            rh,
                            col * 256 + i % (tw as int),
                            row * 256 + i / (tw as int),
                        ) {
                            region@[(row * 256 + i / (tw as int) - ry0) * rw + (col * 256 + i % (tw as int)
                                - rx0)]
                        } else {
                            tiles@[j].tile.px@[i]
                        }
                },
        decreases n - k,
    {
        proof {
            assert(cols > 0 && (k as int) / (cols as int) < rows) by (nonlinear_arith)
                requires
                    k < cols * rows,
                    cols >= 0,
                    rows >= 0,
            ;
        }
        let col = k % cols;
        let row = k / cols;
        let (tw, th) = crate::tile::tile_dims(size, col, row);
        let ox0 = col * 256;
        let oy0 = row * 256;
        let ix0 = if ox0 > rx0 { ox0 } else { rx0 };
        let iy0 = if oy0 > ry0 { oy0 } else { ry0 };
        let ix1 = if ox0 + tw < rx1 { ox0 + tw } else { rx1 };
        let iy1 = if oy0 + th < ry1 { oy0 + th } else { ry1 };
        let src = &tiles[k as usize];
        let h = tile_hash(k);
        proof {
            assert(crate::tile::tile_fits(*src.tile, size, col as nat, row as nat));
        }
        let tile = if ix1 <= ix0 || iy1 <= iy0 {
            proof {
                assert forall|x: int, y: int|
                    col * 256 <= x < col * 256 + tw && row * 256 <= y < row * 256 + th implies !in_region(
                    rx0,
                    ry0,
                    rw,
                    rh,
                    x,
                    y,
                ) by {}
                assert(!tile_meets_region(size, k as int, rx0, ry0, rw, rh));
                assert forall|i: int| 0 <= i < tw * th implies #[trigger] src.tile.px@[i] == if in_region(
                    rx0,
                    ry0,
                    rw,
                    rh,
                    col * 256 + i % (tw as int),
                    row * 256 + i / (tw as int),
                ) {
                    region@[(row * 256 + i / (tw as int) - ry0) * rw + (col * 256 + i % (tw as int) - rx0)]
                } else {
                    src.tile.px@[i]
                } by {
                    let gi = i;
                    assert(0 <= gi % (tw as int) < tw && 0 <= gi / (tw as int) < th) by (nonlinear_arith)
                        requires
                            0 <= gi < tw * th,
                            tw > 0,
                    ;
                }
            }
            crate::tile::share(&src.tile)
        } else {
            let patched = patch_tile(&*src.tile, ox0, oy0, rx0, ry0, rw, rh, region);
            proof {
                assert(col * 256 <= ix0 < col * 256 + tw && row * 256 <= iy0 < row * 256 + th && in_region(
                    rx0,
                    ry0,
                    rw,
                    rh,
                    ix0 as int,
                    iy0 as int,
                ));
                assert(tile_meets_region(size, k as int, rx0, ry0, rw, rh));
            }
            std::sync::Arc::new(patched)
        };
        proof {
            let cc = (k as int) % (cols as int);
            let rr = (k as int) / (cols as int);
            assert(cc == col && rr == row);
            assert(crate::tile::tile_fits(*tile, size, cc as nat, rr as nat));
            assert(!tile_meets_region(size, k as int, rx0, ry0, rw, rh) ==> tile == src.tile);
            assert forall|i: int| 0 <= i < tw * th implies #[trigger] tile.px@[i] == if in_region(
                rx0,
                ry0,
                rw,
                rh,
                cc * 256 + i % (tw as int),
                rr * 256 + i / (tw as int),
            ) {
                region@[(rr * 256 + i / (tw as int) - ry0) * rw + (cc * 256 + i % (tw as int) - rx0)]
            } else {
                tiles@[k as int].tile.px@[i]
            } by {}
        }
        let ghost prev = out_tiles@;
        out_tiles.push(TileRef { hash: h, tile });
        proof {
            assert(out_tiles@[k as int].tile == tile);
            assert forall|j: int| 0 <= j < k implies out_tiles@[j] == prev[j] by {}
        }
        k = k + 1;
    }
    let out = TiledImage::new(size, out_tiles);
    proof {
        assert forall|x: int, y: int| 0 <= x < size.width && 0 <= y < size.height implies #[trigger] out.pixel_at(
            x,
            y,
        ) == if in_region(rx0, ry0, rw, rh, x, y) {
            region@[(y - ry0) * rw + (x - rx0)]
        } else {
            input.pixel_at(x, y)
        } by {
            crate::tile::lemma_locate(size, x, y);
            let kk = (y / 256) * (cols as int) + x / 256;
            let (tw, th) = crate::tile::spec_tile_dims(size, (x / 256) as nat, (y / 256) as nat);
            let i = (y % 256) * (tw as int) + x % 256;
            lemma_flat_index(tw as int, th as int, x % 256, y % 256);
            assert(out.tile_refs()[kk] == out_tiles@[kk]);
            assert(out_tiles@[kk].tile.px@[i] == if in_region(
                rx0,
                ry0,
                rw,
                rh,
                (x / 256) * 256 + i % (tw as int),
                (y / 256) * 256 + i / (tw as int),
            ) {
                region@[((y / 256) * 256 + i / (tw as int) - ry0) * rw + ((x / 256) * 256 + i % (tw as int)
                    - rx0)]
            } else {
                tiles@[kk].tile.px@[i]
            });
        }
    }
    out
}

/// Cropping a padded image to where its source landed gives the source back:
/// if `padded` is `src` framed at `(left, top)` (as `pad` gives) and `back` is
/// the `src`-sized rectangle at `(left, top)` of it (as `crop` gives), every
/// pixel of `back` is the source's.
pub proof fn lemma_crop_undoes_pad<P>(
    src: TiledImage<P>,
    padded: TiledImage<P>,
    back: TiledImage<P>,
    left: u32,
    top: u32,
    fill: P,
)
    requires
        left + src.spec_size().width <= padded.spec_size().width,
        top + src.spec_size().height <= padded.spec_size().height,
        forall|x: int, y: int|
            0 <= x < padded.spec_size().width && 0 <= y < padded.spec_size().height
                ==> #[trigger] padded.pixel_at(x, y) == if in_source(
                src.spec_size(),
                left as int,
                top as int,
                x,
                y,
            ) {
                src.pixel_at(x - left, y - top)
            } else {
                fill
            },
        back.spec_size() == src.spec_size(),
        forall|x: int, y: int|
            0 <= x < src.spec_size().width && 0 <= y < src.spec_size().height ==> #[trigger] back.pixel_at(x, y)
                == padded.pixel_at(left + x, top + y),
    ensures
        forall|x: int, y: int|
            0 <= x < src.spec_size().width && 0 <= y < src.spec_size().height ==> #[trigger] back.pixel_at(x, y)
                == src.pixel_at(x, y),
{
    assert forall|x: int, y: int|
        0 <= x < src.spec_size().width && 0 <= y < src.spec_size().height implies #[trigger] back.pixel_at(x, y)
        == src.pixel_at(x, y) by {
        assert(padded.pixel_at(left + x, top + y) == src.pixel_at(x, y));
    }
}

/// Reading back a rectangle just written returns exactly what was written:
/// if `out` is `input` with the `rw × rh` rectangle at `(rx0, ry0)` replaced by
/// `region` (as `write_region` gives), and `back` is that rectangle read from
/// `out` (as `read_region` gives), then `back` is `region`.
pub proof fn lemma_read_back_write<P>(
    input: TiledImage<P>,
    out: TiledImage<P>,
    rx0: u32,
    ry0: u32,
    rw: u32,
    rh: u32,
    region: Seq<P>,
    back: Seq<P>,
)
    requires
        rx0 + rw <= input.spec_size().width,
        ry0 + rh <= input.spec_size().height,
        region.len() == rw * rh,
        out.spec_size() == input.spec_size(),
        forall|x: int, y: int|
            0 <= x < input.spec_size().width && 0 <= y < input.spec_size().height ==> #[trigger] out.pixel_at(x, y)
                == if in_region(rx0, ry0, rw, rh, x, y) {
                region[(y - ry0) * rw + (x - rx0)]
            } else {
                input.pixel_at(x, y)
            },
        back.len() == rw * rh,
        forall|x: int, y: int|
            0 <= x < rw && 0 <= y < rh ==> #[trigger] back[y * rw + x] == out.pixel_at(rx0 + x, ry0 + y),
    ensures
        back == region,
{
    assert forall|i: int| 0 <= i < rw * rh implies back[i] == region[i] by {
        let x = i % (rw as int);
        let y = i / (rw as int);
        assert(rw > 0 && 0 <= x < rw && 0 <= y < rh) by (nonlinear_arith)
            requires
                0 <= i < rw * rh,
                x == i % (rw as int),
                y == i / (rw as int),
        ;
        vstd::arithmetic::div_mod::lemma_fundamental_div_mod(i, rw as int);
        assert(y * rw + x == i) by (nonlinear_arith)
            requires
                i == rw * (i / (rw as int)) + i % (rw as int),
                x == i % (rw as int),
                y == i / (rw as int),
        ;
        assert(back[y * rw + x] == out.pixel_at(rx0 + x, ry0 + y));
        assert(in_region(rx0, ry0, rw, rh, rx0 + x, ry0 + y));
    }
    assert(back =~= region);
}

/// Recolour the `rw × rh` rectangle at `(rx0, ry0)`: each pixel in it becomes
/// `shade(x, y, old pixel)`, every other pixel is kept, and tiles that the
/// rectangle does not touch are shared with the input.
pub fn map_region<P: Copy, G: Fn(u32, u32, P) -> P, F: Fn(u32) -> ContentHash>(
    input: &TiledImage<P>,
    rx0: u32,
    ry0: u32,
    rw: u32,
    rh: u32,
    shade: &G,
    tile_hash: &F,
) -> (out: TiledImage<P>)
    requires
        input.wf(),
        buildable(input.spec_size()),
        rx0 + rw <= input.spec_size().width,
        ry0 + rh <= input.spec_size().height,
        hash_fn_ok(*tile_hash),
        forall|x: u32, y: u32, p: P| #[trigger] shade.requires((x, y, p)),
    ensures
        out.wf(),
        out.spec_size() == input.spec_size(),
        named_by(out, *tile_hash),
        forall|x: int, y: int|
            0 <= x < input.spec_size().width && 0 <= y < input.spec_size().height && in_region(
                rx0,
                ry0,
                rw,
                rh,
                x,
                y,
            ) ==> shade.ensures((x as u32, y as u32, input.pixel_at(x, y)), #[trigger] out.pixel_at(x, y)),
        forall|x: int, y: int|
            0 <= x < input.spec_size().width && 0 <= y < input.spec_size().height && !in_region(
                rx0,
                ry0,
                rw,
                rh,
                x,
                y,
            ) ==> #[trigger] out.pixel_at(x, y) == input.pixel_at(x, y),
        forall|k: int|
            0 <= k < out.tile_total() && !tile_meets_region(input.spec_size(), k, rx0, ry0, rw, rh)
                ==> (#[trigger] out.tile_refs()[k]).tile == input.tile_refs()[k].tile,
{
    let size = input.size();
    proof {
        assert(rw * rh <= size.width * size.height) by (nonlinear_arith)
            requires
                rw <= size.width,
                rh <= size.height,
        ;
    }
    let mut region = read_region(input, rx0, ry0, rw, rh);
    let w = rw as usize;
    let n = rw as usize * rh as usize;
    let ghost untouched = region@;
    let mut i: usize = 0;
    while i < n
        invariant
            forall|x: u32, y: u32, p: P| #[trigger] shade.requires((x, y, p)),
            n == rw * rh,
            w == rw,
            0 <= i <= n,
            region@.len() == n,
            untouched.len() == n,
            rx0 + rw <= u32::MAX,
            ry0 + rh <= u32::MAX,
            forall|j: int| i <= j < n ==> #[trigger] region@[j] == untouched[j],
            forall|j: int|
                0 <= j < i ==> shade.ensures(
                    ((rx0 + j % (w as int)) as u32, (ry0 + j / (w as int)) as u32, untouched[j]),
                    #[trigger] region@[j],
                ),
        decreases n - i,
    {
        let ghost gi = i as int;
        proof {
            assert(w > 0 && gi / (w as int) < rh) by (nonlinear_arith)
                requires
                    0 <= gi < n,
                    n == w * rh,
            ;
            assert(gi % (w as int) < w) by (nonlinear_arith)
                requires
                    w > 0,
            ;
        }
        let x = rx0 + (i % w) as u32;
        let y = ry0 + (i / w) as u32;
        let d = region[i];
        let r = shade(x, y, d);
        region.set(i, r);
        i = i + 1;
    }
    let out = write_region(input, rx0, ry0, rw, rh, region.as_slice(), tile_hash);
    proof {
        assert forall|x: int, y: int|
            0 <= x < size.width && 0 <= y < size.height && in_region(rx0, ry0, rw, rh, x, y) implies shade.ensures(
            (x as u32, y as u32, input.pixel_at(x, y)),
            #[trigger] out.pixel_at(x, y),
        ) by {
            lemma_flat_index(w as int, rh as int, x - rx0, y - ry0);
        }
    }
    out
}

/// Identities of the tiles of `tiles`, in order.
pub open spec fn tile_hashes<P>(tiles: Seq<TileRef<P>>) -> Seq<ContentHash> {
    tiles.map_values(|t: TileRef<P>| t.hash)
}

/// Identities of an image's tiles, in order.
pub fn collect_hashes<P>(img: &TiledImage<P>) -> (v: Vec<ContentHash>)
    ensures
        v@ == tile_hashes(img.tile_refs()),
{
    let tiles = img.tiles();
    let mut v: Vec<ContentHash> = Vec::with_capacity(tiles.len());
    let mut i: usize = 0;
    while i < tiles.len()
        invariant
            0 <= i <= tiles@.len(),
            tiles@ == img.tile_refs(),
            v@ == tile_hashes(tiles@.take(i as int)),
        decreases tiles@.len() - i,
    {
        v.push(tiles[i].hash);
        i = i + 1;
        proof {
            assert(tile_hashes(tiles@.take(i as int)) =~= tile_hashes(tiles@.take(i - 1)).push(
                tiles@[i - 1].hash,
            ));
        }
    }
    proof {
        assert(tiles@.take(i as int) =~= tiles@);
    }
    v
}

proof fn lemma_tile_count_monotonic(small: Size, big: Size)
    requires
        small.width <= big.width,
        small.height <= big.height,
    ensures
        tile_count(small) <= tile_count(big),
        small.spec_area() <= big.spec_area(),
{
    let (a, b) = spec_grid_dims(small);
    let (c, d) = spec_grid_dims(big);
    assert(a <= c);
    assert(b <= d);
    assert(a * b <= c * d) by (nonlinear_arith)
        requires
            a <= c,
            b <= d,
    ;
    assert(small.width * small.height <= big.width * big.height) by (nonlinear_arith)
        requires
            small.width <= big.width,
            small.height <= big.height,
    ;
}

/// `out` is `input` trimmed to the bounds of its content under `background`:
/// the pixels of the content rectangle, named by that rectangle and the input
/// tiles (or the input itself when nothing is trimmed).
pub open spec fn is_trim_of<P>(input: TiledImage<P>, background: Seq<bool>, out: TiledImage<P>) -> bool {
    exists|rect: Rect|
    {
        &&& is_content_bounds(input.spec_size(), background, rect)
        &&& out.wf()
        &&& out.spec_size() == rect.spec_size()
        &&& forall|x: int, y: int|
            0 <= x < rect.width && 0 <= y < rect.height ==> #[trigger] out.pixel_at(x, y)
                == input.pixel_at(rect.x + x, rect.y + y)
        &&& if rect.spec_size() == input.spec_size() {
            out.tile_refs() == input.tile_refs()
        } else {
            exists|tag: ContentHash, sig: ContentHash|
                {
                    &&& tag.bytes() == hash::blake3_of(rect_tag(rect))
                    &&& sig.bytes() == hash::blake3_of(
                        hash::global_preimage(tag, tile_hashes(input.tile_refs())),
                    )
                    &&& forall|k: int|
                        0 <= k < out.tile_total() ==> (#[trigger] out.hash_at(k)).bytes()
                            == hash::blake3_of(hash::global_tile_preimage(sig, k as u32))
                }
        }
    }
}

/// Crop away a uniform border. `background` is the row-major mask of pixels
/// that count as border (they match the background reference within the
/// tolerance). `None` means the image is entirely background; an image with no
/// trimmable border comes back unchanged (its tiles are shared). Otherwise the
/// result is addressed by the trim rectangle and the input tiles, so
/// downstream ops stay cache-correct.
pub fn trim<P: Copy>(input: &TiledImage<P>, background: &[bool]) -> (out: Option<TiledImage<P>>)
    requires
        input.wf(),
        background@.len() == input.spec_size().width * input.spec_size().height,
        buildable(input.spec_size()),
    ensures
        out is None <==> all_background(input.spec_size(), background@),
        out matches Some(img) ==> is_trim_of(*input, background@, img),
{
    let size = input.size();
    let rect = match content_bounds(size, background) {
        Some(r) => r,
        None => return None,
    };
    if rect.x == 0 && rect.y == 0 && rect.width == size.width && rect.height == size.height {
        let same = input.clone();
        proof {
            assert(rect.spec_size() == size);
            assert forall|x: int, y: int|
                0 <= x < rect.width && 0 <= y < rect.height implies #[trigger] same.pixel_at(x, y)
                == input.pixel_at(rect.x + x, rect.y + y) by {}
        }
        return Some(same);
    }
    let mut tag: Vec<u8> = Vec::new();
    hash::append(&mut tag, u32_to_le_bytes(rect.x).as_slice());
    hash::append(&mut tag, u32_to_le_bytes(rect.y).as_slice());
    hash::append(&mut tag, u32_to_le_bytes(rect.width).as_slice());
    hash::append(&mut tag, u32_to_le_bytes(rect.height).as_slice());
    let tag_digest = hash::digest_bytes(tag.as_slice());
    let hashes = collect_hashes(input);
    let sig = hash::global_signature(tag_digest, hashes.as_slice());
    let name = |i: u32| -> (h: ContentHash)
        ensures
            h.bytes() == hash::blake3_of(hash::global_tile_preimage(sig, i)),
        { hash::global_tile_hash(sig, i) };
    proof {
        lemma_tile_count_monotonic(rect.spec_size(), size);
        assert(tag@ =~= rect_tag(rect));
    }
    let img = crop(input, rect, &name);
    proof {
        assert(rect.spec_size() != size);
        assert forall|k: int| 0 <= k < img.tile_total() implies (#[trigger] img.hash_at(k)).bytes()
            == hash::blake3_of(hash::global_tile_preimage(sig, k as u32)) by {
            assert(call_ensures(name, (k as u32,), img.hash_at(k)));
        }
    }
    Some(img)
}

} // verus!
