//! Composition of two images: one placed over another at an integer offset.
//! The colour arithmetic of blending belongs to the caller; this module owns
//! the geometry (where the top image lands, which base pixels it covers, and
//! which base tiles it leaves alone).

use vstd::prelude::*;

use crate::geometry::Size;
use crate::hash::ContentHash;
use crate::ops::{buildable, hash_fn_ok, in_region, named_by, read_region, write_region, tile_meets_region};
use crate::tile::{lemma_flat_index, spec_grid_dims, spec_tile_dims, TiledImage};

verus! {

/// Base pixel `(gx, gy)` lies under a `w × h` picture placed with its top-left
/// corner at `(x, y)`.
pub open spec fn covered_by(w: int, h: int, x: int, y: int, gx: int, gy: int) -> bool {
    x <= gx < x + w && y <= gy < y + h
}

/// Tile `k` of a `base`-sized image holds at least one pixel covered by a
/// `w × h` picture placed at `(x, y)`.
pub open spec fn tile_meets_placement(base: Size, w: int, h: int, x: int, y: int, k: int) -> bool {
    let cols = spec_grid_dims(base).0 as int;
    let (col, row) = (k % cols, k / cols);
    let (tw, th) = spec_tile_dims(base, col as nat, row as nat);
    exists|gx: int, gy: int|
        col * 256 <= gx < col * 256 + tw && row * 256 <= gy < row * 256 + th && covered_by(w, h, x, y, gx, gy)
}

/// The span `[start, start + len)` cut to `[0, limit)`, as (first, count);
/// `(0, 0)` when nothing of it is left.
pub open spec fn clipped_span(start: int, len: int, limit: int) -> (int, int) {
    let lo = if start > 0 { start } else { 0 };
    let hi = if start + len < limit { start + len } else { limit };
    if lo < hi { (lo, hi - lo) } else { (0, 0) }
}

fn clip_span(start: i32, len: u32, limit: u32) -> (r: (u32, u32))
    ensures
        r.0 == clipped_span(start as int, len as int, limit as int).0,
        r.1 == clipped_span(start as int, len as int, limit as int).1,
{
    let s = start as i64;
    let lo: i64 = if s > 0 { s } else { 0 };
    let end = s + len as i64;
    let hi: i64 = if end < limit as i64 { end } else { limit as i64 };
    if lo < hi {
        (lo as u32, (hi - lo) as u32)
    } else {
        (0, 0)
    }
}

/// Place `top` over `base` with its top-left corner at `(x, y)` (which may lie
/// outside the canvas). The result has the base's size; each covered pixel is
/// `blend(top pixel, base pixel)`, every other pixel is the base's, and tiles
/// that the placed image does not touch are shared with the base.
pub fn overlay<P: Copy, B: Fn(P, P) -> P, F: Fn(u32) -> ContentHash>(
    base: &TiledImage<P>,
    top: &TiledImage<P>,
    x: i32,
    y: i32,
    blend: &B,
    tile_hash: &F,
) -> (out: TiledImage<P>)
    requires
        base.wf(),
        top.wf(),
        buildable(base.spec_size()),
        hash_fn_ok(*tile_hash),
        forall|s: P, d: P| #[trigger] blend.requires((s, d)),
    ensures
        out.wf(),
        out.spec_size() == base.spec_size(),
        named_by(out, *tile_hash),
        forall|gx: int, gy: int|
            0 <= gx < base.spec_size().width && 0 <= gy < base.spec_size().height && covered_by(
                top.spec_size().width as int,
                top.spec_size().height as int,
                x as int,
                y as int,
                gx,
                gy,
            ) ==> blend.ensures(
                (top.pixel_at(gx - x, gy - y), base.pixel_at(gx, gy)),
                #[trigger] out.pixel_at(gx, gy),
            ),
        forall|gx: int, gy: int|
            0 <= gx < base.spec_size().width && 0 <= gy < base.spec_size().height && !covered_by(
                top.spec_size().width as int,
                top.spec_size().height as int,
                x as int,
                y as int,
                gx,
                gy,
            ) ==> #[trigger] out.pixel_at(gx, gy) == base.pixel_at(gx, gy),
        forall|k: int|
            0 <= k < out.tile_total() && !tile_meets_placement(
                base.spec_size(),
                top.spec_size().width as int,
                top.spec_size().height as int,
                x as int,
                y as int,
                k,
            ) ==> (#[trigger] out.tile_refs()[k]).tile == base.tile_refs()[k].tile,
{
    let size = base.size();
    let ts = top.size();
    let (rx0, rw) = clip_span(x, ts.width, size.width);
    let (ry0, rh) = clip_span(y, ts.height, size.height);
    proof {
        assert(rw * rh <= size.width * size.height) by (nonlinear_arith)
            requires
                rw <= size.width,
                rh <= size.height,
        ;
        assert forall|gx: int, gy: int|
            0 <= gx < size.width && 0 <= gy < size.height implies #[trigger] in_region(
                rx0,
                ry0,
                rw,
                rh,
                gx,
                gy,
            ) == covered_by(ts.width as int, ts.height as int, x as int, y as int, gx, gy) by {}
    }
    let mut region = read_region(base, rx0, ry0, rw, rh);
    let w = rw as usize;
    let n = rw as usize * rh as usize;
    let ghost untouched = region@;
    let mut i: usize = 0;
    while i < n
        invariant
            base.wf(),
            top.wf(),
            ts == top.spec_size(),
            size == base.spec_size(),
            forall|s: P, d: P| #[trigger] blend.requires((s, d)),
            n == rw * rh,
            w == rw,
            0 <= i <= n,
            region@.len() == n,
            untouched.len() == n,
            rx0 + rw <= size.width,
            ry0 + rh <= size.height,
            forall|gx: int, gy: int|
                0 <= gx < size.width && 0 <= gy < size.height ==> #[trigger] in_region(
                    rx0,
                    ry0,
                    rw,
                    rh,
                    gx,
                    gy,
                ) == covered_by(ts.width as int, ts.height as int, x as int, y as int, gx, gy),
            forall|j: int|
                i <= j < n ==> #[trigger] region@[j] == untouched[j],
            forall|j: int|
                0 <= j < i ==> blend.ensures(
                    (
                        top.pixel_at(rx0 + j % (w as int) - x, ry0 + j / (w as int) - y),
                        untouched[j],
                    ),
                    #[trigger] region@[j],
                ),
        decreases n - i,
    {
        let ghost gi = i as int;
        proof {
            assert(w > 0 && gi / (w as int) < rh) by (nonlinear_arith)
                requires
                    0 <= gi < n,
                    n == w * rh,
            ;
            assert(gi % (w as int) < w) by (nonlinear_arith)
                requires
                    w > 0,
            ;
            assert(covered_by(ts.width as int, ts.height as int,
                x as int,
                y as int,
                rx0 + gi % (w as int),
                ry0 + gi / (w as int),
            )) by {
                assert(in_region(
                    rx0,
                    ry0,
                    rw,
                    rh,
                    rx0 + gi % (w as int),
                    ry0 + gi / (w as int),
                ));
            }
        }
        let gx = rx0 + (i % w) as u32;
        let gy = ry0 + (i / w) as u32;
        let tx = (gx as i64 - x as i64) as u32;
        let ty = (gy as i64 - y as i64) as u32;
        let s = top.pixel(tx, ty);
        let d = region[i];
        let r = blend(s, d);
        region.set(i, r);
        i = i + 1;
    }
    let out = write_region(base, rx0, ry0, rw, rh, region.as_slice(), tile_hash);
    proof {
        assert forall|gx: int, gy: int|
            0 <= gx < size.width && 0 <= gy < size.height && covered_by(ts.width as int, ts.height as int,
                x as int,
                y as int,
                gx,
                gy,
            ) implies blend.ensures(
            (top.pixel_at(gx - x, gy - y), base.pixel_at(gx, gy)),
            #[trigger] out.pixel_at(gx, gy),
        ) by {
            assert(in_region(rx0, ry0, rw, rh, gx, gy));
            let lx = gx - rx0;
            let ly = gy - ry0;
            lemma_flat_index(w as int, rh as int, lx, ly);
        }
        assert forall|k: int|
            0 <= k < out.tile_total() && !tile_meets_placement(size, ts.width as int, ts.height as int,
                x as int,
                y as int,
                k,
            ) implies !tile_meets_region(size, k, rx0, ry0, rw, rh) by {
            if tile_meets_region(size, k, rx0, ry0, rw, rh) {
                let cols = spec_grid_dims(size).0 as int;
                let (col, row) = (k % cols, k / cols);
                let (tw, th) = spec_tile_dims(size, col as nat, row as nat);
                let (gx, gy) = choose|gx: int, gy: int|
                    col * 256 <= gx < col * 256 + tw && row * 256 <= gy < row * 256 + th
                        && in_region(rx0, ry0, rw, rh, gx, gy);
                assert(covered_by(ts.width as int, ts.height as int, x as int, y as int, gx, gy));
                assert(tile_meets_placement(size, ts.width as int, ts.height as int, x as int, y as int, k));
            }
        }
    }
    out
}

/// Paint the row-major `mw × mh` mask over `base` with its top-left corner at
/// `(x, y)` (which may lie outside the canvas). The result has the base's
/// size; each covered pixel is `blend(mask value, base pixel)`, every other
/// pixel is the base's, and tiles that the mask does not touch are shared
/// with the base.
pub fn composite_mask<P: Copy, Q: Copy, B: Fn(Q, P) -> P, F: Fn(u32) -> ContentHash>(
    base: &TiledImage<P>,
    x: i32,
    y: i32,
    mw: u32,
    mh: u32,
    mask: &[Q],
    blend: &B,
    tile_hash: &F,
) -> (out: TiledImage<P>)
    requires
        base.wf(),
        mask@.len() == mw * mh,
        buildable(base.spec_size()),
        hash_fn_ok(*tile_hash),
        forall|s: Q, d: P| #[trigger] blend.requires((s, d)),
    ensures
        out.wf(),
        out.spec_size() == base.spec_size(),
        named_by(out, *tile_hash),
        forall|gx: int, gy: int|
            0 <= gx < base.spec_size().width && 0 <= gy < base.spec_size().height && covered_by(
                mw as int,
                mh as int,
                x as int,
                y as int,
                gx,
                gy,
            ) ==> blend.ensures(
                (mask@[(gy - y) * mw + (gx - x)], base.pixel_at(gx, gy)),
                #[trigger] out.pixel_at(gx, gy),
            ),
        forall|gx: int, gy: int|
            0 <= gx < base.spec_size().width && 0 <= gy < base.spec_size().height && !covered_by(
                mw as int,
                mh as int,
                x as int,
                y as int,
                gx,
                gy,
            ) ==> #[trigger] out.pixel_at(gx, gy) == base.pixel_at(gx, gy),
        forall|k: int|
            0 <= k < out.tile_total() && !tile_meets_placement(
                base.spec_size(),
                mw as int,
                mh as int,
                x as int,
                y as int,
                k,
            ) ==> (#[trigger] out.tile_refs()[k]).tile == base.tile_refs()[k].tile,
{
    let size = base.size();
    let ts = crate::geometry::Size::new(mw, mh);
    let mask_len = mask.len();
    let (rx0, rw) = clip_span(x, ts.width, size.width);
    let (ry0, rh) = clip_span(y, ts.height, size.height);
    proof {
        assert(rw * rh <= size.width * size.height) by (nonlinear_arith)
            requires
                rw <= size.width,
                rh <= size.height,
        ;
        assert forall|gx: int, gy: int|
            0 <= gx < size.width && 0 <= gy < size.height implies #[trigger] in_region(
                rx0,
                ry0,
                rw,
                rh,
                gx,
                gy,
            ) == covered_by(ts.width as int, ts.height as int, x as int, y as int, gx, gy) by {}
    }
    let mut region = read_region(base, rx0, ry0, rw, rh);
    let w = rw as usize;
    let n = rw as usize * rh as usize;
    let ghost untouched = region@;
    let mut i: usize = 0;
    while i < n
        invariant
            base.wf(),
            ts.width == mw,
            ts.height == mh,
            mask@.len() == mw * mh,
            mask_len == mw * mh,
            size == base.spec_size(),
            forall|s: Q, d: P| #[trigger] blend.requires((s, d)),
            n == rw * rh,
            w == rw,
            0 <= i <= n,
            region@.len() == n,
            untouched.len() == n,
            rx0 + rw <= size.width,
            ry0 + rh <= size.height,
            forall|gx: int, gy: int|
                0 <= gx < size.width && 0 <= gy < size.height ==> #[trigger] in_region(
                    rx0,
                    ry0,
                    rw,
                    rh,
                    gx,
                    gy,
                ) == covered_by(ts.width as int, ts.height as int, x as int, y as int, gx, gy),
            forall|j: int|
                i <= j < n ==> #[trigger] region@[j] == untouched[j],
            forall|j: int|
                0 <= j < i ==> blend.ensures(
                    (
                        mask@[(ry0 + j / (w as int) - y) * mw + (rx0 + j % (w as int) - x)],
                        untouched[j],
                    ),
                    #[trigger] region@[j],
                ),
        decreases n - i,
    {
        let ghost gi = i as int;
        proof {
            assert(w > 0 && gi / (w as int) < rh) by (nonlinear_arith)
                requires
                    0 <= gi < n,
                    n == w * rh,
            ;
            assert(gi % (w as int) < w) by (nonlinear_arith)
                requires
                    w > 0,
            ;
            assert(covered_by(ts.width as int, ts.height as int,
                x as int,
                y as int,
                rx0 + gi % (w as int),
                ry0 + gi / (w as int),
            )) by {
                assert(in_region(
                    rx0,
                    ry0,
                    rw,
                    rh,
                    rx0 + gi % (w as int),
                    ry0 + gi / (w as int),
                ));
            }
        }
        let gx = rx0 + (i % w) as u32;
        let gy = ry0 + (i / w) as u32;
        let tx = (gx as i64 - x as i64) as u32;
        let ty = (gy as i64 - y as i64) as u32;
        proof {
            lemma_flat_index(mw as int, mh as int, tx as int, ty as int);
        }
        let s = mask[(ty as usize) * (mw as usize) + (tx as usize)];
        let d = region[i];
        let r = blend(s, d);
        region.set(i, r);
        i = i + 1;
    }
    let out = write_region(base, rx0, ry0, rw, rh, region.as_slice(), tile_hash);
    proof {
        assert forall|gx: int, gy: int|
            0 <= gx < size.width && 0 <= gy < size.height && covered_by(ts.width as int, ts.height as int,
                x as int,
                y as int,
                gx,
                gy,
            ) implies blend.ensures(
            (mask@[(gy - y) * mw + (gx - x)], base.pixel_at(gx, gy)),
            #[trigger] out.pixel_at(gx, gy),
        ) by {
            assert(in_region(rx0, ry0, rw, rh, gx, gy));
            let lx = gx - rx0;
            let ly = gy - ry0;
            lemma_flat_index(w as int, rh as int, lx, ly);
        }
        assert forall|k: int|
            0 <= k < out.tile_total() && !tile_meets_placement(size, ts.width as int, ts.height as int,
                x as int,
                y as int,
                k,
            ) implies !tile_meets_region(size, k, rx0, ry0, rw, rh) by {
            if tile_meets_region(size, k, rx0, ry0, rw, rh) {
                let cols = spec_grid_dims(size).0 as int;
                let (col, row) = (k % cols, k / cols);
                let (tw, th) = spec_tile_dims(size, col as nat, row as nat);
                let (gx, gy) = choose|gx: int, gy: int|
                    col * 256 <= gx < col * 256 + tw && row * 256 <= gy < row * 256 + th
                        && in_region(rx0, ry0, rw, rh, gx, gy);
                assert(covered_by(ts.width as int, ts.height as int, x as int, y as int, gx, gy));
                assert(tile_meets_placement(size, ts.width as int, ts.height as int, x as int, y as int, k));
            }
        }
    }
    out
}

/// Blend the `sw × sh` row-major buffer `src` into the `dw × dh` buffer `dst`
/// with its top-left corner at `(ox, oy)`: each destination pixel under the
/// source becomes `blend(source pixel, old destination pixel)`; the parts of
/// the source past the destination's right or bottom edge are dropped.
pub fn composite_at<P: Copy, B: Fn(P, P) -> P>(
    dst: &mut Vec<P>,
    dw: usize,
    dh: usize,
    src: &[P],
    sw: usize,
    sh: usize,
    ox: usize,
    oy: usize,
    blend: &B,
)
    requires
        old(dst)@.len() == dw * dh,
        src@.len() == sw * sh,
        forall|s: P, d: P| #[trigger] blend.requires((s, d)),
    ensures
        final(dst)@.len() == dw * dh,
        forall|dx: int, dy: int|
            0 <= dx < dw && 0 <= dy < dh ==> if ox <= dx < ox + sw && oy <= dy < oy + sh {
                blend.ensures(
                    (src@[(dy - oy) * sw + (dx - ox)], old(dst)@[dy * dw + dx]),
                    #[trigger] final(dst)@[dy * dw + dx],
                )
            } else {
                final(dst)@[dy * dw + dx] == old(dst)@[dy * dw + dx]
            },
{
    let total = dst.len();
    let src_len = src.len();
    if ox >= dw || oy >= dh {
        return;
    }
    let cw = if sw < dw - ox { sw } else { dw - ox };
    let ch = if sh < dh - oy { sh } else { dh - oy };
    proof {
        assert(cw * ch <= dw * dh) by (nonlinear_arith)
            requires
                cw <= dw,
                ch <= dh,
        ;
    }
    let n = cw * ch;
    let ghost before = dst@;
    let mut i: usize = 0;
    while i < n
        invariant
            forall|s: P, d: P| #[trigger] blend.requires((s, d)),
            before.len() == dw * dh,
            total == dw * dh,
            src_len == sw * sh,
            src@.len() == sw * sh,
            dst@.len() == dw * dh,
            n == cw * ch,
            0 <= i <= n,
            ox < dw,
            oy < dh,
            cw <= sw,
            ch <= sh,
            ox + cw <= dw,
            oy + ch <= dh,
            forall|dx: int, dy: int|
                0 <= dx < dw && 0 <= dy < dh ==> if ox <= dx < ox + cw && oy <= dy < oy + ch && (dy
                    - oy) * cw + (dx - ox) < i {
                    blend.ensures(
                        (src@[(dy - oy) * sw + (dx - ox)], before[dy * dw + dx]),
                        #[trigger] dst@[dy * dw + dx],
                    )
                } else {
                    dst@[dy * dw + dx] == before[dy * dw + dx]
                },
        decreases n - i,
    {
        let ghost gi = i as int;
        proof {
            assert(cw > 0 && gi / (cw as int) < ch) by (nonlinear_arith)
                requires
                    0 <= gi < n,
                    n == cw * ch,
            ;
            assert(gi % (cw as int) < cw) by (nonlinear_arith)
                requires
                    cw > 0,
            ;
            vstd::arithmetic::div_mod::lemma_fundamental_div_mod(gi, cw as int);
        }
        let x = i % cw;
        let y = i / cw;
        proof {
            lemma_flat_index(dw as int, dh as int, (ox + x) as int, (oy + y) as int);
            lemma_flat_index(sw as int, sh as int, x as int, y as int);
        }
        let di = (oy + y) * dw + (ox + x);
        let si = y * sw + x;
        let s = src[si];
        let d = dst[di];
        let r = blend(s, d);
        let ghost prev = dst@;
        dst.set(di, r);
        proof {
            assert forall|dx: int, dy: int| 0 <= dx < dw && 0 <= dy < dh implies if ox <= dx < ox + cw
                && oy <= dy < oy + ch && (dy - oy) * cw + (dx - ox) < gi + 1 {
                blend.ensures(
                    (src@[(dy - oy) * sw + (dx - ox)], before[dy * dw + dx]),
                    #[trigger] dst@[dy * dw + dx],
                )
            } else {
                dst@[dy * dw + dx] == before[dy * dw + dx]
            } by {
                lemma_flat_index(dw as int, dh as int, dx, dy);
                if dx == ox + x && dy == oy + y {
                    assert((dy - oy) * cw == cw * (gi / (cw as int))) by (nonlinear_arith)
                        requires
                            dy - oy == gi / (cw as int),
                    ;
                } else {
                    assert(dy * dw + dx != di);
                    assert(dst@[dy * dw + dx] == prev[dy * dw + dx]);
                    if ox <= dx < ox + cw && oy <= dy < oy + ch {
                        lemma_flat_index(cw as int, ch as int, dx - ox, dy - oy);
                        assert((dy - oy) * cw + (dx - ox) != gi);
                    }
                }
            }
        }
        i = i + 1;
    }
    proof {
        assert forall|dx: int, dy: int| 0 <= dx < dw && 0 <= dy < dh implies if ox <= dx < ox + sw && oy
            <= dy < oy + sh {
            blend.ensures(
                (src@[(dy - oy) * sw + (dx - ox)], before[dy * dw + dx]),
                #[trigger] dst@[dy * dw + dx],
            )
        } else {
            dst@[dy * dw + dx] == before[dy * dw + dx]
        } by {
            if ox <= dx < ox + cw && oy <= dy < oy + ch {
                lemma_flat_index(cw as int, ch as int, dx - ox, dy - oy);
            }
        }
    }
}

} // verus!
