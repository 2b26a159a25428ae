//! Mosaic redaction: a rectangle of an image is cut into square cells of
//! `block` pixels, counted from the rectangle's top-left corner (the cells on
//! the right and bottom edges may be narrower), and every pixel becomes the
//! summary of its cell. How a cell is summarised (an average of floating-point
//! colours) is the caller's; this module owns the partition.

use vstd::prelude::*;

use crate::ops::read_region;
use crate::tile::{lemma_flat_index, TiledImage};

verus! {

/// The cell along one axis that holds position `v`, for cells of `block`
/// starting at 0 over a span of `len`: (first position, extent).
pub open spec fn cell_span(v: int, block: int, len: int) -> (int, int) {
    let start = (v / block) * block;
    (start, if start + block <= len { block } else { len - start })
}

/// The pixels of the cell that holds `(x, y)` of the `rw × rh` rectangle at
/// `(rx0, ry0)`, row-major.
pub open spec fn cell_pixels<P>(
    img: TiledImage<P>,
    rx0: int,
    ry0: int,
    rw: int,
    rh: int,
    block: int,
    x: int,
    y: int,
) -> Seq<P> {
    let (cx, cw) = cell_span(x, block, rw);
    let (cy, ch) = cell_span(y, block, rh);
    Seq::new((cw * ch) as nat, |i: int| img.pixel_at(rx0 + cx + i % cw, ry0 + cy + i / cw))
}

/// `p` is what `summary` returns for a vector holding exactly `cell`.
pub open spec fn summarises<P, A: Fn(&Vec<P>) -> P>(summary: A, cell: Seq<P>, p: P) -> bool {
    exists|v: Vec<P>| v@ == cell && #[trigger] call_ensures(summary, (&v,), p)
}

/// The block size actually used: at least 1.
pub open spec fn effective_block(block: u32) -> int {
    if block == 0 { 1 } else { block as int }
}

/// Cells are `block` pixels wide for every block size asked for: the cell
/// that holds position `x` of a span of `len` starts at a multiple of `block`,
/// contains `x`, and spans `block` positions unless it is cut at the span's
/// end.
pub proof fn lemma_cells_are_block_sized(block: u32, x: int, len: int)
    requires
        block >= 1,
        0 <= x < len,
    ensures
        cell_span(x, effective_block(block), len).0 % (block as int) == 0,
        cell_span(x, effective_block(block), len).0 <= x < cell_span(x, effective_block(block), len).0
            + cell_span(x, effective_block(block), len).1,
        cell_span(x, effective_block(block), len).0 + cell_span(x, effective_block(block), len).1 <= len,
        cell_span(x, effective_block(block), len).1 == block || cell_span(x, effective_block(block), len).0
            + cell_span(x, effective_block(block), len).1 == len,
{
    let b = block as int;
    let q = x / b;
    vstd::arithmetic::div_mod::lemma_fundamental_div_mod(x, b);
    assert(0 <= x % b < b);
    assert(q * b <= x < q * b + b) by (nonlinear_arith)
        requires
            x == b * q + x % b,
            0 <= x % b < b,
    ;
    vstd::arithmetic::div_mod::lemma_mod_multiples_basic(q, b);
}

/// The cell that a pixel of the rectangle falls in holds every pixel of that
/// cell and nothing else, row by row: the rectangle's pixel `(px, py)` of the
/// cell (the pixel itself among them) sits at `(py - cy) * cw + (px - cx)`,
/// with the image's own colour there.
pub proof fn lemma_cell_holds_its_pixels<P>(
    img: TiledImage<P>,
    rx0: int,
    ry0: int,
    rw: int,
    rh: int,
    block: u32,
    x: int,
    y: int,
)
    requires
        block >= 1,
        0 <= x < rw,
        0 <= y < rh,
    ensures
        cell_pixels(img, rx0, ry0, rw, rh, effective_block(block), x, y).len() == cell_span(x, effective_block(block), rw).1
            * cell_span(y, effective_block(block), rh).1,
        forall|px: int, py: int|
            cell_span(x, effective_block(block), rw).0 <= px < cell_span(x, effective_block(block), rw).0 + cell_span(
                x,
                effective_block(block),
                rw,
            ).1 && cell_span(y, effective_block(block), rh).0 <= py < cell_span(y, effective_block(block), rh).0
                + cell_span(y, effective_block(block), rh).1 ==> #[trigger] cell_pixels(
                img,
                rx0,
                ry0,
                rw,
                rh,
                effective_block(block),
                x,
                y,
            )[(py - cell_span(y, effective_block(block), rh).0) * cell_span(x, effective_block(block), rw).1 + (px
                - cell_span(x, effective_block(block), rw).0)] == img.pixel_at(rx0 + px, ry0 + py),
{
    lemma_cells_are_block_sized(block, x, rw);
    lemma_cells_are_block_sized(block, y, rh);
    let (cx, cw) = cell_span(x, effective_block(block), rw);
    let (cy, ch) = cell_span(y, effective_block(block), rh);
    assert(cw >= 1 && ch >= 1);
    assert(cw * ch >= 0) by (nonlinear_arith)
        requires
            cw >= 1,
            ch >= 1,
    ;
    assert forall|px: int, py: int| cx <= px < cx + cw && cy <= py < cy + ch implies #[trigger] cell_pixels(
        img,
        rx0,
        ry0,
        rw,
        rh,
        effective_block(block),
        x,
        y,
    )[(py - cy) * cw + (px - cx)] == img.pixel_at(rx0 + px, ry0 + py) by {
        lemma_flat_index(cw, ch, px - cx, py - cy);
    }
}

proof fn lemma_cell_of(v: int, start: int, block: int, len: int, ext: int)
    requires
        block > 0,
        start % block == 0,
        0 <= start <= v < start + ext,
        ext == (if start + block <= len { block } else { len - start }),
        ext <= block,
    ensures
        cell_span(v, block, len) == (start, ext),
{
    let k = start / block;
    vstd::arithmetic::div_mod::lemma_fundamental_div_mod(start, block);
    assert(start == block * k);
    assert(v / block == k) by {
        vstd::arithmetic::div_mod::lemma_fundamental_div_mod_converse(v, block, k, v - block * k);
    }
    assert((v / block) * block == start) by (nonlinear_arith)
        requires
            v / block == k,
            start == block * k,
    ;
}

/// The `bw × bh` cell at `(bx, by)` of a row-major `rw`-wide buffer, row-major.
fn gather_cell<P: Copy>(region: &Vec<P>, rw: usize, rh: usize, bx: usize, by: usize, bw: usize, bh: usize) -> (cell:
    Vec<P>)
    requires
        region@.len() == rw * rh,
        bx + bw <= rw,
        by + bh <= rh,
        bw > 0,
    ensures
        cell@.len() == bw * bh,
        forall|i: int|
            0 <= i < bw * bh ==> #[trigger] cell@[i] == region@[(by + i / (bw as int)) * rw + bx + i % (
            bw as int)],
{
    proof {
        assert(bw * bh <= rw * rh) by (nonlinear_arith)
            requires
                bw <= rw,
                bh <= rh,
        ;
    }
    let len = region.len();
    let n = bw * bh;
    let mut cell: Vec<P> = Vec::with_capacity(n);
    let mut i: usize = 0;
    while i < n
        invariant
            region@.len() == rw * rh,
            len == rw * rh,
            bx + bw <= rw,
            by + bh <= rh,
            bw > 0,
            n == bw * bh,
            0 <= i <= n,
            cell@.len() == i,
            forall|j: int|
                0 <= j < i ==> #[trigger] cell@[j] == region@[(by + j / (bw as int)) * rw + bx + j % (
                bw as int)],
        decreases n - i,
    {
        let ghost gi = i as int;
        proof {
            assert(gi / (bw as int) < bh) by (nonlinear_arith)
                requires
                    0 <= gi < n,
                    n == bw * bh,
                    bw > 0,
            ;
            assert(gi % (bw as int) < bw) by (nonlinear_arith)
                requires
                    bw > 0,
            ;
            lemma_flat_index(rw as int, rh as int, bx + gi % (bw as int), by + gi / (bw as int));
        }
        let idx = (by + i / bw) * rw + bx + i % bw;
        cell.push(region[idx]);
        i = i + 1;
    }
    cell
}

/// Set every pixel of the `bw × bh` cell at `(bx, by)` of a row-major
/// `rw`-wide buffer to `value`.
fn fill_cell<P: Copy>(out: &mut Vec<P>, rw: usize, rh: usize, bx: usize, by: usize, bw: usize, bh: usize, value: P)
    requires
        old(out)@.len() == rw * rh,
        bx + bw <= rw,
        by + bh <= rh,
    ensures
        final(out)@.len() == rw * rh,
        forall|x: int, y: int|
            0 <= x < rw && 0 <= y < rh ==> #[trigger] final(out)@[y * rw + x] == if bx <= x < bx + bw && by
                <= y < by + bh {
                value
            } else {
                old(out)@[y * rw + x]
            },
{
    let total = out.len();
    proof {
        assert(bw * bh <= rw * rh) by (nonlinear_arith)
            requires
                bw <= rw,
                bh <= rh,
        ;
    }
    let n = bw * bh;
    let ghost before = out@;
    let mut i: usize = 0;
    while i < n
        invariant
            before.len() == rw * rh,
            out@.len() == rw * rh,
            total == rw * rh,
            bx + bw <= rw,
            by + bh <= rh,
            n == bw * bh,
            0 <= i <= n,
            forall|x: int, y: int|
                0 <= x < rw && 0 <= y < rh ==> #[trigger] out@[y * rw + x] == if bx <= x < bx + bw && by <= y
                    < by + bh && (y - by) * bw + (x - bx) < i {
                    value
                } else {
                    before[y * rw + x]
                },
        decreases n - i,
    {
        let ghost gi = i as int;
        proof {
            assert(bw > 0 && gi / (bw as int) < bh) by (nonlinear_arith)
                requires
                    0 <= gi < n,
                    n == bw * bh,
            ;
            assert(gi % (bw as int) < bw) by (nonlinear_arith)
                requires
                    bw > 0,
            ;
            vstd::arithmetic::div_mod::lemma_fundamental_div_mod(gi, bw as int);
        }
        let x = i % bw;
        let y = i / bw;
        proof {
            lemma_flat_index(rw as int, rh as int, (bx + x) as int, (by + y) as int);
        }
        let idx = (by + y) * rw + (bx + x);
        let ghost prev = out@;
        out.set(idx, value);
        proof {
            assert forall|px: int, py: int| 0 <= px < rw && 0 <= py < rh implies #[trigger] out@[py * rw + px]
                == if bx <= px < bx + bw && by <= py < by + bh && (py - by) * bw + (px - bx) < gi + 1 {
                value
            } else {
                before[py * rw + px]
            } by {
                lemma_flat_index(rw as int, rh as int, px, py);
                if px == bx + x && py == by + y {
                    assert((py - by) * bw == bw * (gi / (bw as int))) by (nonlinear_arith)
                        requires
                            py - by == gi / (bw as int),
                    ;
                } else {
                    assert(py * rw + px != idx);
                    assert(out@[py * rw + px] == prev[py * rw + px]);
                    if bx <= px < bx + bw && by <= py < by + bh {
                        lemma_flat_index(bw as int, bh as int, px - bx, py - by);
                        assert((py - by) * bw + (px - bx) != gi);
                    }
                }
            }
        }
        i = i + 1;
    }
    proof {
        assert forall|px: int, py: int| 0 <= px < rw && 0 <= py < rh && bx <= px < bx + bw && by <= py < by
            + bh implies #[trigger] out@[py * rw + px] == value by {
            lemma_flat_index(bw as int, bh as int, px - bx, py - by);
        }
    }
}

/// Mosaic the `rw × rh` rectangle at `(rx0, ry0)`: cut it into cells of
/// `block` pixels (at least 1) from its top-left corner and give every pixel
/// the `summary` of its cell's pixels. Row-major, `rw * rh` pixels.
pub fn pixelate_region<P: Copy, A: Fn(&Vec<P>) -> P>(
    input: &TiledImage<P>,
    rx0: u32,
    ry0: u32,
    rw: u32,
    rh: u32,
    block: u32,
    summary: &A,
) -> (out: Vec<P>)
    requires
        input.wf(),
        rx0 + rw <= input.spec_size().width,
        ry0 + rh <= input.spec_size().height,
        rw * rh <= usize::MAX,
        forall|v: &Vec<P>| #[trigger] summary.requires((v,)),
    ensures
        out@.len() == rw * rh,
        forall|x: int, y: int|
            0 <= x < rw && 0 <= y < rh ==> summarises(
                *summary,
                cell_pixels(*input, rx0 as int, ry0 as int, rw as int, rh as int, effective_block(block), x, y),
                #[trigger] out@[y * rw + x],
            ),
{
    let b: usize = if block == 0 { 1 } else { block as usize };
    let region = read_region(input, rx0, ry0, rw, rh);
    let w = rw as usize;
    let h = rh as usize;
    let mut out = region.clone();
    let ghost eb = effective_block(block);
    let mut by: usize = 0;
    while by < h
        invariant
            b == eb,
            b > 0,
            w == rw,
            h == rh,
            input.wf(),
            rx0 + rw <= input.spec_size().width,
            ry0 + rh <= input.spec_size().height,
            forall|v: &Vec<P>| #[trigger] summary.requires((v,)),
            region@.len() == w * h,
            out@.len() == w * h,
            by <= h,
            by == h || by % b == 0,
            forall|x: int, y: int|
                0 <= x < rw && 0 <= y < rh ==> #[trigger] region@[y * rw + x] == input.pixel_at(rx0 + x, ry0 + y),
            forall|x: int, y: int|
                0 <= x < w && 0 <= y < by ==> summarises(
                    *summary,
                    cell_pixels(*input, rx0 as int, ry0 as int, rw as int, rh as int, eb, x, y),
                    #[trigger] out@[y * w + x],
                ),
        decreases h - by,
    {
        let bh = if b < h - by { b } else { h - by };
        let mut bx: usize = 0;
        while bx < w
            invariant
                b == eb,
                b > 0,
                w == rw,
                h == rh,
                input.wf(),
                forall|v: &Vec<P>| #[trigger] summary.requires((v,)),
                region@.len() == w * h,
                out@.len() == w * h,
                by < h,
                by % b == 0,
                bh == (if b < h - by { b as int } else { h - by }),
                bx <= w,
                bx == w || bx % b == 0,
                forall|x: int, y: int|
                    0 <= x < rw && 0 <= y < rh ==> #[trigger] region@[y * rw + x] == input.pixel_at(
                        rx0 + x,
                        ry0 + y,
                    ),
                forall|x: int, y: int|
                    0 <= x < w && 0 <= y < h && (y < by || (y < by + bh && x < bx)) ==> summarises(
                        *summary,
                        cell_pixels(*input, rx0 as int, ry0 as int, rw as int, rh as int, eb, x, y),
                        #[trigger] out@[y * w + x],
                    ),
            decreases w - bx,
        {
            let bw = if b < w - bx { b } else { w - bx };
            let cell = gather_cell(&region, w, h, bx, by, bw, bh);
            let value = summary(&cell);
            proof {
                assert forall|x: int, y: int| bx <= x < bx + bw && by <= y < by + bh implies cell@
                    == cell_pixels(*input, rx0 as int, ry0 as int, rw as int, rh as int, eb, x, y) by {
                    lemma_cell_of(x, bx as int, b as int, w as int, bw as int);
                    lemma_cell_of(y, by as int, b as int, h as int, bh as int);
                    let want = cell_pixels(*input, rx0 as int, ry0 as int, rw as int, rh as int, eb, x, y);
                    assert(want.len() == bw * bh);
                    assert forall|i: int| 0 <= i < bw * bh implies cell@[i] == want[i] by {
                        assert(i / (bw as int) < bh && i % (bw as int) < bw) by (nonlinear_arith)
                            requires
                                0 <= i < bw * bh,
                                bw > 0,
                        ;
                        lemma_flat_index(w as int, h as int, bx + i % (bw as int), by + i / (bw as int));
                    }
                    assert(cell@ =~= want);
                }
            }
            let ghost prev = out@;
            fill_cell(&mut out, w, h, bx, by, bw, bh, value);
            proof {
                assert forall|x: int, y: int|
                    0 <= x < w && 0 <= y < h && (y < by || (y < by + bh && x < bx + bw)) implies summarises(
                    *summary,
                    cell_pixels(*input, rx0 as int, ry0 as int, rw as int, rh as int, eb, x, y),
                    #[trigger] out@[y * w + x],
                ) by {
                    if bx <= x < bx + bw && by <= y < by + bh {
                        assert(out@[y * w + x] == value);
                        assert(call_ensures(*summary, (&cell,), value));
                    } else {
                        assert(out@[y * w + x] == prev[y * w + x]);
                    }
                }
                vstd::arithmetic::div_mod::lemma_mod_multiples_vanish(1, bx as int, b as int);
            }
            bx = bx + bw;
        }
        proof {
            vstd::arithmetic::div_mod::lemma_mod_multiples_vanish(1, by as int, b as int);
        }
        by = by + bh;
    }
    out
}

} // verus!
