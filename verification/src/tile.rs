//! Tiled image storage in a 256² grid.
//!
//! Edge tiles are stored exact-size (no padding). Tiles are immutable behind
//! `Arc` — pipeline steps produce new tiles and structurally share the rest,
//! which is what makes undo, caching and "only recompute what changed" cheap.
//!
//! The grid is generic over the pixel type `P`: the engine stores linear-light
//! premultiplied RGBA (`[f32; 4]`), but tiling, addressing and gathering never
//! look inside a pixel.

use vstd::prelude::*;

use crate::geometry::Size;
use crate::hash::{self, ContentHash};
use std::sync::Arc;

verus! {

pub const TILE_SIZE: u32 = 256;

/// Number of tiles needed to cover `len` pixels.
pub open spec fn tiles_across(len: nat) -> nat {
    (len + 255) / 256
}

/// Length of tile `i` along an axis of `len` pixels.
pub open spec fn edge_len(len: nat, i: nat) -> nat {
    if len - i * 256 < 256 {
        (len - i * 256) as nat
    } else {
        256
    }
}

pub open spec fn spec_grid_dims(size: Size) -> (nat, nat) {
    (tiles_across(size.width as nat), tiles_across(size.height as nat))
}

/// Number of tiles covering an image of `size`.
pub open spec fn tile_count(size: Size) -> nat {
    spec_grid_dims(size).0 * spec_grid_dims(size).1
}

pub open spec fn spec_tile_dims(size: Size, col: nat, row: nat) -> (nat, nat) {
    (edge_len(size.width as nat, col), edge_len(size.height as nat, row))
}

/// Number of tile columns/rows covering `size`.
pub fn grid_dims(size: Size) -> (r: (u32, u32))
    ensures
        r.0 == spec_grid_dims(size).0,
        r.1 == spec_grid_dims(size).1,
{
    let cols = size.width / TILE_SIZE + if size.width % TILE_SIZE != 0 {
        1
    } else {
        0
    };
    let rows = size.height / TILE_SIZE + if size.height % TILE_SIZE != 0 {
        1
    } else {
        0
    };
    (cols, rows)
}

/// Pixel dimensions of the tile at grid position (col, row).
pub fn tile_dims(size: Size, col: u32, row: u32) -> (r: (u32, u32))
    requires
        col < spec_grid_dims(size).0,
        row < spec_grid_dims(size).1,
    ensures
        r.0 == spec_tile_dims(size, col as nat, row as nat).0,
        r.1 == spec_tile_dims(size, col as nat, row as nat).1,
{
    let w = size.width - col * TILE_SIZE;
    let h = size.height - row * TILE_SIZE;
    (
        if w < TILE_SIZE {
            w
        } else {
            TILE_SIZE
        },
        if h < TILE_SIZE {
            h
        } else {
            TILE_SIZE
        },
    )
}

/// Where pixel `(x, y)` of an image of `size` lives: the tile at
/// `(x / 256, y / 256)`, at offset `(x % 256, y % 256)` inside it.
pub proof fn lemma_locate(size: Size, x: int, y: int)
    requires
        0 <= x < size.width,
        0 <= y < size.height,
    ensures
        ({
            let cols = spec_grid_dims(size).0 as int;
            let rows = spec_grid_dims(size).1 as int;
            let (tw, th) = spec_tile_dims(size, (x / 256) as nat, (y / 256) as nat);
            let k = (y / 256) * cols + x / 256;
            &&& x / 256 < cols
            &&& y / 256 < rows
            &&& x % 256 < tw
            &&& y % 256 < th
            &&& 0 <= k < tile_count(size)
            &&& k % cols == x / 256
            &&& k / cols == y / 256
            &&& 0 <= (y % 256) * tw + x % 256 < tw * th
            &&& x == (x / 256) * 256 + x % 256
            &&& y == (y / 256) * 256 + y % 256
        }),
{
    let cols = spec_grid_dims(size).0 as int;
    let rows = spec_grid_dims(size).1 as int;
    let col = x / 256;
    let row = y / 256;
    let (tw, th) = spec_tile_dims(size, col as nat, row as nat);
    assert(col < cols);
    assert(row < rows);
    assert(x % 256 < tw);
    assert(y % 256 < th);
    assert(0 <= row * cols + col < cols * rows) by (nonlinear_arith)
        requires
            0 <= col < cols,
            0 <= row < rows,
    ;
    vstd::arithmetic::div_mod::lemma_fundamental_div_mod_converse(
        row * cols + col,
        cols,
        row,
        col,
    );
    assert(0 <= (y % 256) * (tw as int) + x % 256 < tw * th) by (nonlinear_arith)
        requires
            0 <= x % 256 < tw,
            0 <= y % 256 < th,
    ;
}

/// One tile: `width * height` pixels, row-major.
pub struct Tile<P> {
    pub width: u32,
    pub height: u32,
    pub px: Vec<P>,
}

impl<P> Tile<P> {
    pub open spec fn wf(&self) -> bool {
        self.px@.len() == self.width * self.height
    }

    pub fn new(width: u32, height: u32, px: Vec<P>) -> (t: Tile<P>)
        requires
            px@.len() == width * height,
        ensures
            t.width == width,
            t.height == height,
            t.px == px,
            t.wf(),
    {
        Tile { width, height, px }
    }

    /// Heap footprint, for cache accounting (saturating at `u64::MAX`).
    pub open spec fn spec_bytes(&self) -> nat {
        let b = self.px@.len() * vstd::layout::size_of::<P>();
        if b > u64::MAX {
            u64::MAX as nat
        } else {
            b
        }
    }

    pub fn bytes(&self) -> (b: u64)
        ensures
            b == self.spec_bytes(),
    {
        let n = self.px.len() as u64;
        let each = core::mem::size_of::<P>() as u64;
        match n.checked_mul(each) {
            Some(b) => b,
            None => u64::MAX,
        }
    }
}

impl<P: Copy> Tile<P> {
    /// A tile of one repeated pixel.
    pub fn solid(width: u32, height: u32, p: P) -> (t: Tile<P>)
        requires
            width * height <= usize::MAX,
        ensures
            t.width == width,
            t.height == height,
            t.wf(),
            forall|i: int| 0 <= i < t.px@.len() ==> t.px@[i] == p,
    {
        let n = width as usize * height as usize;
        let mut px: Vec<P> = Vec::with_capacity(n);
        let mut i: usize = 0;
        while i < n
            invariant
                0 <= i <= n,
                n == width * height,
                px@.len() == i,
                forall|j: int| 0 <= j < i ==> px@[j] == p,
            decreases n - i,
        {
            px.push(p);
            i = i + 1;
        }
        Tile { width, height, px }
    }
}

/// Calls `Arc::clone`: a new handle to the same allocation, so it points to the
/// same value.
#[verifier::external_body]
pub(crate) fn share<T>(a: &Arc<T>) -> (r: Arc<T>)
    ensures
        r == *a,
{
    Arc::clone(a)
}

/// A tile plus its content identity.
pub struct TileRef<P> {
    pub hash: ContentHash,
    pub tile: Arc<Tile<P>>,
}

impl<P> Clone for TileRef<P> {
    fn clone(&self) -> (r: Self)
        ensures
            r == *self,
    {
        TileRef { hash: self.hash, tile: share(&self.tile) }
    }
}

/// Immutable tiled image. Cloning is cheap (Arc per tile).
pub struct TiledImage<P> {
    size: Size,
    cols: u32,
    rows: u32,
    /// row-major tile order: index = row * cols + col
    tiles: Vec<TileRef<P>>,
}

/// `tile` has the dimensions of grid position `(col, row)` of an image of
/// `size`, and exactly that many pixels.
pub open spec fn tile_fits<P>(tile: Tile<P>, size: Size, col: nat, row: nat) -> bool {
    &&& tile.width == spec_tile_dims(size, col, row).0
    &&& tile.height == spec_tile_dims(size, col, row).1
    &&& tile.wf()
}

/// `tiles` is a complete row-major tile grid for an image of `size`.
pub open spec fn grid_wf<P>(size: Size, tiles: Seq<TileRef<P>>) -> bool {
    let cols = spec_grid_dims(size).0;
    &&& tile_count(size) <= u32::MAX
    &&& tiles.len() == tile_count(size)
    &&& forall|k: int|
        0 <= k < tiles.len() ==> tile_fits(
            *(#[trigger] tiles[k]).tile,
            size,
            (k % (cols as int)) as nat,
            (k / (cols as int)) as nat,
        )
}

/// Pixel `(x, y)` of a tile grid for an image of `size`.
pub open spec fn grid_pixel<P>(size: Size, tiles: Seq<TileRef<P>>, x: int, y: int) -> P {
    let k = (y / 256) * (spec_grid_dims(size).0 as int) + x / 256;
    let t = *tiles[k].tile;
    t.px@[(y % 256) * (t.width as int) + x % 256]
}

impl<P> TiledImage<P> {
    pub closed spec fn spec_size(&self) -> Size {
        self.size
    }

    /// The tiles, row-major.
    pub closed spec fn tile_refs(&self) -> Seq<TileRef<P>> {
        self.tiles@
    }

    pub closed spec fn wf(&self) -> bool {
        &&& self.cols == spec_grid_dims(self.size).0
        &&& self.rows == spec_grid_dims(self.size).1
        &&& grid_wf(self.size, self.tiles@)
    }

    /// Pixel at `(x, y)`, for `x < width` and `y < height`.
    pub open spec fn pixel_at(&self, x: int, y: int) -> P {
        grid_pixel(self.spec_size(), self.tile_refs(), x, y)
    }

    /// Identity of tile `k` (row-major).
    pub open spec fn hash_at(&self, k: int) -> ContentHash {
        self.tile_refs()[k].hash
    }

    pub open spec fn tile_total(&self) -> nat {
        self.tile_refs().len()
    }

    /// A well-formed image has one tile per grid cell, and few enough that a
    /// `u32` indexes them.
    pub proof fn lemma_wf_tiles(&self)
        requires
            self.wf(),
        ensures
            self.tile_total() == tile_count(self.spec_size()),
            tile_count(self.spec_size()) <= u32::MAX,
            grid_wf(self.spec_size(), self.tile_refs()),
    {
    }

    pub fn new(size: Size, tiles: Vec<TileRef<P>>) -> (img: Self)
        requires
            grid_wf(size, tiles@),
        ensures
            img.wf(),
            img.spec_size() == size,
            img.tile_refs() == tiles@,
    {
        let (cols, rows) = grid_dims(size);
        TiledImage { size, cols, rows, tiles }
    }

    pub fn size(&self) -> (s: Size)
        ensures
            s == self.spec_size(),
    {
        self.size
    }

    pub fn grid(&self) -> (g: (u32, u32))
        requires
            self.wf(),
        ensures
            g.0 == spec_grid_dims(self.spec_size()).0,
            g.1 == spec_grid_dims(self.spec_size()).1,
    {
        (self.cols, self.rows)
    }

    pub fn tiles(&self) -> (t: &[TileRef<P>])
        ensures
            t@ == self.tile_refs(),
    {
        self.tiles.as_slice()
    }

    pub fn tile_at(&self, col: u32, row: u32) -> (t: &TileRef<P>)
        requires
            self.wf(),
            col < spec_grid_dims(self.spec_size()).0,
            row < spec_grid_dims(self.spec_size()).1,
        ensures
            *t == self.tile_refs()[row * spec_grid_dims(self.spec_size()).0 + col],
    {
        proof {
            let cols = spec_grid_dims(self.size).0;
            let rows = spec_grid_dims(self.size).1;
            assert(row * cols + col < cols * rows) by (nonlinear_arith)
                requires
                    col < cols,
                    row < rows,
            ;
        }
        &self.tiles[(row * self.cols + col) as usize]
    }
}

impl<P: Copy> TiledImage<P> {
    /// Read one pixel.
    pub fn pixel(&self, x: u32, y: u32) -> (p: P)
        requires
            self.wf(),
            x < self.spec_size().width,
            y < self.spec_size().height,
        ensures
            p == self.pixel_at(x as int, y as int),
    {
        proof {
            lemma_locate(self.size, x as int, y as int);
        }
        let t = &self.tile_at(x / TILE_SIZE, y / TILE_SIZE).tile;
        proof {
            let cols = spec_grid_dims(self.size).0;
            let k = (y / 256) * cols + x / 256;
            assert(tile_fits(*self.tiles@[k as int].tile, self.size, (x / 256) as nat, (y / 256) as nat));
        }
        let (rx, ry) = ((x % TILE_SIZE) as usize, (y % TILE_SIZE) as usize);
        proof {
            let cols = spec_grid_dims(self.size).0;
            let k = (y / 256) * cols + x / 256;
            assert(**t == *self.tiles@[k as int].tile);
            let (tw, th) = spec_tile_dims(self.size, (x / 256) as nat, (y / 256) as nat);
            assert(t.width == tw && t.height == th);
            assert(tw <= 256 && th <= 256);
            assert(ry * tw + rx < tw * th);
            assert(tw * th <= 65536) by (nonlinear_arith)
                requires
                    tw <= 256,
                    th <= 256,
            ;
        }
        t.px[ry * t.width as usize + rx]
    }
}

/// Tile `(col, row)` of an image of `size` holds the matching pixels of the
/// row-major buffer `flat`.
pub open spec fn tile_matches_flat<P>(
    tile: Tile<P>,
    size: Size,
    flat: Seq<P>,
    col: int,
    row: int,
) -> bool {
    let tw = tile.width as int;
    forall|i: int|
        0 <= i < tile.px@.len() ==> #[trigger] tile.px@[i] == flat[(row * 256 + i / tw) * (
        size.width as int) + col * 256 + i % tw]
}

/// Row-major position of `(x, y)` in a buffer of rows `w` wide.
pub proof fn lemma_flat_index(w: int, h: int, x: int, y: int)
    requires
        0 <= x < w,
        0 <= y < h,
    ensures
        0 <= y * w + x < w * h,
        (y * w + x) % w == x,
        (y * w + x) / w == y,
{
    assert(0 <= y * w + x < w * h) by (nonlinear_arith)
        requires
            0 <= x < w,
            0 <= y < h,
    ;
    vstd::arithmetic::div_mod::lemma_fundamental_div_mod_converse(y * w + x, w, y, x);
}

impl<P: Copy> TiledImage<P> {
    /// Copy tile `(col, row)` out of the row-major buffer `flat`.
    fn tile_from_flat(size: Size, flat: &[P], col: u32, row: u32) -> (t: Tile<P>)
        requires
            flat@.len() == size.width * size.height,
            col < spec_grid_dims(size).0,
            row < spec_grid_dims(size).1,
        ensures
            tile_fits(t, size, col as nat, row as nat),
            tile_matches_flat(t, size, flat@, col as int, row as int),
    {
        let (tw, th) = tile_dims(size, col, row);
        proof {
            assert(tw <= 256 && th <= 256);
            assert(tw * th <= 65536) by (nonlinear_arith)
                requires
                    tw <= 256,
                    th <= 256,
            ;
        }
        let n = tw as usize * th as usize;
        let total = flat.len();
        let mut px: Vec<P> = Vec::with_capacity(n);
        let mut i: usize = 0;
        while i < n
            invariant
                0 <= i <= n,
                n == tw * th,
                tw == spec_tile_dims(size, col as nat, row as nat).0,
                th == spec_tile_dims(size, col as nat, row as nat).1,
                col < spec_grid_dims(size).0,
                row < spec_grid_dims(size).1,
                flat@.len() == size.width * size.height,
                total == flat@.len(),
                px@.len() == i,
                forall|j: int|
                    0 <= j < i ==> #[trigger] px@[j] == flat@[(row * 256 + j / (tw as int)) * (
                    size.width as int) + col * 256 + j % (tw as int)],
            decreases n - i,
        {
            let ghost gi = i as int;
            let tx = (i % tw as usize) as u32;
            let ty = (i / tw as usize) as u32;
            proof {
                assert(tw > 0) by (nonlinear_arith)
                    requires
                        0 <= gi < tw * th,
                ;
                assert(gi / (tw as int) < th) by (nonlinear_arith)
                    requires
                        0 <= gi < tw * th,
                        tw > 0,
                ;
                assert(col * 256 + tx < size.width);
                assert(row * 256 + ty < size.height);
                lemma_flat_index(
                    size.width as int,
                    size.height as int,
                    col * 256 + tx,
                    row * 256 + ty,
                );
            }
            let src = (row as usize * 256 + ty as usize) * size.width as usize + col as usize * 256
                + tx as usize;
            px.push(flat[src]);
            i = i + 1;
        }
        Tile { width: tw, height: th, px }
    }

    /// Re-tile a row-major buffer of pixels. Tile `k` is named
    /// `tile_hash(k)` (the producing op knows how its outputs are addressed).
    pub fn from_flat_f32<F: Fn(u32) -> ContentHash>(size: Size, flat: &[P], tile_hash: &F) -> (img:
        Self)
        requires
            flat@.len() == size.width * size.height,
            tile_count(size) <= u32::MAX,
            forall|i: u32| #[trigger] tile_hash.requires((i,)),
        ensures
            img.wf(),
            img.spec_size() == size,
            forall|x: int, y: int|
                0 <= x < size.width && 0 <= y < size.height ==> #[trigger] img.pixel_at(x, y)
                    == flat@[y * size.width + x],
            forall|k: int|
                0 <= k < img.tile_total() ==> call_ensures(
                    *tile_hash,
                    (k as u32,),
                    #[trigger] img.hash_at(k),
                ),
    {
        let (cols, rows) = grid_dims(size);
        let n = cols * rows;
        let mut tiles: Vec<TileRef<P>> = Vec::with_capacity(n as usize);
        let mut index: u32 = 0;
        while index < n
            invariant
                0 <= index <= n,
                n == tile_count(size),
                cols == spec_grid_dims(size).0,
                rows == spec_grid_dims(size).1,
                flat@.len() == size.width * size.height,
                forall|i: u32| #[trigger] tile_hash.requires((i,)),
                tiles@.len() == index,
                forall|k: int|
                    0 <= k < index ==> {
                        &&& tile_fits(
                            *(#[trigger] tiles@[k]).tile,
                            size,
                            (k % (cols as int)) as nat,
                            (k / (cols as int)) as nat,
                        )
                        &&& tile_matches_flat(
                            *tiles@[k].tile,
                            size,
                            flat@,
                            k % (cols as int),
                            k / (cols as int),
                        )
                        &&& call_ensures(*tile_hash, (k as u32,), tiles@[k].hash)
                    },
            decreases n - index,
        {
            let col = index % cols;
            let row = index / cols;
            proof {
                assert(cols > 0) by (nonlinear_arith)
                    requires
                        index < cols * rows,
                ;
                assert(row < rows) by (nonlinear_arith)
                    requires
                        row == index / cols,
                        index < cols * rows,
                        cols > 0,
                ;
            }
            let tile = Self::tile_from_flat(size, flat, col, row);
            let hash = tile_hash(index);
            tiles.push(TileRef { hash, tile: Arc::new(tile) });
            index = index + 1;
        }
        let img = TiledImage { size, cols, rows, tiles };
        proof {
            let c = cols as int;
            assert forall|x: int, y: int|
                0 <= x < size.width && 0 <= y < size.height implies #[trigger] img.pixel_at(x, y)
                == flat@[y * size.width + x] by {
                lemma_locate(size, x, y);
                let k = (y / 256) * c + x / 256;
                let t = *img.tiles@[k].tile;
                let tw = t.width as int;
                let i = (y % 256) * tw + x % 256;
                vstd::arithmetic::div_mod::lemma_fundamental_div_mod_converse(
                    i,
                    tw,
                    y % 256,
                    x % 256,
                );
                assert(t.px@[i] == flat@[(k / c * 256 + i / tw) * (size.width as int) + k % c * 256
                    + i % tw]);
            }
        }
        img
    }

    /// Flatten to one row-major buffer of pixels.
    /// Tile a decoded source image. Tile `k` is named after the source digest
    /// and `k`, so identical sources get identical tiles.
    pub fn from_source(size: Size, flat: &[P], source: ContentHash) -> (img: Self)
        requires
            flat@.len() == size.width * size.height,
            tile_count(size) <= u32::MAX,
        ensures
            img.wf(),
            img.spec_size() == size,
            forall|x: int, y: int|
                0 <= x < size.width && 0 <= y < size.height ==> #[trigger] img.pixel_at(x, y)
                    == flat@[y * size.width + x],
            forall|k: int|
                0 <= k < img.tile_total() ==> (#[trigger] img.hash_at(k)).bytes()
                    == crate::hash::blake3_of(crate::hash::source_preimage(source, k as u32)),
    {
        let name = |i: u32| -> (h: ContentHash)
            ensures
                h.bytes() == crate::hash::blake3_of(crate::hash::source_preimage(source, i)),
            { crate::hash::source_tile_hash(source, i) };
        let img = Self::from_flat_f32(size, flat, &name);
        proof {
            assert forall|k: int| 0 <= k < img.tile_total() implies (#[trigger] img.hash_at(k)).bytes()
                == crate::hash::blake3_of(crate::hash::source_preimage(source, k as u32)) by {
                assert(call_ensures(name, (k as u32,), img.hash_at(k)));
            }
        }
        img
    }

    pub fn to_flat_f32(&self) -> (v: Vec<P>)
        requires
            self.wf(),
            self.spec_size().spec_area() <= usize::MAX,
        ensures
            v@.len() == self.spec_size().width * self.spec_size().height,
            forall|x: int, y: int|
                0 <= x < self.spec_size().width && 0 <= y < self.spec_size().height
                    ==> v@[y * self.spec_size().width + x] == #[trigger] self.pixel_at(x, y),
    {
        let w = self.size.width as usize;
        let n = self.size.area() as usize;
        let mut v: Vec<P> = Vec::with_capacity(n);
        let mut i: usize = 0;
        while i < n
            invariant
                self.wf(),
                0 <= i <= n,
                n == self.spec_size().width * self.spec_size().height,
                w == self.spec_size().width,
                v@.len() == i,
                forall|j: int|
                    0 <= j < i ==> #[trigger] v@[j] == self.pixel_at(j % (w as int), j / (w as int)),
            decreases n - i,
        {
            proof {
                assert(w > 0) by (nonlinear_arith)
                    requires
                        i < n,
                        n == w * self.spec_size().height,
                ;
                assert(i / w < self.spec_size().height) by (nonlinear_arith)
                    requires
                        i < n,
                        n == w * self.spec_size().height,
                        w > 0,
                ;
            }
            let p = self.pixel((i % w) as u32, (i / w) as u32);
            v.push(p);
            i = i + 1;
        }
        proof {
            assert forall|x: int, y: int|
                0 <= x < self.spec_size().width && 0 <= y < self.spec_size().height implies v@[y
                * self.spec_size().width + x] == #[trigger] self.pixel_at(x, y) by {
                lemma_flat_index(w as int, self.spec_size().height as int, x, y);
            }
        }
        v
    }
}

impl<P> Clone for TiledImage<P> {
    fn clone(&self) -> (r: Self)
        ensures
            r.spec_size() == self.spec_size(),
            r.tile_refs() == self.tile_refs(),
            r.wf() == self.wf(),
    {
        let mut tiles: Vec<TileRef<P>> = Vec::with_capacity(self.tiles.len());
        let mut i: usize = 0;
        while i < self.tiles.len()
            invariant
                0 <= i <= self.tiles@.len(),
                tiles@ == self.tiles@.take(i as int),
            decreases self.tiles@.len() - i,
        {
            tiles.push(self.tiles[i].clone());
            i = i + 1;
            proof {
                assert(tiles@ =~= self.tiles@.take(i as int));
            }
        }
        proof {
            assert(self.tiles@.take(i as int) =~= self.tiles@);
        }
        TiledImage { size: self.size, cols: self.cols, rows: self.rows, tiles }
    }
}

} // verus!
