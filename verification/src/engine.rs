//! The executor's bookkeeping: for each pipeline step it derives the output
//! tile identities, consults the cache, says what must be computed, and
//! publishes what was computed. The pixel kernels themselves run outside this
//! library; they are handed the misses and hand the tiles back.
//!
//! - A tile → tile (pointwise) step names output tile `k` after the op and input
//!   tile `k`; cached tiles are reused one by one and only the misses are
//!   computed.
//! - A whole-image (global) step names every output tile after one signature of
//!   the op and all input tiles; either every output tile is cached and the op
//!   is skipped, or it runs in full.
//!
//! The cache never decides correctness: a lookup that cannot be stamped (the
//! recency counter ran out) is simply a miss, and a publish that cannot be
//! stamped is skipped.

use vstd::prelude::*;

use crate::cache::{named_in, sized_as_named, tiles_bytes, TileCache};
use crate::geometry::Size;
use crate::hash::{self, ContentHash};
use crate::ops::{collect_hashes, tile_hashes};
use crate::tile::{grid_dims, share, spec_grid_dims, tile_count, tile_dims, tile_fits, Tile, TileRef, TiledImage};
use std::sync::Arc;

verus! {

/// Default tile-cache budget: 2 GiB.
pub const DEFAULT_CACHE_BYTES: u64 = 2147483648u64;

/// A span of wall time, as whole seconds and the nanoseconds past them.
#[derive(Debug, Clone, Copy, PartialEq, Eq, Structural)]
pub struct Elapsed {
    pub secs: u64,
    pub nanos: u32,
}

/// Nanoseconds in a second.
pub const NANOS_PER_SEC: u32 = 1000000000u32;

/// The longest span: `u64::MAX` seconds and 999 999 999 nanoseconds.
pub open spec fn max_span_nanos() -> nat {
    (u64::MAX as nat) * (NANOS_PER_SEC as nat) + (NANOS_PER_SEC as nat - 1) as nat
}

impl Elapsed {
    /// The span in nanoseconds.
    pub open spec fn spec_nanos(self) -> nat {
        (self.secs as nat) * (NANOS_PER_SEC as nat) + self.nanos as nat
    }

    /// The nanoseconds part is below one second.
    pub open spec fn wf(self) -> bool {
        self.nanos < NANOS_PER_SEC
    }

    pub fn from_millis(ms: u64) -> (e: Elapsed)
        ensures
            e.wf(),
            e.spec_nanos() == ms * 1000000,
    {
        let secs = ms / 1000;
        let rest = (ms % 1000) as u32;
        proof {
            assert(ms == 1000 * (ms / 1000) + ms % 1000) by {
                vstd::arithmetic::div_mod::lemma_fundamental_div_mod(ms as int, 1000);
            }
        }
        Elapsed { secs, nanos: rest * 1000000 }
    }
}

/// Total wall time of `nodes`, in nanoseconds.
pub open spec fn duration_total(nodes: Seq<NodeStat>) -> nat
    decreases nodes.len(),
{
    if nodes.len() == 0 {
        0
    } else {
        duration_total(nodes.drop_last()) + nodes.last().duration.spec_nanos()
    }
}

proof fn lemma_duration_prefix(nodes: Seq<NodeStat>, i: int)
    requires
        0 <= i <= nodes.len(),
    ensures
        duration_total(nodes.take(i)) <= duration_total(nodes),
    decreases nodes.len() - i,
{
    if i < nodes.len() {
        lemma_duration_prefix(nodes, i + 1);
        assert(nodes.take(i + 1).drop_last() =~= nodes.take(i));
    } else {
        assert(nodes.take(i) =~= nodes);
    }
}

/// Per-step execution report.
#[derive(Debug)]
pub struct NodeStat {
    pub name: &'static str,
    pub duration: Elapsed,
    /// tiles in this step's output
    pub tiles: u32,
    /// tiles actually computed (the rest came from the cache)
    pub computed: u32,
}

#[derive(Debug)]
pub struct RunStats {
    pub nodes: Vec<NodeStat>,
}

/// Sum of the computed-tile counts of `nodes`.
pub open spec fn computed_total(nodes: Seq<NodeStat>) -> nat
    decreases nodes.len(),
{
    if nodes.len() == 0 {
        0
    } else {
        computed_total(nodes.drop_last()) + nodes.last().computed as nat
    }
}

impl RunStats {
    pub fn new() -> (s: RunStats)
        ensures
            s.nodes@.len() == 0,
    {
        RunStats { nodes: Vec::new() }
    }

    /// Wall time of all steps. The total must fit the longest span.
    pub fn total_duration(&self) -> (d: Elapsed)
        requires
            duration_total(self.nodes@) <= max_span_nanos(),
        ensures
            d.wf(),
            d.spec_nanos() == duration_total(self.nodes@),
    {
        let mut total: u128 = 0;
        let mut i: usize = 0;
        while i < self.nodes.len()
            invariant
                0 <= i <= self.nodes@.len(),
                total == duration_total(self.nodes@.take(i as int)),
                duration_total(self.nodes@) <= max_span_nanos(),
            decreases self.nodes@.len() - i,
        {
            proof {
                assert(self.nodes@.take(i + 1).drop_last() =~= self.nodes@.take(i as int));
                lemma_duration_prefix(self.nodes@, i + 1);
            }
            let e = self.nodes[i].duration;
            total = total + (e.secs as u128 * NANOS_PER_SEC as u128 + e.nanos as u128);
            i = i + 1;
        }
        proof {
            assert(self.nodes@.take(i as int) =~= self.nodes@);
        }
        let secs = total / (NANOS_PER_SEC as u128);
        let nanos = total % (NANOS_PER_SEC as u128);
        proof {
            vstd::arithmetic::div_mod::lemma_fundamental_div_mod(total as int, NANOS_PER_SEC as int);
            assert(secs <= u64::MAX) by (nonlinear_arith)
                requires
                    secs == total / 1000000000u128,
                    total <= (u64::MAX as nat) * 1000000000 + 999999999,
            ;
        }
        Elapsed { secs: secs as u64, nanos: nanos as u32 }
    }

    /// Tiles computed over all steps (the rest came from the cache).
    pub fn total_computed(&self) -> (n: u32)
        requires
            computed_total(self.nodes@) <= u32::MAX,
        ensures
            n == computed_total(self.nodes@),
    {
        let mut total: u32 = 0;
        let mut i: usize = 0;
        while i < self.nodes.len()
            invariant
                0 <= i <= self.nodes@.len(),
                total == computed_total(self.nodes@.take(i as int)),
                computed_total(self.nodes@) <= u32::MAX,
            decreases self.nodes@.len() - i,
        {
            proof {
                assert(self.nodes@.take(i + 1).drop_last() =~= self.nodes@.take(i as int));
                lemma_computed_prefix(self.nodes@, i + 1);
            }
            total = total + self.nodes[i].computed;
            i = i + 1;
        }
        proof {
            assert(self.nodes@.take(i as int) =~= self.nodes@);
        }
        total
    }
}

proof fn lemma_computed_prefix(nodes: Seq<NodeStat>, i: int)
    requires
        0 <= i <= nodes.len(),
    ensures
        computed_total(nodes.take(i)) <= computed_total(nodes),
    decreases nodes.len(),
{
    if i < nodes.len() {
        lemma_computed_prefix(nodes.drop_last(), i);
        assert(nodes.drop_last().take(i) =~= nodes.take(i));
    } else {
        assert(nodes.take(i) =~= nodes);
    }
}

/// `t` fits grid position `k` (row-major) of an image of `size`.
pub open spec fn fits_at<P>(t: Tile<P>, size: Size, k: int) -> bool {
    let cols = spec_grid_dims(size).0 as int;
    tile_fits(t, size, (k % cols) as nat, (k / cols) as nat)
}

fn tile_fits_at<P>(t: &Tile<P>, size: Size, k: u32) -> (b: bool)
    requires
        k < tile_count(size),
    ensures
        b == fits_at(*t, size, k as int),
{
    let (cols, rows) = grid_dims(size);
    proof {
        assert(cols > 0 && (k as int) / (cols as int) < rows) by (nonlinear_arith)
            requires
                k < cols * rows,
                cols >= 0,
                rows >= 0,
        ;
    }
    let col = k % cols;
    let row = k / cols;
    let (tw, th) = tile_dims(size, col, row);
    proof {
        assert((tw as int) * (th as int) <= 65536) by (nonlinear_arith)
            requires
                tw <= 256,
                th <= 256,
        ;
    }
    t.width == tw && t.height == th && (t.px.len() as u64) == (tw as u64) * (th as u64)
}

/// Output tile `k` of a pointwise step is named after the op and input tile `k`.
pub open spec fn pointwise_names<P>(op: ContentHash, input: TiledImage<P>, hashes: Seq<ContentHash>) -> bool {
    &&& hashes.len() == input.tile_total()
    &&& forall|k: int|
        0 <= k < hashes.len() ==> (#[trigger] hashes[k]).bytes() == hash::blake3_of(
            hash::pointwise_preimage(op, input.hash_at(k)),
        )
}

/// `misses` lists, in increasing order, exactly the positions `hits` leaves empty.
pub open spec fn lists_misses<T>(hits: Seq<Option<T>>, misses: Seq<u32>) -> bool {
    &&& forall|j: int|
        0 <= j < misses.len() ==> (#[trigger] misses[j]) < hits.len() && hits[misses[j] as int] is None
    &&& forall|i: int, j: int| 0 <= i < j < misses.len() ==> misses[i] < misses[j]
    &&& forall|k: int|
        0 <= k < hits.len() && (#[trigger] hits[k]) is None ==> exists|j: int|
            0 <= j < misses.len() && misses[j] == k
}

/// What a pointwise step found in the cache.
pub struct PointwisePlan<P> {
    /// identity of each output tile
    pub hashes: Vec<ContentHash>,
    /// the cached tile for each output position, if any
    pub hits: Vec<Option<Arc<Tile<P>>>>,
    /// positions to compute, in increasing order
    pub misses: Vec<u32>,
}

/// A plan laid out for `input`: one entry per tile, every cached tile fits its
/// position, and `misses` lists the empty positions.
pub open spec fn plan_shape<P>(input: TiledImage<P>, plan: PointwisePlan<P>) -> bool {
    &&& plan.hashes@.len() == input.tile_total()
    &&& plan.hits@.len() == input.tile_total()
    &&& forall|k: int|
        0 <= k < plan.hits@.len() && (#[trigger] plan.hits@[k]) is Some ==> fits_at(
            *plan.hits@[k].unwrap(),
            input.spec_size(),
            k,
        )
    &&& lists_misses(plan.hits@, plan.misses@)
}

/// The cache has the same tiles under the same hashes (only recency changed).
pub open spec fn same_tiles<P>(a: TileCache<P>, b: TileCache<P>) -> bool {
    &&& a@.dom() == b@.dom()
    &&& forall|h: ContentHash| #[trigger] a@.contains_key(h) ==> a@[h].tile == b@[h].tile
}

proof fn lemma_same_tiles_trans<P>(a: TileCache<P>, b: TileCache<P>, c: TileCache<P>)
    requires
        same_tiles(a, b),
        same_tiles(b, c),
    ensures
        same_tiles(a, c),
{
    assert forall|h: ContentHash| #[trigger] a@.contains_key(h) implies a@[h].tile == c@[h].tile by {
        assert(b@.contains_key(h));
    }
}

/// A lookup changes only the recency of what it finds.
proof fn lemma_get_keeps_tiles<P>(before: TileCache<P>, after: TileCache<P>, h: ContentHash)
    requires
        after@ == if before@.contains_key(h) {
            before@.insert(
                h,
                crate::cache::CacheEntry { tick: before.spec_next_tick() as u64, ..before@[h] },
            )
        } else {
            before@
        },
    ensures
        same_tiles(after, before),
{
    assert(after@.dom() =~= before@.dom());
    assert forall|g: ContentHash| #[trigger] after@.contains_key(g) implies after@[g].tile
        == before@[g].tile by {
        if g == h {
        }
    }
}

proof fn lemma_tiles_bytes_prefix<P>(tiles: Seq<TileRef<P>>, i: int)
    requires
        0 <= i <= tiles.len(),
    ensures
        tiles_bytes(tiles.take(i)) <= tiles_bytes(tiles),
        i < tiles.len() ==> tiles_bytes(tiles.take(i + 1)) == tiles_bytes(tiles.take(i))
            + tiles[i].tile.spec_bytes(),
    decreases tiles.len() - i,
{
    if i < tiles.len() {
        assert(tiles.take(i + 1).drop_last() =~= tiles.take(i));
        lemma_tiles_bytes_prefix(tiles, i + 1);
    } else {
        assert(tiles.take(i) =~= tiles);
    }
}

/// The computed tiles of a pointwise step, each under its output name.
pub open spec fn miss_refs<P>(plan: PointwisePlan<P>, computed: Seq<Arc<Tile<P>>>) -> Seq<TileRef<P>> {
    Seq::new(
        plan.misses@.len(),
        |j: int| TileRef { hash: plan.hashes@[plan.misses@[j] as int], tile: computed[j] },
    )
}

/// Each name of `tiles` has one byte size: tiles sharing a name are the same
/// size, and an entry `cache` already holds under one of the names has it too.
pub open spec fn names_sized_alike<P>(cache: TileCache<P>, tiles: Seq<TileRef<P>>) -> bool {
    &&& forall|j: int, k: int|
        0 <= j < tiles.len() && 0 <= k < tiles.len() && (#[trigger] tiles[j]).hash == (#[trigger] tiles[k]).hash
            ==> tiles[j].tile.spec_bytes() == tiles[k].tile.spec_bytes()
    &&& forall|h: ContentHash| #[trigger] cache@.contains_key(h) ==> sized_as_named(cache@[h], tiles)
}

/// Storing `tiles` in `cache` ends with all of them cached: enough recency
/// ticks are left, their total fits the budget, and their names are sized
/// alike. (Eviction may drop older entries to make room.)
pub open spec fn fits_whole<P>(cache: TileCache<P>, tiles: Seq<TileRef<P>>) -> bool {
    &&& cache.spec_next_tick() + tiles.len() <= u64::MAX
    &&& tiles_bytes(tiles) <= cache.spec_budget()
    &&& names_sized_alike(cache, tiles)
}

/// What storing the first tiles of a batch keeps true: their names are cached,
/// their entries are newer than every other entry, and every entry has the
/// byte size of the batch tiles carrying its name.
pub open spec fn batch_kept<P>(cache: TileCache<P>, tiles: Seq<TileRef<P>>, i: int) -> bool {
    &&& forall|k: int| 0 <= k < i ==> cache@.contains_key((#[trigger] tiles[k]).hash)
    &&& forall|g: ContentHash, h: ContentHash|
        cache@.contains_key(g) && cache@.contains_key(h) && !named_in(tiles.take(i), g) && named_in(
            tiles.take(i),
            h,
        ) ==> #[trigger] cache@[g].tick < #[trigger] cache@[h].tick
    &&& forall|h: ContentHash| #[trigger] cache@.contains_key(h) ==> sized_as_named(cache@[h], tiles)
}

proof fn lemma_named_next<P>(tiles: Seq<TileRef<P>>, i: int, g: ContentHash)
    requires
        0 <= i < tiles.len(),
    ensures
        named_in(tiles.take(i + 1), g) <==> (named_in(tiles.take(i), g) || g == tiles[i].hash),
{
    if named_in(tiles.take(i + 1), g) {
        let k = choose|k: int| 0 <= k < i + 1 && (#[trigger] tiles.take(i + 1)[k]).hash == g;
        if k < i {
            assert(tiles.take(i)[k] == tiles[k]);
        }
    }
    if named_in(tiles.take(i), g) {
        let k = choose|k: int| 0 <= k < i && (#[trigger] tiles.take(i)[k]).hash == g;
        assert(tiles.take(i + 1)[k] == tiles[k]);
    }
    if g == tiles[i].hash {
        assert(tiles.take(i + 1)[i] == tiles[i]);
    }
}

proof fn lemma_sized_prefix<P>(e: crate::cache::CacheEntry<P>, tiles: Seq<TileRef<P>>, i: int)
    requires
        0 <= i <= tiles.len(),
        sized_as_named(e, tiles),
    ensures
        sized_as_named(e, tiles.take(i)),
{
    assert forall|k: int| 0 <= k < i && (#[trigger] tiles.take(i)[k]).hash == e.hash implies e.bytes
        == tiles.take(i)[k].tile.spec_bytes() by {
        assert(tiles.take(i)[k] == tiles[k]);
    }
}

/// One insert of a batch keeps `batch_kept`: a new entry is the newest, and if
/// eviction dropped a batch entry, the most recently used dropped entry and
/// everything kept would all be batch entries, whose bytes fit the budget.
proof fn lemma_store_step<P>(
    c: TileCache<P>,
    f: TileCache<P>,
    tiles: Seq<TileRef<P>>,
    i: int,
    t: Arc<Tile<P>>,
)
    requires
        c.wf(),
        f.wf(),
        0 <= i < tiles.len(),
        tiles[i].tile == t,
        f.spec_budget() == c.spec_budget(),
        tiles_bytes(tiles) <= c.spec_budget(),
        names_sized_alike(c, tiles),
        batch_kept(c, tiles, i),
        c@.contains_key(tiles[i].hash) ==> f@ == c@.insert(
            tiles[i].hash,
            crate::cache::CacheEntry { tick: c.spec_next_tick() as u64, ..c@[tiles[i].hash] },
        ),
        !c@.contains_key(tiles[i].hash) ==> crate::cache::evicted_lru(
            c@.insert(
                tiles[i].hash,
                crate::cache::CacheEntry {
                    hash: tiles[i].hash,
                    tile: t,
                    tick: c.spec_next_tick() as u64,
                    bytes: t.spec_bytes() as u64,
                },
            ),
            f@,
            f.spec_bytes(),
            f.spec_budget(),
        ),
        c.spec_next_tick() < u64::MAX,
    ensures
        batch_kept(f, tiles, i + 1),
{
    let h = tiles[i].hash;
    let pre = tiles.take(i);
    let post = tiles.take(i + 1);
    c.lemma_wf_view();
    f.lemma_wf_view();
    lemma_tiles_bytes_prefix(tiles, i + 1);
    assert forall|g: ContentHash| #![auto] named_in(post, g) <==> (named_in(pre, g) || g == h) by {
        lemma_named_next(tiles, i, g);
    }
    if c@.contains_key(h) {
        assert forall|k: int| 0 <= k < i + 1 implies f@.contains_key((#[trigger] tiles[k]).hash) by {
            if k < i {
                assert(c@.contains_key(tiles[k].hash));
            }
        }
        assert forall|g: ContentHash, q: ContentHash|
            f@.contains_key(g) && f@.contains_key(q) && !named_in(post, g) && named_in(post, q) implies #[trigger] f@[g].tick
            < #[trigger] f@[q].tick by {
            assert(g != h);
            if q != h {
                assert(named_in(pre, q));
                assert(c@.contains_key(g) && c@.contains_key(q));
            } else {
                assert(c@.contains_key(g));
            }
        }
        assert forall|g: ContentHash| #[trigger] f@.contains_key(g) implies sized_as_named(f@[g], tiles) by {
            assert(c@.contains_key(g));
            assert(sized_as_named(c@[g], tiles));
        }
    } else {
        let ne = crate::cache::CacheEntry {
            hash: h,
            tile: t,
            tick: c.spec_next_tick() as u64,
            bytes: t.spec_bytes() as u64,
        };
        let full = c@.insert(h, ne);
        assert(t.spec_bytes() <= u64::MAX);
        assert(sized_as_named(ne, tiles)) by {
            assert forall|k: int| 0 <= k < tiles.len() && (#[trigger] tiles[k]).hash == ne.hash implies ne.bytes
                == tiles[k].tile.spec_bytes() by {
                assert(tiles[i].hash == tiles[k].hash);
            }
        }
        assert forall|g: ContentHash| #[trigger] full.contains_key(g) implies sized_as_named(full[g], tiles) by {
            if g != h {
                assert(c@.contains_key(g));
            }
        }
        // in `full`, batch entries are newer than every other entry
        assert forall|g: ContentHash, q: ContentHash|
            full.contains_key(g) && full.contains_key(q) && !named_in(post, g) && named_in(post, q) implies #[trigger] full[g].tick
            < #[trigger] full[q].tick by {
            assert(g != h);
            assert(c@.contains_key(g));
            if q != h {
                assert(named_in(pre, q));
            }
        }
        assert forall|k: int| 0 <= k < i + 1 implies f@.contains_key((#[trigger] tiles[k]).hash) by {
            let p = tiles[k].hash;
            assert(named_in(post, p)) by {
                assert(post[k] == tiles[k]);
            }
            assert(full.contains_key(p)) by {
                if k < i {
                    assert(c@.contains_key(tiles[k].hash));
                }
            }
            if !f@.contains_key(p) {
                assert(f@ != full);
                let e = choose|e: ContentHash|
                    {
                        &&& full.contains_key(e)
                        &&& !f@.contains_key(e)
                        &&& f.spec_bytes() + full[e].bytes > f.spec_budget()
                        &&& forall|g: ContentHash|
                            full.contains_key(g) && !f@.contains_key(g) ==> #[trigger] full[g].tick
                                <= full[e].tick
                    };
                assert(full[p].tick <= full[e].tick);
                assert(named_in(post, e)) by {
                    if !named_in(post, e) {
                        assert(full[e].tick < full[p].tick);
                    }
                }
                assert forall|g: ContentHash| #[trigger] f@.contains_key(g) implies named_in(post, g)
                    && sized_as_named(f@[g], post) by {
                    assert(full.contains_key(g) && full[g] == f@[g]);
                    if !named_in(post, g) {
                        assert(full[e].tick < full[g].tick);
                        assert(full[g].tick < full[e].tick);
                    }
                    lemma_sized_prefix(f@[g], tiles, i + 1);
                }
                lemma_sized_prefix(full[e], tiles, i + 1);
                f.lemma_named_bytes_bound(full[e], post);
                assert(false);
            }
        }
        assert forall|g: ContentHash, q: ContentHash|
            f@.contains_key(g) && f@.contains_key(q) && !named_in(post, g) && named_in(post, q) implies #[trigger] f@[g].tick
            < #[trigger] f@[q].tick by {
            assert(full.contains_key(g) && full[g] == f@[g]);
            assert(full.contains_key(q) && full[q] == f@[q]);
        }
        assert forall|g: ContentHash| #[trigger] f@.contains_key(g) implies sized_as_named(f@[g], tiles) by {
            assert(full.contains_key(g) && full[g] == f@[g]);
        }
    }
}

/// `cache` can take every tile of `tiles` without evicting anything: enough
/// recency ticks are left, and the bytes fit the budget.
pub open spec fn has_room<P>(cache: TileCache<P>, tiles: Seq<TileRef<P>>) -> bool {
    &&& cache.spec_next_tick() + tiles.len() <= u64::MAX
    &&& cache.spec_bytes() + tiles_bytes(tiles) <= cache.spec_budget()
}

/// `after` still holds every entry of `before` with the same tile, holds every
/// name in `added`, and any name it holds that `before` did not comes with a
/// tile of `added` carrying that name.
pub open spec fn keeps_and_adds<P>(before: TileCache<P>, after: TileCache<P>, added: Seq<TileRef<P>>) -> bool {
    &&& forall|h: ContentHash| #[trigger]
        before@.contains_key(h) ==> after@.contains_key(h) && after@[h].tile == before@[h].tile
    &&& forall|k: int| 0 <= k < added.len() ==> after@.contains_key((#[trigger] added[k]).hash)
    &&& forall|h: ContentHash| #[trigger]
        after@.contains_key(h) && !before@.contains_key(h) ==> exists|j: int|
            0 <= j < added.len() && (#[trigger] added[j]).hash == h && after@[h].tile == added[j].tile
}

/// Output tile `k` of the whole-image step with signature `sig` is cached
/// under its name and fits its position.
pub open spec fn global_tile_cached<P>(cache: TileCache<P>, sig: ContentHash, out_size: Size, k: int) -> bool {
    exists|h: ContentHash| #[trigger]
        cache@.contains_key(h) && h.bytes() == hash::blake3_of(hash::global_tile_preimage(sig, k as u32))
            && fits_at(*cache@[h].tile, out_size, k)
}

/// Publishing a whole-image step's output with room to spare makes the next
/// plan of that step find it: once the cache keeps and adds the output's
/// tiles, every output tile is cached under its name and fits its position.
/// The output's names must be distinct, and an entry cached under one of them
/// before must fit that position.
pub proof fn lemma_published_output_is_cached<P>(
    before: TileCache<P>,
    after: TileCache<P>,
    result: TiledImage<P>,
    sig: ContentHash,
)
    requires
        keeps_and_adds(before, after, result.tile_refs()),
        result.wf(),
        forall|k: int|
            0 <= k < result.tile_total() ==> (#[trigger] result.hash_at(k)).bytes() == hash::blake3_of(
                hash::global_tile_preimage(sig, k as u32),
            ),
        forall|j: int, k: int|
            0 <= j < result.tile_total() && 0 <= k < result.tile_total() && j != k ==> #[trigger] result.hash_at(
                j,
            ) != #[trigger] result.hash_at(k),
        forall|k: int|
            0 <= k < result.tile_total() && before@.contains_key(#[trigger] result.hash_at(k)) ==> fits_at(
                *before@[result.hash_at(k)].tile,
                result.spec_size(),
                k,
            ),
    ensures
        global_output_cached(after, sig, result.spec_size()),
{
    result.lemma_wf_tiles();
    let refs = result.tile_refs();
    assert forall|k: int| 0 <= k < tile_count(result.spec_size()) implies #[trigger] global_tile_cached(
        after,
        sig,
        result.spec_size(),
        k,
    ) by {
        let h = result.hash_at(k);
        assert(after@.contains_key(refs[k].hash));
        if before@.contains_key(h) {
            assert(after@[h].tile == before@[h].tile);
        } else {
            let j = choose|j: int| 0 <= j < refs.len() && (#[trigger] refs[j]).hash == h && after@[h].tile == refs[j].tile;
            assert(result.hash_at(j) == result.hash_at(k));
            assert(j == k);
            assert(fits_at(*refs[k].tile, result.spec_size(), k));
        }
        assert(fits_at(*after@[h].tile, result.spec_size(), k));
    }
}

/// The cache holds no fitting tile for output `k` of step `sig` when the one
/// name it could be under is missing or holds a tile that does not fit.
proof fn lemma_not_cached<P>(cache: TileCache<P>, sig: ContentHash, out_size: Size, k: int, h: ContentHash)
    requires
        h.bytes() == hash::blake3_of(hash::global_tile_preimage(sig, k as u32)),
        !cache@.contains_key(h) || !fits_at(*cache@[h].tile, out_size, k),
    ensures
        !global_tile_cached(cache, sig, out_size, k),
{
    if global_tile_cached(cache, sig, out_size, k) {
        let g = choose|g: ContentHash| #[trigger]
            cache@.contains_key(g) && g.bytes() == hash::blake3_of(hash::global_tile_preimage(sig, k as u32))
                && fits_at(*cache@[g].tile, out_size, k);
        hash::lemma_hash_eq(g, h);
    }
}

/// A pointwise step whose computed tiles were stored with room to spare is
/// found whole when planned again: every output name is cached with a tile
/// that fits its position. It needs the tiles the plan found to be still
/// cached when the step finishes, the computed tiles' names to be distinct,
/// and an entry already cached under one of those names to fit its position.
pub proof fn lemma_finished_pointwise_is_cached<P>(
    before: TileCache<P>,
    after: TileCache<P>,
    input: TiledImage<P>,
    plan: PointwisePlan<P>,
    computed: Seq<Arc<Tile<P>>>,
)
    requires
        keeps_and_adds(before, after, miss_refs(plan, computed)),
        plan_shape(input, plan),
        computed.len() == plan.misses@.len(),
        forall|j: int|
            0 <= j < computed.len() ==> fits_at(
                *#[trigger] computed[j],
                input.spec_size(),
                plan.misses@[j] as int,
            ),
        forall|k: int|
            0 <= k < plan.hits@.len() && (#[trigger] plan.hits@[k]) is Some ==> before@.contains_key(
                plan.hashes@[k],
            ) && fits_at(*before@[plan.hashes@[k]].tile, input.spec_size(), k),
        forall|i: int, j: int|
            0 <= i < plan.misses@.len() && 0 <= j < plan.misses@.len() && i != j
                ==> plan.hashes@[#[trigger] plan.misses@[i] as int] != plan.hashes@[#[trigger] plan.misses@[j] as int],
        forall|j: int|
            0 <= j < plan.misses@.len() && before@.contains_key(plan.hashes@[#[trigger] plan.misses@[j] as int])
                ==> fits_at(
                *before@[plan.hashes@[plan.misses@[j] as int]].tile,
                input.spec_size(),
                plan.misses@[j] as int,
            ),
    ensures
        forall|k: int|
            0 <= k < input.tile_total() ==> after@.contains_key(#[trigger] plan.hashes@[k]) && fits_at(
                *after@[plan.hashes@[k]].tile,
                input.spec_size(),
                k,
            ),
{
    let refs = miss_refs(plan, computed);
    assert forall|k: int| 0 <= k < input.tile_total() implies after@.contains_key(#[trigger] plan.hashes@[k])
        && fits_at(*after@[plan.hashes@[k]].tile, input.spec_size(), k) by {
        let h = plan.hashes@[k];
        if plan.hits@[k] is Some {
            assert(before@.contains_key(h));
        } else {
            let j = choose|j: int| 0 <= j < plan.misses@.len() && plan.misses@[j] == k;
            assert(refs[j].hash == h);
            assert(after@.contains_key(refs[j].hash));
            if !before@.contains_key(h) {
                let j2 = choose|j2: int|
                    0 <= j2 < refs.len() && (#[trigger] refs[j2]).hash == h && after@[h].tile == refs[j2].tile;
                if j2 != j {
                    assert(plan.hashes@[plan.misses@[j2] as int] != plan.hashes@[plan.misses@[j] as int]);
                }
                assert(fits_at(*computed[j], input.spec_size(), plan.misses@[j] as int));
            }
        }
    }
}

/// Every output tile of the whole-image step with signature `sig` is cached
/// under its name and fits its position.
pub open spec fn global_output_cached<P>(cache: TileCache<P>, sig: ContentHash, out_size: Size) -> bool {
    forall|k: int| 0 <= k < tile_count(out_size) ==> #[trigger] global_tile_cached(cache, sig, out_size, k)
}

pub struct Engine<P> {
    cache: TileCache<P>,
}

impl<P> Engine<P> {
    pub closed spec fn cache(&self) -> TileCache<P> {
        self.cache
    }

    pub open spec fn wf(&self) -> bool {
        self.cache().wf()
    }

    pub fn new() -> (e: Self)
        ensures
            e.wf(),
            e.cache()@ == Map::<ContentHash, crate::cache::CacheEntry<P>>::empty(),
            e.cache().spec_budget() == DEFAULT_CACHE_BYTES,
    {
        Self::with_cache_budget(DEFAULT_CACHE_BYTES)
    }

    pub fn with_cache_budget(bytes: u64) -> (e: Self)
        ensures
            e.wf(),
            e.cache()@ == Map::<ContentHash, crate::cache::CacheEntry<P>>::empty(),
            e.cache().spec_budget() == bytes,
    {
        Engine { cache: TileCache::new(bytes) }
    }

    /// Name the outputs of a pointwise step and collect the cached ones. A
    /// cached tile is used only if it fits its position; it is found whenever
    /// it is cached, fits, and the recency counter can still stamp the lookup.
    pub fn plan_pointwise(&mut self, input: &TiledImage<P>, op: ContentHash) -> (plan: PointwisePlan<P>)
        requires
            old(self).wf(),
            input.wf(),
        ensures
            final(self).wf(),
            same_tiles(final(self).cache(), old(self).cache()),
            final(self).cache().spec_budget() == old(self).cache().spec_budget(),
            pointwise_names(op, *input, plan.hashes@),
            plan_shape(*input, plan),
            forall|k: int|
                0 <= k < plan.hits@.len() && (#[trigger] plan.hits@[k]) is Some ==> old(
                    self,
                ).cache()@.contains_key(plan.hashes@[k]) && plan.hits@[k].unwrap() == old(
                    self,
                ).cache()@[plan.hashes@[k]].tile,
            forall|k: int|
                0 <= k < plan.hits@.len() && old(self).cache().spec_next_tick() + k < u64::MAX && old(
                    self,
                ).cache()@.contains_key(plan.hashes@[k]) && fits_at(
                    *old(self).cache()@[plan.hashes@[k]].tile,
                    input.spec_size(),
                    k,
                ) ==> (#[trigger] plan.hits@[k]) is Some,
    {
        let tiles = input.tiles();
        let n = tiles.len();
        let size = input.size();
        proof {
            input.lemma_wf_tiles();
        }
        let ghost start = self.cache.spec_next_tick();
        let _ = self.cache.ticks_left();
        let mut hashes: Vec<ContentHash> = Vec::new();
        let mut hits: Vec<Option<Arc<Tile<P>>>> = Vec::new();
        let mut misses: Vec<u32> = Vec::new();
        let mut k: usize = 0;
        while k < n
            invariant
                0 <= k <= n,
                n == input.tile_total(),
                n == tile_count(size),
                n <= u32::MAX,
                tiles@ == input.tile_refs(),
                size == input.spec_size(),
                self.cache.wf(),
                same_tiles(self.cache, old(self).cache),
                self.cache.spec_budget() == old(self).cache.spec_budget(),
                start == old(self).cache.spec_next_tick(),
                start <= u64::MAX,
                start + k <= u64::MAX ==> self.cache.spec_next_tick() == start + k,
                start + k > u64::MAX ==> self.cache.spec_next_tick() == u64::MAX,
                hashes@.len() == k,
                hits@.len() == k,
                forall|j: int|
                    0 <= j < k ==> (#[trigger] hashes@[j]).bytes() == hash::blake3_of(
                        hash::pointwise_preimage(op, input.hash_at(j)),
                    ),
                forall|j: int|
                    0 <= j < k && (#[trigger] hits@[j]) is Some ==> fits_at(
                        *hits@[j].unwrap(),
                        size,
                        j,
                    ) && old(self).cache@.contains_key(hashes@[j]) && hits@[j].unwrap() == old(
                        self,
                    ).cache@[hashes@[j]].tile,
                forall|j: int|
                    0 <= j < k && start + j < u64::MAX && old(self).cache@.contains_key(hashes@[j])
                        && fits_at(*old(self).cache@[hashes@[j]].tile, size, j) ==> (
                    #[trigger] hits@[j]) is Some,
                lists_misses(hits@, misses@),
                forall|j: int| 0 <= j < misses@.len() ==> (#[trigger] misses@[j]) < k,
            decreases n - k,
        {
            let h = hash::pointwise_tile_hash(op, tiles[k].hash);
            let ghost before = self.cache;
            let hit: Option<Arc<Tile<P>>> = if self.cache.ticks_left() > 0 {
                let got = self.cache.get(&h);
                proof {
                    lemma_get_keeps_tiles(before, self.cache, h);
                    lemma_same_tiles_trans(self.cache, before, old(self).cache);
                }
                match got {
                    Some(t) => {
                        if tile_fits_at(&*t, size, k as u32) {
                            Some(t)
                        } else {
                            None
                        }
                    },
                    None => None,
                }
            } else {
                None
            };
            let ghost prev_hits = hits@;
            let ghost prev_misses = misses@;
            if hit.is_none() {
                misses.push(k as u32);
            }
            hashes.push(h);
            hits.push(hit);
            proof {
                assert(hits@[k as int] == hit);
                assert forall|j: int|
                    0 <= j < hits@.len() && (#[trigger] hits@[j]) is None implies exists|m: int|
                    0 <= m < misses@.len() && misses@[m] == j by {
                    if j == k {
                        assert(misses@[misses@.len() - 1] == k);
                    } else {
                        assert(hits@[j] == prev_hits[j]);
                        let m0 = choose|m0: int| 0 <= m0 < prev_misses.len() && prev_misses[m0] == j;
                        assert(misses@[m0] == prev_misses[m0]);
                    }
                }
            }
            k = k + 1;
        }
        PointwisePlan { hashes, hits, misses }
    }

    /// Assemble a pointwise step's output from the plan and the computed
    /// misses (`computed[j]` is the tile for position `plan.misses[j]`), and
    /// publish the computed tiles to the cache. Returns the image, its tile
    /// count and the number of tiles computed.
    pub fn finish_pointwise(
        &mut self,
        input: &TiledImage<P>,
        plan: PointwisePlan<P>,
        computed: Vec<Arc<Tile<P>>>,
    ) -> (r: (TiledImage<P>, u32, u32))
        requires
            old(self).wf(),
            input.wf(),
            plan_shape(*input, plan),
            computed@.len() == plan.misses@.len(),
            forall|j: int|
                0 <= j < computed@.len() ==> fits_at(
                    *#[trigger] computed@[j],
                    input.spec_size(),
                    plan.misses@[j] as int,
                ),
        ensures
            final(self).wf(),
            final(self).cache().spec_budget() == old(self).cache().spec_budget(),
            r.0.wf(),
            r.0.spec_size() == input.spec_size(),
            r.0.tile_total() == input.tile_total(),
            forall|k: int| 0 <= k < r.0.tile_total() ==> #[trigger] r.0.hash_at(k) == plan.hashes@[k],
            forall|k: int|
                0 <= k < r.0.tile_total() && (#[trigger] plan.hits@[k]) is Some ==> r.0.tile_refs()[k].tile
                    == plan.hits@[k].unwrap(),
            forall|j: int|
                0 <= j < plan.misses@.len() ==> r.0.tile_refs()[(#[trigger] plan.misses@[j]) as int].tile
                    == computed@[j],
            r.1 == input.tile_total(),
            r.2 == plan.misses@.len(),
            has_room(old(self).cache(), miss_refs(plan, computed@)) ==> keeps_and_adds(
                old(self).cache(),
                final(self).cache(),
                miss_refs(plan, computed@),
            ),
            fits_whole(old(self).cache(), miss_refs(plan, computed@)) ==> forall|j: int|
                0 <= j < plan.misses@.len() ==> final(self).cache()@.contains_key(
                    plan.hashes@[#[trigger] plan.misses@[j] as int],
                ),
    {
        let size = input.size();
        proof {
            input.lemma_wf_tiles();
        }
        let n = plan.hits.len();
        let m = plan.misses.len();
        let mut tiles: Vec<TileRef<P>> = Vec::new();
        let mut k: usize = 0;
        let mut mi: usize = 0;
        while k < n
            invariant
                0 <= k <= n,
                n == plan.hits@.len(),
                n == tile_count(size),
                size == input.spec_size(),
                m == plan.misses@.len(),
                m == computed@.len(),
                plan_shape(*input, plan),
                forall|j: int|
                    0 <= j < computed@.len() ==> fits_at(
                        *#[trigger] computed@[j],
                        size,
                        plan.misses@[j] as int,
                    ),
                0 <= mi <= m,
                mi <= k,
                forall|j: int| 0 <= j < mi ==> (#[trigger] plan.misses@[j]) < k,
                mi < m ==> plan.misses@[mi as int] >= k,
                tiles@.len() == k,
                forall|j: int|
                    0 <= j < k ==> (#[trigger] tiles@[j]).hash == plan.hashes@[j] && fits_at(
                        *tiles@[j].tile,
                        size,
                        j,
                    ),
                forall|j: int|
                    0 <= j < k && (#[trigger] plan.hits@[j]) is Some ==> tiles@[j].tile
                        == plan.hits@[j].unwrap(),
                forall|j: int|
                    0 <= j < mi ==> tiles@[(#[trigger] plan.misses@[j]) as int].tile == computed@[j],
            decreases n - k,
        {
            let tile = match &plan.hits[k] {
                Some(t) => share(t),
                None => {
                    proof {
                        let j = choose|j: int| 0 <= j < m && plan.misses@[j] == k;
                        if j < mi {
                            assert(plan.misses@[j] < k);
                        }
                        if j > mi {
                            assert(plan.misses@[mi as int] < plan.misses@[j]);
                        }
                        assert(plan.misses@[mi as int] == k);
                    }
                    let t = share(&computed[mi]);
                    mi = mi + 1;
                    t
                },
            };
            tiles.push(TileRef { hash: plan.hashes[k], tile });
            proof {
                if mi < m {
                    assert(plan.misses@[mi - 1] < plan.misses@[mi as int] || plan.hits@[k as int]
                        is Some);
                    if plan.hits@[k as int] is Some {
                        assert(plan.misses@[mi as int] != k);
                    }
                }
                assert forall|j: int| 0 <= j < mi implies (#[trigger] plan.misses@[j]) < k + 1 by {
                    if j < mi - 1 || plan.hits@[k as int] is Some {
                    }
                }
            }
            k = k + 1;
        }
        proof {
            if mi < m {
                assert(plan.misses@[mi as int] < n);
            }
            assert(mi == m);
        }
        let mut fresh: Vec<TileRef<P>> = Vec::with_capacity(m);
        let mut j: usize = 0;
        while j < m
            invariant
                0 <= j <= m,
                plan_shape(*input, plan),
                m == computed@.len(),
                m == plan.misses@.len(),
                fresh@.len() == j,
                forall|jj: int| 0 <= jj < j ==> #[trigger] fresh@[jj] == miss_refs(plan, computed@)[jj],
            decreases m - j,
        {
            let idx = plan.misses[j] as usize;
            proof {
                assert(plan.misses@[j as int] < plan.hits@.len());
            }
            fresh.push(TileRef { hash: plan.hashes[idx], tile: share(&computed[j]) });
            j = j + 1;
        }
        proof {
            assert(fresh@ =~= miss_refs(plan, computed@));
        }
        self.store(fresh.as_slice());
        proof {
            if fits_whole(old(self).cache, miss_refs(plan, computed@)) {
                assert forall|jj: int| 0 <= jj < plan.misses@.len() implies self.cache@.contains_key(
                    plan.hashes@[#[trigger] plan.misses@[jj] as int],
                ) by {
                    assert(fresh@[jj] == miss_refs(plan, computed@)[jj]);
                    assert(self.cache@.contains_key(fresh@[jj].hash));
                }
            }
        }
        proof {
            assert forall|kk: int| 0 <= kk < tiles@.len() implies crate::tile::tile_fits(
                *(#[trigger] tiles@[kk]).tile,
                size,
                (kk % (spec_grid_dims(size).0 as int)) as nat,
                (kk / (spec_grid_dims(size).0 as int)) as nat,
            ) by {
                assert(fits_at(*tiles@[kk].tile, size, kk));
            }
        }
        let img = TiledImage::new(size, tiles);
        (img, n as u32, m as u32)
    }

    /// Look up the output of a global step. Returns the step's signature and,
    /// when every output tile is cached (and fits its position), the cached
    /// output, so the op can be skipped.
    pub fn plan_global(&mut self, input: &TiledImage<P>, out_size: Size, op: ContentHash) -> (r: (
        ContentHash,
        Option<TiledImage<P>>,
    ))
        requires
            old(self).wf(),
            tile_count(out_size) <= u32::MAX,
        ensures
            final(self).wf(),
            same_tiles(final(self).cache(), old(self).cache()),
            final(self).cache().spec_budget() == old(self).cache().spec_budget(),
            r.0.bytes() == hash::blake3_of(hash::global_preimage(op, tile_hashes(input.tile_refs()))),
            r.1 matches Some(img) ==> {
                &&& img.wf()
                &&& img.spec_size() == out_size
                &&& forall|k: int|
                    0 <= k < img.tile_total() ==> (#[trigger] img.hash_at(k)).bytes() == hash::blake3_of(
                        hash::global_tile_preimage(r.0, k as u32),
                    ) && old(self).cache()@.contains_key(img.hash_at(k)) && img.tile_refs()[k].tile
                        == old(self).cache()@[img.hash_at(k)].tile
            },
            r.1 is Some <==> (old(self).cache().spec_next_tick() + tile_count(out_size) <= u64::MAX
                && global_output_cached(old(self).cache(), r.0, out_size)),
    {
        proof {
            self.cache.lemma_tick_bound();
        }
        let inputs = collect_hashes(input);
        let sig = hash::global_signature(op, inputs.as_slice());
        let (cols, rows) = grid_dims(out_size);
        let n = cols * rows;
        let mut tiles: Vec<TileRef<P>> = Vec::new();
        let mut i: u32 = 0;
        while i < n
            invariant
                0 <= i <= n,
                n == tile_count(out_size),
                sig.bytes() == hash::blake3_of(hash::global_preimage(op, tile_hashes(input.tile_refs()))),
                self.cache.wf(),
                same_tiles(self.cache, old(self).cache),
                self.cache.spec_budget() == old(self).cache.spec_budget(),
                self.cache.spec_next_tick() == old(self).cache.spec_next_tick() + i,
                self.cache.spec_next_tick() <= u64::MAX,
                tiles@.len() == i,
                forall|k: int|
                    0 <= k < i ==> (#[trigger] tiles@[k]).hash.bytes() == hash::blake3_of(
                        hash::global_tile_preimage(sig, k as u32),
                    ) && old(self).cache@.contains_key(tiles@[k].hash) && tiles@[k].tile == old(
                        self,
                    ).cache@[tiles@[k].hash].tile && fits_at(*tiles@[k].tile, out_size, k),
            decreases n - i,
        {
            let h = hash::global_tile_hash(sig, i);
            if self.cache.ticks_left() == 0 {
                return (sig, None);
            }
            let ghost before = self.cache;
            let got = self.cache.get(&h);
            proof {
                lemma_get_keeps_tiles(before, self.cache, h);
                lemma_same_tiles_trans(self.cache, before, old(self).cache);
            }
            match got {
                Some(t) => {
                    if !tile_fits_at(&*t, out_size, i) {
                        proof {
                            lemma_not_cached(old(self).cache, sig, out_size, i as int, h);
                        }
                        return (sig, None);
                    }
                    tiles.push(TileRef { hash: h, tile: t });
                },
                None => {
                    proof {
                        lemma_not_cached(old(self).cache, sig, out_size, i as int, h);
                    }
                    return (sig, None);
                },
            }
            i = i + 1;
        }
        proof {
            assert forall|k: int| 0 <= k < tile_count(out_size) implies #[trigger] global_tile_cached(
                old(self).cache,
                sig,
                out_size,
                k,
            ) by {
                assert(old(self).cache@.contains_key(tiles@[k].hash));
            }
        }
        proof {
            assert forall|kk: int| 0 <= kk < tiles@.len() implies crate::tile::tile_fits(
                *(#[trigger] tiles@[kk]).tile,
                out_size,
                (kk % (spec_grid_dims(out_size).0 as int)) as nat,
                (kk / (spec_grid_dims(out_size).0 as int)) as nat,
            ) by {
                assert(fits_at(*tiles@[kk].tile, out_size, kk));
            }
        }
        let img = TiledImage::new(out_size, tiles);
        (sig, Some(img))
    }

    /// Insert every tile of `tiles` under its name.
    fn store(&mut self, tiles: &[TileRef<P>])
        requires
            old(self).wf(),
        ensures
            final(self).wf(),
            final(self).cache().spec_budget() == old(self).cache().spec_budget(),
            has_room(old(self).cache(), tiles@) ==> keeps_and_adds(old(self).cache(), final(self).cache(), tiles@),
            fits_whole(old(self).cache(), tiles@) ==> forall|k: int|
                0 <= k < tiles@.len() ==> final(self).cache()@.contains_key((#[trigger] tiles@[k]).hash),
    {
        let ghost room = has_room(old(self).cache, tiles@);
        let ghost whole = fits_whole(old(self).cache, tiles@);
        let mut i: usize = 0;
        proof {
            assert(tiles@.take(0) =~= Seq::<TileRef<P>>::empty());
            assert forall|g: ContentHash| !named_in(tiles@.take(0), g) by {}
        }
        while i < tiles.len()
            invariant
                0 <= i <= tiles@.len(),
                room == has_room(old(self).cache, tiles@),
                self.cache.wf(),
                self.cache.spec_budget() == old(self).cache.spec_budget(),
                self.cache.spec_next_tick() <= old(self).cache.spec_next_tick() + i,
                room ==> self.cache.spec_bytes() <= old(self).cache.spec_bytes() + tiles_bytes(
                    tiles@.take(i as int),
                ),
                room ==> keeps_and_adds(old(self).cache, self.cache, tiles@.take(i as int)),
                whole == fits_whole(old(self).cache, tiles@),
                whole ==> batch_kept(self.cache, tiles@, i as int),
            decreases tiles@.len() - i,
        {
            let ghost c = self.cache;
            proof {
                lemma_tiles_bytes_prefix(tiles@, i as int);
                lemma_tiles_bytes_prefix(tiles@, i + 1);
                assert(tiles@.take(i + 1) =~= tiles@.take(i as int).push(tiles@[i as int]));
            }
            if self.cache.ticks_left() > 0 {
                let h = tiles[i].hash;
                let t = share(&tiles[i].tile);
                self.cache.insert(h, t);
                proof {
                    if whole {
                        assert(names_sized_alike(c, tiles@));
                        lemma_store_step(c, self.cache, tiles@, i as int, t);
                    }
                    if room {
                        let before = old(self).cache;
                        let pre = tiles@.take(i as int);
                        let post = tiles@.take(i + 1);
                        if c@.contains_key(h) {
                            assert(self.cache@ == c@.insert(
                                h,
                                crate::cache::CacheEntry { tick: c.spec_next_tick() as u64, ..c@[h] },
                            ));
                            assert(self.cache.spec_bytes() == c.spec_bytes());
                        } else {
                            assert(c.spec_bytes() + t.spec_bytes() <= c.spec_budget());
                            assert(self.cache@ == c@.insert(
                                h,
                                crate::cache::CacheEntry {
                                    hash: h,
                                    tile: t,
                                    tick: c.spec_next_tick() as u64,
                                    bytes: t.spec_bytes() as u64,
                                },
                            ));
                        }
                        assert forall|g: ContentHash| #[trigger]
                            before@.contains_key(g) implies self.cache@.contains_key(g) && self.cache@[g].tile
                            == before@[g].tile by {
                            assert(c@.contains_key(g));
                        }
                        assert forall|k: int| 0 <= k < post.len() implies self.cache@.contains_key(
                            (#[trigger] post[k]).hash,
                        ) by {
                            if k < i {
                                assert(post[k] == pre[k]);
                                assert(c@.contains_key(pre[k].hash));
                            }
                        }
                        assert forall|g: ContentHash| #[trigger]
                            self.cache@.contains_key(g) && !before@.contains_key(g) implies exists|j: int|
                            0 <= j < post.len() && (#[trigger] post[j]).hash == g && self.cache@[g].tile
                                == post[j].tile by {
                            if c@.contains_key(g) {
                                let j = choose|j: int|
                                    0 <= j < pre.len() && (#[trigger] pre[j]).hash == g && c@[g].tile
                                        == pre[j].tile;
                                assert(post[j] == pre[j]);
                            } else {
                                assert(g == h);
                                assert(post[i as int] == tiles@[i as int]);
                            }
                        }
                    }
                }
            }
            i = i + 1;
        }
        proof {
            assert(tiles@.take(tiles@.len() as int) =~= tiles@);
            if whole {
                assert(batch_kept(self.cache, tiles@, tiles@.len() as int));
            }
        }
    }

    /// Publish the output of a global step that was computed in full. With
    /// enough recency ticks and bytes left for the whole output, nothing is
    /// evicted: the cache keeps what it held and gains every output tile.
    pub fn publish(&mut self, result: &TiledImage<P>)
        requires
            old(self).wf(),
        ensures
            final(self).wf(),
            final(self).cache().spec_budget() == old(self).cache().spec_budget(),
            has_room(old(self).cache(), result.tile_refs()) ==> keeps_and_adds(
                old(self).cache(),
                final(self).cache(),
                result.tile_refs(),
            ),
            fits_whole(old(self).cache(), result.tile_refs()) ==> forall|k: int|
                0 <= k < result.tile_total() ==> final(self).cache()@.contains_key(#[trigger] result.hash_at(k)),
    {
        self.store(result.tiles());
    }

    /// Number of cached tiles.
    pub fn cached_tiles(&self) -> (n: usize)
        requires
            self.wf(),
        ensures
            n == self.cache()@.len(),
    {
        self.cache.len()
    }
}

} // verus!
