//! In-memory tile cache: content-hash → tile, LRU-evicted under a byte budget.
//!
//! Correctness never depends on the cache — evicting everything only costs
//! recomputation. Each entry carries the tick of its last use; eviction drops
//! the entries with the oldest ticks until the byte total fits the budget.

use vstd::prelude::*;

use crate::hash::ContentHash;
use crate::tile::{share, Tile, TileRef};
use std::sync::Arc;

verus! {

/// One cached tile with its recency tick and byte footprint.
pub struct CacheEntry<P> {
    pub hash: ContentHash,
    pub tile: Arc<Tile<P>>,
    pub tick: u64,
    pub bytes: u64,
}

/// Entries keyed by their hash (later entries win, which never matters since
/// hashes are distinct).
pub open spec fn entry_map<P>(s: Seq<CacheEntry<P>>) -> Map<ContentHash, CacheEntry<P>>
    decreases s.len(),
{
    if s.len() == 0 {
        Map::empty()
    } else {
        entry_map(s.drop_last()).insert(s.last().hash, s.last())
    }
}

/// Sum of the entries' byte footprints.
pub open spec fn total_bytes<P>(s: Seq<CacheEntry<P>>) -> nat
    decreases s.len(),
{
    if s.len() == 0 {
        0
    } else {
        total_bytes(s.drop_last()) + s.last().bytes as nat
    }
}

pub open spec fn distinct_hashes<P>(s: Seq<CacheEntry<P>>) -> bool {
    forall|i: int, j: int| 0 <= i < s.len() && 0 <= j < s.len() && i != j ==> s[i].hash != s[j].hash
}

pub open spec fn distinct_ticks<P>(s: Seq<CacheEntry<P>>) -> bool {
    forall|i: int, j: int| 0 <= i < s.len() && 0 <= j < s.len() && i != j ==> s[i].tick != s[j].tick
}

proof fn lemma_map_contains<P>(s: Seq<CacheEntry<P>>, i: int)
    requires
        0 <= i < s.len(),
        distinct_hashes(s),
    ensures
        entry_map(s).contains_key(s[i].hash),
        entry_map(s)[s[i].hash] == s[i],
    decreases s.len(),
{
    if i < s.len() - 1 {
        lemma_map_contains(s.drop_last(), i);
    }
}

proof fn lemma_map_dom<P>(s: Seq<CacheEntry<P>>, h: ContentHash)
    ensures
        entry_map(s).contains_key(h) <==> exists|i: int| 0 <= i < s.len() && s[i].hash == h,
    decreases s.len(),
{
    if s.len() > 0 {
        lemma_map_dom(s.drop_last(), h);
        if entry_map(s.drop_last()).contains_key(h) {
            let i = choose|i: int| 0 <= i < s.drop_last().len() && s.drop_last()[i].hash == h;
            assert(s[i].hash == h);
        }
        if exists|i: int| 0 <= i < s.len() && s[i].hash == h {
            let i = choose|i: int| 0 <= i < s.len() && s[i].hash == h;
            if i < s.len() - 1 {
                assert(s.drop_last()[i].hash == h);
            }
        }
    }
}

proof fn lemma_map_push<P>(s: Seq<CacheEntry<P>>, e: CacheEntry<P>)
    ensures
        entry_map(s.push(e)) == entry_map(s).insert(e.hash, e),
{
    assert(s.push(e).drop_last() =~= s);
}

proof fn lemma_map_remove<P>(s: Seq<CacheEntry<P>>, i: int)
    requires
        0 <= i < s.len(),
        distinct_hashes(s),
    ensures
        entry_map(s.remove(i)) == entry_map(s).remove(s[i].hash),
    decreases s.len(),
{
    if i == s.len() - 1 {
        assert(s.remove(i) =~= s.drop_last());
        lemma_map_dom(s.drop_last(), s[i].hash);
        assert(!entry_map(s.drop_last()).contains_key(s[i].hash));
        assert(entry_map(s).remove(s[i].hash) =~= entry_map(s.drop_last()));
    } else {
        lemma_map_remove(s.drop_last(), i);
        assert(s.remove(i).drop_last() =~= s.drop_last().remove(i));
        assert(s.remove(i).last() == s.last());
        assert(s.last().hash != s[i].hash);
        assert(entry_map(s.remove(i)) =~= entry_map(s).remove(s[i].hash));
    }
}

proof fn lemma_map_update<P>(s: Seq<CacheEntry<P>>, i: int, e: CacheEntry<P>)
    requires
        0 <= i < s.len(),
        distinct_hashes(s),
        e.hash == s[i].hash,
    ensures
        entry_map(s.update(i, e)) == entry_map(s).insert(e.hash, e),
    decreases s.len(),
{
    if i == s.len() - 1 {
        assert(s.update(i, e).drop_last() =~= s.drop_last());
        assert(entry_map(s.update(i, e)) =~= entry_map(s).insert(e.hash, e));
    } else {
        lemma_map_update(s.drop_last(), i, e);
        assert(s.update(i, e).drop_last() =~= s.drop_last().update(i, e));
        assert(s.last().hash != e.hash);
        assert(entry_map(s.update(i, e)) =~= entry_map(s).insert(e.hash, e));
    }
}

proof fn lemma_total_remove<P>(s: Seq<CacheEntry<P>>, i: int)
    requires
        0 <= i < s.len(),
    ensures
        total_bytes(s.remove(i)) + s[i].bytes == total_bytes(s),
    decreases s.len(),
{
    if i == s.len() - 1 {
        assert(s.remove(i) =~= s.drop_last());
    } else {
        lemma_total_remove(s.drop_last(), i);
        assert(s.remove(i).drop_last() =~= s.drop_last().remove(i));
    }
}

proof fn lemma_total_update<P>(s: Seq<CacheEntry<P>>, i: int, e: CacheEntry<P>)
    requires
        0 <= i < s.len(),
        e.bytes == s[i].bytes,
    ensures
        total_bytes(s.update(i, e)) == total_bytes(s),
    decreases s.len(),
{
    if i == s.len() - 1 {
        assert(s.update(i, e).drop_last() =~= s.drop_last());
    } else {
        lemma_total_update(s.drop_last(), i, e);
        assert(s.update(i, e).drop_last() =~= s.drop_last().update(i, e));
    }
}

proof fn lemma_total_ge<P>(s: Seq<CacheEntry<P>>, i: int)
    requires
        0 <= i < s.len(),
    ensures
        s[i].bytes <= total_bytes(s),
    decreases s.len(),
{
    if i < s.len() - 1 {
        lemma_total_ge(s.drop_last(), i);
    }
}

/// Total byte footprint of `tiles`.
pub open spec fn tiles_bytes<P>(tiles: Seq<TileRef<P>>) -> nat
    decreases tiles.len(),
{
    if tiles.len() == 0 {
        0
    } else {
        tiles_bytes(tiles.drop_last()) + tiles.last().tile.spec_bytes()
    }
}

/// Some tile of `tiles` carries the name `h`.
pub open spec fn named_in<P>(tiles: Seq<TileRef<P>>, h: ContentHash) -> bool {
    exists|k: int| 0 <= k < tiles.len() && (#[trigger] tiles[k]).hash == h
}

/// `e` has the byte size of every tile of `tiles` that carries its name.
pub open spec fn sized_as_named<P>(e: CacheEntry<P>, tiles: Seq<TileRef<P>>) -> bool {
    forall|k: int|
        0 <= k < tiles.len() && (#[trigger] tiles[k]).hash == e.hash ==> e.bytes == tiles[k].tile.spec_bytes()
}

proof fn lemma_seq_bytes_bound<P>(s: Seq<CacheEntry<P>>, t: Seq<TileRef<P>>)
    requires
        distinct_hashes(s),
        forall|m: int| 0 <= m < s.len() ==> named_in(t, (#[trigger] s[m]).hash) && sized_as_named(s[m], t),
    ensures
        total_bytes(s) <= tiles_bytes(t),
    decreases t.len(),
{
    if t.len() == 0 {
        if s.len() > 0 {
            assert(named_in(t, s[0].hash));
        }
    } else {
        let last = t.last();
        let d = t.drop_last();
        if exists|m: int| 0 <= m < s.len() && s[m].hash == last.hash {
            let m = choose|m: int| 0 <= m < s.len() && s[m].hash == last.hash;
            let s2 = s.remove(m);
            lemma_total_remove(s, m);
            assert(sized_as_named(s[m], t));
            assert(t[t.len() - 1] == last);
            assert(s[m].bytes == last.tile.spec_bytes());
            assert forall|a: int| 0 <= a < s2.len() implies named_in(d, (#[trigger] s2[a]).hash)
                && sized_as_named(s2[a], d) by {
                let a0 = if a < m { a } else { a + 1 };
                assert(s2[a] == s[a0]);
                assert(named_in(t, s[a0].hash));
                let k = choose|k: int| 0 <= k < t.len() && (#[trigger] t[k]).hash == s[a0].hash;
                assert(s[a0].hash != s[m].hash);
                assert(k != t.len() - 1);
                assert(d[k] == t[k]);
                assert forall|k2: int| 0 <= k2 < d.len() && (#[trigger] d[k2]).hash == s2[a].hash implies s2[a].bytes
                    == d[k2].tile.spec_bytes() by {
                    assert(d[k2] == t[k2]);
                }
            }
            assert(distinct_hashes(s2)) by {
                assert forall|x: int, y: int| 0 <= x < s2.len() && 0 <= y < s2.len() && x != y implies s2[x].hash
                    != s2[y].hash by {
                    let x0 = if x < m { x } else { x + 1 };
                    let y0 = if y < m { y } else { y + 1 };
                    assert(s2[x] == s[x0] && s2[y] == s[y0]);
                }
            }
            lemma_seq_bytes_bound(s2, d);
        } else {
            assert forall|a: int| 0 <= a < s.len() implies named_in(d, (#[trigger] s[a]).hash)
                && sized_as_named(s[a], d) by {
                assert(named_in(t, s[a].hash));
                let k = choose|k: int| 0 <= k < t.len() && (#[trigger] t[k]).hash == s[a].hash;
                assert(k != t.len() - 1);
                assert(d[k] == t[k]);
                assert forall|k2: int| 0 <= k2 < d.len() && (#[trigger] d[k2]).hash == s[a].hash implies s[a].bytes
                    == d[k2].tile.spec_bytes() by {
                    assert(d[k2] == t[k2]);
                    assert(sized_as_named(s[a], t));
                }
            }
            lemma_seq_bytes_bound(s, d);
        }
    }
}

/// LRU tile cache under a byte budget.
///
/// Entries are kept in a vector, each stamped with the tick of its last use.
/// Lookup by content hash scans the vector: a `HashMap` keyed by the 32-byte
/// `ContentHash` gets no specification from vstd that a proof can use. With
/// the recency carried on each entry, the least recently used one is the
/// entry with the lowest tick, so the ticks on the entries are the whole
/// recency order and no separate index of ticks is kept.
pub struct TileCache<P> {
    entries: Vec<CacheEntry<P>>,
    next_tick: u64,
    bytes: u64,
    budget: u64,
}

impl<P> TileCache<P> {
    /// The cached entries, keyed by hash.
    pub closed spec fn view(&self) -> Map<ContentHash, CacheEntry<P>> {
        entry_map(self.entries@)
    }

    pub closed spec fn spec_bytes(&self) -> nat {
        self.bytes as nat
    }

    pub closed spec fn spec_budget(&self) -> nat {
        self.budget as nat
    }

    /// The tick the next use will be stamped with.
    pub closed spec fn spec_next_tick(&self) -> nat {
        self.next_tick as nat
    }

    pub closed spec fn wf(&self) -> bool {
        &&& distinct_hashes(self.entries@)
        &&& distinct_ticks(self.entries@)
        &&& forall|i: int|
            0 <= i < self.entries@.len() ==> (#[trigger] self.entries@[i]).tick < self.next_tick
        &&& forall|i: int|
            0 <= i < self.entries@.len() ==> (#[trigger] self.entries@[i]).bytes
                == self.entries@[i].tile.spec_bytes()
        &&& total_bytes(self.entries@) == self.bytes
        &&& self.bytes <= self.budget
    }

    /// The entries in storage order.
    pub closed spec fn entries(&self) -> Seq<CacheEntry<P>> {
        self.entries@
    }

    pub proof fn lemma_wf_view(&self)
        requires
            self.wf(),
        ensures
            self@ == entry_map(self.entries()),
            distinct_hashes(self.entries()),
            self.spec_bytes() == total_bytes(self.entries()),
            forall|h: ContentHash| #[trigger]
                self@.contains_key(h) ==> self@[h].hash == h && self@[h].tick
                    < self.spec_next_tick() && self@[h].bytes == self@[h].tile.spec_bytes()
                    && self@[h].bytes <= self.spec_bytes(),
            forall|h: ContentHash, g: ContentHash|
                self@.contains_key(h) && self@.contains_key(g) && h != g ==> #[trigger] self@[h].tick
                    != #[trigger] self@[g].tick,
            self.spec_bytes() <= self.spec_budget(),
    {
        assert forall|h: ContentHash| #[trigger]
            self@.contains_key(h) implies self@[h].hash == h && self@[h].tick < self.spec_next_tick()
            && self@[h].bytes == self@[h].tile.spec_bytes() && self@[h].bytes
            <= self.spec_bytes() by {
            lemma_map_dom(self.entries@, h);
            let i = choose|i: int| 0 <= i < self.entries@.len() && self.entries@[i].hash == h;
            lemma_map_contains(self.entries@, i);
            lemma_total_ge(self.entries@, i);
        }
        assert forall|h: ContentHash, g: ContentHash|
            self@.contains_key(h) && self@.contains_key(g) && h != g implies #[trigger] self@[h].tick
            != #[trigger] self@[g].tick by {
            lemma_map_dom(self.entries@, h);
            lemma_map_dom(self.entries@, g);
            let i = choose|i: int| 0 <= i < self.entries@.len() && self.entries@[i].hash == h;
            let j = choose|j: int| 0 <= j < self.entries@.len() && self.entries@[j].hash == g;
            lemma_map_contains(self.entries@, i);
            lemma_map_contains(self.entries@, j);
        }
    }

    /// The recency counter is a `u64`.
    pub proof fn lemma_tick_bound(&self)
        ensures
            self.spec_next_tick() <= u64::MAX,
    {
    }

    /// The bytes cached, plus those of one more entry `extra` that is not
    /// cached, are at most the total of `tiles` when every one of those entries
    /// is under a name of `tiles` and has the byte size of the tiles carrying
    /// that name.
    pub proof fn lemma_named_bytes_bound(&self, extra: CacheEntry<P>, tiles: Seq<TileRef<P>>)
        requires
            self.wf(),
            !self@.contains_key(extra.hash),
            named_in(tiles, extra.hash),
            sized_as_named(extra, tiles),
            forall|h: ContentHash| #[trigger]
                self@.contains_key(h) ==> named_in(tiles, h) && sized_as_named(self@[h], tiles),
        ensures
            self.spec_bytes() + extra.bytes <= tiles_bytes(tiles),
    {
        let es = self.entries@;
        let s = es.push(extra);
        assert forall|m: int| 0 <= m < s.len() implies named_in(tiles, (#[trigger] s[m]).hash)
            && sized_as_named(s[m], tiles) by {
            if m < es.len() {
                assert(s[m] == es[m]);
                lemma_map_contains(es, m);
                assert(self@.contains_key(es[m].hash));
            }
        }
        assert(distinct_hashes(s)) by {
            assert forall|x: int, y: int| 0 <= x < s.len() && 0 <= y < s.len() && x != y implies s[x].hash
                != s[y].hash by {
                if x < es.len() && y < es.len() {
                    assert(s[x] == es[x] && s[y] == es[y]);
                } else if x < es.len() {
                    lemma_map_contains(es, x);
                    assert(s[x] == es[x]);
                } else if y < es.len() {
                    lemma_map_contains(es, y);
                    assert(s[y] == es[y]);
                }
            }
        }
        assert(s.drop_last() =~= es);
        lemma_seq_bytes_bound(s, tiles);
    }

    /// How many more uses (lookups and inserts) the recency counter can stamp.
    pub fn ticks_left(&self) -> (n: u64)
        ensures
            n == u64::MAX - self.spec_next_tick(),
    {
        u64::MAX - self.next_tick
    }

    pub fn new(budget_bytes: u64) -> (c: Self)
        ensures
            c.wf(),
            c@ == Map::<ContentHash, CacheEntry<P>>::empty(),
            c.spec_bytes() == 0,
            c.spec_budget() == budget_bytes,
            c.spec_next_tick() == 0,
    {
        TileCache { entries: Vec::new(), next_tick: 0, bytes: 0, budget: budget_bytes }
    }

    pub fn len(&self) -> (n: usize)
        requires
            self.wf(),
        ensures
            n == self@.len(),
    {
        proof {
            self.lemma_len();
        }
        self.entries.len()
    }

    pub fn is_empty(&self) -> (b: bool)
        requires
            self.wf(),
        ensures
            b == (self@.len() == 0),
    {
        proof {
            self.lemma_len();
        }
        self.entries.len() == 0
    }

    proof fn lemma_len(&self)
        requires
            self.wf(),
        ensures
            self@.len() == self.entries@.len(),
    {
        lemma_map_len(self.entries@);
    }

    pub fn bytes(&self) -> (b: u64)
        ensures
            b == self.spec_bytes(),
    {
        self.bytes
    }

    /// Position of `hash` among the entries, if cached.
    fn find(&self, hash: &ContentHash) -> (r: Option<usize>)
        requires
            self.wf(),
        ensures
            match r {
                Some(i) => i < self.entries@.len() && self.entries@[i as int].hash == *hash,
                None => !self@.contains_key(*hash),
            },
    {
        let mut i: usize = 0;
        while i < self.entries.len()
            invariant
                0 <= i <= self.entries@.len(),
                forall|j: int| 0 <= j < i ==> self.entries@[j].hash != *hash,
            decreases self.entries@.len() - i,
        {
            if self.entries[i].hash == *hash {
                proof {
                    crate::hash::lemma_hash_eq(self.entries@[i as int].hash, *hash);
                }
                return Some(i);
            }
            i = i + 1;
        }
        proof {
            lemma_map_dom(self.entries@, *hash);
        }
        None
    }

    /// Stamp entry `i` with the next tick.
    fn touch(&mut self, i: usize)
        requires
            old(self).wf(),
            i < old(self).entries@.len(),
            old(self).next_tick < u64::MAX,
        ensures
            final(self).wf(),
            final(self).entries@ == old(self).entries@.update(
                i as int,
                CacheEntry { tick: old(self).next_tick, ..old(self).entries@[i as int] },
            ),
            final(self).next_tick == old(self).next_tick + 1,
            final(self).bytes == old(self).bytes,
            final(self).budget == old(self).budget,
    {
        let tick = self.next_tick;
        self.next_tick = self.next_tick + 1;
        let e = &self.entries[i];
        let fresh = CacheEntry { hash: e.hash, tile: share(&e.tile), tick, bytes: e.bytes };
        let ghost before = self.entries@;
        self.entries.set(i, fresh);
        proof {
            lemma_total_update(before, i as int, fresh);
            assert(self.entries@ =~= before.update(i as int, fresh));
        }
    }

    /// Look a tile up, marking it as just used.
    pub fn get(&mut self, hash: &ContentHash) -> (r: Option<Arc<Tile<P>>>)
        requires
            old(self).wf(),
            old(self).spec_next_tick() < u64::MAX,
        ensures
            final(self).wf(),
            r == if old(self)@.contains_key(*hash) {
                Some(old(self)@[*hash].tile)
            } else {
                None::<Arc<Tile<P>>>
            },
            final(self)@ == if old(self)@.contains_key(*hash) {
                old(self)@.insert(
                    *hash,
                    CacheEntry { tick: old(self).spec_next_tick() as u64, ..old(self)@[*hash] },
                )
            } else {
                old(self)@
            },
            final(self).spec_next_tick() == old(self).spec_next_tick() + 1,
            final(self).spec_bytes() == old(self).spec_bytes(),
            final(self).spec_budget() == old(self).spec_budget(),
    {
        match self.find(hash) {
            Some(i) => {
                let ghost before = self.entries@;
                self.touch(i);
                proof {
                    lemma_map_contains(before, i as int);
                    lemma_map_update(
                        before,
                        i as int,
                        CacheEntry { tick: old(self).next_tick, ..before[i as int] },
                    );
                }
                Some(share(&self.entries[i].tile))
            },
            None => {
                self.next_tick = self.next_tick + 1;
                None
            },
        }
    }

    /// Position of the least recently used entry.
    fn oldest(&self) -> (i: usize)
        requires
            self.entries@.len() > 0,
        ensures
            i < self.entries@.len(),
            forall|j: int|
                0 <= j < self.entries@.len() ==> self.entries@[i as int].tick
                    <= #[trigger] self.entries@[j].tick,
    {
        let mut best: usize = 0;
        let mut i: usize = 1;
        while i < self.entries.len()
            invariant
                1 <= i <= self.entries@.len(),
                best < i,
                forall|j: int|
                    0 <= j < i ==> self.entries@[best as int].tick <= #[trigger] self.entries@[j].tick,
            decreases self.entries@.len() - i,
        {
            if self.entries[i].tick < self.entries[best].tick {
                best = i;
            }
            i = i + 1;
        }
        best
    }

    /// Insert a tile under its content hash. A hash already present only has its
    /// recency refreshed (same hash, same content). A new entry may evict the
    /// least recently used entries until the byte total fits the budget; the
    /// new entry is the most recent, so it survives unless it alone exceeds the
    /// budget.
    pub fn insert(&mut self, hash: ContentHash, tile: Arc<Tile<P>>)
        requires
            old(self).wf(),
            old(self).spec_next_tick() < u64::MAX,
        ensures
            final(self).wf(),
            final(self).spec_next_tick() == old(self).spec_next_tick() + 1,
            final(self).spec_budget() == old(self).spec_budget(),
            old(self)@.contains_key(hash) ==> {
                &&& final(self)@ == old(self)@.insert(
                    hash,
                    CacheEntry { tick: old(self).spec_next_tick() as u64, ..old(self)@[hash] },
                )
                &&& final(self)@.dom() == old(self)@.dom()
                &&& final(self)@[hash].tile == old(self)@[hash].tile
                &&& final(self).spec_bytes() == old(self).spec_bytes()
            },
            !old(self)@.contains_key(hash) ==> evicted_lru(
                old(self)@.insert(
                    hash,
                    CacheEntry {
                        hash,
                        tile,
                        tick: old(self).spec_next_tick() as u64,
                        bytes: tile.spec_bytes() as u64,
                    },
                ),
                final(self)@,
                final(self).spec_bytes(),
                final(self).spec_budget(),
            ),
            !old(self)@.contains_key(hash) && tile.spec_bytes() <= old(self).spec_budget()
                ==> final(self)@.contains_key(hash) && final(self)@[hash].tile == tile,
            !old(self)@.contains_key(hash) ==> (final(self)@.contains_key(hash) <==> tile.spec_bytes()
                <= old(self).spec_budget()),
            !old(self)@.contains_key(hash) && old(self).spec_bytes() + tile.spec_bytes()
                <= old(self).spec_budget() ==> {
                &&& final(self)@ == old(self)@.insert(
                    hash,
                    CacheEntry {
                        hash,
                        tile,
                        tick: old(self).spec_next_tick() as u64,
                        bytes: tile.spec_bytes() as u64,
                    },
                )
                &&& final(self).spec_bytes() == old(self).spec_bytes() + tile.spec_bytes()
            },
    {
        match self.find(&hash) {
            Some(i) => {
                let ghost before = self.entries@;
                self.touch(i);
                proof {
                    lemma_map_contains(before, i as int);
                    lemma_map_update(
                        before,
                        i as int,
                        CacheEntry { tick: old(self).next_tick, ..before[i as int] },
                    );
                }
                return ;
            },
            None => {},
        }
        let tick = self.next_tick;
        self.next_tick = self.next_tick + 1;
        let bytes = tile.bytes();
        let entry = CacheEntry { hash, tile, tick, bytes };
        let ghost before = self.entries@;
        proof {
            old(self).lemma_wf_view();
        }
        self.entries.push(entry);
        proof {
            lemma_map_push(before, entry);
            assert(self.entries@ == before.push(entry));
            assert(self.entries@.drop_last() =~= before);
            lemma_map_dom(before, hash);
            assert(distinct_hashes(self.entries@));
            assert(distinct_ticks(self.entries@));
        }
        // the running total may exceed u64 before eviction; count it wider
        let mut total: u128 = self.bytes as u128 + bytes as u128;
        let ghost full = entry_map(self.entries@);
        let ghost mut last_out: Option<CacheEntry<P>> = None;
        let ghost initial = total;
        while total > self.budget as u128
            invariant
                last_out is None ==> total == initial,
                initial <= self.budget ==> last_out is None,
                distinct_hashes(self.entries@),
                distinct_ticks(self.entries@),
                forall|i: int|
                    0 <= i < self.entries@.len() ==> (#[trigger] self.entries@[i]).tick
                        < self.next_tick,
                forall|i: int|
                    0 <= i < self.entries@.len() ==> (#[trigger] self.entries@[i]).bytes
                        == self.entries@[i].tile.spec_bytes(),
                total_bytes(self.entries@) == total,
                entry_map(self.entries@).submap_of(full),
                forall|h: ContentHash|
                    full.contains_key(h) && !entry_map(self.entries@).contains_key(h)
                        ==> forall|g: ContentHash| #[trigger]
                        entry_map(self.entries@).contains_key(g) ==> full[h].tick < full[g].tick,
                last_out is None ==> entry_map(self.entries@) == full,
                last_out matches Some(e) ==> full.contains_key(e.hash) && full[e.hash] == e
                    && !entry_map(self.entries@).contains_key(e.hash) && total + e.bytes
                    > self.budget,
                last_out matches Some(e) ==> forall|g: ContentHash|
                    full.contains_key(g) && !entry_map(self.entries@).contains_key(g)
                        ==> #[trigger] full[g].tick <= e.tick,
                self.next_tick == tick + 1,
                self.budget == old(self).budget,
            ensures
                total <= self.budget,
            decreases self.entries@.len(),
        {
            let ghost cur = self.entries@;
            if self.entries.len() == 0 {
                proof {
                    assert(total_bytes(self.entries@) == 0);
                }
                break;
            }
            let i = self.oldest();
            let e = self.entries.remove(i);
            proof {
                lemma_total_remove(cur, i as int);
                lemma_map_remove(cur, i as int);
                lemma_map_contains(cur, i as int);
                assert(self.entries@ == cur.remove(i as int));
                assert(e == cur[i as int]);
                assert(distinct_hashes(self.entries@));
                assert(distinct_ticks(self.entries@));
                let after = entry_map(self.entries@);
                assert(entry_map(cur).contains_key(e.hash));
                assert(full.contains_key(e.hash));
                assert(full[e.hash] == entry_map(cur)[e.hash]);
                assert(full.contains_key(e.hash) && full[e.hash] == e);
                assert forall|h: ContentHash|
                    full.contains_key(h) && !after.contains_key(h) implies forall|g: ContentHash| #[trigger]
                    after.contains_key(g) ==> full[h].tick < full[g].tick by {
                    assert forall|g: ContentHash| #[trigger] after.contains_key(g) implies full[h].tick
                        < full[g].tick by {
                        lemma_map_dom(cur, g);
                        let j = choose|j: int| 0 <= j < cur.len() && cur[j].hash == g;
                        lemma_map_contains(cur, j);
                        assert(j != i);
                        assert(entry_map(cur).contains_key(g));
                        assert(full.contains_key(g));
                        assert(full[g] == entry_map(cur)[g]);
                        assert(full[g] == cur[j]);
                        if entry_map(cur).contains_key(h) {
                            assert(h == e.hash);
                            assert(cur[i as int].tick <= cur[j].tick);
                        }
                    }
                }
                last_out = Some(e);
            }
            total = total - e.bytes as u128;
        }
        self.bytes = total as u64;
        proof {
            self.lemma_wf_view();
            let fin = entry_map(self.entries@);
            assert(full == old(self)@.insert(hash, entry));
            if fin != full {
                assert(last_out is Some);
            }
            if fin.contains_key(hash) {
                assert(full.contains_key(hash));
                assert(fin[hash] == full[hash]);
            }
            // the new entry holds the newest tick, so it is the last to go
            if tile.spec_bytes() <= self.budget && !fin.contains_key(hash) {
                assert(last_out is Some);
                let e = last_out->Some_0;
                if exists|g: ContentHash| fin.contains_key(g) {
                    let g = choose|g: ContentHash| fin.contains_key(g);
                    assert(full.contains_key(hash));
                    assert(full.contains_key(g));
                    assert(full[hash].tick < full[g].tick);
                    assert(g != hash);
                    assert(old(self)@.contains_key(g));
                    assert(false);
                } else {
                    lemma_map_empty(self.entries@);
                    assert(total == 0);
                    if e.hash != hash {
                        assert(old(self)@.contains_key(e.hash));
                    }
                    assert(false);
                }
            }
        }
    }
}

proof fn lemma_map_len<P>(s: Seq<CacheEntry<P>>)
    requires
        distinct_hashes(s),
    ensures
        entry_map(s).len() == s.len(),
        entry_map(s).dom().finite(),
    decreases s.len(),
{
    if s.len() > 0 {
        lemma_map_len(s.drop_last());
        lemma_map_dom(s.drop_last(), s.last().hash);
    }
}

proof fn lemma_map_empty<P>(s: Seq<CacheEntry<P>>)
    requires
        forall|g: ContentHash| !entry_map(s).contains_key(g),
    ensures
        s.len() == 0,
        total_bytes(s) == 0,
{
    if s.len() > 0 {
        lemma_map_dom(s, s[0].hash);
    }
}

/// `kept` is what remains of `full` after LRU eviction to fit `budget`: it keeps
/// a subset of the entries, every dropped entry is older than every kept one,
/// the kept bytes fit the budget, and if anything was dropped, keeping the most
/// recently used of the dropped entries as well would not have fit.
pub open spec fn evicted_lru<P>(
    full: Map<ContentHash, CacheEntry<P>>,
    kept: Map<ContentHash, CacheEntry<P>>,
    kept_bytes: nat,
    budget: nat,
) -> bool {
    &&& kept.submap_of(full)
    &&& kept_bytes <= budget
    &&& forall|h: ContentHash|
        full.contains_key(h) && !kept.contains_key(h) ==> forall|g: ContentHash| #[trigger]
            kept.contains_key(g) ==> full[h].tick < full[g].tick
    &&& kept != full ==> exists|h: ContentHash|
        {
            &&& full.contains_key(h)
            &&& !kept.contains_key(h)
            &&& kept_bytes + full[h].bytes > budget
            &&& forall|g: ContentHash|
                full.contains_key(g) && !kept.contains_key(g) ==> #[trigger] full[g].tick <= full[h].tick
        }
}

} // verus!
