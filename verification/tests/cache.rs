use craws::cache::TileCache;
use craws::hash::digest_bytes;
use craws::tile::Tile;
use std::sync::Arc;

fn tile_of_bytes(n: u32) -> Arc<Tile<[f32; 4]>> {
    // n pixels ⇒ 16n bytes
    Arc::new(Tile::solid(n, 1, [0.0, 0.0, 0.0, 1.0]))
}

#[test]
fn hit_and_miss() {
    let mut c = TileCache::new(u64::MAX);
    let h = digest_bytes(b"a");
    assert!(c.get(&h).is_none());
    c.insert(h, tile_of_bytes(1));
    assert!(c.get(&h).is_some());
    assert_eq!(c.len(), 1);
}

#[test]
fn duplicate_insert_does_not_double_count() {
    let mut c = TileCache::new(u64::MAX);
    let h = digest_bytes(b"a");
    c.insert(h, tile_of_bytes(4));
    let bytes = c.bytes();
    c.insert(h, tile_of_bytes(4));
    assert_eq!(c.bytes(), bytes);
    assert_eq!(c.len(), 1);
}

#[test]
fn evicts_least_recently_used_under_budget() {
    // budget fits exactly two 16-byte tiles
    let mut c = TileCache::new(32);
    let (a, b, d) = (digest_bytes(b"a"), digest_bytes(b"b"), digest_bytes(b"d"));
    c.insert(a, tile_of_bytes(1));
    c.insert(b, tile_of_bytes(1));
    assert!(c.get(&a).is_some(), "touch a → b becomes LRU");
    c.insert(d, tile_of_bytes(1));
    assert!(c.get(&b).is_none(), "b evicted");
    assert!(c.get(&a).is_some());
    assert!(c.get(&d).is_some());
    assert!(c.bytes() <= 32);
}

#[test]
fn tile_larger_than_budget_is_not_kept() {
    let mut c = TileCache::new(8);
    let h = digest_bytes(b"big");
    c.insert(h, tile_of_bytes(1));
    assert!(c.get(&h).is_none());
    assert_eq!(c.bytes(), 0);
    assert!(c.is_empty());
}

#[test]
fn hit_returns_the_stored_tile() {
    let mut c = TileCache::new(u64::MAX);
    let h = digest_bytes(b"t");
    let t = Arc::new(Tile::solid(2, 3, [0.5f32, 0.25, 0.0, 1.0]));
    c.insert(h, t.clone());
    let got = c.get(&h).unwrap();
    assert!(Arc::ptr_eq(&got, &t));
    assert_eq!(c.bytes(), 6 * 16);
}

#[test]
fn eviction_stops_as_soon_as_the_new_entry_fits() {
    // budget 100 pixels' worth; a 60, b 10, c 20, then d 30 needs only `a` out
    let px = 16;
    let mut c = TileCache::new(100 * px);
    let (a, b, cc, d) = (digest_bytes(b"a"), digest_bytes(b"b"), digest_bytes(b"c"), digest_bytes(b"d"));
    c.insert(a, tile_of_bytes(60));
    c.insert(b, tile_of_bytes(10));
    c.insert(cc, tile_of_bytes(20));
    c.insert(d, tile_of_bytes(30));
    assert_eq!(c.len(), 3);
    assert_eq!(c.bytes(), 60 * px);
    assert!(c.get(&a).is_none());
    assert!(c.get(&b).is_some() && c.get(&cc).is_some() && c.get(&d).is_some());
}
