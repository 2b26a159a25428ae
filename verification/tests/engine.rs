use craws::engine::{Elapsed, Engine, NodeStat, RunStats};
use craws::geometry::Size;
use craws::hash::{digest_bytes, global_tile_hash, pointwise_tile_hash, ContentHash};
use craws::ops::crop;
use craws::geometry::Rect;
use craws::tile::{Tile, TiledImage};
use std::sync::Arc;

type Px = [f32; 4];

fn hash_by_index(i: u32) -> ContentHash {
    digest_bytes(&i.to_le_bytes())
}

fn source(w: u32, h: u32, seed: &[u8]) -> TiledImage<Px> {
    let flat: Vec<Px> = (0..w * h).map(|i| [i as f32, 0.0, 0.0, 1.0]).collect();
    TiledImage::from_source(Size::new(w, h), &flat, digest_bytes(seed))
}

/// One pointwise step with a doubling kernel; returns (image, tiles, computed).
fn double_step(engine: &mut Engine<Px>, input: &TiledImage<Px>, op: ContentHash) -> (TiledImage<Px>, u32, u32) {
    let plan = engine.plan_pointwise(input, op);
    let computed: Vec<Arc<Tile<Px>>> = plan
        .misses
        .iter()
        .map(|&i| {
            let t = &input.tiles()[i as usize].tile;
            Arc::new(Tile::new(t.width, t.height, t.px.iter().map(|p| [p[0] * 2.0, p[1], p[2], p[3]]).collect()))
        })
        .collect();
    engine.finish_pointwise(input, plan, computed)
}

#[test]
fn second_pointwise_run_is_fully_cached_and_identical() {
    let mut engine: Engine<Px> = Engine::new();
    let img = source(600, 520, b"src");
    let op = digest_bytes(b"double");
    let (a, n, computed) = double_step(&mut engine, &img, op);
    assert_eq!((n, computed), (9, 9));
    let (b, n2, computed2) = double_step(&mut engine, &img, op);
    assert_eq!((n2, computed2), (9, 0), "everything served from cache");
    assert_eq!(a.to_flat_f32(), b.to_flat_f32());
    assert_eq!(b.pixel(599, 519)[0], 2.0 * (600.0 * 520.0 - 1.0));
    for k in 0..9 {
        assert_eq!(b.tiles()[k].hash, pointwise_tile_hash(op, img.tiles()[k].hash));
    }
    assert_eq!(engine.cached_tiles(), 9);
}

#[test]
fn different_source_never_hits_foreign_cache() {
    let mut engine: Engine<Px> = Engine::new();
    let op = digest_bytes(b"double");
    let (_, _, c1) = double_step(&mut engine, &source(300, 300, b"one"), op);
    let (_, _, c2) = double_step(&mut engine, &source(300, 300, b"two"), op);
    assert_eq!(c1, c2, "both cold");
    assert!(c2 > 0);
}

#[test]
fn tiny_cache_budget_still_correct() {
    let mut engine: Engine<Px> = Engine::with_cache_budget(1);
    let img = source(300, 300, b"src");
    let op = digest_bytes(b"double");
    let (a, _, c1) = double_step(&mut engine, &img, op);
    let (b, _, c2) = double_step(&mut engine, &img, op);
    assert_eq!(c1, c2, "nothing could be cached");
    assert_eq!(a.to_flat_f32(), b.to_flat_f32());
}

#[test]
fn global_step_is_skipped_when_cached() {
    let mut engine: Engine<Px> = Engine::new();
    let img = source(600, 300, b"src");
    let op = digest_bytes(b"crop");
    let out_size = Size::new(300, 150);
    let (sig, cached) = engine.plan_global(&img, out_size, op);
    assert!(cached.is_none(), "cold");
    let result = crop(&img, Rect::new(250, 100, 300, 150), &|i: u32| global_tile_hash(sig, i));
    engine.publish(&result);
    let (sig2, cached) = engine.plan_global(&img, out_size, op);
    assert_eq!(sig, sig2);
    let cached = cached.expect("warm");
    assert_eq!(cached.to_flat_f32(), result.to_flat_f32());
    assert_eq!(cached.tiles()[1].hash, global_tile_hash(sig, 1));
}

#[test]
fn stats_totals() {
    let mut stats = RunStats::new();
    stats.nodes.push(NodeStat { name: "resize", duration: Elapsed::from_millis(3), tiles: 9, computed: 9 });
    stats.nodes.push(NodeStat { name: "grayscale", duration: Elapsed::from_millis(4), tiles: 9, computed: 2 });
    assert_eq!(stats.total_computed(), 11);
    assert_eq!(stats.total_duration(), Elapsed::from_millis(7));
}

#[test]
fn durations_carry_nanoseconds_into_seconds() {
    let mut stats = RunStats::new();
    stats.nodes.push(NodeStat { name: "a", duration: Elapsed { secs: 1, nanos: 600_000_000 }, tiles: 1, computed: 1 });
    stats.nodes.push(NodeStat { name: "b", duration: Elapsed { secs: 2, nanos: 700_000_000 }, tiles: 1, computed: 0 });
    assert_eq!(stats.total_duration(), Elapsed { secs: 4, nanos: 300_000_000 });
    assert_eq!(RunStats::new().total_duration(), Elapsed { secs: 0, nanos: 0 });
}

#[test]
fn storing_with_room_keeps_everything_cached_before() {
    let mut engine: Engine<Px> = Engine::new();
    let img = source(600, 520, b"src");
    let op = digest_bytes(b"double");
    double_step(&mut engine, &img, op);
    assert_eq!(engine.cached_tiles(), 9);
    let out_size = Size::new(300, 150);
    let (sig, _) = engine.plan_global(&img, out_size, digest_bytes(b"crop"));
    let result = crop(&img, Rect::new(250, 100, 300, 150), &|i: u32| global_tile_hash(sig, i));
    engine.publish(&result);
    assert_eq!(engine.cached_tiles(), 9 + 2);
    let (again, _, computed) = double_step(&mut engine, &img, op);
    assert_eq!(computed, 0, "the pointwise tiles survived the publish");
    assert_eq!(again.tiles().len(), 9);
}

#[test]
fn a_full_cache_still_takes_a_new_result_that_fits() {
    // room for about one 300×150 crop (2 tiles); fill it, then publish another
    let img = source(600, 300, b"src");
    let out_size = Size::new(300, 150);
    let one = crop(&img, Rect::new(0, 0, 300, 150), &hash_by_index);
    let budget: u64 = one.tiles().iter().map(|t| t.tile.bytes()).sum();
    let mut engine: Engine<Px> = Engine::with_cache_budget(budget);
    let (sig1, _) = engine.plan_global(&img, out_size, digest_bytes(b"crop-a"));
    let first = crop(&img, Rect::new(0, 0, 300, 150), &|i: u32| global_tile_hash(sig1, i));
    engine.publish(&first);
    let (sig2, _) = engine.plan_global(&img, out_size, digest_bytes(b"crop-b"));
    let second = crop(&img, Rect::new(250, 100, 300, 150), &|i: u32| global_tile_hash(sig2, i));
    engine.publish(&second);
    let (_, cached) = engine.plan_global(&img, out_size, digest_bytes(b"crop-b"));
    assert!(cached.is_some(), "the newest result is cached");
    let (_, older) = engine.plan_global(&img, out_size, digest_bytes(b"crop-a"));
    assert!(older.is_none(), "the older one made room");
}
