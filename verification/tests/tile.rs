use craws::geometry::Size;
use craws::hash::{digest_bytes, source_tile_hash};
use craws::tile::{grid_dims, tile_dims, Tile, TiledImage};

#[test]
fn grid_math_covers_edges() {
    assert_eq!(grid_dims(Size::new(256, 256)), (1, 1));
    assert_eq!(grid_dims(Size::new(257, 256)), (2, 1));
    assert_eq!(grid_dims(Size::new(1, 1)), (1, 1));
    assert_eq!(tile_dims(Size::new(300, 520), 1, 2), (300 - 256, 520 - 512));
}

#[test]
fn flat_roundtrip_and_pixel_access() {
    let size = Size::new(520, 300);
    let flat: Vec<[f32; 4]> = (0..size.area() as usize)
        .map(|p| {
            let i = p * 4;
            [
                (i % 977) as f32 / 976.0,
                ((i + 1) % 977) as f32 / 976.0,
                ((i + 2) % 977) as f32 / 976.0,
                ((i + 3) % 977) as f32 / 976.0,
            ]
        })
        .collect();
    let img = TiledImage::from_flat_f32(size, &flat, &|i: u32| digest_bytes(&i.to_le_bytes()));
    assert_eq!(img.to_flat_f32(), flat);
    // pixel() agrees with the flat layout across tile boundaries
    let (x, y) = (511, 299);
    assert_eq!(img.pixel(x, y), flat[y as usize * size.width as usize + x as usize]);
}

#[test]
fn source_tiles_have_distinct_stable_hashes() {
    let size = Size::new(300, 300);
    let flat = vec![[1.0f32, 1.0, 1.0, 1.0]; size.area() as usize];
    let a = TiledImage::from_source(size, &flat, digest_bytes(b"src"));
    let b = TiledImage::from_source(size, &flat, digest_bytes(b"src"));
    assert_eq!(a.tiles()[0].hash, b.tiles()[0].hash, "same source ⇒ same identity");
    assert_ne!(a.tiles()[0].hash, a.tiles()[1].hash, "different tiles differ");
    let c = TiledImage::from_source(size, &flat, digest_bytes(b"other"));
    assert_ne!(a.tiles()[0].hash, c.tiles()[0].hash, "different source ⇒ different identity");
    assert_eq!(a.tiles()[3].hash, source_tile_hash(digest_bytes(b"src"), 3));
}

#[test]
fn grid_layout_and_tile_sizes() {
    let img = TiledImage::from_flat_f32(Size::new(300, 520), &vec![0u8; 300 * 520], &|i: u32| digest_bytes(&i.to_le_bytes()));
    assert_eq!(img.grid(), (2, 3));
    assert_eq!(img.tiles().len(), 6);
    let t = &img.tile_at(1, 2).tile;
    assert_eq!((t.width, t.height), (44, 8));
    assert_eq!(t.px.len(), 44 * 8);
}

#[test]
fn tile_bytes_and_solid() {
    let t = Tile::solid(3, 2, [0.0f32; 4]);
    assert_eq!(t.px.len(), 6);
    assert_eq!(t.bytes(), 6 * 16);
    let u = Tile::new(1, 1, vec![7u8]);
    assert_eq!(u.bytes(), 1);
}
