use craws::compose::overlay;
use craws::geometry::Size;
use craws::hash::{digest_bytes, ContentHash};
use craws::tile::TiledImage;
use std::sync::Arc;

type Px = [f32; 4];

fn hash_by_index(i: u32) -> ContentHash {
    digest_bytes(&i.to_le_bytes())
}

fn solid(w: u32, h: u32, rgba: Px) -> TiledImage<Px> {
    let flat = vec![rgba; (w * h) as usize];
    TiledImage::from_flat_f32(Size::new(w, h), &flat, &hash_by_index)
}

/// Source-over in premultiplied light with a constant opacity.
fn over(opacity: f32) -> impl Fn(Px, Px) -> Px {
    move |s: Px, d: Px| {
        let a = s[3] * opacity;
        if a <= 0.0 {
            return d;
        }
        let inv = 1.0 - a;
        [s[0] * opacity + d[0] * inv, s[1] * opacity + d[1] * inv, s[2] * opacity + d[2] * inv, a + d[3] * inv]
    }
}

#[test]
fn overlay_places_top_at_offset() {
    let base = solid(300, 300, [0.0, 0.0, 0.0, 1.0]);
    let top = solid(100, 80, [1.0, 0.0, 0.0, 1.0]);
    let out = overlay(&base, &top, 50, 40, &over(1.0), &hash_by_index);
    assert_eq!(out.pixel(60, 50), [1.0, 0.0, 0.0, 1.0], "inside the overlay");
    assert_eq!(out.pixel(10, 10), [0.0, 0.0, 0.0, 1.0], "outside stays base");
    assert_eq!(out.size(), Size::new(300, 300), "size follows base");
}

#[test]
fn overlay_opacity_blends() {
    let base = solid(50, 50, [0.0, 0.0, 0.0, 1.0]);
    let top = solid(50, 50, [1.0, 1.0, 1.0, 1.0]);
    let out = overlay(&base, &top, 0, 0, &over(0.5), &hash_by_index);
    let p = out.pixel(25, 25);
    assert!((p[0] - 0.5).abs() < 1e-4, "50% over black = 0.5: {p:?}");
}

#[test]
fn overlay_negative_offset_crops() {
    let base = solid(100, 100, [0.0, 0.0, 0.0, 1.0]);
    let top = solid(60, 60, [1.0, 0.0, 0.0, 1.0]);
    let out = overlay(&base, &top, -30, -30, &over(1.0), &hash_by_index);
    assert_eq!(out.pixel(5, 5), [1.0, 0.0, 0.0, 1.0], "visible corner of top");
    assert_eq!(out.pixel(50, 50), [0.0, 0.0, 0.0, 1.0], "past the cropped top");
}

#[test]
fn overlay_edges_of_the_placement_are_exact() {
    let base = solid(300, 300, [0.0, 0.0, 0.0, 1.0]);
    let top = solid(10, 10, [0.0, 1.0, 0.0, 1.0]);
    let out = overlay(&base, &top, 295, -3, &over(1.0), &hash_by_index);
    let green = [0.0, 1.0, 0.0, 1.0];
    let black = [0.0, 0.0, 0.0, 1.0];
    assert_eq!(out.pixel(295, 0), green);
    assert_eq!(out.pixel(299, 6), green);
    assert_eq!(out.pixel(294, 0), black);
    assert_eq!(out.pixel(295, 7), black);
}

#[test]
fn overlay_shares_untouched_tiles() {
    let base = solid(600, 300, [0.0, 0.0, 0.0, 1.0]); // 3×2 tiles
    let top = solid(20, 20, [1.0, 1.0, 1.0, 1.0]);
    let out = overlay(&base, &top, 300, 10, &over(1.0), &hash_by_index);
    assert!(!Arc::ptr_eq(&out.tiles()[1].tile, &base.tiles()[1].tile));
    for k in [0usize, 2, 3, 4, 5] {
        assert!(Arc::ptr_eq(&out.tiles()[k].tile, &base.tiles()[k].tile), "tile {k}");
    }
    assert_eq!(out.tiles()[4].hash, hash_by_index(4));
}

#[test]
fn overlay_off_canvas_changes_nothing() {
    let base = solid(100, 100, [0.2, 0.2, 0.2, 1.0]);
    let top = solid(30, 30, [1.0, 0.0, 0.0, 1.0]);
    for (x, y) in [(100, 0), (-30, 0), (0, 100), (0, -30), (i32::MIN, i32::MAX)] {
        let out = overlay(&base, &top, x, y, &over(1.0), &hash_by_index);
        assert!(Arc::ptr_eq(&out.tiles()[0].tile, &base.tiles()[0].tile), "at ({x},{y})");
        assert_eq!(out.pixel(0, 0), [0.2, 0.2, 0.2, 1.0]);
        assert_eq!(out.pixel(99, 99), [0.2, 0.2, 0.2, 1.0]);
    }
}

#[test]
fn composite_at_blends_inside_and_clips_at_edges() {
    // 4×3 destination of 0s, 3×2 source of 1..=6 placed at (2, 2): only the
    // first two columns of the source's first row land.
    let mut dst = vec![0u32; 12];
    let src: Vec<u32> = (1..=6).collect();
    craws::compose::composite_at(&mut dst, 4, 3, &src, 3, 2, 2, 2, &|s: u32, d: u32| s * 10 + d);
    assert_eq!(dst, vec![0, 0, 0, 0, 0, 0, 0, 0, 0, 0, 10, 20]);
}

#[test]
fn composite_at_inside_keeps_the_rest() {
    let mut dst = vec![7u32; 16];
    let src = vec![1u32, 2, 3, 4];
    craws::compose::composite_at(&mut dst, 4, 4, &src, 2, 2, 1, 1, &|s: u32, d: u32| s + d);
    assert_eq!(dst, vec![7, 7, 7, 7, 7, 8, 9, 7, 7, 10, 11, 7, 7, 7, 7, 7]);
}

#[test]
fn composite_at_off_the_destination_is_a_no_op() {
    let mut dst = vec![5u32; 6];
    craws::compose::composite_at(&mut dst, 3, 2, &[1u32], 1, 1, 3, 0, &|s: u32, _d: u32| s);
    craws::compose::composite_at(&mut dst, 3, 2, &[1u32], 1, 1, 0, 2, &|s: u32, _d: u32| s);
    assert_eq!(dst, vec![5u32; 6]);
}

#[test]
fn composite_mask_paints_the_clipped_mask() {
    let flat = vec![0u32; 300 * 300];
    let base = TiledImage::from_flat_f32(Size::new(300, 300), &flat, &hash_by_index);
    // 3×2 mask placed at (298, -1): only its second row's first two cells land
    let mask = [1u32, 2, 3, 4, 5, 6];
    let out = craws::compose::composite_mask(&base, 298, -1, 3, 2, &mask, &|m: u32, d: u32| m * 10 + d, &hash_by_index);
    assert_eq!(out.size(), Size::new(300, 300));
    assert_eq!(out.pixel(298, 0), 40);
    assert_eq!(out.pixel(299, 0), 50);
    assert_eq!(out.pixel(297, 0), 0);
    assert_eq!(out.pixel(298, 1), 0);
    assert!(Arc::ptr_eq(&out.tiles()[0].tile, &base.tiles()[0].tile));
    assert!(!Arc::ptr_eq(&out.tiles()[1].tile, &base.tiles()[1].tile));
}
