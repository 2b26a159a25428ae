use craws::geometry::{Rect, Size};
use craws::hash::{digest_bytes, ContentHash};
use craws::ops::{background_mask, clone_all, content_bounds, crop, flip, pad, read_region, rotate_quarter, trim, write_region};
use craws::pipeline::FlipAxis;
use craws::tile::TiledImage;

type Px = [f32; 4];

fn hash_by_index(i: u32) -> ContentHash {
    digest_bytes(&i.to_le_bytes())
}

fn coord_img(w: u32, h: u32) -> TiledImage<Px> {
    let mut flat = vec![[0.0f32; 4]; (w * h) as usize];
    for y in 0..h {
        for x in 0..w {
            flat[(y * w + x) as usize] = [x as f32, y as f32, 0.0, 1.0];
        }
    }
    TiledImage::from_flat_f32(Size::new(w, h), &flat, &hash_by_index)
}

fn solid(w: u32, h: u32, rgba: Px) -> TiledImage<Px> {
    let flat = vec![rgba; (w * h) as usize];
    TiledImage::from_flat_f32(Size::new(w, h), &flat, &hash_by_index)
}

/// The background mask for `tolerance == 0`: pixels equal to the reference
/// (default: the top-left pixel).
fn exact_mask(img: &TiledImage<Px>, reference: Option<Px>) -> Vec<bool> {
    let r = reference.unwrap_or_else(|| img.pixel(0, 0));
    background_mask(img, &|p: &Px| (0..4).all(|i| (p[i] - r[i]).abs() <= 0.0))
}

#[test]
fn crop_is_pixel_exact_across_tile_boundaries() {
    // pixel (x, y) stores its own flat index in R — any misgather is loud
    let size = Size::new(600, 300);
    let mut flat = vec![[0.0f32; 4]; size.area() as usize];
    for y in 0..300u32 {
        for x in 0..600u32 {
            flat[(y * 600 + x) as usize] = [(y * 600 + x) as f32, 0.0, 0.0, 1.0];
        }
    }
    let img = TiledImage::from_flat_f32(size, &flat, &hash_by_index);
    let rect = Rect::new(250, 100, 300, 150); // straddles the 256-boundary both ways
    let out = crop(&img, rect, &hash_by_index);
    assert_eq!(out.size(), Size::new(300, 150));
    for (x, y) in [(0, 0), (299, 149), (5, 149), (299, 0), (10, 60)] {
        let want = ((y + 100) * 600 + (x + 250)) as f32;
        assert_eq!(out.pixel(x, y)[0], want, "at ({x},{y})");
    }
}

#[test]
fn rotate_90_clockwise_is_exact() {
    // 400×260 crosses tile boundaries; 90° cw ⇒ 260×400, top-left → top-right
    let img = coord_img(400, 260);
    let out = rotate_quarter(&img, 1, &hash_by_index);
    assert_eq!(out.size(), Size::new(260, 400));
    // out(ox,oy) came from src(oy, (sh-1)-ox) with sh = 260
    for (ox, oy) in [(0u32, 0u32), (259, 399), (100, 50), (5, 300)] {
        let p = out.pixel(ox, oy);
        assert_eq!((p[0], p[1]), (oy as f32, (259 - ox) as f32), "at ({ox},{oy})");
    }
}

#[test]
fn rotate_180_reverses_both_axes() {
    let img = coord_img(300, 200);
    let out = rotate_quarter(&img, 2, &hash_by_index);
    assert_eq!(out.size(), Size::new(300, 200));
    let p = out.pixel(10, 20);
    assert_eq!((p[0], p[1]), ((299 - 10) as f32, (199 - 20) as f32));
}

#[test]
fn rotate_270_and_identity() {
    let img = coord_img(300, 200);
    let out = rotate_quarter(&img, 3, &hash_by_index);
    assert_eq!(out.size(), Size::new(200, 300));
    // out(ox, oy) came from src((sw-1)-oy, ox) with sw = 300
    let p = out.pixel(10, 20);
    assert_eq!((p[0], p[1]), ((299 - 20) as f32, 10.0));
    let same = rotate_quarter(&img, 0, &hash_by_index);
    assert_eq!(same.pixel(123, 45), img.pixel(123, 45));
}

#[test]
fn flip_mirrors_each_axis() {
    let img = coord_img(300, 260); // spans tiles both ways
    let h = flip(&img, FlipAxis::Horizontal, &hash_by_index);
    let hp = h.pixel(10, 20);
    assert_eq!((hp[0], hp[1]), ((299 - 10) as f32, 20.0), "horizontal mirrors x");
    let v = flip(&img, FlipAxis::Vertical, &hash_by_index);
    let vp = v.pixel(10, 20);
    assert_eq!((vp[0], vp[1]), (10.0, (259 - 20) as f32), "vertical mirrors y");
}

#[test]
fn pad_frames_source_with_fill() {
    let img = solid(100, 80, [1.0, 0.0, 0.0, 1.0]); // opaque red
    // 10 left, 20 right, 5 top, 15 bottom, transparent border
    let out = pad(&img, Size::new(130, 100), 10, 5, [0.0, 0.0, 0.0, 0.0], &hash_by_index);
    assert_eq!(out.size(), Size::new(130, 100));
    // border is transparent
    assert_eq!(out.pixel(0, 0)[3], 0.0, "top-left border transparent");
    assert_eq!(out.pixel(129, 99)[3], 0.0, "bottom-right border transparent");
    // source placed at (10, 5): its top-left and interior are red
    assert_eq!(out.pixel(10, 5), [1.0, 0.0, 0.0, 1.0], "source origin");
    assert_eq!(out.pixel(109, 84), [1.0, 0.0, 0.0, 1.0], "source far corner");
    // just outside the source on the right is border again
    assert_eq!(out.pixel(110, 40)[3], 0.0, "past source right edge");
}

#[test]
fn trim_crops_to_content() {
    // white 20×16 with a black content rect at (3,3)..(17,13)
    let (w, h) = (20u32, 16u32);
    let mut flat = vec![[0.0f32; 4]; (w * h) as usize];
    for y in 0..h {
        for x in 0..w {
            let inside = (3..17).contains(&x) && (3..13).contains(&y);
            flat[(y * w + x) as usize] = if inside { [0.0, 0.0, 0.0, 1.0] } else { [1.0, 1.0, 1.0, 1.0] };
        }
    }
    let img = TiledImage::from_flat_f32(Size::new(w, h), &flat, &hash_by_index);
    // reference defaults to the (white) top-left corner
    let mask = exact_mask(&img, None);
    let rect = content_bounds(img.size(), &mask).unwrap();
    assert_eq!(rect, Rect::new(3, 3, 14, 10));
    let out = trim(&img, &mask).unwrap();
    assert_eq!(out.size(), Size::new(14, 10));
    assert_eq!(out.pixel(0, 0), [0.0, 0.0, 0.0, 1.0], "trimmed to the content");
}

#[test]
fn trim_none_for_uniform_and_unchanged_without_border() {
    let uniform = solid(64, 64, [0.2, 0.4, 0.6, 1.0]);
    let mask = exact_mask(&uniform, None);
    assert!(content_bounds(uniform.size(), &mask).is_none(), "all background");
    assert!(trim(&uniform, &mask).is_none());

    // content touches every edge → nothing to trim → same size back
    let full = coord_img(50, 40); // pixel(0,0) is [0,0,0,1]; interior differs
    let mask = exact_mask(&full, None);
    let out = trim(&full, &mask).unwrap();
    assert_eq!(out.size(), Size::new(50, 40));
}

#[test]
fn trim_with_explicit_reference_color() {
    // transparent margin of 2 around an opaque 4×3 core
    let (w, h) = (8u32, 7u32);
    let mut flat = vec![[0.0f32; 4]; (w * h) as usize];
    for y in 2..5 {
        for x in 2..6 {
            flat[(y * w + x) as usize] = [0.5, 0.5, 0.5, 1.0];
        }
    }
    let img = TiledImage::from_flat_f32(Size::new(w, h), &flat, &hash_by_index);
    let mask = exact_mask(&img, Some([0.0, 0.0, 0.0, 0.0]));
    assert_eq!(content_bounds(img.size(), &mask), Some(Rect::new(2, 2, 4, 3)));
    // trimmed tiles are named after the trim rectangle, not the source tiles
    let out = trim(&img, &mask).unwrap();
    assert_ne!(out.tiles()[0].hash, img.tiles()[0].hash);
}

#[test]
fn untrimmed_image_keeps_its_tiles() {
    let full = coord_img(50, 40);
    let mask = exact_mask(&full, None);
    let out = trim(&full, &mask).unwrap();
    assert_eq!(out.tiles()[0].hash, full.tiles()[0].hash);
    assert!(std::sync::Arc::ptr_eq(&out.tiles()[0].tile, &full.tiles()[0].tile));
}

#[test]
fn clone_all_renames_and_shares() {
    let img = coord_img(300, 260);
    let name = |i: u32| digest_bytes(&(i + 1000).to_le_bytes());
    let out = clone_all(&img, &name);
    assert_eq!(out.size(), img.size());
    for k in 0..img.tiles().len() {
        assert!(std::sync::Arc::ptr_eq(&out.tiles()[k].tile, &img.tiles()[k].tile));
        assert_eq!(out.tiles()[k].hash, name(k as u32));
    }
    assert_eq!(out.pixel(299, 259), img.pixel(299, 259));
}

#[test]
fn mask_is_row_major() {
    let img = coord_img(3, 2);
    let mask = background_mask(&img, &|p: &Px| p[0] == 1.0);
    assert_eq!(mask, vec![false, true, false, false, true, false]);
}

#[test]
fn write_region_replaces_only_the_rect() {
    let img = coord_img(600, 300); // 3×2 tiles
    let region = vec![[9.0f32, 9.0, 9.0, 1.0]; 20 * 10];
    let out = write_region(&img, 250, 5, 20, 10, &region, &hash_by_index);
    assert_eq!(out.size(), img.size());
    assert_eq!(out.pixel(250, 5), [9.0, 9.0, 9.0, 1.0]);
    assert_eq!(out.pixel(269, 14), [9.0, 9.0, 9.0, 1.0]);
    assert_eq!(out.pixel(270, 14), img.pixel(270, 14));
    assert_eq!(out.pixel(249, 5), img.pixel(249, 5));
    // the rect touches tiles 0 and 1 only; the rest are shared
    for k in 2..6 {
        assert!(std::sync::Arc::ptr_eq(&out.tiles()[k].tile, &img.tiles()[k].tile), "tile {k}");
    }
    assert!(!std::sync::Arc::ptr_eq(&out.tiles()[0].tile, &img.tiles()[0].tile));
    let back = read_region(&out, 249, 4, 3, 2);
    assert_eq!(back, vec![img.pixel(249, 4), img.pixel(250, 4), img.pixel(251, 4), img.pixel(249, 5), [9.0, 9.0, 9.0, 1.0], [9.0, 9.0, 9.0, 1.0]]);
}

#[test]
fn flip_twice_restores_every_pixel() {
    let img = coord_img(300, 260);
    for axis in [FlipAxis::Horizontal, FlipAxis::Vertical] {
        let back = flip(&flip(&img, axis, &hash_by_index), axis, &hash_by_index);
        assert_eq!(back.size(), img.size());
        for (x, y) in [(0u32, 0u32), (299, 259), (10, 20), (257, 3)] {
            assert_eq!(back.pixel(x, y), img.pixel(x, y), "at ({x},{y})");
        }
    }
}

#[test]
fn quarter_turns_compose_back_to_the_original() {
    let img = coord_img(400, 260);
    for k in 0u8..4 {
        let turned = rotate_quarter(&img, k, &hash_by_index);
        let back = rotate_quarter(&turned, (4 - k) % 4, &hash_by_index);
        assert_eq!(back.size(), img.size());
        for (x, y) in [(0u32, 0u32), (399, 259), (100, 50), (300, 5)] {
            assert_eq!(back.pixel(x, y), img.pixel(x, y), "k={k} at ({x},{y})");
        }
    }
}

#[test]
fn half_turn_equals_both_flips() {
    let img = coord_img(300, 200);
    let half = rotate_quarter(&img, 2, &hash_by_index);
    let flips = flip(&flip(&img, FlipAxis::Vertical, &hash_by_index), FlipAxis::Horizontal, &hash_by_index);
    for (x, y) in [(0u32, 0u32), (299, 199), (10, 20)] {
        assert_eq!(half.pixel(x, y), flips.pixel(x, y));
    }
}

#[test]
fn map_region_shades_only_the_rect_and_shares_the_rest() {
    let img = coord_img(600, 300); // 3×2 tiles
    let shade = |x: u32, y: u32, p: Px| -> Px { [p[0] + 1000.0, p[1], (x + y) as f32, p[3]] };
    let out = craws::ops::map_region(&img, 250, 5, 20, 10, &shade, &hash_by_index);
    assert_eq!(out.pixel(250, 5), [1250.0, 5.0, 255.0, 1.0]);
    assert_eq!(out.pixel(269, 14), [1269.0, 14.0, 283.0, 1.0]);
    assert_eq!(out.pixel(270, 14), img.pixel(270, 14));
    assert_eq!(out.pixel(250, 15), img.pixel(250, 15));
    for k in 2..6 {
        assert!(std::sync::Arc::ptr_eq(&out.tiles()[k].tile, &img.tiles()[k].tile), "tile {k}");
    }
}

#[test]
fn reading_back_a_written_rect_gives_the_written_pixels() {
    let img = coord_img(600, 300);
    let region: Vec<Px> = (0..40 * 12).map(|i| [i as f32, -1.0, 7.0, 1.0]).collect();
    let out = write_region(&img, 240, 250, 40, 12, &region, &hash_by_index);
    assert_eq!(read_region(&out, 240, 250, 40, 12), region);
}

#[test]
fn crop_undoes_pad() {
    let img = coord_img(300, 200);
    let out = Size::new(300 + 13 + 2, 200 + 60 + 1);
    let padded = pad(&img, out, 13, 60, [0.5, 0.5, 0.5, 1.0], &hash_by_index);
    let back = crop(&padded, Rect::new(13, 60, 300, 200), &hash_by_index);
    assert_eq!(back.size(), img.size());
    assert_eq!(back.to_flat_f32(), img.to_flat_f32());
}
