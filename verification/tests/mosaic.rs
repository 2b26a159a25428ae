use craws::geometry::Size;
use craws::hash::{digest_bytes, ContentHash};
use craws::mosaic::pixelate_region;
use craws::ops::write_region;
use craws::tile::TiledImage;

fn hash_by_index(i: u32) -> ContentHash {
    digest_bytes(&i.to_le_bytes())
}

/// Pixel `(x, y)` holds `x` in every channel but alpha.
fn ramp_x(w: u32, h: u32) -> TiledImage<[f32; 4]> {
    let mut flat = Vec::with_capacity((w * h) as usize);
    for _y in 0..h {
        for x in 0..w {
            flat.push([x as f32, x as f32, x as f32, 1.0]);
        }
    }
    TiledImage::from_flat_f32(Size::new(w, h), &flat, &hash_by_index)
}

fn average(cell: &Vec<[f32; 4]>) -> [f32; 4] {
    let mut acc = [0.0f64; 4];
    for p in cell {
        for i in 0..4 {
            acc[i] += p[i] as f64;
        }
    }
    let n = cell.len().max(1) as f64;
    [(acc[0] / n) as f32, (acc[1] / n) as f32, (acc[2] / n) as f32, (acc[3] / n) as f32]
}

#[test]
fn pixelate_makes_uniform_blocks() {
    let img = ramp_x(64, 16);
    let region = pixelate_region(&img, 16, 0, 32, 16, 4, &average);
    let out = write_region(&img, 16, 0, 32, 16, &region, &hash_by_index);
    // a 4-wide block starting at x=16 averages to (16+17+18+19)/4 = 17.5, uniform
    let a = out.pixel(16, 0)[0];
    let b = out.pixel(19, 3)[0];
    assert_eq!(a, b, "the block is uniform");
    assert!((a - 17.5).abs() < 1e-3, "block average: {a}");
    assert_eq!(out.pixel(5, 0)[0], 5.0);
}

#[test]
fn cells_are_counted_from_the_region_corner_and_clipped_at_its_edges() {
    // 5×3 region of a 7×4 image holding `y * 7 + x`; cells of 2 → columns
    // {0,1} {2,3} {4} and rows {0,1} {2}; the summary lists the cell.
    let mut flat = Vec::new();
    for y in 0..4u32 {
        for x in 0..7u32 {
            flat.push(y * 7 + x);
        }
    }
    let img = TiledImage::from_flat_f32(Size::new(7, 4), &flat, &hash_by_index);
    let cells = pixelate_region(&img, 1, 1, 5, 3, 2, &|c: &Vec<u32>| c.iter().fold(0u32, |a, v| a * 100 + v));
    assert_eq!(cells.len(), 15);
    // top-left cell: pixels (1,1) (2,1) (1,2) (2,2) = 8 9 15 16
    assert_eq!(cells[0], 8_09_15_16);
    assert_eq!(cells[1], cells[0]);
    assert_eq!(cells[5 + 1], cells[0]);
    // right edge cell is one column wide: (5,1) (5,2) = 12 19
    assert_eq!(cells[4], 12_19);
    // bottom edge cell is one row high: (3,3) (4,3) = 24 25
    assert_eq!(cells[2 * 5 + 2], 24_25);
    assert_eq!(cells[2 * 5 + 3], 24_25);
    // bottom-right corner is a single pixel: (5,3) = 26
    assert_eq!(cells[2 * 5 + 4], 26);
}

#[test]
fn block_zero_acts_as_one() {
    let img = ramp_x(4, 2);
    let cells = pixelate_region(&img, 0, 0, 4, 2, 0, &|c: &Vec<[f32; 4]>| {
        assert_eq!(c.len(), 1);
        c[0]
    });
    for (i, p) in cells.iter().enumerate() {
        assert_eq!(p[0], (i % 4) as f32);
    }
}
