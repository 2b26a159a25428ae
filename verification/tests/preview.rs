use craws::pipeline::{Filter, FloatBits, OpSpec, CURRENT_VERSION};
use craws::preview::{frame_payload, preview_pipeline, FRAME_MAGIC, PREVIEW_WIDTH};

#[test]
fn preview_pipeline_steps() {
    let stops = FloatBits(0.5f32.to_bits());
    let p = preview_pipeline(stops, true);
    assert_eq!(p.version, CURRENT_VERSION);
    assert_eq!(
        p.steps,
        vec![
            OpSpec::Resize { width: Some(1920), height: None, filter: Filter::Lanczos3 },
            OpSpec::Exposure { stops },
            OpSpec::Grayscale,
        ]
    );
    assert_eq!(preview_pipeline(stops, false).steps.len(), 2);
    assert_eq!(PREVIEW_WIDTH, 1920);
}

#[test]
fn frame_header_is_little_endian() {
    let out = frame_payload(2, 1, 300, 7, &[1, 2, 3, 4, 5, 6, 7, 8]);
    assert_eq!(&out[0..4], b"CRAW");
    assert_eq!(u32::from_le_bytes(out[0..4].try_into().unwrap()), FRAME_MAGIC);
    assert_eq!(&out[4..8], &2u32.to_le_bytes());
    assert_eq!(&out[8..12], &1u32.to_le_bytes());
    assert_eq!(&out[12..16], &300u32.to_le_bytes());
    assert_eq!(&out[16..20], &7u32.to_le_bytes());
    assert_eq!(&out[20..], &[1, 2, 3, 4, 5, 6, 7, 8]);
}
