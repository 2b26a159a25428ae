//! The preview path of a viewer: a fixed-width preview pipeline, and the
//! frame a rendered preview is shipped in. Pixels leave the engine once per
//! frame, as one raw binary payload: a 20-byte header of little-endian `u32`s
//! (magic, width, height, engine µs, convert µs) followed by sRGB RGBA8.

use vstd::prelude::*;

use crate::hash::append;
use crate::pipeline::{Filter, FloatBits, OpSpec, Pipeline, CURRENT_VERSION};
use vstd::bytes::{lemma_auto_spec_u32_to_from_le_bytes, spec_u32_from_le_bytes, spec_u32_to_le_bytes, u32_to_le_bytes};

verus! {

/// `"CRAW"` read as a little-endian `u32`.
pub const FRAME_MAGIC: u32 = 0x5741_5243u32;

/// Width the preview is rendered at.
pub const PREVIEW_WIDTH: u32 = 1920u32;

/// The preview steps: resize to the preview width (Lanczos3, aspect kept),
/// exposure by `stops`, and grayscale when asked.
pub open spec fn preview_steps(stops: FloatBits, grayscale: bool) -> Seq<OpSpec> {
    let base = seq![
        OpSpec::Resize { width: Some(PREVIEW_WIDTH), height: None, filter: Filter::Lanczos3 },
        OpSpec::Exposure { stops },
    ];
    if grayscale {
        base.push(OpSpec::Grayscale)
    } else {
        base
    }
}

pub fn preview_pipeline(stops: FloatBits, grayscale: bool) -> (p: Pipeline)
    ensures
        p.version == CURRENT_VERSION,
        p.steps@ == preview_steps(stops, grayscale),
{
    let mut steps: Vec<OpSpec> = Vec::new();
    steps.push(OpSpec::Resize { width: Some(PREVIEW_WIDTH), height: None, filter: Filter::Lanczos3 });
    steps.push(OpSpec::Exposure { stops });
    if grayscale {
        steps.push(OpSpec::Grayscale);
    }
    proof {
        assert(steps@ =~= preview_steps(stops, grayscale));
    }
    Pipeline { version: CURRENT_VERSION, steps }
}

/// The frame header: magic, width, height, engine µs, convert µs.
pub open spec fn frame_header(width: u32, height: u32, engine_us: u32, convert_us: u32) -> Seq<u8> {
    spec_u32_to_le_bytes(FRAME_MAGIC) + spec_u32_to_le_bytes(width) + spec_u32_to_le_bytes(height)
        + spec_u32_to_le_bytes(engine_us) + spec_u32_to_le_bytes(convert_us)
}

/// The little-endian `u32` in bytes `i .. i + 4` of `s`.
pub open spec fn le_u32_at(s: Seq<u8>, i: int) -> u32 {
    spec_u32_from_le_bytes(s.subrange(i, i + 4))
}

/// A frame reads back: its first twenty bytes, taken four at a time as
/// little-endian `u32`s, are the magic, the width, the height and the two
/// timings, in that order, and the pixels follow unchanged.
pub proof fn lemma_frame_reads_back(
    width: u32,
    height: u32,
    engine_us: u32,
    convert_us: u32,
    rgba: Seq<u8>,
)
    ensures
        (frame_header(width, height, engine_us, convert_us) + rgba).len() == 20 + rgba.len(),
        le_u32_at(frame_header(width, height, engine_us, convert_us) + rgba, 0) == FRAME_MAGIC,
        le_u32_at(frame_header(width, height, engine_us, convert_us) + rgba, 4) == width,
        le_u32_at(frame_header(width, height, engine_us, convert_us) + rgba, 8) == height,
        le_u32_at(frame_header(width, height, engine_us, convert_us) + rgba, 12) == engine_us,
        le_u32_at(frame_header(width, height, engine_us, convert_us) + rgba, 16) == convert_us,
        (frame_header(width, height, engine_us, convert_us) + rgba).skip(20) == rgba,
{
    lemma_auto_spec_u32_to_from_le_bytes();
    let f = frame_header(width, height, engine_us, convert_us) + rgba;
    assert(f.len() == 20 + rgba.len());
    assert(f.subrange(0, 4) =~= spec_u32_to_le_bytes(FRAME_MAGIC));
    assert(f.subrange(4, 8) =~= spec_u32_to_le_bytes(width));
    assert(f.subrange(8, 12) =~= spec_u32_to_le_bytes(height));
    assert(f.subrange(12, 16) =~= spec_u32_to_le_bytes(engine_us));
    assert(f.subrange(16, 20) =~= spec_u32_to_le_bytes(convert_us));
    assert(f.skip(20) =~= rgba);
}

/// Frame a rendered preview: the header, then the pixels.
pub fn frame_payload(width: u32, height: u32, engine_us: u32, convert_us: u32, rgba: &[u8]) -> (out: Vec<u8>)
    ensures
        out@ == frame_header(width, height, engine_us, convert_us) + rgba@,
{
    let mut out: Vec<u8> = Vec::new();
    append(&mut out, u32_to_le_bytes(FRAME_MAGIC).as_slice());
    append(&mut out, u32_to_le_bytes(width).as_slice());
    append(&mut out, u32_to_le_bytes(height).as_slice());
    append(&mut out, u32_to_le_bytes(engine_us).as_slice());
    append(&mut out, u32_to_le_bytes(convert_us).as_slice());
    append(&mut out, rgba);
    proof {
        assert(out@ =~= frame_header(width, height, engine_us, convert_us) + rgba@);
    }
    out
}

} // verus!
