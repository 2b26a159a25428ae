//! The agent-facing tools' parameters, and how each becomes an operation.
//!
//! Agents send loosely-typed values (colors and enumerations as text, most
//! fields optional). Each parameter set here knows its defaults and turns into
//! a validated [`OpSpec`] (or collage layout), or the error naming the value
//! that was not understood.

use vstd::prelude::*;

use crate::color::Rgba8;
use crate::parse::{
    parse_axis, parse_color, parse_color_opt, parse_filter, spec_axis,
    spec_filter, spec_parse_color, ParamError,
};
use crate::pipeline::OpSpec;
use vstd::string::StringSliceAdditionalSpecFns;

verus! {

/// UTF-8 bytes of a text.
pub open spec fn text_bytes(s: String) -> Seq<u8> {
    vstd::utf8::encode_utf8(s@)
}

/// UTF-8 bytes of an optional text.
pub open spec fn opt_text_bytes(s: Option<String>) -> Option<Seq<u8>> {
    match s {
        Some(t) => Some(text_bytes(t)),
        None => None,
    }
}

/// An optional color with a default: absent gives `default`, present must parse.
pub open spec fn color_or(s: Option<String>, default: Rgba8) -> Option<Rgba8> {
    match s {
        None => Some(default),
        Some(t) => spec_parse_color(text_bytes(t)),
    }
}

fn as_text(s: &Option<String>) -> (r: Option<&str>)
    ensures
        r matches Some(t) ==> s matches Some(u) && t@ == u@,
        r is None <==> s is None,
{
    match s {
        Some(t) => Some(t.as_str()),
        None => None,
    }
}

fn color_with_default(s: &Option<String>, default: Rgba8) -> (r: Result<Rgba8, ParamError>)
    ensures
        r == match color_or(*s, default) {
            Some(c) => Ok::<Rgba8, ParamError>(c),
            None => Err(ParamError::BadColor),
        },
{
    match s {
        Some(t) => parse_color(t.as_str()),
        None => Ok(default),
    }
}

pub struct OpenParams {
    /// Filesystem path to a .png / .jpg / .webp image.
    pub path: String,
}

pub struct ImageIdParams {
    pub image_id: String,
}

pub struct ExportParams {
    pub image_id: String,
    /// Output path; the format is chosen from the extension (.png/.jpg/.webp).
    pub path: String,
    /// JPEG quality 1–100 (ignored for png/webp).
    pub quality: Option<u8>,
}

pub struct RunPipelineParams {
    pub image_id: String,
    /// A JSON pipeline: a bare array of op objects, or `{ "version": 0, "steps": [...] }`.
    pub pipeline: String,
}

pub struct ResizeParams {
    /// Handle returned by a previous step (e.g. "img-1").
    pub image_id: String,
    /// Target width in pixels. Omit to derive from height, preserving aspect.
    pub width: Option<u32>,
    /// Target height in pixels. Omit to derive from width, preserving aspect.
    pub height: Option<u32>,
    /// nearest | bilinear | catmull_rom | lanczos3 (default lanczos3).
    pub filter: Option<String>,
}

impl ResizeParams {
    pub fn op(&self) -> (r: Result<OpSpec, ParamError>)
        ensures
            r == match spec_filter(opt_text_bytes(self.filter)) {
                Some(f) => Ok::<OpSpec, ParamError>(
                    OpSpec::Resize { width: self.width, height: self.height, filter: f },
                ),
                None => Err(ParamError::UnknownFilter),
            },
    {
        match parse_filter(as_text(&self.filter)) {
            Ok(filter) => Ok(OpSpec::Resize { width: self.width, height: self.height, filter }),
            Err(e) => Err(e),
        }
    }
}

pub struct CropParams {
    pub image_id: String,
    pub x: u32,
    pub y: u32,
    pub width: u32,
    pub height: u32,
}

impl CropParams {
    pub fn op(&self) -> (r: OpSpec)
        ensures
            r == (OpSpec::Crop { x: self.x, y: self.y, width: self.width, height: self.height }),
    {
        OpSpec::Crop { x: self.x, y: self.y, width: self.width, height: self.height }
    }
}

pub struct FlipParams {
    pub image_id: String,
    /// `horizontal` (mirror left↔right) or `vertical` (top↔bottom).
    pub axis: String,
}

impl FlipParams {
    pub fn op(&self) -> (r: Result<OpSpec, ParamError>)
        ensures
            r == match spec_axis(text_bytes(self.axis)) {
                Some(a) => Ok::<OpSpec, ParamError>(OpSpec::Flip { axis: a }),
                None => Err(ParamError::BadAxis),
            },
    {
        match parse_axis(self.axis.as_str()) {
            Ok(axis) => Ok(OpSpec::Flip { axis }),
            Err(e) => Err(e),
        }
    }
}

pub struct PadParams {
    pub image_id: String,
    /// Padding applied to every side left unset — convenient uniform margin.
    pub all: Option<u32>,
    pub left: Option<u32>,
    pub right: Option<u32>,
    pub top: Option<u32>,
    pub bottom: Option<u32>,
    /// Border fill color (hex or name). Default transparent.
    pub color: Option<String>,
}

pub open spec fn side_or(side: Option<u32>, all: Option<u32>) -> u32 {
    match side {
        Some(v) => v,
        None => match all {
            Some(a) => a,
            None => 0,
        },
    }
}

/// A side given on its own wins over `all`; a side left unset takes `all`, and with
/// neither it gets no padding.
pub proof fn lemma_pad_side(side: Option<u32>, all: Option<u32>, v: u32)
    ensures
        side == Some(v) ==> side_or(side, all) == v,
        side is None && all == Some(v) ==> side_or(side, all) == v,
        side is None && all is None ==> side_or(side, all) == 0,
{
}

fn side(s: Option<u32>, all: u32) -> (r: u32)
    ensures
        r == match s {
            Some(v) => v,
            None => all,
        },
{
    match s {
        Some(v) => v,
        None => all,
    }
}

impl PadParams {
    pub fn op(&self) -> (r: Result<OpSpec, ParamError>)
        ensures
            r == match color_or(self.color, Rgba8 { r: 0, g: 0, b: 0, a: 0 }) {
                Some(c) => Ok::<OpSpec, ParamError>(
                    OpSpec::Pad {
                        left: side_or(self.left, self.all),
                        right: side_or(self.right, self.all),
                        top: side_or(self.top, self.all),
                        bottom: side_or(self.bottom, self.all),
                        color: c,
                    },
                ),
                None => Err(ParamError::BadColor),
            },
    {
        let a = match self.all {
            Some(v) => v,
            None => 0,
        };
        let color = match color_with_default(&self.color, Rgba8::new(0, 0, 0, 0)) {
            Ok(c) => c,
            Err(e) => return Err(e),
        };
        Ok(
            OpSpec::Pad {
                left: side(self.left, a),
                right: side(self.right, a),
                top: side(self.top, a),
                bottom: side(self.bottom, a),
                color,
            },
        )
    }
}

pub struct GradientMapParams {
    pub image_id: String,
    /// Color for dark tones (hex/name).
    pub low: String,
    /// Color for bright tones (hex/name).
    pub high: String,
    /// Optional midtone color (hex/name) for a 3-stop gradient.
    pub mid: Option<String>,
}

impl GradientMapParams {
    pub fn op(&self) -> (r: Result<OpSpec, ParamError>)
        ensures
            r == match (
                spec_parse_color(text_bytes(self.low)),
                spec_parse_color(text_bytes(self.high)),
            ) {
                (Some(lo), Some(hi)) => match self.mid {
                    None => Ok::<OpSpec, ParamError>(OpSpec::GradientMap { low: lo, high: hi, mid: None }),
                    Some(m) => match spec_parse_color(text_bytes(m)) {
                        Some(c) => Ok(OpSpec::GradientMap { low: lo, high: hi, mid: Some(c) }),
                        None => Err(ParamError::BadColor),
                    },
                },
                _ => Err(ParamError::BadColor),
            },
    {
        let low = match parse_color(self.low.as_str()) {
            Ok(c) => c,
            Err(e) => return Err(e),
        };
        let high = match parse_color(self.high.as_str()) {
            Ok(c) => c,
            Err(e) => return Err(e),
        };
        let mid = match parse_color_opt(as_text(&self.mid)) {
            Ok(m) => m,
            Err(e) => return Err(e),
        };
        Ok(OpSpec::GradientMap { low, high, mid })
    }
}

/// How a collage lays out its cells.
#[derive(Debug, Clone, Copy, PartialEq, Eq, Structural)]
pub struct CollageOptions {
    /// Canvas width in pixels.
    pub target_width: u32,
    /// Nominal row height before justification.
    pub row_height: u32,
    /// Gap between cells and around the edges.
    pub gap: u32,
    pub background: Rgba8,
}

pub struct CollageParams {
    /// Images to arrange, in order.
    pub image_ids: Vec<String>,
    /// Canvas width in pixels (default 1600).
    pub target_width: Option<u32>,
    /// Nominal row height before justification (default 320).
    pub row_height: Option<u32>,
    /// Gap between cells and around the edges (default 12).
    pub gap: Option<u32>,
    /// Background color (default white).
    pub background: Option<String>,
}

/// `v.unwrap_or(default).max(1)`
pub open spec fn at_least_one(v: Option<u32>, default: u32) -> u32 {
    let x = match v {
        Some(x) => x,
        None => default,
    };
    if x < 1 {
        1
    } else {
        x
    }
}

/// A collage size (target width or row height) that the caller gives is kept exactly
/// whenever it is at least 1, whatever the default; only 0 is raised to 1, and only an
/// absent value takes the default.
pub proof fn lemma_collage_size_kept(given: u32, default: u32)
    requires
        default >= 1,
    ensures
        given >= 1 ==> at_least_one(Some(given), default) == given,
        at_least_one(Some(0), default) == 1,
        at_least_one(None, default) == default,
        at_least_one(Some(given), default) >= 1,
{
}

impl CollageParams {
    pub fn options(&self) -> (r: Result<CollageOptions, ParamError>)
        ensures
            r == match color_or(self.background, Rgba8 { r: 255, g: 255, b: 255, a: 255 }) {
                Some(c) => Ok::<CollageOptions, ParamError>(
                    CollageOptions {
                        target_width: at_least_one(self.target_width, 1600),
                        row_height: at_least_one(self.row_height, 320),
                        gap: match self.gap {
                            Some(g) => g,
                            None => 12,
                        },
                        background: c,
                    },
                ),
                None => Err(ParamError::BadColor),
            },
    {
        let background = match color_with_default(&self.background, Rgba8::rgb(255, 255, 255)) {
            Ok(c) => c,
            Err(e) => return Err(e),
        };
        let w = match self.target_width {
            Some(x) => x,
            None => 1600,
        };
        let h = match self.row_height {
            Some(x) => x,
            None => 320,
        };
        let gap = match self.gap {
            Some(g) => g,
            None => 12,
        };
        Ok(
            CollageOptions {
                target_width: if w < 1 {
                    1
                } else {
                    w
                },
                row_height: if h < 1 {
                    1
                } else {
                    h
                },
                gap,
                background,
            },
        )
    }
}

} // verus!
