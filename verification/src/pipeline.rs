//! Pipeline spec: an ordered chain of operations over one image.
//!
//! This is *data*, not behavior — the engine interprets it. The JSON form is the
//! public automation contract, so the field layout mirrors that format. Every
//! `f32` parameter is held here by its IEEE-754 bit pattern ([`FloatBits`]):
//! validation only asks whether a value is finite and how it compares with
//! zero, and the bit pattern answers both exactly.

use vstd::prelude::*;

use crate::color::Rgba8;
use crate::geometry::{Rect, Size};

verus! {

/// Resampling filter for [`OpSpec::Resize`].
#[derive(Debug, Clone, Copy, Default, PartialEq, Eq, Hash, Structural)]
pub enum Filter {
    Nearest,
    Bilinear,
    CatmullRom,
    #[default]
    Lanczos3,
}

/// Horizontal anchoring of text at its `(x, y)` point.
#[derive(Debug, Clone, Copy, Default, PartialEq, Eq, Hash, Structural)]
pub enum AlignX {
    #[default]
    Left,
    Center,
    Right,
}

/// Vertical anchoring of text at its `(x, y)` point.
#[derive(Debug, Clone, Copy, Default, PartialEq, Eq, Hash, Structural)]
pub enum AlignY {
    Top,
    Middle,
    Bottom,
    /// `y` is the baseline of the first line (the typographic default).
    #[default]
    Baseline,
}

/// Mirror axis for [`OpSpec::Flip`].
#[derive(Debug, Clone, Copy, PartialEq, Eq, Hash, Structural)]
pub enum FlipAxis {
    /// Mirror left↔right (columns reversed).
    Horizontal,
    /// Mirror top↔bottom (rows reversed).
    Vertical,
}

/// An `f32` parameter held by its IEEE-754 binary32 bit pattern
/// (the value of `f32::to_bits`).
#[derive(Debug, Clone, Copy, PartialEq, Eq, Hash, Structural)]
pub struct FloatBits(pub u32);

impl FloatBits {
    /// The pattern without its sign bit.
    pub open spec fn magnitude(self) -> nat {
        (self.0 % 0x8000_0000u32) as nat
    }

    pub open spec fn sign_bit(self) -> bool {
        self.0 >= 0x8000_0000u32
    }

    /// All exponent bits set and a non-zero fraction.
    pub open spec fn spec_is_nan(self) -> bool {
        self.magnitude() > 0x7F80_0000
    }

    /// Neither infinite nor NaN: the exponent is not all ones.
    pub open spec fn spec_is_finite(self) -> bool {
        self.magnitude() < 0x7F80_0000
    }

    /// `x < 0.0`: a negative number other than `-0.0` (NaN compares false).
    pub open spec fn spec_lt_zero(self) -> bool {
        !self.spec_is_nan() && self.sign_bit() && self.magnitude() != 0
    }

    /// `x <= 0.0`: negative or a zero of either sign (NaN compares false).
    pub open spec fn spec_le_zero(self) -> bool {
        !self.spec_is_nan() && (self.sign_bit() || self.magnitude() == 0)
    }

    pub fn is_finite(self) -> (b: bool)
        ensures
            b == self.spec_is_finite(),
    {
        self.0 % 0x8000_0000u32 < 0x7F80_0000u32
    }

    pub fn lt_zero(self) -> (b: bool)
        ensures
            b == self.spec_lt_zero(),
    {
        let mag = self.0 % 0x8000_0000u32;
        mag <= 0x7F80_0000u32 && self.0 >= 0x8000_0000u32 && mag != 0
    }

    pub fn le_zero(self) -> (b: bool)
        ensures
            b == self.spec_le_zero(),
    {
        let mag = self.0 % 0x8000_0000u32;
        mag <= 0x7F80_0000u32 && (self.0 >= 0x8000_0000u32 || mag == 0)
    }
}

/// How [`OpSpec::Redact`] obscures its region.
#[derive(Debug, Clone, Copy, PartialEq, Eq, Structural)]
pub enum RedactMode {
    /// Mosaic: average `block`×`block` cells.
    Pixelate { block: u32 },
    /// Gaussian-blur the region by `radius`.
    Blur { radius: FloatBits },
    /// Paint a solid `color` over the region.
    Fill { color: Rgba8 },
}

impl Default for RedactMode {
    fn default() -> (m: RedactMode)
        ensures
            m == (RedactMode::Pixelate { block: 12 }),
    {
        RedactMode::Pixelate { block: default_redact_block() }
    }
}

pub fn default_true() -> (b: bool)
    ensures
        b,
{
    true
}

/// Fully transparent black, the default border of [`OpSpec::Pad`].
pub fn transparent() -> (c: Rgba8)
    ensures
        c == (Rgba8 { r: 0, g: 0, b: 0, a: 0 }),
{
    Rgba8::new(0, 0, 0, 0)
}

/// Opaque black.
pub fn black() -> (c: Rgba8)
    ensures
        c == (Rgba8 { r: 0, g: 0, b: 0, a: 255 }),
{
    Rgba8::new(0, 0, 0, 255)
}

pub fn default_redact_block() -> (b: u32)
    ensures
        b == 12,
{
    12
}

pub fn default_beautify_padding() -> (p: u32)
    ensures
        p == 64,
{
    64
}

/// One step of a pipeline.
#[allow(inconsistent_fields)]
#[derive(Debug, Clone, PartialEq, Eq)]
pub enum OpSpec {
    /// Resample to a new size. At least one of `width`/`height` is required;
    /// a missing dimension preserves aspect ratio (rounded, min 1px).
    Resize { width: Option<u32>, height: Option<u32>, filter: Filter },
    /// Keep only `rect` (must lie fully inside the current image).
    Crop { x: u32, y: u32, width: u32, height: u32 },
    /// Exposure in photographic stops: linear multiply by `2^stops`.
    Exposure { stops: FloatBits },
    /// Rec.709 relative-luminance grayscale (in linear light).
    Grayscale,
    /// Rectangle with optional fill, optional stroke, optional rounded corners.
    DrawRect {
        x: FloatBits,
        y: FloatBits,
        width: FloatBits,
        height: FloatBits,
        corner_radius: FloatBits,
        fill: Option<Rgba8>,
        stroke: Option<Rgba8>,
        stroke_width: FloatBits,
    },
    /// Ellipse inscribed in the (x, y, width, height) box.
    DrawEllipse {
        x: FloatBits,
        y: FloatBits,
        width: FloatBits,
        height: FloatBits,
        fill: Option<Rgba8>,
        stroke: Option<Rgba8>,
        stroke_width: FloatBits,
    },
    /// Straight line segment.
    DrawLine {
        x1: FloatBits,
        y1: FloatBits,
        x2: FloatBits,
        y2: FloatBits,
        color: Rgba8,
        thickness: FloatBits,
    },
    /// Arrow from (x1,y1) to (x2,y2) with a V-head at the second point.
    DrawArrow {
        x1: FloatBits,
        y1: FloatBits,
        x2: FloatBits,
        y2: FloatBits,
        color: Rgba8,
        thickness: FloatBits,
        head_length: FloatBits,
    },
    /// Text anchored at `(x, y)` per `align_x`/`align_y`. `\n` starts a new line.
    DrawText {
        x: FloatBits,
        y: FloatBits,
        text: String,
        color: Rgba8,
        font_size: FloatBits,
        font: Option<String>,
        align_x: AlignX,
        align_y: AlignY,
        line_height: Option<FloatBits>,
    },
    /// Rotate about the image center by `degrees` (positive = clockwise).
    /// `expand` grows the canvas to contain the rotated image.
    Rotate { degrees: FloatBits, expand: bool },
    /// Mirror across an axis. Size unchanged.
    Flip { axis: FlipAxis },
    /// Extend the canvas by a margin on each side, filled with `color`.
    Pad { left: u32, right: u32, top: u32, bottom: u32, color: Rgba8 },
    /// Rotate hue by `degrees` about the luma axis.
    HueRotate { degrees: FloatBits },
    /// Photographic negative in perceptual (sRGB) space. Alpha kept.
    Invert,
    /// Separable Gaussian blur; `radius` ≈ the Gaussian sigma in pixels.
    Blur { radius: FloatBits },
    /// Obscure a rectangular region — pixelate, blur, or solid-fill it.
    Redact { x: FloatBits, y: FloatBits, width: FloatBits, height: FloatBits, mode: RedactMode },
    /// Dim everything outside a (rounded, feathered) window.
    Spotlight {
        x: FloatBits,
        y: FloatBits,
        width: FloatBits,
        height: FloatBits,
        corner_radius: FloatBits,
        dim: FloatBits,
        color: Rgba8,
        feather: FloatBits,
    },
    /// Round the corners, drop a soft shadow and frame with `padding` of
    /// `background`. Output grows by `2·padding` per dimension.
    Beautify {
        padding: u32,
        corner_radius: FloatBits,
        shadow_radius: FloatBits,
        shadow_opacity: FloatBits,
        shadow_offset: FloatBits,
        background: Rgba8,
    },
    /// Additive `brightness` and `contrast`, in sRGB.
    BrightnessContrast { brightness: FloatBits, contrast: FloatBits },
    /// Saturation: 1 = identity, 0 = grayscale, >1 boosts.
    Saturation { amount: FloatBits },
    /// Levels remap: input black/white points, gamma, output black/white.
    Levels {
        in_black: FloatBits,
        in_white: FloatBits,
        gamma: FloatBits,
        out_black: FloatBits,
        out_white: FloatBits,
    },
    /// Tone curve from control points `[x, y]` in 0..1.
    Curves { points: Vec<[FloatBits; 2]> },
    /// White balance as linear per-channel gains.
    WhiteBalance { temperature: FloatBits, tint: FloatBits },
    /// Map luminance to a gradient `low` → optional `mid` → `high`.
    GradientMap { low: Rgba8, high: Rgba8, mid: Option<Rgba8> },
    /// Unsharp mask with blur sigma `radius`.
    Sharpen { amount: FloatBits, radius: FloatBits },
    /// Radial darkening toward `color`.
    Vignette { amount: FloatBits, feather: FloatBits, color: Rgba8 },
}

#[derive(Debug, PartialEq)]
pub enum PipelineError {
    UnsupportedVersion(u32),
    ResizeMissingDims,
    ZeroSize { op: &'static str },
    ResultTooLarge { op: &'static str },
    CropOutOfBounds { rect: Rect, image: Size },
    NonFiniteParam { op: &'static str, param: &'static str },
    NegativeParam { op: &'static str },
    NothingToDraw { op: &'static str },
    AtStep { index: usize, source: Box<PipelineError> },
}

/// Every value of `vals` is finite.
pub open spec fn all_finite(vals: Seq<FloatBits>) -> bool {
    forall|i: int| 0 <= i < vals.len() ==> (#[trigger] vals[i]).spec_is_finite()
}

pub open spec fn spec_check_finite(op: &'static str, vals: Seq<FloatBits>) -> Result<(), PipelineError> {
    if all_finite(vals) {
        Ok(())
    } else {
        Err(PipelineError::NonFiniteParam { op, param: "geometry" })
    }
}

/// Reject non-finite geometry before it reaches the rasterizer.
fn check_finite(op: &'static str, vals: &[FloatBits]) -> (r: Result<(), PipelineError>)
    ensures
        r == spec_check_finite(op, vals@),
{
    let mut i: usize = 0;
    while i < vals.len()
        invariant
            0 <= i <= vals@.len(),
            forall|j: int| 0 <= j < i ==> (#[trigger] vals@[j]).spec_is_finite(),
        decreases vals@.len() - i,
    {
        if !vals[i].is_finite() {
            return Err(PipelineError::NonFiniteParam { op, param: "geometry" });
        }
        i = i + 1;
    }
    Ok(())
}

/// `known * num / den`, rounded to nearest, clamped to `1..=u32::MAX`.
pub open spec fn spec_keep_aspect(known: u32, num: u32, den: u32) -> u32 {
    let v = (known * num + den / 2) / (den as int);
    if v < 1 {
        1u32
    } else if v > u32::MAX {
        u32::MAX
    } else {
        v as u32
    }
}

/// How far `a` is from `b`.
pub open spec fn gap(a: int, b: int) -> int {
    if a >= b {
        a - b
    } else {
        b - a
    }
}

/// The scaled side is a nearest whole side: among all sides from 1 to
/// `u32::MAX`, none puts `side / known` closer to `num / den`, and every larger
/// side is farther (so an exact half rounds up).
pub proof fn lemma_keep_aspect_nearest(known: u32, num: u32, den: u32, other: u32)
    requires
        den > 0,
        other >= 1,
    ensures
        spec_keep_aspect(known, num, den) >= 1,
        gap(spec_keep_aspect(known, num, den) * den, known * num) <= gap(other * den, known * num),
        other > spec_keep_aspect(known, num, den) ==> gap(spec_keep_aspect(known, num, den) * den, known
            * num) < gap(other * den, known * num),
{
    let p: int = known * num;
    let d: int = den as int;
    let half: int = d / 2;
    let v: int = (p + half) / d;
    let r = spec_keep_aspect(known, num, den);
    assert(p >= 0) by (nonlinear_arith)
        requires
            p == known * num,
    ;
    vstd::arithmetic::div_mod::lemma_fundamental_div_mod(p + half, d);
    assert(0 <= (p + half) % d < d);
    assert(v * d <= p + half < v * d + d) by (nonlinear_arith)
        requires
            p + half == d * v + (p + half) % d,
            0 <= (p + half) % d < d,
    ;
    assert(2 * half <= d && d <= 2 * half + 1);
    if v < 1 {
        assert(v == 0) by (nonlinear_arith)
            requires
                p + half < v * d + d,
                p + half >= 0,
                d > 0,
                v < 1,
        ;
        assert(r == 1);
        assert(other * d >= d) by (nonlinear_arith)
            requires
                other >= 1,
                d > 0,
        ;
        if other > 1 {
            assert(other * d >= 2 * d) by (nonlinear_arith)
                requires
                    other >= 2,
                    d > 0,
            ;
        }
    } else if v > u32::MAX {
        assert(r == u32::MAX);
        assert(v >= u32::MAX + 1);
        assert(v * d >= (u32::MAX + 1) * d) by (nonlinear_arith)
            requires
                v >= u32::MAX + 1,
                d > 0,
        ;
        assert(other * d <= u32::MAX * d) by (nonlinear_arith)
            requires
                other <= u32::MAX,
                d > 0,
        ;
    } else {
        assert(r == v);
        let a = p - v * d;
        assert(-half <= a && a < d - half);
        if other > v {
            assert(other * d >= v * d + d) by (nonlinear_arith)
                requires
                    other >= v + 1,
                    d > 0,
            ;
        } else if other < v {
            assert(other * d <= v * d - d) by (nonlinear_arith)
                requires
                    other <= v - 1,
                    d > 0,
            ;
        }
    }
}

/// Resizing to one side keeps the input's aspect ratio: the given side is
/// kept, and the other is a nearest whole side to the one that keeps the
/// ratio (for a height `h`: no width `w` brings `w / h` closer to
/// `input.width / input.height`, and every wider `w` is farther), at least 1.
pub proof fn lemma_resize_keeps_aspect<F: Fn(Size, u32, bool) -> Size>(
    width: Option<u32>,
    height: Option<u32>,
    filter: Filter,
    input: Size,
    r: Result<Size, PipelineError>,
    rot: F,
)
    requires
        !input.spec_is_empty(),
        output_relation(OpSpec::Resize { width, height, filter }, input, r, rot),
    ensures
        height matches Some(h) ==> (h >= 1 && width is None ==> (r matches Ok(s) && s.height == h
            && s.width >= 1 && forall|w: u32|
            w >= 1 ==> gap(s.width * input.height, h * input.width) <= gap(
                #[trigger] (w * input.height),
                h * input.width,
            ) && (w > s.width ==> gap(s.width * input.height, h * input.width) < gap(
                w * input.height,
                h * input.width,
            )))),
        width matches Some(w) ==> (w >= 1 && height is None ==> (r matches Ok(s) && s.width == w
            && s.height >= 1 && forall|h: u32|
            h >= 1 ==> gap(s.height * input.width, w * input.height) <= gap(
                #[trigger] (h * input.width),
                w * input.height,
            ) && (h > s.height ==> gap(s.height * input.width, w * input.height) < gap(
                h * input.width,
                w * input.height,
            )))),
{
    if width is None && height is Some {
        let h = height->Some_0;
        if h >= 1 {
            assert forall|w: u32| w >= 1 implies gap(r->Ok_0.width * input.height, h * input.width)
                <= gap(#[trigger] (w * input.height), h * input.width) && (w > r->Ok_0.width ==> gap(
                r->Ok_0.width * input.height,
                h * input.width,
            ) < gap(w * input.height, h * input.width)) by {
                lemma_keep_aspect_nearest(h, input.width, input.height, w);
            }
            lemma_keep_aspect_nearest(h, input.width, input.height, 1);
        }
    }
    if height is None && width is Some {
        let w = width->Some_0;
        if w >= 1 {
            assert forall|h: u32| h >= 1 implies gap(r->Ok_0.height * input.width, w * input.height)
                <= gap(#[trigger] (h * input.width), w * input.height) && (h > r->Ok_0.height ==> gap(
                r->Ok_0.height * input.width,
                w * input.height,
            ) < gap(h * input.width, w * input.height)) by {
                lemma_keep_aspect_nearest(w, input.height, input.width, h);
            }
            lemma_keep_aspect_nearest(w, input.height, input.width, 1);
        }
    }
}

/// What each op does to the image's size, read off a validation result `r`: a
/// resize to both sides gives exactly those sides, and one to neither is refused; a
/// crop gives its rectangle's size and is accepted exactly when the rectangle is
/// non-empty and lies inside the image; padding adds the left and right margins to
/// the width and the top and bottom ones to the height (unless a side passes
/// `u32::MAX`); beautify adds its padding on every side; every other op but a
/// rotation keeps the size whenever it is accepted.
pub proof fn lemma_output_sizes<F: Fn(Size, u32, bool) -> Size>(
    op: OpSpec,
    input: Size,
    r: Result<Size, PipelineError>,
    rot: F,
)
    requires
        output_relation(op, input, r, rot),
    ensures
        op matches OpSpec::Resize { width: Some(w), height: Some(h), .. } ==> (w >= 1 && h >= 1
            <==> r == Ok::<Size, PipelineError>(Size { width: w, height: h })),
        op matches OpSpec::Resize { width: None, height: None, .. } ==> r == Err::<
            Size,
            PipelineError,
        >(PipelineError::ResizeMissingDims),
        op matches OpSpec::Crop { x, y, width, height } ==> ((r is Ok <==> (width >= 1 && height
            >= 1 && x + width <= input.width && y + height <= input.height)) && (r is Ok ==> r
            == Ok::<Size, PipelineError>(Size { width, height }))),
        op matches OpSpec::Pad { left, right, top, bottom, .. } ==> ((input.width + left + right
            <= u32::MAX && input.height + top + bottom <= u32::MAX) <==> (r matches Ok(s)
            && s.width == input.width + left + right && s.height == input.height + top + bottom)),
        op matches OpSpec::Beautify { padding, .. } ==> (r matches Ok(s) ==> s.width == input.width
            + 2 * padding && s.height == input.height + 2 * padding),
        !(op is Resize || op is Crop || op is Pad || op is Beautify || op is Rotate) ==> (r matches Ok(
            s,
        ) ==> s == input),
{
}

/// `known * num / den`, rounded to nearest, clamped to ≥ 1.
pub fn keep_aspect(known: u32, num: u32, den: u32) -> (r: u32)
    requires
        den > 0,
    ensures
        r == spec_keep_aspect(known, num, den),
{
    proof {
        assert(known * num <= u32::MAX * u32::MAX) by (nonlinear_arith)
            requires
                known <= u32::MAX,
                num <= u32::MAX,
        ;
    }
    let v = (known as u64 * num as u64 + den as u64 / 2) / den as u64;
    let v = if v < 1 {
        1
    } else {
        v
    };
    if v > u32::MAX as u64 {
        u32::MAX
    } else {
        v as u32
    }
}

/// Stable machine name of each op (the JSON tag).
pub open spec fn spec_name(op: OpSpec) -> &'static str {
    match op {
        OpSpec::Resize { .. } => "resize",
        OpSpec::Crop { .. } => "crop",
        OpSpec::Exposure { .. } => "exposure",
        OpSpec::Grayscale => "grayscale",
        OpSpec::DrawRect { .. } => "draw_rect",
        OpSpec::DrawEllipse { .. } => "draw_ellipse",
        OpSpec::DrawLine { .. } => "draw_line",
        OpSpec::DrawArrow { .. } => "draw_arrow",
        OpSpec::DrawText { .. } => "draw_text",
        OpSpec::Rotate { .. } => "rotate",
        OpSpec::Flip { .. } => "flip",
        OpSpec::Pad { .. } => "pad",
        OpSpec::HueRotate { .. } => "hue_rotate",
        OpSpec::Invert => "invert",
        OpSpec::Blur { .. } => "blur",
        OpSpec::Redact { .. } => "redact",
        OpSpec::Spotlight { .. } => "spotlight",
        OpSpec::Beautify { .. } => "beautify",
        OpSpec::BrightnessContrast { .. } => "brightness_contrast",
        OpSpec::Saturation { .. } => "saturation",
        OpSpec::Levels { .. } => "levels",
        OpSpec::Curves { .. } => "curves",
        OpSpec::WhiteBalance { .. } => "white_balance",
        OpSpec::GradientMap { .. } => "gradient_map",
        OpSpec::Sharpen { .. } => "sharpen",
        OpSpec::Vignette { .. } => "vignette",
    }
}

pub open spec fn non_finite(op: &'static str, param: &'static str) -> Result<Size, PipelineError> {
    Err(PipelineError::NonFiniteParam { op, param })
}

pub open spec fn negative(op: &'static str) -> Result<Size, PipelineError> {
    Err(PipelineError::NegativeParam { op })
}

pub open spec fn geometry_not_finite(op: &'static str) -> Result<Size, PipelineError> {
    Err(PipelineError::NonFiniteParam { op, param: "geometry" })
}

/// Size after resizing `input` to the requested dimensions.
pub open spec fn spec_resize(width: Option<u32>, height: Option<u32>, input: Size) -> Result<
    Size,
    PipelineError,
> {
    let out = match (width, height) {
        (Some(w), Some(h)) => Size { width: w, height: h },
        (Some(w), None) => Size {
            width: w,
            height: spec_keep_aspect(w, input.height, input.width),
        },
        (None, Some(h)) => Size {
            width: spec_keep_aspect(h, input.width, input.height),
            height: h,
        },
        (None, None) => input,
    };
    if width is None && height is None {
        Err(PipelineError::ResizeMissingDims)
    } else if out.spec_is_empty() {
        Err(PipelineError::ZeroSize { op: "resize" })
    } else {
        Ok(out)
    }
}

/// `input` grown by the given margins, unless a side exceeds `u32::MAX`.
pub open spec fn spec_grow(op: &'static str, input: Size, dw: int, dh: int) -> Result<
    Size,
    PipelineError,
> {
    if input.width + dw > u32::MAX || input.height + dh > u32::MAX {
        Err(PipelineError::ResultTooLarge { op })
    } else {
        Ok(Size { width: (input.width + dw) as u32, height: (input.height + dh) as u32 })
    }
}

pub open spec fn curve_points_finite(points: Seq<[FloatBits; 2]>) -> bool {
    forall|i: int|
        0 <= i < points.len() ==> (#[trigger] points[i])[0].spec_is_finite()
            && points[i][1].spec_is_finite()
}

fn curve_points_are_finite(points: &Vec<[FloatBits; 2]>) -> (b: bool)
    ensures
        b == curve_points_finite(points@),
{
    let mut i: usize = 0;
    while i < points.len()
        invariant
            0 <= i <= points@.len(),
            forall|j: int|
                0 <= j < i ==> (#[trigger] points@[j])[0].spec_is_finite()
                    && points@[j][1].spec_is_finite(),
        decreases points@.len() - i,
    {
        let pt = points[i];
        if !pt[0].is_finite() || !pt[1].is_finite() {
            proof {
                assert(points@[i as int] == pt);
            }
            return false;
        }
        i = i + 1;
    }
    true
}

/// What validating `op` against an incoming image of size `input` gives, for
/// every op whose output size needs no trigonometry. For a finite rotation the
/// size is the rotation geometry's answer, which this function is not asked for
/// (it returns `input` there).
pub open spec fn spec_output_size(op: OpSpec, input: Size) -> Result<Size, PipelineError> {
    match op {
        OpSpec::Resize { width, height, .. } => spec_resize(width, height, input),
        OpSpec::Crop { x, y, width, height } => {
            let rect = Rect { x, y, width, height };
            if rect.spec_fits_in(input) {
                Ok(rect.spec_size())
            } else {
                Err(PipelineError::CropOutOfBounds { rect, image: input })
            }
        },
        OpSpec::Exposure { stops } => if stops.spec_is_finite() {
            Ok(input)
        } else {
            non_finite("exposure", "stops")
        },
        OpSpec::Grayscale => Ok(input),
        OpSpec::Rotate { degrees, .. } => if degrees.spec_is_finite() {
            Ok(input)
        } else {
            non_finite("rotate", "degrees")
        },
        OpSpec::Flip { .. } => Ok(input),
        OpSpec::Pad { left, right, top, bottom, .. } => spec_grow(
            "pad",
            input,
            left + right,
            top + bottom,
        ),
        OpSpec::HueRotate { degrees } => if degrees.spec_is_finite() {
            Ok(input)
        } else {
            non_finite("hue_rotate", "degrees")
        },
        OpSpec::Invert => Ok(input),
        OpSpec::Blur { radius } => if !radius.spec_is_finite() {
            non_finite("blur", "radius")
        } else if radius.spec_lt_zero() {
            negative("blur")
        } else {
            Ok(input)
        },
        OpSpec::Redact { x, y, width, height, mode } => {
            if !all_finite(seq![x, y, width, height]) {
                geometry_not_finite("redact")
            } else if width.spec_lt_zero() || height.spec_lt_zero() {
                negative("redact")
            } else {
                match mode {
                    RedactMode::Pixelate { block } => if block == 0 {
                        negative("redact")
                    } else {
                        Ok(input)
                    },
                    RedactMode::Blur { radius } => if !radius.spec_is_finite()
                        || radius.spec_lt_zero() {
                        negative("redact")
                    } else {
                        Ok(input)
                    },
                    RedactMode::Fill { .. } => Ok(input),
                }
            }
        },
        OpSpec::Spotlight { x, y, width, height, corner_radius, dim, feather, .. } => {
            if !all_finite(seq![x, y, width, height, corner_radius, dim, feather]) {
                geometry_not_finite("spotlight")
            } else if width.spec_lt_zero() || height.spec_lt_zero() || corner_radius.spec_lt_zero()
                || feather.spec_lt_zero() {
                negative("spotlight")
            } else {
                Ok(input)
            }
        },
        OpSpec::Beautify {
            padding,
            corner_radius,
            shadow_radius,
            shadow_opacity,
            shadow_offset,
            ..
        } => {
            if !all_finite(seq![corner_radius, shadow_radius, shadow_opacity, shadow_offset]) {
                geometry_not_finite("beautify")
            } else if corner_radius.spec_lt_zero() || shadow_radius.spec_lt_zero()
                || shadow_opacity.spec_lt_zero() {
                negative("beautify")
            } else {
                spec_grow("beautify", input, 2 * padding, 2 * padding)
            }
        },
        OpSpec::BrightnessContrast { brightness, contrast } => if all_finite(
            seq![brightness, contrast],
        ) {
            Ok(input)
        } else {
            geometry_not_finite("brightness_contrast")
        },
        OpSpec::Saturation { amount } => if amount.spec_is_finite() {
            Ok(input)
        } else {
            non_finite("saturation", "amount")
        },
        OpSpec::Levels { in_black, in_white, gamma, out_black, out_white } => {
            if !all_finite(seq![in_black, in_white, gamma, out_black, out_white]) {
                geometry_not_finite("levels")
            } else if gamma.spec_le_zero() {
                negative("levels")
            } else {
                Ok(input)
            }
        },
        OpSpec::Curves { points } => if curve_points_finite(points@) {
            Ok(input)
        } else {
            non_finite("curves", "points")
        },
        OpSpec::WhiteBalance { temperature, tint } => if all_finite(seq![temperature, tint]) {
            Ok(input)
        } else {
            geometry_not_finite("white_balance")
        },
        OpSpec::GradientMap { .. } => Ok(input),
        OpSpec::Sharpen { amount, radius } => if !all_finite(seq![amount, radius]) {
            geometry_not_finite("sharpen")
        } else if radius.spec_lt_zero() {
            negative("sharpen")
        } else {
            Ok(input)
        },
        OpSpec::Vignette { amount, feather, .. } => if !all_finite(seq![amount, feather]) {
            geometry_not_finite("vignette")
        } else if amount.spec_lt_zero() || feather.spec_lt_zero() {
            negative("vignette")
        } else {
            Ok(input)
        },
        OpSpec::DrawRect {
            x,
            y,
            width,
            height,
            corner_radius,
            fill,
            stroke,
            stroke_width,
        } => {
            if !all_finite(seq![x, y, width, height, corner_radius, stroke_width]) {
                geometry_not_finite("draw_rect")
            } else if width.spec_lt_zero() || height.spec_lt_zero() || corner_radius.spec_lt_zero()
                || stroke_width.spec_lt_zero() {
                negative("draw_rect")
            } else if fill is None && stroke is None {
                Err(PipelineError::NothingToDraw { op: "draw_rect" })
            } else {
                Ok(input)
            }
        },
        OpSpec::DrawEllipse { x, y, width, height, fill, stroke, stroke_width } => {
            if !all_finite(seq![x, y, width, height, stroke_width]) {
                geometry_not_finite("draw_ellipse")
            } else if width.spec_lt_zero() || height.spec_lt_zero() || stroke_width.spec_lt_zero() {
                negative("draw_ellipse")
            } else if fill is None && stroke is None {
                Err(PipelineError::NothingToDraw { op: "draw_ellipse" })
            } else {
                Ok(input)
            }
        },
        OpSpec::DrawLine { x1, y1, x2, y2, thickness, .. } => {
            if !all_finite(seq![x1, y1, x2, y2, thickness]) {
                geometry_not_finite("draw_line")
            } else if thickness.spec_lt_zero() {
                negative("draw_line")
            } else {
                Ok(input)
            }
        },
        OpSpec::DrawArrow { x1, y1, x2, y2, thickness, head_length, .. } => {
            if !all_finite(seq![x1, y1, x2, y2, thickness, head_length]) {
                geometry_not_finite("draw_arrow")
            } else if thickness.spec_lt_zero() || head_length.spec_lt_zero() {
                negative("draw_arrow")
            } else {
                Ok(input)
            }
        },
        OpSpec::DrawText { x, y, font_size, line_height, .. } => {
            if !all_finite(seq![x, y, font_size]) {
                geometry_not_finite("draw_text")
            } else if line_height matches Some(lh) && !lh.spec_is_finite() {
                non_finite("draw_text", "line_height")
            } else if font_size.spec_le_zero() {
                negative("draw_text")
            } else {
                Ok(input)
            }
        },
    }
}

/// `r` is what validating `op` on `input` gives, where a finite rotation's size
/// is one that the rotation geometry `rot` may return for
/// `(input, degrees bits, expand)`.
pub open spec fn output_relation<F: Fn(Size, u32, bool) -> Size>(
    op: OpSpec,
    input: Size,
    r: Result<Size, PipelineError>,
    rot: F,
) -> bool {
    match op {
        OpSpec::Rotate { degrees, expand } => if degrees.spec_is_finite() {
            r matches Ok(s) && call_ensures(rot, (input, degrees.0, expand), s)
        } else {
            r == spec_output_size(op, input)
        },
        _ => r == spec_output_size(op, input),
    }
}

/// The rotation geometry accepts every input, gives one size for each, and
/// keeps non-empty images non-empty.
pub open spec fn rotation_geometry_ok<F: Fn(Size, u32, bool) -> Size>(rot: F) -> bool {
    &&& forall|s: Size, b: u32, e: bool| #[trigger] rot.requires((s, b, e))
    &&& rotation_is_function(rot)
    &&& forall|s: Size, b: u32, e: bool, out: Size|
        #[trigger] call_ensures(rot, (s, b, e), out) && !s.spec_is_empty() ==> !out.spec_is_empty()
}

proof fn lemma_output_nonempty<F: Fn(Size, u32, bool) -> Size>(
    op: OpSpec,
    input: Size,
    out: Size,
    rot: F,
)
    requires
        !input.spec_is_empty(),
        rotation_geometry_ok(rot),
        output_relation(op, input, Ok(out), rot),
    ensures
        !out.spec_is_empty(),
{
    match op {
        OpSpec::Rotate { degrees, expand } => {
            if degrees.spec_is_finite() {
                assert(call_ensures(rot, (input, degrees.0, expand), out));
            }
        },
        _ => {},
    }
}

impl OpSpec {
    /// Stable machine name (matches the JSON tag).
    pub fn name(&self) -> (n: &'static str)
        ensures
            n == spec_name(*self),
    {
        match self {
            OpSpec::Resize { .. } => "resize",
            OpSpec::Crop { .. } => "crop",
            OpSpec::Exposure { .. } => "exposure",
            OpSpec::Grayscale => "grayscale",
            OpSpec::DrawRect { .. } => "draw_rect",
            OpSpec::DrawEllipse { .. } => "draw_ellipse",
            OpSpec::DrawLine { .. } => "draw_line",
            OpSpec::DrawArrow { .. } => "draw_arrow",
            OpSpec::DrawText { .. } => "draw_text",
            OpSpec::Rotate { .. } => "rotate",
            OpSpec::Flip { .. } => "flip",
            OpSpec::Pad { .. } => "pad",
            OpSpec::HueRotate { .. } => "hue_rotate",
            OpSpec::Invert => "invert",
            OpSpec::Blur { .. } => "blur",
            OpSpec::Redact { .. } => "redact",
            OpSpec::Spotlight { .. } => "spotlight",
            OpSpec::Beautify { .. } => "beautify",
            OpSpec::BrightnessContrast { .. } => "brightness_contrast",
            OpSpec::Saturation { .. } => "saturation",
            OpSpec::Levels { .. } => "levels",
            OpSpec::Curves { .. } => "curves",
            OpSpec::WhiteBalance { .. } => "white_balance",
            OpSpec::GradientMap { .. } => "gradient_map",
            OpSpec::Sharpen { .. } => "sharpen",
            OpSpec::Vignette { .. } => "vignette",
        }
    }

    /// Validate against the incoming image size; return the outgoing size.
    /// `rotation` gives the output size of a finite rotation: for
    /// `(input, degrees as f32 bits, expand)` it swaps or keeps the dimensions
    /// for quarter turns and otherwise grows to the rotated bounding box (or
    /// keeps the canvas when `expand` is false).
    #[verifier::rlimit(40)]
    pub fn output_size<F: Fn(Size, u32, bool) -> Size>(&self, input: Size, rotation: &F) -> (r:
        Result<Size, PipelineError>)
        requires
            !input.spec_is_empty(),
            rotation_geometry_ok(*rotation),
        ensures
            output_relation(*self, input, r, *rotation),
    {
        match self {
            OpSpec::Curves { points } => {
                if !curve_points_are_finite(points) {
                    return Err(PipelineError::NonFiniteParam { op: "curves", param: "points" });
                }
                Ok(input)
            },
            OpSpec::Resize { width, height, .. } => {
                let out = match (*width, *height) {
                    (None, None) => return Err(PipelineError::ResizeMissingDims),
                    (Some(w), Some(h)) => Size::new(w, h),
                    (Some(w), None) => Size::new(w, keep_aspect(w, input.height, input.width)),
                    (None, Some(h)) => Size::new(keep_aspect(h, input.width, input.height), h),
                };
                if out.is_empty() {
                    return Err(PipelineError::ZeroSize { op: "resize" });
                }
                Ok(out)
            },
            OpSpec::Crop { x, y, width, height } => {
                let rect = Rect::new(*x, *y, *width, *height);
                if !rect.fits_in(input) {
                    return Err(PipelineError::CropOutOfBounds { rect, image: input });
                }
                Ok(rect.size())
            },
            OpSpec::Exposure { stops } => {
                if !stops.is_finite() {
                    return Err(PipelineError::NonFiniteParam { op: "exposure", param: "stops" });
                }
                Ok(input)
            },
            OpSpec::Grayscale => Ok(input),
            OpSpec::Rotate { degrees, expand } => {
                if !degrees.is_finite() {
                    return Err(PipelineError::NonFiniteParam { op: "rotate", param: "degrees" });
                }
                Ok(rotation(input, degrees.0, *expand))
            },
            OpSpec::Flip { .. } => Ok(input),
            OpSpec::Pad { left, right, top, bottom, .. } => {
                let w = input.width as u64 + *left as u64 + *right as u64;
                let h = input.height as u64 + *top as u64 + *bottom as u64;
                if w > u32::MAX as u64 || h > u32::MAX as u64 {
                    return Err(PipelineError::ResultTooLarge { op: "pad" });
                }
                Ok(Size::new(w as u32, h as u32))
            },
            OpSpec::HueRotate { degrees } => {
                if !degrees.is_finite() {
                    return Err(PipelineError::NonFiniteParam { op: "hue_rotate", param: "degrees" });
                }
                Ok(input)
            },
            OpSpec::Invert => Ok(input),
            OpSpec::Blur { radius } => {
                if !radius.is_finite() {
                    return Err(PipelineError::NonFiniteParam { op: "blur", param: "radius" });
                }
                if radius.lt_zero() {
                    return Err(PipelineError::NegativeParam { op: "blur" });
                }
                Ok(input)
            },
            OpSpec::Redact { x, y, width, height, mode } => {
                let vals = [*x, *y, *width, *height];
                proof {
                    assert(vals@ =~= seq![*x, *y, *width, *height]);
                }
                check_finite("redact", &vals)?;
                if width.lt_zero() || height.lt_zero() {
                    return Err(PipelineError::NegativeParam { op: "redact" });
                }
                match mode {
                    RedactMode::Pixelate { block } => {
                        if *block == 0 {
                            return Err(PipelineError::NegativeParam { op: "redact" });
                        }
                    },
                    RedactMode::Blur { radius } => {
                        if !radius.is_finite() || radius.lt_zero() {
                            return Err(PipelineError::NegativeParam { op: "redact" });
                        }
                    },
                    RedactMode::Fill { .. } => {},
                }
                Ok(input)
            },
            OpSpec::Spotlight { x, y, width, height, corner_radius, dim, feather, .. } => {
                let vals = [*x, *y, *width, *height, *corner_radius, *dim, *feather];
                proof {
                    assert(vals@ =~= seq![*x, *y, *width, *height, *corner_radius, *dim, *feather]);
                }
                check_finite("spotlight", &vals)?;
                if width.lt_zero() || height.lt_zero() || corner_radius.lt_zero()
                    || feather.lt_zero() {
                    return Err(PipelineError::NegativeParam { op: "spotlight" });
                }
                Ok(input)
            },
            OpSpec::Beautify {
                padding,
                corner_radius,
                shadow_radius,
                shadow_opacity,
                shadow_offset,
                ..
            } => {
                let vals = [*corner_radius, *shadow_radius, *shadow_opacity, *shadow_offset];
                proof {
                    assert(vals@ =~= seq![
                        *corner_radius,
                        *shadow_radius,
                        *shadow_opacity,
                        *shadow_offset,
                    ]);
                }
                check_finite("beautify", &vals)?;
                if corner_radius.lt_zero() || shadow_radius.lt_zero() || shadow_opacity.lt_zero() {
                    return Err(PipelineError::NegativeParam { op: "beautify" });
                }
                let w = input.width as u64 + 2 * (*padding as u64);
                let h = input.height as u64 + 2 * (*padding as u64);
                if w > u32::MAX as u64 || h > u32::MAX as u64 {
                    return Err(PipelineError::ResultTooLarge { op: "beautify" });
                }
                Ok(Size::new(w as u32, h as u32))
            },
            OpSpec::BrightnessContrast { brightness, contrast } => {
                let vals = [*brightness, *contrast];
                proof {
                    assert(vals@ =~= seq![*brightness, *contrast]);
                }
                check_finite("brightness_contrast", &vals)?;
                Ok(input)
            },
            OpSpec::Saturation { amount } => {
                if !amount.is_finite() {
                    return Err(PipelineError::NonFiniteParam { op: "saturation", param: "amount" });
                }
                Ok(input)
            },
            OpSpec::Levels { in_black, in_white, gamma, out_black, out_white } => {
                let vals = [*in_black, *in_white, *gamma, *out_black, *out_white];
                proof {
                    assert(vals@ =~= seq![*in_black, *in_white, *gamma, *out_black, *out_white]);
                }
                check_finite("levels", &vals)?;
                if gamma.le_zero() {
                    return Err(PipelineError::NegativeParam { op: "levels" });
                }
                Ok(input)
            },
            OpSpec::WhiteBalance { temperature, tint } => {
                let vals = [*temperature, *tint];
                proof {
                    assert(vals@ =~= seq![*temperature, *tint]);
                }
                check_finite("white_balance", &vals)?;
                Ok(input)
            },
            OpSpec::GradientMap { .. } => Ok(input),
            OpSpec::Sharpen { amount, radius } => {
                let vals = [*amount, *radius];
                proof {
                    assert(vals@ =~= seq![*amount, *radius]);
                }
                check_finite("sharpen", &vals)?;
                if radius.lt_zero() {
                    return Err(PipelineError::NegativeParam { op: "sharpen" });
                }
                Ok(input)
            },
            OpSpec::Vignette { amount, feather, .. } => {
                let vals = [*amount, *feather];
                proof {
                    assert(vals@ =~= seq![*amount, *feather]);
                }
                check_finite("vignette", &vals)?;
                if amount.lt_zero() || feather.lt_zero() {
                    return Err(PipelineError::NegativeParam { op: "vignette" });
                }
                Ok(input)
            },
            OpSpec::DrawRect {
                x,
                y,
                width,
                height,
                corner_radius,
                fill,
                stroke,
                stroke_width,
            } => {
                let vals = [*x, *y, *width, *height, *corner_radius, *stroke_width];
                proof {
                    assert(vals@ =~= seq![*x, *y, *width, *height, *corner_radius, *stroke_width]);
                }
                check_finite("draw_rect", &vals)?;
                if width.lt_zero() || height.lt_zero() || corner_radius.lt_zero()
                    || stroke_width.lt_zero() {
                    return Err(PipelineError::NegativeParam { op: "draw_rect" });
                }
                if fill.is_none() && stroke.is_none() {
                    return Err(PipelineError::NothingToDraw { op: "draw_rect" });
                }
                Ok(input)
            },
            OpSpec::DrawEllipse { x, y, width, height, fill, stroke, stroke_width } => {
                let vals = [*x, *y, *width, *height, *stroke_width];
                proof {
                    assert(vals@ =~= seq![*x, *y, *width, *height, *stroke_width]);
                }
                check_finite("draw_ellipse", &vals)?;
                if width.lt_zero() || height.lt_zero() || stroke_width.lt_zero() {
                    return Err(PipelineError::NegativeParam { op: "draw_ellipse" });
                }
                if fill.is_none() && stroke.is_none() {
                    return Err(PipelineError::NothingToDraw { op: "draw_ellipse" });
                }
                Ok(input)
            },
            OpSpec::DrawLine { x1, y1, x2, y2, thickness, .. } => {
                let vals = [*x1, *y1, *x2, *y2, *thickness];
                proof {
                    assert(vals@ =~= seq![*x1, *y1, *x2, *y2, *thickness]);
                }
                check_finite("draw_line", &vals)?;
                if thickness.lt_zero() {
                    return Err(PipelineError::NegativeParam { op: "draw_line" });
                }
                Ok(input)
            },
            OpSpec::DrawArrow { x1, y1, x2, y2, thickness, head_length, .. } => {
                let vals = [*x1, *y1, *x2, *y2, *thickness, *head_length];
                proof {
                    assert(vals@ =~= seq![*x1, *y1, *x2, *y2, *thickness, *head_length]);
                }
                check_finite("draw_arrow", &vals)?;
                if thickness.lt_zero() || head_length.lt_zero() {
                    return Err(PipelineError::NegativeParam { op: "draw_arrow" });
                }
                Ok(input)
            },
            OpSpec::DrawText { x, y, font_size, line_height, .. } => {
                let vals = [*x, *y, *font_size];
                proof {
                    assert(vals@ =~= seq![*x, *y, *font_size]);
                }
                check_finite("draw_text", &vals)?;
                if let Some(lh) = line_height {
                    if !lh.is_finite() {
                        return Err(
                            PipelineError::NonFiniteParam { op: "draw_text", param: "line_height" },
                        );
                    }
                }
                if font_size.le_zero() {
                    return Err(PipelineError::NegativeParam { op: "draw_text" });
                }
                Ok(input)
            },
        }
    }
}

/// An ordered, linear chain of operations, executed top to bottom.
#[derive(Debug, Clone, PartialEq, Eq)]
pub struct Pipeline {
    pub version: u32,
    pub steps: Vec<OpSpec>,
}

/// The pipeline format version this build reads.
pub const CURRENT_VERSION: u32 = 0;

/// The size flowing into step `i`, given the sizes after each earlier step.
pub open spec fn size_before(input: Size, sizes: Seq<Size>, i: int) -> Size {
    if i == 0 {
        input
    } else {
        sizes[i - 1]
    }
}

/// `sizes[i]` is the size after step `i`, for every step of `steps`.
pub open spec fn sizes_flow<F: Fn(Size, u32, bool) -> Size>(
    steps: Seq<OpSpec>,
    input: Size,
    sizes: Seq<Size>,
    rot: F,
) -> bool {
    &&& sizes.len() == steps.len()
    &&& forall|i: int|
        0 <= i < steps.len() ==> output_relation(
            #[trigger] steps[i],
            size_before(input, sizes, i),
            Ok(sizes[i]),
            rot,
        )
}

/// Step `index` is the first that fails, with `err`.
pub open spec fn fails_at<F: Fn(Size, u32, bool) -> Size>(
    steps: Seq<OpSpec>,
    input: Size,
    index: int,
    err: PipelineError,
    rot: F,
) -> bool {
    &&& 0 <= index < steps.len()
    &&& exists|pre: Seq<Size>|
        #![trigger sizes_flow(steps.take(index), input, pre, rot)]
        sizes_flow(steps.take(index), input, pre, rot) && output_relation(
            steps[index],
            size_before(input, pre, index),
            Err(err),
            rot,
        )
}

/// The rotation geometry gives one size for each input.
pub open spec fn rotation_is_function<F: Fn(Size, u32, bool) -> Size>(rot: F) -> bool {
    forall|s: Size, b: u32, e: bool, o1: Size, o2: Size|
        #[trigger] call_ensures(rot, (s, b, e), o1) && #[trigger] call_ensures(rot, (s, b, e), o2) ==> o1
            == o2
}

proof fn lemma_output_unique<F: Fn(Size, u32, bool) -> Size>(
    op: OpSpec,
    input: Size,
    r1: Result<Size, PipelineError>,
    r2: Result<Size, PipelineError>,
    rot: F,
)
    requires
        rotation_is_function(rot),
        output_relation(op, input, r1, rot),
        output_relation(op, input, r2, rot),
    ensures
        r1 == r2,
{
    match op {
        OpSpec::Rotate { degrees, expand } => {
            if degrees.spec_is_finite() {
                let s1 = r1->Ok_0;
                let s2 = r2->Ok_0;
                assert(call_ensures(rot, (input, degrees.0, expand), s1));
                assert(call_ensures(rot, (input, degrees.0, expand), s2));
            }
        },
        _ => {},
    }
}

/// Two size flows over prefixes of the same steps agree where both reach.
proof fn lemma_flows_agree<F: Fn(Size, u32, bool) -> Size>(
    steps: Seq<OpSpec>,
    input: Size,
    k1: int,
    a: Seq<Size>,
    k2: int,
    b: Seq<Size>,
    m: int,
    rot: F,
)
    requires
        rotation_is_function(rot),
        0 <= k1 <= k2 <= steps.len(),
        sizes_flow(steps.take(k1), input, a, rot),
        sizes_flow(steps.take(k2), input, b, rot),
        0 <= m < k1,
    ensures
        a[m] == b[m],
    decreases m,
{
    if m > 0 {
        lemma_flows_agree(steps, input, k1, a, k2, b, m - 1, rot);
    }
    assert(steps.take(k1)[m] == steps[m]);
    assert(steps.take(k2)[m] == steps[m]);
    assert(size_before(input, a, m) == size_before(input, b, m));
    lemma_output_unique(steps[m], size_before(input, a, m), Ok(a[m]), Ok(b[m]), rot);
}

/// The failure that validation reports is the first one: no two steps can
/// both be the first to fail, the failing step's error is determined, and no
/// size flow gets past it.
pub proof fn lemma_first_failure<F: Fn(Size, u32, bool) -> Size>(
    steps: Seq<OpSpec>,
    input: Size,
    i: int,
    e1: PipelineError,
    rot: F,
)
    requires
        rotation_geometry_ok(rot),
        fails_at(steps, input, i, e1, rot),
    ensures
        forall|j: int, e2: PipelineError|
            #[trigger] fails_at(steps, input, j, e2, rot) ==> j == i && e2 == e1,
        forall|k: int, sizes: Seq<Size>|
            i < k <= steps.len() ==> !#[trigger] sizes_flow(steps.take(k), input, sizes, rot),
{
    let a = choose|pre: Seq<Size>|
        sizes_flow(steps.take(i), input, pre, rot) && output_relation(
            steps[i],
            size_before(input, pre, i),
            Err(e1),
            rot,
        );
    assert forall|k: int, sizes: Seq<Size>|
        i < k <= steps.len() implies !#[trigger] sizes_flow(steps.take(k), input, sizes, rot) by {
        if sizes_flow(steps.take(k), input, sizes, rot) {
            if i > 0 {
                lemma_flows_agree(steps, input, i, a, k, sizes, i - 1, rot);
            }
            assert(size_before(input, a, i) == size_before(input, sizes, i));
            assert(steps.take(k)[i] == steps[i]);
            lemma_output_unique(steps[i], size_before(input, a, i), Err(e1), Ok(sizes[i]), rot);
        }
    }
    assert forall|j: int, e2: PipelineError|
        #[trigger] fails_at(steps, input, j, e2, rot) implies j == i && e2 == e1 by {
        let b = choose|pre: Seq<Size>|
            sizes_flow(steps.take(j), input, pre, rot) && output_relation(
                steps[j],
                size_before(input, pre, j),
                Err(e2),
                rot,
            );
        if j > i {
            assert(!sizes_flow(steps.take(j), input, b, rot));
        } else if j < i {
            if j > 0 {
                lemma_flows_agree(steps, input, j, b, i, a, j - 1, rot);
            }
            assert(size_before(input, a, j) == size_before(input, b, j));
            assert(steps.take(i)[j] == steps[j]);
            lemma_output_unique(steps[j], size_before(input, b, j), Err(e2), Ok(a[j]), rot);
        } else {
            if j > 0 {
                lemma_flows_agree(steps, input, j, b, i, a, j - 1, rot);
            }
            assert(size_before(input, a, j) == size_before(input, b, j));
            lemma_output_unique(steps[j], size_before(input, b, j), Err(e2), Err(e1), rot);
        }
    }
}

impl Pipeline {
    /// Validate every step against the flowing image size.
    /// Returns the size after each step (same length as `steps`).
    pub fn validate<F: Fn(Size, u32, bool) -> Size>(&self, input: Size, rotation: &F) -> (r:
        Result<Vec<Size>, PipelineError>)
        requires
            rotation_geometry_ok(*rotation),
        ensures
            self.version > CURRENT_VERSION ==> r == Err::<Vec<Size>, PipelineError>(
                PipelineError::UnsupportedVersion(self.version),
            ),
            self.version <= CURRENT_VERSION && input.spec_is_empty() ==> r == Err::<
                Vec<Size>,
                PipelineError,
            >(PipelineError::ZeroSize { op: "input" }),
            self.version <= CURRENT_VERSION && !input.spec_is_empty() ==> match r {
                Ok(sizes) => sizes_flow(self.steps@, input, sizes@, *rotation),
                Err(PipelineError::AtStep { index, source }) => fails_at(
                    self.steps@,
                    input,
                    index as int,
                    *source,
                    *rotation,
                ),
                Err(_) => false,
            },
    {
        if self.version > CURRENT_VERSION {
            return Err(PipelineError::UnsupportedVersion(self.version));
        }
        if input.is_empty() {
            return Err(PipelineError::ZeroSize { op: "input" });
        }
        let mut cur = input;
        let mut sizes: Vec<Size> = Vec::with_capacity(self.steps.len());
        let mut i: usize = 0;
        while i < self.steps.len()
            invariant
                0 <= i <= self.steps@.len(),
                self.version <= CURRENT_VERSION,
                rotation_geometry_ok(*rotation),
                !input.spec_is_empty(),
                !cur.spec_is_empty(),
                cur == size_before(input, sizes@, i as int),
                sizes_flow(self.steps@.take(i as int), input, sizes@, *rotation),
            decreases self.steps@.len() - i,
        {
            let step = &self.steps[i];
            match step.output_size(cur, rotation) {
                Ok(next) => {
                    proof {
                        lemma_output_nonempty(*step, cur, next, *rotation);
                    }
                    let ghost old_sizes = sizes@;
                    sizes.push(next);
                    cur = next;
                    proof {
                        let steps = self.steps@.take(i + 1);
                        assert forall|j: int| 0 <= j < steps.len() implies output_relation(
                            #[trigger] steps[j],
                            size_before(input, sizes@, j),
                            Ok(sizes@[j]),
                            *rotation,
                        ) by {
                            if j < i {
                                assert(self.steps@.take(i as int)[j] == steps[j]);
                                assert(size_before(input, sizes@, j) == size_before(
                                    input,
                                    old_sizes,
                                    j,
                                ));
                            }
                        }
                    }
                },
                Err(e) => {
                    proof {
                        assert(sizes_flow(self.steps@.take(i as int), input, sizes@, *rotation));
                    }
                    return Err(PipelineError::AtStep { index: i, source: Box::new(e) });
                },
            }
            i = i + 1;
        }
        proof {
            assert(self.steps@.take(i as int) =~= self.steps@);
        }
        Ok(sizes)
    }
}

} // verus!
