use craws::color::Rgba8;
use craws::geometry::Size;
use craws::pipeline::{
    black, transparent, Filter, FlipAxis, FloatBits, OpSpec, Pipeline, PipelineError, RedactMode,
};

fn px(w: u32, h: u32) -> Size {
    Size::new(w, h)
}

fn fb(x: f32) -> FloatBits {
    FloatBits(x.to_bits())
}

/// Output size of a rotation: multiples of 90° swap or keep dimensions;
/// other angles grow to the rotated bounding box (`expand`) or keep the size.
fn rotated_size(input: Size, degrees: f32, expand: bool) -> Size {
    let norm = degrees.rem_euclid(360.0);
    let q = (norm / 90.0).round();
    let is_ortho = (norm - q * 90.0).abs() < 1e-3;
    if is_ortho {
        let k = (q as i64).rem_euclid(4);
        return if k == 1 || k == 3 { Size::new(input.height, input.width) } else { input };
    }
    if !expand {
        return input;
    }
    let r = norm.to_radians();
    let (s, c) = (r.sin().abs(), r.cos().abs());
    let w = (input.width as f32 * c + input.height as f32 * s).ceil().max(1.0);
    let h = (input.width as f32 * s + input.height as f32 * c).ceil().max(1.0);
    Size::new(w as u32, h as u32)
}

fn rot(s: Size, bits: u32, expand: bool) -> Size {
    rotated_size(s, f32::from_bits(bits), expand)
}

fn out(op: &OpSpec, s: Size) -> Result<Size, PipelineError> {
    op.output_size(s, &rot)
}

fn validate(p: &Pipeline, s: Size) -> Result<Vec<Size>, PipelineError> {
    p.validate(s, &rot)
}

#[test]
fn resize_keeps_aspect() {
    let op = OpSpec::Resize { width: Some(1600), height: None, filter: Filter::default() };
    assert_eq!(out(&op, px(3200, 2000)).unwrap(), px(1600, 1000));
    // rounding, and the ≥1 clamp on extreme ratios
    let op = OpSpec::Resize { width: Some(1), height: None, filter: Filter::default() };
    assert_eq!(out(&op, px(10000, 100)).unwrap(), px(1, 1));
}

#[test]
fn draw_ops_keep_size_and_validate() {
    let red = Rgba8::rgb(255, 0, 0);
    // draw ops never change the image size
    let ops = [
        OpSpec::DrawRect { x: fb(1.0), y: fb(1.0), width: fb(10.0), height: fb(8.0), corner_radius: fb(2.0), fill: None, stroke: Some(red), stroke_width: fb(3.0) },
        OpSpec::DrawEllipse { x: fb(0.0), y: fb(0.0), width: fb(20.0), height: fb(20.0), fill: Some(red), stroke: None, stroke_width: fb(3.0) },
        OpSpec::DrawLine { x1: fb(0.0), y1: fb(0.0), x2: fb(5.0), y2: fb(5.0), color: red, thickness: fb(2.0) },
        OpSpec::DrawArrow { x1: fb(0.0), y1: fb(0.0), x2: fb(9.0), y2: fb(0.0), color: red, thickness: fb(2.0), head_length: fb(6.0) },
    ];
    for op in ops {
        assert_eq!(out(&op, px(100, 80)).unwrap(), px(100, 80), "{}", op.name());
    }

    // a rect with neither fill nor stroke is nothing to draw
    let empty = OpSpec::DrawRect { x: fb(0.0), y: fb(0.0), width: fb(5.0), height: fb(5.0), corner_radius: fb(0.0), fill: None, stroke: None, stroke_width: fb(3.0) };
    assert!(matches!(out(&empty, px(10, 10)), Err(PipelineError::NothingToDraw { .. })));

    // non-finite geometry is rejected
    let nan = OpSpec::DrawLine { x1: fb(f32::NAN), y1: fb(0.0), x2: fb(1.0), y2: fb(1.0), color: red, thickness: fb(1.0) };
    assert!(matches!(out(&nan, px(10, 10)), Err(PipelineError::NonFiniteParam { .. })));
}

#[test]
fn validation_errors() {
    let bad_crop = Pipeline { version: 0, steps: vec![OpSpec::Crop { x: 0, y: 0, width: 200, height: 1 }] };
    assert!(matches!(validate(&bad_crop, px(100, 100)), Err(PipelineError::AtStep { index: 0, .. })));

    let no_dims = OpSpec::Resize { width: None, height: None, filter: Filter::default() };
    assert_eq!(out(&no_dims, px(1, 1)), Err(PipelineError::ResizeMissingDims));

    let nan = OpSpec::Exposure { stops: fb(f32::NAN) };
    assert!(matches!(out(&nan, px(1, 1)), Err(PipelineError::NonFiniteParam { .. })));

    let future = Pipeline { version: 999, steps: vec![] };
    assert_eq!(validate(&future, px(1, 1)), Err(PipelineError::UnsupportedVersion(999)));
}

#[test]
fn sizes_flow_through_chain() {
    let p = Pipeline {
        version: 0,
        steps: vec![
            OpSpec::Resize { width: Some(800), height: Some(600), filter: Filter::default() },
            OpSpec::Crop { x: 0, y: 0, width: 640, height: 480 },
            OpSpec::Grayscale,
        ],
    };
    assert_eq!(validate(&p, px(4000, 3000)).unwrap(), vec![px(800, 600), px(640, 480), px(640, 480)]);
}

#[test]
fn rotate_output_size() {
    let img = px(800, 600);
    // orthogonal: 90/270 swap, 0/180 keep — expand is irrelevant here
    for (deg, want) in [(0.0, px(800, 600)), (90.0, px(600, 800)), (180.0, px(800, 600)), (270.0, px(600, 800)), (-90.0, px(600, 800))] {
        let op = OpSpec::Rotate { degrees: fb(deg), expand: true };
        assert_eq!(out(&op, img).unwrap(), want, "{deg}°");
    }
    // 45° expand grows to the rotated bbox: (800+600)/√2 ≈ 989.9 → 990 both sides
    let op = OpSpec::Rotate { degrees: fb(45.0), expand: true };
    assert_eq!(out(&op, img).unwrap(), px(990, 990));
    // 45° no-expand keeps the canvas
    let op = OpSpec::Rotate { degrees: fb(45.0), expand: false };
    assert_eq!(out(&op, img).unwrap(), img);
    // non-finite angle is rejected
    let nan = OpSpec::Rotate { degrees: fb(f32::NAN), expand: true };
    assert!(matches!(out(&nan, img), Err(PipelineError::NonFiniteParam { .. })));
}

#[test]
fn flip_keeps_size_and_pad_grows() {
    let img = px(100, 80);
    assert_eq!(out(&OpSpec::Flip { axis: FlipAxis::Horizontal }, img).unwrap(), img);
    assert_eq!(out(&OpSpec::Flip { axis: FlipAxis::Vertical }, img).unwrap(), img);

    let pad = OpSpec::Pad { left: 10, right: 20, top: 5, bottom: 15, color: transparent() };
    assert_eq!(out(&pad, img).unwrap(), px(130, 100));

    // absurd padding overflows u32 and is rejected, not silently wrapped
    let huge = OpSpec::Pad { left: u32::MAX, right: 0, top: 0, bottom: 0, color: transparent() };
    assert!(matches!(out(&huge, img), Err(PipelineError::ResultTooLarge { .. })));
}

#[test]
fn color_and_filter_ops_keep_size() {
    let img = px(200, 150);
    for op in [
        OpSpec::HueRotate { degrees: fb(90.0) },
        OpSpec::Invert,
        OpSpec::Blur { radius: fb(4.0) },
        OpSpec::Redact { x: fb(10.0), y: fb(10.0), width: fb(50.0), height: fb(30.0), mode: RedactMode::default() },
        OpSpec::Spotlight { x: fb(20.0), y: fb(20.0), width: fb(80.0), height: fb(60.0), corner_radius: fb(8.0), dim: fb(0.6), color: black(), feather: fb(4.0) },
    ] {
        assert_eq!(out(&op, img).unwrap(), img, "{} keeps size", op.name());
    }
    // beautify grows by 2·padding
    let b = OpSpec::Beautify { padding: 40, corner_radius: fb(16.0), shadow_radius: fb(24.0), shadow_opacity: fb(0.35), shadow_offset: fb(12.0), background: transparent() };
    assert_eq!(out(&b, img).unwrap(), px(280, 230));
}

#[test]
fn tonal_ops_keep_size_and_validate() {
    let img = px(200, 150);
    for op in [
        OpSpec::BrightnessContrast { brightness: fb(0.1), contrast: fb(0.2) },
        OpSpec::Saturation { amount: fb(1.4) },
        OpSpec::Levels { in_black: fb(0.05), in_white: fb(0.95), gamma: fb(1.2), out_black: fb(0.0), out_white: fb(1.0) },
        OpSpec::Curves { points: vec![[fb(0.0), fb(0.0)], [fb(0.5), fb(0.6)], [fb(1.0), fb(1.0)]] },
        OpSpec::WhiteBalance { temperature: fb(0.3), tint: fb(-0.1) },
        OpSpec::GradientMap { low: black(), high: Rgba8::rgb(255, 255, 255), mid: None },
        OpSpec::Sharpen { amount: fb(1.0), radius: fb(2.0) },
        OpSpec::Vignette { amount: fb(0.5), feather: fb(0.5), color: black() },
    ] {
        assert_eq!(out(&op, img).unwrap(), img, "{} keeps size", op.name());
    }
    // rejections
    assert!(matches!(out(&OpSpec::Levels { in_black: fb(0.0), in_white: fb(1.0), gamma: fb(0.0), out_black: fb(0.0), out_white: fb(1.0) }, img), Err(PipelineError::NegativeParam { .. })), "gamma > 0");
    assert!(matches!(out(&OpSpec::Curves { points: vec![[fb(f32::NAN), fb(0.0)]] }, img), Err(PipelineError::NonFiniteParam { .. })));
    assert!(matches!(out(&OpSpec::Vignette { amount: fb(-1.0), feather: fb(0.5), color: black() }, img), Err(PipelineError::NegativeParam { .. })));
}

#[test]
fn text_keeps_size_and_needs_a_positive_font_size() {
    let text = |font_size: f32| OpSpec::DrawText {
        x: fb(0.0),
        y: fb(0.0),
        text: "Hello\nмир".to_string(),
        color: Rgba8::rgb(0, 0, 0),
        font_size: fb(font_size),
        font: None,
        align_x: Default::default(),
        align_y: Default::default(),
        line_height: None,
    };
    assert_eq!(text(24.0).name(), "draw_text");
    assert_eq!(out(&text(24.0), px(200, 100)).unwrap(), px(200, 100));
    assert!(matches!(out(&text(0.0), px(10, 10)), Err(PipelineError::NegativeParam { .. })));
}

#[test]
fn step_errors_name_the_failing_step() {
    let p = Pipeline {
        version: 0,
        steps: vec![OpSpec::Grayscale, OpSpec::Blur { radius: fb(-1.0) }],
    };
    match validate(&p, px(10, 10)) {
        Err(PipelineError::AtStep { index, source }) => {
            assert_eq!(index, 1);
            assert!(matches!(*source, PipelineError::NegativeParam { op: "blur" }));
        }
        other => panic!("unexpected {other:?}"),
    }
    assert_eq!(validate(&p, px(0, 10)), Err(PipelineError::ZeroSize { op: "input" }));
}

#[test]
fn float_bits_classify_exactly() {
    assert!(fb(1.5).is_finite() && !fb(f32::INFINITY).is_finite() && !fb(f32::NAN).is_finite());
    assert!(fb(-0.5).lt_zero() && !fb(-0.0).lt_zero() && !fb(0.0).lt_zero() && !fb(f32::NAN).lt_zero());
    assert!(fb(-0.0).le_zero() && fb(0.0).le_zero() && !fb(1e-30).le_zero() && !fb(f32::NAN).le_zero());
}
