use craws::color::Rgba8;
use craws::parse::{
    parse_align_x, parse_align_y, parse_axis, parse_color, parse_color_opt,
    parse_diff_view, parse_filter, parse_redact_mode, DiffView, ParamError,
};
use craws::pipeline::{AlignX, AlignY, Filter, FlipAxis, FloatBits, RedactMode};

fn fb(x: f32) -> FloatBits {
    FloatBits(x.to_bits())
}

#[test]
fn parses_hex_and_names() {
    assert_eq!(parse_color("#ff0000").unwrap(), Rgba8::new(255, 0, 0, 255));
    assert_eq!(parse_color("#f00").unwrap(), Rgba8::new(255, 0, 0, 255), "short hex expands");
    assert_eq!(parse_color("#00ff0080").unwrap(), Rgba8::new(0, 255, 0, 128), "8-digit carries alpha");
    assert_eq!(parse_color("  red ").unwrap(), Rgba8::rgb(255, 0, 0), "names, trimmed");
    assert_eq!(parse_color("transparent").unwrap().a, 0);
    assert!(parse_color("#zz").is_err());
    assert!(parse_color("chartreuse").is_err());
}

#[test]
fn optional_color_passthrough() {
    assert!(parse_color_opt(None).unwrap().is_none());
    assert!(parse_color_opt(Some("blue")).unwrap().is_some());
    assert!(parse_color_opt(Some("nope")).is_err());
}

#[test]
fn parses_flip_axis() {
    assert_eq!(parse_axis("horizontal").unwrap(), FlipAxis::Horizontal);
    assert_eq!(parse_axis(" Vertical ").unwrap(), FlipAxis::Vertical);
    assert_eq!(parse_axis("x").unwrap(), FlipAxis::Horizontal);
    assert_eq!(parse_axis("y").unwrap(), FlipAxis::Vertical);
    assert!(parse_axis("diagonal").is_err());
}

#[test]
fn parses_redact_mode() {
    assert_eq!(parse_redact_mode(None, None, None, None).unwrap(), RedactMode::Pixelate { block: 12 });
    assert_eq!(parse_redact_mode(Some("pixelate"), Some(20), None, None).unwrap(), RedactMode::Pixelate { block: 20 });
    assert_eq!(parse_redact_mode(Some("blur"), None, Some(fb(8.0)), None).unwrap(), RedactMode::Blur { radius: fb(8.0) });
    assert_eq!(parse_redact_mode(Some("fill"), None, None, Some("red")).unwrap(), RedactMode::Fill { color: Rgba8::rgb(255, 0, 0) });
    assert_eq!(parse_redact_mode(Some("fill"), None, None, None).unwrap(), RedactMode::Fill { color: Rgba8::rgb(0, 0, 0) });
    assert!(parse_redact_mode(Some("scramble"), None, None, None).is_err());
    assert!(parse_redact_mode(Some("pixelate"), Some(0), None, None).unwrap() == RedactMode::Pixelate { block: 1 }, "block clamps to >=1");
}

#[test]
fn parses_diff_view() {
    assert_eq!(parse_diff_view(None).unwrap(), DiffView::Heatmap);
    assert_eq!(parse_diff_view(Some("difference")).unwrap(), DiffView::Difference);
    assert_eq!(parse_diff_view(Some("side_by_side")).unwrap(), DiffView::SideBySide);
    assert!(parse_diff_view(Some("onion")).is_err());
}

#[test]
fn color_forms_and_errors() {
    assert_eq!(parse_color("#F0A8").unwrap(), Rgba8::new(255, 0, 170, 136), "4-digit short form");
    assert_eq!(parse_color("GREY").unwrap(), Rgba8::rgb(128, 128, 128));
    assert_eq!(parse_color("#12345").unwrap_err(), ParamError::BadColor, "five digits");
    assert_eq!(parse_color("#+f+f+f").unwrap_err(), ParamError::BadColor, "a hex pair is two hex digits");
    assert_eq!(parse_color("").unwrap_err(), ParamError::BadColor);
    assert_eq!(parse_color("#aé000").unwrap_err(), ParamError::BadColor, "a two-byte character is no hex digit");
    assert_eq!(parse_color("#aééb").unwrap_err(), ParamError::BadColor);
    assert_eq!(parse_color("#zz").unwrap_err(), ParamError::BadColor);
    assert_eq!(parse_color("#aabbcc").unwrap(), Rgba8::rgb(0xaa, 0xbb, 0xcc));
}

#[test]
fn alignment_and_filter_defaults() {
    assert_eq!(parse_align_x(None).unwrap(), AlignX::Left);
    assert_eq!(parse_align_x(Some(" center")).unwrap(), AlignX::Center);
    assert_eq!(parse_align_x(Some("")).unwrap(), AlignX::Left);
    assert_eq!(parse_align_x(Some("middle")).unwrap_err(), ParamError::BadAlignX);
    assert_eq!(parse_align_y(None).unwrap(), AlignY::Baseline);
    assert_eq!(parse_align_y(Some("bottom")).unwrap(), AlignY::Bottom);
    assert_eq!(parse_align_y(Some("Top")).unwrap_err(), ParamError::BadAlignY, "case matters");
    assert_eq!(parse_filter(None).unwrap(), Filter::Lanczos3);
    assert_eq!(parse_filter(Some("catmull_rom")).unwrap(), Filter::CatmullRom);
    assert_eq!(parse_filter(Some(" nearest")).unwrap_err(), ParamError::UnknownFilter, "not trimmed");
    assert_eq!(parse_diff_view(Some("sxs")).unwrap(), DiffView::SideBySide);
    assert_eq!(parse_redact_mode(Some(" MOSAIC "), None, None, None).unwrap(), RedactMode::Pixelate { block: 12 });
    assert_eq!(parse_redact_mode(Some("bar"), None, None, Some("nope")).unwrap_err(), ParamError::BadColor);
    assert_eq!(parse_redact_mode(Some("blur"), None, None, None).unwrap(), RedactMode::Blur { radius: fb(12.0) });
}
