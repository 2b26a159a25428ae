use craws::color::Rgba8;
use craws::parse::ParamError;
use craws::pipeline::{Filter, FlipAxis, OpSpec};
use craws::tools::{CollageOptions, CollageParams, CropParams, FlipParams, GradientMapParams, PadParams, ResizeParams};

#[test]
fn resize_params_default_to_lanczos() {
    let p = ResizeParams { image_id: "img-1".into(), width: Some(320), height: None, filter: None };
    assert_eq!(p.op().unwrap(), OpSpec::Resize { width: Some(320), height: None, filter: Filter::Lanczos3 });
    let p = ResizeParams { image_id: "img-1".into(), width: None, height: Some(9), filter: Some("bilinear".into()) };
    assert_eq!(p.op().unwrap(), OpSpec::Resize { width: None, height: Some(9), filter: Filter::Bilinear });
    let p = ResizeParams { image_id: "img-1".into(), width: None, height: Some(9), filter: Some("cubic".into()) };
    assert_eq!(p.op().unwrap_err(), ParamError::UnknownFilter);
}

#[test]
fn crop_and_flip_params() {
    let c = CropParams { image_id: "img-1".into(), x: 10, y: 10, width: 300, height: 180 };
    assert_eq!(c.op(), OpSpec::Crop { x: 10, y: 10, width: 300, height: 180 });
    let f = FlipParams { image_id: "img-1".into(), axis: " V ".into() };
    assert_eq!(f.op().unwrap(), OpSpec::Flip { axis: FlipAxis::Vertical });
    let f = FlipParams { image_id: "img-1".into(), axis: "z".into() };
    assert_eq!(f.op().unwrap_err(), ParamError::BadAxis);
}

#[test]
fn pad_params_fill_unset_sides_from_all() {
    let p = PadParams { image_id: "i".into(), all: Some(8), left: Some(2), right: None, top: None, bottom: Some(0), color: None };
    assert_eq!(p.op().unwrap(), OpSpec::Pad { left: 2, right: 8, top: 8, bottom: 0, color: Rgba8::new(0, 0, 0, 0) });
    let p = PadParams { image_id: "i".into(), all: None, left: None, right: Some(1), top: None, bottom: None, color: Some("white".into()) };
    assert_eq!(p.op().unwrap(), OpSpec::Pad { left: 0, right: 1, top: 0, bottom: 0, color: Rgba8::rgb(255, 255, 255) });
    let p = PadParams { image_id: "i".into(), all: None, left: None, right: None, top: None, bottom: None, color: Some("mauve".into()) };
    assert_eq!(p.op().unwrap_err(), ParamError::BadColor);
}

#[test]
fn gradient_map_params() {
    let g = GradientMapParams { image_id: "i".into(), low: "black".into(), high: "#fff".into(), mid: Some("red".into()) };
    assert_eq!(
        g.op().unwrap(),
        OpSpec::GradientMap { low: Rgba8::rgb(0, 0, 0), high: Rgba8::rgb(255, 255, 255), mid: Some(Rgba8::rgb(255, 0, 0)) }
    );
    let g = GradientMapParams { image_id: "i".into(), low: "black".into(), high: "nope".into(), mid: None };
    assert_eq!(g.op().unwrap_err(), ParamError::BadColor);
}

#[test]
fn collage_params_defaults_and_floor() {
    let p = CollageParams { image_ids: vec![], target_width: None, row_height: Some(0), gap: None, background: None };
    assert_eq!(
        p.options().unwrap(),
        CollageOptions { target_width: 1600, row_height: 1, gap: 12, background: Rgba8::rgb(255, 255, 255) }
    );
    let p = CollageParams { image_ids: vec![], target_width: Some(0), row_height: None, gap: Some(0), background: Some("black".into()) };
    assert_eq!(
        p.options().unwrap(),
        CollageOptions { target_width: 1, row_height: 320, gap: 0, background: Rgba8::rgb(0, 0, 0) }
    );
}
