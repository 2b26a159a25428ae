use craws::codecs::{decode, encode, flatten_over_white, jpeg_dims, CodecError, ImageFormat};

fn checker(w: u32, h: u32) -> Vec<u8> {
    let mut v = Vec::with_capacity((w * h * 4) as usize);
    for y in 0..h {
        for x in 0..w {
            let on = (x / 8 + y / 8) % 2 == 0;
            v.extend_from_slice(if on { &[200, 60, 30, 255] } else { &[20, 90, 160, 255] });
        }
    }
    v
}

#[test]
fn png_roundtrip_exact() {
    let (w, h) = (100, 60);
    let px = checker(w, h);
    let bytes = encode(w, h, &px, ImageFormat::Png, None).unwrap();
    let d = decode(&bytes).unwrap();
    assert_eq!((d.width, d.height), (w, h));
    assert_eq!(d.rgba8, px);
}

#[test]
fn webp_lossless_roundtrip_exact() {
    let (w, h) = (64, 48);
    let px = checker(w, h);
    let bytes = encode(w, h, &px, ImageFormat::WebP, None).unwrap();
    let d = decode(&bytes).unwrap();
    assert_eq!(d.rgba8, px);
}

#[test]
fn jpeg_roundtrip_close_on_flat_color() {
    let (w, h) = (32, 32);
    let px: Vec<u8> = [120u8, 80, 200, 255].repeat((w * h) as usize);
    let bytes = encode(w, h, &px, ImageFormat::Jpeg, Some(95)).unwrap();
    let d = decode(&bytes).unwrap();
    for (got, want) in d.rgba8.chunks_exact(4).zip(px.chunks_exact(4)) {
        for i in 0..3 {
            assert!((got[i] as i16 - want[i] as i16).abs() <= 4, "{got:?} vs {want:?}");
        }
        assert_eq!(got[3], 255);
    }
}

#[test]
fn jpeg_flattens_transparency_over_white() {
    let px = [0u8, 0, 0, 0]; // fully transparent black
    let bytes = encode(1, 1, &px, ImageFormat::Jpeg, Some(100)).unwrap();
    let d = decode(&bytes).unwrap();
    assert!(d.rgba8[0] > 250 && d.rgba8[1] > 250 && d.rgba8[2] > 250, "{:?}", &d.rgba8[..3]);
}

#[test]
fn format_detection() {
    assert_eq!(ImageFormat::from_path("a/b/photo.JPG"), Some(ImageFormat::Jpeg));
    assert_eq!(ImageFormat::from_path("x.webp"), Some(ImageFormat::WebP));
    assert_eq!(ImageFormat::from_path("x.png"), Some(ImageFormat::Png));
    assert_eq!(ImageFormat::from_path("x.tiff"), None);
    assert_eq!(ImageFormat::from_path("noext"), None);
}

#[test]
fn extension_names_and_format_names() {
    assert_eq!(ImageFormat::from_extension("JpEg"), Some(ImageFormat::Jpeg));
    assert_eq!(ImageFormat::from_extension("jpg"), Some(ImageFormat::Jpeg));
    assert_eq!(ImageFormat::from_extension("PNG"), Some(ImageFormat::Png));
    assert_eq!(ImageFormat::from_extension("png "), None);
    assert_eq!(ImageFormat::from_path(".png"), None, "a dot file has no extension");
    assert_eq!(ImageFormat::Png.name(), "png");
    assert_eq!(ImageFormat::Jpeg.name(), "jpeg");
    assert_eq!(ImageFormat::WebP.name(), "webp");
}

#[test]
fn flatten_formula_is_exact() {
    // opaque keeps the color, transparent becomes white, half blends
    let rgba = [10u8, 20, 30, 255, 10, 20, 30, 0, 0, 100, 255, 128, 9];
    let rgb = flatten_over_white(&rgba);
    assert_eq!(rgb.len(), 9, "the trailing partial pixel is dropped");
    assert_eq!(&rgb[0..3], &[10, 20, 30]);
    assert_eq!(&rgb[3..6], &[255, 255, 255]);
    // (0*128 + 255*127)/255 = 127; (100*128 + 255*127)/255 = 177; (255*128+255*127)/255 = 255
    assert_eq!(&rgb[6..9], &[127, 177, 255]);
}

#[test]
fn jpeg_size_limit() {
    assert!(matches!(jpeg_dims(65535, 1), Ok((65535, 1))));
    assert!(matches!(jpeg_dims(65536, 1), Err(CodecError::JpegTooLarge { width: 65536, height: 1 })));
    let px = vec![0u8; 65536 * 4];
    assert!(matches!(
        encode(65536, 1, &px, ImageFormat::Jpeg, None),
        Err(CodecError::JpegTooLarge { width: 65536, height: 1 })
    ));
}

#[test]
fn jpeg_zero_size_is_an_encode_error() {
    assert!(matches!(encode(0, 5, &[], ImageFormat::Jpeg, None), Err(CodecError::JpegEncode(_))));
}

#[test]
fn garbage_does_not_decode() {
    assert!(matches!(decode(b"not an image"), Err(CodecError::Decode(_))));
}

#[test]
fn decoded_from_keeps_the_loaded_buffer() {
    let d = craws::codecs::decoded_from(Ok((2, 1, vec![1, 2, 3, 4, 5, 6, 7, 8]))).unwrap();
    assert_eq!((d.width, d.height), (2, 1));
    assert_eq!(d.rgba8, vec![1, 2, 3, 4, 5, 6, 7, 8]);
}

#[test]
fn decode_rejects_bytes_that_are_no_image() {
    assert!(matches!(craws::codecs::decode(b"not an image at all"), Err(craws::codecs::CodecError::Decode(_))));
}

#[test]
fn decode_reports_the_encoded_size() {
    let rgba = vec![200u8; 5 * 3 * 4];
    let png = craws::codecs::encode(5, 3, &rgba, craws::codecs::ImageFormat::Png, None).unwrap();
    let d = craws::codecs::decode(&png).unwrap();
    assert_eq!((d.width, d.height), (5, 3));
    assert_eq!(d.rgba8, rgba);
}

#[test]
fn webp_refuses_sides_outside_1_to_16384() {
    assert!(matches!(encode(0, 3, &[], ImageFormat::WebP, None), Err(CodecError::Encode(_))));
    let wide = vec![9u8; 16385 * 4];
    assert!(matches!(encode(16385, 1, &wide, ImageFormat::WebP, None), Err(CodecError::Encode(_))));
    let edge = vec![9u8; 16384 * 4];
    assert!(encode(16384, 1, &edge, ImageFormat::WebP, None).is_ok());
}

#[test]
fn png_and_webp_bytes_depend_on_the_pixels_alone() {
    let rgba = checker(40, 24);
    let a = encode(40, 24, &rgba, ImageFormat::Png, None).unwrap();
    let b = encode(40, 24, &rgba, ImageFormat::Png, Some(3)).unwrap();
    assert_eq!(a, b);
    let c = encode(40, 24, &rgba, ImageFormat::WebP, None).unwrap();
    let d = encode(40, 24, &rgba, ImageFormat::WebP, None).unwrap();
    assert_eq!(c, d);
    assert_eq!(decode(&c).unwrap().rgba8, rgba);
}

#[test]
fn jpeg_bytes_follow_the_quality_and_the_flattening() {
    let rgba = checker(32, 16);
    let a = encode(32, 16, &rgba, ImageFormat::Jpeg, Some(50)).unwrap();
    let b = encode(32, 16, &rgba, ImageFormat::Jpeg, Some(50)).unwrap();
    assert_eq!(a, b, "same pixels and quality give the same bytes");
    let best = encode(32, 16, &rgba, ImageFormat::Jpeg, Some(200)).unwrap();
    let hundred = encode(32, 16, &rgba, ImageFormat::Jpeg, Some(100)).unwrap();
    assert_eq!(best, hundred, "quality is clamped to 100");
    let default = encode(32, 16, &rgba, ImageFormat::Jpeg, None).unwrap();
    let ninety = encode(32, 16, &rgba, ImageFormat::Jpeg, Some(90)).unwrap();
    assert_eq!(default, ninety, "no quality means 90");
    assert_ne!(a, ninety);
    let mut clear = rgba.clone();
    for px in clear.chunks_exact_mut(4) {
        px[3] = 0;
    }
    let white = vec![255u8; 32 * 16 * 4];
    assert_eq!(
        encode(32, 16, &clear, ImageFormat::Jpeg, None).unwrap(),
        encode(32, 16, &white, ImageFormat::Jpeg, None).unwrap(),
        "transparent pixels are flattened to white"
    );
}
