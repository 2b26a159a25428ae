use craws::codecs::ImageFormat;
use craws::geometry::Size;
use craws::hash::{digest_bytes, ContentHash};
use craws::ops::background_mask;
use craws::parse::DiffView;
use craws::session::{export_format, handle_number, Session, SessionError};
use craws::tile::TiledImage;

type Px = [f32; 4];

fn hash_by_index(i: u32) -> ContentHash {
    digest_bytes(&i.to_le_bytes())
}

fn solid(w: u32, h: u32, p: Px) -> TiledImage<Px> {
    TiledImage::from_flat_f32(Size::new(w, h), &vec![p; (w * h) as usize], &hash_by_index)
}

#[test]
fn handles_count_up_from_one() {
    let mut s: Session<Px> = Session::new();
    assert!(s.is_empty());
    let a = s.insert(solid(640, 400, [0.0; 4]));
    assert_eq!((a.id.as_str(), a.width, a.height), ("img-1", 640, 400));
    let b = s.insert(solid(3, 2, [0.0; 4]));
    assert_eq!(b.id, "img-2");
    assert_ne!(a.id, b.id, "each insert mints a new handle");
    assert_eq!(s.len(), 2);
    // the first handle is untouched
    assert_eq!(s.info(&a.id).unwrap().width, 640);
    assert_eq!(s.get(&b.id).unwrap().size(), Size::new(3, 2));
}

#[test]
fn unknown_handles_are_clean_errors() {
    let mut s: Session<Px> = Session::new();
    s.insert(solid(4, 4, [0.0; 4]));
    for bad in ["img-999", "img-01", "img-", "IMG-1", "img-1 ", "img-18446744073709551616", "x"] {
        match s.get(bad) {
            Err(SessionError::NotFound(id)) => assert_eq!(id, bad),
            other => panic!("{bad}: {:?}", other.map(|i| i.size())),
        }
    }
    assert!(s.get("img-1").is_ok());
}

#[test]
fn handle_text_parses_back() {
    assert_eq!(handle_number("img-0"), Some(0));
    assert_eq!(handle_number("img-42"), Some(42));
    assert_eq!(handle_number("img-18446744073709551615"), Some(u64::MAX));
    assert_eq!(handle_number("img-18446744073709551616"), None, "past u64");
    assert_eq!(handle_number("img-007"), None, "leading zeros never appear in a handle");
    assert_eq!(handle_number("img--1"), None);
    assert_eq!(handle_number("imgé1"), None);
}

#[test]
fn trim_via_session_crops_border_and_rejects_uniform() {
    let mut s: Session<Px> = Session::new();
    // 60×40 white with an 8px border around a colored core → trims to 44×24
    let (w, h, border) = (60u32, 40u32, 8u32);
    let mut flat = vec![[1.0f32; 4]; (w * h) as usize];
    for y in border..h - border {
        for x in border..w - border {
            flat[(y * w + x) as usize] = [0.1, 0.2, 0.8, 1.0];
        }
    }
    let img = s.insert(TiledImage::from_flat_f32(Size::new(w, h), &flat, &hash_by_index));
    let src = s.get(&img.id).unwrap();
    let mask = background_mask(&src, &|p: &Px| *p == [1.0f32; 4]);
    let out = s.trim(&img.id, &mask).unwrap();
    assert_eq!((out.width, out.height), (44, 24), "border trimmed away");
    assert_ne!(out.id, img.id, "trim mints a new handle");

    // a single-color image has nothing to keep
    let solid_ref = s.insert(solid(20, 20, [1.0; 4]));
    let mask = vec![true; 400];
    assert!(matches!(s.trim(&solid_ref.id, &mask), Err(SessionError::NothingToTrim)));
    assert!(matches!(s.trim("img-77", &mask), Err(SessionError::NotFound(_))));
    assert_eq!(s.len(), 3);
}

#[test]
fn diff_inputs_check_sizes_per_view() {
    let mut s: Session<Px> = Session::new();
    let a = s.insert(solid(64, 64, [0.0; 4]));
    let b = s.insert(solid(32, 32, [0.0; 4]));
    assert!(s.diff_inputs(&a.id, &b.id, DiffView::SideBySide).is_ok(), "side-by-side accepts any sizes");
    assert!(matches!(s.diff_inputs(&a.id, &b.id, DiffView::Difference), Err(SessionError::SizeMismatch)));
    assert!(matches!(s.diff_inputs(&a.id, &b.id, DiffView::Heatmap), Err(SessionError::SizeMismatch)));
    assert!(s.diff_inputs(&a.id, &a.id, DiffView::Heatmap).is_ok());
    match s.diff_inputs("img-9", &a.id, DiffView::Heatmap) {
        Err(SessionError::NotFound(id)) => assert_eq!(id, "img-9"),
        _ => panic!("expected NotFound"),
    }
}

#[test]
fn collage_inputs_keep_order_and_reject_empty() {
    let mut s: Session<Px> = Session::new();
    let a = s.insert(solid(10, 5, [0.0; 4]));
    let b = s.insert(solid(7, 3, [0.0; 4]));
    assert!(matches!(s.collage_inputs(&[]), Err(SessionError::EmptyCollage)));
    let v = s.collage_inputs(&[b.id.clone(), a.id.clone()]).unwrap();
    assert_eq!(v.iter().map(|i| i.size()).collect::<Vec<_>>(), vec![Size::new(7, 3), Size::new(10, 5)]);
    match s.collage_inputs(&[a.id.clone(), "img-5".to_string(), "img-6".to_string()]) {
        Err(SessionError::NotFound(id)) => assert_eq!(id, "img-5", "the first missing handle is named"),
        _ => panic!("expected NotFound"),
    }
}

#[test]
fn export_format_from_extension() {
    assert!(matches!(export_format("out/shot.PNG"), Ok(ImageFormat::Png)));
    assert!(matches!(export_format("a.jpeg"), Ok(ImageFormat::Jpeg)));
    match export_format("a.gif") {
        Err(SessionError::UnknownFormat(p)) => assert_eq!(p, "a.gif"),
        _ => panic!("expected UnknownFormat"),
    }
}
