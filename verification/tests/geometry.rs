use craws::geometry::{Rect, Size};

#[test]
fn rect_fits() {
    let s = Size::new(100, 50);
    assert!(Rect::new(0, 0, 100, 50).fits_in(s));
    assert!(Rect::new(99, 49, 1, 1).fits_in(s));
    assert!(!Rect::new(99, 49, 2, 1).fits_in(s));
    assert!(!Rect::new(0, 0, 101, 1).fits_in(s));
    assert!(!Rect::new(0, 0, 0, 10).fits_in(s), "empty rect never fits");
    // near-overflow coordinates must not wrap
    assert!(!Rect::new(u32::MAX, 0, 2, 1).fits_in(Size::new(u32::MAX, 1)));
}

#[test]
fn size_area_is_u64() {
    assert_eq!(Size::new(u32::MAX, 2).area(), u32::MAX as u64 * 2);
}

#[test]
fn size_empty_and_rect_size() {
    assert!(Size::new(0, 5).is_empty());
    assert!(Size::new(5, 0).is_empty());
    assert!(!Size::new(1, 1).is_empty());
    assert_eq!(Rect::new(3, 4, 10, 20).size(), Size::new(10, 20));
}
