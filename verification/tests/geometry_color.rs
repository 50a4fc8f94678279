use rumpose::{Color, Point, Rect, Size};

#[test]
fn point_new_holds_coordinates() {
    let p = Point::new(3, -4);
    assert_eq!(p.x, 3);
    assert_eq!(p.y, -4);
}

#[test]
fn size_new_and_center() {
    let s = Size::new(10, 6);
    let c = s.center();
    assert_eq!(c.x, 5);
    assert_eq!(c.y, 3);
}

#[test]
fn rect_accessors() {
    let r = Rect::from_xywh(2, 3, 10, 20);
    assert_eq!(r.x(), 2);
    assert_eq!(r.y(), 3);
    assert_eq!(r.width(), 10);
    assert_eq!(r.height(), 20);
    assert_eq!(r.min_x(), 2);
    assert_eq!(r.min_y(), 3);
    assert_eq!(r.max_x(), 12);
    assert_eq!(r.max_y(), 23);
}

#[test]
fn rect_new_matches_from_xywh() {
    let a = Rect::new(Point::new(1, 2), Size::new(3, 4));
    let b = Rect::from_xywh(1, 2, 3, 4);
    assert_eq!(a, b);
}

#[test]
fn rect_contains_borders_included() {
    let r = Rect::from_xywh(0, 0, 10, 10);
    assert!(r.contains(&Point::new(0, 0)));
    assert!(r.contains(&Point::new(10, 10)));
    assert!(r.contains(&Point::new(5, 7)));
    assert!(!r.contains(&Point::new(11, 5)));
    assert!(!r.contains(&Point::new(-1, 5)));
}

#[test]
fn color_packs_argb() {
    let c = Color::from_argb(0x12, 0x34, 0x56, 0x78);
    assert_eq!(c.value, 0x12345678);
    assert_eq!(c.alpha(), 0x12);
    assert_eq!(c.red(), 0x34);
    assert_eq!(c.green(), 0x56);
    assert_eq!(c.blue(), 0x78);
}

#[test]
fn color_from_rgb_is_opaque() {
    let c = Color::from_rgb(1, 2, 3);
    assert_eq!(c.value, 0xFF010203);
    assert_eq!(c.alpha(), 255);
}

#[test]
fn color_green_roundtrips_through_the_packed_byte() {
    let c = Color::from_argb(0, 0, 0x56, 0);
    assert_eq!(c.green(), 0x56);
    let c2 = Color::new(0x0000_AB00);
    assert_eq!(c2.green(), 0xAB);
}

#[test]
fn color_new_roundtrip() {
    let c = Color::new(0xDEADBEEF);
    assert_eq!(c.value, 0xDEADBEEF);
}
