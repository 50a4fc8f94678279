use rumpose::{Constraints, Size, UNBOUNDED};

#[test]
fn new_floors_negative_extents_at_zero() {
    let c = Constraints::new(-5, 10, -2, 20);
    assert_eq!(c.min, Size::new(0, 0));
    assert_eq!(c.max, Size::new(10, 20));
}

#[test]
fn apply_clamps_each_axis() {
    let c = Constraints::new(10, 100, 20, 200);
    assert_eq!(c.apply(Size::new(5, 300)), Size::new(10, 200));
    assert_eq!(c.apply(Size::new(50, 50)), Size::new(50, 50));
    assert_eq!(c.apply(Size::new(400, 0)), Size::new(100, 20));
}

#[test]
fn apply_width_and_height() {
    let c = Constraints::new(1, 3, 5, 7);
    assert_eq!(c.apply_width(0), 1);
    assert_eq!(c.apply_width(2), 2);
    assert_eq!(c.apply_width(9), 3);
    assert_eq!(c.apply_height(4), 5);
    assert_eq!(c.apply_height(6), 6);
    assert_eq!(c.apply_height(8), 7);
}

#[test]
fn offset_raises_min_and_floors_at_zero() {
    let c = Constraints::new(10, 100, 10, 100);
    let shifted = c.offset(-25, 5);
    assert_eq!(shifted.min, Size::new(0, 15));
    assert_eq!(shifted.max, Size::new(75, 105));
}

#[test]
fn offset_keeps_unbounded_axes_unbounded() {
    let c = Constraints::new(0, UNBOUNDED, 0, 50);
    let shifted = c.offset(7, -7);
    assert_eq!(shifted.max.width, UNBOUNDED);
    assert_eq!(shifted.max.height, 43);
    assert_eq!(shifted.min, Size::new(7, 0));
}

#[test]
fn default_is_the_loose_box() {
    let c = Constraints::default();
    assert_eq!(c.min, Size::new(0, 0));
    assert_eq!(c.max.width, UNBOUNDED);
    assert_eq!(c.max.height, UNBOUNDED);
    assert!(c.has_bounded_width() == false);
    assert!(c.has_bounded_height() == false);
}

#[test]
fn bounded_axes_are_reported() {
    let c = Constraints::new(0, 10, 0, UNBOUNDED);
    assert!(c.has_bounded_width());
    assert!(!c.has_bounded_height());
}
