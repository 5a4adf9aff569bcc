use vedelo::geometry::{label_box, overlap_terms, OverlapTerms, Rect};

#[test]
fn rect_accessors() {
    let r = Rect::new(3, 4, 10, 20);
    assert_eq!(r.x, 3);
    assert_eq!(r.y, 4);
    assert_eq!(r.right(), 13);
    assert_eq!(r.bottom(), 24);
    assert_eq!(r.area(), 200);
}

#[test]
fn rect_default_is_zero() {
    let r = Rect::default();
    assert_eq!(r, Rect::new(0, 0, 0, 0));
    assert_eq!(r.area(), 0);
}

#[test]
fn overlap_partial() {
    let a = Rect::new(0, 0, 10, 10);
    let b = Rect::new(5, 5, 10, 10);
    let t = overlap_terms(a, b).unwrap();
    assert_eq!(t, OverlapTerms { intersection: 25, union: 175 });
}

#[test]
fn overlap_is_symmetric() {
    let a = Rect::new(-3, 2, 17, 9);
    let b = Rect::new(4, -1, 6, 30);
    assert_eq!(overlap_terms(a, b), overlap_terms(b, a));
    assert_eq!(overlap_terms(a, b).unwrap(), OverlapTerms { intersection: 54, union: 153 + 180 - 54 });
}

#[test]
fn overlap_with_itself_is_total() {
    let a = Rect::new(7, 8, 12, 5);
    let t = overlap_terms(a, a).unwrap();
    assert_eq!(t.intersection, 60);
    assert_eq!(t.union, 60);
}

#[test]
fn overlap_bounds_hold() {
    let a = Rect::new(0, 0, 4, 4);
    let b = Rect::new(1, 1, 2, 8);
    let t = overlap_terms(a, b).unwrap();
    assert!(0 < t.intersection && t.intersection <= 16 && t.intersection <= t.union);
}

#[test]
fn touching_boxes_do_not_overlap() {
    let a = Rect::new(0, 0, 10, 10);
    let b = Rect::new(10, 0, 10, 10);
    assert_eq!(overlap_terms(a, b), None);
    let c = Rect::new(0, 10, 10, 10);
    assert_eq!(overlap_terms(a, c), None);
    let d = Rect::new(0, 0, 0, 0);
    assert_eq!(overlap_terms(a, d), None);
}

#[test]
fn overlap_extreme_boxes_do_not_overflow() {
    let a = Rect::new(i32::MIN, i32::MIN, i32::MAX, i32::MAX);
    let b = Rect::new(-5, -5, i32::MAX, i32::MAX);
    let t = overlap_terms(a, b).unwrap();
    let side = (i32::MIN as i128 + i32::MAX as i128) - (-5i128);
    assert_eq!(t.intersection, side * side);
    let area = (i32::MAX as i128) * (i32::MAX as i128);
    assert_eq!(t.union, 2 * area - side * side);
}

#[test]
fn label_sits_on_top_of_box() {
    let r = Rect::new(30, 50, 40, 40);
    assert_eq!(label_box(r), Rect::new(30, 30, 140, 20));
}
