use vtui::rect::{saturate, Inset, LogicalRect};

#[test]
fn constructors_set_the_fields() {
    let r = LogicalRect::new(1, 2, 3, 4);
    assert_eq!((r.x, r.y, r.width, r.height), (1, 2, 3, 4));
    assert_eq!(LogicalRect::zeroed(), LogicalRect::new(0, 0, 0, 0));
    assert_eq!(LogicalRect::origin(7, 9), LogicalRect::new(0, 0, 7, 9));
}

#[test]
fn edges_and_area() {
    let r = LogicalRect::new(-3, 4, 10, 5);
    assert_eq!(r.left(), -3);
    assert_eq!(r.right(), 7);
    assert_eq!(r.top(), 4);
    assert_eq!(r.bottom(), 9);
    assert_eq!(r.area(), 50);
    assert_eq!(LogicalRect::new(0, 0, i32::MAX, i32::MAX).area(), 4611686014132420609);
    assert_eq!(LogicalRect::new(0, 0, -2, 3).area(), -6);
}

#[test]
fn far_edges_saturate() {
    let r = LogicalRect::new(i32::MAX - 1, i32::MAX - 1, 10, 10);
    assert_eq!(r.right(), i32::MAX);
    assert_eq!(r.bottom(), i32::MAX);
    let r = LogicalRect::new(i32::MIN + 1, i32::MIN + 1, -10, -10);
    assert_eq!(r.right(), i32::MIN);
    assert_eq!(r.bottom(), i32::MIN);
    assert_eq!(saturate(5_000_000_000), i32::MAX);
    assert_eq!(saturate(-5_000_000_000), i32::MIN);
    assert_eq!(saturate(-17), -17);
}

#[test]
fn intersects_is_strict_about_touching_edges() {
    let a = LogicalRect::new(0, 0, 10, 10);
    assert!(a.intersects(LogicalRect::new(9, 9, 5, 5)));
    assert!(!a.intersects(LogicalRect::new(10, 0, 5, 5)));
    assert!(!a.intersects(LogicalRect::new(0, 10, 5, 5)));
    assert!(!a.intersects(LogicalRect::new(-5, 0, 5, 5)));
    assert!(a.intersects(LogicalRect::new(4, 4, 1, 1)));
    // A rectangle without extent counts where it lies strictly inside.
    assert!(a.intersects(LogicalRect::new(4, 4, 0, 1)));
    assert!(!a.intersects(LogicalRect::new(0, 4, 0, 1)));
    // No overflow where the edges lie beyond the range of the coordinates.
    let wide = LogicalRect::new(i32::MAX - 2, 0, 10, 1);
    assert!(wide.intersects(LogicalRect::new(i32::MAX - 1, 0, i32::MAX, 1)));
}

#[test]
fn intersection_is_the_overlap() {
    let a = LogicalRect::new(0, 0, 10, 10);
    let b = LogicalRect::new(5, -5, 10, 10);
    assert_eq!(a.intersection(b), LogicalRect::new(5, 0, 5, 5));
    assert_eq!(b.intersection(a), LogicalRect::new(5, 0, 5, 5));
    assert_eq!(a.intersection(a), a);
    assert_eq!(a.intersection(LogicalRect::new(20, 20, 1, 1)), LogicalRect::zeroed());
    assert_eq!(a.intersection(LogicalRect::new(2, 3, 4, 5)), LogicalRect::new(2, 3, 4, 5));
}

#[test]
fn with_offset_moves_against_the_offset() {
    let r = LogicalRect::new(10, 20, 3, 4).with_offset(4, -6);
    assert_eq!(r, LogicalRect::new(6, 26, 3, 4));
}

#[test]
fn inset_shrinks_and_expands() {
    let r = LogicalRect::new(10, 10, 20, 8);
    assert_eq!(r.inset(Inset::all(2)), LogicalRect::new(12, 12, 16, 4));
    assert_eq!(r.inset(Inset::all(-3)), LogicalRect::new(7, 7, 26, 14));
    // The rectangle collapses, and its corner stays within what it was.
    assert_eq!(r.inset(Inset::all(5)), LogicalRect::new(15, 15, 10, 0));
    assert_eq!(r.inset(Inset::all(50)), LogicalRect::new(30, 18, 0, 0));
    assert_eq!(r.inset(Inset::default()), r);
}

#[test]
fn inset_sides() {
    let inset = Inset::all(4);
    assert_eq!((inset.top(), inset.right(), inset.bottom(), inset.left()), (4, 4, 4, 4));
    assert_eq!(Inset::default(), Inset::all(0));
}
