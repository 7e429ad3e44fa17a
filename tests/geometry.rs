use polygon_booleans::geometry::{Line, LineSegment, Point, Rectangle, Vector};

fn pt(x: i64, y: i64) -> Point {
    Point::new(x, y)
}

#[test]
fn line_from_two_points() {
    let l = Line::from_two_points(pt(1, 2), pt(4, 6));
    assert_eq!(l.origin(), pt(1, 2));
    assert_eq!(l.dir(), Vector { x: 3, y: 4 });
    assert_eq!(l.point_at(2), pt(7, 10));
}

#[test]
fn line_new_keeps_fields() {
    let l = Line::new(pt(0, 0), Vector { x: 2, y: 0 });
    assert_eq!(l.point_at(-3), pt(-6, 0));
}

#[test]
fn line_project_is_not_clamped() {
    let l = Line::from_two_points(pt(0, 0), pt(10, 0));
    let t = l.project(&pt(25, 7));
    assert_eq!((t.num, t.den), (250, 100));
    let t = l.project(&pt(-5, 1));
    assert_eq!((t.num, t.den), (-50, 100));
}

#[test]
fn line_point_distance_squared() {
    let l = Line::from_two_points(pt(0, 0), pt(10, 0));
    let d = l.point_distance_squared(&pt(5, 5));
    assert_eq!(d.num * 1, 25 * d.den);
    let d = l.point_distance_squared(&pt(-40, -3));
    assert_eq!(d.num, 9 * d.den);
}

#[test]
fn segment_points_and_line() {
    let s = LineSegment::new(pt(1, 1), pt(2, 3));
    assert_eq!(s.points(), [pt(1, 1), pt(2, 3)]);
    assert_eq!(s.line().origin(), pt(1, 1));
    assert_eq!(s.line().dir(), Vector { x: 1, y: 2 });
}

#[test]
fn segment_project_is_clamped() {
    let s = LineSegment::new(pt(0, 0), pt(10, 0));
    let t = s.project(&pt(20, 0));
    assert_eq!((t.num, t.den), (100, 100));
    let t = s.project(&pt(-20, 3));
    assert_eq!((t.num, t.den), (0, 100));
    let t = s.project(&pt(4, 3));
    assert_eq!((t.num, t.den), (40, 100));
}

#[test]
fn segment_point_distance_squared() {
    let s = LineSegment::new(pt(0, 0), pt(10, 0));
    let d = s.point_distance_squared(&pt(20, 0));
    assert_eq!(d.num, 100 * d.den);
    let d = s.point_distance_squared(&pt(5, 3));
    assert_eq!(d.num, 9 * d.den);
    let d = s.point_distance_squared(&pt(-3, -4));
    assert_eq!(d.num, 25 * d.den);
}

#[test]
fn degenerate_segment_distance() {
    let s = LineSegment::new(pt(2, 2), pt(2, 2));
    let d = s.point_distance_squared(&pt(5, 6));
    assert_eq!((d.num, d.den), (25, 1));
}

#[test]
fn segment_is_within() {
    let s = LineSegment::new(pt(0, 0), pt(100, 0));
    assert!(s.is_within(&pt(50, 10), 100));
    assert!(!s.is_within(&pt(50, 11), 100));
    assert!(s.is_within(&pt(106, 8), 100));
    assert!(!s.is_within(&pt(107, 8), 100));
}

#[test]
fn rectangle_from_points_orders_corners() {
    let r = Rectangle::from_points(pt(5, 0), pt(0, 5));
    assert_eq!((r.min_x(), r.min_y(), r.max_x(), r.max_y()), (0, 0, 5, 5));
    assert_eq!(r.corners(), [pt(0, 0), pt(0, 5), pt(5, 0), pt(5, 5)]);
}

#[test]
fn rectangle_contains_point() {
    let r = Rectangle::from_points(pt(0, 0), pt(5, 5));
    assert!(r.contains_point(&pt(2, 2)));
    assert!(r.contains_point(&pt(5, 0)));
    assert!(!r.contains_point(&pt(6, 2)));
    assert!(!r.contains_point(&pt(2, -1)));
}

#[test]
fn rectangle_closest_point_and_distance() {
    let r = Rectangle::from_points(pt(0, 0), pt(5, 5));
    assert_eq!(r.closest_point(&pt(7, -1)), pt(5, 0));
    assert_eq!(r.closest_point(&pt(3, 3)), pt(3, 3));
    assert_eq!(r.point_distance_squared(&pt(7, -1)), 5);
    assert_eq!(r.point_distance_squared(&pt(3, 3)), 0);
}

#[test]
fn segment_closest_point() {
    let s = LineSegment::new(pt(0, 0), pt(10, 0));
    let (x, y) = s.closest_point(&pt(4, 3));
    assert_eq!((x.num, x.den, y.num), (400, 100, 0));
    let (x, y) = s.closest_point(&pt(30, -3));
    assert_eq!((x.num, x.den, y.num), (1000, 100, 0));
    let d = LineSegment::new(pt(0, 0), pt(2, 2));
    let (x, y) = d.closest_point(&pt(2, 0));
    assert_eq!(x.num * 1, 1 * x.den);
    assert_eq!(y.num * 1, 1 * y.den);
}
