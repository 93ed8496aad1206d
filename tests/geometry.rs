use dynmap::geometry::{Point, AABB};

#[test]
fn point_new_keeps_coordinates() {
    let p = Point::new(3, -4);
    assert_eq!(p.x, 3);
    assert_eq!(p.y, -4);
}

#[test]
fn aabb_from_polygon_is_tight() {
    let poly = vec![Point::new(1, 5), Point::new(-2, 3), Point::new(4, -1)];
    let b = AABB::from_polygon(&poly);
    assert_eq!(b.min, Point::new(-2, -1));
    assert_eq!(b.max, Point::new(4, 5));
}

#[test]
fn aabb_from_empty_polygon_is_inverted() {
    let b = AABB::from_polygon(&Vec::new());
    assert_eq!(b.min, Point::new(i32::MAX, i32::MAX));
    assert_eq!(b.max, Point::new(i32::MIN, i32::MIN));
}

#[test]
fn aabb_from_points_matches_polygon() {
    let pts = vec![Point::new(0, 0), Point::new(7, 2)];
    let b = AABB::from_points(pts.clone());
    assert_eq!(b, AABB::from_polygon(&pts));
    assert_eq!(b, AABB::new(Point::new(0, 0), Point::new(7, 2)));
}

#[test]
fn aabb_contains_includes_edges() {
    let b = AABB::new(Point::new(0, 0), Point::new(2, 3));
    assert!(b.contains(&Point::new(0, 0)));
    assert!(b.contains(&Point::new(2, 3)));
    assert!(!b.contains(&Point::new(3, 1)));
    assert!(b.contains_xy(1, 2));
    assert!(!b.contains_xy(1, -1));
}
