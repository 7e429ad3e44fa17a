use polygon_booleans::geometry::{LineSegment, Point};
use polygon_booleans::polygon_region::{InvariantError, PolygonRegion};

fn pt(x: i64, y: i64) -> Point {
    Point::new(x, y)
}

fn seg(a: (i64, i64), b: (i64, i64)) -> LineSegment {
    LineSegment::new(pt(a.0, a.1), pt(b.0, b.1))
}

fn sorted_points(r: &PolygonRegion) -> Vec<(i64, i64)> {
    let mut v: Vec<(i64, i64)> = r.points().iter().map(|p| (p.x, p.y)).collect();
    v.sort();
    v
}

fn sorted_edges(r: &PolygonRegion) -> Vec<((i64, i64), (i64, i64))> {
    let mut v: Vec<_> = r
        .edges()
        .iter()
        .map(|e| ((e.from.x, e.from.y), (e.to.x, e.to.y)))
        .collect();
    v.sort();
    v
}

#[test]
fn new_region_is_empty() {
    let r = PolygonRegion::new(10);
    assert_eq!(r.epsilon(), 10);
    assert!(r.points().is_empty());
    assert!(r.edges().is_empty());
    assert_eq!(r.check_region(), Ok(()));
}

#[test]
fn accomodate_returns_committed_point() {
    let mut r = PolygonRegion::new(10);
    assert_eq!(r.accomodate(pt(7, 8)), pt(7, 8));
    assert_eq!(sorted_points(&r), vec![(7, 8)]);
}

#[test]
fn accomodate_same_point_twice() {
    let mut r = PolygonRegion::new(10);
    r.accomodate(pt(0, 0));
    r.accomodate(pt(100, 0));
    let before = sorted_points(&r);
    r.accomodate(pt(0, 0));
    assert_eq!(sorted_points(&r), before);
    assert_eq!(r.check_region(), Ok(()));
}

#[test]
fn accomodate_near_point_twice_keeps_count() {
    let mut r = PolygonRegion::new(10);
    r.accomodate(pt(0, 0));
    r.accomodate(pt(100, 0));
    r.accomodate(pt(3, 4));
    assert_eq!(sorted_points(&r), vec![(3, 4), (100, 0)]);
    assert_eq!(r.check_region(), Ok(()));
}

#[test]
fn snapping_keeps_last_point_either_order() {
    let mut r = PolygonRegion::new(10);
    r.accomodate(pt(0, 0));
    r.accomodate(pt(6, 0));
    assert_eq!(sorted_points(&r), vec![(6, 0)]);

    let mut s = PolygonRegion::new(10);
    s.accomodate(pt(6, 0));
    s.accomodate(pt(0, 0));
    assert_eq!(sorted_points(&s), vec![(0, 0)]);
}

#[test]
fn snapping_at_exact_tolerance() {
    let mut r = PolygonRegion::new(10);
    r.accomodate(pt(0, 0));
    r.accomodate(pt(6, 8));
    assert_eq!(sorted_points(&r), vec![(6, 8)]);
}

#[test]
fn non_snapping_keeps_both() {
    let mut r = PolygonRegion::new(10);
    r.accomodate(pt(0, 0));
    r.accomodate(pt(20, 0));
    assert_eq!(sorted_points(&r), vec![(0, 0), (20, 0)]);

    let mut s = PolygonRegion::new(10);
    s.accomodate(pt(7, 8));
    s.accomodate(pt(0, 0));
    assert_eq!(sorted_points(&s), vec![(0, 0), (7, 8)]);
}

#[test]
fn largest_tolerance_snaps_nearby_points() {
    let eps = polygon_booleans::polygon_region::EPSILON_LIMIT - 1;
    let mut r = PolygonRegion::new(eps);
    r.accomodate(pt(0, 0));
    r.accomodate(pt(eps, 0));
    assert_eq!(sorted_points(&r), vec![(eps, 0)]);
    r.accomodate(pt(-eps - 1, 0));
    assert_eq!(sorted_points(&r), vec![(-eps - 1, 0), (eps, 0)]);
}

#[test]
fn zero_tolerance_only_merges_equal_points() {
    let mut r = PolygonRegion::new(0);
    r.accomodate(pt(0, 0));
    r.accomodate(pt(1, 0));
    r.accomodate(pt(1, 0));
    assert_eq!(sorted_points(&r), vec![(0, 0), (1, 0)]);
}

#[test]
fn add_edge_stores_edge_and_endpoints() {
    let mut r = PolygonRegion::new(10);
    r.add_edge(seg((0, 0), (100, 0)));
    assert_eq!(sorted_points(&r), vec![(0, 0), (100, 0)]);
    assert_eq!(sorted_edges(&r), vec![((0, 0), (100, 0))]);
    assert_eq!(r.check_region(), Ok(()));
}

#[test]
fn add_edge_twice_is_one_edge() {
    let mut r = PolygonRegion::new(10);
    r.add_edge(seg((0, 0), (100, 0)));
    r.add_edge(seg((0, 0), (100, 0)));
    assert_eq!(sorted_edges(&r), vec![((0, 0), (100, 0))]);
}

#[test]
fn cracking_splits_at_near_vertex() {
    let mut r = PolygonRegion::new(10);
    r.accomodate(pt(50, 5));
    r.add_edge(seg((0, 0), (100, 0)));
    assert_eq!(
        sorted_edges(&r),
        vec![((0, 0), (50, 5)), ((50, 5), (100, 0))]
    );
    assert_eq!(r.check_region(), Ok(()));
}

#[test]
fn cracking_orders_several_vertices() {
    let mut r = PolygonRegion::new(10);
    r.accomodate(pt(70, -3));
    r.accomodate(pt(30, 4));
    r.add_edge(seg((0, 0), (100, 0)));
    assert_eq!(
        sorted_edges(&r),
        vec![((0, 0), (30, 4)), ((30, 4), (70, -3)), ((70, -3), (100, 0))]
    );
    assert_eq!(r.check_region(), Ok(()));
}

#[test]
fn accomodate_cracks_existing_edge() {
    let mut r = PolygonRegion::new(10);
    r.add_edge(seg((0, 0), (100, 0)));
    r.accomodate(pt(40, -6));
    assert_eq!(
        sorted_edges(&r),
        vec![((0, 0), (40, -6)), ((40, -6), (100, 0))]
    );
    assert_eq!(r.check_region(), Ok(()));
}

#[test]
fn cancellation_of_reverse_edge() {
    let mut r = PolygonRegion::new(10);
    r.add_edge(seg((0, 0), (100, 0)));
    r.add_edge(seg((100, 0), (0, 0)));
    assert!(r.edges().is_empty());
    assert_eq!(sorted_points(&r), vec![(0, 0), (100, 0)]);
}

#[test]
fn scenario_point_outside_tolerance_of_edge() {
    let mut r = PolygonRegion::new(10);
    r.accomodate(pt(100, 100));
    r.accomodate(pt(200, 200));
    r.accomodate(pt(300, 100));
    r.add_edge(seg((100, 100), (200, 200)));
    r.accomodate(pt(130, 150));
    assert_eq!(sorted_edges(&r), vec![((100, 100), (200, 200))]);
    assert_eq!(r.check_region(), Ok(()));
}

#[test]
fn scenario_point_within_tolerance_of_edge() {
    let mut r = PolygonRegion::new(10);
    r.accomodate(pt(100, 100));
    r.accomodate(pt(200, 200));
    r.accomodate(pt(300, 100));
    r.add_edge(seg((100, 100), (200, 200)));
    r.accomodate(pt(155, 165));
    assert_eq!(
        sorted_edges(&r),
        vec![((100, 100), (155, 165)), ((155, 165), (200, 200))]
    );
    assert_eq!(r.check_region(), Ok(()));
}

#[test]
fn check_region_ok_for_separated_square() {
    let mut r = PolygonRegion::new(5);
    r.add_edge(seg((0, 0), (100, 0)));
    r.add_edge(seg((100, 0), (100, 100)));
    r.add_edge(seg((100, 100), (0, 100)));
    r.add_edge(seg((0, 100), (0, 0)));
    assert_eq!(r.edges().len(), 4);
    assert_eq!(r.check_region(), Ok(()));
}

#[test]
fn check_region_reports_vertex_near_edge() {
    let mut r = PolygonRegion::new(10);
    r.add_edge(seg((0, 0), (100, 0)));
    r.insert_raw_point(pt(50, 3));
    assert_eq!(
        r.check_region(),
        Err(InvariantError::VertexEdgeDist {
            p: pt(50, 3),
            e: seg((0, 0), (100, 0)),
        })
    );
}

#[test]
fn check_region_reports_close_vertices() {
    let mut r = PolygonRegion::new(10);
    r.insert_raw_point(pt(0, 0));
    r.insert_raw_point(pt(3, 0));
    let res = r.check_region();
    assert!(
        res == Err(InvariantError::VerticesTooClose { p1: pt(0, 0), p2: pt(3, 0) })
            || res == Err(InvariantError::VerticesTooClose { p1: pt(3, 0), p2: pt(0, 0) })
    );
}

#[test]
fn raw_point_inserted_once() {
    let mut r = PolygonRegion::new(10);
    r.insert_raw_point(pt(1, 1));
    r.insert_raw_point(pt(1, 1));
    assert_eq!(sorted_points(&r), vec![(1, 1)]);
}

#[test]
fn normalize_snaps_raw_points() {
    let mut r = PolygonRegion::new(10);
    r.insert_raw_point(pt(0, 0));
    r.insert_raw_point(pt(3, 0));
    r.insert_raw_point(pt(50, 50));
    r.normalize();
    let pts = sorted_points(&r);
    assert_eq!(pts.len(), 2);
    assert!(pts.contains(&(50, 50)));
    assert_eq!(r.check_region(), Ok(()));
}

#[test]
fn normalize_cracks_raw_edge() {
    let mut r = PolygonRegion::new(10);
    r.insert_raw_point(pt(0, 0));
    r.insert_raw_point(pt(100, 0));
    r.insert_raw_point(pt(50, 3));
    r.insert_raw_edge(seg((0, 0), (100, 0)));
    assert!(r.check_region().is_err());
    r.normalize();
    assert_eq!(
        sorted_edges(&r),
        vec![((0, 0), (50, 3)), ((50, 3), (100, 0))]
    );
    assert_eq!(r.check_region(), Ok(()));
}

#[test]
fn find_intersections_reports_crossing() {
    let mut r = PolygonRegion::new(1);
    r.insert_raw_edge(seg((0, 0), (100, 100)));
    r.insert_raw_edge(seg((0, 100), (100, 0)));
    let found = r.find_intersections();
    assert_eq!(found.len(), 2);
    for f in found {
        assert!(matches!(f, InvariantError::EdgeIntersection { .. }));
    }
}

#[test]
fn find_intersections_ignores_shared_endpoints() {
    let mut r = PolygonRegion::new(1);
    r.add_edge(seg((0, 0), (100, 0)));
    r.add_edge(seg((100, 0), (100, 100)));
    r.add_edge(seg((0, 0), (100, 100)));
    assert!(r.find_intersections().is_empty());
}

#[test]
fn snapping_onto_edge_endpoint_moves_the_vertex() {
    let mut r = PolygonRegion::new(10);
    r.add_edge(seg((0, 0), (100, 0)));
    r.accomodate(pt(106, 8));
    assert_eq!(sorted_points(&r), vec![(0, 0), (106, 8)]);
    assert_eq!(
        sorted_edges(&r),
        vec![((0, 0), (106, 8)), ((106, 8), (100, 0))]
    );
}

#[test]
fn largest_coordinates_and_tolerance() {
    let lim = polygon_booleans::geometry::COORD_LIMIT - 1;
    let mut r = PolygonRegion::new(1000);
    r.add_edge(seg((-lim, -lim), (lim, lim)));
    r.add_edge(seg((lim, -lim), (-lim, lim)));
    assert_eq!(r.points().len(), 4);
    assert_eq!(r.check_region(), Ok(()));
    assert_eq!(r.find_intersections().len(), 2);
}

#[test]
fn point_just_outside_tolerance_does_not_crack() {
    let mut r = PolygonRegion::new(10);
    r.add_edge(seg((0, 0), (100, 0)));
    r.accomodate(pt(50, 11));
    assert_eq!(sorted_edges(&r), vec![((0, 0), (100, 0))]);
    r.accomodate(pt(60, -10));
    assert_eq!(
        sorted_edges(&r),
        vec![((0, 0), (60, -10)), ((60, -10), (100, 0))]
    );
    assert_eq!(r.check_region(), Ok(()));
}

#[test]
fn normalize_leaves_consistent_region_unchanged() {
    let mut r = PolygonRegion::new(5);
    r.add_edge(seg((0, 0), (100, 0)));
    r.add_edge(seg((100, 0), (100, 100)));
    r.accomodate(pt(50, 50));
    let points = sorted_points(&r);
    let edges = sorted_edges(&r);
    r.normalize();
    assert_eq!(sorted_points(&r), points);
    assert_eq!(sorted_edges(&r), edges);
}

#[test]
fn accomodate_existing_vertex_keeps_edges() {
    let mut r = PolygonRegion::new(5);
    r.add_edge(seg((0, 0), (100, 0)));
    r.add_edge(seg((0, 0), (0, 100)));
    let edges = sorted_edges(&r);
    r.accomodate(pt(0, 0));
    assert_eq!(sorted_edges(&r), edges);
}

#[test]
fn re_adding_split_edge_changes_nothing() {
    let mut r = PolygonRegion::new(10);
    r.accomodate(pt(50, 5));
    r.add_edge(seg((0, 0), (100, 0)));
    let edges = sorted_edges(&r);
    r.add_edge(seg((0, 0), (100, 0)));
    assert_eq!(sorted_edges(&r), edges);
    assert_eq!(edges, vec![((0, 0), (50, 5)), ((50, 5), (100, 0))]);
}

#[test]
fn find_intersections_reports_each_crossing_edge_once() {
    let mut r = PolygonRegion::new(1);
    r.insert_raw_edge(seg((0, 0), (100, 100)));
    r.insert_raw_edge(seg((0, 100), (100, 0)));
    r.insert_raw_edge(seg((0, 50), (100, 50)));
    let found = r.find_intersections();
    assert_eq!(found.len(), 3);
    let mut firsts: Vec<((i64, i64), (i64, i64))> = found
        .iter()
        .map(|f| match f {
            InvariantError::EdgeIntersection { e1, .. } => ((e1.from.x, e1.from.y), (e1.to.x, e1.to.y)),
            _ => panic!("unexpected report"),
        })
        .collect();
    firsts.sort();
    firsts.dedup();
    assert_eq!(firsts.len(), 3);
}
