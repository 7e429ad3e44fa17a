//! The two spatial indexes of a region, kept in `rstar` r-trees.
//!
//! What a tree holds is named by `point_bag` and `edge_bag`; each operation
//! that the region uses states its effect on those contents.
use crate::geometry::{dist2, max_i, min_i, LineSegment, Point};
use rstar::primitives::Line;
use rstar::{RTree, AABB};
use vstd::multiset::Multiset;
use vstd::prelude::*;

verus! {

/// A point index: an r-tree over `[x, y]` grid points.
#[verifier::external_body]
pub struct PointTree {
    tree: RTree<[i64; 2]>,
}

/// An edge index: an r-tree over directed segments, each with its bounding
/// envelope.
#[verifier::external_body]
pub struct EdgeTree {
    tree: RTree<Line<[i64; 2]>>,
}

/// The points that a point tree holds, with their multiplicity.
pub uninterp spec fn point_bag(t: &PointTree) -> Multiset<Point>;

/// The directed segments that an edge tree holds, with their multiplicity.
pub uninterp spec fn edge_bag(t: &EdgeTree) -> Multiset<LineSegment>;

/// Relies on `RTree::new`: a new tree is empty.
#[verifier::external_body]
pub(crate) fn new_point_tree() -> (t: PointTree)
    ensures
        point_bag(&t) == Multiset::<Point>::empty(),
{
    PointTree { tree: RTree::new() }
}

/// Relies on `RTree::insert`: the element is added once more, also when it
/// is already present. The areas that insertion compares stay in range for
/// valid points.
#[verifier::external_body]
pub(crate) fn insert_point(t: &mut PointTree, p: Point)
    requires
        p.valid(),
        forall|q: Point| #[trigger] point_bag(old(t)).count(q) > 0 ==> q.valid(),
    ensures
        point_bag(final(t)) == point_bag(old(t)).insert(p),
{
    t.tree.insert([p.x, p.y])
}

/// Relies on `RTree::size`: the number of elements held, repeats counted.
#[verifier::external_body]
pub(crate) fn point_count(t: &PointTree) -> (r: usize)
    ensures
        r == point_bag(t).len(),
{
    t.tree.size()
}

/// Relies on `RTree::drain_within_distance` for `[i64; 2]` points: it removes
/// every point whose squared distance to `p` is at most `r2`, and keeps the others.
/// The squared distances of valid points fit in an `i64`. An empty tree is
/// left out: the drain measures the distance to the empty root envelope,
/// whose corners are the extreme values of `i64`.
#[verifier::external_body]
pub(crate) fn drain_points_within(t: &mut PointTree, p: Point, r2: i64)
    requires
        point_bag(old(t)).len() > 0,
        p.valid(),
        forall|q: Point| #[trigger] point_bag(old(t)).count(q) > 0 ==> q.valid(),
    ensures
        point_bag(final(t)) == point_bag(old(t)).filter(|q: Point| dist2(q, p) > r2),
{
    let _drained: usize = t.tree.drain_within_distance([p.x, p.y], r2).count();
}

/// Relies on `RTree::locate_within_distance` for `[i64; 2]` points: the points
/// whose squared distance to `p` is at most `r2`. The squared distances of
/// valid points fit in an `i64`.
#[verifier::external_body]
pub(crate) fn points_within(t: &PointTree, p: Point, r2: i64) -> (r: Vec<Point>)
    requires
        p.valid(),
        forall|q: Point| #[trigger] point_bag(t).count(q) > 0 ==> q.valid(),
    ensures
        forall|q: Point| #[trigger] r@.contains(q) <==> (point_bag(t).count(q) > 0 && dist2(q, p) <= r2),
{
    t.tree.locate_within_distance([p.x, p.y], r2).map(|q| Point { x: q[0], y: q[1] }).collect()
}

/// Relies on `RTree::locate_in_envelope` for `[i64; 2]` points: the points that
/// lie in the box from `lo` to `hi`, its border included, each as often as it is
/// held (the search visits every leaf at most once).
#[verifier::external_body]
pub(crate) fn points_in_box(t: &PointTree, lo: Point, hi: Point) -> (r: Vec<Point>)
    requires
        lo.x <= hi.x,
        lo.y <= hi.y,
    ensures
        forall|q: Point| #[trigger] r@.contains(q) <==> (point_bag(t).count(q) > 0 && lo.x <= q.x <= hi.x && lo.y <= q.y <= hi.y),
        forall|q: Point| #[trigger] r@.to_multiset().count(q) <= point_bag(t).count(q),
{
    let envelope = AABB::from_corners([lo.x, lo.y], [hi.x, hi.y]);
    t.tree.locate_in_envelope(envelope).map(|q| Point { x: q[0], y: q[1] }).collect()
}

/// The box spanned by the endpoints of `e` meets the box from `lo` to `hi`,
/// borders included.
pub open spec fn envelope_meets(e: LineSegment, lo: Point, hi: Point) -> bool {
    &&& min_i(e.from.x, e.to.x) <= hi.x
    &&& max_i(e.from.x, e.to.x) >= lo.x
    &&& min_i(e.from.y, e.to.y) <= hi.y
    &&& max_i(e.from.y, e.to.y) >= lo.y
}

/// Relies on `RTree::locate_in_envelope_intersecting` for lines: the edges whose
/// envelope, the box spanned by their endpoints, meets the box from `lo` to `hi`.
#[verifier::external_body]
pub(crate) fn edges_meeting_box(t: &EdgeTree, lo: Point, hi: Point) -> (r: Vec<LineSegment>)
    requires
        lo.x <= hi.x,
        lo.y <= hi.y,
    ensures
        forall|e: LineSegment| #[trigger] r@.contains(e) <==> (edge_bag(t).count(e) > 0 && envelope_meets(e, lo, hi)),
{
    let envelope = AABB::from_corners([lo.x, lo.y], [hi.x, hi.y]);
    t.tree.locate_in_envelope_intersecting(envelope).map(
        |l| LineSegment { from: Point { x: l.from[0], y: l.from[1] }, to: Point { x: l.to[0], y: l.to[1] } },
    ).collect()
}

/// Relies on `RTree::iter`: every element of the tree, once for each time it
/// is held, in an unspecified order.
#[verifier::external_body]
pub(crate) fn all_points(t: &PointTree) -> (r: Vec<Point>)
    ensures
        r@.to_multiset() == point_bag(t),
{
    t.tree.iter().map(|p| Point { x: p[0], y: p[1] }).collect()
}

/// Relies on `RTree::new`: a new tree is empty.
#[verifier::external_body]
pub(crate) fn new_edge_tree() -> (t: EdgeTree)
    ensures
        edge_bag(&t) == Multiset::<LineSegment>::empty(),
{
    EdgeTree { tree: RTree::new() }
}

/// Relies on `RTree::insert`: the element is added once more, also when it
/// is already present. The areas that insertion compares stay in range for
/// segments between valid points.
#[verifier::external_body]
pub(crate) fn insert_edge(t: &mut EdgeTree, e: LineSegment)
    requires
        e.from.valid(),
        e.to.valid(),
        forall|f: LineSegment| #[trigger] edge_bag(old(t)).count(f) > 0 ==> f.from.valid() && f.to.valid(),
    ensures
        edge_bag(final(t)) == edge_bag(old(t)).insert(e),
{
    t.tree.insert(Line::new([e.from.x, e.from.y], [e.to.x, e.to.y]))
}

/// Relies on `RTree::contains`: whether an element equal to `e` is held. Equal
/// lines have equal envelopes, as the method asks.
#[verifier::external_body]
pub(crate) fn contains_edge(t: &EdgeTree, e: LineSegment) -> (r: bool)
    ensures
        r == (edge_bag(t).count(e) > 0),
{
    t.tree.contains(&Line::new([e.from.x, e.from.y], [e.to.x, e.to.y]))
}

/// Relies on `RTree::remove`: one element equal to `e` is removed, if there is one.
#[verifier::external_body]
pub(crate) fn remove_edge(t: &mut EdgeTree, e: LineSegment) -> (r: bool)
    ensures
        r == (edge_bag(old(t)).count(e) > 0),
        edge_bag(final(t)) == edge_bag(old(t)).remove(e),
{
    t.tree.remove(&Line::new([e.from.x, e.from.y], [e.to.x, e.to.y])).is_some()
}

/// Relies on `RTree::iter`: every element of the tree, once for each time it
/// is held, in an unspecified order.
#[verifier::external_body]
pub(crate) fn all_edges(t: &EdgeTree) -> (r: Vec<LineSegment>)
    ensures
        r@.to_multiset() == edge_bag(t),
{
    t.tree.iter().map(
        |l| LineSegment { from: Point { x: l.from[0], y: l.from[1] }, to: Point { x: l.to[0], y: l.to[1] } },
    ).collect()
}

} // verus!
