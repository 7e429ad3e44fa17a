//! Records of the polygon layer that is built on a region: a half-edge arena
//! whose records refer to each other by index, and the polygon shapes that
//! come out of it.
use crate::geometry::Point;
use vstd::prelude::*;

verus! {

/// The index of a vertex record in the arena.
pub struct VertexRef(pub usize);

/// The index of an edge record in the arena.
pub struct EdgeRef(pub usize);

/// The index of a polygon record in the arena.
pub struct PolygonRef(pub usize);

/// The index of a hole record in the arena.
pub struct HoleRef(pub usize);

/// An open chain of points.
pub struct Polyline {
    pub points: Vec<Point>,
}

/// A polygon bounded by one closed chain.
pub struct SimplePolygon {
    pub polyline: Polyline,
}

/// A polygon with an outline and holes.
pub struct Polygon {
    pub outline: Polyline,
    pub holes: Vec<Polyline>,
}

/// A set of polygons.
pub struct MultiPolygon {
    pub polygons: Vec<Polygon>,
}

} // verus!
