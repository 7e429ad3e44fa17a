//! A robust planar arrangement of points and directed edges, kept consistent
//! under a snapping tolerance.
//!
//! Coordinates are integers on a grid bounded by `geometry::COORD_LIMIT`, and every
//! distance comparison is made exactly on squared distances.
pub mod geometry;

pub mod index;
pub mod polygon_region;
pub mod topology;
