//! Visibility polygon of a point among opaque segment obstacles, computed by
//! a radial sweep.
//!
//! Coordinates are integers bounded by [`geometry::COORD_LIMIT`] and every
//! geometric test is exact: two points coincide only when equal, and the
//! orientation of three points is the sign of an integer cross product.
//! Vertices produced where a ray meets a segment have rational coordinates
//! ([`geometry::Vertex`]).
//!
//! - [`orientation`]: left turn, right turn or collinear.
//! - [`angle_comparator`]: the order in which the sweep meets points.
//! - [`ray`]: where a ray from the origin first meets a segment.
//! - [`comparable_line`]: which of two segments is nearer to the origin.
//! - [`visibility_event`] and [`visibility`]: the sweep itself.
//! - [`rings`]: the segments of polygon rings.

pub mod angle_comparator;
pub mod comparable_line;
pub mod geometry;
pub mod orientation;
pub mod ray;
pub mod rings;
pub mod visibility;
pub mod visibility_event;

pub use visibility::Visibility;
