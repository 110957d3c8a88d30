//! Core of a 2D rigid-body simulation over integer world coordinates:
//! convex polygons, dynamic and static bodies, grid broad phase,
//! separating-axis narrow phase and impulse resolution.
pub mod geometry;
pub mod polygon;
pub mod body;
pub mod collision;
pub mod resolve;
pub mod grid;
pub mod scene;
pub mod laws;
