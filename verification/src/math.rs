//! Exact integer geometry: points, segments and polygons.

pub mod arith;
pub mod line;
pub mod operations;
pub mod point;
pub mod polygon;
