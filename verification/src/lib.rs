//! A planar road network on a fixed-point grid: intersections joined by
//! straight roads, kept consistent while new roads are drawn across old ones.
//!
//! Positions are whole numbers of thousandths of a world unit, so that every
//! geometric question has an exact answer. Where a new road crosses old
//! ones, each crossing becomes an intersection and the crossed road is cut
//! in two. Intersections and roads are stored in a graph whose slots are
//! used again; their names carry a generation and are never given out twice.

pub mod city;
pub mod crossings;
pub mod editor;
pub mod graph;
pub mod input;
pub mod math;
pub mod network;
pub mod roadsystem;
pub mod splitting;
pub mod ui;
