//! Geometry containers and the bounding-volume hierarchy.

pub mod bvh;
pub mod triangle;
pub mod world;
