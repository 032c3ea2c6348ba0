//! Core of a CPU path tracer: the counter-based random number generator, the
//! bounding-volume-hierarchy builder and traverser, the pixel scheduler
//! arithmetic, and the supporting containers. Scalar geometry (vectors, boxes,
//! colors) is opaque to this crate: callers supply it through type parameters
//! and closures, and the structural algorithms here are verified for every
//! choice of those parameters.

pub mod geometry;
pub mod image;
pub mod material;
pub mod output;
pub mod philox;
pub mod raybow;
pub mod vector;
