//! Core of a Monte-Carlo path tracer: axis-aligned boxes and rays on an
//! integer fixed-point grid, a bounding-volume hierarchy built with the
//! surface-area heuristic and its traversal, and the output image buffer.
pub mod helpers;
pub mod bounding_box;
pub mod ray;
pub mod bvh;
pub mod image;
pub mod raytracer;
