//! Core of a ray-casting acceleration library: the structural side of a
//! bounding-volume hierarchy (BVH) built with the surface-area heuristic,
//! together with the validated configuration, geometry records, and the
//! Wavefront face-index parser that feed it.
//!
//! Scalar coordinates are carried as IEEE-754 binary64 bit patterns
//! (`u64`); the arithmetic on them lives outside the verified core, which
//! reasons only about their sign, zero and NaN structure where a contract
//! needs it.

pub mod bvh;
pub mod bvh_builder;
pub mod bvh_config;
pub mod camera;
pub mod config;
pub mod errors;
pub mod fp_bits;
pub mod geometry;
pub mod obj;
pub mod traversal;
