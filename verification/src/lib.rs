//! A toolpath sampler: parses motion commands ("linear" and "rotational")
//! and discretizes each into an ordered sequence of waypoints.
//!
//! Coordinates, radii and angles are fixed-point values: an `i64` counts
//! micro-units (one millionth of a coordinate unit, or of a degree).
//! Every parser and both samplers are specified and verified exactly over
//! that representation; projecting arc angles through sine and cosine, and
//! any input/output, are left to the (unverified) caller.

pub mod geom;
pub mod num;
pub mod scan;
pub mod parse;
pub mod linear;
pub mod rotational;
pub mod fmt;
pub mod driver;
