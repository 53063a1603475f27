//! Procedural terrain tiles by diamond-square midpoint displacement.
//!
//! The crate holds the integer side of tile generation: the coordinate hash,
//! the validation of a tile request, the schedule of grid writes that the
//! refinement performs, the bounds-checked grid those writes land in, and the
//! colour banding that turns finished elevations into RGBA8 pixels. Elevations
//! themselves are floating point and are computed by the caller, who walks the
//! schedule in order; fractions cross the boundary either as a numerator over
//! [`hasher::HASH_MODULUS`] or as an IEEE-754 single-precision bit pattern.

pub mod color;
pub mod coverage;
pub mod grid;
pub mod hasher;
pub mod order;
pub mod plan;
pub mod refine;
pub mod request;
