//! Fixed-point number representation and the shared data types of the
//! pipeline.
//!
//! All fractional quantities (chromaticity coordinates, RGB channels, gamma
//! exponents) are carried as `i64` values scaled by `SCALE`: the integer `v`
//! stands for the real number `v / SCALE`. `SCALE` is a power of two so that
//! binary logarithm / exponential routines work in the same representation.

use vstd::prelude::*;

verus! {

/// One unit of the fixed-point representation stands for `1 / SCALE`;
/// `SCALE` itself stands for the real number 1.0.
pub const SCALE: i64 = 65536;

/// Half of `SCALE`, used for round-to-nearest.
pub const HALF_SCALE: i64 = 32768;

/// A point on the CIE 1931 x,y chromaticity plane, in `SCALE` units.
#[derive(Clone, Copy, Debug, PartialEq, Eq, Structural)]
pub struct Chromaticity {
    pub x: i64,
    pub y: i64,
}

/// A tristimulus triple, in `SCALE` units.
#[derive(Clone, Copy, Debug, PartialEq, Eq, Structural)]
pub struct Xyz {
    pub x: i64,
    pub y: i64,
    pub z: i64,
}

/// An RGB triple, in `SCALE` units; `SCALE` is full intensity.
#[derive(Clone, Copy, Debug, PartialEq, Eq, Structural)]
pub struct Rgb {
    pub r: i64,
    pub g: i64,
    pub b: i64,
}

/// The error taxonomy of the pipeline.
#[derive(Clone, Copy, Debug, PartialEq, Eq, Structural)]
pub enum ColorError {
    /// Normalization would divide by a maximum channel that is zero.
    DegenerateWhitepoint,
    /// A display gamma that is not strictly positive.
    InvalidGamma,
    /// A ramp size below two, or a bit depth the ramp entries cannot hold.
    InvalidRampSize,
}

} // verus!
