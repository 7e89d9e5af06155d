//! Color-temperature correction: converts a desired display color temperature
//! (Kelvin) into per-channel gamma lookup tables, via a fixed-point
//! colorimetric pipeline (locus estimation, sRGB conversion, whitepoint
//! normalization, ramp synthesis).

pub mod fixed;
pub mod locus;
pub mod pow;
pub mod ramp;
pub mod srgb;
pub mod whitepoint;
