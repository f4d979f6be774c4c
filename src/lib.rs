//! Geohash encoding and decoding over fixed-point coordinates.
//!
//! Coordinates are integers in units of 1e-7 degrees: latitude lies in
//! `[-900_000_000, 900_000_000]`, longitude in `[-1_800_000_000, 1_800_000_000]`.
pub mod alphabet;
pub mod bisect;
pub mod bits;
pub mod codec;
pub mod laws;
