//! Geohash encoding and decoding.
//!
//! A geohash names a box on the globe by a string of base-32 symbols. Each
//! symbol carries five bits; the bits alternately halve a longitude bound and
//! a latitude bound, longitude first.
//!
//! Coordinates are IEEE 754 binary32 numbers. They cross this interface as
//! their bit patterns (`u32`), and every bound is computed with the rounding
//! that binary32 arithmetic prescribes.

pub mod base32;
pub mod binary32;
pub mod bound;
pub mod decoder;
pub mod encoder;
pub mod error;
pub mod laws;
pub mod midpoint;
pub mod rounding;

pub use decoder::decode;
pub use encoder::encode;
pub use error::GeohashError;
