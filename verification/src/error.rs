//! The ways in which encoding and decoding fail.

use vstd::prelude::*;

verus! {

/// Why a call was rejected.
#[derive(Debug, Clone, Copy, PartialEq, Eq)]
pub enum GeohashError {
    /// A latitude outside -90..=90 or a longitude outside -180..=180
    /// (a NaN or an infinity is outside both).
    OutOfRange,
    /// A character that is not one of the 32 symbols of the alphabet.
    InvalidCharacter,
}

} // verus!
