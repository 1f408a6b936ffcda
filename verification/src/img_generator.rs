//! Pixel arithmetic for the spectrogram image.

use vstd::prelude::*;

verus! {

/// The colour half-way between two colours: each component is the mean of
/// the two, rounded down.
pub fn blend_rgb(col1: (u8, u8, u8), col2: (u8, u8, u8)) -> (r: (u8, u8, u8))
    ensures
        r.0 == (col1.0 + col2.0) / 2,
        r.1 == (col1.1 + col2.1) / 2,
        r.2 == (col1.2 + col2.2) / 2,
{
    (
        ((col1.0 as u32 + col2.0 as u32) / 2) as u8,
        ((col1.1 as u32 + col2.1 as u32) / 2) as u8,
        ((col1.2 as u32 + col2.2 as u32) / 2) as u8,
    )
}

} // verus!
