use vstd::prelude::*;

verus! {

/// Why a transformation was given up.
#[derive(Debug, Copy, Clone, PartialEq, Eq, Structural)]
pub enum PixelateError {
    /// The width or the height of the image is no multiple of the block factor.
    NotDivisible,
    /// A colour handed to the conversion to RGB has a hue below 0 or above 6.
    OutOfRangeHue,
}

impl PixelateError {
    /// A sentence for the error.
    pub fn message(&self) -> (text: &'static str)
        ensures
            text@ == match *self {
                PixelateError::NotDivisible => "Image size is not divisible by factor."@,
                PixelateError::OutOfRangeHue => "H prime out of range"@,
            },
    {
        match self {
            PixelateError::NotDivisible => "Image size is not divisible by factor.",
            PixelateError::OutOfRangeHue => "H prime out of range",
        }
    }
}

} // verus!
