//! Pixelation of raster images, with an optional reduction of the colours to a small
//! palette.
//!
//! Colours are counted in whole millionths (`ONE` stands for 1): hue in sectors from 0 to
//! 6, saturation and value from 0 to 1. Hue is cyclic, so it is averaged on the unit
//! circle: a colour is embedded as a point of four components, points are averaged or
//! clustered, and the result is carried back. The library holds no floating-point code;
//! the two functions that carry a colour to its point and back are handed to it.

pub mod color;
pub mod error;
pub mod fixed;
pub mod image;
pub mod kmeans;
pub mod round_trip;
pub mod sampling;

pub use color::{HsvPixel, RgbPixel};
pub use error::PixelateError;
pub use fixed::ONE;
pub use image::{Image, PixelType};
pub use kmeans::{kmeans, Vec4};
