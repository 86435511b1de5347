//! Loading, transforming and saving images in the PPM format.
//!
//! Images are held as a row-major sequence of 8-bit RGB pixels with a declared
//! width and height. The codec reads and writes a plain-text pixel stream and a
//! binary one; both share the same three-line text header.

pub mod binary;
pub mod codec;
pub mod decimal;
pub mod image;
pub mod pixel;
pub mod round_trip;
pub mod scan;

pub use pixel::Pixel;
pub use image::{Image, PpmError};
