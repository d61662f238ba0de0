//! TGIF: a lossless codec for 8-bit grayscale images.
//!
//! An image is predicted row by row, the prediction residuals are mapped to
//! small unsigned indices, and the indices are written with a Golomb-Rice
//! code into fixed-size chunks that can be decoded independently.

pub mod args;
pub mod bitpack;
pub mod codebooks;
pub mod codeword;
pub mod constants;
pub mod decode;
pub mod delta;
pub mod encode;
pub mod error;
pub mod framing;
pub mod grid;
pub mod header;
pub mod zigzag;
