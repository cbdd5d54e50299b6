//! Edge detection building blocks.
//!
//! The pipeline runs greyscale → Sobel gradients → non-maximum suppression
//! → hysteresis threshold.  Every stage here works on integers: pixels and
//! kernel weights are integers, sums are exact, and the gradient magnitudes
//! that the caller computes in floating point come in as order keys
//! (`order_key`), integers that compare as the values they stand for.
//! `compare` builds side-by-side panels of two greyscale images with a
//! label drawn in a small bitmap font (`font`).
pub mod grid;
pub mod gray;
pub mod font;
pub mod compare;
pub mod order_key;
pub mod convolution;
pub mod sobel;
pub mod nms;
pub mod threshold;
