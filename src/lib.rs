//! Orientation-invariant perceptual image fingerprints: bit matrices compared by
//! Hamming distance, grouped per image, and written as versioned hex text.
pub mod error;
pub mod utils;
pub mod orientation;
pub mod image;
