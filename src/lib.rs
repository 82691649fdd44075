//! Reversible pixel transforms for hiding one image in another: bit-depth
//! quantization, least-significant-bit concealment, contrast stretching,
//! histogram equalization over HSV value, a keyed keystream and a keyed
//! shuffle of sample positions.

pub mod depth;
pub mod hsv;
pub mod stretch;
pub mod conceal;
pub mod keyed;
pub mod cipher;
pub mod permute;
pub mod equalize;
pub mod pipeline;
pub mod raster;
