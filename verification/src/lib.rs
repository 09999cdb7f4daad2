//! Dominant perceptual colour of a pixel grid.
//!
//! The pixels are reduced to a small palette with population counts, the
//! palette is ranked, and the best colour is expressed as hue, chroma and
//! tone. The result depends on the pixels as a multiset only, never on the
//! order in which they arrive.

pub mod color;
pub mod hct;
pub mod palette;
pub mod pipeline;
pub mod quantize;
pub mod score;
pub mod sorting;
