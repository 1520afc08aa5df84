//! Conversion of decoded raster images into the tile-ordered, palette-indexed
//! graphics format of a 256-colour tiled background.
//!
//! The crate has three layers. [`color`] reduces a 32-bit truecolor pixel to a
//! 15-bit hardware colour. [`pal`] assigns palette slots to hardware colours in
//! first-seen order and lays the palette out as bytes. [`image`] walks a pixel
//! grid tile by tile and produces the stream of palette indices.

pub mod color;
pub mod image;
pub mod pal;
