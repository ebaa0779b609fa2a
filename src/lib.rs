//! Captions a raster image. Rasterized glyphs are placed on a coverage
//! canvas (`glyph`), the coverage is thickened into a halo by a separable
//! L-infinity dilation (`dilate`), both are tinted and composited source-over
//! onto the background (`composite`), and `pipeline` runs those steps in
//! order. `codec` decodes and encodes images with the image crate.

pub mod raster;
pub mod error;
pub mod codec;
pub mod dilate;
pub mod composite;
pub mod glyph;
pub mod pipeline;
