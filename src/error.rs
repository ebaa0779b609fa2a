use vstd::prelude::*;

verus! {

/// The image crate's error, carried through unchanged.
#[verifier::external_type_specification]
#[verifier::external_body]
pub struct ExImageError(image::ImageError);

/// A style parameter or an internal layer that cannot be rendered.
#[derive(Clone, Copy, Debug, PartialEq, Eq, Structural)]
pub enum ConfigError {
    /// The text scale works out to zero pixels.
    ScaleNotPositive,
    /// A layer's dimensions differ from the canvas.
    LayerSizeMismatch,
    /// The anchor works out to a pixel position beyond `u32`.
    AnchorOutOfRange,
    /// The pen position of the text run does not fit the pen's range.
    TextTooLong,
}

/// Why a caption could not be rendered.
#[derive(Debug)]
pub enum ConversionError {
    /// The input bytes are not an image that can be decoded.
    Image(image::ImageError),
    /// The decoded pixel buffer does not match the decoded dimensions.
    Dimensions,
    /// The font data is malformed.
    Font,
    /// A style parameter or a layer is invalid.
    Config(ConfigError),
    /// The composited canvas could not be encoded.
    Encode(image::ImageError),
}

} // verus!
