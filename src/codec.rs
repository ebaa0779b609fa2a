use crate::error::ConversionError;
use crate::raster::RasterImage;
use vstd::prelude::*;

verus! {

/// What decoding a byte string as the built-in format its magic bytes name,
/// then converting it to RGBA8, yields: width, height and row-major pixel
/// bytes, or nothing where the bytes are not such an image.
pub uninterp spec fn decoded_rgba(bytes: Seq<u8>) -> Option<(u32, u32, Seq<u8>)>;

/// The PNG file that encodes an RGBA8 raster.
pub uninterp spec fn png_of(width: u32, height: u32, rgba: Seq<u8>) -> Seq<u8>;

/// Relies on image::guess_format (the built-in magic-byte table only),
/// image::load_from_memory_with_format (a built-in format, so no registered
/// hook is consulted) and DynamicImage::to_rgba8: the decoded image is then a
/// function of the bytes alone.
#[verifier::external_body]
fn decode_rgba(bytes: &Vec<u8>) -> (r: Result<(u32, u32, Vec<u8>), image::ImageError>)
    ensures
        match r {
            Ok((w, h, px)) => decoded_rgba(bytes@) == Some((w, h, px@)),
            Err(_) => decoded_rgba(bytes@) is None,
        },
{
    let format = image::guess_format(bytes)?;
    let img = image::load_from_memory_with_format(bytes, format)?.to_rgba8();
    Ok((img.width(), img.height(), img.into_raw()))
}

/// Relies on image's PngEncoder::write_image, which panics unless the buffer
/// holds exactly four bytes per pixel; its output depends on its input alone.
/// With such a buffer, the png crate's encoder fails only on a zero width or
/// height, and writing into a `Vec` does not fail.
#[verifier::external_body]
fn encode_rgba_png(width: u32, height: u32, rgba: &Vec<u8>) -> (r: Result<Vec<u8>, image::ImageError>)
    requires
        rgba@.len() == 4 * (width * height),
    ensures
        r matches Ok(png) ==> png@ == png_of(width, height, rgba@),
        width > 0 && height > 0 ==> r is Ok,
{
    let mut out: Vec<u8> = Vec::new();
    let encoder = image::codecs::png::PngEncoder::new_with_quality(
        &mut out,
        image::codecs::png::CompressionType::Best,
        image::codecs::png::FilterType::Adaptive,
    );
    image::ImageEncoder::write_image(encoder, rgba, width, height, image::ExtendedColorType::Rgba8)?;
    Ok(out)
}

/// Decodes image bytes of any format the image crate recognises into an RGBA canvas.
pub fn decode(bytes: &Vec<u8>) -> (r: Result<RasterImage, ConversionError>)
    ensures
        match decoded_rgba(bytes@) {
            None => r matches Err(ConversionError::Image(_)),
            Some((w, h, px)) => {
                if w > 0 && h > 0 && px.len() == 4 * (w * h) {
                    r matches Ok(img) && img.wf() && img.width == w && img.height == h && img.pixels@ == px
                } else {
                    r matches Err(ConversionError::Dimensions)
                }
            },
        },
{
    match decode_rgba(bytes) {
        Err(e) => Err(ConversionError::Image(e)),
        Ok((w, h, px)) => match RasterImage::from_raw(w, h, px) {
            Some(img) => Ok(img),
            None => Err(ConversionError::Dimensions),
        },
    }
}

/// Encodes a canvas as PNG.
pub fn encode_png(img: &RasterImage) -> (r: Result<Vec<u8>, ConversionError>)
    requires
        img.wf(),
    ensures
        r matches Ok(png) && png@ == png_of(img.width, img.height, img.pixels@),
{
    match encode_rgba_png(img.width, img.height, &img.pixels) {
        Ok(png) => Ok(png),
        Err(e) => Err(ConversionError::Encode(e)),
    }
}

} // verus!
