//! Decoding and encoding of image files, done by the `image` crate.
//!
//! Each function here is trusted: its contract ties the result to a name for
//! what the `image` crate computes, which depends on its arguments alone.
//! Decoding picks the format from the file extension as
//! `image::ImageReader::open` does (`ImageFormat::from_extension`; an
//! unknown or missing extension fails to decode), with the crate's default
//! decoding limits.
use vstd::prelude::*;

verus! {

/// How the bytes of an 8-bit image are laid out per pixel.
#[derive(Debug, Clone, Copy, PartialEq, Eq, Structural)]
pub enum PixelLayout {
    /// One byte per pixel.
    Gray,
    /// Three bytes per pixel: red, green, blue.
    Rgb,
}

/// Width, height and 8-bit RGB pixels (row by row, three bytes per pixel) of
/// the file `file` decoded in the format its extension names, or `None`
/// where the format is unknown or the file does not decode.
pub uninterp spec fn decoded_rgb8(extension: Seq<char>, file: Seq<u8>) -> Option<(u32, u32, Seq<u8>)>;

/// As `decoded_rgb8`, converted to 8-bit gray instead (one byte per pixel).
pub uninterp spec fn decoded_luma8(extension: Seq<char>, file: Seq<u8>) -> Option<(u32, u32, Seq<u8>)>;

/// The decoded image resized to exactly `width` x `height` with the Lanczos3
/// filter, then converted to 8-bit RGB: its pixels, row by row.
pub uninterp spec fn decoded_resized_rgb8(
    extension: Seq<char>,
    file: Seq<u8>,
    width: u32,
    height: u32,
) -> Option<Seq<u8>>;

/// The PNG file that encodes the 8-bit image of the given layout and size, or
/// `None` where the encoder fails.
pub uninterp spec fn png_encoded(layout: PixelLayout, width: u32, height: u32, pixels: Seq<u8>) -> Option<Seq<u8>>;

/// Decodes `file` with `image::load_from_memory_with_format` in the format
/// that `ImageFormat::from_extension(extension)` names, then converts it with
/// `DynamicImage::to_rgb8`. Trusted: besides the name `decoded_rgb8`, the
/// contract claims what the crate's source shows, that the converted buffer
/// holds three bytes for each of the image's `width * height` pixels.
#[verifier::external_body]
pub(crate) fn decode_rgb8(extension: &str, file: &[u8]) -> (r: Option<(u32, u32, Vec<u8>)>)
    ensures
        match r {
            Some(d) => decoded_rgb8(extension@, file@) == Some((d.0, d.1, d.2@))
                && d.2@.len() == d.0 as nat * d.1 as nat * 3,
            None => decoded_rgb8(extension@, file@) is None,
        },
{
    let format = image::ImageFormat::from_extension(extension)?;
    let image = image::load_from_memory_with_format(file, format).ok()?.to_rgb8();
    Some((image.width(), image.height(), image.into_raw()))
}

/// As `decode_rgb8`, converting with `DynamicImage::to_luma8`. Trusted:
/// besides the name `decoded_luma8`, the contract claims that the converted
/// buffer holds one byte for each of the image's `width * height` pixels.
#[verifier::external_body]
pub(crate) fn decode_luma8(extension: &str, file: &[u8]) -> (r: Option<(u32, u32, Vec<u8>)>)
    ensures
        match r {
            Some(d) => decoded_luma8(extension@, file@) == Some((d.0, d.1, d.2@))
                && d.2@.len() == d.0 as nat * d.1 as nat,
            None => decoded_luma8(extension@, file@) is None,
        },
{
    let format = image::ImageFormat::from_extension(extension)?;
    let image = image::load_from_memory_with_format(file, format).ok()?.to_luma8();
    Some((image.width(), image.height(), image.into_raw()))
}

/// Decodes as `decode_rgb8` does, resizes with `DynamicImage::resize_exact`
/// and the Lanczos3 filter, then converts with `to_rgb8`. Trusted: besides
/// the name `decoded_resized_rgb8`, the contract claims what the crate's
/// documentation and source show, that the result has exactly the requested
/// size and so three bytes for each of its `width * height` pixels.
#[verifier::external_body]
pub(crate) fn decode_resized_rgb8(extension: &str, file: &[u8], width: u32, height: u32) -> (r: Option<Vec<u8>>)
    ensures
        match r {
            Some(px) => decoded_resized_rgb8(extension@, file@, width, height) == Some(px@)
                && px@.len() == width as nat * height as nat * 3,
            None => decoded_resized_rgb8(extension@, file@, width, height) is None,
        },
{
    let format = image::ImageFormat::from_extension(extension)?;
    let image = image::load_from_memory_with_format(file, format).ok()?;
    let resized = image.resize_exact(width, height, image::imageops::FilterType::Lanczos3).to_rgb8();
    Some(resized.into_raw())
}

/// Builds an `image::ImageBuffer` of the layout's pixel type from `pixels`
/// (`ImageBuffer::from_raw`) and encodes it with `ImageBuffer::write_to` as
/// PNG, the encoder that `ImageBuffer::save` uses for a `.png` path. Trusted:
/// the result is only tied to the name `png_encoded`.
#[verifier::external_body]
pub(crate) fn encode_png(layout: PixelLayout, width: u32, height: u32, pixels: Vec<u8>) -> (r: Option<Vec<u8>>)
    requires
        pixels@.len() == width as nat * height as nat * (match layout {
            PixelLayout::Gray => 1nat,
            PixelLayout::Rgb => 3nat,
        }),
    ensures
        match r {
            Some(png) => png_encoded(layout, width, height, pixels@) == Some(png@),
            None => png_encoded(layout, width, height, pixels@) is None,
        },
{
    let mut out = std::io::Cursor::new(Vec::new());
    let written = match layout {
        PixelLayout::Gray => image::GrayImage::from_raw(width, height, pixels)?.write_to(&mut out, image::ImageFormat::Png),
        PixelLayout::Rgb => image::RgbImage::from_raw(width, height, pixels)?.write_to(&mut out, image::ImageFormat::Png),
    };
    written.ok()?;
    Some(out.into_inner())
}

} // verus!
