//! The attack datasets, held as raw bytes: MNIST's IDX files, CIFAR-10's
//! binary batch and the ImageNet sample directory listing.
use vstd::prelude::*;
use vstd::utf8::*;

use crate::paths::{extension, path_extension};

pub mod cifar;
pub mod imagenet;
pub mod layout;
pub mod mnist;

verus! {

/// One sample of a dataset: its pixels as stored (one byte per channel value)
/// and its class label.
pub struct RawSample {
    pub pixels: Vec<u8>,
    pub label: usize,
}

/// Why an image file could not be turned into pixels.
#[derive(Debug, Clone, Copy, PartialEq, Eq, Structural)]
pub enum ImageLoadError {
    /// The extension names no known format, or the file does not decode in it.
    Decode,
    /// The image decoded, but not at the size the model takes.
    WrongSize { width: u32, height: u32 },
}

/// The pixels of a decoded image of `width` x `height`, which must be
/// `side` x `side`.
pub open spec fn sized_pixels(width: u32, height: u32, pixels: Seq<u8>, side: u32) -> Result<
    Seq<u8>,
    ImageLoadError,
> {
    if width != side || height != side {
        Err(ImageLoadError::WrongSize { width, height })
    } else {
        Ok(pixels)
    }
}

/// A decoded image is kept, unchanged, exactly when both its sides are
/// `side`; otherwise the refusal reports its size.
pub proof fn lemma_sized_pixels(width: u32, height: u32, pixels: Seq<u8>, side: u32)
    ensures
        sized_pixels(width, height, pixels, side) is Ok <==> width == side && height == side,
        width == side && height == side ==> sized_pixels(width, height, pixels, side) == Ok::<
            Seq<u8>,
            ImageLoadError,
        >(pixels),
        !(width == side && height == side) ==> sized_pixels(width, height, pixels, side) == Err::<
            Seq<u8>,
            ImageLoadError,
        >(ImageLoadError::WrongSize { width, height }),
{
}

/// Keeps the pixels of a decoded image if it is `side` x `side`.
pub fn pixels_of_size(width: u32, height: u32, pixels: Vec<u8>, side: u32) -> (r: Result<
    Vec<u8>,
    ImageLoadError,
>)
    ensures
        match r {
            Ok(px) => sized_pixels(width, height, pixels@, side) == Ok::<Seq<u8>, ImageLoadError>(
                px@,
            ),
            Err(e) => sized_pixels(width, height, pixels@, side) == Err::<Seq<u8>, ImageLoadError>(
                e,
            ),
        },
{
    if width != side || height != side {
        Err(ImageLoadError::WrongSize { width, height })
    } else {
        Ok(pixels)
    }
}

/// The extension of `path`, as text, by which the image format is chosen.
pub open spec fn image_extension_text(path: Seq<char>) -> Option<Seq<char>> {
    match path_extension(path) {
        Some(e) => Some(decode_utf8(e)),
        None => None,
    }
}

/// The extension of `path`, as text.
pub fn image_extension(path: &str) -> (r: Option<String>)
    ensures
        match r {
            Some(e) => image_extension_text(path@) == Some(e@),
            None => image_extension_text(path@) is None,
        },
{
    let r = extension(path);
    proof {
        if r is Some {
            encode_utf8_decode_utf8(r->0@);
        }
    }
    r
}

/// The contents of each byte vector of `v`.
pub open spec fn byte_rows(v: Seq<Vec<u8>>) -> Seq<Seq<u8>> {
    v.map_values(|x: Vec<u8>| x@)
}

/// The bytes `data[start..end]` as a new vector.
pub fn copy_range(data: &[u8], start: usize, end: usize) -> (r: Vec<u8>)
    requires
        start <= end <= data@.len(),
    ensures
        r@ == data@.subrange(start as int, end as int),
{
    vstd::slice::slice_to_vec(&data[start..end])
}

/// The big-endian 32-bit number stored in `s[off..off + 4]`.
pub open spec fn be_u32_at(s: Seq<u8>, off: int) -> nat {
    s[off] as nat * 16777216 + s[off + 1] as nat * 65536 + s[off + 2] as nat * 256 + s[off + 3] as nat
}

/// The big-endian reading of four bytes: the first is the most significant.
pub proof fn lemma_be_u32_at(s: Seq<u8>, off: int)
    ensures
        be_u32_at(s, off) == s[off] * 0x100_0000 + s[off + 1] * 0x1_0000 + s[off + 2] * 0x100
            + s[off + 3],
        be_u32_at(s, off) < 0x1_0000_0000,
{
}

/// Reads the big-endian 32-bit number at `off` (`u32::from_be_bytes`).
pub fn read_be_u32(s: &[u8], off: usize) -> (r: u32)
    requires
        off + 4 <= s@.len(),
    ensures
        r as nat == be_u32_at(s@, off as int),
{
    let b0 = s[off] as u32;
    let b1 = s[off + 1] as u32;
    let b2 = s[off + 2] as u32;
    let b3 = s[off + 3] as u32;
    b0 * 16777216 + b1 * 65536 + b2 * 256 + b3
}

} // verus!
