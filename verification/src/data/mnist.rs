//! MNIST in the IDX format: an image file (magic number 2051, then the image
//! count, the row count and the column count, each a big-endian 32-bit number,
//! then the pixels of each image in turn) and a label file (magic number 2049,
//! the label count, then one byte per label).
use vstd::prelude::*;

use super::{
    be_u32_at, byte_rows, copy_range, image_extension, image_extension_text, pixels_of_size, sized_pixels, read_be_u32,
    ImageLoadError, RawSample,
};
use crate::codec::{decode_luma8, decoded_luma8};

verus! {

/// Magic number of an IDX image file.
pub const IMAGE_FILE_MAGIC: u32 = 2051;

/// Magic number of an IDX label file.
pub const LABEL_FILE_MAGIC: u32 = 2049;

/// Why an IDX file was refused.
#[derive(Debug, Clone, Copy, PartialEq, Eq, Structural)]
pub enum IdxError {
    /// The file ends before the header or the data it announces.
    Truncated,
    /// The first four bytes are not the magic number of the expected kind of file.
    BadMagic { found: u32, expected: u32 },
}

/// The images that an IDX image file holds, or why it is refused.
pub open spec fn idx_images(data: Seq<u8>) -> Result<Seq<Seq<u8>>, IdxError> {
    if data.len() < 4 {
        Err(IdxError::Truncated)
    } else if be_u32_at(data, 0) != IMAGE_FILE_MAGIC {
        Err(IdxError::BadMagic { found: be_u32_at(data, 0) as u32, expected: IMAGE_FILE_MAGIC })
    } else if data.len() < 16 {
        Err(IdxError::Truncated)
    } else {
        let count = be_u32_at(data, 4);
        let size = be_u32_at(data, 8) * be_u32_at(data, 12);
        if data.len() < 16 + count * size {
            Err(IdxError::Truncated)
        } else {
            Ok(
                Seq::new(
                    count,
                    |i: int| data.subrange(16 + i * size, 16 + i * size + size),
                ),
            )
        }
    }
}

/// The labels that an IDX label file holds, or why it is refused.
pub open spec fn idx_labels(data: Seq<u8>) -> Result<Seq<u8>, IdxError> {
    if data.len() < 4 {
        Err(IdxError::Truncated)
    } else if be_u32_at(data, 0) != LABEL_FILE_MAGIC {
        Err(IdxError::BadMagic { found: be_u32_at(data, 0) as u32, expected: LABEL_FILE_MAGIC })
    } else if data.len() < 8 {
        Err(IdxError::Truncated)
    } else if data.len() < 8 + be_u32_at(data, 4) {
        Err(IdxError::Truncated)
    } else {
        Ok(data.subrange(8, 8 + be_u32_at(data, 4) as int))
    }
}

proof fn lemma_image_bounds(i: int, count: int, size: int)
    requires
        0 <= i < count,
        0 <= size,
    ensures
        i * size + size == (i + 1) * size,
        (i + 1) * size <= count * size,
{
    assert(i * size + size == (i + 1) * size) by (nonlinear_arith);
    assert((i + 1) * size <= count * size) by (nonlinear_arith)
        requires
            i + 1 <= count,
            0 <= size,
    ;
}

/// An IDX image file is accepted exactly when it is long enough for its
/// header, starts with the magic number 2051 and holds the data its header
/// announces; then it gives as many images as the 32-bit count at bytes 4..8
/// says, each of rows x columns bytes taken in turn after the header. A file
/// with another magic number is refused with that number.
pub proof fn lemma_idx_image_file(data: Seq<u8>)
    ensures
        idx_images(data) is Ok <==> data.len() >= 16 && data[0] == 0 && data[1] == 0 && data[2] == 8
            && data[3] == 3 && data.len() >= 16 + be_u32_at(data, 4) * (be_u32_at(data, 8)
            * be_u32_at(data, 12)),
        data.len() >= 4 && !(data[0] == 0 && data[1] == 0 && data[2] == 8 && data[3] == 3) ==> idx_images(data)
            == Err::<Seq<Seq<u8>>, IdxError>(IdxError::BadMagic { found: be_u32_at(data, 0) as u32, expected: 2051 }),
        idx_images(data) matches Ok(images) ==> {
            &&& images.len() == be_u32_at(data, 4)
            &&& forall|i: int|
                0 <= i < images.len() ==> (#[trigger] images[i]).len() == be_u32_at(data, 8)
                    * be_u32_at(data, 12) && images[i] == data.subrange(
                    16 + i * (be_u32_at(data, 8) * be_u32_at(data, 12)),
                    16 + (i + 1) * (be_u32_at(data, 8) * be_u32_at(data, 12)),
                )
        },
{
    crate::data::lemma_be_u32_at(data, 0);
    if let Ok(images) = idx_images(data) {
        let size = be_u32_at(data, 8) * be_u32_at(data, 12);
        assert forall|i: int| 0 <= i < images.len() implies (#[trigger] images[i]).len() == size
            && images[i] == data.subrange(16 + i * size, 16 + (i + 1) * size) by {
            lemma_image_bounds(i, images.len() as int, size as int);
        }
    }
}

/// An IDX label file is accepted exactly when it is long enough for its
/// header, starts with the magic number 2049 and holds the labels its header
/// announces; then it gives as many labels as the 32-bit count at bytes 4..8
/// says, the bytes that follow the header.
pub proof fn lemma_idx_label_file(data: Seq<u8>)
    ensures
        idx_labels(data) is Ok <==> data.len() >= 8 && data[0] == 0 && data[1] == 0 && data[2] == 8
            && data[3] == 1 && data.len() >= 8 + be_u32_at(data, 4),
        idx_labels(data) matches Ok(labels) ==> {
            &&& labels.len() == be_u32_at(data, 4)
            &&& forall|i: int| 0 <= i < labels.len() ==> #[trigger] labels[i] == data[8 + i]
        },
{
    crate::data::lemma_be_u32_at(data, 0);
}

/// Reads every image of an IDX image file.
pub fn load_images(data: &[u8]) -> (r: Result<Vec<Vec<u8>>, IdxError>)
    ensures
        r matches Ok(images) ==> images@.len() == be_u32_at(data@, 4),
        match r {
            Ok(images) => idx_images(data@) == Ok::<Seq<Seq<u8>>, IdxError>(byte_rows(images@)),
            Err(e) => idx_images(data@) == Err::<Seq<Seq<u8>>, IdxError>(e),
        },
{
    if data.len() < 4 {
        return Err(IdxError::Truncated);
    }
    let magic = read_be_u32(data, 0);
    if magic != IMAGE_FILE_MAGIC {
        return Err(IdxError::BadMagic { found: magic, expected: IMAGE_FILE_MAGIC });
    }
    if data.len() < 16 {
        return Err(IdxError::Truncated);
    }
    let count = read_be_u32(data, 4);
    let rows = read_be_u32(data, 8);
    let cols = read_be_u32(data, 12);
    assert(rows as u64 * cols as u64 <= 0xffff_ffff_ffff_ffffu64) by (nonlinear_arith)
        requires
            rows <= 0xffff_ffffu32,
            cols <= 0xffff_ffffu32,
    ;
    let size: u64 = rows as u64 * cols as u64;
    assert(size as int == be_u32_at(data@, 8) * be_u32_at(data@, 12));
    assert(count as u128 * size as u128 <= 0xffff_ffff * 0xffff_ffff_ffff_ffffu128) by (nonlinear_arith)
        requires
            count <= 0xffff_ffff,
            size <= 0xffff_ffff_ffff_ffffu64,
    ;
    let total: u128 = count as u128 * size as u128;
    if (data.len() as u128) < 16 + total {
        return Err(IdxError::Truncated);
    }
    let ghost spec_images = idx_images(data@)->Ok_0;
    let mut images: Vec<Vec<u8>> = Vec::new();
    if count == 0 {
        assert(byte_rows(images@) =~= spec_images);
        return Ok(images);
    }
    assert(size <= total) by (nonlinear_arith)
        requires
            count >= 1,
            total == count * size,
    ;
    let size_us = size as usize;
    let len = data.len();
    let mut offset: usize = 16;
    let mut i: u32 = 0;
    while i < count
        invariant
            len == data@.len(),
            16 + count * size <= data@.len(),
            size_us == size,
            size == be_u32_at(data@, 8) * be_u32_at(data@, 12),
            count == be_u32_at(data@, 4),
            spec_images == idx_images(data@)->Ok_0,
            idx_images(data@) is Ok,
            i <= count,
            offset == 16 + i * size,
            images@.len() == i,
            forall|k: int| 0 <= k < i ==> (#[trigger] images@[k])@ == spec_images[k],
        decreases count - i,
    {
        proof {
            lemma_image_bounds(i as int, count as int, size as int);
        }
        let image = copy_range(data, offset, offset + size_us);
        images.push(image);
        offset = offset + size_us;
        i = i + 1;
    }
    assert(byte_rows(images@) =~= spec_images);
    Ok(images)
}

/// Reads every label of an IDX label file.
pub fn load_labels(data: &[u8]) -> (r: Result<Vec<u8>, IdxError>)
    ensures
        r matches Ok(labels) ==> labels@.len() == be_u32_at(data@, 4),
        match r {
            Ok(labels) => idx_labels(data@) == Ok::<Seq<u8>, IdxError>(labels@),
            Err(e) => idx_labels(data@) == Err::<Seq<u8>, IdxError>(e),
        },
{
    if data.len() < 4 {
        return Err(IdxError::Truncated);
    }
    let magic = read_be_u32(data, 0);
    if magic != LABEL_FILE_MAGIC {
        return Err(IdxError::BadMagic { found: magic, expected: LABEL_FILE_MAGIC });
    }
    if data.len() < 8 {
        return Err(IdxError::Truncated);
    }
    let count = read_be_u32(data, 4);
    if data.len() - 8 < count as usize {
        return Err(IdxError::Truncated);
    }
    Ok(copy_range(data, 8, 8 + count as usize))
}

} // verus!

verus! {

/// The MNIST test set: the images and the labels of the two IDX files.
pub struct MnistAttackDataset {
    images: Vec<Vec<u8>>,
    labels: Vec<u8>,
}

impl MnistAttackDataset {
    /// The pixels of each image, one byte per pixel, row by row.
    pub closed spec fn images(&self) -> Seq<Seq<u8>> {
        byte_rows(self.images@)
    }

    /// The label of each image.
    pub closed spec fn labels(&self) -> Seq<u8> {
        self.labels@
    }

    /// Builds the dataset from the contents of the image file and the label
    /// file. The image file is read first: where both are refused, its error
    /// is the one returned. The two counts are not compared.
    pub fn from_idx_files(image_file: &[u8], label_file: &[u8]) -> (r: Result<Self, IdxError>)
        ensures
            match r {
                Ok(d) => idx_images(image_file@) == Ok::<Seq<Seq<u8>>, IdxError>(d.images())
                    && idx_labels(label_file@) == Ok::<Seq<u8>, IdxError>(d.labels()),
                Err(e) => idx_images(image_file@) == Err::<Seq<Seq<u8>>, IdxError>(e) || (
                idx_images(image_file@) is Ok && idx_labels(label_file@) == Err::<
                    Seq<u8>,
                    IdxError,
                >(e)),
            },
    {
        let images = match load_images(image_file) {
            Ok(images) => images,
            Err(e) => return Err(e),
        };
        let labels = match load_labels(label_file) {
            Ok(labels) => labels,
            Err(e) => return Err(e),
        };
        Ok(MnistAttackDataset { images, labels })
    }

    /// Number of samples: the number of images.
    pub fn len(&self) -> (r: usize)
        ensures
            r == self.images().len(),
    {
        self.images.len()
    }

    /// Number of labels (which may differ from the number of images when the
    /// two files disagree).
    pub fn label_count(&self) -> (r: usize)
        ensures
            r == self.labels().len(),
    {
        self.labels.len()
    }

    /// The sample at `index`, or `None` past the last image. An image without
    /// a label is left out by `requires`.
    pub fn get(&self, index: usize) -> (r: Option<RawSample>)
        requires
            index < self.images().len() ==> index < self.labels().len(),
        ensures
            index < self.images().len() <==> r is Some,
            r matches Some(s) ==> s.pixels@ == self.images()[index as int] && s.label
                == self.labels()[index as int] as usize,
    {
        if index < self.images.len() {
            let pixels = self.images[index].clone();
            Some(RawSample { pixels, label: self.labels[index] as usize })
        } else {
            None
        }
    }
}

/// Side of an MNIST image, in pixels.
pub const IMAGE_SIDE: u32 = 28;

/// The pixels of a single MNIST image file: decoded to 8-bit gray, which
/// must be 28x28.
pub open spec fn mnist_image(path: Seq<char>, file: Seq<u8>) -> Result<Seq<u8>, ImageLoadError> {
    match image_extension_text(path) {
        None => Err(ImageLoadError::Decode),
        Some(ext) => match decoded_luma8(ext, file) {
            None => Err(ImageLoadError::Decode),
            Some(d) => sized_pixels(d.0, d.1, d.2, IMAGE_SIDE),
        },
    }
}

/// An MNIST image file that decodes to a 28x28 gray image gives its bytes
/// unchanged; one that decodes to another size is refused with that size,
/// and one that does not decode (or names no format) is refused as such.
pub proof fn lemma_mnist_image_file(path: Seq<char>, file: Seq<u8>)
    ensures
        image_extension_text(path) is None ==> mnist_image(path, file) == Err::<Seq<u8>, ImageLoadError>(
            ImageLoadError::Decode,
        ),
        image_extension_text(path) matches Some(ext) ==> match decoded_luma8(ext, file) {
            None => mnist_image(path, file) == Err::<Seq<u8>, ImageLoadError>(ImageLoadError::Decode),
            Some(d) => if d.0 == 28 && d.1 == 28 {
                mnist_image(path, file) == Ok::<Seq<u8>, ImageLoadError>(d.2)
            } else {
                mnist_image(path, file) == Err::<Seq<u8>, ImageLoadError>(
                    ImageLoadError::WrongSize { width: d.0, height: d.1 },
                )
            },
        },
{
}

/// Loads a single MNIST image from the bytes of the file at `path`.
pub fn load_mnist_image(path: &str, file: &[u8]) -> (r: Result<Vec<u8>, ImageLoadError>)
    ensures
        match r {
            Ok(px) => mnist_image(path@, file@) == Ok::<Seq<u8>, ImageLoadError>(px@)
                && px@.len() == 784,
            Err(e) => mnist_image(path@, file@) == Err::<Seq<u8>, ImageLoadError>(e),
        },
{
    let ext = match image_extension(path) {
        Some(e) => e,
        None => return Err(ImageLoadError::Decode),
    };
    match decode_luma8(ext.as_str(), file) {
        None => Err(ImageLoadError::Decode),
        Some((width, height, pixels)) => {
            let r = pixels_of_size(width, height, pixels, IMAGE_SIDE);
            proof {
                if r is Ok {
                    assert(width as nat * height as nat == 784) by (nonlinear_arith)
                        requires
                            width == 28,
                            height == 28,
                    ;
                }
            }
            r
        },
    }
}

} // verus!
