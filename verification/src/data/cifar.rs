//! CIFAR-10 binary batches: a run of records, each one label byte followed by
//! the 3072 pixel bytes of a 32x32 image (1024 red, then 1024 green, then 1024
//! blue values).
use vstd::prelude::*;

use super::{byte_rows, copy_range, image_extension, image_extension_text, pixels_of_size, sized_pixels, ImageLoadError, RawSample};
use super::layout::{interleaved_to_planar, planar_of_interleaved};
use crate::codec::{decode_rgb8, decoded_rgb8};

verus! {

/// Pixel bytes of one CIFAR-10 image.
pub const IMAGE_BYTES: usize = 3072;

/// Bytes of one record: the label byte and the image.
pub const RECORD_BYTES: usize = 3073;

/// Number of whole records in a batch; trailing bytes that do not make up a
/// record are ignored.
pub open spec fn record_count(data: Seq<u8>) -> nat {
    data.len() / RECORD_BYTES as nat
}

/// The image of record `i`.
pub open spec fn record_image(data: Seq<u8>, i: int) -> Seq<u8> {
    data.subrange(i * RECORD_BYTES + 1, i * RECORD_BYTES + RECORD_BYTES)
}

/// The label byte of record `i`.
pub open spec fn record_label(data: Seq<u8>, i: int) -> u8 {
    data[i * RECORD_BYTES]
}

/// A batch is read record by record: every whole record of 3073 bytes is
/// taken and only the trailing bytes that make up no record are left; record
/// `i` is its label byte at `3073 * i` followed by its 3072 image bytes.
pub proof fn lemma_batch_records(data: Seq<u8>)
    ensures
        record_count(data) * 3073 <= data.len() < record_count(data) * 3073 + 3073,
        forall|i: int|
            0 <= i < record_count(data) ==> (#[trigger] record_image(data, i)).len() == 3072
                && record_image(data, i) == data.subrange(3073 * i + 1, 3073 * i + 3073)
                && record_label(data, i) == data[3073 * i],
{
    vstd::arithmetic::div_mod::lemma_fundamental_div_mod(data.len() as int, 3073);
    assert(record_count(data) * 3073 <= data.len() < record_count(data) * 3073 + 3073);
    assert forall|i: int| 0 <= i < record_count(data) implies (#[trigger] record_image(data, i)).len()
        == 3072 && record_image(data, i) == data.subrange(3073 * i + 1, 3073 * i + 3073)
        && record_label(data, i) == data[3073 * i] by {
        lemma_record_in_bounds(data.len() as int, i);
    }
}

proof fn lemma_record_in_bounds(data_len: int, i: int)
    requires
        0 <= i < data_len / 3073,
        0 <= data_len,
    ensures
        i * 3073 + 3073 <= data_len,
{
    assert(i * 3073 + 3073 <= data_len) by (nonlinear_arith)
        requires
            0 <= i < data_len / 3073,
            0 <= data_len,
    ;
}

/// The CIFAR-10 test batch, one image and one label per record.
pub struct CifarAttackDataset {
    images: Vec<Vec<u8>>,
    labels: Vec<u8>,
}

impl CifarAttackDataset {
    #[verifier::type_invariant]
    spec fn well_formed(&self) -> bool {
        &&& self.images@.len() == self.labels@.len()
        &&& forall|i: int| 0 <= i < self.images@.len() ==> (#[trigger] self.images@[i])@.len() == IMAGE_BYTES
    }

    /// The pixel bytes of each image.
    pub closed spec fn images(&self) -> Seq<Seq<u8>> {
        byte_rows(self.images@)
    }

    /// The label of each image.
    pub closed spec fn labels(&self) -> Seq<u8> {
        self.labels@
    }

    /// Splits a batch into its images and labels, record by record.
    pub fn parse_batch(data: &[u8]) -> (r: (Vec<Vec<u8>>, Vec<u8>))
        ensures
            r.0@.len() == data@.len() / 3073,
            r.0@.len() == record_count(data@),
            r.1@.len() == record_count(data@),
            forall|i: int|
                0 <= i < record_count(data@) ==> (#[trigger] r.0@[i])@ == record_image(data@, i),
            forall|i: int|
                0 <= i < record_count(data@) ==> #[trigger] r.1@[i] == record_label(data@, i),
    {
        let mut images: Vec<Vec<u8>> = Vec::new();
        let mut labels: Vec<u8> = Vec::new();
        let len = data.len();
        let num_records = len / RECORD_BYTES;
        let mut i: usize = 0;
        let mut offset: usize = 0;
        while i < num_records
            invariant
                len == data@.len(),
                num_records == record_count(data@),
                i <= num_records,
                offset == i * RECORD_BYTES,
                images@.len() == i,
                labels@.len() == i,
                forall|k: int| 0 <= k < i ==> (#[trigger] images@[k])@ == record_image(data@, k),
                forall|k: int| 0 <= k < i ==> #[trigger] labels@[k] == record_label(data@, k),
            decreases num_records - i,
        {
            proof {
                lemma_record_in_bounds(len as int, i as int);
            }
            let label = data[offset];
            let image = copy_range(data, offset + 1, offset + RECORD_BYTES);
            labels.push(label);
            images.push(image);
            offset = offset + RECORD_BYTES;
            i = i + 1;
        }
        (images, labels)
    }

    /// Builds the dataset from the bytes of a batch file.
    pub fn from_batch(data: &[u8]) -> (r: Self)
        ensures
            r.images().len() == data@.len() / 3073,
            r.labels().len() == data@.len() / 3073,
            r.images().len() == record_count(data@),
            r.labels().len() == record_count(data@),
            forall|i: int|
                0 <= i < record_count(data@) ==> #[trigger] r.images()[i] == record_image(data@, i),
            forall|i: int|
                0 <= i < record_count(data@) ==> #[trigger] r.labels()[i] == record_label(data@, i),
    {
        let (images, labels) = Self::parse_batch(data);
        assert forall|i: int| 0 <= i < images@.len() implies (#[trigger] images@[i])@.len() == IMAGE_BYTES by {
            lemma_record_in_bounds(data@.len() as int, i);
        }
        CifarAttackDataset { images, labels }
    }

    /// Number of samples.
    pub fn len(&self) -> (r: usize)
        ensures
            r == self.images().len(),
            r == self.labels().len(),
    {
        proof {
            use_type_invariant(self);
        }
        self.images.len()
    }

    /// The pixels of the image at `index`, in the channel-major order in which
    /// the batch stores them.
    fn prepare_pixels(&self, index: usize) -> (r: Vec<u8>)
        requires
            index < self.images().len(),
            self.images()[index as int].len() == IMAGE_BYTES,
        ensures
            r@ == self.images()[index as int],
    {
        let image_data = &self.images[index];
        let mut pixels: Vec<u8> = Vec::new();
        let mut c: usize = 0;
        while c < 3
            invariant
                image_data@ == self.images()[index as int],
                image_data@.len() == IMAGE_BYTES,
                c <= 3,
                pixels@ == image_data@.subrange(0, c * 1024),
            decreases 3 - c,
        {
            let mut i: usize = 0;
            while i < 1024
                invariant
                    image_data@.len() == IMAGE_BYTES,
                    c < 3,
                    i <= 1024,
                    pixels@ == image_data@.subrange(0, c * 1024 + i),
                decreases 1024 - i,
            {
                pixels.push(image_data[c * 1024 + i]);
                assert(pixels@ =~= image_data@.subrange(0, c * 1024 + i + 1));
                i = i + 1;
            }
            c = c + 1;
        }
        assert(pixels@ =~= image_data@);
        pixels
    }

    /// The sample at `index`, or `None` past the last record.
    pub fn get(&self, index: usize) -> (r: Option<RawSample>)
        ensures
            index < self.images().len() <==> r is Some,
            r matches Some(s) ==> s.pixels@ == self.images()[index as int] && s.label
                == self.labels()[index as int] as usize && s.pixels@.len() == IMAGE_BYTES,
    {
        proof {
            use_type_invariant(self);
        }
        if index < self.images.len() {
            let pixels = self.prepare_pixels(index);
            Some(RawSample { pixels, label: self.labels[index] as usize })
        } else {
            None
        }
    }
}

/// Side of a CIFAR-10 image, in pixels.
pub const IMAGE_SIDE: u32 = 32;

/// The pixels of a single CIFAR-10 image file: decoded to 8-bit RGB, which
/// must be 32x32, then laid out channel by channel as the model takes them
/// (all red values, then all green, then all blue, each row by row).
pub open spec fn cifar_image(path: Seq<char>, file: Seq<u8>) -> Result<Seq<u8>, ImageLoadError> {
    match image_extension_text(path) {
        None => Err(ImageLoadError::Decode),
        Some(ext) => match decoded_rgb8(ext, file) {
            None => Err(ImageLoadError::Decode),
            Some(d) => match sized_pixels(d.0, d.1, d.2, IMAGE_SIDE) {
                Ok(px) => Ok(planar_of_interleaved(px, 1024, 3)),
                Err(e) => Err(e),
            },
        },
    }
}

/// A CIFAR-10 image file that decodes to a 32x32 RGB image gives its 3072
/// values channel by channel: value `c` of pixel `p` (row by row) is the
/// decoded byte `3 * p + c`, found at `1024 * c + p`. One that decodes to
/// another size is refused with that size, and one that does not decode (or
/// names no format) is refused as such.
pub proof fn lemma_cifar_image_file(path: Seq<char>, file: Seq<u8>)
    ensures
        image_extension_text(path) is None ==> cifar_image(path, file) == Err::<Seq<u8>, ImageLoadError>(
            ImageLoadError::Decode,
        ),
        image_extension_text(path) matches Some(ext) ==> match decoded_rgb8(ext, file) {
            None => cifar_image(path, file) == Err::<Seq<u8>, ImageLoadError>(ImageLoadError::Decode),
            Some(d) => if d.0 == 32 && d.1 == 32 {
                d.2.len() == 3072 ==> (cifar_image(path, file) matches Ok(px) && px.len() == 3072
                    && forall|p: int, c: int|
                    0 <= p < 1024 && 0 <= c < 3 ==> #[trigger] px[1024 * c + p] == d.2[3 * p + c])
            } else {
                cifar_image(path, file) == Err::<Seq<u8>, ImageLoadError>(
                    ImageLoadError::WrongSize { width: d.0, height: d.1 },
                )
            },
        },
{
    if let Some(ext) = image_extension_text(path) {
        if let Some(d) = decoded_rgb8(ext, file) {
            if d.0 == 32 && d.1 == 32 && d.2.len() == 3072 {
                let px = planar_of_interleaved(d.2, 1024, 3);
                assert forall|p: int, c: int| 0 <= p < 1024 && 0 <= c < 3 implies #[trigger] px[1024 * c + p]
                    == d.2[3 * p + c] by {
                    super::layout::lemma_layout_positions(d.2, 1024, 3, p, c);
                }
            }
        }
    }
}

/// Loads a single CIFAR-10 image from the bytes of the file at `path`.
pub fn load_cifar_image(path: &str, file: &[u8]) -> (r: Result<Vec<u8>, ImageLoadError>)
    ensures
        match r {
            Ok(px) => cifar_image(path@, file@) == Ok::<Seq<u8>, ImageLoadError>(px@)
                && px@.len() == IMAGE_BYTES,
            Err(e) => cifar_image(path@, file@) == Err::<Seq<u8>, ImageLoadError>(e),
        },
{
    let ext = match image_extension(path) {
        Some(e) => e,
        None => return Err(ImageLoadError::Decode),
    };
    match decode_rgb8(ext.as_str(), file) {
        None => Err(ImageLoadError::Decode),
        Some((width, height, pixels)) => match pixels_of_size(width, height, pixels, IMAGE_SIDE) {
            Ok(px) => {
                assert(width as nat * height as nat * 3 == 3072) by (nonlinear_arith)
                    requires
                        width == 32,
                        height == 32,
                ;
                Ok(interleaved_to_planar(px.as_slice(), 1024, 3))
            },
            Err(e) => Err(e),
        },
    }
}

} // verus!
