//! The integer side of the C&W L2 attack: which classes compete with the
//! target in the margin loss, how many binary-search steps run, when an
//! attack counts as a success, and how a successful adversarial example is
//! written out as a PNG file.
use vstd::prelude::*;
use vstd::string::*;

use crate::codec::{encode_png, png_encoded, PixelLayout};
use crate::data::copy_range;
use crate::data::layout::{interleaved_of_planar, planar_to_interleaved};
use crate::text::{decimal, push_decimal};

verus! {

/// The classes other than `target` among `0..num_classes`, in increasing
/// order: the logits that the margin loss takes the maximum of.
pub open spec fn competing(num_classes: nat, target: usize) -> Seq<usize> {
    Seq::new(num_classes, |i: int| i as usize).filter(other_than(target))
}

/// Selects the classes other than `target`.
pub open spec fn other_than(target: usize) -> spec_fn(usize) -> bool {
    |c: usize| c != target
}

/// The classes that compete with `target` in the margin loss.
pub fn competing_classes(num_classes: usize, target: usize) -> (r: Vec<usize>)
    ensures
        r@ == competing(num_classes as nat, target),
        r@.len() == (if target < num_classes {
            num_classes - 1
        } else {
            num_classes as int
        }),
        forall|i: int, j: int| 0 <= i < j < r@.len() ==> r@[i] < r@[j],
        forall|c: usize| r@.contains(c) <==> c < num_classes && c != target,
{
    let ghost all = Seq::new(num_classes as nat, |i: int| i as usize);
    let ghost keep = other_than(target);
    let mut out: Vec<usize> = Vec::new();
    let mut c: usize = 0;
    assert(all.subrange(0, 0).filter(keep) =~= Seq::<usize>::empty()) by {
        reveal(Seq::filter);
    }
    while c < num_classes
        invariant
            c <= num_classes,
            all == Seq::new(num_classes as nat, |i: int| i as usize),
            keep == other_than(target),
            out@ == all.subrange(0, c as int).filter(keep),
            out@.len() == (if target < c {
                c - 1
            } else {
                c as int
            }),
            forall|i: int, j: int| 0 <= i < j < out@.len() ==> out@[i] < out@[j],
            forall|i: int| 0 <= i < out@.len() ==> out@[i] < c && out@[i] != target,
            forall|x: usize| x < c && x != target ==> out@.contains(x),
        decreases num_classes - c,
    {
        assert(all.subrange(0, c + 1) =~= all.subrange(0, c as int).push(c));
        proof {
            all.subrange(0, c as int).lemma_filter_push(c, keep);
        }
        let ghost prev = out@;
        if c != target {
            out.push(c);
            assert(out@[out@.len() - 1] == c);
            assert forall|x: usize| x < c + 1 && x != target implies out@.contains(x) by {
                if x < c {
                    assert(prev.contains(x));
                    let k = choose|k: int| 0 <= k < prev.len() && prev[k] == x;
                    assert(out@ == prev.push(c));
                    assert(out@[k] == x);
                } else {
                    assert(out@[out@.len() - 1] == x);
                }
            }
        }
        c = c + 1;
    }
    assert(all.subrange(0, num_classes as int) =~= all);
    out
}

/// Number of rounds of the search for the constant `c`: one when `c` is
/// fixed, else the configured number of binary-search steps.
pub fn search_step_count(fixed_c: bool, binary_search_steps: usize) -> (r: usize)
    ensures
        r == (if fixed_c {
            1
        } else {
            binary_search_steps
        }),
{
    if fixed_c {
        1
    } else {
        binary_search_steps
    }
}

/// An attack succeeds when the adversarial example it kept is classified as
/// the target.
pub fn attack_succeeded(pred_label: Option<usize>, target_label: usize) -> (r: bool)
    ensures
        r == (pred_label == Some(target_label)),
{
    match pred_label {
        Some(p) => p == target_label,
        None => false,
    }
}

/// The file name of a saved adversarial example:
/// `adv_<idx>_true<true_label>_target<target_label>.png`.
pub open spec fn adversarial_name(idx: nat, true_label: nat, target_label: nat) -> Seq<char> {
    "adv_"@ + decimal(idx) + "_true"@ + decimal(true_label) + "_target"@ + decimal(target_label)
        + ".png"@
}

/// The file name under which the adversarial example of a sample is saved.
pub fn adversarial_file_name(idx: usize, true_label: usize, target_label: usize) -> (r: String)
    ensures
        r@ == adversarial_name(idx as nat, true_label as nat, target_label as nat),
{
    let mut name = String::from_str("adv_");
    push_decimal(&mut name, idx);
    name.append("_true");
    push_decimal(&mut name, true_label);
    name.append("_target");
    push_decimal(&mut name, target_label);
    name.append(".png");
    name
}

/// Why an adversarial example could not be turned into an image file.
#[derive(Debug, Clone, Copy, PartialEq, Eq, Structural)]
pub enum SaveError {
    /// Only one (gray) or three (RGB) channels can be saved.
    UnsupportedChannels { channels: usize },
    /// The PNG encoder failed.
    Encode,
}

/// The PNG file of an adversarial example with `channels` planes of
/// `height` x `width` values, already scaled to bytes: one channel is saved
/// as a gray image of the first plane, three as an RGB image whose pixels
/// take their red, green and blue values from the three planes.
pub open spec fn adversarial_png_file(channels: usize, height: usize, width: usize, values: Seq<u8>) -> Result<
    Seq<u8>,
    SaveError,
> {
    if channels == 1 {
        match png_encoded(
            PixelLayout::Gray,
            width as u32,
            height as u32,
            values.subrange(0, height * width),
        ) {
            Some(png) => Ok(png),
            None => Err(SaveError::Encode),
        }
    } else if channels == 3 {
        match png_encoded(
            PixelLayout::Rgb,
            width as u32,
            height as u32,
            interleaved_of_planar(values, (height * width) as nat, 3),
        ) {
            Some(png) => Ok(png),
            None => Err(SaveError::Encode),
        }
    } else {
        Err(SaveError::UnsupportedChannels { channels })
    }
}

/// Only one or three channels are saved. One channel is saved as a gray
/// image of the first `height * width` values; three as an RGB image whose
/// pixel `p` takes its red, green and blue values from `values[p]`,
/// `values[height * width + p]` and `values[2 * height * width + p]`. A
/// failing encoder is reported as such.
pub proof fn lemma_adversarial_png_layout(channels: usize, height: usize, width: usize, values: Seq<u8>)
    ensures
        channels != 1 && channels != 3 ==> adversarial_png_file(channels, height, width, values)
            == Err::<Seq<u8>, SaveError>(SaveError::UnsupportedChannels { channels }),
        channels == 1 ==> adversarial_png_file(channels, height, width, values) == match png_encoded(
            PixelLayout::Gray,
            width as u32,
            height as u32,
            values.subrange(0, height * width),
        ) {
            Some(png) => Ok::<Seq<u8>, SaveError>(png),
            None => Err::<Seq<u8>, SaveError>(SaveError::Encode),
        },
        channels == 3 ==> adversarial_png_file(channels, height, width, values) == match png_encoded(
            PixelLayout::Rgb,
            width as u32,
            height as u32,
            interleaved_of_planar(values, (height * width) as nat, 3),
        ) {
            Some(png) => Ok::<Seq<u8>, SaveError>(png),
            None => Err::<Seq<u8>, SaveError>(SaveError::Encode),
        },
        forall|p: int, c: int|
            0 <= p < height * width && 0 <= c < 3 ==> #[trigger] interleaved_of_planar(
                values,
                (height * width) as nat,
                3,
            )[3 * p + c] == values[c * (height * width) + p],
{
    assert forall|p: int, c: int| 0 <= p < height * width && 0 <= c < 3 implies #[trigger] interleaved_of_planar(
        values,
        (height * width) as nat,
        3,
    )[3 * p + c] == values[c * (height * width) + p] by {
        crate::data::layout::lemma_layout_positions(values, (height * width) as nat, 3, p, c);
    }
}

/// Encodes an adversarial example as a PNG file. The values are the image's
/// planes, scaled to bytes. Any channel count but one or three is refused;
/// for those two, the sides must fit in 32 bits and there must be at least
/// `channels * height * width` values (the planes of the first image of the
/// batch are used).
pub fn adversarial_png(channels: usize, height: usize, width: usize, values: &[u8]) -> (r: Result<
    Vec<u8>,
    SaveError,
>)
    requires
        channels == 1 || channels == 3 ==> {
            &&& height <= u32::MAX
            &&& width <= u32::MAX
            &&& values@.len() >= channels * height * width
        },
    ensures
        match r {
            Ok(png) => adversarial_png_file(channels, height, width, values@) == Ok::<
                Seq<u8>,
                SaveError,
            >(png@),
            Err(e) => adversarial_png_file(channels, height, width, values@) == Err::<
                Seq<u8>,
                SaveError,
            >(e),
        },
{
    if channels != 1 && channels != 3 {
        return Err(SaveError::UnsupportedChannels { channels });
    }
    assert(height * width <= channels * height * width) by (nonlinear_arith)
        requires
            channels >= 1,
    ;
    assert(channels * height * width == channels * (height * width)) by (nonlinear_arith);
    let n = values.len();
    assert(height * width <= n);
    assert(width as nat * height as nat == height * width) by (nonlinear_arith);
    let pixels = height * width;
    let encoded = if channels == 1 {
        let gray = copy_range(values, 0, pixels);
        encode_png(PixelLayout::Gray, width as u32, height as u32, gray)
    } else {
        let rgb = planar_to_interleaved(values, pixels, 3);
        encode_png(PixelLayout::Rgb, width as u32, height as u32, rgb)
    };
    match encoded {
        Some(png) => Ok(png),
        None => Err(SaveError::Encode),
    }
}

/// The directory a sample's adversarial example is saved into: only after a
/// successful attack that kept an example, and only when a directory was given.
pub fn save_directory(success: bool, save_adv: &Option<String>, example_kept: bool) -> (r: Option<
    String,
>)
    ensures
        r is Some <==> success && example_kept && save_adv is Some,
        r matches Some(dir) ==> dir@ == save_adv->0@,
{
    if success && example_kept {
        match save_adv {
            Some(dir) => Some(dir.clone()),
            None => None,
        }
    } else {
        None
    }
}

} // verus!
