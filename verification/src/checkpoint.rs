//! Choosing how a model checkpoint is read: from its extension, and for a
//! PyTorch file from the keys at the top level of the dictionary it stores.
use vstd::prelude::*;
use vstd::utf8::*;

use crate::paths::{extension, path_extension};
use crate::text::bytes_equal;

verus! {

/// How the weights of a checkpoint are stored.
#[derive(Debug, Clone, Copy, PartialEq, Eq, Structural)]
pub enum CheckpointFormat {
    /// A Safetensors file.
    Safetensors,
    /// A PyTorch file holding the weights at its top level.
    PytorchDirect,
    /// A PyTorch file holding the weights under the key `model_state_dict`.
    PytorchStateDict,
}

/// The bytes of "safetensors".
pub open spec fn safetensors_word() -> Seq<u8> {
    seq![115u8, 97, 102, 101, 116, 101, 110, 115, 111, 114, 115]
}

/// The bytes of "model_state_dict".
pub open spec fn state_dict_word() -> Seq<u8> {
    seq![109u8, 111, 100, 101, 108, 95, 115, 116, 97, 116, 101, 95, 100, 105, 99, 116]
}

/// The texts of a list of keys.
pub open spec fn key_texts(keys: Seq<String>) -> Seq<Seq<char>> {
    keys.map_values(|k: String| k@)
}

/// One of the keys is `model_state_dict`.
pub open spec fn has_state_dict_key(keys: Seq<Seq<char>>) -> bool {
    exists|i: int| 0 <= i < keys.len() && encode_utf8(#[trigger] keys[i]) == state_dict_word()
}

/// The format named by a checkpoint's extension (as bytes, if it has one) and
/// the keys at the top level of the file: Safetensors when the extension is
/// exactly `safetensors`; otherwise PyTorch, with the weights under
/// `model_state_dict` when that key is present and at the top level when not.
pub open spec fn format_of_parts(extension: Option<Seq<u8>>, top_level_keys: Seq<Seq<char>>) -> CheckpointFormat {
    if extension == Some(safetensors_word()) {
        CheckpointFormat::Safetensors
    } else if has_state_dict_key(top_level_keys) {
        CheckpointFormat::PytorchStateDict
    } else {
        CheckpointFormat::PytorchDirect
    }
}

/// The format of the checkpoint at `path` whose top-level keys are `top_level_keys`.
pub open spec fn checkpoint_format_of(path: Seq<char>, top_level_keys: Seq<Seq<char>>) -> CheckpointFormat {
    format_of_parts(path_extension(path), top_level_keys)
}

/// A checkpoint is read as Safetensors exactly when its extension is
/// `safetensors`. Any other file is read as PyTorch, whatever its extension:
/// under `model_state_dict` when one of its top-level keys is
/// `model_state_dict`, and from the top level when none is.
pub proof fn lemma_checkpoint_format_law(extension: Option<Seq<u8>>, top_level_keys: Seq<Seq<char>>)
    ensures
        format_of_parts(extension, top_level_keys) == CheckpointFormat::Safetensors <==> extension
            == Some(seq![115u8, 97, 102, 101, 116, 101, 110, 115, 111, 114, 115]),
        extension != Some(seq![115u8, 97, 102, 101, 116, 101, 110, 115, 111, 114, 115]) && (exists|i: int|
            0 <= i < top_level_keys.len() && encode_utf8(#[trigger] top_level_keys[i]) == seq![
                109u8,
                111,
                100,
                101,
                108,
                95,
                115,
                116,
                97,
                116,
                101,
                95,
                100,
                105,
                99,
                116,
            ]) ==> format_of_parts(extension, top_level_keys) == CheckpointFormat::PytorchStateDict,
        extension != Some(seq![115u8, 97, 102, 101, 116, 101, 110, 115, 111, 114, 115]) && (forall|i: int|
            0 <= i < top_level_keys.len() ==> encode_utf8(#[trigger] top_level_keys[i]) != seq![
                109u8,
                111,
                100,
                101,
                108,
                95,
                115,
                116,
                97,
                116,
                101,
                95,
                100,
                105,
                99,
                116,
            ]) ==> format_of_parts(extension, top_level_keys) == CheckpointFormat::PytorchDirect,
{
}

/// Whether one of the keys is `model_state_dict`.
pub fn contains_state_dict_key(keys: &Vec<String>) -> (r: bool)
    ensures
        r == has_state_dict_key(key_texts(keys@)),
{
    let word: Vec<u8> = vec![109u8, 111, 100, 101, 108, 95, 115, 116, 97, 116, 101, 95, 100, 105, 99, 116];
    assert(word@ =~= state_dict_word());
    let mut i: usize = 0;
    while i < keys.len()
        invariant
            i <= keys@.len(),
            word@ == state_dict_word(),
            forall|j: int| 0 <= j < i ==> encode_utf8(#[trigger] key_texts(keys@)[j]) != state_dict_word(),
        decreases keys@.len() - i,
    {
        let key = keys[i].as_str().as_bytes();
        if bytes_equal(key, word.as_slice()) {
            assert(encode_utf8(key_texts(keys@)[i as int]) == state_dict_word());
            return true;
        }
        assert(encode_utf8(key_texts(keys@)[i as int]) != state_dict_word());
        i = i + 1;
    }
    false
}

/// Whether the path's extension is exactly `safetensors`: such a checkpoint
/// is read without looking into it.
pub fn is_safetensors_path(checkpoint_path: &str) -> (r: bool)
    ensures
        r == (path_extension(checkpoint_path@) == Some(safetensors_word())),
{
    let word: Vec<u8> = vec![115u8, 97, 102, 101, 116, 101, 110, 115, 111, 114, 115];
    assert(word@ =~= safetensors_word());
    match extension(checkpoint_path) {
        Some(e) => bytes_equal(e.as_str().as_bytes(), word.as_slice()),
        None => false,
    }
}

/// Decides the format from the checkpoint's extension and its top-level keys.
pub fn checkpoint_format_of_parts(extension: Option<&[u8]>, top_level_keys: &Vec<String>) -> (r:
    CheckpointFormat)
    ensures
        r == format_of_parts(
            match extension {
                Some(e) => Some(e@),
                None => None,
            },
            key_texts(top_level_keys@),
        ),
{
    let safetensors: Vec<u8> = vec![115u8, 97, 102, 101, 116, 101, 110, 115, 111, 114, 115];
    assert(safetensors@ =~= safetensors_word());
    let is_safetensors = match extension {
        Some(e) => bytes_equal(e, safetensors.as_slice()),
        None => false,
    };
    if is_safetensors {
        CheckpointFormat::Safetensors
    } else if contains_state_dict_key(top_level_keys) {
        CheckpointFormat::PytorchStateDict
    } else {
        CheckpointFormat::PytorchDirect
    }
}

/// Decides how to read the checkpoint at `checkpoint_path`, given the keys at
/// the top level of the dictionary it stores (for a Safetensors file they
/// are not looked at).
pub fn checkpoint_format(checkpoint_path: &str, top_level_keys: &Vec<String>) -> (r: CheckpointFormat)
    ensures
        r == checkpoint_format_of(checkpoint_path@, key_texts(top_level_keys@)),
{
    match extension(checkpoint_path) {
        Some(e) => checkpoint_format_of_parts(Some(e.as_str().as_bytes()), top_level_keys),
        None => checkpoint_format_of_parts(None, top_level_keys),
    }
}

} // verus!
