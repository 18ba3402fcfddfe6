use cw_attack_rs::checkpoint::{
    checkpoint_format_of_parts, contains_state_dict_key, is_safetensors_path, CheckpointFormat,
};
use cw_attack_rs::cli::Dataset;
use cw_attack_rs::data::imagenet::{is_jpeg_extension, stem_of};
use cw_attack_rs::data::{copy_range, image_extension, pixels_of_size, read_be_u32, ImageLoadError};
use cw_attack_rs::paths::{extension, find_last_dot, name_extension};
use cw_attack_rs::run::{lowercase_file_name_bytes, model_type_of_lowercase_name};

#[test]
fn decoded_pixels_kept_only_at_model_size() {
    assert_eq!(pixels_of_size(28, 28, vec![7u8; 784], 28), Ok(vec![7u8; 784]));
    assert_eq!(
        pixels_of_size(28, 27, vec![7u8; 756], 28),
        Err(ImageLoadError::WrongSize { width: 28, height: 27 })
    );
    assert_eq!(
        pixels_of_size(64, 32, vec![0u8; 6144], 32),
        Err(ImageLoadError::WrongSize { width: 64, height: 32 })
    );
}

#[test]
fn model_type_from_lowercased_name() {
    assert_eq!(model_type_of_lowercase_name(b"cifar_mnist.pth"), Some(Dataset::Cifar10));
    assert_eq!(model_type_of_lowercase_name(b"small_mnist.pth"), Some(Dataset::Mnist));
    assert_eq!(model_type_of_lowercase_name(b"my_imagenet.pt"), Some(Dataset::ImageNet));
    assert_eq!(model_type_of_lowercase_name(b"inception.pt"), Some(Dataset::ImageNet));
    // the name is taken as given: upper case is not folded here
    assert_eq!(model_type_of_lowercase_name(b"MNIST.pth"), None);
    assert_eq!(model_type_of_lowercase_name(b""), None);
}

#[test]
fn lowercased_file_names() {
    assert_eq!(lowercase_file_name_bytes("Dir/Undistilled_MNIST.PTH"), b"undistilled_mnist.pth".to_vec());
    assert_eq!(lowercase_file_name_bytes("/"), Vec::<u8>::new());
    assert_eq!(lowercase_file_name_bytes("a/ÄB.pt"), "äb.pt".as_bytes().to_vec());
}

fn key_list(names: &[&str]) -> Vec<String> {
    names.iter().map(|k| k.to_string()).collect()
}

#[test]
fn checkpoint_format_from_parts() {
    let wrapped = key_list(&["model_state_dict"]);
    let direct = key_list(&["fc.weight", "model_state"]);
    assert_eq!(checkpoint_format_of_parts(Some(b"safetensors"), &direct), CheckpointFormat::Safetensors);
    assert_eq!(
        checkpoint_format_of_parts(Some(b"SafeTensors"), &wrapped),
        CheckpointFormat::PytorchStateDict
    );
    assert_eq!(checkpoint_format_of_parts(None, &direct), CheckpointFormat::PytorchDirect);
    assert_eq!(checkpoint_format_of_parts(Some(b"pth"), &wrapped), CheckpointFormat::PytorchStateDict);
    assert_eq!(checkpoint_format_of_parts(Some(b"pth"), &direct), CheckpointFormat::PytorchDirect);
}

#[test]
fn state_dict_key_and_safetensors_path() {
    assert!(contains_state_dict_key(&key_list(&["a", "model_state_dict"])));
    assert!(!contains_state_dict_key(&key_list(&["model_state_dict.fc.weight"])));
    assert!(!contains_state_dict_key(&key_list(&[])));
    assert!(is_safetensors_path("w/m.safetensors"));
    assert!(!is_safetensors_path("w/m.SAFETENSORS"));
    assert!(!is_safetensors_path("w/safetensors"));
    assert!(!is_safetensors_path("w/m.safetensors.pth"));
}

#[test]
fn jpeg_extension_bytes() {
    assert!(is_jpeg_extension(b"JPEG"));
    assert!(is_jpeg_extension(b"jpg"));
    assert!(is_jpeg_extension(b"jPeG"));
    assert!(!is_jpeg_extension(b"jpe"));
    assert!(!is_jpeg_extension(b"png"));
    assert!(!is_jpeg_extension(b""));
}

#[test]
fn extensions_and_stems() {
    assert_eq!(extension("a/b.tar.gz"), Some("gz".to_string()));
    assert_eq!(extension("a/.bashrc"), None);
    assert_eq!(extension("a/noext"), None);
    assert_eq!(extension("a/trailing."), Some(String::new()));
    assert_eq!(extension(".."), None);
    assert_eq!(name_extension("x.JPEG"), Some("JPEG".to_string()));
    assert_eq!(image_extension("dir/pic.PNG"), Some("PNG".to_string()));
    assert_eq!(stem_of("dir/n01440764_tench.JPEG"), Some(b"n01440764_tench".to_vec()));
    assert_eq!(stem_of("dir/.hidden"), Some(b".hidden".to_vec()));
    assert_eq!(stem_of("/"), None);
    assert_eq!(find_last_dot(b"a.b.c"), Some(3));
    assert_eq!(find_last_dot(b"abc"), None);
}

#[test]
fn byte_helpers() {
    assert_eq!(read_be_u32(&[0, 0, 8, 3, 9], 0), 2051);
    assert_eq!(read_be_u32(&[9, 0x12, 0x34, 0x56, 0x78], 1), 0x1234_5678);
    assert_eq!(copy_range(b"abcdef", 2, 5), b"cde".to_vec());
    assert_eq!(copy_range(b"abc", 1, 1), Vec::<u8>::new());
}
