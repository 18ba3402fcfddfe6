use cw_attack_rs::data::cifar::{
    load_cifar_image, CifarAttackDataset, IMAGE_BYTES, RECORD_BYTES,
};
use cw_attack_rs::data::imagenet::{
    extract_label_from_filename, is_jpeg_file, label_from_stem, load_imagenet_image,
    ImageNetAttackDataset,
};
use cw_attack_rs::data::layout::{interleaved_to_planar, planar_to_interleaved};
use cw_attack_rs::data::mnist::{
    load_images, load_labels, load_mnist_image, IdxError, MnistAttackDataset,
};
use cw_attack_rs::data::ImageLoadError;
use cw_attack_rs::attack::adversarial_png;

fn be(n: u32) -> Vec<u8> {
    n.to_be_bytes().to_vec()
}

fn idx_image_file(count: u32, rows: u32, cols: u32, pixels: &[u8]) -> Vec<u8> {
    let mut f = be(2051);
    f.extend(be(count));
    f.extend(be(rows));
    f.extend(be(cols));
    f.extend_from_slice(pixels);
    f
}

fn idx_label_file(labels: &[u8]) -> Vec<u8> {
    let mut f = be(2049);
    f.extend(be(labels.len() as u32));
    f.extend_from_slice(labels);
    f
}

#[test]
fn mnist_images_are_split_by_header() {
    let pixels: Vec<u8> = (0u8..12).collect();
    let file = idx_image_file(2, 2, 3, &pixels);
    let images = load_images(&file).unwrap();
    assert_eq!(images, vec![vec![0, 1, 2, 3, 4, 5], vec![6, 7, 8, 9, 10, 11]]);
}

#[test]
fn mnist_images_ignore_trailing_bytes() {
    let pixels: Vec<u8> = (0u8..7).collect();
    let file = idx_image_file(1, 2, 3, &pixels);
    assert_eq!(load_images(&file).unwrap(), vec![vec![0, 1, 2, 3, 4, 5]]);
}

#[test]
fn mnist_images_bad_magic() {
    let mut file = idx_image_file(1, 1, 1, &[5]);
    file[3] = 0x01; // 2049: a label file's magic number
    assert_eq!(load_images(&file), Err(IdxError::BadMagic { found: 2049, expected: 2051 }));
}

#[test]
fn mnist_images_truncated() {
    assert_eq!(load_images(&[0, 0, 8]), Err(IdxError::Truncated));
    let file = idx_image_file(2, 2, 2, &[1, 2, 3, 4, 5, 6, 7]);
    assert_eq!(load_images(&file), Err(IdxError::Truncated));
    let header_only = &idx_image_file(0, 0, 0, &[])[..10];
    assert_eq!(load_images(header_only), Err(IdxError::Truncated));
}

#[test]
fn mnist_zero_images() {
    let file = idx_image_file(0, 28, 28, &[]);
    assert_eq!(load_images(&file).unwrap(), Vec::<Vec<u8>>::new());
}

#[test]
fn mnist_labels_read() {
    let file = idx_label_file(&[7, 2, 1, 0]);
    assert_eq!(load_labels(&file).unwrap(), vec![7, 2, 1, 0]);
    let mut bad = file.clone();
    bad[3] = 0x03;
    assert_eq!(load_labels(&bad), Err(IdxError::BadMagic { found: 2051, expected: 2049 }));
    assert_eq!(load_labels(&file[..9]), Err(IdxError::Truncated));
    assert_eq!(load_labels(&file[..6]), Err(IdxError::Truncated));
}

#[test]
fn mnist_dataset_samples() {
    let images = idx_image_file(3, 1, 2, &[1, 2, 3, 4, 5, 6]);
    let labels = idx_label_file(&[9, 8, 7]);
    let d = MnistAttackDataset::from_idx_files(&images, &labels).unwrap();
    assert_eq!(d.len(), 3);
    assert_eq!(d.label_count(), 3);
    let s = d.get(1).unwrap();
    assert_eq!(s.pixels, vec![3, 4]);
    assert_eq!(s.label, 8);
    assert!(d.get(3).is_none());
}

#[test]
fn mnist_dataset_reports_image_error_first() {
    let images = vec![0u8, 0, 8];
    let labels = vec![0u8];
    assert!(matches!(
        MnistAttackDataset::from_idx_files(&images, &labels),
        Err(IdxError::Truncated)
    ));
    let images = idx_image_file(1, 1, 1, &[4]);
    let mut labels = idx_label_file(&[1]);
    labels[2] = 9;
    assert!(matches!(
        MnistAttackDataset::from_idx_files(&images, &labels),
        Err(IdxError::BadMagic { expected: 2049, .. })
    ));
}

fn cifar_batch(records: usize, extra: usize) -> Vec<u8> {
    let mut data = Vec::new();
    for r in 0..records {
        data.push(r as u8 + 3);
        for i in 0..IMAGE_BYTES {
            data.push(((i + r) % 251) as u8);
        }
    }
    data.extend(std::iter::repeat(0xEE).take(extra));
    data
}

#[test]
fn cifar_batch_records() {
    let data = cifar_batch(2, 100);
    assert_eq!(RECORD_BYTES, 3073);
    let (images, labels) = CifarAttackDataset::parse_batch(&data);
    assert_eq!(labels, vec![3, 4]);
    assert_eq!(images.len(), 2);
    assert_eq!(images[1], data[RECORD_BYTES + 1..2 * RECORD_BYTES].to_vec());
}

#[test]
fn cifar_dataset_get() {
    let data = cifar_batch(3, 0);
    let d = CifarAttackDataset::from_batch(&data);
    assert_eq!(d.len(), 3);
    let s = d.get(2).unwrap();
    assert_eq!(s.label, 5);
    assert_eq!(s.pixels, data[2 * RECORD_BYTES + 1..3 * RECORD_BYTES].to_vec());
    assert!(d.get(3).is_none());
    assert_eq!(CifarAttackDataset::from_batch(&data[..3072]).len(), 0);
}

#[test]
fn imagenet_labels_from_names() {
    // the eight digits after the `n` of a synset name, modulo 1000
    assert_eq!(extract_label_from_filename("imagenet-sample-images/n01440764_tench.JPEG"), 764);
    assert_eq!(extract_label_from_filename("n15075141_toilet_tissue.JPEG"), 141);
    assert_eq!(extract_label_from_filename("n150751412_toilet_tissue.JPEG"), 141);
    assert_eq!(extract_label_from_filename("x/n+12345678_plus.jpg"), 567);
    assert_eq!(extract_label_from_filename("n-12345678_minus.jpg"), 0);
    assert_eq!(extract_label_from_filename("n0144_short.jpg"), 0);
    assert_eq!(extract_label_from_filename("n012345.jpg"), 0);
    assert_eq!(extract_label_from_filename("m01440764_tench.JPEG"), 0);
    assert_eq!(extract_label_from_filename("n01440764"), 764);
    assert_eq!(extract_label_from_filename("n1234567\u{e9}x.jpg"), 0);
    assert_eq!(extract_label_from_filename("n12345678\u{e9}x.jpg"), 678);
    assert_eq!(label_from_stem(b"n00000100"), 100);
    assert_eq!(label_from_stem(b"n99999999_x"), 999);
    assert_eq!(label_from_stem(b"n0000010"), 0);
}

#[test]
fn imagenet_jpeg_extensions() {
    assert!(is_jpeg_file("a/n1.JPEG"));
    assert!(is_jpeg_file("a/n1.jpg"));
    assert!(is_jpeg_file("b.JpG"));
    assert!(!is_jpeg_file("a/n1.png"));
    assert!(!is_jpeg_file(".jpg"));
    assert!(!is_jpeg_file("jpeg"));
    assert!(is_jpeg_file("a.jpeg/"));
}

#[test]
fn imagenet_listing_sorted_by_file_name() {
    let paths: Vec<String> = vec![
        "d/n02000000_b.JPEG".to_string(),
        "d/readme.txt".to_string(),
        "d/n01000012_a.jpg".to_string(),
        "d/N00000002_c.jpeg".to_string(),
    ];
    let d = ImageNetAttackDataset::from_paths(&paths);
    assert_eq!(d.len(), 3);
    assert_eq!(d.get(0).unwrap(), ("d/N00000002_c.jpeg".to_string(), 0));
    assert_eq!(d.get(1).unwrap(), ("d/n01000012_a.jpg".to_string(), 12));
    assert_eq!(d.get(2).unwrap(), ("d/n02000000_b.JPEG".to_string(), 0));
    assert!(d.get(3).is_none());
}

#[test]
fn imagenet_listing_stable_for_equal_names() {
    let paths: Vec<String> = vec![
        "y/n00000005_same.jpg".to_string(),
        "x/n00000003_a.jpg".to_string(),
        "x/n00000005_same.jpg".to_string(),
    ];
    let d = ImageNetAttackDataset::from_paths(&paths);
    assert_eq!(d.get(0).unwrap().0, "x/n00000003_a.jpg");
    assert_eq!(d.get(1).unwrap().0, "y/n00000005_same.jpg");
    assert_eq!(d.get(2).unwrap().0, "x/n00000005_same.jpg");
}

#[test]
fn imagenet_listing_with_multibyte_names() {
    let paths: Vec<String> = vec![
        "d/n12345678\u{e9}x.jpg".to_string(),
        "d/n1234567\u{e9}x.jpg".to_string(),
        "d/n00000001_a.jpg".to_string(),
        "d/n1234567\u{e9}x.png".to_string(),
    ];
    let d = ImageNetAttackDataset::from_paths(&paths);
    assert_eq!(d.len(), 3);
    assert_eq!(d.get(0).unwrap(), ("d/n00000001_a.jpg".to_string(), 1));
    assert_eq!(d.get(1).unwrap(), ("d/n12345678\u{e9}x.jpg".to_string(), 678));
    assert_eq!(d.get(2).unwrap(), ("d/n1234567\u{e9}x.jpg".to_string(), 0));
}

#[test]
fn layout_round_trip() {
    let interleaved: Vec<u8> = (0u8..12).collect();
    let planar = interleaved_to_planar(&interleaved, 4, 3);
    assert_eq!(planar, vec![0, 3, 6, 9, 1, 4, 7, 10, 2, 5, 8, 11]);
    assert_eq!(planar_to_interleaved(&planar, 4, 3), interleaved);
}

fn planes(pixels: usize, channels: usize) -> Vec<u8> {
    (0..pixels * channels).map(|i| ((i * 7 + i / 5) % 256) as u8).collect()
}

#[test]
fn cifar_image_file_loads_pixels() {
    let values = planes(32 * 32, 3);
    let png = adversarial_png(3, 32, 32, &values).unwrap();
    let pixels = load_cifar_image("some/dir/img.PNG", &png).unwrap();
    // channel planes, as the model takes them: the PNG holds the interleaved pixels
    assert_eq!(pixels.len(), 3072);
    assert_eq!(pixels, values);
    assert_eq!(pixels[1024], planar_to_interleaved(&values, 32 * 32, 3)[1]);
}

#[test]
fn cifar_image_file_errors() {
    let values = planes(16 * 32, 3);
    let png = adversarial_png(3, 16, 32, &values).unwrap();
    assert_eq!(
        load_cifar_image("a.png", &png),
        Err(ImageLoadError::WrongSize { width: 32, height: 16 })
    );
    assert_eq!(load_cifar_image("a.unknown", &png), Err(ImageLoadError::Decode));
    assert_eq!(load_cifar_image("noextension", &png), Err(ImageLoadError::Decode));
    assert_eq!(load_cifar_image("a.png", &png[..20]), Err(ImageLoadError::Decode));
}

#[test]
fn mnist_image_file_loads_pixels() {
    let values = planes(28 * 28, 1);
    let png = adversarial_png(1, 28, 28, &values).unwrap();
    assert_eq!(load_mnist_image("digit.png", &png).unwrap(), values);
    let small = adversarial_png(1, 27, 28, &values).unwrap();
    assert_eq!(
        load_mnist_image("digit.png", &small),
        Err(ImageLoadError::WrongSize { width: 28, height: 27 })
    );
}

#[test]
fn imagenet_image_file_is_planar() {
    let values = planes(299 * 299, 3);
    let png = adversarial_png(3, 299, 299, &values).unwrap();
    let loaded = load_imagenet_image("n01440764_tench.png", &png).unwrap();
    assert_eq!(loaded.len(), 3 * 299 * 299);
    assert_eq!(loaded, values);
    let small = adversarial_png(3, 10, 10, &planes(100, 3)).unwrap();
    assert_eq!(load_imagenet_image("x.png", &small).unwrap().len(), 3 * 299 * 299);
    assert_eq!(load_imagenet_image("x.bmpx", &small), Err(ImageLoadError::Decode));
}
