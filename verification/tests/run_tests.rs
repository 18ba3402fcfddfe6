use cw_attack_rs::attack::{
    adversarial_file_name, adversarial_png, attack_succeeded, competing_classes,
    save_directory, search_step_count, SaveError,
};
use cw_attack_rs::checkpoint::{checkpoint_format, CheckpointFormat};
use cw_attack_rs::cli::{Backend, Cli, CliError, Dataset};
use cw_attack_rs::run::{
    dataset_name, detect_model_type_from_checkpoint, model_type_for, num_classes, plan_run,
    report_file_name, results_file_name, samples_to_attack, select_target_label, RunPlan,
};
use cw_attack_rs::text::{bytes_contain, bytes_eq_ignore_ascii_case, bytes_equal, bytes_le};

fn cli(dataset: Option<Dataset>, image: Option<&str>, target: Option<usize>) -> Cli {
    Cli {
        dataset,
        backend: Some(Backend::NdArray),
        model_path: "ckpt/undistilled_mnist.pth".to_string(),
        image: image.map(|s| s.to_string()),
        target_class: target,
        num_samples: 1000,
        output: "./results".to_string(),
        max_iterations: 1000,
        binary_search_steps: 9,
        targeted: true,
        data_dir: "./data".to_string(),
        save_adv: None,
        timeout: 300,
    }
}

#[test]
fn validate_orders_its_checks() {
    assert_eq!(cli(None, None, None).validate(true), Err(CliError::MissingInput));
    assert_eq!(cli(None, None, None).validate(false), Err(CliError::MissingInput));
    assert_eq!(cli(None, Some("a.png"), Some(3)).validate(true), Err(CliError::ImageWithoutDataset));
    assert_eq!(
        cli(Some(Dataset::Mnist), Some("a.png"), None).validate(false),
        Err(CliError::ImageWithoutTarget)
    );
    assert_eq!(cli(Some(Dataset::Mnist), None, None).validate(false), Err(CliError::ModelNotFound));
    assert_eq!(cli(Some(Dataset::Mnist), None, None).validate(true), Ok(()));
    assert_eq!(cli(Some(Dataset::Cifar10), Some("a.png"), Some(1)).validate(true), Ok(()));
}

#[test]
fn run_plans() {
    let c = cli(Some(Dataset::Mnist), None, None);
    assert_eq!(
        plan_run(&c, Some(Dataset::Cifar10)),
        Ok(RunPlan::AttackDataset { dataset: Dataset::Mnist, model_type: Dataset::Cifar10 })
    );
    let c = cli(Some(Dataset::ImageNet), Some("x.jpg"), Some(7));
    assert_eq!(
        plan_run(&c, None),
        Ok(RunPlan::AttackImage { dataset: Dataset::ImageNet, model_type: Dataset::ImageNet })
    );
    assert_eq!(plan_run(&cli(None, None, None), None), Err(CliError::MissingInput));
    assert_eq!(model_type_for(Dataset::Cifar10, None), Dataset::Cifar10);
    assert_eq!(model_type_for(Dataset::Cifar10, Some(Dataset::Mnist)), Dataset::Mnist);
}

#[test]
fn model_type_detection() {
    assert_eq!(detect_model_type_from_checkpoint("ckpt/undistilled_MNIST.pth"), Some(Dataset::Mnist));
    assert_eq!(detect_model_type_from_checkpoint("cifar_then_mnist.pth"), Some(Dataset::Cifar10));
    assert_eq!(detect_model_type_from_checkpoint("mnist_then_cifar.pth"), Some(Dataset::Cifar10));
    assert_eq!(
        detect_model_type_from_checkpoint("m/inception_v3_google-0cc3c7bd.pth"),
        Some(Dataset::ImageNet)
    );
    assert_eq!(detect_model_type_from_checkpoint("ImageNet.pt"), Some(Dataset::ImageNet));
    assert_eq!(detect_model_type_from_checkpoint("cifar/model.pth"), None);
    assert_eq!(detect_model_type_from_checkpoint("model.pth"), None);
    assert_eq!(detect_model_type_from_checkpoint("/"), None);
}

fn keys(names: &[&str]) -> Vec<String> {
    names.iter().map(|k| k.to_string()).collect()
}

#[test]
fn checkpoint_formats() {
    let wrapped = keys(&["epoch", "model_state_dict", "optimizer_state_dict"]);
    let direct = keys(&["conv1.weight", "conv1.bias", "fc.weight"]);
    assert_eq!(checkpoint_format("w/model.safetensors", &wrapped), CheckpointFormat::Safetensors);
    assert_eq!(checkpoint_format("inception.safetensors", &direct), CheckpointFormat::Safetensors);
    assert_eq!(checkpoint_format("w/model.SAFETENSORS", &wrapped), CheckpointFormat::PytorchStateDict);
    assert_eq!(checkpoint_format("undistilled_mnist.pth", &wrapped), CheckpointFormat::PytorchStateDict);
    // the weights' layout decides, not the name
    assert_eq!(checkpoint_format("undistilled_mnist.pth", &direct), CheckpointFormat::PytorchDirect);
    assert_eq!(checkpoint_format("inception_v3_google-0cc3c7bd.pth", &direct), CheckpointFormat::PytorchDirect);
    assert_eq!(checkpoint_format("inception_v3_google.pth", &wrapped), CheckpointFormat::PytorchStateDict);
    assert_eq!(checkpoint_format("model.pt", &keys(&[])), CheckpointFormat::PytorchDirect);
    assert_eq!(checkpoint_format("model.pt", &keys(&["Model_state_dict"])), CheckpointFormat::PytorchDirect);
}

#[test]
fn target_selection() {
    assert_eq!(select_target_label(None, 3, 10), 4);
    assert_eq!(select_target_label(None, 9, 10), 0);
    assert_eq!(select_target_label(None, 999, 1000), 0);
    assert_eq!(select_target_label(Some(7), 7, 10), 7);
    assert_eq!(num_classes(Dataset::Mnist), 10);
    assert_eq!(num_classes(Dataset::Cifar10), 10);
    assert_eq!(num_classes(Dataset::ImageNet), 1000);
    for label in 0..10 {
        assert_ne!(select_target_label(None, label, 10), label);
    }
}

#[test]
fn sample_counts() {
    assert_eq!(samples_to_attack(1000, 60), 60);
    assert_eq!(samples_to_attack(5, 60), 5);
    assert_eq!(samples_to_attack(0, 60), 0);
}

#[test]
fn competing_class_lists() {
    assert_eq!(competing_classes(10, 3), vec![0, 1, 2, 4, 5, 6, 7, 8, 9]);
    assert_eq!(competing_classes(1, 0), Vec::<usize>::new());
    assert_eq!(competing_classes(3, 5), vec![0, 1, 2]);
    assert_eq!(competing_classes(2, 1), vec![0]);
}

#[test]
fn search_steps_and_success() {
    assert_eq!(search_step_count(true, 9), 1);
    assert_eq!(search_step_count(false, 9), 9);
    assert!(attack_succeeded(Some(4), 4));
    assert!(!attack_succeeded(Some(3), 4));
    assert!(!attack_succeeded(None, 4));
}

#[test]
fn adversarial_names() {
    assert_eq!(adversarial_file_name(7, 3, 4), "adv_7_true3_target4.png");
    assert_eq!(adversarial_file_name(0, 10, 1234), "adv_0_true10_target1234.png");
    assert_eq!(
        adversarial_file_name(usize::MAX, 9, 0),
        format!("adv_{}_true9_target0.png", usize::MAX)
    );
}

#[test]
fn adversarial_png_channels() {
    assert_eq!(adversarial_png(2, 4, 4, &[0; 32]), Err(SaveError::UnsupportedChannels { channels: 2 }));
    assert_eq!(adversarial_png(4, 1, 1, &[]), Err(SaveError::UnsupportedChannels { channels: 4 }));
    let png = adversarial_png(1, 2, 2, &[1, 2, 3, 4, 99]).unwrap();
    assert_eq!(&png[1..4], b"PNG");
}

#[test]
fn text_helpers() {
    assert!(bytes_contain(b"undistilled_mnist.pth", b"mnist"));
    assert!(bytes_contain(b"abc", b""));
    assert!(!bytes_contain(b"mnis", b"mnist"));
    assert!(!bytes_contain(b"", b"a"));
    assert!(bytes_eq_ignore_ascii_case(b"JpEg", b"jpeg"));
    assert!(!bytes_eq_ignore_ascii_case(b"jpg", b"jpeg"));
    assert!(bytes_equal(b"safetensors", b"safetensors"));
    assert!(!bytes_equal(b"safetensor", b"safetensors"));
    assert!(bytes_le(b"ab", b"abc"));
    assert!(bytes_le(b"abc", b"abc"));
    assert!(!bytes_le(b"abd", b"abc"));
    assert!(bytes_le(b"", b""));
    assert!(bytes_le(b"N", b"n"));
}

#[test]
fn output_file_names() {
    assert_eq!(dataset_name(Dataset::Cifar10), "cifar10");
    assert_eq!(results_file_name(Dataset::Mnist), "cw_l2_mnist_results.csv");
    assert_eq!(report_file_name(Dataset::ImageNet), "cw_l2_imagenet_report.txt");
}

#[test]
fn adversarial_examples_saved_only_on_success() {
    let dir = Some("adv".to_string());
    assert_eq!(save_directory(true, &dir, true), Some("adv".to_string()));
    assert_eq!(save_directory(false, &dir, true), None);
    assert_eq!(save_directory(true, &dir, false), None);
    assert_eq!(save_directory(true, &None, true), None);
}
