//! Deciding what a run does: the model type a checkpoint's name suggests,
//! the mode of the run, how many samples to attack and which class to aim at.
use vstd::prelude::*;
use vstd::string::*;
use vstd::utf8::*;

use crate::cli::{validation, Cli, CliError, Dataset};
use crate::paths::{file_name, file_name_of, lowercase, lowercase_of};
use crate::data::imagenet::label_from_stem_spec;
use crate::text::{bytes_contain, occurs_in};

verus! {

/// The bytes of "cifar".
pub open spec fn cifar_word() -> Seq<u8> {
    seq![99u8, 105, 102, 97, 114]
}

/// The bytes of "mnist".
pub open spec fn mnist_word() -> Seq<u8> {
    seq![109u8, 110, 105, 115, 116]
}

/// The bytes of "inception".
pub open spec fn inception_word() -> Seq<u8> {
    seq![105u8, 110, 99, 101, 112, 116, 105, 111, 110]
}

/// The bytes of "imagenet".
pub open spec fn imagenet_word() -> Seq<u8> {
    seq![105u8, 109, 97, 103, 101, 110, 101, 116]
}

/// The lower-cased file name of `path` (empty when it has none), as bytes.
pub open spec fn lowercase_file_name(path: Seq<char>) -> Seq<u8> {
    let name = match file_name_of(path) {
        Some(n) => n,
        None => Seq::<char>::empty(),
    };
    encode_utf8(lowercase_of(name))
}

/// The model type that words in a lower-cased file name point to, the first
/// match winning: "cifar", then "mnist", then "inception" or "imagenet".
pub open spec fn model_type_of_name(name: Seq<u8>) -> Option<Dataset> {
    if occurs_in(name, cifar_word()) {
        Some(Dataset::Cifar10)
    } else if occurs_in(name, mnist_word()) {
        Some(Dataset::Mnist)
    } else if occurs_in(name, inception_word()) || occurs_in(name, imagenet_word()) {
        Some(Dataset::ImageNet)
    } else {
        None
    }
}

/// The words of a lower-cased checkpoint name decide the model type in this
/// order: "cifar" gives CIFAR-10, else "mnist" gives MNIST, else "inception"
/// or "imagenet" gives ImageNet; a name with none of them gives none.
pub proof fn lemma_model_type_words(name: Seq<u8>)
    ensures
        occurs_in(name, seq![99u8, 105, 102, 97, 114]) ==> model_type_of_name(name) == Some(
            Dataset::Cifar10,
        ),
        !occurs_in(name, seq![99u8, 105, 102, 97, 114]) && occurs_in(name, seq![109u8, 110, 105, 115, 116])
            ==> model_type_of_name(name) == Some(Dataset::Mnist),
        !occurs_in(name, seq![99u8, 105, 102, 97, 114]) && !occurs_in(name, seq![109u8, 110, 105, 115, 116])
            && (occurs_in(name, seq![105u8, 110, 99, 101, 112, 116, 105, 111, 110]) || occurs_in(
            name,
            seq![105u8, 109, 97, 103, 101, 110, 101, 116],
        )) ==> model_type_of_name(name) == Some(Dataset::ImageNet),
        !occurs_in(name, seq![99u8, 105, 102, 97, 114]) && !occurs_in(name, seq![109u8, 110, 105, 115, 116])
            && !occurs_in(name, seq![105u8, 110, 99, 101, 112, 116, 105, 111, 110]) && !occurs_in(
            name,
            seq![105u8, 109, 97, 103, 101, 110, 101, 116],
        ) ==> model_type_of_name(name) is None,
{
    assert(cifar_word() =~= seq![99u8, 105, 102, 97, 114]);
    assert(mnist_word() =~= seq![109u8, 110, 105, 115, 116]);
    assert(inception_word() =~= seq![105u8, 110, 99, 101, 112, 116, 105, 111, 110]);
    assert(imagenet_word() =~= seq![105u8, 109, 97, 103, 101, 110, 101, 116]);
}

/// The lower-cased file name of `path`, as bytes.
pub fn lowercase_file_name_bytes(path: &str) -> (r: Vec<u8>)
    ensures
        r@ == lowercase_file_name(path@),
{
    let name = match file_name(path) {
        Some(n) => n,
        None => String::new(),
    };
    let lower = lowercase(name.as_str());
    vstd::slice::slice_to_vec(lower.as_str().as_bytes())
}

/// The model type that the words in a lower-cased file name point to.
pub fn model_type_of_lowercase_name(name: &[u8]) -> (r: Option<Dataset>)
    ensures
        r == model_type_of_name(name@),
{
    let cifar: Vec<u8> = vec![99u8, 105, 102, 97, 114];
    let mnist: Vec<u8> = vec![109u8, 110, 105, 115, 116];
    let inception: Vec<u8> = vec![105u8, 110, 99, 101, 112, 116, 105, 111, 110];
    let imagenet: Vec<u8> = vec![105u8, 109, 97, 103, 101, 110, 101, 116];
    assert(cifar@ =~= cifar_word());
    assert(mnist@ =~= mnist_word());
    assert(inception@ =~= inception_word());
    assert(imagenet@ =~= imagenet_word());
    if bytes_contain(name, cifar.as_slice()) {
        Some(Dataset::Cifar10)
    } else if bytes_contain(name, mnist.as_slice()) {
        Some(Dataset::Mnist)
    } else if bytes_contain(name, inception.as_slice()) || bytes_contain(
        name,
        imagenet.as_slice(),
    ) {
        Some(Dataset::ImageNet)
    } else {
        None
    }
}

/// Detects the model type from the checkpoint's file name, by the words it
/// holds in any case.
pub fn detect_model_type_from_checkpoint(checkpoint_path: &str) -> (r: Option<Dataset>)
    ensures
        r == model_type_of_name(lowercase_file_name(checkpoint_path@)),
{
    let name = lowercase_file_name_bytes(checkpoint_path);
    model_type_of_lowercase_name(name.as_slice())
}

/// The model type to use: the detected one if any, else the dataset's.
pub open spec fn chosen_model_type(dataset: Dataset, detected: Option<Dataset>) -> Dataset {
    match detected {
        Some(d) => d,
        None => dataset,
    }
}

/// The model type to use for `dataset` given what the checkpoint's name suggests.
pub fn model_type_for(dataset: Dataset, detected: Option<Dataset>) -> (r: Dataset)
    ensures
        r == chosen_model_type(dataset, detected),
{
    match detected {
        Some(d) => d,
        None => dataset,
    }
}

/// What a run does.
#[derive(Debug, Clone, Copy, PartialEq, Eq, Structural)]
pub enum RunPlan {
    /// Attack the first samples of `dataset` with a model of `model_type`.
    AttackDataset { dataset: Dataset, model_type: Dataset },
    /// Attack the single given image, read as an image of `dataset`, with a
    /// model of `model_type`.
    AttackImage { dataset: Dataset, model_type: Dataset },
}

/// The plan of a run with the given dataset and image choice.
pub open spec fn run_plan(dataset: Option<Dataset>, image_given: bool, detected: Option<Dataset>) -> Result<
    RunPlan,
    CliError,
> {
    match dataset {
        Some(d) => if image_given {
            Ok(RunPlan::AttackImage { dataset: d, model_type: chosen_model_type(d, detected) })
        } else {
            Ok(RunPlan::AttackDataset { dataset: d, model_type: chosen_model_type(d, detected) })
        },
        None => Err(CliError::MissingInput),
    }
}

/// Chooses what to run. An image without a dataset is left out by
/// `requires`: it cannot be run, and `validate` refuses it beforehand.
pub fn plan_run(cli: &Cli, detected: Option<Dataset>) -> (r: Result<RunPlan, CliError>)
    requires
        !(cli.dataset is None && cli.image is Some),
    ensures
        r == run_plan(cli.dataset, cli.image is Some, detected),
{
    match cli.dataset {
        Some(d) => {
            let model_type = model_type_for(d, detected);
            if cli.image.is_some() {
                Ok(RunPlan::AttackImage { dataset: d, model_type })
            } else {
                Ok(RunPlan::AttackDataset { dataset: d, model_type })
            }
        },
        None => Err(CliError::MissingInput),
    }
}

/// The model type used is the one the checkpoint's name points to when it
/// points to one, and otherwise the dataset's own.
pub proof fn lemma_chosen_model_type(dataset: Dataset, detected: Option<Dataset>)
    ensures
        detected matches Some(m) ==> chosen_model_type(dataset, detected) == m,
        detected is None ==> chosen_model_type(dataset, detected) == dataset,
{
}

/// A run with a dataset is always planned: it attacks the given image when
/// one is given and the dataset's samples otherwise, on that dataset, with
/// the detected model type or else the dataset's own. A run without a
/// dataset (and so without an image) lacks its input.
pub proof fn lemma_plan_follows_choices(
    dataset: Option<Dataset>,
    image_given: bool,
    detected: Option<Dataset>,
)
    ensures
        dataset is None ==> run_plan(dataset, image_given, detected) == Err::<RunPlan, CliError>(
            CliError::MissingInput,
        ),
        dataset matches Some(d) ==> match run_plan(dataset, image_given, detected) {
            Ok(RunPlan::AttackDataset { dataset: pd, model_type }) => !image_given && pd == d
                && model_type == (match detected {
                Some(m) => m,
                None => d,
            }),
            Ok(RunPlan::AttackImage { dataset: pd, model_type }) => image_given && pd == d
                && model_type == (match detected {
                Some(m) => m,
                None => d,
            }),
            Err(_) => false,
        },
{
}

/// A command line that passes validation can be planned, and the plan
/// attacks the dataset it names.
pub proof fn lemma_validated_cli_is_planned(
    dataset: Option<Dataset>,
    image_given: bool,
    target_given: bool,
    model_exists: bool,
    detected: Option<Dataset>,
)
    requires
        validation(dataset, image_given, target_given, model_exists) is Ok,
    ensures
        !(dataset is None && image_given),
        run_plan(dataset, image_given, detected) is Ok,
        image_given ==> target_given,
{
}

/// Number of classes of a model type: 10 for MNIST and CIFAR-10, 1000 for ImageNet.
pub open spec fn class_count(model_type: Dataset) -> usize {
    match model_type {
        Dataset::ImageNet => 1000,
        _ => 10,
    }
}

/// Every label read from an ImageNet file name is a class of the ImageNet
/// model, and every default target is a class of the model it is chosen for.
pub proof fn lemma_labels_are_classes(stem: Seq<u8>, model_type: Dataset, true_label: int)
    ensures
        label_from_stem_spec(stem) < class_count(Dataset::ImageNet),
        class_count(model_type) >= 2,
        0 <= true_label ==> (true_label + 1) % (class_count(model_type) as int) < class_count(
            model_type,
        ),
{
}

/// Number of classes of a model type.
pub fn num_classes(model_type: Dataset) -> (r: usize)
    ensures
        r == class_count(model_type),
{
    match model_type {
        Dataset::ImageNet => 1000,
        _ => 10,
    }
}

/// Number of samples to attack: the first `requested`, or all when fewer exist.
pub fn samples_to_attack(requested: usize, available: usize) -> (r: usize)
    ensures
        r == if requested < available {
            requested
        } else {
            available
        },
{
    if requested < available {
        requested
    } else {
        available
    }
}

/// Every sample index that a run attacks names an existing sample.
pub proof fn lemma_attacked_indices_exist(requested: usize, available: usize, idx: int)
    requires
        0 <= idx < (if requested < available {
            requested
        } else {
            available
        }),
    ensures
        idx < available,
        idx < requested,
{
}

/// The class an attack aims at: the one given on the command line, or else
/// the class after the true one, wrapping around.
pub fn select_target_label(target_class: Option<usize>, true_label: usize, num_classes: usize) -> (r:
    usize)
    requires
        num_classes > 0,
        true_label < usize::MAX,
    ensures
        match target_class {
            Some(c) => r == c,
            None => r == (true_label + 1) % (num_classes as int),
        },
{
    match target_class {
        Some(c) => c,
        None => (true_label + 1) % num_classes,
    }
}

/// The class chosen by default is a valid class and differs from the true
/// one, whenever the true label is a class and there are at least two.
pub proof fn lemma_default_target_differs(true_label: int, num_classes: int)
    requires
        num_classes >= 2,
        0 <= true_label < num_classes,
    ensures
        (true_label + 1) % num_classes != true_label,
        (true_label + 1) % num_classes < num_classes,
{
    if true_label + 1 < num_classes {
        assert((true_label + 1) % num_classes == true_label + 1) by {
            vstd::arithmetic::div_mod::lemma_small_mod((true_label + 1) as nat, num_classes as nat);
        }
    } else {
        assert((true_label + 1) % num_classes == 0) by {
            vstd::arithmetic::div_mod::lemma_mod_self_0(num_classes);
        }
    }
}

/// The name under which results of a model type are filed.
pub open spec fn dataset_label(model_type: Dataset) -> Seq<char> {
    match model_type {
        Dataset::Mnist => "mnist"@,
        Dataset::Cifar10 => "cifar10"@,
        Dataset::ImageNet => "imagenet"@,
    }
}

fn push_dataset_label(s: &mut String, model_type: Dataset)
    ensures
        final(s)@ == old(s)@ + dataset_label(model_type),
{
    match model_type {
        Dataset::Mnist => s.append("mnist"),
        Dataset::Cifar10 => s.append("cifar10"),
        Dataset::ImageNet => s.append("imagenet"),
    }
}

/// The name of the dataset results are filed under: `mnist`, `cifar10` or `imagenet`.
pub fn dataset_name(model_type: Dataset) -> (r: String)
    ensures
        r@ == dataset_label(model_type),
{
    let mut s = String::new();
    push_dataset_label(&mut s, model_type);
    s
}

/// The file of per-sample results: `cw_l2_<dataset>_results.csv`.
pub fn results_file_name(model_type: Dataset) -> (r: String)
    ensures
        r@ == "cw_l2_"@ + dataset_label(model_type) + "_results.csv"@,
{
    let mut s = String::from_str("cw_l2_");
    push_dataset_label(&mut s, model_type);
    s.append("_results.csv");
    s
}

/// The file of the summary report: `cw_l2_<dataset>_report.txt`.
pub fn report_file_name(model_type: Dataset) -> (r: String)
    ensures
        r@ == "cw_l2_"@ + dataset_label(model_type) + "_report.txt"@,
{
    let mut s = String::from_str("cw_l2_");
    push_dataset_label(&mut s, model_type);
    s.append("_report.txt");
    s
}

} // verus!
