//! The command line's choices and their validation.
use vstd::prelude::*;

verus! {

/// Tensor backend the attack runs on.
#[derive(Debug, Clone, Copy, PartialEq, Eq, Structural)]
pub enum Backend {
    NdArray,
    Wgpu,
}

/// Dataset, and so model family, an attack is about.
#[derive(Debug, Clone, Copy, PartialEq, Eq, Structural)]
pub enum Dataset {
    Mnist,
    Cifar10,
    ImageNet,
}

/// The settings of a run that are not real numbers: which inputs to attack,
/// where the model and the data are, and how many samples and steps.
/// (The attack's real-valued parameters are kept by the program beside it.)
pub struct Cli {
    pub dataset: Option<Dataset>,
    pub backend: Option<Backend>,
    pub model_path: String,
    pub image: Option<String>,
    pub target_class: Option<usize>,
    pub num_samples: usize,
    pub output: String,
    pub max_iterations: usize,
    pub binary_search_steps: usize,
    pub targeted: bool,
    pub data_dir: String,
    pub save_adv: Option<String>,
    pub timeout: u64,
}

/// Why a command line is refused.
#[derive(Debug, Clone, Copy, PartialEq, Eq, Structural)]
pub enum CliError {
    /// Neither a dataset nor an image was given.
    MissingInput,
    /// An image was given without the dataset that tells its model type.
    ImageWithoutDataset,
    /// An image was given without a target class.
    ImageWithoutTarget,
    /// The model checkpoint does not exist.
    ModelNotFound,
}

/// The verdict on a command line, the checks taken in order.
pub open spec fn validation(
    dataset: Option<Dataset>,
    image_given: bool,
    target_given: bool,
    model_exists: bool,
) -> Result<(), CliError> {
    if dataset is None && !image_given {
        Err(CliError::MissingInput)
    } else if image_given && dataset is None {
        Err(CliError::ImageWithoutDataset)
    } else if image_given && !target_given {
        Err(CliError::ImageWithoutTarget)
    } else if !model_exists {
        Err(CliError::ModelNotFound)
    } else {
        Ok(())
    }
}

/// A command line is accepted exactly when it names a dataset, gives a
/// target class whenever it gives an image, and its model file exists; a
/// target class without an image is accepted too. Each refusal names the
/// first of these that fails.
pub proof fn lemma_validation_law(
    dataset: Option<Dataset>,
    image_given: bool,
    target_given: bool,
    model_exists: bool,
)
    ensures
        validation(dataset, image_given, target_given, model_exists) is Ok <==> dataset is Some && (
        image_given ==> target_given) && model_exists,
        validation(dataset, image_given, target_given, model_exists) == Err::<(), CliError>(
            CliError::MissingInput,
        ) <==> dataset is None && !image_given,
        validation(dataset, image_given, target_given, model_exists) == Err::<(), CliError>(
            CliError::ImageWithoutDataset,
        ) <==> dataset is None && image_given,
        validation(dataset, image_given, target_given, model_exists) == Err::<(), CliError>(
            CliError::ImageWithoutTarget,
        ) <==> dataset is Some && image_given && !target_given,
        validation(dataset, image_given, target_given, model_exists) == Err::<(), CliError>(
            CliError::ModelNotFound,
        ) <==> dataset is Some && (image_given ==> target_given) && !model_exists,
        !image_given ==> validation(dataset, false, true, model_exists) == validation(
            dataset,
            false,
            false,
            model_exists,
        ),
{
}

impl Cli {
    /// Checks the arguments: a dataset or an image must be given, an image
    /// needs both a dataset and a target class, and the model file must exist
    /// (`model_exists` tells whether `model_path` names an existing file).
    pub fn validate(&self, model_exists: bool) -> (r: Result<(), CliError>)
        ensures
            r == validation(
                self.dataset,
                self.image is Some,
                self.target_class is Some,
                model_exists,
            ),
    {
        if self.dataset.is_none() && self.image.is_none() {
            return Err(CliError::MissingInput);
        }
        if self.image.is_some() && self.dataset.is_none() {
            return Err(CliError::ImageWithoutDataset);
        }
        if self.image.is_some() && self.target_class.is_none() {
            return Err(CliError::ImageWithoutTarget);
        }
        if !model_exists {
            return Err(CliError::ModelNotFound);
        }
        Ok(())
    }
}

} // verus!
