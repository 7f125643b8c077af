//! The options of a training run.

use vstd::prelude::*;

verus! {

/// The options of a training run. The library reads the integer options;
/// it carries the real-valued ones as IEEE 754 binary64 bit patterns and
/// never interprets them.
#[derive(Debug, Clone, PartialEq, Eq)]
pub struct TrainingOptions {
    /// Dictionary trainer: dmer size.
    pub d: u32,
    /// Dictionary trainer: log of the frequency array size.
    pub f: u32,
    /// Dictionary trainer: segment size.
    pub k: u32,
    /// Dictionary trainer: number of optimization steps.
    pub steps: u32,
    /// Dictionary trainer: number of threads.
    pub nb_threads: u32,
    /// Dictionary trainer: share of the samples used for training, as bits.
    pub split_point_bits: u64,
    /// Dictionary trainer: acceleration level.
    pub accel: u32,
    /// Dictionary trainer: whether to shrink the dictionary.
    pub shrink_dict: u32,
    /// Dictionary trainer: the regression accepted when shrinking.
    pub shrink_dict_max_regression: u32,
    /// The compression level of training and of prediction.
    pub train_compression_level: i32,
    /// The size of a dictionary relative to its shard, as bits.
    pub dictionary_size_percentage_bits: u64,
    /// The number of dictionaries in the ensemble.
    pub ensemble_size: usize,
    /// The number of tokens in one training sample.
    pub training_chunk_size: usize,
    /// The target size of the vocabulary.
    pub token_count: usize,
    /// The length of a token code in bytes.
    pub token_byte_size: usize,
    /// The number of tokens that prediction looks back.
    pub context_window: usize,
    /// The share of the dataset used for training, as bits.
    pub dataset_percentage_bits: u64,
    /// The additive smoothing of the prediction, as bits.
    pub regularization_bits: u64,
    /// The name under which the model is persisted.
    pub model_id: Option<String>,
    /// The file to train on.
    pub training_file: String,
    /// The file to evaluate on.
    pub test_file: String,
    /// The base of the softmax of the prediction, as bits.
    pub inference_basis_bits: u64,
}

/// The bit pattern of the real number one.
pub const ONE_BITS: u64 = 0x3FF0_0000_0000_0000;

/// The bit pattern of the default dictionary size percentage, eight
/// hundredths.
pub const DEFAULT_DICTIONARY_SIZE_PERCENTAGE_BITS: u64 = 0x3FB4_7AE1_47AE_147B;

/// The bit pattern of the default softmax base, one and fifty-five
/// hundredths.
pub const DEFAULT_INFERENCE_BASIS_BITS: u64 = 0x3FF8_CCCC_CCCC_CCCD;

/// The bit pattern of the additive smoothing that a loaded model is
/// evaluated with, fifteen hundredths.
pub const EVALUATION_REGULARIZATION_BITS: u64 = 0x3FC3_3333_3333_3333;

/// The name of a model that was given none.
pub open spec fn default_model_id() -> Seq<char> {
    "without-id"@
}

impl TrainingOptions {
    /// The name under which the model is persisted: its `model_id`, or
    /// `without-id`.
    pub fn model_name(&self) -> (name: String)
        ensures
            name@ == match self.model_id {
                Some(id) => id@,
                None => default_model_id(),
            },
    {
        match &self.model_id {
            Some(id) => id.clone(),
            None => "without-id".to_owned(),
        }
    }
}

impl Default for TrainingOptions {
    fn default() -> (options: Self)
        ensures
            options.d == 8,
            options.f == 16,
            options.k == 6078,
            options.steps == 0,
            options.nb_threads == 12,
            options.split_point_bits == ONE_BITS,
            options.accel == 1,
            options.shrink_dict == 1,
            options.shrink_dict_max_regression == 3,
            options.train_compression_level == 21,
            options.dictionary_size_percentage_bits == DEFAULT_DICTIONARY_SIZE_PERCENTAGE_BITS,
            options.ensemble_size == 15,
            options.training_chunk_size == 256,
            options.token_count == 210,
            options.token_byte_size == 5,
            options.context_window == 32,
            options.dataset_percentage_bits == ONE_BITS,
            options.regularization_bits == 0,
            options.model_id matches Some(id) && id@ == "enwik9_token_size_6"@,
            options.training_file@ == "data/enwik9"@,
            options.test_file@ == "test.txt"@,
            options.inference_basis_bits == DEFAULT_INFERENCE_BASIS_BITS,
    {
        TrainingOptions {
            d: 8,
            f: 16,
            k: 6078,
            steps: 0,
            nb_threads: 12,
            split_point_bits: ONE_BITS,
            accel: 1,
            shrink_dict: 1,
            shrink_dict_max_regression: 3,
            train_compression_level: 21,
            dictionary_size_percentage_bits: DEFAULT_DICTIONARY_SIZE_PERCENTAGE_BITS,
            ensemble_size: 15,
            training_chunk_size: 256,
            token_count: 210,
            token_byte_size: 5,
            context_window: 32,
            dataset_percentage_bits: ONE_BITS,
            regularization_bits: 0,
            model_id: Some("enwik9_token_size_6".to_owned()),
            training_file: "data/enwik9".to_owned(),
            test_file: "test.txt".to_owned(),
            inference_basis_bits: DEFAULT_INFERENCE_BASIS_BITS,
        }
    }
}

} // verus!
