//! The knobs of dictionary training.

use vstd::prelude::*;
use super::ratio::Ratio;
use super::ClmError;

verus! {

/// The knobs of dictionary training: the search parameters of the trainer, and
/// how large a dictionary and how many models to make.
#[derive(Debug, Clone, Copy)]
pub struct TrainingOptions {
    pub d: u32,
    pub f: u32,
    pub k: u32,
    pub steps: u32,
    pub nb_threads: u32,
    /// Share of the samples that the trainer trains on; 0 leaves it to the trainer.
    pub split_point: Ratio,
    pub accel: u32,
    pub shrink_dict: u32,
    pub shrink_dict_max_regression: u32,
    pub compression_level: u32,
    /// How large the dictionary may be, relative to the training data.
    pub dictionary_size_percentage: Ratio,
    /// The number of models to train.
    pub ensemble_size: usize,
}

impl TrainingOptions {
    /// Whether the options can be trained with: the dictionary may have some
    /// size, and there is at least one model to train.
    pub open spec fn valid(&self) -> bool {
        self.dictionary_size_percentage.numerator() > 0 && self.ensemble_size >= 1
    }

    /// Whether these are the default options.
    pub open spec fn is_default(&self) -> bool {
        &&& self.d == 8
        &&& self.f == 25
        &&& self.k == 50
        &&& self.steps == 4
        &&& self.nb_threads == 8
        &&& self.split_point.numerator() == 0
        &&& self.accel == 1
        &&& self.shrink_dict == 0
        &&& self.shrink_dict_max_regression == 0
        &&& self.compression_level == 3
        &&& self.dictionary_size_percentage.numerator() == 1
        &&& self.dictionary_size_percentage.denominator() == 1
        &&& self.ensemble_size == 1
    }

    /// The default options.
    pub fn new() -> (options: Self)
        ensures
            options.is_default(),
            options.valid(),
    {
        TrainingOptions {
            d: 8,
            f: 25,
            k: 50,
            steps: 4,
            nb_threads: 8,
            split_point: Ratio::zero(),
            accel: 1,
            shrink_dict: 0,
            shrink_dict_max_regression: 0,
            compression_level: 3,
            dictionary_size_percentage: Ratio::one(),
            ensemble_size: 1,
        }
    }

    /// The default options.
    pub fn default() -> (options: Self)
        ensures
            options.is_default(),
            options.valid(),
    {
        TrainingOptions::new()
    }

    /// Accepts the options if they can be trained with.
    pub fn validate(&self) -> (outcome: Result<(), ClmError>)
        ensures
            match outcome {
                Ok(_) => self.valid(),
                Err(e) => !self.valid() && e == ClmError::InvalidOptions,
            },
    {
        if self.dictionary_size_percentage.is_zero() || self.ensemble_size == 0 {
            Err(ClmError::InvalidOptions)
        } else {
            Ok(())
        }
    }
}

} // verus!
