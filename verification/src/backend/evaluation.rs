//! Measurements for the two metrics, bytes per token and information gain:
//! the compressed sizes at randomly drawn places of held-out sentences.

use vstd::prelude::*;
use super::clm_model::ClmModel;
use super::dataset::Dataset;
use super::random::{fresh_generator, random_in_range};
use super::sequences::{copy_range, sentences};
use super::{ClmError, Token};

verus! {

/// The number of places that a metric is measured at unless told otherwise.
pub const SAMPLES: usize = 20000;

/// The shortest sentence that a place is drawn from.
pub const SHORTEST_SENTENCE: usize = 7;

/// The first place in a sentence that may be drawn: the shortest prompt.
pub const SHORTEST_PROMPT: usize = 5;

/// The compressed sizes at one place of one sentence: of the prompt, which is
/// the sentence up to that place; of the prompt with the token that follows
/// it in the sentence; and of the prompt with another token in its stead.
/// Where no other token was asked for, `other_size` repeats `truth_size`.
#[derive(Debug, Clone, Copy)]
pub struct Sample {
    pub prompt_size: usize,
    pub truth_size: usize,
    pub other_size: usize,
}

/// Whether a place can be drawn in the sentence at all.
pub open spec fn long_enough(sentence: Seq<Token>) -> bool {
    sentence.len() >= SHORTEST_SENTENCE
}

/// Whether `count` is a number of samples that `rounds` draws from `data` can
/// give: one for each draw where every sentence is long enough, none where no
/// sentence is, and no more than one for each draw in between.
pub open spec fn is_sample_count(data: Seq<Seq<Token>>, rounds: nat, count: nat) -> bool {
    &&& count <= rounds
    &&& (forall|i: int| 0 <= i < data.len() ==> long_enough(#[trigger] data[i])) ==> count
        == rounds
    &&& (forall|i: int| 0 <= i < data.len() ==> !long_enough(#[trigger] data[i])) ==> count == 0
}

impl ClmModel {
    /// Whether `sample` holds the sizes at place `pos` of `sentence`, with
    /// `other` as the token that stands in for the true one.
    pub open spec fn measures(
        &self,
        sentence: Seq<Token>,
        pos: int,
        other: Token,
        sample: Sample,
    ) -> bool {
        let prompt = sentence.take(pos);
        &&& self.frame(prompt) is Some
        &&& self.frame(prompt.push(sentence[pos])) is Some
        &&& self.frame(prompt.push(other)) is Some
        &&& sample.prompt_size == self.size(prompt)
        &&& sample.truth_size == self.size(prompt.push(sentence[pos]))
        &&& sample.other_size == self.size(prompt.push(other))
    }

    /// Whether the coder compresses what is measured at place `pos` of
    /// `sentence`: the prompt, the prompt with the true token, and the prompt
    /// with `other`.
    pub open spec fn measures_at(&self, sentence: Seq<Token>, pos: int, other: Token) -> bool {
        let prompt = sentence.take(pos);
        &&& self.frame(prompt) is Some
        &&& self.frame(prompt.push(sentence[pos])) is Some
        &&& self.frame(prompt.push(other)) is Some
    }

    /// Whether there is a place in `data` that a sample may be drawn at and
    /// that the coder does not compress.
    pub open spec fn refuses_somewhere(&self, data: Seq<Seq<Token>>, against: bool) -> bool {
        exists|i: int, pos: int, other: Token|
            {
                &&& 0 <= i < data.len()
                &&& long_enough(data[i])
                &&& SHORTEST_PROMPT <= pos < data[i].len()
                &&& if against {
                    other < self.vocabulary()
                } else {
                    other == data[i][pos]
                }
                &&& !#[trigger] self.measures_at(data[i], pos, other)
            }
    }

    /// Whether `sample` was measured somewhere in `data`: at a place from the
    /// shortest prompt on, in a sentence that is long enough. With `against`
    /// set, some token of the vocabulary stands in for the true one; without
    /// it, the true token stands for itself.
    pub open spec fn sampled_from(
        &self,
        data: Seq<Seq<Token>>,
        against: bool,
        sample: Sample,
    ) -> bool {
        exists|i: int, pos: int, other: Token|
            {
                &&& 0 <= i < data.len()
                &&& long_enough(data[i])
                &&& SHORTEST_PROMPT <= pos < data[i].len()
                &&& if against {
                    other < self.vocabulary()
                } else {
                    other == data[i][pos]
                }
                &&& #[trigger] self.measures(data[i], pos, other, sample)
            }
    }

    /// Whether every sample was measured somewhere in `data`.
    pub open spec fn all_sampled_from(
        &self,
        data: Seq<Seq<Token>>,
        against: bool,
        samples: Seq<Sample>,
    ) -> bool {
        forall|k: int|
            0 <= k < samples.len() ==> self.sampled_from(data, against, #[trigger] samples[k])
    }

    /// The sizes at place `pos` of `sentence`, with `other` as the token that
    /// stands in for the true one. Where `other` is the true token, its size
    /// is not measured a second time.
    pub fn measure(&self, sentence: &Vec<Token>, pos: usize, other: Token) -> (sample: Result<
        Sample,
        ClmError,
    >)
        requires
            pos < sentence.len(),
        ensures
            match sample {
                Ok(s) => self.measures_at(sentence@, pos as int, other) && self.measures(
                    sentence@,
                    pos as int,
                    other,
                    s,
                ),
                Err(e) => !self.measures_at(sentence@, pos as int, other) && e
                    == ClmError::CorruptModel,
            },
    {
        let mut prompt = copy_range(sentence, 0, pos);
        proof {
            assert(prompt@ =~= sentence@.take(pos as int));
        }
        let ghost cut = prompt@;
        let prompt_size: usize = match self.compress(&prompt) {
            Ok(bytes) => bytes.len(),
            Err(e) => {
                return Err(e);
            },
        };
        let mut next: Vec<Token> = Vec::new();
        next.push(sentence[pos]);
        proof {
            assert(cut + next@ =~= cut.push(sentence@[pos as int]));
        }
        let truth_size: usize = match self.compress_together(&prompt, &next) {
            Ok(size) => size,
            Err(e) => {
                return Err(e);
            },
        };
        if other == sentence[pos] {
            return Ok(Sample { prompt_size, truth_size, other_size: truth_size });
        }
        let mut instead: Vec<Token> = Vec::new();
        instead.push(other);
        proof {
            assert(cut + instead@ =~= cut.push(other));
        }
        let other_size: usize = match self.compress_together(&prompt, &instead) {
            Ok(size) => size,
            Err(e) => {
                return Err(e);
            },
        };
        Ok(Sample { prompt_size, truth_size, other_size })
    }

    /// Draws `samples` sentences of `data` at random, with replacement;
    /// measures each that is long enough at a random place; and skips the
    /// others. With `against` set, a random token of the vocabulary stands in
    /// for the true one.
    fn draw_samples(
        &self,
        data: &Vec<Vec<Token>>,
        samples: usize,
        against: bool,
        rng: &mut rand::rngs::StdRng,
    ) -> (measured: Result<Vec<Sample>, ClmError>)
        ensures
            match measured {
                Ok(list) => {
                    &&& data.len() > 0
                    &&& is_sample_count(sentences(data@), samples as nat, list.len() as nat)
                    &&& self.all_sampled_from(sentences(data@), against, list@)
                },
                Err(e) => if data.len() == 0 {
                    e == ClmError::EmptyInput
                } else {
                    e == ClmError::CorruptModel && self.refuses_somewhere(
                        sentences(data@),
                        against,
                    )
                },
            },
    {
        if data.len() == 0 {
            return Err(ClmError::EmptyInput);
        }
        let vocabulary: usize = self.get_tokenizer().get_max_token() + 1;
        let mut list: Vec<Sample> = Vec::new();
        let mut round: usize = 0;
        while round < samples
            invariant
                round <= samples,
                data.len() > 0,
                vocabulary == self.vocabulary(),
                is_sample_count(sentences(data@), round as nat, list.len() as nat),
                self.all_sampled_from(sentences(data@), against, list@),
            decreases samples - round,
        {
            let sentence_index: usize = random_in_range(rng, 0, data.len());
            let sentence = &data[sentence_index];
            proof {
                assert(sentences(data@)[sentence_index as int] == sentence@);
            }
            if sentence.len() >= SHORTEST_SENTENCE {
                let pos: usize = random_in_range(rng, SHORTEST_PROMPT, sentence.len());
                let other: Token = if against {
                    random_in_range(rng, 0, vocabulary)
                } else {
                    sentence[pos]
                };
                let sample = match self.measure(sentence, pos, other) {
                    Ok(sample) => sample,
                    Err(e) => {
                        proof {
                            let all = sentences(data@);
                            assert(!self.measures_at(all[sentence_index as int], pos as int, other));
                        }
                        return Err(e);
                    },
                };
                let ghost before = list@;
                list.push(sample);
                proof {
                    let all = sentences(data@);
                    assert(all[sentence_index as int] == sentence@);
                    assert(self.measures(all[sentence_index as int], pos as int, other, sample));
                    assert(self.sampled_from(all, against, sample));
                    assert forall|k: int| 0 <= k < list@.len() implies self.sampled_from(
                        all,
                        against,
                        #[trigger] list@[k],
                    ) by {
                        if k < before.len() {
                            assert(list@[k] == before[k]);
                        }
                    }
                }
            }
            round += 1;
        }
        Ok(list)
    }

    /// The measurements for the average bytes per token: up to `samples` of
    /// them, each from a random place of a random sentence. The metric is the
    /// mean, over the samples, of `truth_size - prompt_size`.
    pub fn average_bytes_per_token(&self, test_data: &Dataset, samples: usize) -> (measured: Result<
        Vec<Sample>,
        ClmError,
    >)
        ensures
            match measured {
                Ok(list) => {
                    &&& test_data@.len() > 0
                    &&& is_sample_count(test_data@, samples as nat, list.len() as nat)
                    &&& self.all_sampled_from(test_data@, false, list@)
                },
                Err(e) => if test_data@.len() == 0 {
                    e == ClmError::EmptyInput
                } else {
                    e == ClmError::CorruptModel && self.refuses_somewhere(test_data@, false)
                },
            },
    {
        let mut rng = fresh_generator();
        self.draw_samples(test_data.get_data(), samples, false, &mut rng)
    }

    /// The measurements for the average information gain: up to `samples` of
    /// them, each from a random place of a random sentence. The metric is the
    /// mean, over the samples, of `other_size - prompt_size` divided by
    /// `truth_size - prompt_size`, the divisor never taken below a tenth.
    pub fn average_information_gain(&self, test_data: &Dataset, samples: usize) -> (measured:
        Result<Vec<Sample>, ClmError>)
        ensures
            match measured {
                Ok(list) => {
                    &&& test_data@.len() > 0
                    &&& is_sample_count(test_data@, samples as nat, list.len() as nat)
                    &&& self.all_sampled_from(test_data@, true, list@)
                },
                Err(e) => if test_data@.len() == 0 {
                    e == ClmError::EmptyInput
                } else {
                    e == ClmError::CorruptModel && self.refuses_somewhere(test_data@, true)
                },
            },
    {
        let mut rng = fresh_generator();
        self.draw_samples(test_data.get_data(), samples, true, &mut rng)
    }
}

} // verus!
