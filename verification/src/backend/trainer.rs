//! What surrounds dictionary training: laying the sentences out for the
//! trainer, and making a model of what the trainer wrote.

use vstd::prelude::*;
use super::clm_model::{loads, ClmModel};
use super::sequences::{append_copy, copy_range, sentences};
use super::tokenizer::ClmTokenizer;
use super::training_options::TrainingOptions;
use super::{tokens_as_bytes, tokens_to_bytes, ClmError, Token};

verus! {

/// The sum of the sizes.
pub open spec fn sum_of(sizes: Seq<usize>) -> nat
    decreases sizes.len(),
{
    if sizes.len() == 0 {
        0
    } else {
        sum_of(sizes.drop_last()) + sizes.last() as nat
    }
}

/// The wire form of the tokens that follow one another.
pub proof fn lemma_wire_form_concat(a: Seq<Token>, b: Seq<Token>)
    ensures
        tokens_as_bytes(a + b) == tokens_as_bytes(a) + tokens_as_bytes(b),
{
    let left = tokens_as_bytes(a + b);
    let right = tokens_as_bytes(a) + tokens_as_bytes(b);
    assert(left.len() == right.len());
    assert forall|j: int| 0 <= j < left.len() implies left[j] == right[j] by {
        if j < 8 * a.len() {
            assert(j / 8 < a.len());
        } else {
            let k = j - 8 * a.len();
            assert(j / 8 == a.len() + k / 8);
            assert(j % 8 == k % 8);
            assert((a + b)[j / 8] == b[k / 8]);
        }
    }
    assert(left =~= right);
}

/// What the dictionary trainer is handed: the samples laid end to end, the
/// size of each sample in bytes, and room for the dictionary.
pub struct TrainingInput {
    /// The wire form of all sentences, one after the other.
    pub raw_data: Vec<u8>,
    /// The number of bytes that each sentence takes in `raw_data`.
    pub sizes: Vec<usize>,
    /// The largest dictionary that may be written, in bytes.
    pub capacity: usize,
}

impl TrainingInput {
    /// Whether this is what the trainer is handed for `data` under `options`.
    pub open spec fn lays_out(&self, data: Seq<Seq<Token>>, options: TrainingOptions) -> bool {
        &&& self.raw_data@ == tokens_as_bytes(data.flatten())
        &&& self.sizes@.len() == data.len()
        &&& forall|i: int| 0 <= i < data.len() ==> #[trigger] self.sizes@[i] == 8 * data[i].len()
        &&& sum_of(self.sizes@) == self.raw_data@.len()
        &&& self.capacity == options.dictionary_size_percentage.floor_of(self.raw_data@.len())
    }
}

/// Lays the sentences out for the trainer. No sentences give `None`: there is
/// nothing to train on, and the model stays untrained.
pub fn prepare_training(input_tokens: &Vec<Vec<Token>>, training_options: &TrainingOptions) -> (input:
    Result<Option<TrainingInput>, ClmError>)
    ensures
        match input {
            Ok(Some(laid_out)) => training_options.valid() && input_tokens.len() > 0
                && laid_out.lays_out(sentences(input_tokens@), *training_options),
            Ok(None) => training_options.valid() && input_tokens.len() == 0,
            Err(e) => !training_options.valid() && e == ClmError::InvalidOptions,
        },
{
    match training_options.validate() {
        Ok(_) => {},
        Err(e) => {
            return Err(e);
        },
    }
    if input_tokens.len() == 0 {
        return Ok(None);
    }
    let ghost data = sentences(input_tokens@);
    let mut raw_data: Vec<u8> = Vec::new();
    let mut sizes: Vec<usize> = Vec::new();
    let mut i: usize = 0;
    proof {
        assert(data.take(0).flatten() =~= Seq::<Token>::empty());
        assert(raw_data@ =~= tokens_as_bytes(data.take(0).flatten()));
    }
    while i < input_tokens.len()
        invariant
            i <= input_tokens.len(),
            data == sentences(input_tokens@),
            raw_data@ == tokens_as_bytes(data.take(i as int).flatten()),
            sizes.len() == i,
            forall|k: int| 0 <= k < i ==> #[trigger] sizes@[k] == 8 * data[k].len(),
            sum_of(sizes@) == raw_data@.len(),
        decreases input_tokens.len() - i,
    {
        let bytes = tokens_to_bytes(&input_tokens[i]);
        let ghost before = sizes@;
        proof {
            let sentence = input_tokens@[i as int]@;
            assert(data.take(i + 1) =~= data.take(i as int).push(sentence));
            data.take(i as int).lemma_flatten_push(sentence);
            lemma_wire_form_concat(data.take(i as int).flatten(), sentence);
        }
        append_copy(&mut raw_data, &bytes);
        sizes.push(bytes.len());
        proof {
            assert(sizes@.drop_last() =~= before);
        }
        i += 1;
    }
    proof {
        assert(data.take(input_tokens.len() as int) =~= data);
    }
    let capacity: usize = training_options.dictionary_size_percentage.floor(raw_data.len());
    Ok(Some(TrainingInput { raw_data, sizes, capacity }))
}

/// Makes a model of what the trainer left in `buffer`: the first `written`
/// bytes. `None` stands for the trainer's error.
pub fn finish_training(buffer: &Vec<u8>, written: Option<usize>) -> (model: Result<
    ClmModel,
    ClmError,
>)
    ensures
        match written {
            Some(n) => if n <= buffer.len() {
                match model {
                    Ok(m) => loads(buffer@.take(n as int)) && m.dictionary() == buffer@.take(
                        n as int,
                    ) && m.tokenizer() == ClmTokenizer::GPT2,
                    Err(e) => !loads(buffer@.take(n as int)) && e == ClmError::CorruptModel,
                }
            } else {
                model matches Err(e) && e == ClmError::TrainingFailed
            },
            None => model matches Err(e) && e == ClmError::TrainingFailed,
        },
{
    match written {
        None => Err(ClmError::TrainingFailed),
        Some(n) => {
            if n > buffer.len() {
                Err(ClmError::TrainingFailed)
            } else {
                let dictionary = copy_range(buffer, 0, n);
                proof {
                    assert(dictionary@ =~= buffer@.take(n as int));
                }
                ClmModel::from_buffer(dictionary)
            }
        },
    }
}

} // verus!
