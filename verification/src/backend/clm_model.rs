//! One model: a dictionary for the coder, and the tokenizer that goes with it.

use vstd::prelude::*;
use super::coder::{zstd_content, zstd_decode, zstd_encode, zstd_frame};
use super::sequences::{append_copy, copy_all, lemma_total_tokens_push, sentences, total_tokens};
use super::tokenizer::ClmTokenizer;
use super::{
    bytes_to_tokens, is_token_stream, lemma_wire_form_injective, tokens_as_bytes, tokens_to_bytes,
    ClmError, Token, INFERENCE_COMPRESSION_LEVEL,
};

verus! {

/// The score that a look-ahead of the given depth and width reports when the
/// cheapest candidate costs `least`: the look-ahead gives up, with the largest
/// number there is, as soon as the width runs out before the depth does.
pub open spec fn lookahead_size(least: nat, depth: nat, width: nat) -> nat
    decreases depth,
{
    if depth == 0 {
        least
    } else if width == 0 {
        usize::MAX as nat
    } else {
        lookahead_size(least, (depth - 1) as nat, width / 2)
    }
}

/// Whether the coder takes the dictionary when a model is made of it: an empty
/// dictionary is always taken, any other is tried on the coder with nothing
/// to compress.
pub open spec fn loads(dictionary: Seq<u8>) -> bool {
    dictionary.len() == 0 || zstd_frame(
        dictionary,
        INFERENCE_COMPRESSION_LEVEL as int,
        Seq::<u8>::empty(),
    ) is Some
}

/// A dictionary artifact with its tokenizer. The dictionary is the whole model:
/// an empty one is the untrained model.
#[derive(Debug, Clone)]
pub struct ClmModel {
    model_buffer: Vec<u8>,
    tokenizer: ClmTokenizer,
}

impl ClmModel {
    /// The dictionary bytes.
    pub closed spec fn dictionary(&self) -> Seq<u8> {
        self.model_buffer@
    }

    /// The tokenizer that goes with the dictionary.
    pub closed spec fn tokenizer(&self) -> ClmTokenizer {
        self.tokenizer
    }

    /// The frame that the coder writes for `tokens` with this model's
    /// dictionary, if it takes the dictionary.
    pub open spec fn frame(&self, tokens: Seq<Token>) -> Option<Seq<u8>> {
        zstd_frame(self.dictionary(), INFERENCE_COMPRESSION_LEVEL as int, tokens_as_bytes(tokens))
    }

    /// The compressed size of `tokens`: the length of their frame.
    pub open spec fn size(&self, tokens: Seq<Token>) -> nat {
        match self.frame(tokens) {
            Some(bytes) => bytes.len(),
            None => 0,
        }
    }

    /// Whether the coder compresses `tokens` extended by each candidate.
    pub open spec fn accepts_candidates(&self, tokens: Seq<Token>) -> bool {
        forall|t: int|
            0 <= t < self.vocabulary() ==> (#[trigger] self.frame(tokens.push(t as Token))) is Some
    }

    /// Whether the coder compresses every sentence.
    pub open spec fn accepts_all(&self, data: Seq<Seq<Token>>) -> bool {
        forall|i: int| 0 <= i < data.len() ==> (#[trigger] self.frame(data[i])) is Some
    }

    /// The number of candidate tokens: every token up to the tokenizer's largest.
    pub open spec fn vocabulary(&self) -> nat {
        self.tokenizer().max_token() + 1
    }

    /// Whether `sizes` lists every candidate in order, each with the compressed
    /// size of `tokens` extended by it.
    pub open spec fn scores(&self, tokens: Seq<Token>, sizes: Seq<(Token, usize)>) -> bool {
        &&& sizes.len() == self.vocabulary()
        &&& forall|t: int|
            0 <= t < sizes.len() ==> {
                &&& (#[trigger] sizes[t]).0 == t
                &&& self.frame(tokens.push(t as Token)) is Some
                &&& sizes[t].1 == self.size(tokens.push(t as Token))
            }
    }

    /// The least compressed size of `tokens` extended by one of the first
    /// `count` candidates.
    pub open spec fn least_size(&self, tokens: Seq<Token>, count: nat) -> nat
        decreases count,
    {
        if count <= 1 {
            self.size(tokens.push(0))
        } else {
            let rest = self.least_size(tokens, (count - 1) as nat);
            let last = self.size(tokens.push((count - 1) as Token));
            if last < rest {
                last
            } else {
                rest
            }
        }
    }

    /// Whether `(token, size)` is an answer of the look-ahead: the size is what
    /// the look-ahead reports for the cheapest candidate, and the token is one
    /// of the cheapest candidates, or 0 where the look-ahead gave up.
    pub open spec fn predicts(
        &self,
        tokens: Seq<Token>,
        depth: nat,
        width: nat,
        answer: (Token, usize),
    ) -> bool {
        let least = self.least_size(tokens, self.vocabulary());
        &&& answer.1 == lookahead_size(least, depth, width)
        &&& if depth == 0 || answer.1 < usize::MAX {
            &&& answer.0 < self.vocabulary()
            &&& self.size(tokens.push(answer.0)) == least
        } else {
            answer.0 == 0
        }
    }

    /// Compression is a function of the dictionary and the tokens: models with
    /// the same dictionary write the same frame for the same tokens, and so
    /// give them the same size.
    pub proof fn lemma_frame_depends_on_dictionary(a: ClmModel, b: ClmModel, tokens: Seq<Token>)
        requires
            a.dictionary() == b.dictionary(),
        ensures
            a.frame(tokens) == b.frame(tokens),
            a.size(tokens) == b.size(tokens),
    {
    }

    /// A model that is stored and loaded again compresses as before: where
    /// `stored` are the bytes that `to_buffer` gave for `model`, and `loaded` is
    /// the model that `from_buffer` made of them, both write the same frame for
    /// the same tokens.
    pub proof fn lemma_stored_model_compresses_alike(
        model: ClmModel,
        stored: Seq<u8>,
        loaded: ClmModel,
        tokens: Seq<Token>,
    )
        requires
            stored == model.dictionary(),
            loaded.dictionary() == stored,
        ensures
            loaded.frame(tokens) == model.frame(tokens),
    {
    }

    /// The untrained model: an empty dictionary, with the standard tokenizer.
    pub fn untrained() -> (model: Self)
        ensures
            model.dictionary() == Seq::<u8>::empty(),
            model.tokenizer() == ClmTokenizer::GPT2,
    {
        ClmModel { model_buffer: Vec::new(), tokenizer: ClmTokenizer::GPT2 }
    }

    /// A model with the standard tokenizer. An empty buffer is the untrained
    /// model and always accepted; any other is tried on the coder once.
    pub fn from_buffer(model_buffer: Vec<u8>) -> (model: Result<Self, ClmError>)
        ensures
            match model {
                Ok(m) => loads(model_buffer@) && m.dictionary() == model_buffer@ && m.tokenizer()
                    == ClmTokenizer::GPT2,
                Err(e) => !loads(model_buffer@) && e == ClmError::CorruptModel,
            },
    {
        Self::with_tokenizer(model_buffer, ClmTokenizer::GPT2)
    }

    /// A model with the given tokenizer. An empty buffer is the untrained model
    /// and always accepted; any other is tried on the coder once.
    pub fn with_tokenizer(model_buffer: Vec<u8>, tokenizer: ClmTokenizer) -> (model: Result<
        Self,
        ClmError,
    >)
        ensures
            match model {
                Ok(m) => loads(model_buffer@) && m.dictionary() == model_buffer@ && m.tokenizer()
                    == tokenizer,
                Err(e) => !loads(model_buffer@) && e == ClmError::CorruptModel,
            },
    {
        if model_buffer.len() > 0 {
            let nothing: Vec<u8> = Vec::new();
            if zstd_encode(&model_buffer, INFERENCE_COMPRESSION_LEVEL, &nothing).is_none() {
                return Err(ClmError::CorruptModel);
            }
        }
        Ok(ClmModel { model_buffer, tokenizer })
    }

    /// A copy of the model: the same dictionary, the same tokenizer.
    pub fn duplicate(&self) -> (copy: Self)
        ensures
            copy.dictionary() == self.dictionary(),
            copy.tokenizer() == self.tokenizer(),
    {
        let tokenizer = self.tokenizer;
        ClmModel { model_buffer: copy_all(&self.model_buffer), tokenizer }
    }

    /// The tokenizer that goes with the dictionary.
    pub fn get_tokenizer(&self) -> (tokenizer: &ClmTokenizer)
        ensures
            *tokenizer == self.tokenizer(),
    {
        &self.tokenizer
    }

    /// A copy of the dictionary bytes: what is written where the model is stored.
    pub fn to_buffer(&self) -> (buffer: Vec<u8>)
        ensures
            buffer@ == self.dictionary(),
    {
        copy_all(&self.model_buffer)
    }

    /// The number of bytes in the dictionary.
    pub fn get_dictionary_size(&self) -> (size: usize)
        ensures
            size == self.dictionary().len(),
    {
        self.model_buffer.len()
    }

    /// Compresses `tokens`: their wire form, run through the coder.
    pub fn compress(&self, tokens: &Vec<Token>) -> (compressed: Result<Vec<u8>, ClmError>)
        ensures
            match compressed {
                Ok(bytes) => self.frame(tokens@) == Some(bytes@),
                Err(e) => self.frame(tokens@) is None && e == ClmError::CorruptModel,
            },
    {
        let raw_data = tokens_to_bytes(tokens);
        match zstd_encode(&self.model_buffer, INFERENCE_COMPRESSION_LEVEL, &raw_data) {
            Some(bytes) => Ok(bytes),
            None => Err(ClmError::CorruptModel),
        }
    }

    /// Reads tokens back out of a frame. A frame that this model's `compress`
    /// wrote for some tokens gives those tokens.
    pub fn decompress_to_tokens(&self, compressed: &[u8]) -> (tokens: Result<
        Vec<Token>,
        ClmError,
    >)
        ensures
            forall|written: Seq<Token>| #[trigger]
                self.frame(written) == Some(compressed@) ==> (tokens matches Ok(t) && t@
                    == written),
            match tokens {
                Ok(t) => zstd_content(self.dictionary(), compressed@) == Some(
                    tokens_as_bytes(t@),
                ),
                Err(e) => match zstd_content(self.dictionary(), compressed@) {
                    Some(content) => !is_token_stream(content) && e == ClmError::Parse,
                    None => e == ClmError::CorruptModel,
                },
            },
    {
        match zstd_decode(&self.model_buffer, compressed) {
            Some(bytes) => match bytes_to_tokens(&bytes) {
                Some(t) => {
                    proof {
                        assert forall|written: Seq<Token>| #[trigger]
                            self.frame(written) == Some(compressed@) implies t@ == written by {
                            lemma_wire_form_injective(t@, written);
                        }
                    }
                    Ok(t)
                },
                None => Err(ClmError::Parse),
            },
            None => Err(ClmError::CorruptModel),
        }
    }

    /// The compressed size of `prompt` followed by `next`.
    pub fn compress_together(&self, prompt: &Vec<Token>, next: &Vec<Token>) -> (size: Result<
        usize,
        ClmError,
    >)
        ensures
            match size {
                Ok(n) => self.frame(prompt@ + next@) is Some && n == self.size(prompt@ + next@),
                Err(e) => self.frame(prompt@ + next@) is None && e == ClmError::CorruptModel,
            },
    {
        let mut all = copy_all(prompt);
        append_copy(&mut all, next);
        match self.compress(&all) {
            Ok(bytes) => Ok(bytes.len()),
            Err(e) => Err(e),
        }
    }

    /// Compresses each sentence, reads it back, and counts the tokens that came
    /// back unchanged, and all tokens: `(unchanged, all)`. The share of tokens
    /// that survive is the first divided by the second; the two are equal.
    pub fn evaluate(&self, test_data: &Vec<Vec<Token>>) -> (counts: Result<(u128, u128), ClmError>)
        ensures
            match counts {
                Ok(c) => self.accepts_all(sentences(test_data@)) && c.0 == c.1 && c.1
                    == total_tokens(sentences(test_data@)),
                Err(e) => !self.accepts_all(sentences(test_data@)) && e == ClmError::CorruptModel,
            },
    {
        let mut total: u128 = 0;
        let mut correct: u128 = 0;
        let mut i: usize = 0;
        while i < test_data.len()
            invariant
                i <= test_data.len(),
                correct == total,
                self.accepts_all(sentences(test_data@.take(i as int))),
                total == total_tokens(sentences(test_data@.take(i as int))),
                total <= i * usize::MAX,
            decreases test_data.len() - i,
        {
            let tokens = &test_data[i];
            let compressed = match self.compress(tokens) {
                Ok(bytes) => bytes,
                Err(e) => {
                    proof {
                        assert(sentences(test_data@)[i as int] == tokens@);
                    }
                    return Err(e);
                },
            };
            assert(self.frame(tokens@) == Some(compressed@));
            let decompressed = match self.decompress_to_tokens(compressed.as_slice()) {
                Ok(t) => t,
                Err(e) => {
                    proof {
                        assert(false);
                    }
                    return Err(e);
                },
            };
            assert(decompressed@ == tokens@);
            let mut same: usize = 0;
            let mut k: usize = 0;
            while k < tokens.len() && k < decompressed.len()
                invariant
                    k <= tokens.len(),
                    same == k,
                    decompressed@ == tokens@,
                decreases tokens.len() - k,
            {
                if tokens[k] == decompressed[k] {
                    same += 1;
                }
                k += 1;
            }
            proof {
                let before = sentences(test_data@.take(i as int));
                let after = sentences(test_data@.take(i + 1));
                assert(after =~= before.push(tokens@));
                assert forall|k: int| 0 <= k < after.len() implies (#[trigger] self.frame(
                    after[k],
                )) is Some by {
                    if k < before.len() {
                        assert(after[k] == before[k]);
                    }
                }
                lemma_total_tokens_push(before, tokens@);
                assert(i * usize::MAX + usize::MAX == (i + 1) * usize::MAX) by (nonlinear_arith);
                assert((i + 1) * usize::MAX <= usize::MAX * usize::MAX) by (nonlinear_arith)
                    requires
                        i + 1 <= usize::MAX,
                ;
            }
            total = total + tokens.len() as u128;
            correct = correct + same as u128;
            i += 1;
        }
        proof {
            assert(test_data@.take(test_data.len() as int) =~= test_data@);
        }
        Ok((correct, total))
    }
}

} // verus!
