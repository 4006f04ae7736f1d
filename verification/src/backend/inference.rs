//! Extending a prompt token by token. The driver keeps the compressed size of
//! what it has so far, so that each step scores only the candidates.

use vstd::prelude::*;
use super::ensemble_model::{all_accept, is_top, measurable, sizes_sum, EnsembleModel};
use super::random::fresh_generator;
use super::sequences::copy_all;
use super::{ClmError, Token};

verus! {

/// A prompt that is being extended: the tokens so far, their compressed size
/// under the ensemble, the candidates for the next token once they are
/// scored, and the number of tokens still to add.
pub struct Inference<'a> {
    ensemble: &'a EnsembleModel,
    tokens: Vec<Token>,
    size_before: usize,
    top: Vec<(Token, usize)>,
    remaining: usize,
}

impl<'a> Inference<'a> {
    #[verifier::type_invariant]
    spec fn sizes_are_right(self) -> bool {
        &&& all_accept(self.ensemble.members(), self.tokens@)
        &&& self.size_before == sizes_sum(self.ensemble.members(), self.tokens@)
        &&& forall|i: int|
            0 <= i < self.top@.len() ==> self.ensemble.follows(self.tokens@, #[trigger] self.top@[i])
    }

    /// The ensemble that scores.
    pub closed spec fn ensemble(self) -> EnsembleModel {
        *self.ensemble
    }

    /// The tokens so far.
    pub closed spec fn tokens(self) -> Seq<Token> {
        self.tokens@
    }

    /// The kept size: that of the tokens so far.
    pub closed spec fn size_before(self) -> nat {
        self.size_before as nat
    }

    /// The candidates for the next token, none until they are scored.
    pub closed spec fn candidates(self) -> Seq<(Token, usize)> {
        self.top@
    }

    /// The number of tokens still to add.
    pub closed spec fn remaining(self) -> nat {
        self.remaining as nat
    }

    /// Starts from `prompt`, to add `length` tokens.
    pub fn start(ensemble: &'a EnsembleModel, prompt: Vec<Token>, length: usize) -> (started:
        Result<Self, ClmError>)
        ensures
            match started {
                Ok(s) => {
                    &&& measurable(ensemble.members(), prompt@)
                    &&& s.ensemble() == *ensemble
                    &&& s.tokens() == prompt@
                    &&& s.size_before() == sizes_sum(ensemble.members(), prompt@)
                    &&& s.candidates().len() == 0
                    &&& s.remaining() == length
                },
                Err(e) => !measurable(ensemble.members(), prompt@) && e
                    == ClmError::CorruptModel,
            },
    {
        let mean = match ensemble.compressed_size(&prompt) {
            Ok(mean) => mean,
            Err(e) => {
                return Err(e);
            },
        };
        Ok(
            Inference {
                ensemble,
                tokens: prompt,
                size_before: mean.total,
                top: Vec::new(),
                remaining: length,
            },
        )
    }

    /// Scores the candidates for the next token and keeps the `limit`
    /// cheapest, the cheapest first, ties in a random order. Tokens and kept
    /// size stay as they are.
    pub fn score(&mut self, limit: usize) -> (outcome: Result<(), ClmError>)
        ensures
            final(self).ensemble() == old(self).ensemble(),
            final(self).tokens() == old(self).tokens(),
            final(self).size_before() == old(self).size_before(),
            final(self).remaining() == old(self).remaining(),
            outcome is Ok <==> old(self).ensemble().measures_candidates(old(self).tokens()),
            outcome is Ok ==> exists|all: Seq<(Token, usize)>| #[trigger]
                final(self).ensemble().scores(final(self).tokens(), all) && is_top(
                    all,
                    limit as nat,
                    final(self).candidates(),
                ),
            outcome matches Err(e) ==> e == ClmError::CorruptModel && final(self).candidates()
                == old(self).candidates(),
    {
        let mut rng = fresh_generator();
        self.score_with(limit, &mut rng)
    }

    /// Scores the candidates for the next token and keeps the `limit`
    /// cheapest, the cheapest first, ties in an order that the generator
    /// decides. Tokens and kept size stay as they are.
    pub fn score_with(&mut self, limit: usize, rng: &mut rand::rngs::StdRng) -> (outcome: Result<
        (),
        ClmError,
    >)
        ensures
            final(self).ensemble() == old(self).ensemble(),
            final(self).tokens() == old(self).tokens(),
            final(self).size_before() == old(self).size_before(),
            final(self).remaining() == old(self).remaining(),
            outcome is Ok <==> old(self).ensemble().measures_candidates(old(self).tokens()),
            outcome is Ok ==> exists|all: Seq<(Token, usize)>| #[trigger]
                final(self).ensemble().scores(final(self).tokens(), all) && is_top(
                    all,
                    limit as nat,
                    final(self).candidates(),
                ),
            outcome matches Err(e) ==> e == ClmError::CorruptModel && final(self).candidates()
                == old(self).candidates(),
    {
        proof {
            use_type_invariant(&*self);
        }
        let top = match self.ensemble.top_candidates_with(&self.tokens, limit, rng) {
            Ok(top) => top,
            Err(e) => {
                return Err(e);
            },
        };
        proof {
            let all = choose|all: Seq<(Token, usize)>| #[trigger]
                self.ensemble.scores(self.tokens@, all) && is_top(all, limit as nat, top@);
            self.ensemble.lemma_top_follows(self.tokens@, all, limit as nat, top@);
        }
        self.top = top;
        Ok(())
    }

    /// Takes candidate `index` as the next token: the token is added, its size
    /// becomes the kept size, and the candidates are dropped. Nothing happens,
    /// and `false` comes back, where there is no such candidate or no token is
    /// left to add.
    pub fn take_candidate(&mut self, index: usize) -> (taken: bool)
        ensures
            final(self).ensemble() == old(self).ensemble(),
            taken == (index < old(self).candidates().len() && old(self).remaining() > 0),
            taken ==> {
                &&& final(self).tokens() == old(self).tokens().push(
                    old(self).candidates()[index as int].0,
                )
                &&& final(self).size_before() == old(self).candidates()[index as int].1
                &&& final(self).size_before() == sizes_sum(
                    final(self).ensemble().members(),
                    final(self).tokens(),
                )
                &&& final(self).candidates().len() == 0
                &&& final(self).remaining() == old(self).remaining() - 1
            },
            !taken ==> {
                &&& final(self).tokens() == old(self).tokens()
                &&& final(self).size_before() == old(self).size_before()
                &&& final(self).candidates() == old(self).candidates()
                &&& final(self).remaining() == old(self).remaining()
            },
    {
        proof {
            use_type_invariant(&*self);
        }
        if index >= self.top.len() || self.remaining == 0 {
            return false;
        }
        let chosen: (Token, usize) = self.top[index];
        proof {
            assert(self.ensemble.follows(self.tokens@, self.top@[index as int]));
        }
        let mut tokens = copy_all(&self.tokens);
        tokens.push(chosen.0);
        *self = Inference {
            ensemble: self.ensemble,
            tokens,
            size_before: chosen.1,
            top: Vec::new(),
            remaining: self.remaining - 1,
        };
        true
    }

    /// The tokens so far.
    pub fn get_tokens(&self) -> (tokens: &Vec<Token>)
        ensures
            tokens@ == self.tokens(),
    {
        &self.tokens
    }

    /// The kept size, which is the compressed size of the tokens so far.
    pub fn get_size_before(&self) -> (size: usize)
        ensures
            size == self.size_before(),
            size == sizes_sum(self.ensemble().members(), self.tokens()),
    {
        proof {
            use_type_invariant(self);
        }
        self.size_before
    }

    /// The candidates for the next token, each with the size that the tokens
    /// have when it follows them.
    pub fn get_candidates(&self) -> (candidates: &Vec<(Token, usize)>)
        ensures
            candidates@ == self.candidates(),
            forall|i: int|
                0 <= i < candidates@.len() ==> self.ensemble().follows(
                    self.tokens(),
                    #[trigger] candidates@[i],
                ),
    {
        proof {
            use_type_invariant(self);
        }
        &self.top
    }

    /// The number of tokens still to add.
    pub fn get_remaining(&self) -> (remaining: usize)
        ensures
            remaining == self.remaining(),
    {
        self.remaining
    }

    /// Whether every token asked for has been added.
    pub fn is_done(&self) -> (done: bool)
        ensures
            done == (self.remaining() == 0),
    {
        self.remaining == 0
    }
}

} // verus!
