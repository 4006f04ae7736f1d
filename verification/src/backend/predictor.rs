//! Next-token prediction with one model: score every candidate, take the
//! cheapest, look ahead where asked to.

use vstd::prelude::*;
use super::clm_model::{lookahead_size, ClmModel};
use super::random::{fresh_generator, shuffle_items};
use super::sequences::{ascending, copy_all, count_up_to, parallel_map, sort_by_size};
use super::tokenizer::{text_of, tokens_of};
use super::{ClmError, Token};

verus! {

/// The best candidate after the first `count` trials: each trial belongs to
/// the candidate at its place in `sorted`, and a candidate becomes the best
/// when its trial reports a smaller size than the best so far. Before any
/// trial the best is token 0 with the largest size there is.
pub open spec fn best_trial(
    sorted: Seq<(Token, usize)>,
    trials: Seq<(Token, usize)>,
    count: nat,
) -> (Token, usize)
    decreases count,
{
    if count == 0 {
        (0, usize::MAX)
    } else {
        let before = best_trial(sorted, trials, (count - 1) as nat);
        if trials[count - 1].1 < before.1 {
            (sorted[count - 1].0, trials[count - 1].1)
        } else {
            before
        }
    }
}

/// Where every trial reports the same size, the first candidate wins, unless
/// there is no trial or the size is the largest there is.
pub proof fn lemma_equal_trials(
    sorted: Seq<(Token, usize)>,
    trials: Seq<(Token, usize)>,
    count: nat,
    size: usize,
)
    requires
        count <= trials.len(),
        forall|k: int| 0 <= k < count ==> (#[trigger] trials[k]).1 == size,
    ensures
        best_trial(sorted, trials, count) == if count == 0 || size == usize::MAX {
            (0usize, usize::MAX)
        } else {
            (sorted[0].0, size)
        },
    decreases count,
{
    if count > 0 {
        lemma_equal_trials(sorted, trials, (count - 1) as nat, size);
        assert(trials[count - 1].1 == size);
    }
}

/// The best candidate after all trials, of which there is one for each of the
/// first candidates in `sorted`.
pub fn best_after_trials(sorted: &Vec<(Token, usize)>, trials: &Vec<(Token, usize)>) -> (best: (
    Token,
    usize,
))
    requires
        trials.len() <= sorted.len(),
    ensures
        best == best_trial(sorted@, trials@, trials.len() as nat),
{
    let mut best: (Token, usize) = (0, usize::MAX);
    let mut i: usize = 0;
    while i < trials.len()
        invariant
            i <= trials.len() <= sorted.len(),
            best == best_trial(sorted@, trials@, i as nat),
        decreases trials.len() - i,
    {
        if trials[i].1 < best.1 {
            best = (sorted[i].0, trials[i].1);
        }
        i += 1;
    }
    best
}

impl ClmModel {
    /// The least size over the first `count` candidates is at most the size of
    /// each of them, and is the size of one of them.
    pub proof fn lemma_least_size(&self, tokens: Seq<Token>, count: nat)
        requires
            count >= 1,
        ensures
            forall|t: int|
                0 <= t < count ==> self.least_size(tokens, count) <= #[trigger] self.size(
                    tokens.push(t as Token),
                ),
            exists|t: int|
                0 <= t < count && self.least_size(tokens, count) == #[trigger] self.size(
                    tokens.push(t as Token),
                ),
        decreases count,
    {
        if count == 1 {
            assert(self.least_size(tokens, count) == self.size(tokens.push(0int as Token)));
        } else {
            self.lemma_least_size(tokens, (count - 1) as nat);
            let before = self.least_size(tokens, (count - 1) as nat);
            let last = self.size(tokens.push((count - 1) as Token));
            let t0 = choose|t: int|
                0 <= t < count - 1 && before == #[trigger] self.size(tokens.push(t as Token));
            if last < before {
                assert(self.least_size(tokens, count) == self.size(
                    tokens.push((count - 1) as int as Token),
                ));
            } else {
                assert(self.least_size(tokens, count) == self.size(tokens.push(t0 as Token)));
            }
            assert forall|t: int| 0 <= t < count implies self.least_size(tokens, count)
                <= #[trigger] self.size(tokens.push(t as Token)) by {
                if t == count - 1 {
                    assert(self.size(tokens.push(t as Token)) == last);
                }
            }
        }
    }

    /// After every candidate is scored and the list is reordered so that sizes
    /// never decrease, the head of the list is one of the cheapest candidates.
    pub proof fn lemma_head_is_least(
        &self,
        tokens: Seq<Token>,
        scored: Seq<(Token, usize)>,
        sorted: Seq<(Token, usize)>,
    )
        requires
            self.scores(tokens, scored),
            sorted.to_multiset() == scored.to_multiset(),
            ascending(sorted),
        ensures
            sorted.len() == self.vocabulary(),
            sorted[0].0 < self.vocabulary(),
            sorted[0].1 == self.size(tokens.push(sorted[0].0)),
            sorted[0].1 == self.least_size(tokens, self.vocabulary()),
    {
        broadcast use vstd::seq_lib::group_to_multiset_ensures;

        sorted.to_multiset_ensures();
        scored.to_multiset_ensures();
        let count = self.vocabulary();
        assert(sorted.len() == scored.len());
        let head = sorted[0];
        assert(sorted.contains(head));
        assert(scored.to_multiset().count(head) > 0);
        assert(scored.contains(head));
        let at = choose|t: int| 0 <= t < scored.len() && scored[t] == head;
        assert(scored[at].0 == at);
        assert(head.0 as int == at);
        assert(tokens.push(at as Token) == tokens.push(head.0));
        self.lemma_least_size(tokens, count);
        assert forall|t: int| 0 <= t < count implies head.1 <= #[trigger] self.size(
            tokens.push(t as Token),
        ) by {
            let item = scored[t];
            assert(scored.contains(item));
            assert(sorted.to_multiset().count(item) > 0);
            assert(sorted.contains(item));
            let j = choose|j: int| 0 <= j < sorted.len() && sorted[j] == item;
            assert(sorted[0].1 <= sorted[j].1);
        }
        let t1 = choose|t: int|
            0 <= t < count && self.least_size(tokens, count) == #[trigger] self.size(
                tokens.push(t as Token),
            );
        assert(head.1 <= self.size(tokens.push(t1 as Token)));
        assert(self.least_size(tokens, count) <= self.size(tokens.push(at as Token)));
    }

    /// The compressed size of `tokens` extended by `candidate`.
    pub fn next_token_size(&self, tokens: &Vec<Token>, candidate: Token) -> (size: Result<
        usize,
        ClmError,
    >)
        ensures
            match size {
                Ok(n) => self.frame(tokens@.push(candidate)) is Some && n == self.size(
                    tokens@.push(candidate),
                ),
                Err(e) => self.frame(tokens@.push(candidate)) is None && e
                    == ClmError::CorruptModel,
            },
    {
        let mut prompt = copy_all(tokens);
        prompt.push(candidate);
        match self.compress(&prompt) {
            Ok(bytes) => Ok(bytes.len()),
            Err(e) => Err(e),
        }
    }

    /// Scores every candidate: the compressed size of `tokens` extended by it.
    /// The candidates are scored in parallel.
    pub fn get_next_token_sizes(&self, tokens: &Vec<Token>) -> (sizes: Result<
        Vec<(Token, usize)>,
        ClmError,
    >)
        ensures
            match sizes {
                Ok(s) => self.accepts_candidates(tokens@) && self.scores(tokens@, s@),
                Err(e) => !self.accepts_candidates(tokens@) && e == ClmError::CorruptModel,
            },
    {
        let last: Token = self.get_tokenizer().get_max_token();
        let candidates = count_up_to(last);
        let score = |candidate: &Token| -> (size: Result<usize, ClmError>)
            ensures
                size matches Ok(n) ==> self.frame(tokens@.push(*candidate)) is Some && n
                    == self.size(tokens@.push(*candidate)),
                size matches Err(e) ==> self.frame(tokens@.push(*candidate)) is None && e
                    == ClmError::CorruptModel,
            { self.next_token_size(tokens, *candidate) };
        let scored = parallel_map(&candidates, score);
        let mut sizes: Vec<(Token, usize)> = Vec::new();
        let mut t: usize = 0;
        while t < scored.len()
            invariant
                t <= scored.len(),
                scored.len() == candidates.len(),
                candidates.len() == last + 1,
                last == self.tokenizer().max_token(),
                forall|i: int| 0 <= i <= last ==> #[trigger] candidates@[i] == i,
                forall|i: int|
                    0 <= i < candidates.len() ==> call_ensures(
                        score,
                        (&candidates@[i],),
                        #[trigger] scored@[i],
                    ),
                forall|c: &Token, r: Result<usize, ClmError>| #[trigger]
                    call_ensures(score, (c,), r) ==> {
                        &&& r matches Ok(n) ==> self.frame(tokens@.push(*c)) is Some && n
                            == self.size(tokens@.push(*c))
                        &&& r matches Err(e) ==> self.frame(tokens@.push(*c)) is None && e
                            == ClmError::CorruptModel
                    },
                sizes.len() == t,
                forall|k: int|
                    0 <= k < t ==> {
                        &&& (#[trigger] sizes@[k]).0 == k
                        &&& self.frame(tokens@.push(k as Token)) is Some
                        &&& sizes@[k].1 == self.size(tokens@.push(k as Token))
                    },
            decreases scored.len() - t,
        {
            proof {
                assert(call_ensures(score, (&candidates@[t as int],), scored@[t as int]));
            }
            match scored[t] {
                Ok(size) => {
                    sizes.push((t, size));
                },
                Err(e) => {
                    proof {
                        assert(self.frame(tokens@.push(t as int as Token)) is None);
                    }
                    return Err(e);
                },
            }
            t += 1;
        }
        proof {
            assert(sizes@.len() == self.vocabulary());
            assert forall|k: int| 0 <= k < self.vocabulary() implies (#[trigger] self.frame(
                tokens@.push(k as Token),
            )) is Some by {
                assert(sizes@[k].0 == k);
            }
        }
        Ok(sizes)
    }

    /// The best next token and the size that the look-ahead reports for it.
    ///
    /// Candidates are scored, shuffled so that ties fall at random, and sorted
    /// by size. At depth 0 the head of the list is the answer. Deeper, each of
    /// the first `width` candidates is given a trial, a look-ahead with one
    /// level less and half the width, and the first candidate whose trial
    /// reports the least size wins.
    pub fn predict_tokens(&self, tokens: &Vec<Token>, depth: usize, width: usize) -> (answer:
        Result<(Token, usize), ClmError>)
        ensures
            match answer {
                Ok(a) => self.accepts_candidates(tokens@) && self.predicts(
                    tokens@,
                    depth as nat,
                    width as nat,
                    a,
                ),
                Err(e) => !self.accepts_candidates(tokens@) && e == ClmError::CorruptModel,
            },
    {
        let mut rng = fresh_generator();
        self.predict_tokens_with(tokens, depth, width, &mut rng)
    }

    /// The best next token and the size that the look-ahead reports for it,
    /// with the randomness drawn from the generator.
    ///
    /// Candidates are scored, shuffled with the generator so that ties fall as
    /// it decides, and sorted by size. At depth 0 the head of the list is the
    /// answer. Deeper, each of the first `width` candidates is given a trial, a
    /// look-ahead with one level less and half the width, and the first
    /// candidate whose trial reports the least size wins.
    pub fn predict_tokens_with(
        &self,
        tokens: &Vec<Token>,
        depth: usize,
        width: usize,
        rng: &mut rand::rngs::StdRng,
    ) -> (answer: Result<(Token, usize), ClmError>)
        ensures
            match answer {
                Ok(a) => self.accepts_candidates(tokens@) && self.predicts(
                    tokens@,
                    depth as nat,
                    width as nat,
                    a,
                ),
                Err(e) => !self.accepts_candidates(tokens@) && e == ClmError::CorruptModel,
            },
        decreases depth,
    {
        let mut c = match self.get_next_token_sizes(tokens) {
            Ok(sizes) => sizes,
            Err(e) => {
                return Err(e);
            },
        };
        let ghost scored = c@;
        shuffle_items(&mut c, rng);
        sort_by_size(&mut c);
        proof {
            self.lemma_head_is_least(tokens@, scored, c@);
        }
        let ghost least = self.least_size(tokens@, self.vocabulary());
        if depth == 0 {
            return Ok(c[0]);
        }
        let ghost deeper = lookahead_size(least, (depth - 1) as nat, (width / 2) as nat);
        let mut trials: Vec<(Token, usize)> = Vec::new();
        while trials.len() < width && trials.len() < c.len()
            invariant
                depth > 0,
                trials.len() <= width,
                trials.len() <= c.len(),
                c.len() == self.vocabulary(),
                least == self.least_size(tokens@, self.vocabulary()),
                deeper == lookahead_size(least, (depth - 1) as nat, (width / 2) as nat),
                forall|k: int| 0 <= k < trials.len() ==> (#[trigger] trials@[k]).1 == deeper,
            decreases c.len() - trials.len(),
        {
            let next = match self.predict_tokens_with(tokens, depth - 1, width / 2, rng) {
                Ok(found) => found,
                Err(e) => {
                    return Err(e);
                },
            };
            trials.push(next);
        }
        let best = best_after_trials(&c, &trials);
        proof {
            lemma_equal_trials(c@, trials@, trials.len() as nat, deeper as usize);
            assert(lookahead_size(least, depth as nat, width as nat) == if width == 0 {
                usize::MAX as nat
            } else {
                deeper
            });
        }
        Ok(best)
    }

    /// Whether `text` is the text of `tokens` with a predicted token behind them.
    pub open spec fn follows_prediction(
        &self,
        tokens: Seq<Token>,
        depth: nat,
        width: nat,
        text: Seq<char>,
    ) -> bool {
        exists|answer: (Token, usize)|
            #[trigger] self.predicts(tokens, depth, width, answer) && text
                == self.tokenizer().decoding(tokens.push(answer.0))
    }

    /// Whether `extended` is what the predictor makes of what the tokenizer
    /// gave: nothing where the tokenizer gave nothing or the coder does not
    /// compress every candidate, and otherwise the text of the tokens with a
    /// predicted token behind them.
    pub open spec fn extends(
        &self,
        outcome: Option<Seq<Token>>,
        depth: nat,
        width: nat,
        extended: Option<Seq<char>>,
    ) -> bool {
        match outcome {
            Some(tokens) => if self.accepts_candidates(tokens) {
                extended matches Some(text) && self.follows_prediction(tokens, depth, width, text)
            } else {
                extended is None
            },
            None => extended is None,
        }
    }

    /// Whether `extended` may be what the predictor makes of `prompt`: what it
    /// makes of some tokens that the tokenizer may give for the prompt.
    pub open spec fn may_extend(
        &self,
        prompt: Seq<char>,
        depth: nat,
        width: nat,
        extended: Option<Seq<char>>,
    ) -> bool {
        exists|outcome: Option<Seq<Token>>|
            self.tokenizer().may_encode(prompt, outcome) && #[trigger] self.extends(
                outcome,
                depth,
                width,
                extended,
            )
    }

    /// The prompt extended by the predicted next token, as text: `None` where
    /// the tokenizer gives no tokens for the prompt or the coder does not
    /// compress every candidate.
    pub fn predict_next(&self, prompt: String, depth: usize, width: usize) -> (extended: Option<
        String,
    >)
        ensures
            self.may_extend(prompt@, depth as nat, width as nat, text_of(extended)),
    {
        let mut rng = fresh_generator();
        self.predict_next_with(prompt, depth, width, &mut rng)
    }

    /// The prompt extended by the predicted next token, as text, with the
    /// randomness drawn from the generator: `None` where the tokenizer gives
    /// no tokens for the prompt or the coder does not compress every
    /// candidate.
    pub fn predict_next_with(
        &self,
        prompt: String,
        depth: usize,
        width: usize,
        rng: &mut rand::rngs::StdRng,
    ) -> (extended: Option<String>)
        ensures
            self.may_extend(prompt@, depth as nat, width as nat, text_of(extended)),
    {
        let encoded = self.get_tokenizer().encode(prompt.as_str());
        let ghost outcome = tokens_of(encoded);
        let extended = match encoded {
            Some(tokens) => self.extend_tokens_with(tokens, depth, width, rng),
            None => None,
        };
        proof {
            assert(self.tokenizer().may_encode(prompt@, outcome));
            assert(self.extends(outcome, depth as nat, width as nat, text_of(extended)));
        }
        extended
    }

    /// The tokens extended by the predicted next token, as text, with the
    /// randomness drawn from the generator: `None` where the coder does not
    /// compress every candidate.
    pub fn extend_tokens_with(
        &self,
        tokens: Vec<Token>,
        depth: usize,
        width: usize,
        rng: &mut rand::rngs::StdRng,
    ) -> (extended: Option<String>)
        ensures
            self.extends(Some(tokens@), depth as nat, width as nat, text_of(extended)),
    {
        let answer = self.predict_tokens_with(&tokens, depth, width, rng);
        let extended = self.text_for_answer(tokens, answer);
        proof {
            if let Ok(found) = answer {
                assert(self.predicts(tokens@, depth as nat, width as nat, found));
            }
        }
        extended
    }

    /// Whether `extended` is `tokens` with a predicted token behind them.
    pub open spec fn appends_prediction(
        &self,
        tokens: Seq<Token>,
        depth: nat,
        width: nat,
        extended: Seq<Token>,
    ) -> bool {
        exists|answer: (Token, usize)|
            #[trigger] self.predicts(tokens, depth, width, answer) && extended == tokens.push(
                answer.0,
            )
    }

    /// The tokens with the predicted next token behind them, with the
    /// randomness drawn from the generator: `None` where the coder does not
    /// compress every candidate. This is what a tokenizer outside the library
    /// is served with: it makes the tokens of the prompt, and the text of what
    /// comes back.
    pub fn append_predicted_with(
        &self,
        tokens: Vec<Token>,
        depth: usize,
        width: usize,
        rng: &mut rand::rngs::StdRng,
    ) -> (extended: Option<Vec<Token>>)
        ensures
            match extended {
                Some(all) => self.accepts_candidates(tokens@) && self.appends_prediction(
                    tokens@,
                    depth as nat,
                    width as nat,
                    all@,
                ),
                None => !self.accepts_candidates(tokens@),
            },
    {
        match self.predict_tokens_with(&tokens, depth, width, rng) {
            Ok(found) => {
                let mut all = tokens;
                all.push(found.0);
                proof {
                    assert(self.predicts(tokens@, depth as nat, width as nat, found));
                }
                Some(all)
            },
            Err(_) => None,
        }
    }

    /// What the predictor's answer makes of the prompt's tokens: their text
    /// with the answer's token behind them, and `None` where the predictor
    /// gave no answer.
    pub fn text_for_answer(&self, tokens: Vec<Token>, answer: Result<(Token, usize), ClmError>) -> (extended:
        Option<String>)
        ensures
            match answer {
                Ok(found) => extended matches Some(text) && text@ == self.tokenizer().decoding(
                    tokens@.push(found.0),
                ),
                Err(_) => extended is None,
            },
    {
        match answer {
            Ok(found) => {
                let mut all = tokens;
                all.push(found.0);
                Some(self.get_tokenizer().decode(&all))
            },
            Err(_) => None,
        }
    }
}

} // verus!
