//! The tokenizer adapter: text to tokens and back.

use vstd::prelude::*;
use vstd::string::*;
use super::{Token, MAX_TOKEN};

verus! {

/// The ids that the `p50k_base` byte-pair encoding of `tiktoken_rs` gives `text`,
/// special tokens not recognised.
pub uninterp spec fn p50k_ids(text: Seq<char>) -> Seq<u32>;

/// The text that `p50k_base` decodes `ids` to, or `None` where an id is not in
/// the vocabulary or the bytes are not UTF-8.
pub uninterp spec fn p50k_text(ids: Seq<u32>) -> Option<Seq<char>>;

/// The longest text, in characters, that is handed to the standard tokenizer.
/// Its pattern matcher gives up, and the tokenizer with it, when its stack
/// holds a million entries. A run of white space costs it one entry for each
/// character, and the alternatives of the pattern a handful more. Half a
/// million characters stay below that with room to spare.
pub const LONGEST_TEXT: usize = 500000;

/// Calls `CoreBPE::encode_ordinary` on `tiktoken_rs::p50k_base_singleton()`.
///
/// Trusted: the ids depend on the text alone. `encode_ordinary` unwraps what
/// its pattern matcher returns, and the matcher gives up on texts that
/// overrun its stack; `requires` leaves long texts out.
#[verifier::external_body]
pub(crate) fn p50k_encode(text: &str) -> (ids: Vec<u32>)
    requires
        text@.len() <= LONGEST_TEXT,
    ensures
        ids@ == p50k_ids(text@),
{
    tiktoken_rs::p50k_base_singleton().encode_ordinary(text)
}

/// Calls `CoreBPE::decode` on `tiktoken_rs::p50k_base_singleton()`.
///
/// Trusted: whether decoding succeeds, and the text, depend on the ids alone.
#[verifier::external_body]
pub(crate) fn p50k_decode(ids: &Vec<u32>) -> (text: Option<String>)
    ensures
        match text {
            Some(s) => p50k_text(ids@) == Some(s@),
            None => p50k_text(ids@) is None,
        },
{
    tiktoken_rs::p50k_base_singleton().decode(ids.as_slice()).ok()
}

/// The tokens that stand for a sequence of 32-bit ids.
pub open spec fn ids_as_tokens(ids: Seq<u32>) -> Seq<Token> {
    ids.map_values(|id: u32| id as Token)
}

/// Whether every token fits a 32-bit id.
pub open spec fn fit_ids(tokens: Seq<Token>) -> bool {
    forall|i: int| 0 <= i < tokens.len() ==> #[trigger] tokens[i] <= u32::MAX
}

/// The 32-bit ids of a token sequence that fits them.
pub open spec fn tokens_as_ids(tokens: Seq<Token>) -> Seq<u32> {
    tokens.map_values(|t: Token| t as u32)
}

/// Widens each id to a token.
pub fn ids_to_tokens(ids: &Vec<u32>) -> (tokens: Vec<Token>)
    ensures
        tokens@ == ids_as_tokens(ids@),
{
    let mut tokens: Vec<Token> = Vec::new();
    let mut i: usize = 0;
    while i < ids.len()
        invariant
            i <= ids.len(),
            tokens@ == ids_as_tokens(ids@.take(i as int)),
        decreases ids.len() - i,
    {
        tokens.push(ids[i] as usize);
        proof {
            assert(ids@.take(i + 1) =~= ids@.take(i as int).push(ids@[i as int]));
            assert(tokens@ =~= ids_as_tokens(ids@.take(i + 1)));
        }
        i += 1;
    }
    proof {
        assert(ids@.take(ids.len() as int) =~= ids@);
    }
    tokens
}

/// Narrows each token to a 32-bit id: `None` as soon as one does not fit.
pub fn tokens_to_ids(tokens: &Vec<Token>) -> (ids: Option<Vec<u32>>)
    ensures
        match ids {
            Some(v) => fit_ids(tokens@) && v@ == tokens_as_ids(tokens@),
            None => !fit_ids(tokens@),
        },
{
    let mut ids: Vec<u32> = Vec::new();
    let mut i: usize = 0;
    while i < tokens.len()
        invariant
            i <= tokens.len(),
            fit_ids(tokens@.take(i as int)),
            ids@ == tokens_as_ids(tokens@.take(i as int)),
        decreases tokens.len() - i,
    {
        let t: Token = tokens[i];
        if t > u32::MAX as usize {
            return None;
        }
        ids.push(t as u32);
        proof {
            assert(tokens@.take(i + 1) =~= tokens@.take(i as int).push(tokens@[i as int]));
            assert(ids@ =~= tokens_as_ids(tokens@.take(i + 1)));
        }
        i += 1;
    }
    proof {
        assert(tokens@.take(tokens.len() as int) =~= tokens@);
    }
    Some(ids)
}

/// The tokens in an optional token vector.
pub open spec fn tokens_of(tokens: Option<Vec<Token>>) -> Option<Seq<Token>> {
    match tokens {
        Some(v) => Some(v@),
        None => None,
    }
}

/// The characters in an optional text.
pub open spec fn text_of(text: Option<String>) -> Option<Seq<char>> {
    match text {
        Some(t) => Some(t@),
        None => None,
    }
}

/// The text that stands for a token sequence no tokenizer can decode.
pub open spec fn error_text() -> Seq<char> {
    "<error>"@
}

/// A tokenizer: the standard byte-pair encoding, which the library reads and
/// writes text with, or a custom one. A custom tokenizer reads and writes its
/// text outside the library, which knows it by the size of its vocabulary
/// alone: that is all that scoring the candidates takes.
#[derive(Debug, Clone, Copy, PartialEq, Eq, Structural)]
pub enum ClmTokenizer {
    /// The standard `p50k_base` vocabulary.
    GPT2,
    /// A tokenizer outside the library, with the size of its vocabulary.
    Custom(usize),
}

impl ClmTokenizer {
    /// Whether the two are the same tokenizer: both the standard one, or both
    /// custom with a vocabulary of the same size.
    pub open spec fn same_as(&self, other: ClmTokenizer) -> bool {
        *self == other
    }

    /// Whether `outcome` is what the tokenizer makes of `text`. The standard
    /// tokenizer gives the tokens of the text, and none for a text that is too
    /// long for it. A custom tokenizer gives none: its text is read outside
    /// the library.
    pub open spec fn may_encode(&self, text: Seq<char>, outcome: Option<Seq<Token>>) -> bool {
        match self {
            ClmTokenizer::GPT2 => outcome == if text.len() <= LONGEST_TEXT {
                Some(ids_as_tokens(p50k_ids(text)))
            } else {
                None
            },
            ClmTokenizer::Custom(_) => outcome is None,
        }
    }

    /// The text of `tokens`, or the error text where they cannot be decoded:
    /// where a token is not in the standard vocabulary, and for every custom
    /// tokenizer, whose text is written outside the library.
    pub open spec fn decoding(&self, tokens: Seq<Token>) -> Seq<char> {
        let decoded = match self {
            ClmTokenizer::GPT2 => if fit_ids(tokens) {
                p50k_text(tokens_as_ids(tokens))
            } else {
                None
            },
            ClmTokenizer::Custom(_) => None,
        };
        match decoded {
            Some(text) => text,
            None => error_text(),
        }
    }

    /// The largest token: one less than the size of the vocabulary, and 0 for
    /// a custom vocabulary without a token.
    pub open spec fn max_token(&self) -> nat {
        match self {
            ClmTokenizer::GPT2 => MAX_TOKEN as nat,
            ClmTokenizer::Custom(vocabulary) => if *vocabulary >= 1 {
                (*vocabulary - 1) as nat
            } else {
                0
            },
        }
    }

    /// The tokenizer with the standard vocabulary.
    pub fn new_gpt2() -> (tokenizer: Self)
        ensures
            tokenizer == ClmTokenizer::GPT2,
    {
        ClmTokenizer::GPT2
    }

    /// A custom tokenizer with a vocabulary of the given size.
    pub fn new_custom(vocabulary: usize) -> (tokenizer: Self)
        ensures
            tokenizer == ClmTokenizer::Custom(vocabulary),
    {
        ClmTokenizer::Custom(vocabulary)
    }

    /// Whether the two are the same tokenizer.
    pub fn is_same(&self, other: &ClmTokenizer) -> (same: bool)
        ensures
            same == self.same_as(*other),
    {
        *self == *other
    }

    /// The largest token of the vocabulary.
    pub fn get_max_token(&self) -> (token: Token)
        ensures
            token == self.max_token(),
            token < usize::MAX,
    {
        match self {
            ClmTokenizer::GPT2 => MAX_TOKEN,
            ClmTokenizer::Custom(vocabulary) => if *vocabulary >= 1 {
                *vocabulary - 1
            } else {
                0
            },
        }
    }

    /// The tokens of `text`, or `None` where the text is too long for the
    /// standard tokenizer, and for every custom tokenizer.
    pub fn encode(&self, text: &str) -> (tokens: Option<Vec<Token>>)
        ensures
            self.may_encode(text@, tokens_of(tokens)),
    {
        match self {
            ClmTokenizer::GPT2 => {
                if text.unicode_len() > LONGEST_TEXT {
                    return None;
                }
                let ids = p50k_encode(text);
                Some(ids_to_tokens(&ids))
            },
            ClmTokenizer::Custom(_) => None,
        }
    }

    /// The text of `tokens`, or the error text where they cannot be decoded.
    pub fn decode(&self, tokens: &Vec<Token>) -> (text: String)
        ensures
            text@ == self.decoding(tokens@),
    {
        let decoded = match self {
            ClmTokenizer::GPT2 => match tokens_to_ids(tokens) {
                Some(ids) => p50k_decode(&ids),
                None => None,
            },
            ClmTokenizer::Custom(_) => None,
        };
        match decoded {
            Some(text) => text,
            None => String::from_str("<error>"),
        }
    }
}

} // verus!
