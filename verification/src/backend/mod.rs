//! Tokens, their byte encoding, and the error kinds shared by the backend.

pub mod clm_model;
pub mod coder;
pub mod dataset;
pub mod ensemble_model;
pub mod evaluation;
pub mod inference;
pub mod lines;
pub mod predictor;
pub mod random;
pub mod ratio;
pub mod sequences;
pub mod tokenizer;
pub mod trainer;
pub mod training_options;

use vstd::prelude::*;

verus! {

/// Index of a token in the vocabulary.
pub type Token = usize;

/// Width of a token on the wire, in bytes.
pub const BYTES_PER_TOKEN: usize = 8;

/// Largest token of the standard vocabulary.
pub const MAX_TOKEN: Token = 50280;

/// Compression level used whenever a model scores or encodes tokens.
pub const INFERENCE_COMPRESSION_LEVEL: i32 = 1;

/// What can go wrong in the backend.
#[derive(Debug, Clone, Copy, PartialEq, Eq, Structural)]
pub enum ClmError {
    /// A file could not be read or written.
    Io,
    /// Bytes that should hold tokens, a dataset or an ensemble hold none.
    Parse,
    /// The coder turned the dictionary or a frame down, or the sizes of an
    /// ensemble's members add up to more than a machine word holds.
    CorruptModel,
    /// The dictionary trainer reported an error.
    TrainingFailed,
    /// An option is outside its range, or a text is too long to be tokenized.
    InvalidOptions,
    /// An operation that needs sentences was given none.
    EmptyInput,
}

/// Byte `k` of the big-endian encoding of `t`, byte 0 being the most significant.
pub open spec fn token_byte(t: Token, k: int) -> u8 {
    let d7 = t as int;
    let d6 = d7 / 256;
    let d5 = d6 / 256;
    let d4 = d5 / 256;
    let d3 = d4 / 256;
    let d2 = d3 / 256;
    let d1 = d2 / 256;
    let d0 = d1 / 256;
    let shifted = if k == 0 {
        d0
    } else if k == 1 {
        d1
    } else if k == 2 {
        d2
    } else if k == 3 {
        d3
    } else if k == 4 {
        d4
    } else if k == 5 {
        d5
    } else if k == 6 {
        d6
    } else {
        d7
    };
    (shifted % 256) as u8
}

/// The number that eight big-endian bytes stand for.
pub open spec fn bytes_value(b: Seq<u8>) -> int
    recommends
        b.len() == 8,
{
    b[0] * 0x100_0000_0000_0000 + b[1] * 0x1_0000_0000_0000 + b[2] * 0x100_0000_0000 + b[3]
        * 0x1_0000_0000 + b[4] * 0x100_0000 + b[5] * 0x1_0000 + b[6] * 0x100 + b[7]
}

/// The wire form of a token sequence: eight big-endian bytes per token, in order.
pub open spec fn tokens_as_bytes(tokens: Seq<Token>) -> Seq<u8> {
    Seq::new(8 * tokens.len(), |j: int| token_byte(tokens[j / 8], j % 8))
}

/// The eight bytes of token `k` in a wire-form byte string.
pub open spec fn token_group(bytes: Seq<u8>, k: int) -> Seq<u8> {
    bytes.subrange(8 * k, 8 * k + 8)
}

/// Whether `bytes` is the wire form of some token sequence.
pub open spec fn is_token_stream(bytes: Seq<u8>) -> bool {
    &&& bytes.len() % 8 == 0
    &&& forall|k: int|
        0 <= k < bytes.len() / 8 ==> bytes_value(#[trigger] token_group(bytes, k)) <= usize::MAX
}

/// A token is the value of its own eight bytes.
pub proof fn lemma_token_value(t: Token)
    ensures
        bytes_value(Seq::new(8, |k: int| token_byte(t, k))) == t,
{
    let d7 = t as int;
    let d6 = d7 / 256;
    let d5 = d6 / 256;
    let d4 = d5 / 256;
    let d3 = d4 / 256;
    let d2 = d3 / 256;
    let d1 = d2 / 256;
    let d0 = d1 / 256;
    assert(0 <= d7 <= 0xffff_ffff_ffff_ffff);
    assert(d0 < 256);
    let g = Seq::new(8, |k: int| token_byte(t, k));
    assert(g[0] == d0 && g[1] == d1 % 256 && g[2] == d2 % 256 && g[3] == d3 % 256);
    assert(g[4] == d4 % 256 && g[5] == d5 % 256 && g[6] == d6 % 256 && g[7] == d7 % 256);
}

/// Eight bytes are the bytes of the value they stand for.
pub proof fn lemma_value_bytes(b: Seq<u8>, t: Token)
    requires
        b.len() == 8,
        bytes_value(b) == t,
    ensures
        forall|k: int| 0 <= k < 8 ==> token_byte(t, k) == #[trigger] b[k],
{
    let d7 = t as int;
    let d6 = d7 / 256;
    let d5 = d6 / 256;
    let d4 = d5 / 256;
    let d3 = d4 / 256;
    let d2 = d3 / 256;
    let d1 = d2 / 256;
    let d0 = d1 / 256;
    assert(d6 == b[0] * 0x1_0000_0000_0000 + b[1] * 0x100_0000_0000 + b[2] * 0x1_0000_0000 + b[3]
        * 0x100_0000 + b[4] * 0x1_0000 + b[5] * 0x100 + b[6]);
    assert(d5 == b[0] * 0x100_0000_0000 + b[1] * 0x1_0000_0000 + b[2] * 0x100_0000 + b[3]
        * 0x1_0000 + b[4] * 0x100 + b[5]);
    assert(d4 == b[0] * 0x1_0000_0000 + b[1] * 0x100_0000 + b[2] * 0x1_0000 + b[3] * 0x100
        + b[4]);
    assert(d3 == b[0] * 0x100_0000 + b[1] * 0x1_0000 + b[2] * 0x100 + b[3]);
    assert(d2 == b[0] * 0x1_0000 + b[1] * 0x100 + b[2]);
    assert(d1 == b[0] * 0x100 + b[1]);
    assert(d0 == b[0]);
}

/// Two token sequences with the same wire form are the same sequence.
pub proof fn lemma_wire_form_injective(a: Seq<Token>, b: Seq<Token>)
    requires
        tokens_as_bytes(a) == tokens_as_bytes(b),
    ensures
        a == b,
{
    assert(tokens_as_bytes(a).len() == 8 * a.len());
    assert(tokens_as_bytes(b).len() == 8 * b.len());
    assert(a.len() == b.len());
    assert forall|i: int| 0 <= i < a.len() implies a[i] == b[i] by {
        lemma_token_value(a[i]);
        lemma_token_value(b[i]);
        let ga = Seq::new(8, |k: int| token_byte(a[i], k));
        let gb = Seq::new(8, |k: int| token_byte(b[i], k));
        assert forall|k: int| 0 <= k < 8 implies ga[k] == gb[k] by {
            let j = 8 * i + k;
            assert(j / 8 == i && j % 8 == k);
            assert(tokens_as_bytes(a)[j] == token_byte(a[i], k));
            assert(tokens_as_bytes(b)[j] == token_byte(b[i], k));
        }
        assert(ga =~= gb);
    }
    assert(a =~= b);
}

/// Encodes each token as eight big-endian bytes.
pub fn tokens_to_bytes(tokens: &Vec<Token>) -> (bytes: Vec<u8>)
    ensures
        bytes@ == tokens_as_bytes(tokens@),
        bytes.len() == BYTES_PER_TOKEN * tokens.len(),
{
    let mut bytes: Vec<u8> = Vec::new();
    let mut i: usize = 0;
    while i < tokens.len()
        invariant
            i <= tokens.len(),
            bytes@ == tokens_as_bytes(tokens@.take(i as int)),
        decreases tokens.len() - i,
    {
        let t: u64 = tokens[i] as u64;
        let ghost before = bytes@;
        let d6: u64 = t / 256;
        let d5: u64 = d6 / 256;
        let d4: u64 = d5 / 256;
        let d3: u64 = d4 / 256;
        let d2: u64 = d3 / 256;
        let d1: u64 = d2 / 256;
        let d0: u64 = d1 / 256;
        bytes.push((d0 % 256) as u8);
        bytes.push((d1 % 256) as u8);
        bytes.push((d2 % 256) as u8);
        bytes.push((d3 % 256) as u8);
        bytes.push((d4 % 256) as u8);
        bytes.push((d5 % 256) as u8);
        bytes.push((d6 % 256) as u8);
        bytes.push((t % 256) as u8);
        proof {
            let next = tokens@.take(i + 1);
            let want = tokens_as_bytes(next);
            assert(bytes@.len() == want.len());
            assert forall|j: int| 0 <= j < want.len() implies bytes@[j] == want[j] by {
                if j < 8 * i {
                    assert(bytes@[j] == before[j]);
                    assert(next[j / 8] == tokens@.take(i as int)[j / 8]);
                } else {
                    assert(j / 8 == i);
                    assert(next[j / 8] == tokens@[i as int]);
                }
            }
            assert(bytes@ =~= want);
        }
        i += 1;
    }
    proof {
        assert(tokens@.take(tokens.len() as int) =~= tokens@);
    }
    bytes
}

/// The number that the eight bytes from `at` on stand for.
fn read_group(bytes: &Vec<u8>, at: usize) -> (value: u64)
    requires
        at + 8 <= bytes.len(),
    ensures
        value == bytes_value(bytes@.subrange(at as int, at + 8)),
{
    let ghost group = bytes@.subrange(at as int, at + 8);
    assert(group[0] == bytes@[at as int] && group[1] == bytes@[at + 1] && group[2] == bytes@[at
        + 2] && group[3] == bytes@[at + 3]);
    assert(group[4] == bytes@[at + 4] && group[5] == bytes@[at + 5] && group[6] == bytes@[at
        + 6] && group[7] == bytes@[at + 7]);
    bytes[at] as u64 * 0x100_0000_0000_0000 + bytes[at + 1] as u64 * 0x1_0000_0000_0000 + bytes[at
        + 2] as u64 * 0x100_0000_0000 + bytes[at + 3] as u64 * 0x1_0000_0000 + bytes[at
        + 4] as u64 * 0x100_0000 + bytes[at + 5] as u64 * 0x1_0000 + bytes[at + 6] as u64 * 0x100
        + bytes[at + 7] as u64
}

/// Decoding one more group extends the decoded prefix by one token.
proof fn lemma_decoded_one_more(bytes: Seq<u8>, decoded: Seq<Token>, token: Token)
    requires
        8 * decoded.len() + 8 <= bytes.len(),
        tokens_as_bytes(decoded) == bytes.take(8 * (decoded.len() as int)),
        bytes_value(token_group(bytes, decoded.len() as int)) == token,
    ensures
        tokens_as_bytes(decoded.push(token)) == bytes.take(8 * (decoded.len() as int) + 8),
{
    let i = decoded.len() as int;
    let group = token_group(bytes, i);
    lemma_value_bytes(group, token);
    let want = bytes.take(8 * i + 8);
    let have = tokens_as_bytes(decoded.push(token));
    assert(have.len() == want.len());
    assert forall|j: int| 0 <= j < want.len() implies have[j] == want[j] by {
        if j < 8 * i {
            assert(j / 8 < i);
            assert(decoded.push(token)[j / 8] == decoded[j / 8]);
            assert(tokens_as_bytes(decoded)[j] == bytes.take(8 * i)[j]);
        } else {
            assert(j / 8 == i);
            assert(0 <= j % 8 < 8);
            assert(j == 8 * i + j % 8);
            assert(group[j % 8] == bytes[j]);
            assert(token_byte(token, j % 8) == group[j % 8]);
        }
    }
    assert(have =~= want);
}

/// Decodes a wire-form byte string: `None` unless the bytes are the wire form of
/// some token sequence, and then that sequence.
pub fn bytes_to_tokens(bytes: &Vec<u8>) -> (tokens: Option<Vec<Token>>)
    ensures
        tokens is Some <==> is_token_stream(bytes@),
        tokens matches Some(t) ==> tokens_as_bytes(t@) == bytes@,
        forall|t: Seq<Token>| bytes@ == tokens_as_bytes(t) ==> tokens is Some,
{
    proof {
        assert forall|t: Seq<Token>| bytes@ == tokens_as_bytes(t) implies is_token_stream(
            bytes@,
        ) by {
            lemma_wire_form_is_stream(t);
        }
    }
    if bytes.len() % 8 != 0 {
        return None;
    }
    let count: usize = bytes.len() / 8;
    let mut tokens: Vec<Token> = Vec::new();
    let mut i: usize = 0;
    proof {
        assert(tokens_as_bytes(tokens@) =~= bytes@.take(0));
    }
    while i < count
        invariant
            count == bytes.len() / 8,
            bytes.len() % 8 == 0,
            i <= count,
            tokens.len() == i,
            tokens_as_bytes(tokens@) == bytes@.take(8 * i),
            forall|k: int|
                0 <= k < i ==> bytes_value(#[trigger] token_group(bytes@, k)) <= usize::MAX,
        decreases count - i,
    {
        let value: u64 = read_group(bytes, 8 * i);
        if value > usize::MAX as u64 {
            assert(bytes_value(token_group(bytes@, i as int)) > usize::MAX);
            return None;
        }
        let token: Token = value as usize;
        proof {
            lemma_decoded_one_more(bytes@, tokens@, token);
        }
        tokens.push(token);
        i += 1;
    }
    proof {
        assert(bytes@.take(8 * count) =~= bytes@);
    }
    Some(tokens)
}

/// `count` tokens drawn at random from below the largest token of the
/// standard vocabulary.
pub fn random_tokens(count: usize) -> (tokens: Vec<Token>)
    ensures
        tokens.len() == count,
        forall|i: int| 0 <= i < count ==> #[trigger] tokens@[i] < MAX_TOKEN,
{
    let mut rng = random::fresh_generator();
    let mut tokens: Vec<Token> = Vec::new();
    let mut i: usize = 0;
    while i < count
        invariant
            i <= count,
            tokens.len() == i,
            forall|k: int| 0 <= k < i ==> #[trigger] tokens@[k] < MAX_TOKEN,
        decreases count - i,
    {
        tokens.push(random::random_in_range(&mut rng, 0, MAX_TOKEN));
        i += 1;
    }
    tokens
}

/// The wire form of any token sequence is a token stream.
pub proof fn lemma_wire_form_is_stream(t: Seq<Token>)
    ensures
        is_token_stream(tokens_as_bytes(t)),
{
    let bytes = tokens_as_bytes(t);
    assert forall|k: int| 0 <= k < bytes.len() / 8 implies bytes_value(
        #[trigger] token_group(bytes, k),
    ) <= usize::MAX by {
        lemma_token_value(t[k]);
        let g = Seq::new(8, |m: int| token_byte(t[k], m));
        assert forall|m: int| 0 <= m < 8 implies token_group(bytes, k)[m] == g[m] by {
            let j = 8 * k + m;
            assert(j / 8 == k && j % 8 == m);
        }
        assert(token_group(bytes, k) =~= g);
    }
}

} // verus!
