//! Patterns on text and the stored form of a dataset, as the outside crates
//! see them.

use vstd::prelude::*;
use super::sequences::sentences;
use super::Token;

verus! {

/// What `regex` makes of `text` when every match of `pattern` is replaced by
/// `replacement`, or `None` where it cannot compile the pattern.
pub uninterp spec fn regex_replaced(
    pattern: Seq<char>,
    text: Seq<char>,
    replacement: Seq<char>,
) -> Option<Seq<char>>;

/// The MessagePack form, as `rmp_serde` writes it in its compact
/// representation, of a record whose one field is the list of sentences; `None`
/// where `rmp_serde` reports an error.
pub uninterp spec fn msgpack_of(data: Seq<Seq<Token>>) -> Option<Seq<u8>>;

/// The list of sentences that `rmp_serde` reads out of `bytes` as such a
/// record; `None` where it reports an error.
pub uninterp spec fn msgpack_data(bytes: Seq<u8>) -> Option<Seq<Seq<Token>>>;

/// The sentences in an optional list of token vectors.
pub open spec fn sentences_of(data: Option<Vec<Vec<Token>>>) -> Option<Seq<Seq<Token>>> {
    match data {
        Some(d) => Some(sentences(d@)),
        None => None,
    }
}

/// Whether the sentences can be stored: MessagePack counts the items of a
/// list in 32 bits, so that neither the sentences nor the tokens of one
/// sentence may be more than that holds.
pub open spec fn storable(data: Seq<Seq<Token>>) -> bool {
    &&& data.len() <= u32::MAX
    &&& forall|i: int| 0 <= i < data.len() ==> (#[trigger] data[i]).len() <= u32::MAX
}

/// Whether `data` is what must be read out of `bytes`: where `bytes` are the
/// MessagePack form of some sentences that can be stored, `data` is those
/// sentences.
pub open spec fn restores(bytes: Seq<u8>, data: Option<Seq<Seq<Token>>>) -> bool {
    forall|written: Seq<Seq<Token>>|
        storable(written) && #[trigger] msgpack_of(written) == Some(bytes) ==> data == Some(
            written,
        )
}

/// Compiles the pattern with `regex::Regex::new` and calls `replace_all`.
///
/// Trusted: whether the pattern compiles, and the text handed back, depend on
/// the pattern, the text and the replacement alone.
#[verifier::external_body]
pub(crate) fn replace_all(pattern: &str, text: &str, replacement: &str) -> (replaced: Option<
    String,
>)
    ensures
        match replaced {
            Some(r) => regex_replaced(pattern@, text@, replacement@) == Some(r@),
            None => regex_replaced(pattern@, text@, replacement@) is None,
        },
{
    let compiled = regex::Regex::new(pattern).ok()?;
    Some(compiled.replace_all(text, replacement).to_string())
}

/// Calls `rmp_serde::to_vec` on the one-field tuple that holds the sentences.
///
/// Trusted: whether this succeeds, and the bytes, depend on the sentences
/// alone. `rmp_serde` writes the length of a list in 32 bits whatever it is;
/// `requires` leaves out the lists whose length it would cut short.
#[verifier::external_body]
pub(crate) fn msgpack_encode(data: &Vec<Vec<Token>>) -> (bytes: Option<Vec<u8>>)
    requires
        storable(sentences(data@)),
    ensures
        match bytes {
            Some(b) => msgpack_of(sentences(data@)) == Some(b@),
            None => msgpack_of(sentences(data@)) is None,
        },
{
    rmp_serde::to_vec(&(data,)).ok()
}

/// Calls `rmp_serde::from_read` for a one-field tuple that holds the sentences.
///
/// Trusted: whether this succeeds, and the sentences, depend on the bytes
/// alone; and what `rmp_serde` wrote it reads back, so that bytes which are
/// the MessagePack form of some sentences that can be stored give those
/// sentences.
#[verifier::external_body]
pub(crate) fn msgpack_decode(bytes: &Vec<u8>) -> (data: Option<Vec<Vec<Token>>>)
    ensures
        match data {
            Some(d) => msgpack_data(bytes@) == Some(sentences(d@)),
            None => msgpack_data(bytes@) is None,
        },
        restores(bytes@, sentences_of(data)),
{
    let record: (Vec<Vec<Token>>,) = rmp_serde::from_read(bytes.as_slice()).ok()?;
    Some(record.0)
}

} // verus!
