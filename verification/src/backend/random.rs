//! What differs from call to call: randomness, drawn from the generators of
//! `rand`, and the time of day.

use std::fmt::Write;
use vstd::prelude::*;

verus! {

/// The generator of `rand` that can be seeded. A generator that was seeded
/// with a number gives the same numbers whenever it is seeded with that
/// number again.
#[verifier::external_type_specification]
#[verifier::external_body]
pub struct ExStdRng(rand::rngs::StdRng);

/// Calls `rand::SeedableRng::from_entropy` for a generator that is seeded
/// from the system. Nothing is known of the generator.
#[verifier::external_body]
pub(crate) fn fresh_generator() -> rand::rngs::StdRng {
    rand::SeedableRng::from_entropy()
}

/// Calls `rand::seq::SliceRandom::shuffle` with the generator.
///
/// Trusted: the shuffle only reorders; which order comes out is left open.
#[verifier::external_body]
pub(crate) fn shuffle_items<T>(items: &mut Vec<T>, rng: &mut rand::rngs::StdRng)
    ensures
        final(items)@.to_multiset() == old(items)@.to_multiset(),
{
    rand::seq::SliceRandom::shuffle(items.as_mut_slice(), rng);
}

/// Calls `rand::Rng::gen_range` on the generator with the half-open range
/// from `low` to `high`.
///
/// Trusted: the number drawn lies in the range; `gen_range` panics on an empty
/// range, which `requires` leaves out.
#[verifier::external_body]
pub(crate) fn random_in_range(rng: &mut rand::rngs::StdRng, low: usize, high: usize) -> (drawn:
    usize)
    requires
        low < high,
    ensures
        low <= drawn < high,
{
    rand::Rng::gen_range(rng, low..high)
}

/// Calls `rand::random` for one number of the size of a token. Nothing is
/// known of the number.
#[verifier::external_body]
pub(crate) fn random_token() -> usize {
    rand::random::<usize>()
}

/// Calls `chrono::Local::now` and writes the time as `format` lays it out, or
/// gives `None` where chrono cannot read the format. Nothing is known of the
/// text: it is the time of the call.
#[verifier::external_body]
pub(crate) fn local_time(format: &str) -> Option<String> {
    let mut text = String::new();
    write!(text, "{}", chrono::Local::now().format(format)).ok()?;
    Some(text)
}

} // verus!
