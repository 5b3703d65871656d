//! Draws from a random number generator.

use rand::rngs::StdRng;
use rand::seq::{IteratorRandom, SliceRandom};
use rand::Rng;
use vstd::prelude::*;

use crate::excerpt::ExcerptId;

verus! {

/// Makes `rand`'s standard generator known. Nothing is claimed of what is inside.
#[verifier::external_type_specification]
#[verifier::external_body]
pub struct ExStdRng(StdRng);

/// Draws a number from `low` to `high`.
///
/// `Rng::gen_range` of an inclusive range panics where the range is empty, and
/// else returns a number of it: the contract claims that the number lies in the
/// range, and not which it is.
#[verifier::external_body]
pub(crate) fn gen_range(rng: &mut StdRng, low: usize, high: usize) -> (r: usize)
    requires
        low <= high,
    ensures
        low <= r <= high,
{
    rng.gen_range(low..=high)
}

/// Draws whether something with a chance of `numerator` in `denominator` happens.
///
/// `Rng::gen_ratio` panics where the denominator is 0 or less than the numerator.
/// It is documented to return `true` where the two are equal and `false` where the
/// numerator is 0, and the contract claims that. Else either may come.
#[verifier::external_body]
pub(crate) fn gen_ratio(rng: &mut StdRng, numerator: u32, denominator: u32) -> (r: bool)
    requires
        denominator > 0,
        numerator <= denominator,
    ensures
        numerator == denominator ==> r,
        numerator == 0 ==> !r,
{
    rng.gen_ratio(numerator, denominator)
}

/// Draws `true` or `false`.
///
/// `Rng::gen` for `bool` returns either: nothing is claimed.
#[verifier::external_body]
pub(crate) fn gen_bool(rng: &mut StdRng) -> (r: bool) {
    rng.gen()
}

/// Draws one of the numbers before `count`.
///
/// `IteratorRandom::choose` of a range returns `None` where the range is empty, and
/// else a number of it: the contract claims that, and not which number it is.
#[verifier::external_body]
pub(crate) fn choose_index(rng: &mut StdRng, count: usize) -> (r: Option<usize>)
    ensures
        r is None <==> count == 0,
        r matches Some(k) ==> k < count,
{
    (0..count).choose(rng)
}

/// Draws an identifier.
///
/// `SliceRandom::choose` returns `None` where the slice is empty, and else one of
/// its items: the contract claims that, and not which item it is.
#[verifier::external_body]
pub(crate) fn choose_id(rng: &mut StdRng, ids: &Vec<ExcerptId>) -> (r: Option<ExcerptId>)
    ensures
        r is None <==> ids@.len() == 0,
        r matches Some(id) ==> ids@.contains(id),
{
    ids.choose(rng).copied()
}

/// Draws several identifiers.
///
/// `SliceRandom::choose_multiple` is documented to choose items at random, without
/// repetition, and takes no more than there are: the contract claims how many there
/// are, that they come from the list, and that none comes twice from a list that
/// holds none twice.
#[verifier::external_body]
pub(crate) fn choose_ids(rng: &mut StdRng, ids: &Vec<ExcerptId>, amount: usize) -> (r: Vec<
    ExcerptId,
>)
    ensures
        r@.len() == if amount <= ids@.len() {
            amount as int
        } else {
            ids@.len() as int
        },
        forall|k: int| 0 <= k < r@.len() ==> ids@.contains(#[trigger] r@[k]),
        ids@.no_duplicates() ==> r@.no_duplicates(),
{
    ids.choose_multiple(rng, amount).copied().collect()
}

} // verus!
