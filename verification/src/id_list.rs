//! Short lists of numbers, most often of one.

use itertools::Itertools;
use smallvec::SmallVec;
use vstd::prelude::*;

verus! {

/// A list of numbers that holds the first one in place: a `smallvec::SmallVec`,
/// of which nothing is claimed but what the functions below say.
#[verifier::external_body]
pub struct NumberList {
    items: SmallVec<[usize; 1]>,
}

/// The numbers in a list, in order.
pub uninterp spec fn numbers(list: NumberList) -> Seq<usize>;

/// Whether each number is at most the next.
pub open spec fn is_ascending(items: Seq<usize>) -> bool {
    forall|i: int, j: int| 0 <= i < j < items.len() ==> items[i] <= items[j]
}

/// The items without those that equal the one before them.
pub open spec fn deduped(items: Seq<usize>) -> Seq<usize>
    decreases items.len(),
{
    if items.len() == 0 {
        seq![]
    } else {
        let front = deduped(items.drop_last());
        if items.len() > 1 && items[items.len() - 2] == items.last() {
            front
        } else {
            front.push(items.last())
        }
    }
}

/// Collects numbers into a list.
///
/// `SmallVec`'s `FromIterator` extends an empty list by the items, one after the
/// other: the contract claims that the list holds them in order.
#[verifier::external_body]
pub(crate) fn collect_numbers(items: &Vec<usize>) -> (r: NumberList)
    ensures
        numbers(r) == items@,
{
    NumberList { items: items.iter().copied().collect() }
}

/// Sorts a list.
///
/// `SmallVec` dereferences to the slice of its items, and `slice::sort_unstable`
/// is documented to sort that slice: the contract claims that the same numbers
/// are there, in ascending order.
#[verifier::external_body]
pub(crate) fn sort_numbers(list: &mut NumberList)
    ensures
        numbers(*final(list)).to_multiset() == numbers(*old(list)).to_multiset(),
        is_ascending(numbers(*final(list))),
{
    list.items.sort_unstable();
}

/// The last number of a list.
///
/// `SmallVec` dereferences to the slice of its items: the contract claims that
/// `last` gives the last of them, or `None` where there is none.
#[verifier::external_body]
pub(crate) fn last_number(list: &NumberList) -> (r: Option<usize>)
    ensures
        r == if numbers(*list).len() == 0 {
            None
        } else {
            Some(numbers(*list).last())
        },
{
    list.items.last().copied()
}

/// Takes the last number off a list.
///
/// `SmallVec::pop` removes the last item and returns it, or returns `None` where
/// there is none: the contract claims that.
#[verifier::external_body]
pub(crate) fn pop_number(list: &mut NumberList) -> (r: Option<usize>)
    ensures
        numbers(*old(list)).len() == 0 ==> r is None && numbers(*final(list)) == numbers(
            *old(list),
        ),
        numbers(*old(list)).len() > 0 ==> r == Some(numbers(*old(list)).last()) && numbers(
            *final(list),
        ) == numbers(*old(list)).drop_last(),
{
    list.items.pop()
}

/// The numbers of a list without those that equal the one before them.
///
/// `Itertools::dedup` is documented to remove all but the first of each section
/// of consecutive identical items: the contract claims that of the list's items,
/// which `SmallVec`'s `into_iter` yields in order.
#[verifier::external_body]
pub(crate) fn dedup_numbers(list: NumberList) -> (r: Vec<usize>)
    ensures
        r@ == deduped(numbers(list)),
{
    list.items.into_iter().dedup().collect()
}

} // verus!
