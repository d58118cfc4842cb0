//! Calls into the `itertools` crate and into parts of `std` that carry no
//! specification.
//!
//! Verus does not look inside the functions of this module: it takes each
//! contract as given. Everything else in the crate is proved from them.

use itertools::Itertools;
use vstd::prelude::*;

verus! {

/// Whether `keys[i]` differs from every key before it.
pub open spec fn is_first_occurrence(keys: Seq<Vec<char>>, i: int) -> bool {
    forall|j: int| 0 <= j < i ==> keys[j]@ != keys[i]@
}

/// `Itertools::collect_vec` on the characters of `line`.
///
/// `collect_vec` gathers what an iterator yields into a vector, in order, so
/// the result holds the characters of `line` from first to last.
#[verifier::external_body]
pub(crate) fn collect_vec(line: &str) -> (r: Vec<char>)
    ensures
        r@ == line@,
{
    line.chars().collect_vec()
}

/// `Itertools::all_unique` on the characters of `line`.
///
/// It answers whether no two of the yielded items are equal; an iterator
/// that yields nothing counts as all unique.
#[verifier::external_body]
pub(crate) fn all_unique(line: &str) -> (b: bool)
    ensures
        b == line@.no_duplicates(),
{
    line.chars().all_unique()
}

/// `Itertools::sorted` on the characters of `line`.
///
/// It sorts all that the iterator yields into ascending order: the result
/// holds the same characters as `line`, each as often, smallest first.
#[verifier::external_body]
pub(crate) fn sorted(line: &str) -> (r: Vec<char>)
    ensures
        r@.to_multiset() == line@.to_multiset(),
        forall|i: int, j: int| 0 <= i <= j < r@.len() ==> r@[i] <= r@[j],
{
    line.chars().sorted().collect()
}

/// `Itertools::unique_by` on the positions of `keys`, keyed by the key at
/// each position.
///
/// `unique_by` passes on, in their order, the items whose key was not seen
/// before, so of several items with one key the first stays. The result
/// lists, ascending, the positions whose key differs from every earlier key.
#[verifier::external_body]
pub(crate) fn unique_by(keys: &Vec<Vec<char>>) -> (r: Vec<usize>)
    ensures
        forall|k: int|
            0 <= k < r@.len() ==> r@[k] < keys@.len() && is_first_occurrence(
                keys@,
                #[trigger] r@[k] as int,
            ),
        forall|k: int, l: int| 0 <= k < l < r@.len() ==> r@[k] < r@[l],
        forall|i: int|
            0 <= i < keys@.len() && #[trigger] is_first_occurrence(keys@, i) ==> r@.contains(
                i as usize,
            ),
{
    keys.iter().enumerate().unique_by(|p| p.1).map(|p| p.0).collect()
}

/// `String::from_iter` on `letters`: the string made of them, in order.
#[verifier::external_body]
pub(crate) fn collect_string(letters: &Vec<char>) -> (s: String)
    ensures
        s@ == letters@,
{
    String::from_iter(letters)
}

} // verus!
