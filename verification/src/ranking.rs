//! Ordering subscriptions by their entry counts, highest first, with
//! `itertools`' stable sort.

use std::cmp::Ordering;

use itertools::Itertools;
use vstd::prelude::*;

verus! {

/// Orders two (count, position) pairs so that the higher count comes first.
pub fn compare_counts_descending(x: &(u64, usize), y: &(u64, usize)) -> (o: Ordering)
    ensures
        (o == Ordering::Less) == (x.0 > y.0),
        (o == Ordering::Equal) == (x.0 == y.0),
        (o == Ordering::Greater) == (x.0 < y.0),
{
    if y.0 < x.0 {
        Ordering::Less
    } else if y.0 == x.0 {
        Ordering::Equal
    } else {
        Ordering::Greater
    }
}

/// `Itertools::sorted_by` with `compare_counts_descending`: the same pairs,
/// highest count first. The sort is stable (as itertools documents it), so
/// pairs with equal counts keep the order they had in `keys`.
#[verifier::external_body]
pub(crate) fn sorted_by_count_descending(keys: Vec<(u64, usize)>) -> (r: Vec<(u64, usize)>)
    ensures
        r@.len() == keys@.len(),
        r@.to_multiset() == keys@.to_multiset(),
        forall|i: int| 0 <= i < r@.len() ==> keys@.contains(#[trigger] r@[i]),
        forall|j: int| 0 <= j < keys@.len() ==> r@.contains(#[trigger] keys@[j]),
        forall|i: int, j: int| 0 <= i < j < r@.len() ==> #[trigger] r@[i].0 >= #[trigger] r@[j].0,
        forall|i: int, j: int|
            0 <= i < j < r@.len() && #[trigger] r@[i].0 == #[trigger] r@[j].0 ==> exists|p: int, q: int|
                0 <= p < q < keys@.len() && #[trigger] keys@[p] == r@[i] && #[trigger] keys@[q] == r@[j],
{
    keys.into_iter().sorted_by(|x, y| compare_counts_descending(x, y)).collect()
}

} // verus!
