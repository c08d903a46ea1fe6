//! Bounding functions for branch and bound.

use vstd::prelude::*;

verus! {

/// Fractional relaxation bound (for knapsack-type problems).
pub struct FractionalBound;

/// Simple LP relaxation bound using continuous variables.
pub struct LPRelaxationBound;

/// The positions among the first `limit` of `partial` whose variable is
/// fixed to 1, in increasing order: the items that a partial knapsack
/// solution has already packed.
pub fn fixed_items(partial: &[Option<i64>], limit: usize) -> (items: Vec<usize>)
    ensures
        forall|k: int|
            0 <= k < items@.len() ==> #[trigger] items@[k] < partial@.len() && items@[k] < limit
                && partial@[items@[k] as int] == Some(1i64),
        forall|k: int, l: int| 0 <= k < l < items@.len() ==> items@[k] < items@[l],
        forall|i: int|
            0 <= i < partial@.len() && i < limit && #[trigger] partial@[i] == Some(1i64)
                ==> items@.contains(i as usize),
{
    let end: usize = if partial.len() < limit {
        partial.len()
    } else {
        limit
    };
    let mut items: Vec<usize> = Vec::new();
    let mut i: usize = 0;
    while i < end
        invariant
            end <= partial@.len(),
            end <= limit,
            i <= end,
            forall|k: int|
                0 <= k < items@.len() ==> #[trigger] items@[k] < i && partial@[items@[k] as int]
                    == Some(1i64),
            forall|k: int, l: int| 0 <= k < l < items@.len() ==> items@[k] < items@[l],
            forall|j: int|
                0 <= j < i && #[trigger] partial@[j] == Some(1i64) ==> items@.contains(j as usize),
        decreases end - i,
    {
        let ghost before = items@;
        let fixed_to_one: bool = match partial[i] {
            Some(v) => v == 1,
            None => false,
        };
        if fixed_to_one {
            items.push(i);
            assert(items@[items@.len() - 1] == i);
        }
        assert forall|j: int| 0 <= j <= i && #[trigger] partial@[j] == Some(1i64) implies items@.contains(
            j as usize,
        ) by {
            if j < i {
                let k = choose|k: int| 0 <= k < before.len() && before[k] == j as usize;
                assert(items@[k] == j as usize);
            } else {
                assert(items@[items@.len() - 1] == j as usize);
            }
        }
        i += 1;
    }
    items
}

} // verus!
