//! 0/1 knapsack problems for branch and bound.

use vstd::prelude::*;

verus! {

/// 0/1 Knapsack problem; `F` is the number type of values, weights and
/// capacity.
pub struct Knapsack<F> {
    pub values: Vec<F>,
    pub weights: Vec<F>,
    pub capacity: F,
}

impl<F> Knapsack<F> {
    /// A knapsack problem with one value and one weight per item.
    pub fn new(values: Vec<F>, weights: Vec<F>, capacity: F) -> (problem: Self)
        requires
            values@.len() == weights@.len(),
        ensures
            problem.values@ == values@,
            problem.weights@ == weights@,
            problem.capacity == capacity,
    {
        Knapsack { values, weights, capacity }
    }
}

/// Solution to a knapsack problem.
#[derive(Debug, Clone)]
pub struct KnapsackSolution<F> {
    pub items: Vec<i64>,
    pub total_value: F,
    pub total_weight: F,
}

} // verus!
