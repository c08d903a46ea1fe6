//! Integer programming problems for branch and bound.

use vstd::prelude::*;

verus! {

/// Node selection strategy.
#[derive(Clone)]
pub enum NodeSelection {
    /// Depth-first search.
    DFS,
    /// Breadth-first search.
    BFS,
    /// Best-first (highest bound).
    BestFirst,
}

/// Integer programming problem; `F` is the number type of the objective
/// and constraint coefficients.
pub struct IntegerProgram<F> {
    /// Objective coefficients (maximize c^T x).
    pub coefficients: Vec<F>,
    /// Constraint matrix (Ax <= b).
    pub constraints: Vec<(Vec<F>, F)>,
    /// Variable bounds (lower, upper) for each variable.
    pub var_bounds: Vec<(i64, i64)>,
}

/// Some variable among the first `sol.len()` lies outside its bounds.
pub open spec fn violates_var_bounds(sol: Seq<i64>, var_bounds: Seq<(i64, i64)>) -> bool {
    exists|i: int|
        0 <= i < sol.len() && i < var_bounds.len() && !(var_bounds[i].0 <= #[trigger] sol[i]
            <= var_bounds[i].1)
}

impl<F> IntegerProgram<F> {
    /// Create a simple binary integer program: every variable ranges over 0 and 1.
    pub fn binary(coefficients: Vec<F>, constraints: Vec<(Vec<F>, F)>) -> (program: Self)
        ensures
            program.coefficients@ == coefficients@,
            program.constraints@ == constraints@,
            program.var_bounds@ == Seq::new(coefficients@.len(), |i: int| (0i64, 1i64)),
    {
        let n: usize = coefficients.len();
        let mut var_bounds: Vec<(i64, i64)> = Vec::new();
        let mut i: usize = 0;
        while i < n
            invariant
                i <= n,
                var_bounds@ == Seq::new(i as nat, |j: int| (0i64, 1i64)),
            decreases n - i,
        {
            var_bounds.push((0i64, 1i64));
            i += 1;
            assert(var_bounds@ =~= Seq::new(i as nat, |j: int| (0i64, 1i64)));
        }
        IntegerProgram { coefficients, constraints, var_bounds }
    }

    /// Whether every value of `sol` lies within its variable's bounds.
    ///
    /// The values are checked in order; a solution with more values than
    /// there are variable bounds is admitted only when a value within the
    /// bounded range already fails.
    pub fn within_var_bounds(&self, sol: &[i64]) -> (r: bool)
        requires
            sol@.len() <= self.var_bounds@.len() || violates_var_bounds(sol@, self.var_bounds@),
        ensures
            r == !violates_var_bounds(sol@, self.var_bounds@),
            r ==> sol@.len() <= self.var_bounds@.len(),
    {
        let mut i: usize = 0;
        while i < sol.len()
            invariant
                i <= sol@.len(),
                sol@.len() <= self.var_bounds@.len() || violates_var_bounds(sol@, self.var_bounds@),
                forall|j: int|
                    0 <= j < i ==> j < self.var_bounds@.len() && self.var_bounds@[j].0 <= #[trigger] sol@[j]
                        <= self.var_bounds@[j].1,
            decreases sol@.len() - i,
        {
            if i >= self.var_bounds.len() {
                assert(false);
            }
            let (lo, hi) = self.var_bounds[i];
            if sol[i] < lo || sol[i] > hi {
                assert(violates_var_bounds(sol@, self.var_bounds@));
                return false;
            }
            i += 1;
        }
        true
    }
}

} // verus!

verus! {

/// A solution is within the variable bounds exactly when it has at most one
/// value per variable and each value lies between the lower and the upper
/// bound of its own variable.
pub proof fn law_within_var_bounds<F>(program: IntegerProgram<F>, sol: &[i64], r: bool)
    requires
        call_ensures(IntegerProgram::<F>::within_var_bounds, (&program, sol), r),
    ensures
        r <==> forall|i: int|
            0 <= i < sol@.len() ==> i < program.var_bounds@.len() && program.var_bounds@[i].0
                <= #[trigger] sol@[i] <= program.var_bounds@[i].1,
        forall|i: int|
            0 <= i < sol@.len() && i < program.var_bounds@.len() && (#[trigger] sol@[i]
                < program.var_bounds@[i].0 || sol@[i] > program.var_bounds@[i].1) ==> !r,
{
    if r {
        assert forall|i: int| 0 <= i < sol@.len() implies i < program.var_bounds@.len()
            && program.var_bounds@[i].0 <= #[trigger] sol@[i] <= program.var_bounds@[i].1 by {
            if !(program.var_bounds@[i].0 <= sol@[i] <= program.var_bounds@[i].1) {
                assert(violates_var_bounds(sol@, program.var_bounds@));
            }
        }
    }
}

} // verus!
