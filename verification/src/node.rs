//! Branch and bound node representation.

use vstd::prelude::*;

verus! {

/// Status of a node in the search tree.
#[derive(Clone, Debug, PartialEq, Eq, Structural)]
pub enum NodeStatus {
    /// Not yet explored.
    Pending,
    /// Currently being explored.
    Active,
    /// Fully explored.
    Explored,
    /// Pruned (not worth exploring).
    Pruned,
    /// Infeasible (violates constraints).
    Infeasible,
}

/// A node in the branch and bound search tree.
///
/// `B` is the type in which the node's bound is held.
#[derive(Clone, Debug)]
pub struct BNode<B> {
    /// Level/depth in the search tree.
    pub level: usize,
    /// Partial solution (decisions made so far).
    pub partial: Vec<Option<i64>>,
    /// Lower bound on objective value for this subtree.
    pub bound: B,
    /// Status of this node.
    pub status: NodeStatus,
}

/// The partial solution `p` with variable `idx` fixed to `v`. When `p` is
/// shorter than `idx + 1`, it is first extended with undecided positions.
pub open spec fn with_decision(p: Seq<Option<i64>>, idx: int, v: i64) -> Seq<Option<i64>> {
    let len: int = if p.len() > idx { p.len() as int } else { idx + 1 };
    Seq::new(
        len as nat,
        |i: int|
            if i == idx {
                Some(v)
            } else if i < p.len() {
                p[i]
            } else {
                None
            },
    )
}

/// Every position of the partial solution carries a decision.
pub open spec fn all_decided(p: Seq<Option<i64>>) -> bool {
    forall|i: int| 0 <= i < p.len() ==> p[i] is Some
}

/// The decided value, or 0 for an undecided position.
pub open spec fn value_or_zero(x: Option<i64>) -> i64 {
    match x {
        Some(v) => v,
        None => 0,
    }
}

/// A copy of `p` with variable `idx` fixed to `v`.
fn decided_copy(p: &Vec<Option<i64>>, idx: usize, v: i64) -> (r: Vec<Option<i64>>)
    requires
        idx < usize::MAX,
    ensures
        r@ == with_decision(p@, idx as int, v),
{
    let mut r: Vec<Option<i64>> = Vec::new();
    let mut i: usize = 0;
    while i < p.len()
        invariant
            i <= p@.len(),
            r@ == p@.subrange(0, i as int),
        decreases p@.len() - i,
    {
        r.push(p[i]);
        i += 1;
    }
    assert(r@ == p@);
    while r.len() <= idx
        invariant
            idx < usize::MAX,
            r@.len() >= p@.len(),
            r@.len() <= (if p@.len() > idx { p@.len() as int } else { idx + 1 }),
            forall|j: int| 0 <= j < p@.len() ==> r@[j] == p@[j],
            forall|j: int| p@.len() <= j < r@.len() ==> r@[j] is None,
        decreases idx + 1 - r@.len(),
    {
        r.push(None);
    }
    r.set(idx, Some(v));
    assert(r@ =~= with_decision(p@, idx as int, v));
    r
}

impl<B> BNode<B> {
    /// A pending node at the given level.
    pub fn new(level: usize, partial: Vec<Option<i64>>, bound: B) -> (node: Self)
        ensures
            node.level == level,
            node.partial@ == partial@,
            node.bound == bound,
            node.status == NodeStatus::Pending,
    {
        BNode { level, partial, bound, status: NodeStatus::Pending }
    }

    /// Check if this node represents a complete solution.
    pub fn is_complete(&self, total_vars: usize) -> (r: bool)
        ensures
            r == (self.partial@.len() == total_vars && all_decided(self.partial@)),
    {
        if self.partial.len() != total_vars {
            return false;
        }
        let mut i: usize = 0;
        while i < self.partial.len()
            invariant
                i <= self.partial@.len(),
                forall|j: int| 0 <= j < i ==> self.partial@[j] is Some,
            decreases self.partial@.len() - i,
        {
            if self.partial[i].is_none() {
                return false;
            }
            i += 1;
        }
        true
    }

    /// The values of the decisions, with 0 for undecided positions.
    pub fn decisions(&self) -> (sol: Vec<i64>)
        ensures
            sol@.len() == self.partial@.len(),
            forall|i: int| 0 <= i < sol@.len() ==> sol@[i] == value_or_zero(self.partial@[i]),
    {
        let mut sol: Vec<i64> = Vec::new();
        let mut i: usize = 0;
        while i < self.partial.len()
            invariant
                i <= self.partial@.len(),
                sol@.len() == i,
                forall|j: int| 0 <= j < i ==> sol@[j] == value_or_zero(self.partial@[j]),
            decreases self.partial@.len() - i,
        {
            let v: i64 = match self.partial[i] {
                Some(v) => v,
                None => 0,
            };
            sol.push(v);
            i += 1;
        }
        sol
    }
}

impl<B: Default> BNode<B> {
    /// Branch: create two child nodes by fixing variable `var_idx`, to 0 in
    /// the first child and to 1 in the second. Both children get the
    /// default bound of `B` (0.0 for `f64`).
    pub fn branch(&self, var_idx: usize, _var_count: usize) -> (children: (BNode<B>, BNode<B>))
        requires
            self.level < usize::MAX,
            var_idx < usize::MAX,
        ensures
            children.0.level == self.level + 1,
            children.1.level == self.level + 1,
            children.0.partial@ == with_decision(self.partial@, var_idx as int, 0),
            children.1.partial@ == with_decision(self.partial@, var_idx as int, 1),
            children.0.status == NodeStatus::Pending,
            children.1.status == NodeStatus::Pending,
            call_ensures(B::default, (), children.0.bound),
            call_ensures(B::default, (), children.1.bound),
    {
        let left_partial = decided_copy(&self.partial, var_idx, 0);
        let left = BNode::new(self.level + 1, left_partial, B::default());
        let right_partial = decided_copy(&self.partial, var_idx, 1);
        let right = BNode::new(self.level + 1, right_partial, B::default());
        (left, right)
    }
}

} // verus!

verus! {

/// A node is complete exactly when it decides all `total_vars` variables:
/// its partial solution has that length and no position is undecided. In
/// particular an undecided position anywhere makes the node incomplete.
pub proof fn law_is_complete<B>(node: BNode<B>, total_vars: usize, r: bool)
    requires
        call_ensures(BNode::<B>::is_complete, (&node, total_vars), r),
    ensures
        r <==> (node.partial@.len() == total_vars && forall|i: int|
            0 <= i < node.partial@.len() ==> #[trigger] node.partial@[i] is Some),
        forall|i: int| 0 <= i < node.partial@.len() && #[trigger] node.partial@[i] is None ==> !r,
{
}

} // verus!

verus! {

/// Branching on `var_idx` yields two children one level deeper that differ
/// from the parent only in variable `var_idx`, fixed to 0 in the first and
/// to 1 in the second; a parent shorter than `var_idx + 1` is extended with
/// undecided positions, and the children are pending.
pub proof fn law_branch<B: Default>(
    node: BNode<B>,
    var_idx: usize,
    var_count: usize,
    children: (BNode<B>, BNode<B>),
)
    requires
        call_ensures(BNode::<B>::branch, (&node, var_idx, var_count), children),
    ensures
        children.0.level == node.level + 1,
        children.1.level == node.level + 1,
        children.0.status == NodeStatus::Pending,
        children.1.status == NodeStatus::Pending,
        children.0.partial@.len() == children.1.partial@.len(),
        children.0.partial@.len() == if node.partial@.len() > var_idx {
            node.partial@.len() as int
        } else {
            var_idx + 1
        },
        children.0.partial@[var_idx as int] == Some(0i64),
        children.1.partial@[var_idx as int] == Some(1i64),
        forall|i: int|
            0 <= i < node.partial@.len() && i != var_idx ==> #[trigger] children.0.partial@[i]
                == node.partial@[i] && children.1.partial@[i] == node.partial@[i],
        forall|i: int|
            node.partial@.len() <= i < children.0.partial@.len() && i != var_idx
                ==> #[trigger] children.0.partial@[i] is None && children.1.partial@[i] is None,
{
}

/// The decisions of a node have one value per position: the decided value
/// where there is one, 0 where the position is undecided.
pub proof fn law_decisions<B>(node: BNode<B>, sol: Vec<i64>)
    requires
        call_ensures(BNode::<B>::decisions, (&node,), sol),
    ensures
        sol@.len() == node.partial@.len(),
        forall|i: int|
            0 <= i < sol@.len() && #[trigger] node.partial@[i] is Some ==> sol@[i]
                == node.partial@[i].unwrap(),
        forall|i: int| 0 <= i < sol@.len() && #[trigger] node.partial@[i] is None ==> sol@[i] == 0,
{
    assert forall|i: int| 0 <= i < sol@.len() && #[trigger] node.partial@[i] is Some implies sol@[i]
        == node.partial@[i].unwrap() by {
        assert(sol@[i] == value_or_zero(node.partial@[i]));
    }
    assert forall|i: int| 0 <= i < sol@.len() && #[trigger] node.partial@[i] is None implies sol@[i] == 0 by {
        assert(sol@[i] == value_or_zero(node.partial@[i]));
    }
}

} // verus!
