//! The frontier of open nodes in a branch and bound search over 0/1
//! variables.
//!
//! A search starts from the root (no variable decided). Each round selects
//! an open node by the node-selection strategy; the caller evaluates it and
//! then either retires it (pruned, or a complete solution that has been
//! evaluated) or expands it into its two children, which fix the next
//! variable to 0 and to 1. The frontier keeps track, as ghost state, of the
//! complete assignments that lie below retired nodes.

use vstd::prelude::*;

use crate::integer_prog::NodeSelection;
use crate::node::{BNode, NodeStatus, value_or_zero};

verus! {

/// `a` assigns 0 or 1 to each of the `n` variables.
pub open spec fn is_assignment(a: Seq<i64>, n: nat) -> bool {
    a.len() == n && forall|j: int| 0 <= j < n ==> (#[trigger] a[j] == 0 || a[j] == 1)
}

/// The complete assignment `a` agrees with every decision of `p`.
pub open spec fn extends(a: Seq<i64>, p: Seq<Option<i64>>) -> bool {
    p.len() <= a.len() && forall|j: int| 0 <= j < p.len() ==> #[trigger] p[j] == Some(a[j])
}

/// `p` fixes its first `p.len()` variables, each to 0 or 1, out of `n`.
pub open spec fn is_decided_prefix(p: Seq<Option<i64>>, n: nat) -> bool {
    p.len() <= n && forall|j: int| 0 <= j < p.len() ==> (#[trigger] p[j] == Some(0i64) || p[j]
        == Some(1i64))
}

/// The complete assignments below the node with partial solution `p`.
pub open spec fn subtree(p: Seq<Option<i64>>, n: nat) -> Set<Seq<i64>> {
    Set::new(|a: Seq<i64>| is_assignment(a, n) && extends(a, p))
}

/// The bookkeeping of a search over `n` variables: open nodes `ps` and the
/// set `settled` of complete assignments below retired nodes. Every
/// complete assignment lies below exactly one open node or is settled,
/// never both.
pub open spec fn ledger(ps: Seq<Seq<Option<i64>>>, settled: Set<Seq<i64>>, n: nat) -> bool {
    &&& forall|i: int| 0 <= i < ps.len() ==> is_decided_prefix(#[trigger] ps[i], n)
    &&& forall|a: Seq<i64>| #[trigger] settled.contains(a) ==> is_assignment(a, n)
    &&& forall|a: Seq<i64>|
        is_assignment(a, n) && !#[trigger] settled.contains(a) ==> exists|i: int|
            0 <= i < ps.len() && #[trigger] extends(a, ps[i])
    &&& forall|a: Seq<i64>, i: int|
        0 <= i < ps.len() && settled.contains(a) ==> !#[trigger] extends(a, ps[i])
    &&& forall|a: Seq<i64>, i: int, j: int|
        0 <= i < ps.len() && 0 <= j < ps.len() && is_assignment(a, n) && #[trigger] extends(a, ps[i])
            && #[trigger] extends(a, ps[j]) ==> i == j
}

/// The children of `p` that fix its next variable, in push order.
pub open spec fn children_in_order(p: Seq<Option<i64>>, order: PushOrder) -> (
    Seq<Option<i64>>,
    Seq<Option<i64>>,
) {
    match order {
        PushOrder::ZeroFirst => (p.push(Some(0i64)), p.push(Some(1i64))),
        PushOrder::OneFirst => (p.push(Some(1i64)), p.push(Some(0i64))),
    }
}

/// The number of tree nodes in the subtree of a node at depth `d` of a
/// search over `n` variables.
pub open spec fn subtree_size(d: nat, n: nat) -> nat {
    (vstd::arithmetic::power2::pow2((n - d + 1) as nat) - 1) as nat
}

/// The number of tree nodes below all the open nodes `ps`.
pub open spec fn total_size(ps: Seq<Seq<Option<i64>>>, n: nat) -> nat
    decreases ps.len(),
{
    if ps.len() == 0 {
        0
    } else {
        total_size(ps.drop_last(), n) + subtree_size(ps.last().len(), n)
    }
}

/// Adding an open node adds the size of its subtree to the total.
pub proof fn lemma_total_size_push(ps: Seq<Seq<Option<i64>>>, p: Seq<Option<i64>>, n: nat)
    ensures
        total_size(ps.push(p), n) == total_size(ps, n) + subtree_size(p.len(), n),
{
    assert(ps.push(p).drop_last() =~= ps);
}

proof fn lemma_total_size_remove(ps: Seq<Seq<Option<i64>>>, k: int, n: nat)
    requires
        0 <= k < ps.len(),
    ensures
        total_size(ps.remove(k), n) + subtree_size(ps[k].len(), n) == total_size(ps, n),
    decreases ps.len(),
{
    if k == ps.len() - 1 {
        assert(ps.remove(k) =~= ps.drop_last());
    } else {
        let q = ps.drop_last();
        lemma_total_size_remove(q, k, n);
        assert(ps.remove(k) =~= q.remove(k).push(ps.last()));
        lemma_total_size_push(q.remove(k), ps.last(), n);
    }
}

/// A subtree one level up holds its two child subtrees and its root.
pub proof fn lemma_subtree_size_split(d: nat, n: nat)
    requires
        d < n,
    ensures
        subtree_size(d, n) == 2 * subtree_size(d + 1, n) + 1,
        subtree_size(d, n) >= 1,
{
    let e = (n - d) as nat;
    vstd::arithmetic::power2::lemma_pow2_unfold(e + 1);
    vstd::arithmetic::power2::lemma_pow2_pos(e);
    assert((n - (d + 1) + 1) as nat == e);
}

proof fn lemma_subtree_size_pos(d: nat, n: nat)
    requires
        d <= n,
    ensures
        subtree_size(d, n) >= 1,
{
    let e = (n - d) as nat;
    vstd::arithmetic::power2::lemma_pow2_unfold(e + 1);
    vstd::arithmetic::power2::lemma_pow2_pos(e);
}

/// An assignment that extends a child of `p` extends `p`.
proof fn lemma_extends_parent(a: Seq<i64>, p: Seq<Option<i64>>, v: i64)
    requires
        extends(a, p.push(Some(v))),
    ensures
        extends(a, p),
{
    assert forall|j: int| 0 <= j < p.len() implies #[trigger] p[j] == Some(a[j]) by {
        assert(p.push(Some(v))[j] == p[j]);
    }
}

/// An assignment below `p` is below the child of `p` that fixes the next
/// variable to the assignment's value.
proof fn lemma_extends_child(a: Seq<i64>, p: Seq<Option<i64>>)
    requires
        extends(a, p),
        p.len() < a.len(),
    ensures
        extends(a, p.push(Some(a[p.len() as int]))),
{
    let c = p.push(Some(a[p.len() as int]));
    assert forall|j: int| 0 <= j < c.len() implies #[trigger] c[j] == Some(a[j]) by {
        if j < p.len() {
            assert(c[j] == p[j]);
        }
    }
}

proof fn lemma_remove_index<T>(s: Seq<T>, k: int, i: int)
    requires
        0 <= k < s.len(),
        0 <= i < s.len() - 1,
    ensures
        s.remove(k)[i] == if i < k {
            s[i]
        } else {
            s[i + 1]
        },
{
}

proof fn lemma_ledger_initial(n: nat)
    ensures
        ledger(seq![Seq::<Option<i64>>::empty()], Set::empty(), n),
{
    let ps = seq![Seq::<Option<i64>>::empty()];
    assert forall|a: Seq<i64>| is_assignment(a, n) && !#[trigger] Set::<Seq<i64>>::empty().contains(
        a,
    ) implies exists|i: int| 0 <= i < ps.len() && #[trigger] extends(a, ps[i]) by {
        assert(extends(a, ps[0]));
    }
}

proof fn lemma_ledger_retire(ps: Seq<Seq<Option<i64>>>, settled: Set<Seq<i64>>, n: nat, k: int)
    requires
        ledger(ps, settled, n),
        0 <= k < ps.len(),
    ensures
        ledger(ps.remove(k), settled.union(subtree(ps[k], n)), n),
        settled.disjoint(subtree(ps[k], n)),
{
    let qs = ps.remove(k);
    let s2 = settled.union(subtree(ps[k], n));
    assert forall|i: int| 0 <= i < qs.len() implies is_decided_prefix(#[trigger] qs[i], n) by {
        lemma_remove_index(ps, k, i);
        if i < k {
            assert(is_decided_prefix(ps[i], n));
        } else {
            assert(is_decided_prefix(ps[i + 1], n));
        }
    }
    assert forall|a: Seq<i64>| is_assignment(a, n) && !#[trigger] s2.contains(a) implies exists|i: int|
        0 <= i < qs.len() && #[trigger] extends(a, qs[i]) by {
        let i0 = choose|i: int| 0 <= i < ps.len() && #[trigger] extends(a, ps[i]);
        assert(i0 != k);
        if i0 < k {
            lemma_remove_index(ps, k, i0);
            assert(extends(a, qs[i0]));
        } else {
            lemma_remove_index(ps, k, i0 - 1);
            assert(extends(a, qs[i0 - 1]));
        }
    }
    assert forall|a: Seq<i64>, i: int| 0 <= i < qs.len() && s2.contains(a) implies !#[trigger] extends(
        a,
        qs[i],
    ) by {
        lemma_remove_index(ps, k, i);
        let j = if i < k {
            i
        } else {
            i + 1
        };
        assert(qs[i] == ps[j]);
        if extends(a, qs[i]) && !settled.contains(a) {
            assert(extends(a, ps[k]));
            assert(extends(a, ps[j]));
        }
    }
    assert forall|a: Seq<i64>, i: int, j: int|
        0 <= i < qs.len() && 0 <= j < qs.len() && is_assignment(a, n) && #[trigger] extends(a, qs[i])
            && #[trigger] extends(a, qs[j]) implies i == j by {
        lemma_remove_index(ps, k, i);
        lemma_remove_index(ps, k, j);
        let i1 = if i < k {
            i
        } else {
            i + 1
        };
        let j1 = if j < k {
            j
        } else {
            j + 1
        };
        assert(extends(a, ps[i1]));
        assert(extends(a, ps[j1]));
    }
    assert forall|a: Seq<i64>| #[trigger] subtree(ps[k], n).contains(a) implies !settled.contains(
        a,
    ) by {
        assert(extends(a, ps[k]));
    }
}

proof fn lemma_ledger_expand(
    ps: Seq<Seq<Option<i64>>>,
    settled: Set<Seq<i64>>,
    n: nat,
    k: int,
    order: PushOrder,
)
    requires
        ledger(ps, settled, n),
        0 <= k < ps.len(),
        ps[k].len() < n,
    ensures
        ledger(
            ps.remove(k).push(children_in_order(ps[k], order).0).push(
                children_in_order(ps[k], order).1,
            ),
            settled,
            n,
        ),
{
    let p = ps[k];
    let c0 = children_in_order(p, order).0;
    let c1 = children_in_order(p, order).1;
    let rs = ps.remove(k);
    let qs = rs.push(c0).push(c1);
    let m = rs.len() as int;
    assert(qs.len() == m + 2);
    assert(qs[m] == c0);
    assert(qs[m + 1] == c1);
    assert forall|i: int| 0 <= i < m implies #[trigger] qs[i] == ps[if i < k {
        i
    } else {
        i + 1
    }] by {
        lemma_remove_index(ps, k, i);
    }
    assert(is_decided_prefix(p, n));
    assert forall|i: int| 0 <= i < qs.len() implies is_decided_prefix(#[trigger] qs[i], n) by {
        if i < m {
            assert(qs[i] == ps[if i < k {
                i
            } else {
                i + 1
            }]);
        } else {
            let c = qs[i];
            assert(c == c0 || c == c1);
            assert forall|j: int| 0 <= j < c.len() implies (#[trigger] c[j] == Some(0i64) || c[j]
                == Some(1i64)) by {
                if j < p.len() {
                    assert(c[j] == p[j]);
                }
            }
        }
    }
    // the children of p split the assignments below p
    assert forall|a: Seq<i64>| is_assignment(a, n) && extends(a, p) implies extends(a, c0) || extends(
        a,
        c1,
    ) by {
        lemma_extends_child(a, p);
        assert(a[p.len() as int] == 0 || a[p.len() as int] == 1);
    }
    assert forall|a: Seq<i64>| extends(a, c0) || extends(a, c1) implies extends(a, p) by {
        match order {
            PushOrder::ZeroFirst => {
                if extends(a, c0) {
                    lemma_extends_parent(a, p, 0);
                } else {
                    lemma_extends_parent(a, p, 1);
                }
            },
            PushOrder::OneFirst => {
                if extends(a, c0) {
                    lemma_extends_parent(a, p, 1);
                } else {
                    lemma_extends_parent(a, p, 0);
                }
            },
        }
    }
    assert forall|a: Seq<i64>| extends(a, c0) && extends(a, c1) implies false by {
        assert(c0[p.len() as int] == Some(a[p.len() as int]));
        assert(c1[p.len() as int] == Some(a[p.len() as int]));
    }
    assert forall|a: Seq<i64>| is_assignment(a, n) && !#[trigger] settled.contains(a) implies exists|
        i: int,
    | 0 <= i < qs.len() && #[trigger] extends(a, qs[i]) by {
        let i0 = choose|i: int| 0 <= i < ps.len() && #[trigger] extends(a, ps[i]);
        if i0 == k {
            if extends(a, c0) {
                assert(extends(a, qs[m]));
            } else {
                assert(extends(a, qs[m + 1]));
            }
        } else if i0 < k {
            assert(qs[i0] == ps[i0]);
            assert(extends(a, qs[i0]));
        } else {
            assert(qs[i0 - 1] == ps[i0]);
            assert(extends(a, qs[i0 - 1]));
        }
    }
    assert forall|a: Seq<i64>, i: int| 0 <= i < qs.len() && settled.contains(a) implies !#[trigger] extends(
        a,
        qs[i],
    ) by {
        if i < m {
            assert(qs[i] == ps[if i < k {
                i
            } else {
                i + 1
            }]);
        } else if extends(a, qs[i]) {
            assert(extends(a, p));
            assert(!extends(a, ps[k]));
        }
    }
    assert forall|a: Seq<i64>, i: int, j: int|
        0 <= i < qs.len() && 0 <= j < qs.len() && is_assignment(a, n) && #[trigger] extends(a, qs[i])
            && #[trigger] extends(a, qs[j]) implies i == j by {
        let i1 = if i < k {
            i
        } else if i < m {
            i + 1
        } else {
            k
        };
        let j1 = if j < k {
            j
        } else if j < m {
            j + 1
        } else {
            k
        };
        if i < m {
            assert(qs[i] == ps[i1]);
        } else {
            assert(extends(a, ps[k]));
        }
        if j < m {
            assert(qs[j] == ps[j1]);
        } else {
            assert(extends(a, ps[k]));
        }
        assert(extends(a, ps[i1]));
        assert(extends(a, ps[j1]));
        assert(i1 == j1);
        if i >= m && j >= m && i != j {
            assert(extends(a, c0) && extends(a, c1));
        }
    }
}

/// Order in which an expanded node's two children are pushed onto the
/// frontier.
#[derive(Clone, Copy, Debug, PartialEq, Eq, Structural)]
pub enum PushOrder {
    /// The child fixing the variable to 0 is pushed first.
    ZeroFirst,
    /// The child fixing the variable to 1 is pushed first.
    OneFirst,
}

/// The open nodes of a branch and bound search over `num_vars` 0/1
/// variables, with the node most recently selected.
pub struct Frontier<B> {
    open: Vec<BNode<B>>,
    num_vars: usize,
    current: Option<usize>,
    settled: Ghost<Set<Seq<i64>>>,
}

impl<B> Frontier<B> {
    /// The open nodes, in the order they were pushed.
    pub closed spec fn open_nodes(&self) -> Seq<BNode<B>> {
        self.open@
    }

    /// The partial solutions of the open nodes.
    pub open spec fn partials(&self) -> Seq<Seq<Option<i64>>> {
        self.open_nodes().map_values(|node: BNode<B>| node.partial@)
    }

    /// The number of variables of the search.
    pub closed spec fn vars(&self) -> nat {
        self.num_vars as nat
    }

    /// The position among the open nodes of the selected node, if any.
    pub closed spec fn selection(&self) -> Option<int> {
        match self.current {
            Some(k) => Some(k as int),
            None => None,
        }
    }

    /// The complete assignments that lie below retired nodes.
    pub closed spec fn settled(&self) -> Set<Seq<i64>> {
        self.settled@
    }

    /// Well-formedness: every open node sits at the depth of its partial
    /// solution, decides its variables in order, and the open nodes and
    /// the settled assignments share out all complete assignments.
    pub closed spec fn wf(&self) -> bool {
        &&& match self.current {
            Some(k) => k < self.open@.len(),
            None => true,
        }
        &&& forall|i: int|
            0 <= i < self.open@.len() ==> #[trigger] self.open@[i].level == self.open@[i].partial@.len()
        &&& ledger(self.partials(), self.settled@, self.num_vars as nat)
    }

    /// The number of tree nodes that are still to be selected, at most:
    /// those in the subtrees of the open nodes.
    pub open spec fn potential(&self) -> nat {
        total_size(self.partials(), self.vars())
    }

    /// Whether no node is left to explore.
    pub fn is_empty(&self) -> (r: bool)
        ensures
            r == (self.open_nodes().len() == 0),
    {
        self.open.len() == 0
    }

    /// The number of open nodes.
    pub fn len(&self) -> (r: usize)
        ensures
            r == self.open_nodes().len(),
    {
        self.open.len()
    }

    /// The number of variables of the search.
    pub fn num_vars(&self) -> (r: usize)
        ensures
            r == self.vars(),
    {
        self.num_vars
    }

    /// The open nodes.
    pub fn nodes(&self) -> (r: &Vec<BNode<B>>)
        requires
            self.wf(),
        ensures
            r@ == self.open_nodes(),
            forall|i: int|
                0 <= i < r@.len() ==> #[trigger] r@[i].level == r@[i].partial@.len()
                    && is_decided_prefix(r@[i].partial@, self.vars()),
    {
        proof {
            assert forall|i: int| 0 <= i < self.open@.len() implies is_decided_prefix(
                #[trigger] self.open@[i].partial@,
                self.vars(),
            ) by {
                assert(self.partials()[i] == self.open@[i].partial@);
            }
        }
        &self.open
    }

    /// Whether a node is selected.
    pub fn has_selection(&self) -> (r: bool)
        ensures
            r == self.selection() is Some,
    {
        self.current.is_some()
    }

    /// The selected node.
    pub fn selected(&self) -> (r: &BNode<B>)
        requires
            self.wf(),
            self.selection() is Some,
        ensures
            *r == self.open_nodes()[self.selection().unwrap()],
            r.level == r.partial@.len(),
            is_decided_prefix(r.partial@, self.vars()),
    {
        proof {
            let k = self.selection().unwrap();
            assert(self.partials()[k] == self.open@[k].partial@);
            assert(self.open@[k].level == self.open@[k].partial@.len());
        }
        let k: usize = self.current.unwrap();
        &self.open[k]
    }

    /// Select the next node to explore: the last one pushed for depth-first
    /// search, the first one for breadth-first search, and the one at
    /// position `best` (which the caller finds to have the highest bound)
    /// for best-first search.
    pub fn select(&mut self, selection: &NodeSelection, best: usize)
        requires
            old(self).wf(),
            old(self).open_nodes().len() > 0,
            *selection is BestFirst ==> best < old(self).open_nodes().len(),
        ensures
            final(self).wf(),
            final(self).open_nodes() == old(self).open_nodes(),
            final(self).vars() == old(self).vars(),
            final(self).settled() == old(self).settled(),
            final(self).selection() == Some(
                match *selection {
                    NodeSelection::DFS => old(self).open_nodes().len() - 1,
                    NodeSelection::BFS => 0,
                    NodeSelection::BestFirst => best as int,
                },
            ),
    {
        let k: usize = match selection {
            NodeSelection::DFS => self.open.len() - 1,
            NodeSelection::BFS => 0,
            NodeSelection::BestFirst => best,
        };
        self.current = Some(k);
    }

    /// Retire the selected node: it is removed from the frontier, and the
    /// complete assignments below it are settled.
    pub fn retire(&mut self)
        requires
            old(self).wf(),
            old(self).selection() is Some,
        ensures
            final(self).wf(),
            final(self).selection() is None,
            final(self).vars() == old(self).vars(),
            final(self).open_nodes() == old(self).open_nodes().remove(
                old(self).selection().unwrap(),
            ),
            final(self).settled() == old(self).settled().union(
                subtree(old(self).partials()[old(self).selection().unwrap()], old(self).vars()),
            ),
            old(self).settled().disjoint(
                subtree(old(self).partials()[old(self).selection().unwrap()], old(self).vars()),
            ),
            final(self).potential() + subtree_size(
                old(self).partials()[old(self).selection().unwrap()].len(),
                old(self).vars(),
            ) == old(self).potential(),
    {
        let k: usize = self.current.unwrap();
        let ghost ps = self.partials();
        let ghost n = self.num_vars as nat;
        proof {
            lemma_ledger_retire(ps, self.settled@, n, k as int);
            lemma_total_size_remove(ps, k as int, n);
        }
        let _retired = self.open.remove(k);
        self.current = None;
        self.settled = Ghost(self.settled@.union(subtree(ps[k as int], n)));
        assert(self.partials() =~= ps.remove(k as int));
    }
}

impl<B: Copy + Default> Frontier<B> {
    /// A search over `num_vars` variables, starting from the root node, at
    /// which no variable is decided.
    pub fn new(num_vars: usize) -> (f: Self)
        ensures
            f.wf(),
            f.vars() == num_vars,
            f.open_nodes().len() == 1,
            f.open_nodes()[0].level == 0,
            f.open_nodes()[0].partial@ == Seq::<Option<i64>>::empty(),
            f.open_nodes()[0].status == NodeStatus::Pending,
            call_ensures(B::default, (), f.open_nodes()[0].bound),
            f.selection() is None,
            f.settled() == Set::<Seq<i64>>::empty(),
            f.potential() == subtree_size(0, num_vars as nat),
    {
        let root = BNode::new(0, Vec::new(), B::default());
        let mut open: Vec<BNode<B>> = Vec::new();
        open.push(root);
        let f = Frontier { open, num_vars, current: None, settled: Ghost(Set::empty()) };
        proof {
            lemma_ledger_initial(num_vars as nat);
            assert(f.partials() =~= seq![Seq::<Option<i64>>::empty()]);
            assert(f.partials().drop_last() =~= Seq::<Seq<Option<i64>>>::empty());
            assert(total_size(f.partials().drop_last(), num_vars as nat) == 0);
            assert(f.partials().last() == Seq::<Option<i64>>::empty());
        }
        f
    }

    /// Expand the selected node: it is replaced by its two children, which
    /// fix the next variable to 0 and to 1, carry `bound`, and are pushed
    /// in the given order.
    pub fn expand(&mut self, bound: B, order: PushOrder)
        requires
            old(self).wf(),
            old(self).selection() is Some,
            old(self).partials()[old(self).selection().unwrap()].len() < old(self).vars(),
        ensures
            final(self).wf(),
            final(self).selection() is None,
            final(self).vars() == old(self).vars(),
            final(self).settled() == old(self).settled(),
            ({
                let k = old(self).selection().unwrap();
                let parent = old(self).open_nodes()[k];
                let rest = old(self).open_nodes().remove(k);
                let c = children_in_order(parent.partial@, order);
                let m = rest.len() as int;
                &&& final(self).open_nodes().len() == rest.len() + 2
                &&& final(self).open_nodes().subrange(0, m) == rest
                &&& final(self).open_nodes()[m].partial@ == c.0
                &&& final(self).open_nodes()[m + 1].partial@ == c.1
                &&& final(self).open_nodes()[m].level == parent.level + 1
                &&& final(self).open_nodes()[m + 1].level == parent.level + 1
                &&& final(self).open_nodes()[m].bound == bound
                &&& final(self).open_nodes()[m + 1].bound == bound
                &&& final(self).open_nodes()[m].status == NodeStatus::Pending
                &&& final(self).open_nodes()[m + 1].status == NodeStatus::Pending
            }),
            final(self).potential() + 1 == old(self).potential(),
    {
        let k: usize = self.current.unwrap();
        let ghost ps = self.partials();
        let ghost n = self.num_vars as nat;
        let ghost rest = self.open@.remove(k as int);
        proof {
            lemma_ledger_expand(ps, self.settled@, n, k as int, order);
            assert(is_decided_prefix(ps[k as int], n));
        }
        let node = self.open.remove(k);
        assert(node.partial@ == ps[k as int]);
        let next_var: usize = node.partial.len();
        let (mut zero, mut one) = node.branch(next_var, self.num_vars);
        assert(zero.partial@ =~= node.partial@.push(Some(0i64)));
        assert(one.partial@ =~= node.partial@.push(Some(1i64)));
        zero.bound = bound;
        one.bound = bound;
        match order {
            PushOrder::ZeroFirst => {
                self.open.push(zero);
                self.open.push(one);
            },
            PushOrder::OneFirst => {
                self.open.push(one);
                self.open.push(zero);
            },
        }
        self.current = None;
        proof {
            let c = children_in_order(ps[k as int], order);
            assert(self.partials() =~= ps.remove(k as int).push(c.0).push(c.1));
            assert(self.open@.subrange(0, rest.len() as int) =~= rest);
            lemma_total_size_remove(ps, k as int, n);
            lemma_total_size_push(ps.remove(k as int), c.0, n);
            lemma_total_size_push(ps.remove(k as int).push(c.0), c.1, n);
            lemma_subtree_size_split(ps[k as int].len(), n);
            assert forall|i: int| 0 <= i < self.open@.len() implies #[trigger] self.open@[i].level
                == self.open@[i].partial@.len() by {
                if i < rest.len() {
                    assert(self.open@[i] == rest[i]);
                    lemma_remove_index(old(self).open@, k as int, i);
                }
            }
        }
    }
}

/// Once no node is open, every complete 0/1 assignment of the variables
/// lies below some retired node: a search that runs until its frontier is
/// empty has considered every solution, evaluated or pruned.
pub proof fn lemma_empty_frontier_settles_all<B>(f: &Frontier<B>)
    requires
        f.wf(),
        f.open_nodes().len() == 0,
    ensures
        forall|a: Seq<i64>| is_assignment(a, f.vars()) ==> #[trigger] f.settled().contains(a),
{
}

/// Every complete 0/1 assignment is either settled or below exactly one
/// open node, and never both: no solution is considered twice.
pub proof fn lemma_each_assignment_once<B>(f: &Frontier<B>, a: Seq<i64>)
    requires
        f.wf(),
        is_assignment(a, f.vars()),
    ensures
        f.settled().contains(a) <==> !exists|i: int|
            0 <= i < f.partials().len() && #[trigger] extends(a, f.partials()[i]),
        forall|i: int, j: int|
            0 <= i < f.partials().len() && 0 <= j < f.partials().len() && #[trigger] extends(
                a,
                f.partials()[i],
            ) && #[trigger] extends(a, f.partials()[j]) ==> i == j,
{
}

/// While a node is open, the potential is at least one. Since a new
/// search starts at potential `2^(n+1) - 1` and each retirement or
/// expansion lowers it by at least one, a search over `n` variables makes
/// at most `2^(n+1) - 1` such steps.
pub proof fn lemma_potential_positive_while_open<B>(f: &Frontier<B>)
    requires
        f.wf(),
        f.open_nodes().len() > 0,
    ensures
        f.potential() >= 1,
{
    let ps = f.partials();
    let n = f.vars();
    assert(is_decided_prefix(ps[ps.len() - 1], n));
    lemma_subtree_size_pos(ps.last().len(), n);
}

/// A complete node stands for exactly one solution: the values of its
/// decisions form a 0/1 assignment of all `n` variables, and it is the only
/// complete assignment below the node.
pub proof fn lemma_complete_node_is_one_assignment(p: Seq<Option<i64>>, n: nat, sol: Seq<i64>)
    requires
        is_decided_prefix(p, n),
        p.len() == n,
        sol.len() == p.len(),
        forall|i: int| 0 <= i < sol.len() ==> #[trigger] sol[i] == value_or_zero(p[i]),
    ensures
        is_assignment(sol, n),
        subtree(p, n) == Set::<Seq<i64>>::empty().insert(sol),
{
    assert forall|j: int| 0 <= j < n implies (#[trigger] sol[j] == 0 || sol[j] == 1) by {
        assert(p[j] == Some(0i64) || p[j] == Some(1i64));
    }
    assert forall|j: int| 0 <= j < p.len() implies #[trigger] p[j] == Some(sol[j]) by {
        assert(p[j] == Some(0i64) || p[j] == Some(1i64));
    }
    assert forall|a: Seq<i64>| #[trigger] subtree(p, n).contains(a) implies a == sol by {
        assert forall|j: int| 0 <= j < n implies a[j] == sol[j] by {
            assert(p[j] == Some(a[j]));
        }
        assert(a =~= sol);
    }
    assert(subtree(p, n) =~= Set::<Seq<i64>>::empty().insert(sol));
}

/// The complete assignments below a node are exactly the sequences of `n`
/// values, each 0 or 1, that agree with every decision of the node; a node
/// deciding more than `n` variables has none below it.
pub proof fn law_subtree(p: Seq<Option<i64>>, n: nat, a: Seq<i64>)
    ensures
        subtree(p, n).contains(a) <==> (a.len() == n && p.len() <= n && (forall|j: int|
            0 <= j < n ==> #[trigger] a[j] == 0 || a[j] == 1) && (forall|j: int|
            0 <= j < p.len() ==> #[trigger] p[j] == Some(a[j]))),
{
}

/// A decided prefix over `n` variables decides at most `n` of them, each to
/// 0 or 1; an undecided position, or any other value, breaks it.
pub proof fn law_decided_prefix(p: Seq<Option<i64>>, n: nat)
    ensures
        is_decided_prefix(p, n) <==> (p.len() <= n && forall|j: int|
            0 <= j < p.len() ==> #[trigger] p[j] is Some && (p[j].unwrap() == 0 || p[j].unwrap()
                == 1)),
{
    if p.len() <= n && forall|j: int|
        0 <= j < p.len() ==> #[trigger] p[j] is Some && (p[j].unwrap() == 0 || p[j].unwrap() == 1) {
        assert forall|j: int| 0 <= j < p.len() implies (#[trigger] p[j] == Some(0i64) || p[j] == Some(
            1i64,
        )) by {
            assert(p[j] is Some && (p[j].unwrap() == 0 || p[j].unwrap() == 1));
        }
    }
}

/// The two children of a node extend its partial solution by one decision
/// on the next variable: 0 and 1, the 0-child first for `ZeroFirst` and the
/// 1-child first for `OneFirst`.
pub proof fn law_children_in_order(p: Seq<Option<i64>>, order: PushOrder)
    ensures
        children_in_order(p, order).0.len() == p.len() + 1,
        children_in_order(p, order).1.len() == p.len() + 1,
        forall|j: int|
            0 <= j < p.len() ==> #[trigger] children_in_order(p, order).0[j] == p[j]
                && children_in_order(p, order).1[j] == p[j],
        children_in_order(p, order).0[p.len() as int] == Some(
            if order == PushOrder::ZeroFirst {
                0i64
            } else {
                1i64
            },
        ),
        children_in_order(p, order).1[p.len() as int] == Some(
            if order == PushOrder::ZeroFirst {
                1i64
            } else {
                0i64
            },
        ),
{
}

/// A node deciding every variable has a subtree of one node; the empty
/// frontier has total size zero.
pub proof fn law_sizes_base(n: nat)
    ensures
        subtree_size(n, n) == 1,
        total_size(Seq::<Seq<Option<i64>>>::empty(), n) == 0,
{
    vstd::arithmetic::power2::lemma_pow2_unfold(1);
    vstd::arithmetic::power2::lemma2_to64();
}

} // verus!
