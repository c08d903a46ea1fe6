# branch_bound

The search-tree side of a branch and bound optimizer over 0/1 variables,
verified with Verus.

- `src/node.rs`: search-tree nodes (`BNode`), completeness, branching.
- `src/search.rs`: the frontier of open nodes (`Frontier`) with depth-first,
  breadth-first and best-first selection; its ghost bookkeeping proves that a
  search runs out of nodes only after every 0/1 assignment lies below a retired
  node, that no assignment is reached twice, and that a search over `n`
  variables takes at most `2^(n+1) - 1` steps.
- `src/knapsack.rs`, `src/integer_prog.rs`, `src/bound.rs`, `src/prune.rs`:
  problem descriptions and the integer parts of their checks.
- `app/`: the floating-point side (bounding functions, pruning rules, and the
  knapsack and integer-program solvers, which drive a `Frontier`).
