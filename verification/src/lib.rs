//! # Branch and Bound Framework
//!
//! The search-tree side of a branch and bound optimizer: nodes of the
//! search tree and how they branch, the frontier of open nodes with its
//! node-selection strategies (DFS, BFS, best-first), and the problem
//! descriptions for 0/1 knapsack and binary integer programs.
//!
//! Objective values and bounds are held in a type parameter, so that the
//! numeric evaluation (bounds, pruning tests, objective values) can be done
//! by the caller in whatever number type it uses.

pub mod node;
pub mod bound;
pub mod prune;
pub mod search;
pub mod integer_prog;
pub mod knapsack;

pub use node::{BNode, NodeStatus};
pub use bound::{FractionalBound, LPRelaxationBound};
pub use prune::{BoundPruning, NoPruning};
pub use search::{Frontier, PushOrder};
pub use integer_prog::{IntegerProgram, NodeSelection};
pub use knapsack::{Knapsack, KnapsackSolution};
