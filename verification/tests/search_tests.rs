use branch_bound::{Frontier, NodeSelection, PushOrder};

/// Runs a search without pruning and returns the complete solutions in the
/// order they are reached. For best-first search, the bound of a node is
/// the number of its variables fixed to 1, and ties go to the last node.
fn enumerate(n: usize, selection: NodeSelection, order: PushOrder) -> (Vec<Vec<i64>>, usize) {
    let mut frontier: Frontier<f64> = Frontier::new(n);
    let mut leaves = Vec::new();
    let mut steps = 0;
    while !frontier.is_empty() {
        let best = frontier
            .nodes()
            .iter()
            .enumerate()
            .max_by(|(_, a), (_, b)| a.bound.partial_cmp(&b.bound).unwrap())
            .unwrap()
            .0;
        frontier.select(&selection, best);
        steps += 1;
        let node = frontier.selected();
        if node.is_complete(n) {
            leaves.push(node.decisions());
            frontier.retire();
        } else {
            let ones = node.partial.iter().filter(|v| **v == Some(1)).count() as f64;
            frontier.expand(ones, order);
        }
    }
    (leaves, steps)
}

#[test]
fn new_frontier_holds_the_root() {
    let frontier: Frontier<f64> = Frontier::new(3);
    assert_eq!(frontier.len(), 1);
    assert_eq!(frontier.num_vars(), 3);
    assert!(!frontier.is_empty());
    assert!(!frontier.has_selection());
    let root = &frontier.nodes()[0];
    assert_eq!(root.level, 0);
    assert!(root.partial.is_empty());
    assert_eq!(root.bound, 0.0);
}

#[test]
fn dfs_visits_every_solution_once() {
    let (leaves, steps) = enumerate(3, NodeSelection::DFS, PushOrder::ZeroFirst);
    assert_eq!(leaves.len(), 8);
    // the child pushed last is explored first
    assert_eq!(leaves[0], vec![1, 1, 1]);
    assert_eq!(leaves[7], vec![0, 0, 0]);
    // 2^(n+1) - 1 nodes in the full tree
    assert_eq!(steps, 15);
}

#[test]
fn dfs_one_first_explores_zero_first() {
    let (leaves, _) = enumerate(2, NodeSelection::DFS, PushOrder::OneFirst);
    assert_eq!(leaves, vec![vec![0, 0], vec![0, 1], vec![1, 0], vec![1, 1]]);
}

#[test]
fn bfs_visits_level_by_level() {
    let (leaves, steps) = enumerate(2, NodeSelection::BFS, PushOrder::ZeroFirst);
    assert_eq!(leaves, vec![vec![0, 0], vec![0, 1], vec![1, 0], vec![1, 1]]);
    assert_eq!(steps, 7);
}

#[test]
fn best_first_follows_the_given_position() {
    let (leaves, steps) = enumerate(3, NodeSelection::BestFirst, PushOrder::ZeroFirst);
    assert_eq!(leaves.len(), 8);
    assert_eq!(leaves[0], vec![1, 1, 1]);
    assert_eq!(steps, 15);
    let mut sorted = leaves.clone();
    sorted.sort();
    sorted.dedup();
    assert_eq!(sorted.len(), 8);
}

#[test]
fn zero_variables_give_one_empty_solution() {
    let (leaves, steps) = enumerate(0, NodeSelection::DFS, PushOrder::ZeroFirst);
    assert_eq!(leaves, vec![Vec::<i64>::new()]);
    assert_eq!(steps, 1);
}

#[test]
fn select_and_retire_by_position() {
    let mut frontier: Frontier<f64> = Frontier::new(2);
    frontier.select(&NodeSelection::DFS, 0);
    frontier.expand(4.0, PushOrder::ZeroFirst);
    assert_eq!(frontier.len(), 2);
    assert_eq!(frontier.nodes()[0].partial, vec![Some(0)]);
    assert_eq!(frontier.nodes()[1].partial, vec![Some(1)]);
    assert_eq!(frontier.nodes()[0].bound, 4.0);
    assert_eq!(frontier.nodes()[1].level, 1);
    frontier.select(&NodeSelection::BFS, 0);
    assert_eq!(frontier.selected().partial, vec![Some(0)]);
    frontier.retire();
    assert_eq!(frontier.len(), 1);
    assert_eq!(frontier.nodes()[0].partial, vec![Some(1)]);
    frontier.select(&NodeSelection::BestFirst, 0);
    frontier.expand(2.0, PushOrder::OneFirst);
    assert_eq!(frontier.nodes()[0].partial, vec![Some(1), Some(1)]);
    assert_eq!(frontier.nodes()[1].partial, vec![Some(1), Some(0)]);
}

#[test]
fn reselecting_moves_the_selection() {
    let mut frontier: Frontier<f64> = Frontier::new(1);
    frontier.select(&NodeSelection::DFS, 0);
    frontier.expand(1.0, PushOrder::ZeroFirst);
    frontier.select(&NodeSelection::DFS, 0);
    assert_eq!(frontier.selected().partial, vec![Some(1)]);
    frontier.select(&NodeSelection::BFS, 0);
    assert_eq!(frontier.selected().partial, vec![Some(0)]);
    frontier.retire();
    assert_eq!(frontier.nodes()[0].partial, vec![Some(1)]);
}

/// A knapsack search driven through the frontier with a simple upper bound
/// (value of packed items plus value of all undecided items).
#[test]
fn pruned_knapsack_search_finds_optimum() {
    let values = [60.0, 100.0, 120.0];
    let weights = [10.0, 20.0, 30.0];
    let capacity = 50.0;
    let n = values.len();
    let mut frontier: Frontier<f64> = Frontier::new(n);
    let mut best_value = 0.0_f64;
    let mut best = vec![0i64; n];
    while !frontier.is_empty() {
        frontier.select(&NodeSelection::DFS, 0);
        let partial = frontier.selected().partial.clone();
        let packed: f64 = (0..partial.len()).filter(|&i| partial[i] == Some(1)).map(|i| values[i]).sum();
        let weight: f64 = (0..partial.len()).filter(|&i| partial[i] == Some(1)).map(|i| weights[i]).sum();
        let rest: f64 = values[partial.len()..].iter().sum();
        let bound = packed + rest;
        if weight > capacity || bound <= best_value {
            frontier.retire();
            continue;
        }
        if partial.len() == n {
            if packed > best_value {
                best_value = packed;
                best = frontier.selected().decisions();
            }
            frontier.retire();
        } else {
            frontier.expand(bound, PushOrder::OneFirst);
        }
    }
    assert_eq!(best_value, 220.0);
    assert_eq!(best, vec![0, 1, 1]);
}
