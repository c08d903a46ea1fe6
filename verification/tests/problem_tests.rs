use branch_bound::bound::fixed_items;
use branch_bound::{BoundPruning, FractionalBound, IntegerProgram, Knapsack, KnapsackSolution, LPRelaxationBound, NoPruning, NodeSelection};

#[test]
fn binary_program_bounds_every_variable() {
    let ip = IntegerProgram::binary(vec![3.0, 2.0], vec![(vec![2.0, 1.0], 4.0)]);
    assert_eq!(ip.var_bounds, vec![(0, 1), (0, 1)]);
    assert_eq!(ip.coefficients, vec![3.0, 2.0]);
    assert_eq!(ip.constraints.len(), 1);
    assert_eq!(ip.constraints[0].1, 4.0);
    let empty: IntegerProgram<f64> = IntegerProgram::binary(vec![], vec![]);
    assert!(empty.var_bounds.is_empty());
}

#[test]
fn var_bounds_check() {
    let ip = IntegerProgram::binary(vec![1.0, 1.0, 1.0], vec![]);
    assert!(ip.within_var_bounds(&[0, 1, 1]));
    assert!(ip.within_var_bounds(&[1]));
    assert!(ip.within_var_bounds(&[]));
    assert!(!ip.within_var_bounds(&[0, 2, 1]));
    assert!(!ip.within_var_bounds(&[-1, 0, 0]));
    // a failing value within the bounded range settles it before the extra value
    assert!(!ip.within_var_bounds(&[0, 0, 3, 0]));
    let general = IntegerProgram { coefficients: vec![1.0, 1.0], constraints: vec![], var_bounds: vec![(-2, 5), (3, 3)] };
    assert!(general.within_var_bounds(&[-2, 3]));
    assert!(general.within_var_bounds(&[5, 3]));
    assert!(!general.within_var_bounds(&[6, 3]));
    assert!(!general.within_var_bounds(&[0, 4]));
}

#[test]
fn fixed_items_lists_packed_positions() {
    assert_eq!(fixed_items(&[Some(1), None, Some(0), Some(1)], 10), vec![0, 3]);
    assert_eq!(fixed_items(&[Some(1), None, Some(0), Some(1)], 3), vec![0]);
    assert_eq!(fixed_items(&[], 3), Vec::<usize>::new());
    assert_eq!(fixed_items(&[Some(2), Some(1)], 2), vec![1]);
}

#[test]
fn knapsack_keeps_its_data() {
    let ks = Knapsack::new(vec![60.0, 100.0, 120.0], vec![10.0, 20.0, 30.0], 50.0);
    assert_eq!(ks.values, vec![60.0, 100.0, 120.0]);
    assert_eq!(ks.weights, vec![10.0, 20.0, 30.0]);
    assert_eq!(ks.capacity, 50.0);
    let sol = KnapsackSolution { items: vec![0, 1, 1], total_value: 220.0, total_weight: 50.0 };
    let copy = sol.clone();
    assert_eq!(copy.items, vec![0, 1, 1]);
    assert_eq!(copy.total_value, 220.0);
}

#[test]
fn strategy_and_rule_types_exist() {
    let _ = (FractionalBound, LPRelaxationBound, BoundPruning, NoPruning);
    let s = NodeSelection::BestFirst;
    assert!(matches!(s.clone(), NodeSelection::BestFirst));
}
