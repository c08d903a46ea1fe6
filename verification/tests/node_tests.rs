use branch_bound::{BNode, NodeStatus};

#[test]
fn node_creation() {
    let node = BNode::new(0, vec![None, None], 10.0);
    assert_eq!(node.level, 0);
    assert_eq!(node.status, NodeStatus::Pending);
}

#[test]
fn is_complete_true() {
    let node = BNode::new(2, vec![Some(1), Some(0)], 5.0);
    assert!(node.is_complete(2));
}

#[test]
fn is_complete_false() {
    let node = BNode::new(1, vec![Some(1), None], 5.0);
    assert!(!node.is_complete(2));
}

#[test]
fn branch_creates_children() {
    let node = BNode::new(0, vec![], 10.0);
    let (left, right) = node.branch(0, 2);
    assert_eq!(left.partial[0], Some(0));
    assert_eq!(right.partial[0], Some(1));
    assert_eq!(left.level, 1);
    assert_eq!(right.level, 1);
}

#[test]
fn is_complete_wrong_length() {
    let node = BNode::new(2, vec![Some(1), Some(0)], 5.0);
    assert!(!node.is_complete(3));
    assert!(!node.is_complete(1));
    let empty = BNode::new(0, vec![], 0.0);
    assert!(empty.is_complete(0));
}

#[test]
fn branch_pads_with_undecided_positions() {
    let node = BNode::new(3, vec![Some(1)], 7.5);
    let (left, right) = node.branch(3, 4);
    assert_eq!(left.partial, vec![Some(1), None, None, Some(0)]);
    assert_eq!(right.partial, vec![Some(1), None, None, Some(1)]);
    assert_eq!(left.level, 4);
    assert_eq!(left.bound, 0.0);
    assert_eq!(right.bound, 0.0);
    assert_eq!(left.status, NodeStatus::Pending);
    assert_eq!(right.status, NodeStatus::Pending);
}

#[test]
fn branch_overwrites_existing_decision() {
    let node = BNode::new(2, vec![Some(1), Some(1)], 1.0);
    let (left, right) = node.branch(0, 2);
    assert_eq!(left.partial, vec![Some(0), Some(1)]);
    assert_eq!(right.partial, vec![Some(1), Some(1)]);
    // the parent is untouched
    assert_eq!(node.partial, vec![Some(1), Some(1)]);
}

#[test]
fn decisions_read_undecided_as_zero() {
    let node = BNode::new(3, vec![Some(1), None, Some(0), Some(5)], 0.0);
    assert_eq!(node.decisions(), vec![1, 0, 0, 5]);
    let empty: BNode<f64> = BNode::new(0, vec![], 0.0);
    assert_eq!(empty.decisions(), Vec::<i64>::new());
}
