use level_geometry::{Direction, Node, TreeError};

#[test]
fn new_node() {
    let node = Node::new(10);
    assert!(*node.value() == 10);
    assert!(node.get_child_reference(Direction::Left).is_none());
    assert!(node.get_child_reference(Direction::Right).is_none());
}

#[test]
fn noderef() {
    assert!(Node::new(10).noderef() == Box::new(Node::new(10)))
}

#[test]
fn create_child() {
    let mut a = Node::new(10);
    a.create_child(20, Direction::Left).expect("");

    assert!(*a.value() == 10);
    assert!(a.get_child_reference(Direction::Left) == Some(&Node::new(20)));
    assert!(a.get_child_reference(Direction::Right).is_none());
}

#[test]
fn is_leaf() {
    let mut root = Node::new(1);
    root.create_child(2, Direction::Left).unwrap();
    assert!(root.is_leaf() == false);
    assert!(root.get_child_reference(Direction::Left).unwrap().is_leaf() == true);
}

#[test]
fn create_child_twice_fails_and_keeps_first() {
    let mut root = Node::new(1);
    assert!(root.is_leaf());
    assert_eq!(root.create_child(2, Direction::Right), Ok(()));
    assert!(!root.is_leaf());
    assert_eq!(root.create_child(3, Direction::Right), Err(TreeError::SlotOccupied));
    assert_eq!(*root.get_child_reference(Direction::Right).unwrap().value(), 2);
    assert!(root.get_child_reference(Direction::Left).is_none());
    assert_eq!(root.create_child(4, Direction::Left), Ok(()));
    assert_eq!(*root.get_child_reference(Direction::Left).unwrap().value(), 4);
}
