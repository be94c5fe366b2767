//! A binary tree node with write-once children.
use vstd::prelude::*;

verus! {

/// Which child of a node: `Left` holds what lies behind, `Right` what
/// lies in front.
#[derive(Clone, Copy, Debug, PartialEq, Eq, Structural)]
pub enum Direction {
    Left,
    Right,
}

/// Why a tree operation failed.
#[derive(Clone, Copy, Debug, PartialEq, Eq, Structural)]
pub enum TreeError {
    /// The child slot asked for already holds a node.
    SlotOccupied,
}

/// An owned handle to a node.
pub type NodeRef<T> = Box<Node<T>>;

/// A node: one value and up to two children. A child slot, once filled,
/// is never replaced.
#[derive(Debug, PartialEq)]
pub struct Node<T> {
    value: T,
    left: Option<NodeRef<T>>,
    right: Option<NodeRef<T>>,
}

impl<T> Node<T> {
    pub closed spec fn spec_value(&self) -> T {
        self.value
    }

    pub closed spec fn spec_child(&self, direction: Direction) -> Option<Node<T>> {
        let slot = match direction {
            Direction::Left => self.left,
            Direction::Right => self.right,
        };
        match slot {
            Some(child) => Some(*child),
            None => None,
        }
    }

    /// A node with value `value` and no children.
    pub open spec fn is_leaf_of(&self, value: T) -> bool {
        &&& self.spec_value() == value
        &&& self.spec_child(Direction::Left) is None
        &&& self.spec_child(Direction::Right) is None
    }

    /// A leaf holding `value`.
    pub fn new(value: T) -> (r: Self)
        ensures
            r.is_leaf_of(value),
    {
        Node { value, left: None, right: None }
    }

    /// Gives this node a new leaf child holding `value` in `direction`,
    /// unless that slot is already filled; then nothing changes.
    pub fn create_child(&mut self, value: T, direction: Direction) -> (r: Result<(), TreeError>)
        ensures
            r is Ok <==> old(self).spec_child(direction) is None,
            r is Err ==> r == Err::<(), TreeError>(TreeError::SlotOccupied) && *final(self) == *old(
                self,
            ),
            r is Ok ==> {
                &&& final(self).spec_value() == old(self).spec_value()
                &&& final(self).spec_child(direction) matches Some(c) && c.is_leaf_of(value)
                &&& forall|d: Direction|
                    d != direction ==> final(self).spec_child(d) == old(self).spec_child(d)
            },
    {
        match direction {
            Direction::Left => {
                if self.left.is_some() {
                    Err(TreeError::SlotOccupied)
                } else {
                    self.left = Some(Node::new(value).noderef());
                    Ok(())
                }
            },
            Direction::Right => {
                if self.right.is_some() {
                    Err(TreeError::SlotOccupied)
                } else {
                    self.right = Some(Node::new(value).noderef());
                    Ok(())
                }
            },
        }
    }

    /// Whether the node has no children.
    pub fn is_leaf(&self) -> (r: bool)
        ensures
            r == (self.spec_child(Direction::Left) is None && self.spec_child(Direction::Right) is None),
    {
        self.left.is_none() && self.right.is_none()
    }

    /// The child in `direction`, if there is one.
    pub fn get_child_reference(&self, direction: Direction) -> (r: Option<&Node<T>>)
        ensures
            match r {
                Some(c) => self.spec_child(direction) == Some(*c),
                None => self.spec_child(direction) is None,
            },
    {
        let slot = match direction {
            Direction::Left => &self.left,
            Direction::Right => &self.right,
        };
        match slot {
            Some(child) => Some(&**child),
            None => None,
        }
    }

    /// The node's value.
    pub fn value(&self) -> (r: &T)
        ensures
            *r == self.spec_value(),
    {
        &self.value
    }

    /// Moves the node behind an owned handle.
    pub fn noderef(self) -> (r: NodeRef<T>)
        ensures
            *r == self,
    {
        Box::new(self)
    }
}

} // verus!
