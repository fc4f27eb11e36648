//! The node record stored in a tree arena.

use vstd::prelude::*;

verus! {

/// One node of a tree arena: its payload, how many children it has, the
/// index of its parent (if it is attached), and the indices of its children
/// in order.
#[derive(Clone, Debug)]
pub struct Node {
    pub value: i32,
    /// Always equal to `children.len()` for a node that lives in a tree.
    pub size: usize,
    pub parent: Option<usize>,
    pub children: Vec<usize>,
}

impl Node {
    /// A fresh node: no parent, no children.
    pub fn new(value: i32) -> (r: Node)
        ensures
            r.value == value,
            r.size == 0,
            r.parent is None,
            r.children@ == Seq::<usize>::empty(),
    {
        Node { value, size: 0, parent: None, children: Vec::new() }
    }

    /// The number of children.
    pub fn size(&self) -> (r: usize)
        ensures
            r == self.size,
    {
        self.size
    }

    /// The index of the child at `index`, if there is one.
    pub fn get_child(&self, index: usize) -> (r: Option<usize>)
        ensures
            index < self.children@.len() ==> r == Some(self.children@[index as int]),
            index >= self.children@.len() ==> r is None,
    {
        if index < self.children.len() {
            Some(self.children[index])
        } else {
            None
        }
    }

    /// The index of the parent, if the node is attached.
    pub fn parent(&self) -> (r: Option<usize>)
        ensures
            r == self.parent,
    {
        self.parent
    }
}

} // verus!
