//! An in-memory N-ary tree of `i32` payloads.
//!
//! Nodes live in an arena owned by [`tree::Tree`] and are addressed by their
//! index there: a node owns the ordered list of its children's indices, and
//! holds its parent's index as a non-owning back-link. The tree keeps both
//! directions consistent under every structural edit, fills new values into
//! the first node that has room for a child, and deletes a value by moving the
//! last node of the preorder walk into its slot. [`iterator::NodeIterator`]
//! walks a subtree in preorder or postorder from a snapshot taken when it is
//! built. [`linked_list::LinkedList`] is a small doubly linked stack.

pub mod node;
pub mod tree;
pub mod iterator;
pub mod linked_list;
pub mod seq_facts;
