//! The tree arena: nodes linked both ways by index, the well-formedness that
//! keeps the two directions consistent, the preorder and postorder walks as
//! mathematical sequences, the raw child operations, and the `add` and
//! `delete` policies with the facts proved about them.

use vstd::prelude::*;
use crate::node::Node;
use crate::iterator::{IterationType, NodeIterator};
use crate::seq_facts::{
    lemma_concat_contains, lemma_remove_value_absent, lemma_remove_value_at, lemma_remove_value_contains,
    lemma_renamed, lemma_renamed_contains, renamed,
};

verus! {

/// A tree arena. Every node is addressed by its index in the arena; a node
/// that is nobody's child is the root of a tree of its own. `root`, when set,
/// names the tree that `add` and `delete` work on.
pub struct Tree {
    nodes: Vec<Node>,
    root: Option<usize>,
    /// A height bound per node: every child ranks strictly below its parent,
    /// so following children always ends.
    rank: Ghost<Seq<nat>>,
}

impl Tree {
    /// The number of nodes in the arena, attached or not.
    pub closed spec fn arena_len(self) -> nat {
        self.nodes@.len()
    }

    pub closed spec fn kids(self, i: usize) -> Seq<usize> {
        self.nodes@[i as int].children@
    }

    pub closed spec fn parent_of(self, i: usize) -> Option<usize> {
        self.nodes@[i as int].parent
    }

    pub closed spec fn value_of(self, i: usize) -> i32 {
        self.nodes@[i as int].value
    }

    pub closed spec fn size_of(self, i: usize) -> usize {
        self.nodes@[i as int].size
    }

    pub closed spec fn rank_of(self, i: usize) -> nat {
        self.rank@[i as int]
    }

    pub closed spec fn root_node(self) -> Option<usize> {
        self.root
    }

    /// The `j`-th child of `p` is in the arena, points back at `p`, and ranks
    /// below it.
    pub open spec fn edge_ok(self, p: usize, j: int) -> bool {
        let c = self.kids(p)[j];
        &&& c < self.arena_len()
        &&& self.parent_of(c) == Some(p)
        &&& self.rank_of(c) < self.rank_of(p)
    }

    pub open spec fn node_ok(self, i: usize) -> bool {
        &&& self.size_of(i) == self.kids(i).len()
        &&& self.kids(i).no_duplicates()
        &&& forall|j: int| 0 <= j < self.kids(i).len() ==> #[trigger] self.edge_ok(i, j)
        &&& (self.parent_of(i) matches Some(p) ==> p < self.arena_len() && self.kids(p).contains(i))
    }

    /// Well-formedness: child counts match, each child points back at its
    /// parent, each parent lists the child that points at it, no node is its
    /// own descendant, and the root is nobody's child.
    pub open spec fn wf(self) -> bool {
        &&& (self.root_node() matches Some(r) ==> r < self.arena_len() && self.parent_of(r) is None)
        &&& forall|i: usize| i < self.arena_len() ==> #[trigger] self.node_ok(i)
    }

    /// The nodes of the subtree at `x`, node first, then each child's subtree
    /// in order.
    pub open spec fn preorder(self, x: usize) -> Seq<usize>
        decreases self.rank_of(x), 1nat, 0nat,
    {
        seq![x] + self.preorder_list(self.kids(x), self.rank_of(x))
    }

    /// The preorder walks of `xs`, one after another (each entry ranks below `r`
    /// in a well-formed tree).
    pub open spec fn preorder_list(self, xs: Seq<usize>, r: nat) -> Seq<usize>
        decreases r, 0nat, xs.len(),
    {
        if xs.len() == 0 {
            Seq::empty()
        } else if self.rank_of(xs.last()) < r {
            self.preorder_list(xs.drop_last(), r) + self.preorder(xs.last())
        } else {
            self.preorder_list(xs.drop_last(), r)
        }
    }

    /// The nodes of the subtree at `x`, each child's subtree in order, then the
    /// node.
    pub open spec fn postorder(self, x: usize) -> Seq<usize>
        decreases self.rank_of(x), 1nat, 0nat,
    {
        self.postorder_list(self.kids(x), self.rank_of(x)) + seq![x]
    }

    pub open spec fn postorder_list(self, xs: Seq<usize>, r: nat) -> Seq<usize>
        decreases r, 0nat, xs.len(),
    {
        if xs.len() == 0 {
            Seq::empty()
        } else if self.rank_of(xs.last()) < r {
            self.postorder_list(xs.drop_last(), r) + self.postorder(xs.last())
        } else {
            self.postorder_list(xs.drop_last(), r)
        }
    }

    /// The nodes reachable from the root.
    pub open spec fn members(self) -> Set<usize> {
        match self.root_node() {
            Some(r) => self.preorder(r).to_set(),
            None => Set::empty(),
        }
    }

    /// What `y` must satisfy when it lies in the subtree at `x`.
    pub open spec fn inside(self, x: usize, y: usize) -> bool {
        &&& y < self.arena_len()
        &&& self.rank_of(y) <= self.rank_of(x)
        &&& forall|z: usize| #[trigger] self.kids(y).contains(z) ==> self.preorder(x).contains(z)
        &&& (y != x ==> (self.parent_of(y) matches Some(q) && self.preorder(x).contains(q)))
    }

    pub proof fn lemma_preorder_list_contains(self, xs: Seq<usize>, r: nat, y: usize)
        requires
            forall|j: int| 0 <= j < xs.len() ==> self.rank_of(#[trigger] xs[j]) < r,
        ensures
            self.preorder_list(xs, r).contains(y) <==> exists|j: int|
                0 <= j < xs.len() && #[trigger] self.preorder(xs[j]).contains(y),
        decreases xs.len(),
    {
        if xs.len() > 0 {
            let init = xs.drop_last();
            self.lemma_preorder_list_contains(init, r, y);
            lemma_concat_contains(self.preorder_list(init, r), self.preorder(xs.last()), y);
            if exists|j: int| 0 <= j < xs.len() && #[trigger] self.preorder(xs[j]).contains(y) {
                let j = choose|j: int| 0 <= j < xs.len() && #[trigger] self.preorder(xs[j]).contains(y);
                if j < xs.len() - 1 {
                    assert(self.preorder(init[j]).contains(y));
                }
            }
            if exists|j: int| 0 <= j < init.len() && #[trigger] self.preorder(init[j]).contains(y) {
                let j = choose|j: int| 0 <= j < init.len() && #[trigger] self.preorder(init[j]).contains(y);
                assert(self.preorder(xs[j]).contains(y));
            }
        }
    }

    /// `y` is in the subtree at `x` exactly when it is `x` or lies in the
    /// subtree of one of `x`'s children.
    pub proof fn lemma_preorder_contains(self, x: usize, y: usize)
        requires
            self.wf(),
            x < self.arena_len(),
        ensures
            self.preorder(x).contains(y) <==> (y == x || exists|j: int|
                0 <= j < self.kids(x).len() && #[trigger] self.preorder(self.kids(x)[j]).contains(y)),
            self.preorder(x)[0] == x,
    {
        let xs = self.kids(x);
        assert forall|j: int| 0 <= j < xs.len() implies self.rank_of(#[trigger] xs[j]) < self.rank_of(x) by {
            assert(self.node_ok(x));
            assert(self.edge_ok(x, j));
        }
        self.lemma_preorder_list_contains(xs, self.rank_of(x), y);
        lemma_concat_contains(seq![x], self.preorder_list(xs, self.rank_of(x)), y);
        assert(seq![x].contains(y) <==> y == x) by {
            if y == x {
                assert(seq![x][0] == y);
            }
        }
    }

    /// The subtree of a child lies inside the subtree of its parent.
    pub proof fn lemma_child_subtree(self, x: usize, j: int)
        requires
            self.wf(),
            x < self.arena_len(),
            0 <= j < self.kids(x).len(),
        ensures
            forall|w: usize| #[trigger] self.preorder(self.kids(x)[j]).contains(w) ==> self.preorder(x).contains(w),
    {
        assert forall|w: usize| #[trigger] self.preorder(self.kids(x)[j]).contains(w) implies self.preorder(x).contains(w) by {
            self.lemma_preorder_contains(x, w);
        }
    }

    /// Every node of the subtree at `x` is in the arena, ranks no higher than
    /// `x`, has its children inside the subtree, and (unless it is `x`) has
    /// its parent inside the subtree.
    pub proof fn lemma_inside(self, x: usize)
        requires
            self.wf(),
            x < self.arena_len(),
        ensures
            forall|y: usize| #[trigger] self.preorder(x).contains(y) ==> self.inside(x, y),
        decreases self.rank_of(x),
    {
        assert(self.node_ok(x));
        assert forall|y: usize| #[trigger] self.preorder(x).contains(y) implies self.inside(x, y) by {
            self.lemma_preorder_contains(x, y);
            if y == x {
                assert forall|z: usize| #[trigger] self.kids(y).contains(z) implies self.preorder(x).contains(z) by {
                    let j = choose|j: int| 0 <= j < self.kids(x).len() && self.kids(x)[j] == z;
                    assert(self.edge_ok(x, j));
                    self.lemma_preorder_contains(z, z);
                    self.lemma_child_subtree(x, j);
                }
            } else {
                let j = choose|j: int| 0 <= j < self.kids(x).len() && #[trigger] self.preorder(self.kids(x)[j]).contains(y);
                let c = self.kids(x)[j];
                assert(self.edge_ok(x, j));
                self.lemma_inside(c);
                self.lemma_child_subtree(x, j);
                assert(self.inside(c, y));
                if y == c {
                    self.lemma_preorder_contains(x, x);
                }
            }
        }
    }

    /// Nodes `0..n` hold the same payload, parent and children in both arenas.
    pub open spec fn same_prefix(self, other: Tree, n: nat) -> bool {
        forall|i: usize| i < n ==> {
            &&& #[trigger] other.kids(i) == self.kids(i)
            &&& other.parent_of(i) == self.parent_of(i)
            &&& other.value_of(i) == self.value_of(i)
        }
    }

    /// `other` differs from `self` at most in the children of `node` and the
    /// parents of `a` and `b`.
    pub open spec fn edited(self, other: Tree, node: usize, a: usize, b: usize) -> bool {
        &&& other.arena_len() == self.arena_len()
        &&& other.root_node() == self.root_node()
        &&& forall|i: usize| i < self.arena_len() ==> {
            &&& #[trigger] other.value_of(i) == self.value_of(i)
            &&& (i != node ==> other.kids(i) == self.kids(i))
            &&& (i != a && i != b ==> other.parent_of(i) == self.parent_of(i))
        }
    }

    /// Node `i` of `other` is as in `self` after the children of `from` moved
    /// to `to`.
    pub open spec fn adopted_at(self, other: Tree, from: usize, to: usize, i: usize) -> bool {
        &&& other.value_of(i) == self.value_of(i)
        &&& (i != from && i != to ==> other.kids(i) == self.kids(i))
        &&& other.parent_of(i) == (if self.kids(from).contains(i) { Some(to) } else { self.parent_of(i) })
        &&& (i != to ==> other.rank_of(i) == self.rank_of(i))
    }

    pub open spec fn adopted(self, other: Tree, from: usize, to: usize) -> bool {
        &&& other.arena_len() == self.arena_len()
        &&& other.root_node() == self.root_node()
        &&& other.kids(to) == self.kids(from)
        &&& other.kids(from) == Seq::<usize>::empty()
        &&& other.rank_of(to) == self.rank_of(from)
        &&& forall|i: usize| i < self.arena_len() ==> #[trigger] self.adopted_at(other, from, to, i)
    }

    /// The children of `i` once `last`, a leaf, has taken the place of
    /// `target`: `target` keeps none, `last` takes those of `target`, and
    /// elsewhere `last` leaves its slot and fills that of `target`.
    pub open spec fn kids_after_splice(self, i: usize, target: usize, last: usize) -> Seq<usize> {
        if i == target {
            Seq::empty()
        } else if i == last {
            self.kids(target).remove_value(last)
        } else {
            renamed(self.kids(i).remove_value(last), target, last)
        }
    }

    /// The parent of `i` once `last` has taken the place of `target`.
    pub open spec fn parent_after_splice(self, i: usize, target: usize, last: usize) -> Option<usize> {
        if i == target {
            None
        } else if i == last {
            self.parent_of(target)
        } else if self.parent_of(i) == Some(target) {
            Some(last)
        } else {
            self.parent_of(i)
        }
    }

    /// The root once `last` has taken the place of `target`.
    pub open spec fn root_after_splice(self, target: usize, last: usize) -> Option<usize> {
        if self.root_node() == Some(target) {
            if target == last {
                None
            } else {
                Some(last)
            }
        } else {
            self.root_node()
        }
    }

    pub open spec fn spliced_at(self, other: Tree, target: usize, last: usize, i: usize) -> bool {
        &&& other.value_of(i) == self.value_of(i)
        &&& other.kids(i) == self.kids_after_splice(i, target, last)
        &&& other.parent_of(i) == self.parent_after_splice(i, target, last)
    }

    /// `other` is `self` once `last` has taken the place of `target`.
    pub open spec fn spliced(self, other: Tree, target: usize, last: usize) -> bool {
        &&& other.arena_len() == self.arena_len()
        &&& other.root_node() == self.root_after_splice(target, last)
        &&& forall|i: usize| i < self.arena_len() ==> #[trigger] self.spliced_at(other, target, last, i)
    }

    /// The preorder walk from the root (empty without a root).
    pub open spec fn walk_from_root(self) -> Seq<usize> {
        match self.root_node() {
            Some(r) => self.preorder(r),
            None => Seq::empty(),
        }
    }

    /// Some node reachable from the root holds `value`.
    pub open spec fn holds_value(self, value: i32) -> bool {
        exists|i: int| 0 <= i < self.walk_from_root().len() && self.value_of(#[trigger] self.walk_from_root()[i]) == value
    }

    /// `k` is the first position of the walk from the root that holds
    /// `value`.
    pub open spec fn first_position_of(self, value: i32, k: int) -> bool {
        &&& 0 <= k < self.walk_from_root().len()
        &&& self.value_of(self.walk_from_root()[k]) == value
        &&& forall|i: int| 0 <= i < k ==> self.value_of(#[trigger] self.walk_from_root()[i]) != value
    }

    /// The node that `delete(value)` removes: the first in preorder from the
    /// root that holds `value`.
    pub open spec fn delete_target(self, value: i32) -> usize {
        self.walk_from_root()[choose|k: int| self.first_position_of(value, k)]
    }

    /// The last node of the preorder walk from the root.
    pub open spec fn last_in_walk(self) -> usize {
        self.walk_from_root().last()
    }

    pub closed spec fn same_ranks(self, other: Tree) -> bool {
        other.rank == self.rank
    }

    pub proof fn lemma_frame_list(t1: Tree, t2: Tree, x: usize, n: int)
        requires
            t1.wf(),
            t2.wf(),
            x < t1.arena_len(),
            x < t2.arena_len(),
            forall|y: usize| #[trigger] t1.preorder(x).contains(y) ==> t2.kids(y) == t1.kids(y),
            0 <= n <= t1.kids(x).len(),
        ensures
            t2.preorder_list(t1.kids(x).take(n), t2.rank_of(x)) == t1.preorder_list(t1.kids(x).take(n), t1.rank_of(x)),
        decreases t1.rank_of(x), 0nat, n,
    {
        if n > 0 {
            let ks = t1.kids(x);
            let c = ks[n - 1];
            assert(ks.take(n).drop_last() =~= ks.take(n - 1));
            assert(ks.take(n).last() == c);
            t1.lemma_preorder_contains(x, x);
            assert(t2.kids(x) == ks);
            assert(t1.node_ok(x));
            assert(t2.node_ok(x));
            assert(t1.edge_ok(x, n - 1));
            assert(t2.edge_ok(x, n - 1));
            Tree::lemma_frame_list(t1, t2, x, n - 1);
            t1.lemma_child_subtree(x, n - 1);
            Tree::lemma_frame(t1, t2, c);
        }
    }

    /// A subtree walk depends only on the children lists inside the subtree.
    pub proof fn lemma_frame(t1: Tree, t2: Tree, x: usize)
        requires
            t1.wf(),
            t2.wf(),
            x < t1.arena_len(),
            x < t2.arena_len(),
            forall|y: usize| #[trigger] t1.preorder(x).contains(y) ==> t2.kids(y) == t1.kids(y),
        ensures
            t2.preorder(x) == t1.preorder(x),
        decreases t1.rank_of(x), 1nat, 0nat,
    {
        let ks = t1.kids(x);
        Tree::lemma_frame_list(t1, t2, x, ks.len() as int);
        assert(ks.take(ks.len() as int) =~= ks);
        t1.lemma_preorder_contains(x, x);
        assert(t2.kids(x) == ks);
    }

    /// Walks of `t2` after `c` was attached under `p` in `t1`: a subtree gains
    /// the subtree of `c` exactly when it holds `p`.
    pub proof fn lemma_attach(t1: Tree, t2: Tree, p: usize, c: usize, x: usize)
        requires
            t1.wf(),
            t2.wf(),
            t2.arena_len() == t1.arena_len(),
            p < t1.arena_len(),
            c < t1.arena_len(),
            x < t1.arena_len(),
            !t1.preorder(c).contains(p),
            t1.parent_of(c) is None,
            t2.kids(p) == t1.kids(p).push(c),
            forall|i: usize| i < t1.arena_len() && i != p ==> #[trigger] t2.kids(i) == t1.kids(i),
        ensures
            forall|y: usize| #[trigger] t2.preorder(x).contains(y) <==> (t1.preorder(x).contains(y) || (
                t1.preorder(x).contains(p) && t1.preorder(c).contains(y))),
        decreases t1.rank_of(x),
    {
        t1.lemma_inside(c);
        assert forall|y: usize| #[trigger] t1.preorder(c).contains(y) implies t2.kids(y) == t1.kids(y) by {
            assert(t1.inside(c, y));
        }
        Tree::lemma_frame(t1, t2, c);
        t1.lemma_inside(x);
        let n = t1.kids(x).len();
        assert(t1.node_ok(x));
        assert forall|j: int, y: usize| 0 <= j < n implies (#[trigger] t2.preorder(t1.kids(x)[j]).contains(y) <==> (
            t1.preorder(t1.kids(x)[j]).contains(y) || (t1.preorder(t1.kids(x)[j]).contains(p) && t1.preorder(c).contains(y)))) by {
            assert(t1.edge_ok(x, j));
            Tree::lemma_attach(t1, t2, p, c, t1.kids(x)[j]);
        }
        assert forall|y: usize| #[trigger] t2.preorder(x).contains(y) <==> (t1.preorder(x).contains(y) || (
            t1.preorder(x).contains(p) && t1.preorder(c).contains(y))) by {
            t1.lemma_preorder_contains(x, y);
            t2.lemma_preorder_contains(x, y);
            t1.lemma_preorder_contains(x, p);
            if t2.preorder(x).contains(y) && y != x {
                let j = choose|j: int| 0 <= j < t2.kids(x).len() && #[trigger] t2.preorder(t2.kids(x)[j]).contains(y);
                if j < n {
                    assert(t2.kids(x)[j] == t1.kids(x)[j]);
                    if !t1.preorder(t1.kids(x)[j]).contains(y) {
                        assert(t1.preorder(t1.kids(x)[j]).contains(p));
                    }
                } else {
                    assert(x == p);
                    assert(t2.kids(x)[j] == c);
                }
            }
            if t1.preorder(x).contains(y) && y != x {
                let j = choose|j: int| 0 <= j < n && #[trigger] t1.preorder(t1.kids(x)[j]).contains(y);
                assert(t2.kids(x)[j] == t1.kids(x)[j]);
                assert(t2.preorder(t2.kids(x)[j]).contains(y));
            }
            if t1.preorder(x).contains(p) && t1.preorder(c).contains(y) && y != x {
                if p == x {
                    assert(t2.kids(x)[n as int] == c);
                    assert(t2.preorder(t2.kids(x)[n as int]).contains(y));
                } else {
                    let j = choose|j: int| 0 <= j < n && #[trigger] t1.preorder(t1.kids(x)[j]).contains(p);
                    assert(t2.kids(x)[j] == t1.kids(x)[j]);
                    assert(t2.preorder(t2.kids(x)[j]).contains(y));
                }
            }
        }
    }

    /// An empty arena with no root.
    pub fn new() -> (t: Tree)
        ensures
            t.wf(),
            t.arena_len() == 0,
            t.root_node() is None,
            t.members() == Set::<usize>::empty(),
            t.capped(),
    {
        Tree { nodes: Vec::new(), root: None, rank: Ghost(Seq::empty()) }
    }

    /// The root of the tree, if any value was added.
    pub fn root(&self) -> (r: Option<usize>)
        ensures
            r == self.root_node(),
    {
        self.root
    }

    /// The number of nodes in the arena, attached or not.
    pub fn arena_size(&self) -> (r: usize)
        ensures
            r == self.arena_len(),
    {
        self.nodes.len()
    }

    /// The node at index `i`.
    pub fn node(&self, i: usize) -> (r: &Node)
        requires
            i < self.arena_len(),
        ensures
            r.value == self.value_of(i),
            r.parent == self.parent_of(i),
            r.children@ == self.kids(i),
            r.size == self.size_of(i),
    {
        &self.nodes[i]
    }

    /// Puts a fresh, detached node holding `value` into the arena and returns
    /// its index.
    pub fn new_node(&mut self, value: i32) -> (id: usize)
        requires
            old(self).wf(),
            old(self).arena_len() < usize::MAX,
        ensures
            final(self).wf(),
            id == old(self).arena_len(),
            final(self).arena_len() == old(self).arena_len() + 1,
            final(self).value_of(id) == value,
            final(self).kids(id) == Seq::<usize>::empty(),
            final(self).parent_of(id) is None,
            final(self).root_node() == old(self).root_node(),
            old(self).same_prefix(*final(self), old(self).arena_len()),
            forall|x: usize| x < old(self).arena_len() ==> #[trigger] final(self).preorder(x) == old(self).preorder(x),
            final(self).members() == old(self).members(),
    {
        let ghost t1 = *self;
        let id = self.nodes.len();
        self.nodes.push(Node::new(value));
        self.rank = Ghost(Seq::new((id + 1) as nat, |i: int| if i < id { t1.rank@[i] } else { 0 }));
        proof {
            assert forall|i: usize| i < self.arena_len() implies #[trigger] self.node_ok(i) by {
                if i < id {
                    assert(t1.node_ok(i));
                    assert forall|j: int| 0 <= j < self.kids(i).len() implies #[trigger] self.edge_ok(i, j) by {
                        assert(t1.edge_ok(i, j));
                    }
                }
            }
            assert forall|x: usize| x < id implies #[trigger] self.preorder(x) == t1.preorder(x) by {
                t1.lemma_inside(x);
                assert forall|y: usize| #[trigger] t1.preorder(x).contains(y) implies self.kids(y) == t1.kids(y) by {
                    assert(t1.inside(x, y));
                }
                Tree::lemma_frame(t1, *self, x);
            }
        }
        id
    }

    /// Attaches the detached node `child` as the last child of `parent`.
    pub fn add_child(&mut self, parent: usize, child: usize)
        requires
            old(self).wf(),
            parent < old(self).arena_len(),
            child < old(self).arena_len(),
            old(self).parent_of(child) is None,
            old(self).root_node() != Some(child),
            !old(self).preorder(child).contains(parent),
        ensures
            final(self).wf(),
            old(self).edited(*final(self), parent, child, child),
            final(self).kids(parent) == old(self).kids(parent).push(child),
            final(self).parent_of(child) == Some(parent),
            forall|x: usize, y: usize| x < old(self).arena_len() ==> (#[trigger] final(self).preorder(x).contains(y) <==> (
                old(self).preorder(x).contains(y) || (old(self).preorder(x).contains(parent) && old(self).preorder(child).contains(y)))),
    {
        let ghost t1 = *self;
        self.nodes[parent].children.push(child);
        self.nodes[parent].size = self.nodes[parent].children.len();
        self.nodes[child].parent = Some(parent);
        let ghost len = t1.arena_len();
        let ghost sub = t1.preorder(child);
        let ghost shift = t1.rank_of(child) + 1;
        self.rank = Ghost(Seq::new(len, |i: int| if sub.contains(i as usize) { t1.rank@[i] } else { t1.rank@[i] + shift }));
        proof {
            t1.lemma_inside(child);
            t1.lemma_preorder_contains(child, child);
            assert(t1.node_ok(parent));
            assert(!t1.kids(parent).contains(child)) by {
                if t1.kids(parent).contains(child) {
                    let j = choose|j: int| 0 <= j < t1.kids(parent).len() && t1.kids(parent)[j] == child;
                    assert(t1.edge_ok(parent, j));
                }
            }
            assert forall|i: usize| i < self.arena_len() implies #[trigger] self.node_ok(i) by {
                assert(t1.node_ok(i));
                assert forall|j: int| 0 <= j < self.kids(i).len() implies #[trigger] self.edge_ok(i, j) by {
                    let k = self.kids(i)[j];
                    if i == parent && j == t1.kids(parent).len() {
                        assert(k == child);
                    } else {
                        assert(t1.edge_ok(i, j));
                        assert(k != child);
                        if sub.contains(i) {
                            assert(t1.inside(child, i));
                            assert(t1.kids(i).contains(k));
                        } else if sub.contains(k) {
                            assert(t1.inside(child, k));
                        }
                    }
                }
                if i == child {
                    assert(self.kids(parent)[t1.kids(parent).len() as int] == child);
                } else if let Some(q) = self.parent_of(i) {
                    assert(t1.kids(q).contains(i));
                    let j = choose|j: int| 0 <= j < t1.kids(q).len() && t1.kids(q)[j] == i;
                    assert(self.kids(q)[j] == i);
                }
            }
            assert forall|x: usize, y: usize| x < len implies (#[trigger] self.preorder(x).contains(y) <==> (
                t1.preorder(x).contains(y) || (t1.preorder(x).contains(parent) && t1.preorder(child).contains(y)))) by {
                Tree::lemma_attach(t1, *self, parent, child, x);
            }
        }
    }

    /// Detaches and returns the child at `index` of `node`, shifting later
    /// children down; nothing changes when there is no such child.
    pub fn delete_child(&mut self, node: usize, index: usize) -> (r: Option<usize>)
        requires
            old(self).wf(),
            node < old(self).arena_len(),
        ensures
            final(self).wf(),
            index >= old(self).kids(node).len() ==> r is None && *final(self) == *old(self),
            index < old(self).kids(node).len() ==> {
                let k = old(self).kids(node)[index as int];
                &&& r == Some(k)
                &&& final(self).kids(node) == old(self).kids(node).remove(index as int)
                &&& final(self).parent_of(k) is None
                &&& old(self).edited(*final(self), node, k, k)
            },
            old(self).same_ranks(*final(self)),
    {
        if index >= self.nodes[node].children.len() {
            return None;
        }
        let ghost t1 = *self;
        proof {
            assert(t1.node_ok(node));
            assert(t1.edge_ok(node, index as int));
        }
        let k = self.nodes[node].children.remove(index);
        self.nodes[node].size = self.nodes[node].children.len();
        self.nodes[k].parent = None;
        proof {
            assert(t1.node_ok(node));
            assert(t1.edge_ok(node, index as int));
            let ks = t1.kids(node);
            assert forall|a: int, b: int| 0 <= a < b < ks.len() - 1 implies ks.remove(index as int)[a] != ks.remove(index as int)[b] by {
                let a1 = if a < index { a } else { a + 1 };
                let b1 = if b < index { b } else { b + 1 };
                assert(ks[a1] != ks[b1]);
            }
            assert(t1.root_node() != Some(k));
            assert forall|i: usize| i < self.arena_len() implies #[trigger] self.node_ok(i) by {
                assert(t1.node_ok(i));
                assert forall|j: int| 0 <= j < self.kids(i).len() implies #[trigger] self.edge_ok(i, j) by {
                    if i == node {
                        let j1 = if j < index { j } else { j + 1 };
                        assert(t1.edge_ok(i, j1));
                        assert(ks[j1] != k);
                    } else {
                        assert(t1.edge_ok(i, j));
                        assert(t1.kids(i)[j] != k);
                    }
                }
                if i != k {
                    if let Some(q) = self.parent_of(i) {
                        let j = choose|j: int| 0 <= j < t1.kids(q).len() && t1.kids(q)[j] == i;
                        if q == node {
                            assert(j != index);
                            let j2 = if j < index { j } else { j - 1 };
                            assert(self.kids(q)[j2] == i);
                        } else {
                            assert(self.kids(q)[j] == i);
                        }
                    }
                }
            }
        }
        Some(k)
    }

    /// Detaches and returns the first child of `node` whose value is
    /// `target`; nothing changes when no child holds it.
    pub fn delete_child_by_value(&mut self, node: usize, target: i32) -> (r: Option<usize>)
        requires
            old(self).wf(),
            node < old(self).arena_len(),
        ensures
            final(self).wf(),
            r is None <==> forall|j: int| 0 <= j < old(self).kids(node).len() ==> old(self).value_of(
                #[trigger] old(self).kids(node)[j]) != target,
            r is None ==> *final(self) == *old(self),
            r is Some ==> exists|j: int| {
                &&& 0 <= j < old(self).kids(node).len()
                &&& r == Some(#[trigger] old(self).kids(node)[j])
                &&& old(self).value_of(old(self).kids(node)[j]) == target
                &&& (forall|i: int| 0 <= i < j ==> old(self).value_of(#[trigger] old(self).kids(node)[i]) != target)
                &&& final(self).kids(node) == old(self).kids(node).remove(j)
            },
            r matches Some(k) ==> final(self).parent_of(k) is None && old(self).edited(*final(self), node, k, k),
    {
        match self.first_child_with_value(node, target) {
            Some(j) => {
                let ghost t1 = *self;
                let r = self.delete_child(node, j);
                proof {
                    let k = t1.kids(node)[j as int];
                    assert(r == Some(k));
                    assert(self.parent_of(k) is None);
                    assert(t1.value_of(t1.kids(node)[j as int]) == target);
                }
                r
            },
            None => None,
        }
    }

    /// Puts the detached node `new` into slot `j` of `node`'s children and
    /// detaches the child that was there, which is returned.
    fn put_child_at(&mut self, node: usize, j: usize, new: usize) -> (d: usize)
        requires
            old(self).wf(),
            node < old(self).arena_len(),
            j < old(self).kids(node).len(),
            new < old(self).arena_len(),
            old(self).parent_of(new) is None,
            old(self).root_node() != Some(new),
            !old(self).preorder(new).contains(node),
        ensures
            final(self).wf(),
            d == old(self).kids(node)[j as int],
            final(self).kids(node) == old(self).kids(node).update(j as int, new),
            final(self).parent_of(new) == Some(node),
            final(self).parent_of(d) is None,
            old(self).edited(*final(self), node, new, d),
    {
        let ghost t1 = *self;
        proof {
            assert(t1.node_ok(node));
            assert(t1.edge_ok(node, j as int));
        }
        let d = self.nodes[node].children[j];
        self.nodes[node].children.set(j, new);
        self.nodes[d].parent = None;
        self.nodes[new].parent = Some(node);
        let ghost len = t1.arena_len();
        let ghost sub = t1.preorder(new);
        let ghost shift = t1.rank_of(new) + 1;
        self.rank = Ghost(Seq::new(len, |i: int| if sub.contains(i as usize) { t1.rank@[i] } else { t1.rank@[i] + shift }));
        proof {
            t1.lemma_inside(new);
            t1.lemma_preorder_contains(new, new);
            let ks = t1.kids(node);
            assert(!ks.contains(new)) by {
                if ks.contains(new) {
                    let a = choose|a: int| 0 <= a < ks.len() && ks[a] == new;
                    assert(t1.edge_ok(node, a));
                }
            }
            assert(t1.root_node() != Some(d));
            assert forall|i: usize| i < self.arena_len() implies #[trigger] self.node_ok(i) by {
                assert(t1.node_ok(i));
                if i == node {
                    assert forall|a: int, b: int| 0 <= a < b < ks.len() implies self.kids(i)[a] != self.kids(i)[b] by {
                        if a != j && b != j {
                            assert(ks[a] != ks[b]);
                        } else if a != j {
                            assert(ks[a] != new) by { assert(ks.contains(ks[a])); }
                        } else {
                            assert(ks[b] != new) by { assert(ks.contains(ks[b])); }
                        }
                    }
                }
                assert forall|a: int| 0 <= a < self.kids(i).len() implies #[trigger] self.edge_ok(i, a) by {
                    let k = self.kids(i)[a];
                    if i == node && a == j {
                        assert(k == new);
                    } else {
                        assert(t1.edge_ok(i, a));
                        assert(k != new);
                        if i == node {
                            assert(ks[a] != ks[j as int]);
                        }
                        assert(k != d) by {
                            if k == d {
                                assert(t1.edge_ok(node, j as int));
                            }
                        }
                        if sub.contains(i) {
                            assert(t1.inside(new, i));
                            assert(t1.kids(i).contains(k));
                        } else if sub.contains(k) {
                            assert(t1.inside(new, k));
                        }
                    }
                }
                if i == new {
                    assert(self.kids(node)[j as int] == new);
                } else if i != d {
                    if let Some(q) = self.parent_of(i) {
                        assert(t1.kids(q).contains(i));
                        let b = choose|b: int| 0 <= b < t1.kids(q).len() && t1.kids(q)[b] == i;
                        if q == node {
                            assert(b != j);
                        }
                        assert(self.kids(q)[b] == i);
                    }
                }
            }
        }
        d
    }

    /// Replaces the first child of `node` whose value equals the value of
    /// `old_child` by the detached node `new_child`, keeping the order of the
    /// other children; the replaced child is detached. Nothing changes when no
    /// child holds that value.
    pub fn replace_children(&mut self, node: usize, old_child: usize, new_child: usize)
        requires
            old(self).wf(),
            node < old(self).arena_len(),
            old_child < old(self).arena_len(),
            new_child < old(self).arena_len(),
            old(self).parent_of(new_child) is None,
            old(self).root_node() != Some(new_child),
            !old(self).preorder(new_child).contains(node),
        ensures
            final(self).wf(),
            (forall|j: int| 0 <= j < old(self).kids(node).len() ==> old(self).value_of(#[trigger] old(self).kids(node)[j])
                != old(self).value_of(old_child)) ==> *final(self) == *old(self),
            (exists|j: int| 0 <= j < old(self).kids(node).len() && old(self).value_of(#[trigger] old(self).kids(node)[j])
                == old(self).value_of(old_child)) ==> exists|j: int| {
                let d = #[trigger] old(self).kids(node)[j];
                &&& 0 <= j < old(self).kids(node).len()
                &&& old(self).value_of(d) == old(self).value_of(old_child)
                &&& (forall|i: int| 0 <= i < j ==> old(self).value_of(#[trigger] old(self).kids(node)[i]) != old(self).value_of(old_child))
                &&& final(self).kids(node) == old(self).kids(node).update(j, new_child)
                &&& final(self).parent_of(new_child) == Some(node)
                &&& final(self).parent_of(d) is None
                &&& old(self).edited(*final(self), node, new_child, d)
            },
    {
        let target = self.nodes[old_child].value;
        if let Some(j) = self.first_child_with_value(node, target) {
            let ghost t1 = *self;
            self.put_child_at(node, j, new_child);
            proof {
                let d = t1.kids(node)[j as int];
                assert(t1.value_of(d) == t1.value_of(old_child));
            }
        }
    }

    /// The position of the first child of `node` whose value is `target`.
    fn first_child_with_value(&self, node: usize, target: i32) -> (r: Option<usize>)
        requires
            self.wf(),
            node < self.arena_len(),
        ensures
            r is None <==> forall|j: int| 0 <= j < self.kids(node).len() ==> self.value_of(
                #[trigger] self.kids(node)[j]) != target,
            r matches Some(j) ==> {
                &&& j < self.kids(node).len()
                &&& self.value_of(self.kids(node)[j as int]) == target
                &&& forall|i: int| 0 <= i < j ==> self.value_of(#[trigger] self.kids(node)[i]) != target
            },
    {
        let n = self.nodes[node].children.len();
        let mut j: usize = 0;
        while j < n
            invariant
                self.wf(),
                node < self.arena_len(),
                n == self.kids(node).len(),
                j <= n,
                forall|i: int| 0 <= i < j ==> self.value_of(#[trigger] self.kids(node)[i]) != target,
            decreases n - j,
        {
            let c = self.nodes[node].children[j];
            proof {
                assert(self.node_ok(node));
                assert(self.edge_ok(node, j as int));
            }
            if self.nodes[c].value == target {
                return Some(j);
            }
            j = j + 1;
        }
        None
    }

    /// The first of `xs` that has fewer than two children.
    pub open spec fn first_open_child(self, xs: Seq<usize>) -> Option<usize>
        decreases xs.len(),
    {
        if xs.len() == 0 {
            None
        } else if self.kids(xs[0]).len() < 2 {
            Some(xs[0])
        } else {
            self.first_open_child(xs.drop_first())
        }
    }

    /// Where `add` places a new value below `x`: `x` itself if it has fewer
    /// than two children; else its first child with fewer than two children;
    /// else the first such place found below its children, taken in order.
    pub open spec fn first_available(self, x: usize) -> Option<usize>
        decreases self.rank_of(x), 1nat, 0nat,
    {
        if self.kids(x).len() < 2 {
            Some(x)
        } else {
            match self.first_open_child(self.kids(x)) {
                Some(c) => Some(c),
                None => self.first_available_list(self.kids(x), self.rank_of(x)),
            }
        }
    }

    pub open spec fn first_available_list(self, xs: Seq<usize>, r: nat) -> Option<usize>
        decreases r, 0nat, xs.len(),
    {
        if xs.len() == 0 {
            None
        } else if self.rank_of(xs[0]) < r {
            match self.first_available(xs[0]) {
                Some(n) => Some(n),
                None => self.first_available_list(xs.drop_first(), r),
            }
        } else {
            self.first_available_list(xs.drop_first(), r)
        }
    }

    /// No node reachable from the root has more than two children.
    pub open spec fn capped(self) -> bool {
        forall|x: usize| #[trigger] self.members().contains(x) ==> self.kids(x).len() <= 2
    }

    proof fn lemma_first_open_child(self, xs: Seq<usize>)
        ensures
            self.first_open_child(xs) matches Some(c) ==> xs.contains(c) && self.kids(c).len() < 2,
        decreases xs.len(),
    {
        if xs.len() > 0 && self.kids(xs[0]).len() >= 2 {
            self.lemma_first_open_child(xs.drop_first());
            if let Some(c) = self.first_open_child(xs.drop_first()) {
                let j = choose|j: int| 0 <= j < xs.drop_first().len() && xs.drop_first()[j] == c;
                assert(xs[j + 1] == c);
            }
        } else if xs.len() > 0 {
            assert(xs[0] == xs[0]);
        }
    }

    /// In a well-formed tree there is always a place for a new value: a node
    /// of the subtree with fewer than two children.
    pub proof fn lemma_first_available(self, x: usize)
        requires
            self.wf(),
            x < self.arena_len(),
        ensures
            self.first_available(x) matches Some(p) && self.preorder(x).contains(p) && self.kids(p).len() < 2,
        decreases self.rank_of(x),
    {
        self.lemma_preorder_contains(x, x);
        let ks = self.kids(x);
        if ks.len() >= 2 {
            assert(self.node_ok(x));
            self.lemma_first_open_child(ks);
            match self.first_open_child(ks) {
                Some(c) => {
                    let j = choose|j: int| 0 <= j < ks.len() && ks[j] == c;
                    assert(self.edge_ok(x, j));
                    self.lemma_preorder_contains(c, c);
                    self.lemma_child_subtree(x, j);
                },
                None => {
                    assert(self.edge_ok(x, 0));
                    self.lemma_first_available(ks[0]);
                    self.lemma_child_subtree(x, 0);
                },
            }
        }
    }

    /// Finds where `add` places a new value below `node`.
    pub fn find_non_complete_child_node(&self, node: usize) -> (r: Option<usize>)
        requires
            self.wf(),
            node < self.arena_len(),
        ensures
            r == self.first_available(node),
        decreases self.rank_of(node),
    {
        let n = self.nodes[node].children.len();
        if n < 2 {
            return Some(node);
        }
        assert(self.node_ok(node));
        let ghost ks = self.kids(node);
        assert(ks.subrange(0, n as int) =~= ks);
        let mut j: usize = 0;
        while j < n
            invariant
                self.wf(),
                node < self.arena_len(),
                ks == self.kids(node),
                n == ks.len(),
                j <= n,
                self.first_open_child(ks) == self.first_open_child(ks.subrange(j as int, n as int)),
                n >= 2,
            decreases n - j,
        {
            let c = self.nodes[node].children[j];
            assert(self.node_ok(node));
            assert(self.edge_ok(node, j as int));
            assert(ks.subrange(j as int, n as int)[0] == c);
            assert(ks.subrange(j as int, n as int).drop_first() =~= ks.subrange(j + 1, n as int));
            if self.nodes[c].children.len() < 2 {
                assert(self.first_open_child(ks.subrange(j as int, n as int)) == Some(c));
                return Some(c);
            }
            j = j + 1;
        }
        assert(ks.subrange(n as int, n as int) =~= Seq::<usize>::empty());
        let ghost r = self.rank_of(node);
        let mut j: usize = 0;
        while j < n
            invariant
                self.wf(),
                node < self.arena_len(),
                ks == self.kids(node),
                r == self.rank_of(node),
                n == ks.len(),
                j <= n,
                self.first_available_list(ks, r) == self.first_available_list(ks.subrange(j as int, n as int), r),
                self.first_open_child(ks) is None,
                n >= 2,
            decreases n - j,
        {
            let c = self.nodes[node].children[j];
            assert(self.node_ok(node));
            assert(self.edge_ok(node, j as int));
            assert(ks.subrange(j as int, n as int)[0] == c);
            assert(ks.subrange(j as int, n as int).drop_first() =~= ks.subrange(j + 1, n as int));
            let found = self.find_non_complete_child_node(c);
            if found.is_some() {
                return found;
            }
            j = j + 1;
        }
        assert(ks.subrange(n as int, n as int) =~= Seq::<usize>::empty());
        None
    }

    /// Adds `value` to the tree: as the root if the tree is empty, else as
    /// the last child of the node that `find_non_complete_child_node` picks
    /// from the root.
    pub fn add(&mut self, value: i32)
        requires
            old(self).wf(),
            old(self).arena_len() < usize::MAX,
        ensures
            final(self).wf(),
            final(self).arena_len() == old(self).arena_len() + 1,
            final(self).value_of(old(self).arena_len() as usize) == value,
            final(self).kids(old(self).arena_len() as usize) == Seq::<usize>::empty(),
            old(self).root_node() is None ==> final(self).root_node() == Some(old(self).arena_len() as usize)
                && final(self).parent_of(old(self).arena_len() as usize) is None,
            old(self).root_node() matches Some(r) ==> {
                &&& final(self).root_node() == Some(r)
                &&& old(self).first_available(r) matches Some(p)
                &&& final(self).parent_of(old(self).arena_len() as usize) == Some(p)
                &&& final(self).kids(p) == old(self).kids(p).push(old(self).arena_len() as usize)
                &&& old(self).kids(p).len() < 2
                &&& forall|i: usize| i < old(self).arena_len() && i != p ==> #[trigger] final(self).kids(i) == old(self).kids(i)
            },
            forall|i: usize| i < old(self).arena_len() ==> {
                &&& #[trigger] final(self).value_of(i) == old(self).value_of(i)
                &&& final(self).parent_of(i) == old(self).parent_of(i)
            },
            !old(self).members().contains(old(self).arena_len() as usize),
            final(self).members() == old(self).members().insert(old(self).arena_len() as usize),
            final(self).members().len() == old(self).members().len() + 1,
            old(self).capped() ==> final(self).capped(),
    {
        let ghost t0 = *self;
        let ghost c0 = t0.arena_len() as usize;
        match self.root {
            Some(root) => {
                proof {
                    t0.lemma_first_available(root);
                    t0.lemma_inside(root);
                }
                let p = self.find_non_complete_child_node(root).unwrap();
                let c = self.new_node(value);
                let ghost t1 = *self;
                proof {
                    assert(t1.preorder(c) =~= seq![c]);
                    assert(t0.inside(root, p));
                }
                self.add_child(p, c);
                proof {
                    assert(t1.preorder(root) == t0.preorder(root));
                    assert(t1.preorder(root).contains(p));
                    assert forall|y: usize| self.members().contains(y) <==> t0.members().insert(c).contains(y) by {
                        assert(self.preorder(root).contains(y) <==> (t1.preorder(root).contains(y) || t1.preorder(c).contains(y)));
                        if y == c {
                            assert(t1.preorder(c)[0] == c);
                        }
                    }
                    assert(self.members() =~= t0.members().insert(c));
                    assert forall|i: usize| i < t0.arena_len() implies {
                        &&& #[trigger] self.value_of(i) == t0.value_of(i)
                        &&& self.parent_of(i) == t0.parent_of(i)
                    } by {
                        assert(t1.kids(i) == t0.kids(i));
                        assert(self.value_of(i) == t1.value_of(i));
                    }
                    assert(t1.kids(p) == t0.kids(p));
                    assert forall|i: usize| i < t0.arena_len() && i != p implies #[trigger] self.kids(i) == t0.kids(i) by {
                        assert(t1.kids(i) == t0.kids(i));
                        assert(self.value_of(i) == t1.value_of(i));
                    }
                    if t0.capped() {
                        assert forall|x: usize| #[trigger] self.members().contains(x) implies self.kids(x).len() <= 2 by {
                            if x != c {
                                assert(t0.members().contains(x));
                                assert(t1.kids(x) == t0.kids(x));
                                assert(self.value_of(x) == t1.value_of(x));
                            } else {
                                assert(self.value_of(c) == t1.value_of(c));
                            }
                        }
                    }
                    assert(!t0.members().contains(c)) by {
                        if t0.members().contains(c) {
                            assert(t0.inside(root, c));
                        }
                    }
                }
            },
            None => {
                let c = self.new_node(value);
                let ghost t1 = *self;
                self.root = Some(c);
                proof {
                    assert forall|i: usize| i < self.arena_len() implies #[trigger] self.node_ok(i) by {
                        assert(t1.node_ok(i));
                        assert forall|j: int| 0 <= j < self.kids(i).len() implies #[trigger] self.edge_ok(i, j) by {
                            assert(t1.edge_ok(i, j));
                        }
                    }
                    assert(self.preorder(c) =~= seq![c]);
                    assert forall|y: usize| self.members().contains(y) <==> y == c by {
                        if y == c {
                            assert(self.preorder(c)[0] == c);
                        }
                    }
                    assert(self.members() =~= Set::<usize>::empty().insert(c));
                    assert(t0.members() =~= Set::<usize>::empty());
                    assert forall|i: usize| i < t0.arena_len() implies {
                        &&& #[trigger] self.value_of(i) == t0.value_of(i)
                        &&& self.parent_of(i) == t0.parent_of(i)
                    } by {
                        assert(t1.kids(i) == t0.kids(i));
                    }
                }
            },
        }
        proof {
            vstd::seq_lib::seq_to_set_is_finite(t0.preorder(t0.root_node().unwrap_or(0)));
            assert(t0.members().finite());
            vstd::set::axiom_set_insert_len(t0.members(), c0);
        }
    }

    /// A child points back at its parent.
    pub proof fn lemma_kid_parent(self, i: usize, c: usize)
        requires
            self.wf(),
            i < self.arena_len(),
            self.kids(i).contains(c),
        ensures
            self.parent_of(c) == Some(i),
            c < self.arena_len(),
    {
        assert(self.node_ok(i));
        let a = choose|a: int| 0 <= a < self.kids(i).len() && self.kids(i)[a] == c;
        assert(self.edge_ok(i, a));
    }

    /// The last node of a preorder walk has no children.
    pub proof fn lemma_last_is_leaf(self, x: usize)
        requires
            self.wf(),
            x < self.arena_len(),
        ensures
            self.kids(self.preorder(x).last()).len() == 0,
        decreases self.rank_of(x),
    {
        let ks = self.kids(x);
        assert(self.node_ok(x));
        if ks.len() > 0 {
            let c = ks.last();
            assert(self.edge_ok(x, ks.len() - 1));
            self.lemma_last_is_leaf(c);
            let rest = self.preorder_list(ks.drop_last(), self.rank_of(x));
            assert(self.preorder(x) =~= (seq![x] + rest) + self.preorder(c));
        } else {
            assert(self.preorder(x) =~= seq![x]);
        }
    }

    /// The position of `c` among the children of `p`.
    fn child_index(&self, p: usize, c: usize) -> (r: usize)
        requires
            self.wf(),
            p < self.arena_len(),
            self.kids(p).contains(c),
        ensures
            r < self.kids(p).len(),
            self.kids(p)[r as int] == c,
    {
        let n = self.nodes[p].children.len();
        let mut j: usize = 0;
        while j < n
            invariant
                n == self.kids(p).len(),
                p < self.arena_len(),
                j <= n,
                self.kids(p).contains(c),
                forall|i: int| 0 <= i < j ==> self.kids(p)[i] != c,
            decreases n - j,
        {
            if self.nodes[p].children[j] == c {
                return j;
            }
            j = j + 1;
        }
        proof {
            let i = choose|i: int| 0 <= i < self.kids(p).len() && self.kids(p)[i] == c;
            assert(self.kids(p)[i] != c);
        }
        0
    }

    /// Moves all children of `from` to the detached, childless node `to`,
    /// which takes over the rank of `from`.
    fn adopt_children(&mut self, from: usize, to: usize)
        requires
            old(self).wf(),
            from < old(self).arena_len(),
            to < old(self).arena_len(),
            from != to,
            old(self).kids(to).len() == 0,
            old(self).parent_of(to) is None,
        ensures
            final(self).wf(),
            old(self).adopted(*final(self), from, to),
    {
        let ghost t0 = *self;
        let mut moved: Vec<usize> = Vec::new();
        std::mem::swap(&mut moved, &mut self.nodes[from].children);
        self.nodes[from].size = 0;
        let n = moved.len();
        assert(t0.node_ok(from));
        let mut i: usize = 0;
        while i < n
            invariant
                n == moved@.len(),
                moved@ == t0.kids(from),
                t0.wf(),
                from < t0.arena_len(),
                i <= n,
                self.nodes@.len() == t0.nodes@.len(),
                self.root == t0.root,
                self.rank == t0.rank,
                forall|x: usize| x < t0.arena_len() ==> {
                    &&& #[trigger] self.value_of(x) == t0.value_of(x)
                    &&& (x != from ==> self.kids(x) == t0.kids(x))
                    &&& (x != from ==> self.size_of(x) == t0.size_of(x))
                    &&& self.parent_of(x) == (if moved@.take(i as int).contains(x) { Some(to) } else { t0.parent_of(x) })
                },
                self.kids(from) == Seq::<usize>::empty(),
                self.size_of(from) == 0,
            decreases n - i,
        {
            let c = moved[i];
            assert(t0.node_ok(from));
            assert(t0.edge_ok(from, i as int));
            let ghost s0 = *self;
            self.nodes[c].parent = Some(to);
            i = i + 1;
            proof {
                let next = moved@.take(i as int);
                let prev = moved@.take(i - 1);
                assert(next =~= prev.push(c));
                assert forall|x: usize| x < t0.arena_len() implies {
                    &&& #[trigger] self.value_of(x) == t0.value_of(x)
                    &&& (x != from ==> self.kids(x) == t0.kids(x))
                    &&& (x != from ==> self.size_of(x) == t0.size_of(x))
                    &&& self.parent_of(x) == (if next.contains(x) { Some(to) } else { t0.parent_of(x) })
                } by {
                    assert(s0.value_of(x) == t0.value_of(x));
                    if x == c {
                        assert(next[i - 1] == c);
                    } else if next.contains(x) {
                        let a = choose|a: int| 0 <= a < next.len() && next[a] == x;
                        assert(prev[a] == x);
                    } else if prev.contains(x) {
                        let a = choose|a: int| 0 <= a < prev.len() && prev[a] == x;
                        assert(next[a] == x);
                    }
                }
            }
        }
        assert(moved@.take(n as int) =~= moved@);
        let ghost t1 = *self;
        self.nodes[to].children = moved;
        self.nodes[to].size = n;
        self.rank = Ghost(Seq::new(t0.arena_len(), |x: int| if x == to { t0.rank@[from as int] } else { t0.rank@[x] }));
        proof {
            assert(t0.node_ok(to));
            assert(!t0.kids(from).contains(to)) by {
                if t0.kids(from).contains(to) {
                    let a = choose|a: int| 0 <= a < t0.kids(from).len() && t0.kids(from)[a] == to;
                    assert(t0.edge_ok(from, a));
                }
            }
            assert forall|x: usize| x < self.arena_len() implies #[trigger] self.node_ok(x) by {
                assert(t0.node_ok(x));
                assert(t1.value_of(x) == t0.value_of(x));
                assert forall|j: int| 0 <= j < self.kids(x).len() implies #[trigger] self.edge_ok(x, j) by {
                    let c = self.kids(x)[j];
                    if x == to {
                        assert(t0.node_ok(from));
                        assert(t0.edge_ok(from, j));
                        assert(t0.kids(from).contains(self.kids(x)[j]));
                        assert(t1.value_of(c) == t0.value_of(c));
                    } else {
                        assert(t0.edge_ok(x, j));
                        assert(t1.value_of(c) == t0.value_of(c));
                        assert(c != to);
                        assert(!t0.kids(from).contains(c)) by {
                            if t0.kids(from).contains(c) {
                                let a = choose|a: int| 0 <= a < t0.kids(from).len() && t0.kids(from)[a] == c;
                                assert(t0.edge_ok(from, a));
                            }
                        }
                    }
                }
                if let Some(q) = self.parent_of(x) {
                    assert(t1.value_of(q) == t0.value_of(q));
                    if !t0.kids(from).contains(x) {
                        assert(t0.parent_of(x) == Some(q));
                        assert(t0.kids(q).contains(x));
                        assert(q != from);
                        assert(q != to) by {
                            if q == to {
                                assert(t0.kids(to).contains(x));
                            }
                        }
                    }
                }
            }
            assert forall|x: usize| x < t0.arena_len() implies #[trigger] t0.adopted_at(*self, from, to, x) by {
                assert(t1.value_of(x) == t0.value_of(x));
            }
            assert(t0.adopted(*self, from, to));
            if let Some(r) = self.root {
                assert(!t0.kids(from).contains(r)) by {
                    if t0.kids(from).contains(r) {
                        let a = choose|a: int| 0 <= a < t0.kids(from).len() && t0.kids(from)[a] == r;
                        assert(t0.edge_ok(from, a));
                    }
                }
                assert(t1.value_of(r) == t0.value_of(r));
            }
        }
    }

    /// Deletes the first node, in preorder from the root, that holds
    /// `value`: the last node of the preorder walk (always a leaf) leaves its
    /// place and takes that of the deleted node, with its children. Returns
    /// whether a node held `value`; the tree is unchanged when none did.
    pub fn delete(&mut self, value: i32) -> (r: bool)
        requires
            old(self).wf(),
        ensures
            final(self).wf(),
            r == old(self).holds_value(value),
            !r ==> *final(self) == *old(self),
            r ==> old(self).spliced(*final(self), old(self).delete_target(value), old(self).last_in_walk()),
            r ==> old(self).members().contains(old(self).delete_target(value)),
            r ==> final(self).members() == old(self).members().remove(old(self).delete_target(value)),
            r ==> final(self).members().len() + 1 == old(self).members().len(),
    {
        let root = match self.root {
            Some(root) => root,
            None => return false,
        };
        let iterator = NodeIterator::new(self, root, IterationType::Preorder);
        let ghost t0 = *self;
        let ghost s = t0.preorder(root);
        proof {
            t0.lemma_inside(root);
            t0.lemma_preorder_contains(root, root);
            assert forall|i: int| 0 <= i < iterator.remaining().len() implies #[trigger] iterator.remaining()[i] < self.arena_len() by {
                assert(s.contains(s[i]));
                assert(t0.inside(root, s[i]));
            }
        }
        let k = match iterator.position_of(self, value) {
            Some(k) => k,
            None => {
                proof {
                    assert(!t0.holds_value(value));
                }
                return false;
            },
        };
        let last = iterator.first().unwrap();
        let target = iterator.element_at(k).unwrap();
        proof {
            assert(t0.first_position_of(value, k as int));
            let k2 = choose|k2: int| t0.first_position_of(value, k2);
            assert(k2 == k) by {
                if k2 < k {
                    assert(t0.value_of(s[k2]) != value);
                } else if k < k2 {
                    assert(t0.value_of(s[k as int]) != value);
                }
            }
            assert(t0.delete_target(value) == target);
            assert(t0.last_in_walk() == last);
            assert(s.contains(last));
            assert(s.contains(target));
            assert(t0.inside(root, last));
            assert(t0.inside(root, target));
            t0.lemma_last_is_leaf(root);
            assert(t0.node_ok(last));
            assert(t0.node_ok(target));
        }
        if target == last {
            match self.nodes[last].parent {
                Some(p) => {
                    let j = self.child_index(p, last);
                    self.delete_child(p, j);
                    proof {
                        let t1 = *self;
                        assert(t0.node_ok(p));
                        assert(p != last) by {
                            if p == last {
                                assert(t0.kids(p)[j as int] == last);
                            }
                        }
                        lemma_remove_value_at(t0.kids(p), j as int);
                        assert forall|i: usize| i < t0.arena_len() implies #[trigger] t0.spliced_at(t1, target, last, i) by {
                            assert(t1.value_of(i) == t0.value_of(i));
                            assert(t0.node_ok(i));
                            if i != p {
                                if t0.kids(i).contains(last) {
                                    t0.lemma_kid_parent(i, last);
                                }
                                lemma_remove_value_absent(t0.kids(i), last);
                            }
                            let u = t0.kids(i).remove_value(last);
                            if i == p {
                                assert(!u.contains(last));
                            }
                            lemma_renamed(u, last, last);
                            if t0.parent_of(i) == Some(last) {
                                assert(t0.kids(last).contains(i));
                            }
                            assert(t1.kids(i) == t0.kids_after_splice(i, target, last));
                            assert(t1.parent_of(i) == t0.parent_after_splice(i, target, last));
                        }
                    }
                },
                None => {
                    let ghost t1 = *self;
                    self.root = None;
                    proof {
                        assert(last == root);
                        assert forall|i: usize| i < self.arena_len() implies #[trigger] self.node_ok(i) by {
                            assert(t1.node_ok(i));
                            assert forall|j: int| 0 <= j < self.kids(i).len() implies #[trigger] self.edge_ok(i, j) by {
                                assert(t1.edge_ok(i, j));
                            }
                        }
                        assert forall|i: usize| i < t0.arena_len() implies #[trigger] t0.spliced_at(*self, target, last, i) by {
                            assert(t0.node_ok(i));
                            assert(!t0.kids(i).contains(last)) by {
                                if t0.kids(i).contains(last) {
                                    let a = choose|a: int| 0 <= a < t0.kids(i).len() && t0.kids(i)[a] == last;
                                    assert(t0.edge_ok(i, a));
                                }
                            }
                            lemma_remove_value_absent(t0.kids(i), last);
                            lemma_renamed(t0.kids(i), last, last);
                            if t0.parent_of(i) == Some(last) {
                                assert(t0.kids(last).contains(i));
                            }
                            assert(self.kids(i) == t1.kids(i));
                            assert(self.kids(i) == t0.kids_after_splice(i, target, last));
                            assert(self.parent_of(i) == t0.parent_after_splice(i, target, last));
                        }
                    }
                },
            }
            proof {
                Tree::lemma_splice_members(t0, *self, target, last);
            }
            return true;
        }
        proof {
            if last == root {
                assert(s =~= seq![root]);
                assert(s[k as int] == root);
            }
        }
        let p_last = self.nodes[last].parent.unwrap();
        let j = self.child_index(p_last, last);
        self.delete_child(p_last, j);
        let ghost t1 = *self;
        proof {
            assert(t0.node_ok(p_last));
            lemma_remove_value_at(t0.kids(p_last), j as int);
            assert(t1.value_of(last) == t0.value_of(last));
            assert(t1.value_of(target) == t0.value_of(target));
            assert(!t1.kids(target).contains(last)) by {
                if t0.kids(target).contains(last) {
                    t0.lemma_kid_parent(target, last);
                }
            }
        }
        self.adopt_children(target, last);
        let ghost t2 = *self;
        proof {
            assert(t1.wf());
            assert(t1.node_ok(target));
            assert(!t1.kids(target).contains(target)) by {
                if t1.kids(target).contains(target) {
                    let a = choose|a: int| 0 <= a < t1.kids(target).len() && t1.kids(target)[a] == target;
                    assert(t1.edge_ok(target, a));
                }
            }
            assert(t1.adopted_at(t2, target, last, target));
            assert(t1.adopted_at(t2, target, last, last));
        }
        match self.nodes[target].parent {
            Some(np) => {
                proof {
                    assert(t0.kids(np).contains(target));
                    assert(np != last) by {
                        if np == last {
                            assert(t0.kids(last).len() > 0);
                        }
                    }
                    let a = choose|a: int| 0 <= a < t0.kids(np).len() && t0.kids(np)[a] == target;
                    assert(t0.node_ok(np));
                    assert(t0.edge_ok(np, a));
                    assert(t1.adopted_at(t2, target, last, np));
                    assert(t2.node_ok(target));
                    t2.lemma_inside(last);
                    assert(!t2.preorder(last).contains(np)) by {
                        if t2.preorder(last).contains(np) {
                            assert(t2.inside(last, np));
                        }
                    }
                }
                let jt = self.child_index(np, target);
                self.put_child_at(np, jt, last);
                proof {
                    let t3 = *self;
                    if t0.kids(target).contains(last) {
                        t0.lemma_kid_parent(target, last);
                    } else {
                        lemma_remove_value_absent(t0.kids(target), last);
                    }
                    assert forall|i: usize| i < t0.arena_len() implies #[trigger] t0.spliced_at(t3, target, last, i) by {
                    assert(t1.value_of(i) == t0.value_of(i));
                    assert(t1.adopted_at(t2, target, last, i));
                    assert(t3.value_of(i) == t2.value_of(i));
                    assert(t0.node_ok(i));
                    if i != p_last && t0.kids(i).contains(last) {
                        t0.lemma_kid_parent(i, last);
                    }
                    if i != p_last {
                        lemma_remove_value_absent(t0.kids(i), last);
                    }
                    if t0.kids(target).contains(i) {
                        t0.lemma_kid_parent(target, i);
                    }
                    if t0.parent_of(i) == Some(target) {
                        assert(t0.kids(target).contains(i));
                    }
                    if t0.kids(i).contains(target) {
                        t0.lemma_kid_parent(i, target);
                    }
                    let u = t0.kids(i).remove_value(last);
                    assert(!t0.kids(i).contains(target) ==> !u.contains(target));
                    lemma_renamed(u, target, last);
                        if i == np {
                            assert(t1.node_ok(np));
                            assert(u == t1.kids(np));
                            assert(t2.kids(np)[jt as int] == target);
                        }
                    }
                    assert(t0.root_node() != Some(target));
                }
            },
            None => {
                self.root = Some(last);
                proof {
                    let t3 = *self;
                    assert(target == root);
                    assert(t1.adopted_at(t2, target, last, last));
                    assert forall|i: usize| i < self.arena_len() implies #[trigger] self.node_ok(i) by {
                        assert(t2.node_ok(i));
                        assert forall|j: int| 0 <= j < self.kids(i).len() implies #[trigger] self.edge_ok(i, j) by {
                            assert(t2.edge_ok(i, j));
                        }
                    }
                    if t0.kids(target).contains(last) {
                        t0.lemma_kid_parent(target, last);
                    } else {
                        lemma_remove_value_absent(t0.kids(target), last);
                    }
                    assert forall|i: usize| i < t0.arena_len() implies #[trigger] t0.spliced_at(t3, target, last, i) by {
                    assert(t1.value_of(i) == t0.value_of(i));
                    assert(t1.adopted_at(t2, target, last, i));
                    assert(t0.node_ok(i));
                    if i != p_last && t0.kids(i).contains(last) {
                        t0.lemma_kid_parent(i, last);
                    }
                    if i != p_last {
                        lemma_remove_value_absent(t0.kids(i), last);
                    }
                    if t0.kids(target).contains(i) {
                        t0.lemma_kid_parent(target, i);
                    }
                    if t0.parent_of(i) == Some(target) {
                        assert(t0.kids(target).contains(i));
                    }
                    if t0.kids(i).contains(target) {
                        t0.lemma_kid_parent(i, target);
                    }
                    let u = t0.kids(i).remove_value(last);
                    assert(!t0.kids(i).contains(target) ==> !u.contains(target));
                    lemma_renamed(u, target, last);
                    }
                }
            },
        }
        proof {
            Tree::lemma_splice_members(t0, *self, target, last);
        }
        true
    }

    /// `y` is in the subtree at `x` exactly when it is `x` or lies in the
    /// subtree of a child of `x`.
    pub proof fn lemma_preorder_contains_kid(self, x: usize, y: usize)
        requires
            self.wf(),
            x < self.arena_len(),
        ensures
            self.preorder(x).contains(y) <==> (y == x || exists|k: usize|
                self.kids(x).contains(k) && #[trigger] self.preorder(k).contains(y)),
    {
        self.lemma_preorder_contains(x, y);
        if exists|k: usize| self.kids(x).contains(k) && #[trigger] self.preorder(k).contains(y) {
            let k = choose|k: usize| self.kids(x).contains(k) && #[trigger] self.preorder(k).contains(y);
            let j = choose|j: int| 0 <= j < self.kids(x).len() && self.kids(x)[j] == k;
            assert(self.preorder(self.kids(x)[j]).contains(y));
        }
        if y != x && self.preorder(x).contains(y) {
            let j = choose|j: int| 0 <= j < self.kids(x).len() && #[trigger] self.preorder(self.kids(x)[j]).contains(y);
            assert(self.kids(x).contains(self.kids(x)[j]));
        }
    }

    /// Where `y` lies after the splice, for a node `x` other than `target`
    /// and `last`: `y` is never `target`, `last` stands wherever `target`
    /// stood, and everything else stays.
    pub open spec fn in_after_splice(self, x: usize, y: usize, target: usize, last: usize) -> bool {
        &&& y != target
        &&& if y == last {
            self.preorder(x).contains(target)
        } else {
            self.preorder(x).contains(y)
        }
    }

    proof fn lemma_splice_walk(t0: Tree, t3: Tree, target: usize, last: usize, x: usize)
        requires
            t0.wf(),
            t3.wf(),
            t0.spliced(t3, target, last),
            target < t0.arena_len(),
            last < t0.arena_len(),
            t0.kids(last).len() == 0,
            x < t0.arena_len(),
            x != target,
            x != last,
        ensures
            forall|y: usize| #[trigger] t3.preorder(x).contains(y) <==> t0.in_after_splice(x, y, target, last),
        decreases t0.rank_of(x), 0nat,
    {
        assert(t0.spliced_at(t3, target, last, x));
        assert(t0.node_ok(x));
        t0.lemma_inside(x);
        t0.lemma_preorder_contains(last, last);
        assert(t0.preorder(last) =~= seq![last]);
        let u = t0.kids(x).remove_value(last);
        assert(t3.kids(x) == renamed(u, target, last));
        assert forall|k: usize| #[trigger] t3.kids(x).contains(k) implies (k == last && t0.kids(x).contains(target) && target != last) || (
            t0.kids(x).contains(k) && k != last && k != target) by {
            lemma_renamed_contains(u, target, last, k);
            lemma_remove_value_contains(t0.kids(x), last, k);
            lemma_remove_value_contains(t0.kids(x), last, target);
        }
        assert forall|k: usize| #[trigger] t0.kids(x).contains(k) && k != last implies t3.kids(x).contains(
            if k == target { last } else { k }) by {
            lemma_renamed_contains(u, target, last, if k == target { last } else { k });
            lemma_remove_value_contains(t0.kids(x), last, k);
            lemma_remove_value_contains(t0.kids(x), last, target);
        }
        assert forall|y: usize| #[trigger] t3.preorder(x).contains(y) <==> t0.in_after_splice(x, y, target, last) by {
            t3.lemma_preorder_contains_kid(x, y);
            t0.lemma_preorder_contains_kid(x, y);
            t0.lemma_preorder_contains_kid(x, target);
            if t3.preorder(x).contains(y) && y != x {
                let k = choose|k: usize| t3.kids(x).contains(k) && #[trigger] t3.preorder(k).contains(y);
                if k == last {
                    assert(t0.kids(x).contains(target));
                    let jt = choose|jt: int| 0 <= jt < t0.kids(x).len() && t0.kids(x)[jt] == target;
                    assert(t0.edge_ok(x, jt));
                    Tree::lemma_splice_last(t0, t3, target, last);
                    t0.lemma_preorder_contains(target, target);
                    if y != last {
                        assert(t0.preorder(target).contains(y));
                    }
                } else {
                    assert(t0.kids(x).contains(k));
                    let j = choose|j: int| 0 <= j < t0.kids(x).len() && t0.kids(x)[j] == k;
                    assert(t0.edge_ok(x, j));
                    Tree::lemma_splice_walk(t0, t3, target, last, k);
                    assert(t0.in_after_splice(k, y, target, last));
                    if y == last {
                        assert(t0.preorder(k).contains(target));
                    } else {
                        assert(t0.preorder(k).contains(y));
                    }
                }
            }
            if t0.in_after_splice(x, y, target, last) && y != x {
                let w = if y == last { target } else { y };
                assert(t0.preorder(x).contains(w));
                assert(w != x);
                let k = choose|k: usize| t0.kids(x).contains(k) && #[trigger] t0.preorder(k).contains(w);
                assert(k != last) by {
                    if k == last {
                        assert(t0.preorder(last).contains(w));
                    }
                }
                let k3 = if k == target { last } else { k };
                assert(t3.kids(x).contains(k3));
                if k == target {
                    let jt = choose|jt: int| 0 <= jt < t0.kids(x).len() && t0.kids(x)[jt] == target;
                    assert(t0.edge_ok(x, jt));
                    Tree::lemma_splice_last(t0, t3, target, last);
                    assert(t0.in_after_splice(target, y, target, last)) by {
                        t0.lemma_preorder_contains(target, target);
                    }
                    assert(t3.preorder(k3).contains(y));
                } else {
                    let j = choose|j: int| 0 <= j < t0.kids(x).len() && t0.kids(x)[j] == k;
                    assert(t0.edge_ok(x, j));
                    Tree::lemma_splice_walk(t0, t3, target, last, k);
                    assert(t0.in_after_splice(k, y, target, last));
                    assert(t3.preorder(k3).contains(y));
                }
            }
        }
    }

    proof fn lemma_splice_last(t0: Tree, t3: Tree, target: usize, last: usize)
        requires
            t0.wf(),
            t3.wf(),
            t0.spliced(t3, target, last),
            target < t0.arena_len(),
            last < t0.arena_len(),
            t0.kids(last).len() == 0,
            target != last,
        ensures
            forall|y: usize| #[trigger] t3.preorder(last).contains(y) <==> t0.in_after_splice(target, y, target, last),
        decreases t0.rank_of(target), 1nat,
    {
        assert(t0.spliced_at(t3, target, last, last));
        assert(t0.node_ok(target));
        t0.lemma_preorder_contains(last, last);
        assert(t0.preorder(last) =~= seq![last]);
        t0.lemma_preorder_contains(target, target);
        assert(!t0.kids(target).contains(target)) by {
            if t0.kids(target).contains(target) {
                let j = choose|j: int| 0 <= j < t0.kids(target).len() && t0.kids(target)[j] == target;
                assert(t0.edge_ok(target, j));
            }
        }
        assert forall|y: usize| #[trigger] t3.preorder(last).contains(y) <==> t0.in_after_splice(target, y, target, last) by {
            t3.lemma_preorder_contains_kid(last, y);
            t0.lemma_preorder_contains_kid(target, y);
            if t3.preorder(last).contains(y) && y != last {
                let k = choose|k: usize| t3.kids(last).contains(k) && #[trigger] t3.preorder(k).contains(y);
                lemma_remove_value_contains(t0.kids(target), last, k);
                let j = choose|j: int| 0 <= j < t0.kids(target).len() && t0.kids(target)[j] == k;
                assert(t0.edge_ok(target, j));
                Tree::lemma_splice_walk(t0, t3, target, last, k);
                assert(t0.in_after_splice(k, y, target, last));
                assert(t0.preorder(k).contains(y));
            }
            if t0.in_after_splice(target, y, target, last) && y != last {
                let k = choose|k: usize| t0.kids(target).contains(k) && #[trigger] t0.preorder(k).contains(y);
                lemma_remove_value_contains(t0.kids(target), last, k);
                assert(k != last) by {
                    if k == last {
                        assert(t0.preorder(last).contains(y));
                    }
                }
                let j = choose|j: int| 0 <= j < t0.kids(target).len() && t0.kids(target)[j] == k;
                assert(t0.edge_ok(target, j));
                Tree::lemma_splice_walk(t0, t3, target, last, k);
                assert(t3.kids(last).contains(k));
                assert(t0.in_after_splice(k, y, target, last));
                assert(t3.preorder(k).contains(y));
            }
        }
    }

    /// After the splice the nodes reachable from the root are the old ones
    /// without `target`.
    proof fn lemma_splice_members(t0: Tree, t3: Tree, target: usize, last: usize)
        requires
            t0.wf(),
            t3.wf(),
            t0.spliced(t3, target, last),
            t0.root_node() is Some,
            t0.walk_from_root().contains(target),
            last == t0.walk_from_root().last(),
        ensures
            t3.members() == t0.members().remove(target),
            t0.members().contains(target),
            t3.members().len() + 1 == t0.members().len(),
    {
        let root = t0.root_node().unwrap();
        let s = t0.preorder(root);
        t0.lemma_inside(root);
        t0.lemma_preorder_contains(root, root);
        t0.lemma_last_is_leaf(root);
        assert(s.contains(last));
        assert(t0.inside(root, last));
        assert(t0.inside(root, target));
        t0.lemma_preorder_contains(last, last);
        assert(t0.preorder(last) =~= seq![last]);
        if root == last {
            assert(s =~= seq![root]);
            let k = choose|k: int| 0 <= k < s.len() && s[k] == target;
            assert(target == root);
        }
        if root != target {
            Tree::lemma_splice_walk(t0, t3, target, last, root);
            assert(t3.root_node() == Some(root));
            assert forall|y: usize| t3.members().contains(y) <==> t0.members().remove(target).contains(y) by {
                assert(t3.preorder(root).contains(y) <==> t0.in_after_splice(root, y, target, last));
            }
        } else if target != last {
            Tree::lemma_splice_last(t0, t3, target, last);
            assert(t3.root_node() == Some(last));
            assert forall|y: usize| t3.members().contains(y) <==> t0.members().remove(target).contains(y) by {
                assert(t3.preorder(last).contains(y) <==> t0.in_after_splice(target, y, target, last));
            }
        } else {
            assert(t3.root_node() is None);
            assert(s =~= seq![root]);
            assert forall|y: usize| !t0.members().remove(target).contains(y) by {
                if s.contains(y) {
                    let k = choose|k: int| 0 <= k < s.len() && s[k] == y;
                }
            }
        }
        assert(t3.members() =~= t0.members().remove(target));
        vstd::seq_lib::seq_to_set_is_finite(s);
        vstd::set::axiom_set_remove_len(t0.members(), target);
    }

    /// A subtree holds the subtrees of all its nodes.
    pub proof fn lemma_subtree_transitive(self, k: usize, a: usize)
        requires
            self.wf(),
            k < self.arena_len(),
            self.preorder(k).contains(a),
        ensures
            forall|b: usize| #[trigger] self.preorder(a).contains(b) ==> self.preorder(k).contains(b),
        decreases self.rank_of(k),
    {
        self.lemma_preorder_contains_kid(k, a);
        if a != k {
            let c = choose|c: usize| self.kids(k).contains(c) && #[trigger] self.preorder(c).contains(a);
            let j = choose|j: int| 0 <= j < self.kids(k).len() && self.kids(k)[j] == c;
            assert(self.node_ok(k));
            assert(self.edge_ok(k, j));
            self.lemma_subtree_transitive(c, a);
            self.lemma_child_subtree(k, j);
        }
    }

    /// Two subtrees that share a node are nested.
    pub proof fn lemma_subtrees_nested(self, a: usize, b: usize, y: usize)
        requires
            self.wf(),
            a < self.arena_len(),
            b < self.arena_len(),
            self.preorder(a).contains(y),
            self.preorder(b).contains(y),
        ensures
            self.preorder(b).contains(a) || self.preorder(a).contains(b),
        decreases self.rank_of(a) + self.rank_of(b),
    {
        self.lemma_preorder_contains_kid(a, y);
        self.lemma_preorder_contains_kid(b, y);
        self.lemma_preorder_contains(a, a);
        self.lemma_preorder_contains(b, b);
        if y != a && y != b {
            let a1 = choose|k: usize| self.kids(a).contains(k) && #[trigger] self.preorder(k).contains(y);
            let b1 = choose|k: usize| self.kids(b).contains(k) && #[trigger] self.preorder(k).contains(y);
            let ja = choose|j: int| 0 <= j < self.kids(a).len() && self.kids(a)[j] == a1;
            let jb = choose|j: int| 0 <= j < self.kids(b).len() && self.kids(b)[j] == b1;
            assert(self.node_ok(a));
            assert(self.node_ok(b));
            assert(self.edge_ok(a, ja));
            assert(self.edge_ok(b, jb));
            self.lemma_subtrees_nested(a1, b1, y);
            self.lemma_inside(a1);
            self.lemma_inside(b1);
            self.lemma_child_subtree(a, ja);
            self.lemma_child_subtree(b, jb);
            if self.preorder(b1).contains(a1) {
                if a1 != b1 {
                    assert(self.inside(b1, a1));
                }
            } else {
                if a1 != b1 {
                    assert(self.inside(a1, b1));
                }
            }
        }
    }

    /// The subtrees of two different children of a node share nothing.
    pub proof fn lemma_siblings_disjoint(self, x: usize, i: int, j: int, y: usize)
        requires
            self.wf(),
            x < self.arena_len(),
            0 <= i < self.kids(x).len(),
            0 <= j < self.kids(x).len(),
            i != j,
        ensures
            !(self.preorder(self.kids(x)[i]).contains(y) && self.preorder(self.kids(x)[j]).contains(y)),
    {
        let a = self.kids(x)[i];
        let b = self.kids(x)[j];
        assert(self.node_ok(x));
        assert(self.edge_ok(x, i));
        assert(self.edge_ok(x, j));
        if self.preorder(a).contains(y) && self.preorder(b).contains(y) {
            self.lemma_subtrees_nested(a, b, y);
            self.lemma_inside(a);
            self.lemma_inside(b);
            if self.preorder(b).contains(a) {
                assert(self.inside(b, a));
                assert(self.inside(b, x));
            } else {
                assert(self.inside(a, b));
                assert(self.inside(a, x));
            }
        }
    }

    pub proof fn lemma_postorder_list_contains(self, xs: Seq<usize>, r: nat, y: usize)
        requires
            forall|j: int| 0 <= j < xs.len() ==> self.rank_of(#[trigger] xs[j]) < r,
        ensures
            self.postorder_list(xs, r).contains(y) <==> exists|j: int|
                0 <= j < xs.len() && #[trigger] self.postorder(xs[j]).contains(y),
        decreases xs.len(),
    {
        if xs.len() > 0 {
            let init = xs.drop_last();
            self.lemma_postorder_list_contains(init, r, y);
            lemma_concat_contains(self.postorder_list(init, r), self.postorder(xs.last()), y);
            if exists|j: int| 0 <= j < xs.len() && #[trigger] self.postorder(xs[j]).contains(y) {
                let j = choose|j: int| 0 <= j < xs.len() && #[trigger] self.postorder(xs[j]).contains(y);
                if j < xs.len() - 1 {
                    assert(self.postorder(init[j]).contains(y));
                }
            }
            if exists|j: int| 0 <= j < init.len() && #[trigger] self.postorder(init[j]).contains(y) {
                let j = choose|j: int| 0 <= j < init.len() && #[trigger] self.postorder(init[j]).contains(y);
                assert(self.postorder(xs[j]).contains(y));
            }
        }
    }

    /// The postorder walk visits the same nodes as the preorder walk.
    pub proof fn lemma_postorder_contains(self, x: usize, y: usize)
        requires
            self.wf(),
            x < self.arena_len(),
        ensures
            self.postorder(x).contains(y) <==> self.preorder(x).contains(y),
            self.postorder(x).last() == x,
        decreases self.rank_of(x),
    {
        let xs = self.kids(x);
        assert(self.node_ok(x));
        assert forall|j: int| 0 <= j < xs.len() implies self.rank_of(#[trigger] xs[j]) < self.rank_of(x) by {
            assert(self.edge_ok(x, j));
        }
        self.lemma_postorder_list_contains(xs, self.rank_of(x), y);
        lemma_concat_contains(self.postorder_list(xs, self.rank_of(x)), seq![x], y);
        assert(seq![x].contains(y) <==> y == x) by {
            if y == x {
                assert(seq![x][0] == y);
            }
        }
        self.lemma_preorder_contains(x, y);
        assert forall|j: int| 0 <= j < xs.len() implies (#[trigger] self.postorder(xs[j]).contains(y) <==> self.preorder(xs[j]).contains(y)) by {
            assert(self.edge_ok(x, j));
            self.lemma_postorder_contains(xs[j], y);
        }
        if self.postorder(x).contains(y) && y != x {
            let j = choose|j: int| 0 <= j < xs.len() && #[trigger] self.postorder(xs[j]).contains(y);
            assert(self.preorder(xs[j]).contains(y));
        }
        if self.preorder(x).contains(y) && y != x {
            let j = choose|j: int| 0 <= j < xs.len() && #[trigger] self.preorder(xs[j]).contains(y);
            assert(self.postorder(xs[j]).contains(y));
        }
    }

    pub proof fn lemma_preorder_list_no_duplicates(self, x: usize, n: int)
        requires
            self.wf(),
            x < self.arena_len(),
            0 <= n <= self.kids(x).len(),
        ensures
            self.preorder_list(self.kids(x).take(n), self.rank_of(x)).no_duplicates(),
            forall|y: usize| #[trigger] self.preorder_list(self.kids(x).take(n), self.rank_of(x)).contains(y) ==> exists|m: int|
                0 <= m < n && #[trigger] self.preorder(self.kids(x)[m]).contains(y),
        decreases self.rank_of(x), 0nat, n,
    {
        let ks = self.kids(x);
        let r = self.rank_of(x);
        assert(self.node_ok(x));
        assert forall|y: usize| #[trigger] self.preorder_list(ks.take(n), r).contains(y) implies exists|m: int|
            0 <= m < n && #[trigger] self.preorder(ks[m]).contains(y) by {
            assert forall|j: int| 0 <= j < ks.take(n).len() implies self.rank_of(#[trigger] ks.take(n)[j]) < r by {
                assert(self.edge_ok(x, j));
            }
            self.lemma_preorder_list_contains(ks.take(n), r, y);
            let m = choose|m: int| 0 <= m < ks.take(n).len() && #[trigger] self.preorder(ks.take(n)[m]).contains(y);
            assert(self.preorder(ks[m]).contains(y));
        }
        if n > 0 {
            let c = ks[n - 1];
            assert(ks.take(n).drop_last() =~= ks.take(n - 1));
            assert(ks.take(n).last() == c);
            assert(self.edge_ok(x, n - 1));
            self.lemma_preorder_list_no_duplicates(x, n - 1);
            self.lemma_preorder_no_duplicates(c);
            let a = self.preorder_list(ks.take(n - 1), r);
            let b = self.preorder(c);
            assert forall|i: int, j: int| 0 <= i < a.len() && 0 <= j < b.len() implies a[i] != b[j] by {
                let y = a[i];
                assert(a.contains(y));
                let m = choose|m: int| 0 <= m < n - 1 && #[trigger] self.preorder(ks[m]).contains(y);
                self.lemma_siblings_disjoint(x, m, n - 1, y);
                assert(b.contains(b[j]));
            }
            vstd::seq_lib::lemma_no_dup_in_concat(a, b);
        }
    }

    /// A preorder walk visits each node of the subtree once.
    pub proof fn lemma_preorder_no_duplicates(self, x: usize)
        requires
            self.wf(),
            x < self.arena_len(),
        ensures
            self.preorder(x).no_duplicates(),
        decreases self.rank_of(x), 1nat, 0nat,
    {
        let ks = self.kids(x);
        let r = self.rank_of(x);
        self.lemma_preorder_list_no_duplicates(x, ks.len() as int);
        assert(ks.take(ks.len() as int) =~= ks);
        let l = self.preorder_list(ks, r);
        assert forall|j: int| 0 <= j < l.len() implies seq![x][0] != l[j] by {
            assert(l.contains(l[j]));
            let m = choose|m: int| 0 <= m < ks.len() && #[trigger] self.preorder(ks[m]).contains(l[j]);
            assert(self.node_ok(x));
            assert(self.edge_ok(x, m));
            self.lemma_inside(ks[m]);
            assert(self.inside(ks[m], l[j]));
        }
        vstd::seq_lib::lemma_no_dup_in_concat(seq![x], l);
    }

    pub proof fn lemma_postorder_list_no_duplicates(self, x: usize, n: int)
        requires
            self.wf(),
            x < self.arena_len(),
            0 <= n <= self.kids(x).len(),
        ensures
            self.postorder_list(self.kids(x).take(n), self.rank_of(x)).no_duplicates(),
            forall|y: usize| #[trigger] self.postorder_list(self.kids(x).take(n), self.rank_of(x)).contains(y) ==> exists|m: int|
                0 <= m < n && #[trigger] self.preorder(self.kids(x)[m]).contains(y),
        decreases self.rank_of(x), 0nat, n,
    {
        let ks = self.kids(x);
        let r = self.rank_of(x);
        assert(self.node_ok(x));
        assert forall|y: usize| #[trigger] self.postorder_list(ks.take(n), r).contains(y) implies exists|m: int|
            0 <= m < n && #[trigger] self.preorder(ks[m]).contains(y) by {
            assert forall|j: int| 0 <= j < ks.take(n).len() implies self.rank_of(#[trigger] ks.take(n)[j]) < r by {
                assert(self.edge_ok(x, j));
            }
            self.lemma_postorder_list_contains(ks.take(n), r, y);
            let m = choose|m: int| 0 <= m < ks.take(n).len() && #[trigger] self.postorder(ks.take(n)[m]).contains(y);
            assert(self.edge_ok(x, m));
            self.lemma_postorder_contains(ks[m], y);
            assert(self.preorder(ks[m]).contains(y));
        }
        if n > 0 {
            let c = ks[n - 1];
            assert(ks.take(n).drop_last() =~= ks.take(n - 1));
            assert(ks.take(n).last() == c);
            assert(self.edge_ok(x, n - 1));
            self.lemma_postorder_list_no_duplicates(x, n - 1);
            self.lemma_postorder_no_duplicates(c);
            let a = self.postorder_list(ks.take(n - 1), r);
            let b = self.postorder(c);
            assert forall|i: int, j: int| 0 <= i < a.len() && 0 <= j < b.len() implies a[i] != b[j] by {
                let y = a[i];
                assert(a.contains(y));
                let m = choose|m: int| 0 <= m < n - 1 && #[trigger] self.preorder(ks[m]).contains(y);
                self.lemma_siblings_disjoint(x, m, n - 1, y);
                assert(b.contains(b[j]));
                self.lemma_postorder_contains(c, b[j]);
            }
            vstd::seq_lib::lemma_no_dup_in_concat(a, b);
        }
    }

    /// A postorder walk visits each node of the subtree once.
    pub proof fn lemma_postorder_no_duplicates(self, x: usize)
        requires
            self.wf(),
            x < self.arena_len(),
        ensures
            self.postorder(x).no_duplicates(),
        decreases self.rank_of(x), 1nat, 0nat,
    {
        let ks = self.kids(x);
        let r = self.rank_of(x);
        self.lemma_postorder_list_no_duplicates(x, ks.len() as int);
        assert(ks.take(ks.len() as int) =~= ks);
        let l = self.postorder_list(ks, r);
        assert forall|j: int| 0 <= j < l.len() implies l[j] != seq![x][0] by {
            assert(l.contains(l[j]));
            let m = choose|m: int| 0 <= m < ks.len() && #[trigger] self.preorder(ks[m]).contains(l[j]);
            assert(self.node_ok(x));
            assert(self.edge_ok(x, m));
            self.lemma_inside(ks[m]);
            assert(self.inside(ks[m], l[j]));
        }
        vstd::seq_lib::lemma_no_dup_in_concat(l, seq![x]);
    }

    /// A node below a child of `x` is not `x`.
    proof fn lemma_below_child(self, x: usize, m: int, y: usize)
        requires
            self.wf(),
            x < self.arena_len(),
            0 <= m < self.kids(x).len(),
            self.preorder(self.kids(x)[m]).contains(y),
        ensures
            y != x,
            forall|b: usize| #[trigger] self.preorder(y).contains(b) ==> self.preorder(self.kids(x)[m]).contains(b) && b != x,
    {
        let k = self.kids(x)[m];
        assert(self.node_ok(x));
        assert(self.edge_ok(x, m));
        self.lemma_inside(k);
        assert(self.inside(k, y));
        self.lemma_subtree_transitive(k, y);
        assert forall|b: usize| #[trigger] self.preorder(y).contains(b) implies self.preorder(k).contains(b) && b != x by {
            assert(self.inside(k, b));
        }
    }

    pub proof fn lemma_preorder_list_order(self, x: usize, n: int)
        requires
            self.wf(),
            x < self.arena_len(),
            0 <= n <= self.kids(x).len(),
        ensures
            ({
                let l = self.preorder_list(self.kids(x).take(n), self.rank_of(x));
                forall|i: int, j: int| 0 <= i < l.len() && 0 <= j < l.len() && #[trigger] self.preorder(l[i]).contains(#[trigger] l[j])
                    && l[j] != l[i] ==> i < j
            }),
        decreases self.rank_of(x), 0nat, n,
    {
        if n > 0 {
            let ks = self.kids(x);
            let r = self.rank_of(x);
            let c = ks[n - 1];
            assert(self.node_ok(x));
            assert(ks.take(n).drop_last() =~= ks.take(n - 1));
            assert(ks.take(n).last() == c);
            assert(self.edge_ok(x, n - 1));
            self.lemma_preorder_list_order(x, n - 1);
            self.lemma_preorder_order(c);
            self.lemma_preorder_list_no_duplicates(x, n - 1);
            let f = self.preorder_list(ks.take(n - 1), r);
            let b = self.preorder(c);
            let l = self.preorder_list(ks.take(n), r);
            assert(l == f + b);
            assert forall|i: int, j: int| 0 <= i < l.len() && 0 <= j < l.len() && #[trigger] self.preorder(l[i]).contains(#[trigger] l[j])
                && l[j] != l[i] implies i < j by {
                if j < f.len() && i >= f.len() {
                    assert(l[i] == b[i - f.len()]);
                    assert(b.contains(l[i]));
                    self.lemma_subtree_transitive(c, l[i]);
                    assert(f[j] == l[j]);
                    assert(f.contains(l[j]));
                    let m = choose|m: int| 0 <= m < n - 1 && #[trigger] self.preorder(ks[m]).contains(l[j]);
                    self.lemma_siblings_disjoint(x, m, n - 1, l[j]);
                } else if j >= f.len() && i >= f.len() {
                    assert(l[i] == b[i - f.len()]);
                    assert(l[j] == b[j - f.len()]);
                } else if j < f.len() && i < f.len() {
                    assert(l[i] == f[i]);
                    assert(l[j] == f[j]);
                }
            }
        }
    }

    /// A preorder walk visits a node before all of its descendants.
    pub proof fn lemma_preorder_order(self, x: usize)
        requires
            self.wf(),
            x < self.arena_len(),
        ensures
            ({
                let s = self.preorder(x);
                forall|i: int, j: int| 0 <= i < s.len() && 0 <= j < s.len() && #[trigger] self.preorder(s[i]).contains(#[trigger] s[j])
                    && s[j] != s[i] ==> i < j
            }),
        decreases self.rank_of(x), 1nat, 0nat,
    {
        let ks = self.kids(x);
        let r = self.rank_of(x);
        self.lemma_preorder_list_order(x, ks.len() as int);
        self.lemma_preorder_list_no_duplicates(x, ks.len() as int);
        assert(ks.take(ks.len() as int) =~= ks);
        let l = self.preorder_list(ks, r);
        let s = self.preorder(x);
        assert forall|i: int, j: int| 0 <= i < s.len() && 0 <= j < s.len() && #[trigger] self.preorder(s[i]).contains(#[trigger] s[j])
            && s[j] != s[i] implies i < j by {
            if i > 0 {
                assert(s[i] == l[i - 1]);
                assert(l.contains(s[i]));
                let m = choose|m: int| 0 <= m < ks.len() && #[trigger] self.preorder(ks[m]).contains(s[i]);
                self.lemma_below_child(x, m, s[i]);
                if j == 0 {
                    assert(s[0] == x);
                } else {
                    assert(s[j] == l[j - 1]);
                }
            } else if j == 0 {
            }
        }
    }

    pub proof fn lemma_postorder_list_order(self, x: usize, n: int)
        requires
            self.wf(),
            x < self.arena_len(),
            0 <= n <= self.kids(x).len(),
        ensures
            ({
                let l = self.postorder_list(self.kids(x).take(n), self.rank_of(x));
                forall|i: int, j: int| 0 <= i < l.len() && 0 <= j < l.len() && #[trigger] self.preorder(l[i]).contains(#[trigger] l[j])
                    && l[j] != l[i] ==> j < i
            }),
        decreases self.rank_of(x), 0nat, n,
    {
        if n > 0 {
            let ks = self.kids(x);
            let r = self.rank_of(x);
            let c = ks[n - 1];
            assert(self.node_ok(x));
            assert(ks.take(n).drop_last() =~= ks.take(n - 1));
            assert(ks.take(n).last() == c);
            assert(self.edge_ok(x, n - 1));
            self.lemma_postorder_list_order(x, n - 1);
            self.lemma_postorder_order(c);
            self.lemma_postorder_list_no_duplicates(x, n - 1);
            let f = self.postorder_list(ks.take(n - 1), r);
            let b = self.postorder(c);
            let l = self.postorder_list(ks.take(n), r);
            assert(l == f + b);
            assert forall|i: int, j: int| 0 <= i < l.len() && 0 <= j < l.len() && #[trigger] self.preorder(l[i]).contains(#[trigger] l[j])
                && l[j] != l[i] implies j < i by {
                if i < f.len() && j >= f.len() {
                    assert(l[i] == f[i]);
                    assert(f.contains(l[i]));
                    let m = choose|m: int| 0 <= m < n - 1 && #[trigger] self.preorder(ks[m]).contains(l[i]);
                    self.lemma_below_child(x, m, l[i]);
                    assert(l[j] == b[j - f.len()]);
                    assert(b.contains(l[j]));
                    self.lemma_postorder_contains(c, l[j]);
                    self.lemma_siblings_disjoint(x, m, n - 1, l[j]);
                } else if j >= f.len() && i >= f.len() {
                    assert(l[i] == b[i - f.len()]);
                    assert(l[j] == b[j - f.len()]);
                } else if j < f.len() && i < f.len() {
                    assert(l[i] == f[i]);
                    assert(l[j] == f[j]);
                }
            }
        }
    }

    /// A postorder walk visits a node after all of its descendants.
    pub proof fn lemma_postorder_order(self, x: usize)
        requires
            self.wf(),
            x < self.arena_len(),
        ensures
            ({
                let s = self.postorder(x);
                forall|i: int, j: int| 0 <= i < s.len() && 0 <= j < s.len() && #[trigger] self.preorder(s[i]).contains(#[trigger] s[j])
                    && s[j] != s[i] ==> j < i
            }),
        decreases self.rank_of(x), 1nat, 0nat,
    {
        let ks = self.kids(x);
        let r = self.rank_of(x);
        self.lemma_postorder_list_order(x, ks.len() as int);
        self.lemma_postorder_list_no_duplicates(x, ks.len() as int);
        assert(ks.take(ks.len() as int) =~= ks);
        let l = self.postorder_list(ks, r);
        let s = self.postorder(x);
        assert(s == l + seq![x]);
        assert forall|i: int, j: int| 0 <= i < s.len() && 0 <= j < s.len() && #[trigger] self.preorder(s[i]).contains(#[trigger] s[j])
            && s[j] != s[i] implies j < i by {
            if i < l.len() {
                assert(s[i] == l[i]);
                assert(l.contains(s[i]));
                let m = choose|m: int| 0 <= m < ks.len() && #[trigger] self.preorder(ks[m]).contains(s[i]);
                self.lemma_below_child(x, m, s[i]);
                if j == l.len() {
                    assert(s[j] == x);
                } else {
                    assert(s[j] == l[j]);
                }
            }
        }
    }

    /// In a well-formed tree every node reachable from the root other than
    /// the root has a parent, that parent is reachable too, and it lists the
    /// node among its children; every child of a reachable node points back
    /// at it.
    pub proof fn lemma_parent_links(self)
        requires
            self.wf(),
        ensures
            forall|y: usize| #[trigger] self.members().contains(y) && Some(y) != self.root_node() ==> (
                self.parent_of(y) matches Some(q) && self.members().contains(q) && self.kids(q).contains(y)),
            forall|q: usize, y: usize| #[trigger] self.members().contains(q) && #[trigger] self.kids(q).contains(y) ==> (
                self.parent_of(y) == Some(q) && self.members().contains(y)),
    {
        if let Some(r) = self.root_node() {
            self.lemma_inside(r);
            assert forall|y: usize| #[trigger] self.members().contains(y) && Some(y) != self.root_node() implies (
                self.parent_of(y) matches Some(q) && self.members().contains(q) && self.kids(q).contains(y)) by {
                assert(self.inside(r, y));
                let q = self.parent_of(y).unwrap();
                assert(self.node_ok(y));
            }
            assert forall|q: usize, y: usize| #[trigger] self.members().contains(q) && #[trigger] self.kids(q).contains(y) implies (
                self.parent_of(y) == Some(q) && self.members().contains(y)) by {
                assert(self.inside(r, q));
                self.lemma_kid_parent(q, y);
            }
        }
    }
}

} // verus!
