//! Walks over a subtree, computed in full when the iterator is built.

use vstd::prelude::*;
use crate::tree::Tree;

verus! {

/// The order in which a walk visits a node and its descendants.
#[derive(Clone, Copy, PartialEq, Eq, Debug)]
pub enum IterationType {
    /// The node, then each child's subtree in order.
    Preorder,
    /// Each child's subtree in order, then the node.
    Postorder,
}

/// The walk of the subtree at `x` in the given order.
pub open spec fn walk(t: Tree, x: usize, order: IterationType) -> Seq<usize> {
    match order {
        IterationType::Preorder => t.preorder(x),
        IterationType::Postorder => t.postorder(x),
    }
}

/// `s` read from its end.
pub open spec fn backwards(s: Seq<usize>) -> Seq<usize> {
    Seq::new(s.len(), |i: int| s[s.len() - 1 - i])
}

/// A finished walk over a subtree, computed in full when the iterator is
/// built: later changes to the tree are not seen by it.
#[derive(Clone, Debug)]
pub struct NodeIterator {
    root: usize,
    /// The walk, last node first, so that the next node is popped off the end.
    routes: Vec<usize>,
    iteration_type: IterationType,
}

impl NodeIterator {
    /// The nodes still to come, in walk order.
    pub closed spec fn remaining(self) -> Seq<usize> {
        backwards(self.routes@)
    }

    pub closed spec fn start(self) -> usize {
        self.root
    }

    pub closed spec fn order(self) -> IterationType {
        self.iteration_type
    }

    /// Walks the subtree at `root` of `tree` in the given order.
    pub fn new(tree: &Tree, root: usize, iteration_type: IterationType) -> (it: NodeIterator)
        requires
            tree.wf(),
            root < tree.arena_len(),
        ensures
            it.remaining() == walk(*tree, root, iteration_type),
            it.start() == root,
            it.order() == iteration_type,
    {
        let mut iterator = NodeIterator { root, routes: Vec::new(), iteration_type };
        iterator.find_route(tree, root, iteration_type);
        assert(iterator.routes@ =~= walk(*tree, root, iteration_type));
        let mut reversed: Vec<usize> = Vec::new();
        let ghost forward = iterator.routes@;
        while iterator.routes.len() > 0
            invariant
                forward.len() == iterator.routes@.len() + reversed@.len(),
                iterator.routes@ == forward.take(iterator.routes@.len() as int),
                forall|i: int| 0 <= i < reversed@.len() ==> #[trigger] reversed@[i] == forward[forward.len() - 1 - i],
                iterator.root == root,
                iterator.iteration_type == iteration_type,
            decreases iterator.routes@.len(),
        {
            let x = iterator.routes.pop().unwrap();
            reversed.push(x);
        }
        iterator.routes = reversed;
        assert(iterator.remaining() =~= forward);
        iterator
    }

    /// Appends the walk of the subtree at `curr` to `routes`.
    fn find_route(&mut self, tree: &Tree, curr: usize, iteration_type: IterationType)
        requires
            tree.wf(),
            curr < tree.arena_len(),
        ensures
            final(self).routes@ == old(self).routes@ + walk(*tree, curr, iteration_type),
            final(self).root == old(self).root,
            final(self).iteration_type == old(self).iteration_type,
        decreases tree.rank_of(curr),
    {
        let ghost start = self.routes@;
        let ghost kids = tree.kids(curr);
        let ghost r = tree.rank_of(curr);
        let n = tree.node(curr).children.len();
        assert(tree.node_ok(curr));
        match iteration_type {
            IterationType::Preorder => {
                self.routes.push(curr);
                let mut i: usize = 0;
                while i < n
                    invariant
                        tree.wf(),
                        curr < tree.arena_len(),
                        kids == tree.kids(curr),
                        r == tree.rank_of(curr),
                        n == kids.len(),
                        i <= n,
                        self.routes@ == start + seq![curr] + tree.preorder_list(kids.take(i as int), r),
                        iteration_type == IterationType::Preorder,
                        self.root == old(self).root,
                        self.iteration_type == old(self).iteration_type,
                    decreases n - i,
                {
                    let c = tree.node(curr).children[i];
                    assert(tree.node_ok(curr));
                    assert(tree.edge_ok(curr, i as int));
                    let ghost before = self.routes@;
                    self.find_route(tree, c, iteration_type);
                    assert(kids.take(i + 1).drop_last() =~= kids.take(i as int));
                    assert(kids.take(i + 1).last() == c);
                    assert(tree.preorder_list(kids.take(i + 1), r) == tree.preorder_list(kids.take(i as int), r) + tree.preorder(c));
                    assert(self.routes@ == before + tree.preorder(c));
                    assert(self.routes@ =~= start + seq![curr] + tree.preorder_list(kids.take(i + 1), r));
                    i = i + 1;
                }
                assert(kids.take(n as int) =~= kids);
            },
            IterationType::Postorder => {
                let mut i: usize = 0;
                while i < n
                    invariant
                        tree.wf(),
                        curr < tree.arena_len(),
                        kids == tree.kids(curr),
                        r == tree.rank_of(curr),
                        n == kids.len(),
                        i <= n,
                        self.routes@ == start + tree.postorder_list(kids.take(i as int), r),
                        iteration_type == IterationType::Postorder,
                        self.root == old(self).root,
                        self.iteration_type == old(self).iteration_type,
                    decreases n - i,
                {
                    let c = tree.node(curr).children[i];
                    assert(tree.node_ok(curr));
                    assert(tree.edge_ok(curr, i as int));
                    let ghost before = self.routes@;
                    self.find_route(tree, c, iteration_type);
                    assert(kids.take(i + 1).drop_last() =~= kids.take(i as int));
                    assert(kids.take(i + 1).last() == c);
                    assert(tree.postorder_list(kids.take(i + 1), r) == tree.postorder_list(kids.take(i as int), r) + tree.postorder(c));
                    assert(self.routes@ == before + tree.postorder(c));
                    assert(self.routes@ =~= start + tree.postorder_list(kids.take(i + 1), r));
                    i = i + 1;
                }
                assert(kids.take(n as int) =~= kids);
                self.routes.push(curr);
            },
        }
    }

    /// The next node of the walk, if any is left.
    pub fn next(&mut self) -> (r: Option<usize>)
        ensures
            old(self).remaining().len() == 0 ==> r is None && final(self).remaining() == old(self).remaining(),
            old(self).remaining().len() > 0 ==> r == Some(old(self).remaining()[0])
                && final(self).remaining() == old(self).remaining().drop_first(),
            final(self).start() == old(self).start(),
            final(self).order() == old(self).order(),
    {
        let r = self.routes.pop();
        if r.is_some() {
            assert(self.remaining() =~= old(self).remaining().drop_first());
        }
        r
    }

    /// How many nodes are left.
    pub fn len(&self) -> (r: usize)
        ensures
            r == self.remaining().len(),
    {
        self.routes.len()
    }

    /// The last node of the walk, if any is left.
    pub fn first(&self) -> (r: Option<usize>)
        ensures
            self.remaining().len() == 0 ==> r is None,
            self.remaining().len() > 0 ==> r == Some(self.remaining().last()),
    {
        if self.routes.len() < 1 {
            return None;
        }
        Some(self.routes[0])
    }

    /// The node at position `pos` of what is left of the walk.
    pub fn element_at(&self, pos: usize) -> (r: Option<usize>)
        ensures
            pos < self.remaining().len() ==> r == Some(self.remaining()[pos as int]),
            pos >= self.remaining().len() ==> r is None,
    {
        let n = self.routes.len();
        if pos >= n {
            return None;
        }
        Some(self.routes[n - 1 - pos])
    }

    /// The position of the first node left in the walk whose value is
    /// `value`.
    pub fn position_of(&self, tree: &Tree, value: i32) -> (r: Option<usize>)
        requires
            forall|i: int| 0 <= i < self.remaining().len() ==> #[trigger] self.remaining()[i] < tree.arena_len(),
        ensures
            r is None <==> forall|i: int| 0 <= i < self.remaining().len() ==> tree.value_of(
                #[trigger] self.remaining()[i]) != value,
            r matches Some(k) ==> {
                &&& k < self.remaining().len()
                &&& tree.value_of(self.remaining()[k as int]) == value
                &&& forall|i: int| 0 <= i < k ==> tree.value_of(#[trigger] self.remaining()[i]) != value
            },
    {
        let n = self.routes.len();
        let mut k: usize = 0;
        while k < n
            invariant
                n == self.remaining().len(),
                k <= n,
                forall|i: int| 0 <= i < self.remaining().len() ==> #[trigger] self.remaining()[i] < tree.arena_len(),
                forall|i: int| 0 <= i < k ==> tree.value_of(#[trigger] self.remaining()[i]) != value,
            decreases n - k,
        {
            let x = self.routes[n - 1 - k];
            assert(x == self.remaining()[k as int]);
            if tree.node(x).value == value {
                return Some(k);
            }
            k = k + 1;
        }
        None
    }
}

impl Tree {
    /// A walk over the subtree at `node` in the given order.
    pub fn iter(&self, node: usize, iteration_type: IterationType) -> (it: NodeIterator)
        requires
            self.wf(),
            node < self.arena_len(),
        ensures
            it.remaining() == walk(*self, node, iteration_type),
            it.start() == node,
            it.order() == iteration_type,
    {
        NodeIterator::new(self, node, iteration_type)
    }
}

/// Over a fixed tree, the preorder walk and the postorder walk of a subtree
/// each visit every node of the subtree exactly once; the preorder walk
/// visits a node before all of its descendants, the postorder walk after all
/// of them.
pub proof fn lemma_walks_visit_each_node_once(tree: Tree, x: usize)
    requires
        tree.wf(),
        x < tree.arena_len(),
    ensures
        walk(tree, x, IterationType::Preorder).no_duplicates(),
        walk(tree, x, IterationType::Postorder).no_duplicates(),
        forall|y: usize| #[trigger] walk(tree, x, IterationType::Postorder).contains(y)
            <==> walk(tree, x, IterationType::Preorder).contains(y),
        ({
            let s = walk(tree, x, IterationType::Preorder);
            forall|i: int, j: int| 0 <= i < s.len() && 0 <= j < s.len() && #[trigger] tree.preorder(s[i]).contains(#[trigger] s[j])
                && s[j] != s[i] ==> i < j
        }),
        ({
            let s = walk(tree, x, IterationType::Postorder);
            forall|i: int, j: int| 0 <= i < s.len() && 0 <= j < s.len() && #[trigger] tree.preorder(s[i]).contains(#[trigger] s[j])
                && s[j] != s[i] ==> j < i
        }),
{
    tree.lemma_preorder_no_duplicates(x);
    tree.lemma_postorder_no_duplicates(x);
    tree.lemma_preorder_order(x);
    tree.lemma_postorder_order(x);
    assert forall|y: usize| #[trigger] walk(tree, x, IterationType::Postorder).contains(y)
        <==> walk(tree, x, IterationType::Preorder).contains(y) by {
        tree.lemma_postorder_contains(x, y);
    }
}

} // verus!
