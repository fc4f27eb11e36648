//! A doubly linked stack whose cells live in a vector and link by slot.

use vstd::prelude::*;

verus! {

/// One cell of a [`LinkedList`]: its value and the slots of its neighbours
/// toward the tail (`next`) and toward the head (`prev`).
pub struct ListNode<T> {
    pub value: T,
    pub next: Option<usize>,
    pub prev: Option<usize>,
}

impl<T> ListNode<T> {
    pub fn new(v: T) -> (r: ListNode<T>)
        ensures
            r.value == v,
            r.next is None,
            r.prev is None,
    {
        ListNode { value: v, next: None, prev: None }
    }
}

/// A doubly linked list used as a stack: `push` and `pop` work at the head.
/// Cells live in a vector, the tail in slot 0 and the head in the last slot;
/// each cell links to its neighbours by slot.
pub struct LinkedList<T> {
    nodes: Vec<ListNode<T>>,
    head: Option<usize>,
    tail: Option<usize>,
}

impl<T> View for LinkedList<T> {
    type V = Seq<T>;

    /// The values from head to tail.
    closed spec fn view(&self) -> Seq<T> {
        Seq::new(self.nodes@.len(), |i: int| self.nodes@[self.nodes@.len() - 1 - i].value)
    }
}

impl<T> LinkedList<T> {
    /// The cell in slot `i` links to slot `i - 1` toward the tail and to slot
    /// `i + 1` toward the head; `head` and `tail` name the end slots.
    pub closed spec fn wf(&self) -> bool {
        let n = self.nodes@.len();
        &&& forall|i: int| 0 <= i < n ==> #[trigger] self.linked(i)
        &&& (match self.head { Some(h) => h as int == n - 1, None => n == 0 })
        &&& (match self.tail { Some(t) => t == 0 && n > 0, None => n == 0 })
    }

    pub closed spec fn linked(&self, i: int) -> bool {
        let n = self.nodes@.len();
        &&& (match self.nodes@[i].next { Some(j) => j as int == i - 1, None => i == 0 })
        &&& (match self.nodes@[i].prev { Some(j) => j as int == i + 1, None => i + 1 == n })
    }

    /// The slot that holds position `p` (counted from the head).
    pub closed spec fn slot(&self, p: int) -> int {
        self.nodes@.len() - 1 - p
    }

    pub fn new() -> (r: Self)
        ensures
            r.wf(),
            r@ == Seq::<T>::empty(),
    {
        LinkedList { nodes: Vec::new(), head: None, tail: None }
    }

    /// Puts `v` in front of the head.
    pub fn push(&mut self, v: T)
        requires
            old(self).wf(),
        ensures
            final(self).wf(),
            final(self)@ == seq![v] + old(self)@,
    {
        self.push_node(ListNode::new(v))
    }

    fn push_node(&mut self, node: ListNode<T>)
        requires
            old(self).wf(),
        ensures
            final(self).wf(),
            final(self)@ == seq![node.value] + old(self)@,
    {
        let mut node = node;
        let id = self.nodes.len();
        node.next = self.head;
        node.prev = None;
        if let Some(h) = self.head {
            self.nodes[h].prev = Some(id);
        }
        self.nodes.push(node);
        self.head = Some(id);
        if self.tail.is_none() {
            self.tail = self.head;
        }
        proof {
            let len = self.nodes@.len();
            assert forall|i: int| 0 <= i < len implies #[trigger] self.linked(i) by {
                if i + 1 < len {
                    assert(old(self).linked(i));
                }
            }
        }
        assert(self@ =~= seq![node.value] + old(self)@);
    }

    /// Takes the value at the head, if the list is not empty.
    pub fn pop(&mut self) -> (r: Option<T>)
        requires
            old(self).wf(),
        ensures
            final(self).wf(),
            old(self)@.len() == 0 ==> r is None && final(self)@ == old(self)@,
            old(self)@.len() > 0 ==> r == Some(old(self)@[0]) && final(self)@ == old(self)@.drop_first(),
    {
        match self.pop_node() {
            Some(n) => Some(n.value),
            None => None,
        }
    }

    fn pop_node(&mut self) -> (r: Option<ListNode<T>>)
        requires
            old(self).wf(),
        ensures
            final(self).wf(),
            old(self)@.len() == 0 ==> r is None && final(self)@ == old(self)@,
            old(self)@.len() > 0 ==> (r matches Some(n) && n.value == old(self)@[0] && final(self)@ == old(self)@.drop_first()),
    {
        if self.head.is_none() {
            return None;
        }
        let ghost t0 = *self;
        assert(t0.linked(t0.nodes@.len() - 1));
        let n = self.nodes.pop().unwrap();
        self.head = n.next;
        if let Some(h) = self.head {
            self.nodes[h].prev = None;
        }
        if n.next.is_none() {
            self.tail = None;
        }
        proof {
            let len = self.nodes@.len();
            assert forall|i: int| 0 <= i < len implies #[trigger] self.linked(i) by {
                assert(t0.linked(i));
            }
        }
        assert(self@ =~= old(self)@.drop_first());
        Some(n)
    }

    /// The slot of the head cell.
    pub fn head(&self) -> (r: Option<usize>)
        requires
            self.wf(),
        ensures
            self@.len() > 0 ==> (r matches Some(h) && h == self.slot(0)),
            self@.len() == 0 ==> r is None,
    {
        self.head
    }

    /// The slot of the tail cell.
    pub fn tail(&self) -> (r: Option<usize>)
        requires
            self.wf(),
        ensures
            self@.len() > 0 ==> (r matches Some(t) && t == self.slot(self@.len() - 1)),
            self@.len() == 0 ==> r is None,
    {
        self.tail
    }

    /// The slot of the cell after the one in slot `id` (toward the tail).
    pub fn next_of(&self, id: usize) -> (r: Option<usize>)
        requires
            self.wf(),
            id < self@.len(),
        ensures
            forall|p: int| 0 <= p < self@.len() && #[trigger] self.slot(p) == id ==> (if p + 1 < self@.len() {
                r matches Some(j) && j == self.slot(p + 1)
            } else {
                r is None
            }),
    {
        assert(self.linked(id as int));
        self.nodes[id].next
    }

    /// The value of the cell in slot `id`.
    pub fn value_of(&self, id: usize) -> (r: &T)
        requires
            id < self@.len(),
        ensures
            forall|p: int| 0 <= p < self@.len() && #[trigger] self.slot(p) == id ==> *r == self@[p],
    {
        let r = &self.nodes[id].value;
        proof {
            assert forall|p: int| 0 <= p < self@.len() && #[trigger] self.slot(p) == id implies *r == self@[p] by {
                assert(self@[p] == self.nodes@[self.nodes@.len() - 1 - p].value);
            }
        }
        r
    }

    /// The value at position `index` from the head, or at the tail when the
    /// list is shorter; nothing when it is empty.
    pub fn node_at(&self, index: usize) -> (r: Option<&T>)
        requires
            self.wf(),
        ensures
            self@.len() == 0 ==> r is None,
            self@.len() > 0 ==> r == Some(&self@[if index < self@.len() { index as int } else { self@.len() - 1 }]),
    {
        let n = self.nodes.len();
        if n == 0 {
            return None;
        }
        let mut x: usize = n - 1;
        let mut current_index: usize = 0;
        loop
            invariant
                self.wf(),
                n == self@.len(),
                n > 0,
                current_index <= index,
                current_index < n,
                x == n - 1 - current_index,
            ensures
                x == n - 1 - (if index < n { index as int } else { n - 1 }),
            decreases n - current_index,
        {
            if current_index == index {
                break;
            }
            assert(self.linked(x as int));
            match self.nodes[x].next {
                None => break,
                Some(next) => {
                    x = next;
                    current_index = current_index + 1;
                },
            }
        }
        Some(&self.nodes[x].value)
    }

    /// Puts `value` in front of the cell at position `index` from the head
    /// (in front of the tail when the list is shorter), as `push` does at the
    /// head.
    pub fn push_at(&mut self, index: usize, value: T)
        requires
            old(self).wf(),
            old(self)@.len() > 0,
        ensures
            final(self).wf(),
            final(self)@ == old(self)@.insert(
                if index < old(self)@.len() { index as int } else { old(self)@.len() - 1 },
                value,
            ),
    {
        let n = self.nodes.len();
        let pos = if index < n { index } else { n - 1 };
        self.nodes.insert(n - pos, ListNode::new(value));
        let ghost inserted = self@;
        assert(inserted =~= old(self)@.insert(pos as int, value));
        self.relink();
    }

    /// Rewrites every link from the slot order.
    fn relink(&mut self)
        ensures
            final(self).wf(),
            final(self)@ == old(self)@,
    {
        let n = self.nodes.len();
        let mut i: usize = 0;
        while i < n
            invariant
                n == self.nodes@.len(),
                n == old(self).nodes@.len(),
                i <= n,
                forall|k: int| 0 <= k < n ==> (#[trigger] self.nodes@[k]).value == old(self).nodes@[k].value,
                forall|k: int| 0 <= k < i ==> #[trigger] self.linked(k),
            decreases n - i,
        {
            let ghost s0 = *self;
            self.nodes[i].next = if i > 0 { Some(i - 1) } else { None };
            self.nodes[i].prev = if i + 1 < n { Some(i + 1) } else { None };
            assert forall|k: int| 0 <= k < i + 1 implies #[trigger] self.linked(k) by {
                if k < i {
                    assert(s0.linked(k));
                }
            }
            i = i + 1;
        }
        let ghost s1 = *self;
        self.head = if n > 0 { Some(n - 1) } else { None };
        self.tail = if n > 0 { Some(0) } else { None };
        assert forall|k: int| 0 <= k < n implies #[trigger] self.linked(k) by {
            assert(s1.linked(k));
        }
        assert(self@ =~= old(self)@);
    }
}

} // verus!
