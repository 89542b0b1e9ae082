//! A first-in, first-out queue: values are appended at the tail and taken
//! from the head.
//!
//! Nodes live in an [`Arena`]; a link is the slot index of a node, or nothing.

use crate::arena::{link_to, Arena, Link};
use vstd::prelude::*;

verus! {

/// A single node of the queue: a value, and the link to the node behind it.
pub struct Node<T> {
    value: T,
    next: Link,
}

impl<T> Node<T> {
    pub closed spec fn value(&self) -> T {
        self.value
    }

    pub closed spec fn next(&self) -> Link {
        self.next
    }

    /// Returns a new unlinked node holding `value`.
    pub fn new(value: T) -> (node: Node<T>)
        ensures
            node.value() == value,
            node.next() is None,
    {
        Node { value: value, next: None }
    }
}

/// The queue: links to its first and last node, and the number of nodes.
/// Its view is the sequence of its values, oldest first.
pub struct Fifo<T> {
    arena: Arena<Node<T>>,
    head: Link,
    tail: Link,
    length: i32,
    /// The slots of the nodes, from head to tail.
    order: Ghost<Seq<usize>>,
}

/// `nodes` holds exactly the nodes named by `order`, each once, and every
/// node is linked to the one behind it in `order`, the last to nothing.
spec fn is_queue<T>(nodes: Map<usize, Node<T>>, order: Seq<usize>) -> bool {
    &&& order.no_duplicates()
    &&& forall|i: usize| nodes.dom().contains(i) <==> order.contains(i)
    &&& forall|k: int|
        0 <= k < order.len() ==> (#[trigger] nodes[order[k]]).next == link_to(order, k + 1)
}

/// The values of the nodes of a queue, from first to last.
spec fn queue_values<T>(nodes: Map<usize, Node<T>>, order: Seq<usize>) -> Seq<T> {
    Seq::new(order.len(), |k: int| nodes[order[k]].value)
}

/// Taking the first node out of a queue leaves a queue of the nodes behind it.
proof fn lemma_take_first<T>(nodes: Map<usize, Node<T>>, order: Seq<usize>)
    requires
        is_queue(nodes, order),
        order.len() > 0,
    ensures
        is_queue(nodes.remove(order[0]), order.drop_first()),
        queue_values(nodes.remove(order[0]), order.drop_first()) == queue_values(
            nodes,
            order,
        ).drop_first(),
{
    let rest = order.drop_first();
    let left = nodes.remove(order[0]);
    assert forall|i: usize| left.dom().contains(i) <==> rest.contains(i) by {
        if left.dom().contains(i) {
            assert(order.contains(i));
            let j = choose|j: int| 0 <= j < order.len() && order[j] == i;
            assert(rest[j - 1] == i);
        }
        if rest.contains(i) {
            let j = choose|j: int| 0 <= j < rest.len() && rest[j] == i;
            assert(order[j + 1] == i);
            assert(order.contains(i));
        }
    }
    assert forall|j: int| 0 <= j < rest.len() implies (#[trigger] left[rest[j]]).next == link_to(
        rest,
        j + 1,
    ) by {
        assert(rest[j] == order[j + 1]);
    }
    assert(queue_values(left, rest) =~= queue_values(nodes, order).drop_first());
}

/// Linking a fresh node behind the last node of a queue leaves a queue that
/// ends in the new node.
proof fn lemma_append<T>(
    nodes: Map<usize, Node<T>>,
    order: Seq<usize>,
    i: usize,
    extended: Map<usize, Node<T>>,
)
    requires
        is_queue(nodes, order),
        !nodes.dom().contains(i),
        extended.dom() == nodes.dom().insert(i),
        extended[i].next is None,
        forall|j: int|
            0 <= j < order.len() ==> {
                &&& (#[trigger] extended[order[j]]).value == nodes[order[j]].value
                &&& extended[order[j]].next == if j == order.len() - 1 {
                    Some(i)
                } else {
                    nodes[order[j]].next
                }
            },
    ensures
        is_queue(extended, order.push(i)),
        queue_values(extended, order.push(i)) == queue_values(nodes, order).push(extended[i].value),
{
    let longer = order.push(i);
    assert forall|s: usize| extended.dom().contains(s) <==> longer.contains(s) by {
        if extended.dom().contains(s) {
            if s == i {
                assert(longer[order.len() as int] == s);
            } else {
                assert(order.contains(s));
                let j = choose|j: int| 0 <= j < order.len() && order[j] == s;
                assert(longer[j] == s);
            }
        }
        if longer.contains(s) {
            let j = choose|j: int| 0 <= j < longer.len() && longer[j] == s;
            if j < order.len() {
                assert(order[j] == s);
                assert(order.contains(s));
            }
        }
    }
    assert forall|j: int| 0 <= j < longer.len() implies (#[trigger] extended[longer[j]]).next
        == link_to(longer, j + 1) by {
        if j < order.len() {
            assert(longer[j] == order[j]);
        }
    }
    assert(queue_values(extended, longer) =~= queue_values(nodes, order).push(extended[i].value));
}

impl<T> View for Fifo<T> {
    type V = Seq<T>;

    closed spec fn view(&self) -> Seq<T> {
        queue_values(self.arena@, self.order@)
    }
}

impl<T> Fifo<T> {
    /// The nodes form one chain from head to tail, the head and tail links
    /// point to its ends (or are both unset when it is empty), and the
    /// recorded length is the number of nodes.
    pub closed spec fn well_formed(&self) -> bool {
        &&& self.arena.well_formed()
        &&& is_queue(self.arena@, self.order@)
        &&& self.length as int == self.order@.len()
        &&& self.head == link_to(self.order@, 0)
        &&& self.tail == link_to(self.order@, self.order@.len() - 1)
    }

    /// Returns a new empty queue.
    pub fn new() -> (queue: Fifo<T>)
        ensures
            queue.well_formed(),
            queue@ == Seq::<T>::empty(),
    {
        let queue = Fifo {
            arena: Arena::new(),
            head: None,
            tail: None,
            length: 0,
            order: Ghost(Seq::empty()),
        };
        assert(queue@ =~= Seq::<T>::empty());
        queue
    }

    /// Returns the number of values in the queue.
    pub fn get_length(&self) -> (length: i32)
        requires
            self.well_formed(),
        ensures
            length == self@.len(),
    {
        self.length
    }

    /// Appends `value` at the tail and returns the new length.
    pub fn enqueue(&mut self, value: T) -> (length: i32)
        requires
            old(self).well_formed(),
            old(self)@.len() < i32::MAX,
        ensures
            final(self).well_formed(),
            final(self)@ == old(self)@.push(value),
            length == old(self)@.len() + 1,
    {
        let ghost order = self.order@;
        let ghost nodes = self.arena@;
        let new_node = Node::new(value);
        match self.tail {
            Some(old_tail) => {
                assert(order.contains(old_tail));
                let new_tail = self.arena.insert(new_node);
                self.arena.get_mut(old_tail).next = Some(new_tail);
                self.tail = Some(new_tail);
                proof {
                    assert(self.arena@.dom() =~= nodes.dom().insert(new_tail));
                    assert forall|j: int| 0 <= j < order.len() implies #[trigger] order[j]
                        != new_tail by {
                        assert(order.contains(order[j]));
                    }
                    lemma_append(nodes, order, new_tail, self.arena@);
                    self.order@ = order.push(new_tail);
                }
            },
            None => {
                let first = self.arena.insert(new_node);
                self.head = Some(first);
                self.tail = Some(first);
                proof {
                    lemma_append(nodes, order, first, self.arena@);
                    self.order@ = order.push(first);
                }
            },
        }
        self.length += 1;
        self.length
    }

    /// Removes and returns the oldest value; nothing on an empty queue,
    /// which is left as it is.
    pub fn dequeue(&mut self) -> (value: Option<T>)
        requires
            old(self).well_formed(),
        ensures
            final(self).well_formed(),
            old(self)@.len() == 0 ==> value is None && final(self)@ == old(self)@,
            old(self)@.len() > 0 ==> value == Some(old(self)@.first()) && final(self)@ == old(
                self,
            )@.drop_first(),
    {
        match self.head {
            Some(head) => {
                let ghost order = self.order@;
                let ghost nodes = self.arena@;
                assert(order.contains(head));
                let node = self.arena.remove(head);
                match node.next {
                    Some(next) => {
                        self.head = Some(next);
                    },
                    None => {
                        self.head = None;
                        self.tail = None;
                    },
                }
                self.length -= 1;
                proof {
                    lemma_take_first(nodes, order);
                    self.order@ = order.drop_first();
                }
                Some(node.value)
            },
            None => None,
        }
    }
}

} // verus!
