//! A doubly linked list with enqueue at the tail, consuming removal at either
//! end, and a cursor that can step through the list, peek, and remove the
//! value it stands on.
//!
//! Nodes live in an [`Arena`]; a link is the slot index of a node, or nothing.

use crate::arena::{link_to, Arena, Link};
use crate::model::ListState;
use vstd::prelude::*;

verus! {

/// A single node of the list: a value, and the links to its neighbours.
pub struct Node<T> {
    value: T,
    next: Link,
    previous: Link,
}

impl<T> Node<T> {
    pub closed spec fn value(&self) -> T {
        self.value
    }

    pub closed spec fn next(&self) -> Link {
        self.next
    }

    pub closed spec fn previous(&self) -> Link {
        self.previous
    }

    /// Returns a new unlinked node holding `value`.
    pub fn new(value: T) -> (node: Node<T>)
        ensures
            node.value() == value,
            node.next() is None,
            node.previous() is None,
    {
        Node { value: value, next: None, previous: None }
    }
}

/// The list: links to its first and last node and to the node under the
/// cursor, and the number of nodes.
pub struct DlList<T> {
    arena: Arena<Node<T>>,
    head: Link,
    tail: Link,
    current_position: Link,
    length: i32,
    /// The slots of the nodes, from head to tail.
    order: Ghost<Seq<usize>>,
    /// The position in `order` of the node under the cursor.
    position: Ghost<int>,
}

/// `nodes` holds exactly the nodes named by `order`, each once, and every
/// node is linked to its neighbours in `order` and to nothing else.
spec fn is_chain<T>(nodes: Map<usize, Node<T>>, order: Seq<usize>) -> bool {
    &&& order.no_duplicates()
    &&& forall|i: usize| nodes.dom().contains(i) <==> order.contains(i)
    &&& forall|k: int|
        0 <= k < order.len() ==> {
            &&& (#[trigger] nodes[order[k]]).next == link_to(order, k + 1)
            &&& nodes[order[k]].previous == link_to(order, k - 1)
        }
}

/// The values of the nodes of a chain, from first to last.
spec fn chain_values<T>(nodes: Map<usize, Node<T>>, order: Seq<usize>) -> Seq<T> {
    Seq::new(order.len(), |k: int| nodes[order[k]].value)
}

/// Taking the node at position `k` out of a chain, and joining its
/// neighbours' links around the gap, leaves a chain of the remaining nodes.
proof fn lemma_unlink<T>(
    nodes: Map<usize, Node<T>>,
    order: Seq<usize>,
    k: int,
    joined: Map<usize, Node<T>>,
)
    requires
        is_chain(nodes, order),
        0 <= k < order.len(),
        joined.dom() == nodes.dom().remove(order[k]),
        forall|j: int|
            0 <= j < order.len() && j != k ==> {
                &&& (#[trigger] joined[order[j]]).value == nodes[order[j]].value
                &&& joined[order[j]].next == if j == k - 1 {
                    nodes[order[k]].next
                } else {
                    nodes[order[j]].next
                }
                &&& joined[order[j]].previous == if j == k + 1 {
                    nodes[order[k]].previous
                } else {
                    nodes[order[j]].previous
                }
            },
    ensures
        is_chain(joined, order.remove(k)),
        chain_values(joined, order.remove(k)) == chain_values(nodes, order).remove(k),
{
    let rest = order.remove(k);
    assert forall|i: usize| joined.dom().contains(i) <==> rest.contains(i) by {
        if joined.dom().contains(i) {
            assert(order.contains(i));
            let j = choose|j: int| 0 <= j < order.len() && order[j] == i;
            assert(rest[if j < k { j } else { j - 1 }] == i);
        }
        if rest.contains(i) {
            let j = choose|j: int| 0 <= j < rest.len() && rest[j] == i;
            assert(order[if j < k { j } else { j + 1 }] == i);
            assert(order.contains(i));
        }
    }
    assert forall|j: int| 0 <= j < rest.len() implies {
        &&& (#[trigger] joined[rest[j]]).next == link_to(rest, j + 1)
        &&& joined[rest[j]].previous == link_to(rest, j - 1)
    } by {
        assert(rest[j] == order[if j < k { j } else { j + 1 }]);
    }
    assert(chain_values(joined, rest) =~= chain_values(nodes, order).remove(k));
}

/// Linking a fresh node behind the last node of a chain leaves a chain that
/// ends in the new node.
proof fn lemma_append<T>(
    nodes: Map<usize, Node<T>>,
    order: Seq<usize>,
    i: usize,
    extended: Map<usize, Node<T>>,
)
    requires
        is_chain(nodes, order),
        !nodes.dom().contains(i),
        extended.dom() == nodes.dom().insert(i),
        extended[i].next is None,
        extended[i].previous == link_to(order, order.len() - 1),
        forall|j: int|
            0 <= j < order.len() ==> {
                &&& (#[trigger] extended[order[j]]).value == nodes[order[j]].value
                &&& extended[order[j]].next == if j == order.len() - 1 {
                    Some(i)
                } else {
                    nodes[order[j]].next
                }
                &&& extended[order[j]].previous == nodes[order[j]].previous
            },
    ensures
        is_chain(extended, order.push(i)),
        chain_values(extended, order.push(i)) == chain_values(nodes, order).push(extended[i].value),
{
    let longer = order.push(i);
    assert forall|s: usize| extended.dom().contains(s) <==> longer.contains(s) by {
        if extended.dom().contains(s) {
            if s == i {
                assert(longer[order.len() as int] == s);
            } else {
                assert(order.contains(s));
                let j = choose|j: int| 0 <= j < order.len() && order[j] == s;
                assert(longer[j] == s);
            }
        }
        if longer.contains(s) {
            let j = choose|j: int| 0 <= j < longer.len() && longer[j] == s;
            if j < order.len() {
                assert(order[j] == s);
                assert(order.contains(s));
            }
        }
    }
    assert forall|j: int| 0 <= j < longer.len() implies {
        &&& (#[trigger] extended[longer[j]]).next == link_to(longer, j + 1)
        &&& extended[longer[j]].previous == link_to(longer, j - 1)
    } by {
        if j < order.len() {
            assert(longer[j] == order[j]);
        }
    }
    assert(chain_values(extended, longer) =~= chain_values(nodes, order).push(extended[i].value));
}

impl<T> View for DlList<T> {
    type V = ListState<T>;

    closed spec fn view(&self) -> ListState<T> {
        ListState {
            items: chain_values(self.arena@, self.order@),
            cursor: if self.order@.len() == 0 {
                None
            } else {
                Some(self.position@)
            },
        }
    }
}

impl<T> DlList<T> {
    /// The nodes form one chain from head to tail, the head, tail and cursor
    /// links point into it (or are all unset when it is empty), and the
    /// recorded length is the number of nodes.
    pub closed spec fn well_formed(&self) -> bool {
        &&& self.arena.well_formed()
        &&& is_chain(self.arena@, self.order@)
        &&& self.length as int == self.order@.len()
        &&& self.head == link_to(self.order@, 0)
        &&& self.tail == link_to(self.order@, self.order@.len() - 1)
        &&& self.order@.len() == 0 ==> self.current_position is None
        &&& self.order@.len() > 0 ==> {
            &&& 0 <= self.position@ < self.order@.len()
            &&& self.current_position == Some(self.order@[self.position@])
        }
    }

    /// Returns a new empty list.
    pub fn new() -> (list: DlList<T>)
        ensures
            list.well_formed(),
            list@ == ListState::<T>::empty(),
    {
        let list = DlList {
            arena: Arena::new(),
            head: None,
            tail: None,
            current_position: None,
            length: 0,
            order: Ghost(Seq::empty()),
            position: Ghost(0),
        };
        assert(list@.items =~= Seq::<T>::empty());
        list
    }

    /// Returns the number of values in the list.
    pub fn get_length(&self) -> (length: i32)
        requires
            self.well_formed(),
        ensures
            length == self@.len(),
    {
        self.length
    }

    /// Removes and returns the value under the cursor, joining the node's
    /// neighbours. The cursor moves to the successor, or to the predecessor
    /// when the removed node was the tail. On an empty list nothing changes.
    pub fn get_current_position(&mut self) -> (value: Option<T>)
        requires
            old(self).well_formed(),
        ensures
            final(self).well_formed(),
            value == old(self)@.current(),
            final(self)@ == old(self)@.remove_current(),
    {
        match self.current_position {
            Some(cp) => {
                let ghost order = self.order@;
                let ghost k = self.position@;
                let ghost nodes = self.arena@;
                assert(order.contains(cp));
                let node = self.arena.remove(cp);
                match node.previous {
                    Some(previous_item) => {
                        assert(order.contains(previous_item));
                        match node.next {
                            Some(next_item) => {
                                assert(order.contains(next_item));
                                self.arena.get_mut(previous_item).next = Some(next_item);
                                self.arena.get_mut(next_item).previous = Some(previous_item);
                                self.current_position = Some(next_item);
                            },
                            None => {
                                self.arena.get_mut(previous_item).next = None;
                                self.tail = Some(previous_item);
                                self.current_position = Some(previous_item);
                            },
                        }
                    },
                    None => {
                        match node.next {
                            Some(next_item) => {
                                assert(order.contains(next_item));
                                self.arena.get_mut(next_item).previous = None;
                                self.current_position = Some(next_item);
                                self.head = Some(next_item);
                            },
                            None => {
                                self.head = None;
                                self.tail = None;
                                self.current_position = None;
                            },
                        }
                    },
                }
                self.length -= 1;
                proof {
                    assert(self.arena@.dom() =~= nodes.dom().remove(cp));
                    lemma_unlink(nodes, order, k, self.arena@);
                    self.order@ = order.remove(k);
                    if k + 1 >= order.len() {
                        self.position@ = k - 1;
                    }
                }
                Some(node.value)
            },
            None => {
                // the cursor is unset in an empty list only
                assert(self.length == 0);
                None
            },
        }
    }

    /// Removes and returns the first value. Its successor becomes the head;
    /// a cursor that stood on the removed node moves there too. On an empty
    /// list nothing changes.
    pub fn get_head(&mut self) -> (value: Option<T>)
        requires
            old(self).well_formed(),
        ensures
            final(self).well_formed(),
            value == old(self)@.head(),
            final(self)@ == old(self)@.remove_head(),
    {
        match self.head {
            Some(head) => {
                let ghost order = self.order@;
                let ghost nodes = self.arena@;
                assert(order.contains(head));
                let node = self.arena.remove(head);
                match node.next {
                    Some(next) => {
                        assert(order.contains(next));
                        self.arena.get_mut(next).previous = None;
                        if self.current_position == Some(head) {
                            self.current_position = Some(next);
                        }
                        self.head = Some(next);
                    },
                    None => {
                        self.head = None;
                        self.tail = None;
                        self.current_position = None;
                    },
                }
                self.length -= 1;
                proof {
                    assert(self.arena@.dom() =~= nodes.dom().remove(head));
                    lemma_unlink(nodes, order, 0, self.arena@);
                    self.order@ = order.remove(0);
                    if self.position@ > 0 {
                        self.position@ = self.position@ - 1;
                    }
                }
                Some(node.value)
            },
            None => None,
        }
    }

    /// Removes and returns the last value. Its predecessor becomes the tail;
    /// a cursor that stood on the removed node moves there too. On an empty
    /// list nothing changes.
    pub fn get_tail(&mut self) -> (value: Option<T>)
        requires
            old(self).well_formed(),
        ensures
            final(self).well_formed(),
            value == old(self)@.tail(),
            final(self)@ == old(self)@.remove_tail(),
    {
        match self.tail {
            Some(tail) => {
                let ghost order = self.order@;
                let ghost last = order.len() - 1;
                let ghost nodes = self.arena@;
                assert(order.contains(tail));
                let node = self.arena.remove(tail);
                match node.previous {
                    Some(previous) => {
                        assert(order.contains(previous));
                        self.arena.get_mut(previous).next = None;
                        if self.current_position == Some(tail) {
                            self.current_position = Some(previous);
                        }
                        self.tail = Some(previous);
                    },
                    None => {
                        self.head = None;
                        self.tail = None;
                        self.current_position = None;
                    },
                }
                self.length -= 1;
                proof {
                    assert(self.arena@.dom() =~= nodes.dom().remove(tail));
                    lemma_unlink(nodes, order, last, self.arena@);
                    self.order@ = order.remove(last);
                    if self.position@ == last {
                        self.position@ = last - 1;
                    }
                }
                Some(node.value)
            },
            None => None,
        }
    }

    /// Appends `value` as the new tail and returns the new length. The first
    /// value of a list becomes its head, tail and cursor position at once.
    pub fn enqueue(&mut self, value: T) -> (length: i32)
        requires
            old(self).well_formed(),
            old(self)@.len() < i32::MAX,
        ensures
            final(self).well_formed(),
            final(self)@ == old(self)@.enqueue(value),
            length == old(self)@.len() + 1,
    {
        let ghost order = self.order@;
        let ghost nodes = self.arena@;
        let mut new_node = Node::new(value);
        match self.tail {
            Some(old_tail) => {
                assert(order.contains(old_tail));
                new_node.previous = Some(old_tail);
                let new_tail = self.arena.insert(new_node);
                self.arena.get_mut(old_tail).next = Some(new_tail);
                self.tail = Some(new_tail);
                proof {
                    assert(self.arena@.dom() =~= nodes.dom().insert(new_tail));
                    assert forall|j: int| 0 <= j < order.len() implies #[trigger] order[j]
                        != new_tail by {
                        assert(order.contains(order[j]));
                    }
                    lemma_append(nodes, order, new_tail, self.arena@);
                    self.order@ = order.push(new_tail);
                }
            },
            None => {
                let first = self.arena.insert(new_node);
                self.head = Some(first);
                self.tail = Some(first);
                self.current_position = Some(first);
                proof {
                    lemma_append(nodes, order, first, self.arena@);
                    self.order@ = order.push(first);
                    self.position@ = 0;
                }
            },
        }
        self.length += 1;
        self.length
    }

    /// Moves the cursor to the next value. Returns `false`, leaving the
    /// cursor where it is, when the list is empty or the cursor is on the tail.
    pub fn move_forward(&mut self) -> (moved: bool)
        requires
            old(self).well_formed(),
        ensures
            final(self).well_formed(),
            moved == old(self)@.can_move_forward(),
            final(self)@ == old(self)@.move_forward(),
    {
        match self.current_position {
            Some(cp) => {
                assert(self.order@.contains(cp));
                match self.arena.get(cp).next {
                    Some(next) => {
                        self.current_position = Some(next);
                        proof {
                            self.position@ = self.position@ + 1;
                        }
                        true
                    },
                    None => false,
                }
            },
            None => false,
        }
    }

    /// Moves the cursor to the previous value. Returns `false`, leaving the
    /// cursor where it is, when the list is empty or the cursor is on the head.
    pub fn move_backward(&mut self) -> (moved: bool)
        requires
            old(self).well_formed(),
        ensures
            final(self).well_formed(),
            moved == old(self)@.can_move_backward(),
            final(self)@ == old(self)@.move_backward(),
    {
        match self.current_position {
            Some(cp) => {
                assert(self.order@.contains(cp));
                match self.arena.get(cp).previous {
                    Some(previous) => {
                        self.current_position = Some(previous);
                        proof {
                            self.position@ = self.position@ - 1;
                        }
                        true
                    },
                    None => false,
                }
            },
            None => false,
        }
    }

    /// The value under the cursor, left in place; nothing on an empty list.
    pub fn peek_current_position(&self) -> (value: Option<&T>)
        requires
            self.well_formed(),
        ensures
            match self@.current() {
                Some(v) => value == Some(&v),
                None => value is None,
            },
    {
        match self.current_position {
            Some(cp) => {
                assert(self.order@.contains(cp));
                Some(&self.arena.get(cp).value)
            },
            None => None,
        }
    }

    /// The first value, left in place; nothing on an empty list.
    pub fn peek_head(&self) -> (value: Option<&T>)
        requires
            self.well_formed(),
        ensures
            match self@.head() {
                Some(v) => value == Some(&v),
                None => value is None,
            },
    {
        match self.head {
            Some(head) => {
                assert(self.order@.contains(head));
                Some(&self.arena.get(head).value)
            },
            None => None,
        }
    }

    /// The last value, left in place; nothing on an empty list.
    pub fn peek_tail(&self) -> (value: Option<&T>)
        requires
            self.well_formed(),
        ensures
            match self@.tail() {
                Some(v) => value == Some(&v),
                None => value is None,
            },
    {
        match self.tail {
            Some(tail) => {
                assert(self.order@.contains(tail));
                Some(&self.arena.get(tail).value)
            },
            None => None,
        }
    }
}

/// The links of a list, and what holds of them in every well-formed list.
impl<T> DlList<T> {
    /// The link to the first node.
    pub closed spec fn head_link(&self) -> Link {
        self.head
    }

    /// The link to the last node.
    pub closed spec fn tail_link(&self) -> Link {
        self.tail
    }

    /// The link to the node under the cursor.
    pub closed spec fn cursor_link(&self) -> Link {
        self.current_position
    }

    /// The node that a link to slot `i` refers to.
    pub closed spec fn node_at(&self, i: usize) -> Node<T> {
        self.arena@[i]
    }

    /// The slots that hold a node of the list.
    pub closed spec fn node_slots(&self) -> Set<usize> {
        self.arena@.dom()
    }

    /// The link reached from `from` by following `next` links `steps` times;
    /// nothing once the chain has ended.
    pub open spec fn forward(&self, from: Link, steps: nat) -> Link
        decreases steps,
    {
        if steps == 0 {
            from
        } else {
            match from {
                Some(i) => self.forward(self.node_at(i).next(), (steps - 1) as nat),
                None => None,
            }
        }
    }

    /// The link reached from `from` by following `previous` links `steps`
    /// times; nothing once the chain has ended.
    pub open spec fn backward(&self, from: Link, steps: nat) -> Link
        decreases steps,
    {
        if steps == 0 {
            from
        } else {
            match from {
                Some(i) => self.backward(self.node_at(i).previous(), (steps - 1) as nat),
                None => None,
            }
        }
    }

    /// `steps` links forward from position `j` of the chain lies position
    /// `j + steps`, or nothing where the chain is shorter.
    proof fn lemma_forward_from(&self, j: int, steps: nat)
        requires
            self.well_formed(),
            0 <= j <= self.order@.len(),
        ensures
            self.forward(link_to(self.order@, j), steps) == link_to(self.order@, j + steps),
        decreases steps,
    {
        if steps > 0 && j < self.order@.len() {
            self.lemma_forward_from(j + 1, (steps - 1) as nat);
        }
    }

    /// `steps` links backward from position `j` of the chain lies position
    /// `j - steps`, or nothing where the chain starts later.
    proof fn lemma_backward_from(&self, j: int, steps: nat)
        requires
            self.well_formed(),
            -1 <= j < self.order@.len(),
        ensures
            self.backward(link_to(self.order@, j), steps) == link_to(self.order@, j - steps),
        decreases steps,
    {
        if steps > 0 && j >= 0 {
            self.lemma_backward_from(j - 1, (steps - 1) as nat);
        }
    }

    /// The view of a well-formed list has its cursor on one of the values,
    /// or unset when there is none.
    pub proof fn lemma_view_well_formed(&self)
        requires
            self.well_formed(),
        ensures
            self@.well_formed(),
    {
    }

    /// Head, tail and cursor links are all unset in an empty list and all
    /// set in any other.
    pub proof fn lemma_links_set_unless_empty(&self)
        requires
            self.well_formed(),
        ensures
            self@.len() == 0 ==> self.head_link() is None && self.tail_link() is None
                && self.cursor_link() is None,
            self@.len() > 0 ==> self.head_link() is Some && self.tail_link() is Some
                && self.cursor_link() is Some,
    {
    }

    /// Following `next` from the head visits the values in order, one node
    /// for each, arrives at the tail with the last of them, and ends there:
    /// the forward traversal is as long as the list.
    pub proof fn lemma_forward_traversal(&self)
        requires
            self.well_formed(),
        ensures
            forall|k: nat|
                k < self@.len() ==> {
                    &&& (#[trigger] self.forward(self.head_link(), k)) matches Some(i)
                    &&& self.node_at(i).value() == self@.items[k as int]
                },
            self.forward(self.head_link(), self@.len()) is None,
            self@.len() > 0 ==> self.forward(self.head_link(), (self@.len() - 1) as nat)
                == self.tail_link(),
            self.tail_link() matches Some(t) ==> self.node_at(t).next() is None,
    {
        assert forall|k: nat| k < self@.len() implies {
            &&& (#[trigger] self.forward(self.head_link(), k)) matches Some(i)
            &&& self.node_at(i).value() == self@.items[k as int]
        } by {
            self.lemma_forward_from(0, k);
        }
        self.lemma_forward_from(0, self@.len());
        if self@.len() > 0 {
            self.lemma_forward_from(0, (self@.len() - 1) as nat);
        }
    }

    /// Following `previous` from the tail visits the values in reverse
    /// order, one node for each, arrives at the head with the first of them,
    /// and ends there: the backward traversal is as long as the list.
    pub proof fn lemma_backward_traversal(&self)
        requires
            self.well_formed(),
        ensures
            forall|k: nat|
                k < self@.len() ==> {
                    &&& (#[trigger] self.backward(self.tail_link(), k)) matches Some(i)
                    &&& self.node_at(i).value() == self@.items[self@.len() - 1 - k]
                },
            self.backward(self.tail_link(), self@.len()) is None,
            self@.len() > 0 ==> self.backward(self.tail_link(), (self@.len() - 1) as nat)
                == self.head_link(),
            self.head_link() matches Some(h) ==> self.node_at(h).previous() is None,
    {
        let last = self.order@.len() - 1;
        assert forall|k: nat| k < self@.len() implies {
            &&& (#[trigger] self.backward(self.tail_link(), k)) matches Some(i)
            &&& self.node_at(i).value() == self@.items[self@.len() - 1 - k]
        } by {
            self.lemma_backward_from(last, k);
        }
        self.lemma_backward_from(last, self@.len());
        if self@.len() > 0 {
            self.lemma_backward_from(last, (self@.len() - 1) as nat);
        }
    }

    /// The list holds one node for each of its values and no other: the
    /// nodes reached from the head are all different, and they are all the
    /// nodes there are.
    pub proof fn lemma_one_node_per_value(&self)
        requires
            self.well_formed(),
        ensures
            self.node_slots().finite(),
            self.node_slots().len() == self@.len(),
            forall|k: nat|
                k < self@.len() ==> {
                    &&& (#[trigger] self.forward(self.head_link(), k)) matches Some(i)
                    &&& self.node_slots().contains(i)
                },
            forall|j: nat, k: nat|
                j < k < self@.len() ==> #[trigger] self.forward(self.head_link(), j)
                    != #[trigger] self.forward(self.head_link(), k),
    {
        let order = self.order@;
        assert(self.node_slots() =~= order.to_set());
        vstd::seq_lib::seq_to_set_is_finite(order);
        order.unique_seq_to_set();
        assert forall|k: nat| k < self@.len() implies {
            &&& (#[trigger] self.forward(self.head_link(), k)) matches Some(i)
            &&& self.node_slots().contains(i)
        } by {
            self.lemma_forward_from(0, k);
            assert(order.contains(order[k as int]));
        }
        assert forall|j: nat, k: nat| j < k < self@.len() implies #[trigger] self.forward(
            self.head_link(),
            j,
        ) != #[trigger] self.forward(self.head_link(), k) by {
            self.lemma_forward_from(0, j);
            self.lemma_forward_from(0, k);
        }
    }

    /// Neighbours refer to each other: where `next` leads from one node of
    /// the chain to another, `previous` leads back.
    pub proof fn lemma_link_symmetry(&self, k: nat)
        requires
            self.well_formed(),
            k + 1 < self@.len(),
        ensures
            ({
                &&& self.forward(self.head_link(), k) matches Some(a)
                &&& self.forward(self.head_link(), k + 1) matches Some(b)
                &&& self.node_at(a).next() == Some(b)
                &&& self.node_at(b).previous() == Some(a)
            }),
    {
        self.lemma_forward_from(0, k);
        self.lemma_forward_from(0, k + 1);
    }

    /// The cursor refers to the node of the chain that holds the value at
    /// the cursor's position.
    pub proof fn lemma_cursor_in_chain(&self)
        requires
            self.well_formed(),
        ensures
            self@.cursor matches Some(c) ==> {
                &&& 0 <= c < self@.len()
                &&& self.cursor_link() == self.forward(self.head_link(), c as nat)
            },
    {
        if self.order@.len() > 0 {
            self.lemma_forward_from(0, self.position@ as nat);
        }
    }
}

} // verus!
