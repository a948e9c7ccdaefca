//! A queue of numbers as a singly linked list.
//!
//! The list is described by the sequence of its values from head to tail.
//! Values can enter at either end and leave at the head.

use vstd::prelude::*;

verus! {

/// One value and the link to the values behind it.
pub struct Node {
    next: Option<Box<Node>>,
    value: u32,
}

impl Node {
    /// A node that nothing follows.
    pub fn new(n: u32) -> (node: Node)
        ensures
            node.values() == seq![n],
            node.is_last(),
    {
        let node = Node { next: None, value: n };
        assert(node.values() =~= seq![n]);
        node
    }

    /// The value of the node and of all that follow it, in order.
    pub closed spec fn values(self) -> Seq<u32>
        decreases self,
    {
        seq![self.value] + link_values(self.next)
    }

    /// Nothing follows the node.
    pub closed spec fn is_last(self) -> bool {
        self.next is None
    }

    /// Hangs `next` behind a node that nothing follows yet.
    pub fn set_next(&mut self, next: Box<Node>)
        requires
            old(self).is_last(),
        ensures
            final(self).values() == old(self).values() + next.values(),
            !final(self).is_last(),
    {
        self.next = Some(next);
        assert(link_values(old(self).next) =~= Seq::<u32>::empty());
    }
}

/// The values that a link leads to, in order.
pub closed spec fn link_values(link: Option<Box<Node>>) -> Seq<u32>
    decreases link,
{
    match link {
        None => Seq::empty(),
        Some(node) => node.values(),
    }
}

/// Puts a node with `n` behind the last node that follows `node`.
fn append_node(node: &mut Node, n: u32)
    ensures
        final(node).values() == old(node).values().push(n),
    decreases *old(node),
{
    match node.next.take() {
        None => {
            node.set_next(Box::new(Node::new(n)));
            assert(old(node).values() + seq![n] =~= old(node).values().push(n));
        },
        Some(mut rest) => {
            let ghost behind = rest.values();
            append_node(&mut *rest, n);
            node.next = Some(rest);
            assert(seq![node.value] + behind.push(n) =~= (seq![node.value] + behind).push(n));
        },
    }
}

/// Copies the values that `link` leads to onto the end of `out`.
fn collect_link(link: &Option<Box<Node>>, out: &mut Vec<u32>)
    ensures
        final(out)@ == old(out)@ + link_values(*link),
    decreases link,
{
    match link {
        None => {
            assert(old(out)@ + link_values(*link) =~= old(out)@);
        },
        Some(box_node) => {
            out.push(box_node.value);
            collect_link(&box_node.next, out);
            assert(old(out)@.push(box_node.value) + link_values(box_node.next) =~= old(out)@
                + link_values(*link));
        },
    }
}

/// A list of numbers with a head and a tail.
pub struct LinkedList {
    head: Option<Box<Node>>,
}

impl LinkedList {
    /// The values from head to tail.
    pub closed spec fn view(&self) -> Seq<u32> {
        link_values(self.head)
    }

    /// An empty list.
    pub fn new() -> (list: Self)
        ensures
            list.view() == Seq::<u32>::empty(),
    {
        LinkedList { head: None }
    }

    /// Whether the list holds no value.
    pub fn is_empty(&self) -> (r: bool)
        ensures
            r == (self.view().len() == 0),
    {
        match self.head {
            None => true,
            _ => false,
        }
    }

    /// Puts `n` in front of the head.
    pub fn push(&mut self, n: u32)
        ensures
            final(self).view() == seq![n] + old(self).view(),
    {
        let node = Node { value: n, next: self.head.take() };
        self.head = Some(Box::new(node));
    }

    /// Puts `n` behind the tail.
    pub fn append(&mut self, n: u32)
        ensures
            final(self).view() == old(self).view().push(n),
    {
        match self.head.take() {
            None => {
                self.head = Some(Box::new(Node::new(n)));
                assert(Seq::<u32>::empty().push(n) =~= seq![n]);
            },
            Some(mut head) => {
                append_node(&mut *head, n);
                self.head = Some(head);
            },
        }
    }

    /// Takes the value at the head off the list and returns it; `None` if
    /// the list is empty.
    pub fn pop(&mut self) -> (r: Option<u32>)
        ensures
            old(self).view().len() == 0 ==> r.is_none() && final(self).view() == old(self).view(),
            old(self).view().len() > 0 ==> r == Some(old(self).view().first())
                && final(self).view() == old(self).view().drop_first(),
    {
        match self.head.take() {
            None => None,
            Some(boxed_node) => {
                let node = *boxed_node;
                let val = node.value;
                self.head = node.next;
                assert((seq![val] + link_values(node.next)).drop_first() =~= link_values(
                    node.next,
                ));
                Some(val)
            },
        }
    }

    /// The values from head to tail, as a vector.
    pub fn to_vec(&self) -> (out: Vec<u32>)
        ensures
            out@ == self.view(),
    {
        let mut out: Vec<u32> = Vec::new();
        collect_link(&self.head, &mut out);
        assert(Seq::<u32>::empty() + self.view() =~= self.view());
        out
    }
}

/// First in, first out.
pub trait Queue {
    /// The waiting values, the next to leave first.
    spec fn waiting(&self) -> Seq<u32>;

    /// Whether no value is waiting.
    fn is_empty(&self) -> (r: bool)
        ensures
            r == (self.waiting().len() == 0),
    ;

    /// Lets `n` join at the end.
    fn queue(&mut self, n: u32)
        ensures
            final(self).waiting() == old(self).waiting().push(n),
    ;

    /// Lets the value that has waited longest leave; `None` if none waits.
    fn dequeue(&mut self) -> (r: Option<u32>)
        ensures
            old(self).waiting().len() == 0 ==> r.is_none() && final(self).waiting() == old(
                self,
            ).waiting(),
            old(self).waiting().len() > 0 ==> r == Some(old(self).waiting().first())
                && final(self).waiting() == old(self).waiting().drop_first(),
    ;
}

impl Queue for LinkedList {
    open spec fn waiting(&self) -> Seq<u32> {
        self.view()
    }

    fn is_empty(&self) -> (r: bool) {
        LinkedList::is_empty(self)
    }

    fn queue(&mut self, n: u32) {
        self.append(n);
    }

    fn dequeue(&mut self) -> (r: Option<u32>) {
        self.pop()
    }
}

} // verus!
