//! Stacks: a linked list of boxes and a fixed array.
//!
//! Both are described by the sequence of their elements from bottom to top.

use vstd::prelude::*;

verus! {

/// Last in, first out.
pub trait Stack<T> {
    /// The elements from bottom to top.
    spec fn items(&self) -> Seq<T>;

    /// The stack is in a state that its operations leave it in.
    spec fn wf(&self) -> bool;

    /// Another element can be pushed.
    spec fn has_room(&self) -> bool;

    /// What `pop` hands out when the stack is empty.
    spec fn underflow(&self) -> Option<T>;

    /// Puts `t` on top.
    fn push(&mut self, t: T)
        requires
            old(self).wf(),
            old(self).has_room(),
        ensures
            final(self).wf(),
            final(self).items() == old(self).items().push(t),
    ;

    /// Takes the top element off and returns it.  On an empty stack nothing
    /// is taken off and the stack stays empty.
    fn pop(&mut self) -> (r: Option<T>)
        requires
            old(self).wf(),
        ensures
            final(self).wf(),
            old(self).items().len() > 0 ==> r == Some(old(self).items().last())
                && final(self).items() == old(self).items().drop_last(),
            old(self).items().len() == 0 ==> r == old(self).underflow() && final(self).items()
                == old(self).items(),
    ;

    /// Whether the stack holds no element.
    fn is_empty(&self) -> (r: bool)
        requires
            self.wf(),
        ensures
            r == (self.items().len() == 0),
    ;
}

/// A stack as a singly linked list; the head is the top.
pub struct List<T> {
    head: Link<T>,
}

/// The rest of a list: nothing, or a node and what follows it.
pub enum Link<T> {
    Empty,
    More(Box<Node<T>>),
}

/// One element and the link to the elements below it.
pub struct Node<T> {
    elem: T,
    next: Link<T>,
}

impl<T> Link<T> {
    /// The elements that the link leads to, the farthest first.
    pub closed spec fn items(self) -> Seq<T>
        decreases self,
    {
        match self {
            Link::Empty => Seq::empty(),
            Link::More(node) => node.next.items().push(node.elem),
        }
    }
}

impl<T> List<T> {
    /// The elements from bottom to top.
    pub closed spec fn view(&self) -> Seq<T> {
        self.head.items()
    }

    /// An empty list.
    pub fn new() -> (list: Self)
        ensures
            list.view() == Seq::<T>::empty(),
    {
        List { head: Link::Empty }
    }
}

/// The top element of the list, if there is one.
pub fn car<'a, T>(xs: &'a List<T>) -> (out: Option<&'a T>)
    ensures
        xs.view().len() == 0 ==> out.is_none(),
        xs.view().len() > 0 ==> out == Some(&xs.view().last()),
{
    let out;
    match xs.head {
        Link::Empty => {
            out = None;
        },
        Link::More(ref boxed_node) => {
            out = Some(&boxed_node.elem);
        },
    }
    out
}

impl<T> Stack<T> for List<T> {
    open spec fn items(&self) -> Seq<T> {
        self.view()
    }

    open spec fn wf(&self) -> bool {
        true
    }

    open spec fn has_room(&self) -> bool {
        true
    }

    open spec fn underflow(&self) -> Option<T> {
        None
    }

    fn push(&mut self, t: T) {
        let mut rest = Link::Empty;
        core::mem::swap(&mut self.head, &mut rest);
        let new_node = Node { elem: t, next: rest };
        self.head = Link::More(Box::new(new_node));
    }

    fn pop(&mut self) -> (r: Option<T>) {
        let mut taken = Link::Empty;
        core::mem::swap(&mut self.head, &mut taken);
        match taken {
            Link::Empty => None,
            Link::More(box_node) => {
                let node = *box_node;
                self.head = node.next;
                assert(node.next.items().push(node.elem).drop_last() =~= node.next.items());
                Some(node.elem)
            },
        }
    }

    fn is_empty(&self) -> (r: bool) {
        match self.head {
            Link::Empty => true,
            _ => false,
        }
    }
}

/// The number of slots of an [`ArrayStack`].
pub const N: usize = 10;

/// A stack in a fixed array.  The slot above the top is kept free, so the
/// stack holds one element less than the array has slots.
pub struct ArrayStack {
    n: usize,
    s: [Option<u32>; N],
}

impl ArrayStack {
    /// The count is within the array, and every slot below it is filled.
    pub closed spec fn filled(&self) -> bool {
        &&& self.n < N
        &&& forall|i: int| 0 <= i < self.n ==> (#[trigger] self.s[i]) is Some
    }

    /// The elements from bottom to top.
    pub closed spec fn view(&self) -> Seq<u32> {
        Seq::new(self.n as nat, |i: int| self.s[i]->0)
    }

    /// What the lowest slot holds: `None` on a stack that was never used,
    /// else the last element that stood there.
    pub closed spec fn bottom_slot(&self) -> Option<u32> {
        self.s[0]
    }

    /// An empty stack.
    pub fn new() -> (stack: Self)
        ensures
            stack.filled(),
            stack.view() == Seq::<u32>::empty(),
            stack.bottom_slot().is_none(),
    {
        ArrayStack { n: 0, s: [None; N] }
    }
}

impl Stack<u32> for ArrayStack {
    open spec fn items(&self) -> Seq<u32> {
        self.view()
    }

    open spec fn wf(&self) -> bool {
        self.filled()
    }

    open spec fn has_room(&self) -> bool {
        self.view().len() + 1 < N
    }

    open spec fn underflow(&self) -> Option<u32> {
        self.bottom_slot()
    }

    fn push(&mut self, ele: u32)
        ensures
            final(self).bottom_slot() == if old(self).view().len() == 0 {
                Some(ele)
            } else {
                old(self).bottom_slot()
            },
    {
        self.s[self.n] = Some(ele);
        self.n = self.n + 1;
        assert(self.view() =~= old(self).view().push(ele));
    }

    fn pop(&mut self) -> (r: Option<u32>)
        ensures
            final(self).bottom_slot() == old(self).bottom_slot(),
    {
        if self.n != 0 {
            self.n = self.n - 1;
        }
        let out = self.s[self.n];
        assert(old(self).n > 0 ==> self.view() =~= old(self).view().drop_last());
        out
    }

    fn is_empty(&self) -> (r: bool) {
        self.n == 0
    }
}

} // verus!
