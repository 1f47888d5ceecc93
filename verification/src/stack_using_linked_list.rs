//! A last-in-first-out stack built on the positional list: pushes and pops
//! happen at the tail, while `peek` looks at the head, the element that has
//! been on the stack longest.

use crate::linked_list::LinkedList;
use vstd::prelude::*;

verus! {

/// Stack of values; the view is the sequence of elements from bottom to top.
#[derive(Debug)]
pub struct Stack<T> {
    list: LinkedList<T>,
}

impl<T> View for Stack<T> {
    type V = Seq<T>;

    closed spec fn view(&self) -> Seq<T> {
        self.list@
    }
}

impl<T> Stack<T> {
    /// Returns an empty stack.
    pub fn new() -> (s: Self)
        ensures
            s@ == Seq::<T>::empty(),
    {
        Stack { list: LinkedList::new() }
    }

    /// Places `val` on top of the stack.
    pub fn push(&mut self, val: T)
        requires
            old(self)@.len() < usize::MAX,
        ensures
            final(self)@ == old(self)@.push(val),
    {
        self.list.insert_at_tail(val);
    }

    /// Removes and returns the top element; `None` on an empty stack.
    pub fn pop(&mut self) -> (r: Option<T>)
        ensures
            old(self)@.len() == 0 ==> r is None && final(self)@ == old(self)@,
            old(self)@.len() > 0 ==> r == Some(old(self)@.last())
                && final(self)@ == old(self)@.drop_last(),
    {
        self.list.delete_tail()
    }

    /// Borrows the bottom element of a non-empty stack.
    pub fn peek(&self) -> (r: Option<&T>)
        requires
            self@.len() > 0,
        ensures
            r == Some(&self@[0]),
    {
        self.list.get_ith(0)
    }

    /// True exactly when the stack holds no element.
    pub fn is_empty(&self) -> (r: bool)
        ensures
            r == (self@.len() == 0),
    {
        self.list.is_empty()
    }

    /// The number of elements on the stack.
    pub fn size(&self) -> (n: usize)
        ensures
            n == self@.len(),
    {
        self.list.size()
    }
}

} // verus!
