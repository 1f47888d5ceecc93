//! A last-in-first-out stack that keeps its element count in a separate
//! `top` index alongside the backing array.

use vstd::prelude::*;

verus! {

/// Stack of values; the view is the sequence of elements from bottom to top.
///
/// `top` always equals the length of `data`; `well_formed` states that
/// invariant, constructors establish it and every method preserves it.
pub struct Stack<T> {
    top: usize,
    data: Vec<T>,
}

impl<T> View for Stack<T> {
    type V = Seq<T>;

    closed spec fn view(&self) -> Seq<T> {
        self.data@
    }
}

impl<T> Stack<T> {
    /// The `top` index agrees with the number of stored elements.
    pub closed spec fn well_formed(self) -> bool {
        self.top == self.data@.len()
    }

    /// Returns an empty stack.
    pub fn new() -> (s: Self)
        ensures
            s.well_formed(),
            s@ == Seq::<T>::empty(),
    {
        Stack { top: 0, data: Vec::new() }
    }

    /// Places `item` on top of the stack.
    pub fn push(&mut self, item: T)
        requires
            old(self).well_formed(),
            old(self)@.len() < usize::MAX,
        ensures
            final(self).well_formed(),
            final(self)@ == old(self)@.push(item),
    {
        self.data.push(item);
        self.top = self.top + 1;
    }

    /// Removes and returns the top element; `None` on an empty stack.
    pub fn pop(&mut self) -> (r: Option<T>)
        requires
            old(self).well_formed(),
        ensures
            final(self).well_formed(),
            old(self)@.len() == 0 ==> r is None && final(self)@ == old(self)@,
            old(self)@.len() > 0 ==> r == Some(old(self)@.last())
                && final(self)@ == old(self)@.drop_last(),
    {
        if self.is_empty() {
            return None;
        }
        self.top = self.top - 1;
        Some(self.data.pop().unwrap())
    }

    /// True exactly when the stack holds no element.
    pub fn is_empty(&self) -> (r: bool)
        requires
            self.well_formed(),
        ensures
            r == (self@.len() == 0),
    {
        self.top == 0
    }

    /// Borrows the top element without removing it; `None` on an empty stack.
    pub fn peek(&self) -> (r: Option<&T>)
        requires
            self.well_formed(),
        ensures
            self@.len() == 0 ==> r is None,
            self@.len() > 0 ==> r == Some(&self@.last()),
    {
        match self.is_empty() {
            true => None,
            false => Some(&self.data[self.top - 1]),
        }
    }

    /// The number of elements on the stack.
    pub fn size(&self) -> (n: usize)
        requires
            self.well_formed(),
        ensures
            n == self@.len(),
    {
        self.top
    }
}

} // verus!
