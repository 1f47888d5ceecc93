//! A list with positional insertion, deletion and access at both ends.
//!
//! The elements are held in a growable array rather than in separately
//! allocated nodes, so the structure needs no raw pointers; the interface
//! is that of a doubly linked list with head, tail and index operations.

use vstd::prelude::*;

verus! {

/// List of values; the view is the sequence of elements from head to tail.
#[derive(Debug)]
pub struct LinkedList<T> {
    data: Vec<T>,
}

impl<T> View for LinkedList<T> {
    type V = Seq<T>;

    closed spec fn view(&self) -> Seq<T> {
        self.data@
    }
}

impl<T> LinkedList<T> {
    /// Returns an empty list.
    pub fn new() -> (l: Self)
        ensures
            l@ == Seq::<T>::empty(),
    {
        LinkedList { data: Vec::new() }
    }

    /// Prepends `val` before the current head.
    pub fn insert_at_head(&mut self, val: T)
        requires
            old(self)@.len() < usize::MAX,
        ensures
            final(self)@ == seq![val] + old(self)@,
    {
        self.data.insert(0, val);
        assert(self@ =~= seq![val] + old(self)@);
    }

    /// Appends `val` after the current tail.
    pub fn insert_at_tail(&mut self, val: T)
        requires
            old(self)@.len() < usize::MAX,
        ensures
            final(self)@ == old(self)@.push(val),
    {
        self.data.push(val);
    }

    /// Inserts `val` so that it ends up at position `idx`; positions `0`
    /// and `len` mean the head and past the tail respectively.
    pub fn insert_at_ith(&mut self, val: T, idx: usize)
        requires
            idx <= old(self)@.len(),
            old(self)@.len() < usize::MAX,
        ensures
            final(self)@ == old(self)@.insert(idx as int, val),
    {
        self.data.insert(idx, val);
    }

    /// Removes and returns the head element; `None` on an empty list.
    pub fn delete_head(&mut self) -> (r: Option<T>)
        ensures
            old(self)@.len() == 0 ==> r is None && final(self)@ == old(self)@,
            old(self)@.len() > 0 ==> r == Some(old(self)@[0])
                && final(self)@ == old(self)@.drop_first(),
    {
        if self.data.len() == 0 {
            return None;
        }
        let v = self.data.remove(0);
        assert(self@ =~= old(self)@.drop_first());
        Some(v)
    }

    /// Removes and returns the tail element; `None` on an empty list.
    pub fn delete_tail(&mut self) -> (r: Option<T>)
        ensures
            old(self)@.len() == 0 ==> r is None && final(self)@ == old(self)@,
            old(self)@.len() > 0 ==> r == Some(old(self)@.last())
                && final(self)@ == old(self)@.drop_last(),
    {
        self.data.pop()
    }

    /// Removes and returns the element at position `idx`.
    pub fn delete_ith(&mut self, idx: usize) -> (r: Option<T>)
        requires
            idx < old(self)@.len(),
        ensures
            r == Some(old(self)@[idx as int]),
            final(self)@ == old(self)@.remove(idx as int),
    {
        Some(self.data.remove(idx))
    }

    /// Borrows the element at position `idx`.
    pub fn get_ith(&self, idx: usize) -> (r: Option<&T>)
        requires
            idx < self@.len(),
        ensures
            r == Some(&self@[idx as int]),
    {
        Some(&self.data[idx])
    }

    /// True exactly when the list holds no element.
    pub fn is_empty(&self) -> (r: bool)
        ensures
            r == (self@.len() == 0),
    {
        self.data.len() == 0
    }

    /// The number of elements in the list.
    pub fn size(&self) -> (n: usize)
        ensures
            n == self@.len(),
    {
        self.data.len()
    }
}

} // verus!
