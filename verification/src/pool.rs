//! A free list of reusable items.
//!
//! `push` returns an item, `pop` hands the most recently returned one back
//! out; popping an empty pool yields nothing and the caller constructs a
//! fresh instance instead. An item taken from a pool belongs to exactly one
//! holder until it is returned or dropped.

use vstd::prelude::*;

verus! {

/// A last-in-first-out free list.
pub struct Pool<T> {
    items: Vec<T>,
}

impl<T> View for Pool<T> {
    type V = Seq<T>;

    closed spec fn view(&self) -> Seq<T> {
        self.items@
    }
}

impl<T> Pool<T> {
    /// Creates an empty pool.
    pub fn new() -> (r: Pool<T>)
        ensures
            r@ == Seq::<T>::empty(),
    {
        Pool { items: Vec::new() }
    }

    /// How many items sit in the pool.
    pub fn len(&self) -> (r: usize)
        ensures
            r == self@.len(),
    {
        self.items.len()
    }

    /// Returns an item to the pool.
    pub fn push(&mut self, item: T)
        ensures
            final(self)@ == old(self)@.push(item),
    {
        self.items.push(item)
    }

    /// Takes the most recently returned item; nothing when the pool is
    /// empty.
    pub fn pop(&mut self) -> (r: Option<T>)
        ensures
            old(self)@.len() == 0 ==> r is None && final(self)@ == old(self)@,
            old(self)@.len() > 0 ==> r == Some(old(self)@.last()) && final(self)@ == old(
                self,
            )@.drop_last(),
    {
        self.items.pop()
    }
}

} // verus!
