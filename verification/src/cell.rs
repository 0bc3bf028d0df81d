//! A slot that holds at most one value and hands it out by move.
//!
//! Every link of a node is kept in such a slot, and the operations that
//! rewire a tree are written with its four primitives: looking at the
//! value, storing one, taking it out, and exchanging it for another.

use vstd::prelude::*;

verus! {

/// A slot that is either empty or holds one value of type `T`.
pub struct MoveCell<T> {
    value: Option<T>,
}

impl<T> View for MoveCell<T> {
    type V = Option<T>;

    closed spec fn view(&self) -> Option<T> {
        self.value
    }
}

impl<T> MoveCell<T> {
    /// An empty slot.
    pub fn new() -> (cell: Self)
        ensures
            cell@ is None,
    {
        MoveCell { value: None }
    }

    /// Whether the slot is empty.
    pub fn is_none(&self) -> (empty: bool)
        ensures
            empty == (self@ is None),
    {
        self.value.is_none()
    }

    /// Stores `value`, discarding what the slot held.
    pub fn set(&mut self, value: Option<T>)
        ensures
            final(self)@ == value,
    {
        self.value = value;
    }

    /// Moves the held value out and leaves the slot empty.
    pub fn take(&mut self) -> (taken: Option<T>)
        ensures
            taken == old(self)@,
            final(self)@ is None,
    {
        self.replace(None)
    }

    /// Stores `value` and returns what the slot held before.
    pub fn replace(&mut self, value: Option<T>) -> (previous: Option<T>)
        ensures
            previous == old(self)@,
            final(self)@ == value,
    {
        let mut incoming = value;
        std::mem::swap(&mut self.value, &mut incoming);
        incoming
    }
}

impl<T: Copy> MoveCell<T> {
    /// A copy of the held value; the slot is left as it is.
    pub fn get(&self) -> (held: Option<T>)
        ensures
            held == self@,
    {
        self.value
    }
}

} // verus!
