//! Identifier generators.
use vstd::prelude::*;

verus! {

/// A monotonic counter that hands out identifiers.
///
/// `next` returns the current value and then advances; `peek` shows the value
/// that `next` would return; `clear` resets the counter to the value it was
/// created with.
pub struct IDGenerator {
    id: usize,
    initial: usize,
}

impl IDGenerator {
    /// The identifier that the next call of `next` hands out.
    pub closed spec fn upcoming(&self) -> nat {
        self.id as nat
    }

    /// The identifier the generator started from, and returns to on `clear`.
    pub closed spec fn floor(&self) -> nat {
        self.initial as nat
    }

    pub closed spec fn wf(&self) -> bool {
        self.initial <= self.id
    }

    pub fn new(initial_id: usize) -> (r: Self)
        ensures
            r.wf(),
            r.upcoming() == initial_id,
            r.floor() == initial_id,
    {
        IDGenerator { id: initial_id, initial: initial_id }
    }

    /// Returns a fresh identifier, one greater than the previous one.
    pub fn next(&mut self) -> (r: usize)
        requires
            old(self).wf(),
            old(self).upcoming() < usize::MAX,
        ensures
            final(self).wf(),
            r == old(self).upcoming(),
            final(self).upcoming() == old(self).upcoming() + 1,
            final(self).floor() == old(self).floor(),
    {
        self.id = self.id + 1;
        self.id - 1
    }

    /// Returns the identifier that `next` would hand out, without advancing.
    pub fn peek(&self) -> (r: usize)
        ensures
            r == self.upcoming(),
    {
        self.id
    }

    /// The last identifier handed out since creation or the last `clear`,
    /// or `None` when there is none.
    pub fn max(&self) -> (r: Option<usize>)
        requires
            self.wf(),
        ensures
            self.upcoming() == self.floor() ==> r is None,
            self.upcoming() > self.floor() ==> r == Some((self.upcoming() - 1) as usize),
    {
        if self.id > self.initial {
            Some(self.id - 1)
        } else {
            None
        }
    }

    /// Resets the counter to its initial offset.
    pub fn clear(&mut self)
        ensures
            final(self).wf(),
            final(self).upcoming() == old(self).floor(),
            final(self).floor() == old(self).floor(),
    {
        self.id = self.initial;
    }
}

} // verus!
