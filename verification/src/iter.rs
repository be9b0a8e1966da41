//! Forward traversal of a list.

use crate::list::{link_at, LinkedList};
use crate::slot::Link;
use vstd::prelude::*;

verus! {

/// A forward, read-only walk over the values of a `LinkedList`, from the
/// head to the tail.
pub struct Iter<'a, T: 'a> {
    list: &'a LinkedList<T>,
    curr: Link,
    place: Ghost<int>,
}

impl<'a, T> View for Iter<'a, T> {
    type V = Seq<T>;

    /// The values that the walk has yet to yield, in order.
    open spec fn view(&self) -> Seq<T> {
        self.list()@.skip(self.position())
    }
}

impl<'a, T> Iter<'a, T> {
    /// The list that is walked.
    pub closed spec fn list(&self) -> LinkedList<T> {
        *self.list
    }

    /// The number of values yielded so far.
    pub closed spec fn position(&self) -> int {
        self.place@
    }

    /// The invariant of the walk: it stands at a place of a well-formed
    /// list, on the link that leads to the node of that place.
    pub closed spec fn wf(&self) -> bool {
        let c = self.list.chain();
        &&& self.list.wf()
        &&& 0 <= self.place@ <= c.len()
        &&& self.curr == link_at(c, self.place@)
    }

    /// Yields the next value, or `None` once the tail has been passed.
    pub fn next(&mut self) -> (item: Option<&'a T>)
        requires
            old(self).wf(),
        ensures
            final(self).wf(),
            final(self).list() == old(self).list(),
            match item {
                Some(value) => {
                    &&& old(self)@.len() > 0
                    &&& *value == old(self)@[0]
                    &&& final(self)@ == old(self)@.skip(1)
                    &&& final(self).position() == old(self).position() + 1
                },
                None => {
                    &&& old(self)@.len() == 0
                    &&& final(self)@ == old(self)@
                    &&& final(self).position() == old(self).position()
                },
            },
    {
        match self.curr {
            None => None,
            Some(slot) => {
                let (value, next) = self.list.node_at(slot);
                self.curr = next;
                self.place = Ghost(self.place@ + 1);
                Some(value)
            },
        }
    }
}

impl<T> LinkedList<T> {
    /// A walk over the values of the list, from the head to the tail.
    pub fn iter(&self) -> (iter: Iter<'_, T>)
        requires
            self.wf(),
        ensures
            iter.wf(),
            iter.list() == *self,
            iter.position() == 0,
            iter@ == self@,
    {
        Iter { list: self, curr: self.first(), place: Ghost(0) }
    }
}

} // verus!
