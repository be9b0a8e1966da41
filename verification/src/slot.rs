//! Arena slots and the nodes they hold.

use vstd::prelude::*;

verus! {

/// A link to another node: the index of its slot, or nothing.
pub(crate) type Link = Option<usize>;

/// One element of the list with its two links.
pub(crate) struct Node<T> {
    pub value: T,
    pub prev: Link,
    pub next: Link,
}

impl<T> Node<T> {
    /// A node that is linked to nothing.
    pub(crate) fn new(v: T) -> (node: Node<T>)
        ensures
            node.value == v,
            node.prev is None,
            node.next is None,
    {
        Node { value: v, next: None, prev: None }
    }

    /// Sets the forward link of a node that has none yet.
    pub(crate) fn set_next(&mut self, next: usize)
        requires
            old(self).next is None,
        ensures
            final(self).next == Some(next),
            final(self).prev == old(self).prev,
            final(self).value == old(self).value,
    {
        self.next = Some(next);
    }
}

/// Clears the backward link of `next`, then returns it.
pub(crate) fn link_no_prev<T>(next: Node<T>) -> (node: Node<T>)
    ensures
        node.value == next.value,
        node.next == next.next,
        node.prev is None,
{
    let mut next = next;
    next.prev = None;
    next
}

/// One slot of the arena.
///
/// `generation` counts the elements that have left this slot. A slot whose
/// generation has reached `u64::MAX` is retired and never holds an element
/// again, so no two elements of one slot ever share a generation.
pub(crate) struct Slot<T> {
    pub generation: u64,
    pub node: Option<Node<T>>,
}

} // verus!
