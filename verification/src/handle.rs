//! Handles: opaque references to one element of one list.

use std::marker::PhantomData;
use vstd::prelude::*;

verus! {

/// Why a handle was turned down.
#[derive(Clone, Copy, Debug, PartialEq, Eq, Structural)]
pub enum HandleError {
    /// The handle was issued by another list.
    ForeignHandle,
    /// The handle was issued by this list, but its element is gone.
    InvalidHandle,
}

impl HandleError {
    /// A sentence that says what went wrong.
    pub fn message(&self) -> (text: &'static str)
        ensures
            text == (match *self {
                HandleError::ForeignHandle => "entry belongs to a different LinkedList",
                HandleError::InvalidHandle => "invalid entry",
            }),
    {
        match self {
            HandleError::ForeignHandle => "entry belongs to a different LinkedList",
            HandleError::InvalidHandle => "invalid entry",
        }
    }
}

/// An opaque, non-owning reference to one element of one `LinkedList`.
///
/// A handle names a slot of the list's arena together with the generation
/// of the element that lived there when the handle was issued, and carries
/// the identity token of the list that issued it.
#[derive(Debug)]
pub struct Entry<T> {
    pub(crate) list: u64,
    pub(crate) slot: usize,
    pub(crate) generation: u64,
    pub(crate) marker: PhantomData<T>,
}

impl<T> Clone for Entry<T> {
    fn clone(&self) -> (copy: Self)
        ensures
            copy == *self,
    {
        Entry { list: self.list, slot: self.slot, generation: self.generation, marker: PhantomData }
    }
}

impl<T> Copy for Entry<T> {

}

impl<T> PartialEq for Entry<T> {
    /// Two handles are equal when they name the same element of the same
    /// list.
    fn eq(&self, other: &Self) -> (same: bool) {
        self.list == other.list && self.slot == other.slot && self.generation == other.generation
    }
}

impl<T> Eq for Entry<T> {

}

impl<T> vstd::std_specs::cmp::PartialEqSpecImpl for Entry<T> {
    open spec fn obeys_eq_spec() -> bool {
        true
    }

    open spec fn eq_spec(&self, other: &Self) -> bool {
        &&& self.list_token() == other.list_token()
        &&& self.slot_index() == other.slot_index()
        &&& self.generation() == other.generation()
    }
}

impl<T> Entry<T> {
    /// The identity token of the list that issued this handle.
    pub closed spec fn list_token(self) -> u64 {
        self.list
    }

    /// The arena slot that this handle names.
    pub closed spec fn slot_index(self) -> usize {
        self.slot
    }

    /// The generation of the element that this handle names.
    pub closed spec fn generation(self) -> u64 {
        self.generation
    }

    /// The handle with the given parts.
    pub closed spec fn from_parts(list: u64, slot: usize, generation: u64) -> Self {
        Entry { list, slot, generation, marker: PhantomData }
    }

    /// Handles compare equal exactly when they are the same handle.
    pub proof fn lemma_eq(self, other: Self)
        ensures
            vstd::std_specs::cmp::PartialEqSpec::eq_spec(&self, &other) == (self == other),
    {
    }

    /// A handle is nothing more than its three parts.
    pub proof fn lemma_parts(self)
        ensures
            self == Self::from_parts(self.list_token(), self.slot_index(), self.generation()),
            forall|list: u64, slot: usize, generation: u64|
                {
                    let h = #[trigger] Self::from_parts(list, slot, generation);
                    h.list_token() == list && h.slot_index() == slot && h.generation() == generation
                },
    {
    }

    pub(crate) fn new(list: u64, slot: usize, generation: u64) -> (entry: Self)
        ensures
            entry == Self::from_parts(list, slot, generation),
    {
        Entry { list, slot, generation, marker: PhantomData }
    }

    pub(crate) fn token_part(&self) -> (token: u64)
        ensures
            token == self.list_token(),
    {
        self.list
    }

    pub(crate) fn slot_part(&self) -> (slot: usize)
        ensures
            slot == self.slot_index(),
    {
        self.slot
    }

    pub(crate) fn generation_part(&self) -> (generation: u64)
        ensures
            generation == self.generation(),
    {
        self.generation
    }
}

} // verus!
