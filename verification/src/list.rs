//! The list: an arena of slots threaded by forward and backward links.
//!
//! Every node lives in one slot of a growable arena. A link is the index of
//! a slot, so a node is reached from its neighbours and from its handle
//! alike without anyone but the arena owning it. A handle carries the token
//! of its list, the index of its slot and the generation of its node; a slot
//! moves on to a new generation whenever its node leaves, so that a handle
//! kept beyond the removal of its element is told apart from the handle of
//! whatever lives in the slot next.

use crate::handle::{Entry, HandleError};
use crate::slot::{link_no_prev, Link, Node, Slot};
use crate::token::fresh_token;
use vstd::prelude::*;

verus! {

/// The link to the node at `place` of `chain`, or no link where the chain
/// has no such place.
pub open spec fn link_at(chain: Seq<usize>, place: int) -> Option<usize> {
    if 0 <= place < chain.len() {
        Some(chain[place])
    } else {
        None
    }
}

/// A doubly-linked list whose elements are reached by handle in constant
/// time.
///
/// The nodes live in the slots of an arena and link to each other by slot
/// index. `chain` is the order in which the forward links visit them.
pub struct LinkedList<T> {
    token: u64,
    slots: Vec<Slot<T>>,
    head: Link,
    tail: Link,
    free: Vec<usize>,
    chain: Ghost<Seq<usize>>,
}

impl<T> View for LinkedList<T> {
    type V = Seq<T>;

    /// The values of the list, from head to tail.
    open spec fn view(&self) -> Seq<T> {
        Seq::new(self.chain().len(), |i: int| self.value_in(self.chain()[i]))
    }
}

// The model: what a list is to its callers.
impl<T> LinkedList<T> {
    /// The identity token of this list.
    pub closed spec fn token(&self) -> u64 {
        self.token
    }

    /// The slots of the nodes, from head to tail.
    pub closed spec fn chain(&self) -> Seq<usize> {
        self.chain@
    }

    /// The number of slots in the arena.
    pub closed spec fn slot_count(&self) -> nat {
        self.slots@.len()
    }

    /// The link to the first node.
    pub closed spec fn head_link(&self) -> Option<usize> {
        self.head
    }

    /// The link to the last node.
    pub closed spec fn tail_link(&self) -> Option<usize> {
        self.tail
    }

    /// Whether `slot` holds a node.
    pub closed spec fn is_node(&self, slot: usize) -> bool {
        slot < self.slots@.len() && self.slots@[slot as int].node is Some
    }

    /// The forward link of the node in `slot`.
    pub closed spec fn next_link(&self, slot: usize) -> Option<usize> {
        self.slots@[slot as int].node->0.next
    }

    /// The backward link of the node in `slot`.
    pub closed spec fn prev_link(&self, slot: usize) -> Option<usize> {
        self.slots@[slot as int].node->0.prev
    }

    /// The value of the node in `slot`.
    pub closed spec fn value_in(&self, slot: usize) -> T {
        self.slots@[slot as int].node->0.value
    }

    /// The number of elements that have left `slot`.
    pub closed spec fn generation_in(&self, slot: usize) -> u64 {
        self.slots@[slot as int].generation
    }

    /// The links agree with the chain:
    /// the forward links, followed from the head, visit every node once and
    /// end at the tail; every backward link leads to the node before; and a
    /// slot holds a node only if the chain reaches it.
    pub open spec fn chain_ok(&self) -> bool {
        let c = self.chain();
        &&& c.no_duplicates()
        &&& forall|i: int| 0 <= i < c.len() ==> self.is_node(#[trigger] c[i])
        &&& forall|s: usize| #[trigger] self.is_node(s) ==> c.contains(s)
        &&& self.head_link() == link_at(c, 0)
        &&& self.tail_link() == link_at(c, c.len() - 1)
        &&& forall|i: int| 0 <= i < c.len() ==> #[trigger] self.next_link(c[i]) == link_at(c, i + 1)
        &&& forall|i: int| 0 <= i < c.len() ==> #[trigger] self.prev_link(c[i]) == link_at(c, i - 1)
    }

    /// The arena keeps its books: the free list names each reusable empty
    /// slot once and nothing else, and no node lives in a retired slot.
    pub closed spec fn arena_ok(&self) -> bool {
        &&& self.free@.no_duplicates()
        &&& forall|j: int| 0 <= j < self.free@.len() ==> self.reusable(#[trigger] self.free@[j])
        &&& forall|s: usize| #[trigger] self.reusable(s) ==> self.free@.contains(s)
        &&& forall|s: usize| #[trigger] self.is_node(s) ==> self.generation_in(s) < u64::MAX
    }

    /// Whether `slot` is empty and may hold a node again.
    spec fn reusable(&self, slot: usize) -> bool {
        &&& slot < self.slots@.len()
        &&& self.slots@[slot as int].node is None
        &&& self.slots@[slot as int].generation < u64::MAX
    }

    /// The invariant of the list.
    pub open spec fn wf(&self) -> bool {
        self.arena_ok() && self.chain_ok()
    }

    /// The handles of the elements, from head to tail.
    pub open spec fn handles(&self) -> Seq<Entry<T>> {
        Seq::new(
            self.chain().len(),
            |i: int| Entry::from_parts(self.token(), self.chain()[i], self.generation_in(self.chain()[i])),
        )
    }

    /// Whether `entry` names an element of this list.
    pub open spec fn contains(&self, entry: Entry<T>) -> bool {
        self.handles().contains(entry)
    }

    /// The place of the element that `entry` names, counted from the head.
    pub open spec fn index_of(&self, entry: Entry<T>) -> int {
        self.handles().index_of(entry)
    }

    /// The value of the element that `entry` names.
    pub open spec fn value_of(&self, entry: Entry<T>) -> T {
        self@[self.index_of(entry)]
    }

    /// Whether `entry` names an element that has left this list.
    pub open spec fn expired(&self, entry: Entry<T>) -> bool {
        &&& entry.list_token() == self.token()
        &&& entry.slot_index() < self.slot_count()
        &&& entry.generation() < self.generation_in(entry.slot_index())
    }

    /// Why this list turns `entry` down, or `None` where it names one of its
    /// elements.
    pub open spec fn rejection(&self, entry: Entry<T>) -> Option<HandleError> {
        if entry.list_token() != self.token() {
            Some(HandleError::ForeignHandle)
        } else if !self.contains(entry) {
            Some(HandleError::InvalidHandle)
        } else {
            None
        }
    }
}

// The operations.
impl<T> LinkedList<T> {
    /// An empty list with an identity token of the caller's choice.
    ///
    /// Lists that may ever see each other's handles need different tokens.
    pub fn with_token(token: u64) -> (list: LinkedList<T>)
        ensures
            list.wf(),
            list@ == Seq::<T>::empty(),
            list.token() == token,
            list.head_link() is None,
            list.tail_link() is None,
            list.slot_count() == 0,
    {
        let list = LinkedList {
            token,
            slots: Vec::new(),
            head: None,
            tail: None,
            free: Vec::new(),
            chain: Ghost(Seq::empty()),
        };
        list
    }

    /// An empty list with a token drawn at random.
    pub fn new() -> (list: LinkedList<T>)
        ensures
            list.wf(),
            list@ == Seq::<T>::empty(),
            list.head_link() is None,
            list.tail_link() is None,
            list.slot_count() == 0,
    {
        Self::with_token(fresh_token())
    }

    /// Whether the list holds no element.
    pub fn is_empty(&self) -> (empty: bool)
        requires
            self.wf(),
        ensures
            empty == (self@.len() == 0),
            empty == (self.head_link() is None),
    {
        self.head.is_none()
    }

    /// Gives mutable access to the value of the element that `entry` names.
    ///
    /// A handle that this list did not issue, or whose element has left, is
    /// turned down. Whatever the caller writes through the reference becomes
    /// the value at that place; nothing else about the list changes.
    pub fn get_mut(&mut self, entry: &Entry<T>) -> (found: Result<&mut T, HandleError>)
        requires
            old(self).wf(),
        ensures
            final(self).wf(),
            final(self).token() == old(self).token(),
            final(self).handles() == old(self).handles(),
            final(self).chain() == old(self).chain(),
            forall|h: Entry<T>| final(self).expired(h) == old(self).expired(h),
            match found {
                Ok(value) => {
                    let i = old(self).index_of(*entry);
                    &&& old(self).rejection(*entry) is None
                    &&& 0 <= i < old(self)@.len()
                    &&& *value == old(self)@[i]
                    &&& final(self)@ == old(self)@.update(i, *final(value))
                },
                Err(e) => {
                    &&& old(self).rejection(*entry) == Some(e)
                    &&& *final(self) == *old(self)
                },
            },
    {
        let slot = match self.resolve(entry) {
            Ok(slot) => slot,
            Err(e) => {
                return Err(e);
            },
        };
        let ghost i = self.index_of(*entry);
        let ghost after = *final(self);
        match self.slots[slot].node.as_mut() {
            Some(node) => {
                let value = &mut node.value;
                proof {
                    after.lemma_revalued(old(self), i, *final(value));
                }
                Ok(value)
            },
            None => Err(HandleError::InvalidHandle),
        }
    }

    /// Appends a new element that holds `el` after the tail and returns its
    /// handle.
    ///
    /// The handle is new: it names no element of the list as it was, and none
    /// that ever left it.
    pub fn push(&mut self, el: T) -> (entry: Entry<T>)
        requires
            old(self).wf(),
        ensures
            final(self).wf(),
            final(self).token() == old(self).token(),
            final(self)@ == old(self)@.push(el),
            final(self).handles() == old(self).handles().push(entry),
            final(self).chain() == old(self).chain().push(entry.slot_index()),
            entry.list_token() == old(self).token(),
            !old(self).contains(entry),
            !old(self).expired(entry),
            forall|h: Entry<T>| final(self).expired(h) == old(self).expired(h),
    {
        match self.tail {
            None => {
                self.push_front(el)
            },
            Some(last) => {
                let mut node = Node::new(el);
                node.prev = Some(last);
                let slot = self.place(node);
                let ghost placed = *self;
                let generation = self.slots[slot].generation;
                self.link_after(last, slot);
                self.tail = Some(slot);
                self.chain = Ghost(self.chain@.push(slot));
                let entry = Entry::new(self.token, slot, generation);
                proof {
                    self.lemma_arena_kept(&placed);
                    assert(self.grown(old(self), slot, el)) by {
                        assert forall|s: usize| s < self.slot_count() implies #[trigger] self.generation_in(s)
                            == placed.generation_in(s) by {
                        }
                    }
                    self.lemma_grown(old(self), slot, el, entry);
                    self.lemma_appended(old(self), slot, el);
                }
                entry
            },
        }
    }

    /// Detaches the element that `entry` names and returns its value.
    ///
    /// A handle that this list did not issue, or whose element has left, is
    /// turned down and the list stays as it is. Otherwise the neighbours of
    /// the element are linked to each other, or to the ends of the list, and
    /// the handle is expired from then on.
    pub fn remove(&mut self, entry: Entry<T>) -> (removed: Result<T, HandleError>)
        requires
            old(self).wf(),
        ensures
            final(self).wf(),
            final(self).token() == old(self).token(),
            match removed {
                Ok(value) => {
                    let i = old(self).index_of(entry);
                    &&& old(self).rejection(entry) is None
                    &&& 0 <= i < old(self)@.len()
                    &&& value == old(self)@[i]
                    &&& final(self)@ == old(self)@.remove(i)
                    &&& final(self).handles() == old(self).handles().remove(i)
                    &&& final(self).chain() == old(self).chain().remove(i)
                    &&& forall|h: Entry<T>| final(self).expired(h) == (old(self).expired(h) || h == entry)
                },
                Err(e) => {
                    &&& old(self).rejection(entry) == Some(e)
                    &&& *final(self) == *old(self)
                },
            },
    {
        let slot = match self.resolve(&entry) {
            Ok(slot) => slot,
            Err(e) => {
                return Err(e);
            },
        };
        let ghost c = old(self).chain();
        let ghost i = old(self).index_of(entry);
        let node = self.vacate(slot);
        let ghost vacated = *self;
        let Node { value, prev, next } = node;
        match next {
            Some(after) => {
                self.relink_prev(after, prev);
            },
            None => {
                self.tail = prev;
            },
        }
        let ghost halfway = *self;
        match prev {
            Some(before) => {
                self.relink_next(before, next);
            },
            None => {
                self.head = next;
            },
        }
        self.chain = Ghost(self.chain@.remove(i));
        proof {
            self.lemma_arena_kept(&vacated);
            assert(self.detached(old(self), i)) by {
                assert forall|s: usize| s < self.slot_count() && s != slot implies self.generation_in(s)
                    == old(self).generation_in(s) && self.value_in(s) == old(self).value_in(s) by {
                    assert(self.value_in(s) == halfway.value_in(s));
                }
                assert forall|s: usize| s < self.slot_count() && s != slot implies self.next_link(s) == (if i > 0 && s
                    == c[i - 1] {
                    old(self).next_link(slot)
                } else {
                    old(self).next_link(s)
                }) by {
                    assert(halfway.next_link(s) == vacated.next_link(s));
                }
                assert forall|s: usize| s < self.slot_count() && s != slot implies self.prev_link(s) == (if i + 1
                    < c.len() && s == c[i + 1] {
                    old(self).prev_link(slot)
                } else {
                    old(self).prev_link(s)
                }) by {
                    assert(self.prev_link(s) == halfway.prev_link(s));
                }
            }
            self.lemma_detached(old(self), i, entry);
        }
        Ok(value)
    }

    /// Links a new node that holds `el` in front of the head, and returns
    /// its handle.
    fn push_front(&mut self, el: T) -> (entry: Entry<T>)
        requires
            old(self).wf(),
        ensures
            final(self).wf(),
            final(self).token() == old(self).token(),
            final(self)@ == seq![el] + old(self)@,
            final(self).handles() == seq![entry] + old(self).handles(),
            final(self).chain() == seq![entry.slot_index()] + old(self).chain(),
            entry.list_token() == old(self).token(),
            !old(self).contains(entry),
            !old(self).expired(entry),
            forall|h: Entry<T>| final(self).expired(h) == old(self).expired(h),
    {
        let first = self.head;
        let mut node = link_no_prev(Node::new(el));
        node.next = first;
        let slot = self.place(node);
        let ghost placed = *self;
        let generation = self.slots[slot].generation;
        match first {
            None => {
                self.tail = Some(slot);
            },
            Some(head) => {
                self.relink_prev(head, Some(slot));
            },
        }
        self.head = Some(slot);
        self.chain = Ghost(seq![slot] + self.chain@);
        let entry = Entry::new(self.token, slot, generation);
        proof {
            self.lemma_arena_kept(&placed);
            assert(self.grown(old(self), slot, el)) by {
                assert forall|s: usize| s < self.slot_count() implies #[trigger] self.generation_in(s)
                    == placed.generation_in(s) by {
                }
            }
            self.lemma_grown(old(self), slot, el, entry);
            self.lemma_prepended(old(self), slot, el);
        }
        entry
    }

    /// Turns down a handle that another list issued.
    fn ensure_same_ll(&self, entry: &Entry<T>) -> (same: Result<(), HandleError>)
        ensures
            same == (if entry.list_token() == self.token() {
                Ok::<(), HandleError>(())
            } else {
                Err::<(), HandleError>(HandleError::ForeignHandle)
            }),
    {
        if entry.token_part() == self.token {
            Ok(())
        } else {
            Err(HandleError::ForeignHandle)
        }
    }

    /// Finds the slot of the element that `entry` names.
    fn resolve(&self, entry: &Entry<T>) -> (found: Result<usize, HandleError>)
        requires
            self.wf(),
        ensures
            match found {
                Ok(slot) => {
                    &&& self.rejection(*entry) is None
                    &&& 0 <= self.index_of(*entry) < self.chain().len()
                    &&& self.chain()[self.index_of(*entry)] == slot
                    &&& self.is_node(slot)
                    &&& entry.slot_index() == slot
                    &&& entry.generation() == self.generation_in(slot)
                },
                Err(e) => self.rejection(*entry) == Some(e),
            },
    {
        match self.ensure_same_ll(entry) {
            Err(e) => {
                return Err(e);
            },
            Ok(_) => {},
        }
        let slot = entry.slot_part();
        proof {
            entry.lemma_parts();
        }
        if slot >= self.slots.len() {
            return Err(HandleError::InvalidHandle);
        }
        if self.slots[slot].generation != entry.generation_part() || self.slots[slot].node.is_none() {
            return Err(HandleError::InvalidHandle);
        }
        proof {
            let c = self.chain();
            assert(self.is_node(slot));
            let i = choose|i: int| 0 <= i < c.len() && c[i] == slot;
            assert(self.handles()[i] == *entry);
        }
        Ok(slot)
    }

    /// The link to the first node.
    pub(crate) fn first(&self) -> (link: Link)
        ensures
            link == self.head_link(),
    {
        self.head
    }

    /// The value of the node in `slot`, and the link to the node after it.
    pub(crate) fn node_at(&self, slot: usize) -> (node: (&T, Link))
        requires
            self.is_node(slot),
        ensures
            *node.0 == self.value_in(slot),
            node.1 == self.next_link(slot),
    {
        let node = self.slots[slot].node.as_ref().unwrap();
        (&node.value, node.next)
    }
}

// The arena: where the nodes live.
impl<T> LinkedList<T> {
    /// Puts `node` into an empty slot of the arena, a used one if any is
    /// free, and returns the slot. The links of the list are left alone.
    fn place(&mut self, node: Node<T>) -> (slot: usize)
        requires
            old(self).arena_ok(),
        ensures
            final(self).arena_ok(),
            final(self).placed(old(self), slot, node),
    {
        match self.free.pop() {
            Some(slot) => {
                self.slots[slot].node = Some(node);
                proof {
                    let before = old(self).free@;
                    assert forall|s: usize| #[trigger] self.reusable(s) implies self.free@.contains(s) by {
                        assert(old(self).reusable(s));
                        let j = choose|j: int| 0 <= j < before.len() && before[j] == s;
                        assert(self.free@[j] == s);
                    }
                    assert forall|s: usize| #[trigger] self.is_node(s) implies self.generation_in(s) < u64::MAX by {
                        if s != slot {
                            assert(old(self).is_node(s));
                        }
                    }
                }
                slot
            },
            None => {
                self.slots.push(Slot { generation: 0, node: Some(node) });
                proof {
                    assert forall|s: usize| #[trigger] self.reusable(s) implies self.free@.contains(s) by {
                        assert(old(self).reusable(s));
                    }
                    assert forall|s: usize| #[trigger] self.is_node(s) implies self.generation_in(s) < u64::MAX by {
                        if s < old(self).slots@.len() {
                            assert(old(self).is_node(s));
                        }
                    }
                }
                self.slots.len() - 1
            },
        }
    }

    /// Takes the node out of `slot`. The slot moves on to its next
    /// generation, and goes onto the free list unless that was its last.
    fn vacate(&mut self, slot: usize) -> (node: Node<T>)
        requires
            old(self).arena_ok(),
            old(self).is_node(slot),
        ensures
            final(self).arena_ok(),
            final(self).token == old(self).token,
            final(self).head == old(self).head,
            final(self).tail == old(self).tail,
            final(self).chain@ == old(self).chain@,
            final(self).slots@.len() == old(self).slots@.len(),
            Some(node) == old(self).slots@[slot as int].node,
            final(self).slots@[slot as int].node is None,
            final(self).slots@[slot as int].generation == old(self).slots@[slot as int].generation + 1,
            forall|i: int| 0 <= i < old(self).slots@.len() && i != slot ==> final(self).slots@[i] == old(self).slots@[i],
    {
        let taken = self.slots[slot].node.take();
        let generation = self.slots[slot].generation + 1;
        self.slots[slot].generation = generation;
        if generation < u64::MAX {
            self.free.push(slot);
        }
        proof {
            let before = old(self).free@;
            assert forall|s: usize| #[trigger] self.reusable(s) implies self.free@.contains(s) by {
                if s != slot {
                    assert(old(self).reusable(s));
                    let j = choose|j: int| 0 <= j < before.len() && before[j] == s;
                    assert(self.free@[j] == s);
                } else {
                    assert(self.free@[before.len() as int] == s);
                }
            }
            assert forall|s: usize| #[trigger] self.is_node(s) implies self.generation_in(s) < u64::MAX by {
                assert(old(self).is_node(s));
            }
        }
        taken.unwrap()
    }

    /// Repoints the forward link of the node in `slot`.
    fn relink_next(&mut self, slot: usize, next: Link)
        requires
            old(self).is_node(slot),
        ensures
            final(self).same_but_links(old(self)),
            forall|s: usize| s < old(self).slot_count() ==> final(self).prev_link(s) == old(self).prev_link(s),
            forall|s: usize| s < old(self).slot_count() && s != slot ==> final(self).next_link(s) == old(self).next_link(s),
            final(self).next_link(slot) == next,
    {
        match self.slots[slot].node.as_mut() {
            Some(node) => {
                node.next = next;
            },
            None => {},
        }
    }

    /// Repoints the backward link of the node in `slot`.
    fn relink_prev(&mut self, slot: usize, prev: Link)
        requires
            old(self).is_node(slot),
        ensures
            final(self).same_but_links(old(self)),
            forall|s: usize| s < old(self).slot_count() ==> final(self).next_link(s) == old(self).next_link(s),
            forall|s: usize| s < old(self).slot_count() && s != slot ==> final(self).prev_link(s) == old(self).prev_link(s),
            final(self).prev_link(slot) == prev,
    {
        match self.slots[slot].node.as_mut() {
            Some(node) => {
                node.prev = prev;
            },
            None => {},
        }
    }

    /// Sets the forward link of the last node, which has none, to `slot`.
    fn link_after(&mut self, last: usize, slot: usize)
        requires
            old(self).is_node(last),
            old(self).next_link(last) is None,
        ensures
            final(self).same_but_links(old(self)),
            forall|s: usize| s < old(self).slot_count() ==> final(self).prev_link(s) == old(self).prev_link(s),
            forall|s: usize| s < old(self).slot_count() && s != last ==> final(self).next_link(s) == old(self).next_link(s),
            final(self).next_link(last) == Some(slot),
    {
        match self.slots[last].node.as_mut() {
            Some(node) => {
                node.set_next(slot);
            },
            None => {},
        }
    }
}

// What each operation makes of the list, and why the invariant survives it.
impl<T> LinkedList<T> {
    /// Everything but the links of the nodes is as in `other`.
    spec fn same_but_links(&self, other: &Self) -> bool {
        &&& self.token == other.token
        &&& self.head == other.head
        &&& self.tail == other.tail
        &&& self.chain@ == other.chain@
        &&& self.same_arena(other)
        &&& forall|s: usize| self.is_node(s) == other.is_node(s)
        &&& forall|s: usize| s < self.slot_count() ==> self.generation_in(s) == other.generation_in(s)
        &&& forall|s: usize| s < self.slot_count() ==> self.value_in(s) == other.value_in(s)
    }

    /// The arena has the slots and the free list of `other`, and every slot
    /// is empty or full, and in its generation, as it is there.
    spec fn same_arena(&self, other: &Self) -> bool {
        &&& self.free@ == other.free@
        &&& self.slots@.len() == other.slots@.len()
        &&& forall|i: int|
            0 <= i < self.slots@.len() ==> (#[trigger] self.slots@[i]).generation == other.slots@[i].generation && (
            self.slots@[i].node is Some) == (other.slots@[i].node is Some)
    }

    /// An arena that keeps its books still does after its nodes were
    /// relinked.
    proof fn lemma_arena_kept(&self, before: &Self)
        requires
            before.arena_ok(),
            self.same_arena(before),
        ensures
            self.arena_ok(),
    {
        assert forall|s: usize| #[trigger] self.reusable(s) implies self.free@.contains(s) by {
            assert(before.reusable(s));
        }
        assert forall|s: usize| #[trigger] self.is_node(s) implies self.generation_in(s) < u64::MAX by {
            assert(before.is_node(s));
        }
    }

    /// What `place` leaves of the list `before`: one more node, in `slot`,
    /// and every other slot as it was.
    spec fn placed(&self, before: &Self, slot: usize, node: Node<T>) -> bool {
        &&& self.token() == before.token()
        &&& self.head_link() == before.head_link()
        &&& self.tail_link() == before.tail_link()
        &&& self.chain() == before.chain()
        &&& self.slot_count() >= before.slot_count()
        &&& !before.is_node(slot)
        &&& self.is_node(slot)
        &&& self.value_in(slot) == node.value
        &&& self.next_link(slot) == node.next
        &&& self.prev_link(slot) == node.prev
        &&& forall|s: usize| s != slot ==> self.is_node(s) == before.is_node(s)
        &&& forall|s: usize| s != slot && s < before.slot_count() ==> self.value_in(s) == before.value_in(s)
        &&& forall|s: usize| s != slot && s < before.slot_count() ==> self.next_link(s) == before.next_link(s)
        &&& forall|s: usize| s != slot && s < before.slot_count() ==> self.prev_link(s) == before.prev_link(s)
        &&& forall|s: usize| s < before.slot_count() ==> self.generation_in(s) == before.generation_in(s)
        &&& forall|s: usize| before.slot_count() <= s < self.slot_count() ==> self.generation_in(s) == 0
    }

    /// The list has one node more than `before`, in `slot` and with `value`;
    /// every other slot holds what it held, in the same generation.
    spec fn grown(&self, before: &Self, slot: usize, value: T) -> bool {
        &&& self.token() == before.token()
        &&& self.slot_count() >= before.slot_count()
        &&& !before.is_node(slot)
        &&& self.is_node(slot)
        &&& self.value_in(slot) == value
        &&& forall|s: usize| s != slot ==> #[trigger] self.is_node(s) == before.is_node(s)
        &&& forall|s: usize| s != slot && s < before.slot_count() ==> #[trigger] self.value_in(s) == before.value_in(s)
        &&& forall|s: usize| s < before.slot_count() ==> #[trigger] self.generation_in(s) == before.generation_in(s)
        &&& forall|s: usize| before.slot_count() <= s < self.slot_count() ==> #[trigger] self.generation_in(s) == 0
    }

    /// The handle of a node that has just been placed is new, and expires no
    /// other.
    proof fn lemma_grown(&self, before: &Self, slot: usize, value: T, entry: Entry<T>)
        requires
            before.chain_ok(),
            self.grown(before, slot, value),
            entry == Entry::<T>::from_parts(self.token(), slot, self.generation_in(slot)),
        ensures
            entry.list_token() == before.token(),
            entry.slot_index() == slot,
            !before.contains(entry),
            !before.expired(entry),
            forall|h: Entry<T>| self.expired(h) == before.expired(h),
    {
        entry.lemma_parts();
    }

    /// What `push` makes of the list `before`, which is not empty, by
    /// linking a new node in `slot` after its tail.
    spec fn appended(&self, before: &Self, slot: usize, value: T) -> bool {
        let c = before.chain();
        &&& c.len() > 0
        &&& self.grown(before, slot, value)
        &&& self.chain() == c.push(slot)
        &&& self.head_link() == before.head_link()
        &&& self.tail_link() == Some(slot)
        &&& self.next_link(slot) is None
        &&& self.prev_link(slot) == before.tail_link()
        &&& forall|s: usize| s != slot && s < before.slot_count() ==> #[trigger] self.prev_link(s) == before.prev_link(s)
        &&& forall|s: usize|
            s != slot && s < before.slot_count() ==> #[trigger] self.next_link(s) == (if s == c[c.len() - 1] {
                Some(slot)
            } else {
                before.next_link(s)
            })
    }

    /// Appending a node keeps the links in agreement with the chain and
    /// adds one value and one handle at the tail.
    proof fn lemma_appended(&self, before: &Self, slot: usize, value: T)
        requires
            before.chain_ok(),
            self.appended(before, slot, value),
        ensures
            self.chain_ok(),
            self@ == before@.push(value),
            self.handles() == before.handles().push(
                Entry::<T>::from_parts(self.token(), slot, self.generation_in(slot)),
            ),
    {
        let c = before.chain();
        let d = self.chain();
        let n = c.len() as int;
        assert forall|s: usize| #[trigger] self.is_node(s) implies d.contains(s) by {
            if s != slot {
                let i = choose|i: int| 0 <= i < n && c[i] == s;
                assert(d[i] == s);
            } else {
                assert(d[n] == s);
            }
        }
    }

    /// What `push_front` makes of the list `before` by linking a new node in
    /// `slot` in front of its head.
    spec fn prepended(&self, before: &Self, slot: usize, value: T) -> bool {
        let c = before.chain();
        &&& self.grown(before, slot, value)
        &&& self.chain() == seq![slot] + c
        &&& self.head_link() == Some(slot)
        &&& self.tail_link() == (if c.len() == 0 { Some(slot) } else { before.tail_link() })
        &&& self.prev_link(slot) is None
        &&& self.next_link(slot) == before.head_link()
        &&& forall|s: usize| s != slot && s < before.slot_count() ==> #[trigger] self.next_link(s) == before.next_link(s)
        &&& forall|s: usize|
            s != slot && s < before.slot_count() ==> #[trigger] self.prev_link(s) == (if before.head_link() == Some(s) {
                Some(slot)
            } else {
                before.prev_link(s)
            })
    }

    /// Prepending a node keeps the links in agreement with the chain and
    /// adds one value and one handle at the head.
    proof fn lemma_prepended(&self, before: &Self, slot: usize, value: T)
        requires
            before.chain_ok(),
            self.prepended(before, slot, value),
        ensures
            self.chain_ok(),
            self@ == seq![value] + before@,
            self.handles() == seq![Entry::<T>::from_parts(self.token(), slot, self.generation_in(slot))]
                + before.handles(),
    {
        let c = before.chain();
        let d = self.chain();
        let n = c.len() as int;
        assert forall|i: int| 0 <= i < n implies d[i + 1] == c[i] && c[i] != slot && c[i] < before.slot_count() by {
            before.lemma_nodes_in_range(c[i]);
        }
    }

    /// A slot that holds a node is a slot of the arena.
    proof fn lemma_nodes_in_range(&self, slot: usize)
        requires
            self.is_node(slot),
        ensures
            slot < self.slot_count(),
    {
    }

    /// What `remove` makes of the list `before` by detaching the node at
    /// place `i` of its chain: the neighbours take over the links of the
    /// node, its slot moves on by one generation, and nothing else changes.
    spec fn detached(&self, before: &Self, i: int) -> bool {
        let c = before.chain();
        let slot = c[i];
        &&& self.token() == before.token()
        &&& self.chain() == c.remove(i)
        &&& self.slot_count() == before.slot_count()
        &&& self.head_link() == (if i == 0 { before.next_link(slot) } else { before.head_link() })
        &&& self.tail_link() == (if i == c.len() - 1 { before.prev_link(slot) } else { before.tail_link() })
        &&& self.generation_in(slot) == before.generation_in(slot) + 1
        &&& forall|s: usize| s < self.slot_count() ==> #[trigger] self.is_node(s) == (before.is_node(s) && s != slot)
        &&& forall|s: usize| s < self.slot_count() && s != slot ==> #[trigger] self.generation_in(s) == before.generation_in(s)
        &&& forall|s: usize| s < self.slot_count() && s != slot ==> #[trigger] self.value_in(s) == before.value_in(s)
        &&& forall|s: usize| s < self.slot_count() && s != slot ==> #[trigger] self.next_link(s) == (if i > 0 && s == c[i - 1] {
            before.next_link(slot)
        } else {
            before.next_link(s)
        })
        &&& forall|s: usize| s < self.slot_count() && s != slot ==> #[trigger] self.prev_link(s) == (if i + 1 < c.len() && s == c[i + 1] {
            before.prev_link(slot)
        } else {
            before.prev_link(s)
        })
    }

    /// Detaching a node keeps the links in agreement with the chain, takes
    /// one value and one handle out of the list, and expires that handle.
    proof fn lemma_detached(&self, before: &Self, i: int, entry: Entry<T>)
        requires
            before.chain_ok(),
            0 <= i < before.chain().len(),
            before.handles()[i] == entry,
            self.detached(before, i),
        ensures
            self.chain_ok(),
            self@ == before@.remove(i),
            self.handles() == before.handles().remove(i),
            forall|h: Entry<T>| self.expired(h) == (before.expired(h) || h == entry),
    {
        let c = before.chain();
        let d = self.chain();
        assert forall|s: usize| #[trigger] self.is_node(s) implies d.contains(s) by {
            let j = choose|j: int| 0 <= j < c.len() && c[j] == s;
            if j < i {
                assert(d[j] == s);
            } else {
                assert(d[j - 1] == s);
            }
        }
        entry.lemma_parts();
        assert forall|h: Entry<T>| self.expired(h) == (before.expired(h) || h == entry) by {
            h.lemma_parts();
        }
    }

    /// What writing `value` into the node of `slot` makes of the list
    /// `before`.
    spec fn revalued(&self, before: &Self, slot: usize, value: T) -> bool {
        &&& self.token == before.token
        &&& self.head == before.head
        &&& self.tail == before.tail
        &&& self.chain@ == before.chain@
        &&& self.free@ == before.free@
        &&& slot < before.slots@.len()
        &&& before.slots@[slot as int].node is Some
        &&& self.slots@ == before.slots@.update(
            slot as int,
            Slot {
                generation: before.slots@[slot as int].generation,
                node: Some(
                    Node {
                        value,
                        prev: before.slots@[slot as int].node->0.prev,
                        next: before.slots@[slot as int].node->0.next,
                    },
                ),
            },
        )
    }

    /// Writing a value into a node changes that value and nothing else.
    proof fn lemma_revalued(&self, before: &Self, i: int, value: T)
        requires
            before.wf(),
            0 <= i < before.chain().len(),
            self.revalued(before, before.chain()[i], value),
        ensures
            self.wf(),
            self.handles() == before.handles(),
            self@ == before@.update(i, value),
            forall|h: Entry<T>| self.expired(h) == before.expired(h),
    {
        let c = before.chain();
        assert forall|s: usize| self.is_node(s) == before.is_node(s) by {
        }
        assert forall|s: usize| self.reusable(s) == before.reusable(s) by {
        }
        assert forall|k: int| 0 <= k < c.len() implies #[trigger] self.next_link(c[k]) == link_at(c, k + 1) by {
            assert(before.next_link(c[k]) == link_at(c, k + 1));
        }
        assert forall|k: int| 0 <= k < c.len() implies #[trigger] self.prev_link(c[k]) == link_at(c, k - 1) by {
            assert(before.prev_link(c[k]) == link_at(c, k - 1));
        }
    }
}

} // verus!
