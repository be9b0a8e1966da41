//! Laws of the list: what follows from the contracts of its operations,
//! for every list and every handle.

use crate::handle::{Entry, HandleError};
use crate::iter::Iter;
use crate::list::LinkedList;
use vstd::prelude::*;

verus! {

/// `after` is what `push(el)` makes of `before`, and `entry` what it returns.
pub open spec fn push_step<T>(before: LinkedList<T>, after: LinkedList<T>, el: T, entry: Entry<T>) -> bool {
    &&& before.wf()
    &&& after.wf()
    &&& after.token() == before.token()
    &&& after@ == before@.push(el)
    &&& after.handles() == before.handles().push(entry)
    &&& !before.contains(entry)
    &&& !before.expired(entry)
    &&& forall|h: Entry<T>| after.expired(h) == before.expired(h)
}

/// `after` is what a successful `remove(entry)` makes of `before`, and
/// `value` what it returns.
pub open spec fn remove_step<T>(before: LinkedList<T>, after: LinkedList<T>, entry: Entry<T>, value: T) -> bool {
    let i = before.index_of(entry);
    &&& before.wf()
    &&& after.wf()
    &&& after.token() == before.token()
    &&& before.rejection(entry) is None
    &&& 0 <= i < before@.len()
    &&& value == before@[i]
    &&& after@ == before@.remove(i)
    &&& after.handles() == before.handles().remove(i)
    &&& forall|h: Entry<T>| after.expired(h) == (before.expired(h) || h == entry)
}

/// `after` is what a successful `get_mut(entry)` makes of `before` once the
/// caller has left `value` behind the reference.
pub open spec fn write_step<T>(before: LinkedList<T>, after: LinkedList<T>, entry: Entry<T>, value: T) -> bool {
    let i = before.index_of(entry);
    &&& before.wf()
    &&& after.wf()
    &&& after.token() == before.token()
    &&& before.rejection(entry) is None
    &&& 0 <= i < before@.len()
    &&& after@ == before@.update(i, value)
    &&& after.handles() == before.handles()
    &&& forall|h: Entry<T>| after.expired(h) == before.expired(h)
}

/// In a well-formed list every element has one handle of its own, issued by
/// this list; a handle that names an element has a place in the list and is
/// not expired.
pub proof fn lemma_handles<T>(list: LinkedList<T>)
    requires
        list.wf(),
    ensures
        list.handles().len() == list@.len(),
        list.handles().no_duplicates(),
        forall|i: int| 0 <= i < list.handles().len() ==> (#[trigger] list.handles()[i]).list_token() == list.token(),
        forall|i: int| 0 <= i < list.handles().len() ==> list.index_of(#[trigger] list.handles()[i]) == i,
        forall|h: Entry<T>| #[trigger]
            list.contains(h) ==> 0 <= list.index_of(h) < list@.len() && list.handles()[list.index_of(h)] == h
                && !list.expired(h),
{
    let hs = list.handles();
    let c = list.chain();
    assert forall|i: int| 0 <= i < hs.len() implies (#[trigger] hs[i]).list_token() == list.token()
        && hs[i].slot_index() == c[i] && hs[i].generation() == list.generation_in(c[i]) by {
        hs[i].lemma_parts();
    }
}

/// A list is empty exactly when its head link is empty, and exactly when its
/// tail link is.
pub proof fn lemma_empty_ends<T>(list: LinkedList<T>)
    requires
        list.wf(),
    ensures
        list@.len() == 0 <==> list.head_link() is None,
        list@.len() == 0 <==> list.tail_link() is None,
{
}

/// Pushes line up: after any number of pushes onto a list, its values are
/// those it had, followed by the pushed values in the order of the pushes,
/// and the returned handles name them in that order.
pub proof fn lemma_pushes_in_order<T>(trace: Seq<LinkedList<T>>, values: Seq<T>, entries: Seq<Entry<T>>)
    requires
        trace.len() == values.len() + 1,
        entries.len() == values.len(),
        forall|k: int| 0 <= k < values.len() ==> push_step(#[trigger] trace[k], trace[k + 1], values[k], entries[k]),
    ensures
        trace.last()@ == trace[0]@ + values,
        trace.last().handles() == trace[0].handles() + entries,
        trace[0]@.len() == 0 ==> trace.last()@ == values,
    decreases values.len(),
{
    if values.len() > 0 {
        lemma_pushes_in_order(trace.drop_last(), values.drop_last(), entries.drop_last());
    }
}

/// The handle that a push returns names the pushed element: `get_mut` on it
/// right away succeeds and finds the pushed value, at the tail.
pub proof fn lemma_get_after_push<T>(before: LinkedList<T>, after: LinkedList<T>, el: T, entry: Entry<T>)
    requires
        push_step(before, after, el, entry),
    ensures
        after.rejection(entry) is None,
        after.index_of(entry) == after@.len() - 1,
        after@[after.index_of(entry)] == el,
{
    lemma_handles(before);
    lemma_handles(after);
    let n = before.handles().len() as int;
    assert(after.handles()[n] == entry);
}

/// A step that leaves the element of `entry` alone: a push, or the removal
/// or rewriting of another element.
pub open spec fn leaves_alone<T>(before: LinkedList<T>, after: LinkedList<T>, entry: Entry<T>) -> bool {
    ||| exists|el: T, e: Entry<T>| #[trigger] push_step(before, after, el, e)
    ||| exists|e: Entry<T>, v: T| e != entry && #[trigger] remove_step(before, after, e, v)
    ||| exists|e: Entry<T>, v: T| e != entry && #[trigger] write_step(before, after, e, v)
}

/// A step that leaves an element alone keeps its handle and its value.
pub proof fn lemma_left_alone<T>(before: LinkedList<T>, after: LinkedList<T>, entry: Entry<T>)
    requires
        before.contains(entry),
        leaves_alone(before, after, entry),
    ensures
        after.token() == before.token(),
        after.contains(entry),
        after.value_of(entry) == before.value_of(entry),
{
    lemma_handles(before);
    lemma_handles(after);
    let i = before.index_of(entry);
    if exists|el: T, e: Entry<T>| #[trigger] push_step(before, after, el, e) {
        assert(after.handles()[i] == entry);
    } else if exists|e: Entry<T>, v: T| e != entry && #[trigger] remove_step(before, after, e, v) {
        let (e, v) = choose|e: Entry<T>, v: T| e != entry && #[trigger] remove_step(before, after, e, v);
        if i >= before.index_of(e) {
            assert(after.handles()[i - 1] == entry);
        }
    }
}

/// Removal gives back what was pushed: when an element is pushed and then
/// left alone by every later step, its handle still names it and its value
/// is the pushed one, so that `remove` on the handle returns that value.
pub proof fn lemma_remove_returns_pushed<T>(trace: Seq<LinkedList<T>>, el: T, entry: Entry<T>)
    requires
        trace.len() >= 2,
        push_step(trace[0], trace[1], el, entry),
        forall|k: int| 1 <= k < trace.len() - 1 ==> leaves_alone(#[trigger] trace[k], trace[k + 1], entry),
    ensures
        trace.last().rejection(entry) is None,
        trace.last().value_of(entry) == el,
        forall|after: LinkedList<T>, value: T| #[trigger] remove_step(trace.last(), after, entry, value) ==> value == el,
    decreases trace.len(),
{
    let n = trace.len() as int;
    if n == 2 {
        lemma_get_after_push(trace[0], trace[1], el, entry);
    } else {
        lemma_remove_returns_pushed(trace.drop_last(), el, entry);
        lemma_left_alone(trace[n - 2], trace[n - 1], entry);
    }
}

/// A removed element is gone: its handle names nothing any more and is
/// expired, the list is shorter by exactly one, and the other elements keep
/// their order. Presenting the handle again is an `InvalidHandle` failure.
pub proof fn lemma_removed_is_gone<T>(before: LinkedList<T>, after: LinkedList<T>, entry: Entry<T>, value: T)
    requires
        remove_step(before, after, entry, value),
    ensures
        after@.len() == before@.len() - 1,
        after@ == before@.take(before.index_of(entry)) + before@.skip(before.index_of(entry) + 1),
        !after.contains(entry),
        after.expired(entry),
        after.rejection(entry) == Some(HandleError::InvalidHandle),
{
    lemma_handles(before);
    lemma_handles(after);
}

/// Once expired, always expired: no push, removal or rewriting brings an
/// expired handle back, and an expired handle never names an element.
pub proof fn lemma_expired_stays<T>(before: LinkedList<T>, after: LinkedList<T>, entry: Entry<T>)
    requires
        before.expired(entry),
        ({
            ||| exists|el: T, e: Entry<T>| #[trigger] push_step(before, after, el, e)
            ||| exists|e: Entry<T>, v: T| #[trigger] remove_step(before, after, e, v)
            ||| exists|e: Entry<T>, v: T| #[trigger] write_step(before, after, e, v)
        }),
    ensures
        after.expired(entry),
        !after.contains(entry),
        after.rejection(entry) == Some(HandleError::InvalidHandle),
{
    lemma_handles(after);
}

/// Removing every element, in whatever order, empties the list: after as
/// many removals as the list had elements, it has no value left and its
/// head and tail links are both empty.
pub proof fn lemma_remove_all<T>(trace: Seq<LinkedList<T>>, entries: Seq<Entry<T>>, values: Seq<T>)
    requires
        trace.len() == entries.len() + 1,
        values.len() == entries.len(),
        trace[0].wf(),
        forall|k: int| 0 <= k < entries.len() ==> remove_step(#[trigger] trace[k], trace[k + 1], entries[k], values[k]),
    ensures
        trace.last().wf(),
        trace.last()@.len() == trace[0]@.len() - entries.len(),
        entries.len() == trace[0]@.len() ==> trace.last()@.len() == 0 && trace.last().head_link() is None
            && trace.last().tail_link() is None,
    decreases entries.len(),
{
    if entries.len() > 0 {
        lemma_remove_all(trace.drop_last(), entries.drop_last(), values.drop_last());
    }
    lemma_empty_ends(trace.last());
}

/// Whatever the order, the next removal is always possible: after an
/// element is removed, every other handle still names its element.
pub proof fn lemma_others_stay<T>(before: LinkedList<T>, after: LinkedList<T>, entry: Entry<T>, value: T, other: Entry<T>)
    requires
        remove_step(before, after, entry, value),
        before.contains(other),
        other != entry,
    ensures
        after.rejection(other) is None,
        after.value_of(other) == before.value_of(other),
{
    lemma_left_alone(before, after, other);
    lemma_handles(before);
}

/// A handle of one list is foreign to every list with another token.
pub proof fn lemma_foreign<T>(a: LinkedList<T>, b: LinkedList<T>, entry: Entry<T>)
    requires
        a.wf(),
        a.contains(entry) || a.expired(entry),
        a.token() != b.token(),
    ensures
        b.rejection(entry) == Some(HandleError::ForeignHandle),
{
    lemma_handles(a);
}

/// Removal relinks the neighbours, in each of its four cases.
///
/// An interior node: the node before it links forward to the node after it,
/// and that one back to the first. The head, with a node after it: that node
/// becomes the head and has no backward link. The tail, with a node before
/// it: that node becomes the tail and has no forward link. The only node:
/// head and tail are both empty. In every case the slot of the removed node
/// holds no node afterwards.
pub proof fn lemma_remove_relinks<T>(before: LinkedList<T>, after: LinkedList<T>, entry: Entry<T>, value: T)
    requires
        remove_step(before, after, entry, value),
    ensures
        ({
            let c = before.chain();
            let i = before.index_of(entry);
            let n = c.len();
            &&& 0 <= i < n
            &&& c[i] == entry.slot_index()
            &&& after.chain() == c.remove(i)
            &&& !after.is_node(c[i])
            &&& 0 < i < n - 1 ==> after.next_link(c[i - 1]) == Some(c[i + 1])
            &&& 0 < i < n - 1 ==> after.prev_link(c[i + 1]) == Some(c[i - 1])
            &&& i == 0 && n > 1 ==> after.head_link() == Some(c[1]) && after.prev_link(c[1]) is None
            &&& i == n - 1 && n > 1 ==> after.tail_link() == Some(c[n - 2]) && after.next_link(c[n - 2]) is None
            &&& n == 1 ==> after.head_link() is None && after.tail_link() is None
        }),
{
    lemma_handles(before);
    lemma_handles(after);
    let c = before.chain();
    let d = after.chain();
    let i = before.index_of(entry);
    let n = c.len() as int;
    before.handles()[i].lemma_parts();
    assert forall|k: int| 0 <= k < d.len() implies d[k] == c.remove(i)[k] by {
        after.handles()[k].lemma_parts();
        before.handles().remove(i)[k].lemma_parts();
    }
    if 0 < i < n - 1 {
        assert(d[i - 1] == c[i - 1] && d[i] == c[i + 1]);
    }
}

/// A walk yields what was pushed: a walk that starts on a list built by
/// pushes alone has exactly the pushed values to yield, in the order of the
/// pushes.
pub proof fn lemma_walk_after_pushes<T>(
    trace: Seq<LinkedList<T>>,
    values: Seq<T>,
    entries: Seq<Entry<T>>,
    walk: Iter<T>,
)
    requires
        trace.len() == values.len() + 1,
        entries.len() == values.len(),
        trace[0]@.len() == 0,
        forall|k: int| 0 <= k < values.len() ==> push_step(#[trigger] trace[k], trace[k + 1], values[k], entries[k]),
        walk.list() == trace.last(),
        walk.position() == 0,
    ensures
        walk@ == values,
{
    lemma_pushes_in_order(trace, values, entries);
}

} // verus!
