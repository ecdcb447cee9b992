//! The priority queue of the `priority_queue` crate, keyed by flow key with
//! a reversed count as priority, and the calls that the candidate table makes
//! on it.
//!
//! Verus does not read this crate: the contracts below are trusted. Each says
//! what the crate's documentation and source show of the call, over
//! `pq_contents`, the map from each item's characters to its count.
use vstd::prelude::*;
use std::cmp::Reverse;
use priority_queue::PriorityQueue;

verus! {

/// `std::cmp::Reverse`, the wrapper that reverses an order.
#[verifier::external_type_specification]
#[verifier::external_body]
#[verifier::reject_recursive_types(T)]
pub struct ExReverse<T>(Reverse<T>);

/// `priority_queue::PriorityQueue`, a heap of items with priorities.
#[verifier::external_type_specification]
#[verifier::external_body]
#[verifier::reject_recursive_types(I)]
#[verifier::reject_recursive_types(P)]
#[verifier::reject_recursive_types(H)]
pub struct ExPriorityQueue<I, P, H>(PriorityQueue<I, P, H>);

/// What a queue holds: for each item (by its characters), its count (the
/// count inside the `Reverse` priority).
pub uninterp spec fn pq_contents(q: PriorityQueue<String, Reverse<u32>>) -> Map<Seq<char>, u32>;

/// The map with no keys.
pub open spec fn no_items(m: Map<Seq<char>, u32>) -> bool {
    m == Map::<Seq<char>, u32>::empty()
}

/// A finite map of exactly `n` keys.
pub open spec fn holds_items(m: Map<Seq<char>, u32>, n: nat) -> bool {
    m.dom().finite() && m.dom().len() == n
}

/// `PriorityQueue::new`: an empty queue.
#[verifier::external_body]
pub(crate) fn pq_new() -> (q: PriorityQueue<String, Reverse<u32>>)
    ensures
        no_items(pq_contents(q)),
{
    PriorityQueue::new()
}

/// `PriorityQueue::with_capacity`: an empty queue with room for `capacity` items.
#[verifier::external_body]
pub(crate) fn pq_with_capacity(capacity: usize) -> (q: PriorityQueue<String, Reverse<u32>>)
    ensures
        no_items(pq_contents(q)),
{
    PriorityQueue::with_capacity(capacity)
}

/// `PriorityQueue::push`: sets the priority of `item` to `Reverse(m)`, adding
/// the item if it was not there; returns the count it held before, if any.
#[verifier::external_body]
pub(crate) fn pq_push(q: &mut PriorityQueue<String, Reverse<u32>>, item: String, m: u32) -> (r:
    Option<u32>)
    ensures
        pq_contents(*final(q)) == pq_contents(*old(q)).insert(item@, m),
        r == (if pq_contents(*old(q)).contains_key(item@) {
            Some(pq_contents(*old(q))[item@])
        } else {
            None::<u32>
        }),
{
    q.push(item, Reverse(m)).map(|p| p.0)
}

/// `PriorityQueue::peek`: the count of an item of greatest priority, that is
/// of least count; `None` when the queue is empty. Which item, among those of
/// equal count, the heap holds first is left open; the count is not.
#[verifier::external_body]
pub(crate) fn pq_peek(q: &PriorityQueue<String, Reverse<u32>>) -> (r: Option<u32>)
    ensures
        r is None <==> no_items(pq_contents(*q)),
        r matches Some(m) ==> (exists|k: Seq<char>| #[trigger] pq_contents(*q).contains_key(k) && pq_contents(*q)[k] == m)
            && (forall|k: Seq<char>| #[trigger] pq_contents(*q).contains_key(k) ==> m <= pq_contents(*q)[k]),
{
    q.peek().map(|(_, p)| p.0)
}

/// `PriorityQueue::pop`: removes an item of least count and returns it with
/// its count; `None`, with the queue unchanged, when it is empty.
#[verifier::external_body]
pub(crate) fn pq_pop(q: &mut PriorityQueue<String, Reverse<u32>>) -> (r: Option<(String, u32)>)
    ensures
        r is None <==> no_items(pq_contents(*old(q))),
        r is None ==> pq_contents(*final(q)) == pq_contents(*old(q)),
        r matches Some(e) ==> {
            &&& pq_contents(*old(q)).contains_key(e.0@)
            &&& pq_contents(*old(q))[e.0@] == e.1
            &&& forall|k: Seq<char>| #[trigger] pq_contents(*old(q)).contains_key(k) ==> e.1 <= pq_contents(*old(q))[k]
            &&& pq_contents(*final(q)) == pq_contents(*old(q)).remove(e.0@)
        },
{
    q.pop().map(|(k, p)| (k, p.0))
}

/// `PriorityQueue::remove`: removes `item`; returns its count if it was there.
#[verifier::external_body]
pub(crate) fn pq_remove(q: &mut PriorityQueue<String, Reverse<u32>>, item: &str) -> (r: Option<u32>)
    ensures
        pq_contents(*final(q)) == pq_contents(*old(q)).remove(item@),
        r == (if pq_contents(*old(q)).contains_key(item@) {
            Some(pq_contents(*old(q))[item@])
        } else {
            None::<u32>
        }),
{
    q.remove(item).map(|(_, p)| p.0)
}

/// `PriorityQueue::get`: the count of `item`, if it is there.
#[verifier::external_body]
pub(crate) fn pq_get<'a>(q: &'a PriorityQueue<String, Reverse<u32>>, item: &str) -> (r: Option<&'a u32>)
    ensures
        r == (if pq_contents(*q).contains_key(item@) {
            Some(&pq_contents(*q)[item@])
        } else {
            None::<&u32>
        }),
{
    q.get(item).map(|(_, p)| &p.0)
}

/// `PriorityQueue::change_priority`: sets the count of `item` to `m` if it is
/// there and leaves the queue unchanged if not; returns the count it held.
#[verifier::external_body]
pub(crate) fn pq_change_priority(q: &mut PriorityQueue<String, Reverse<u32>>, item: &str, m: u32) -> (r: Option<u32>)
    ensures
        pq_contents(*final(q)) == (if pq_contents(*old(q)).contains_key(item@) {
            pq_contents(*old(q)).insert(item@, m)
        } else {
            pq_contents(*old(q))
        }),
        r == (if pq_contents(*old(q)).contains_key(item@) {
            Some(pq_contents(*old(q))[item@])
        } else {
            None::<u32>
        }),
{
    q.change_priority(item, Reverse(m))
        .map(|p| p.0)
}

/// `PriorityQueue::len`: the number of items.
#[verifier::external_body]
pub(crate) fn pq_len(q: &PriorityQueue<String, Reverse<u32>>) -> (n: usize)
    ensures
        holds_items(pq_contents(*q), n as nat),
{
    q.len()
}

/// `PriorityQueue::iter`: every item with its count, each item once, in an
/// order that the queue leaves open.
#[verifier::external_body]
pub(crate) fn pq_iter<'a>(q: &'a PriorityQueue<String, Reverse<u32>>) -> (r: Vec<(&'a String, u32)>)
    ensures
        holds_items(pq_contents(*q), r@.len()),
        forall|i: int| 0 <= i < r@.len() ==> #[trigger] pq_contents(*q).contains_key(r@[i].0@)
            && pq_contents(*q)[r@[i].0@] == r@[i].1,
        forall|i: int, j: int| 0 <= i < r@.len() && 0 <= j < r@.len() && i != j ==> #[trigger] r@[i].0@ != #[trigger] r@[j].0@,
        forall|k: Seq<char>| #[trigger] pq_contents(*q).contains_key(k) ==> exists|i: int| 0 <= i < r@.len() && r@[i].0@ == k,
{
    q.iter().map(|(k, p)| (k, p.0)).collect()
}

} // verus!
