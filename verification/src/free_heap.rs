//! Trusted wrappers around the min-ordered free-list queue.
//!
//! The free list of [`LinearStorage`](crate::linear_storage::LinearStorage)
//! is a min-priority queue of `(slot index, cell)` pairs, served by the
//! `min_max_heap` crate. Verus sees the heap only through the contracts
//! below, stated over the multiset of entries it holds.

use vstd::prelude::*;
use vstd::multiset::Multiset;

verus! {

#[verifier::external_type_specification]
#[verifier::external_body]
#[verifier::reject_recursive_types(T)]
pub struct ExMinMaxHeap<T>(min_max_heap::MinMaxHeap<T>);

/// The multiset of entries a free-list heap currently holds.
pub uninterp spec fn heap_view(h: min_max_heap::MinMaxHeap<(usize, usize)>) -> Multiset<
    (usize, usize),
>;

/// Relies on `MinMaxHeap::new`: a fresh heap holds nothing.
#[verifier::external_body]
pub fn heap_new() -> (r: min_max_heap::MinMaxHeap<(usize, usize)>)
    ensures
        heap_view(r) == Multiset::<(usize, usize)>::empty(),
{
    min_max_heap::MinMaxHeap::new()
}

/// Relies on `MinMaxHeap::len`: the number of entries held.
#[verifier::external_body]
pub fn heap_len(h: &min_max_heap::MinMaxHeap<(usize, usize)>) -> (r: usize)
    ensures
        r == heap_view(*h).len(),
{
    h.len()
}

/// Relies on `MinMaxHeap::push`: the entry joins the heap; nothing else
/// moves.
#[verifier::external_body]
pub fn heap_push(h: &mut min_max_heap::MinMaxHeap<(usize, usize)>, e: (usize, usize))
    ensures
        heap_view(*final(h)) == heap_view(*old(h)).insert(e),
{
    h.push(e)
}

/// Relies on `MinMaxHeap::pop_min`: the least entry leaves the heap, and
/// `None` comes back only from an empty heap. Pairs compare
/// lexicographically, as std documents for tuples.
#[verifier::external_body]
pub fn heap_pop_min(h: &mut min_max_heap::MinMaxHeap<(usize, usize)>) -> (r: Option<
    (usize, usize),
>)
    ensures
        match r {
            Some(m) => heap_view(*old(h)).contains(m) && heap_view(*final(h)) == heap_view(
                *old(h),
            ).remove(m) && forall|e: (usize, usize)|
                #[trigger] heap_view(*final(h)).contains(e) ==> (m.0 < e.0 || (m.0 == e.0 && m.1
                    <= e.1)),
            None => heap_view(*old(h)).len() == 0 && heap_view(*final(h)) == heap_view(*old(h)),
        },
{
    h.pop_min()
}

/// Relies on `MinMaxHeap::clear`: every entry is dropped.
#[verifier::external_body]
pub fn heap_clear(h: &mut min_max_heap::MinMaxHeap<(usize, usize)>)
    ensures
        heap_view(*final(h)) == Multiset::<(usize, usize)>::empty(),
{
    h.clear()
}

} // verus!
