//! Trusted interface to the outside priority queue that the shortest-path
//! precomputation drains. The heap holds `(tentative distance, station)`
//! pairs and always yields a pair with the least distance first.
use vstd::multiset::Multiset;
use vstd::prelude::*;

verus! {

#[verifier::external_type_specification]
#[verifier::external_body]
#[verifier::reject_recursive_types(T)]
pub struct ExFibonacciHeap<T: std::cmp::Ord>(rudac::heap::FibonacciHeap<T>);

/// What the heap holds, as a multiset of its items.
pub uninterp spec fn heap_contents(h: rudac::heap::FibonacciHeap<(u64, usize)>) -> Multiset<
    (u64, usize),
>;

/// Whether the heap was initialized as a min-heap.
pub uninterp spec fn heap_is_min(h: rudac::heap::FibonacciHeap<(u64, usize)>) -> bool;

/// Relies on rudac's `FibonacciHeap::init_min`: a fresh heap holds nothing
/// and pops minima first.
#[verifier::external_body]
pub(crate) fn heap_new() -> (h: rudac::heap::FibonacciHeap<(u64, usize)>)
    ensures
        heap_contents(h) == Multiset::<(u64, usize)>::empty(),
        heap_is_min(h),
{
    rudac::heap::FibonacciHeap::init_min()
}

/// Relies on rudac's `FibonacciHeap::push`: the item joins the heap and
/// nothing else changes.
#[verifier::external_body]
pub(crate) fn heap_push(h: &mut rudac::heap::FibonacciHeap<(u64, usize)>, item: (u64, usize))
    ensures
        heap_contents(*final(h)) == heap_contents(*old(h)).insert(item),
        heap_is_min(*final(h)) == heap_is_min(*old(h)),
{
    h.push(item)
}

/// Relies on rudac's `FibonacciHeap::pop`: an empty heap yields nothing; a
/// nonempty one loses and returns one item of highest priority, which on a
/// min-heap is a minimum in the lexicographic order std defines for pairs.
#[verifier::external_body]
pub(crate) fn heap_pop(h: &mut rudac::heap::FibonacciHeap<(u64, usize)>) -> (r: Option<(u64, usize)>)
    ensures
        heap_is_min(*final(h)) == heap_is_min(*old(h)),
        match r {
            None => {
                &&& heap_contents(*old(h)).len() == 0
                &&& heap_contents(*final(h)) == heap_contents(*old(h))
            },
            Some(x) => {
                &&& heap_contents(*old(h)).count(x) > 0
                &&& heap_contents(*final(h)) == heap_contents(*old(h)).remove(x)
                &&& heap_is_min(*old(h)) ==> forall|y: (u64, usize)|
                    #[trigger] heap_contents(*old(h)).count(y) > 0 ==> (x.0 < y.0 || (x.0 == y.0
                        && x.1 <= y.1))
            },
        },
{
    h.pop()
}

/// Relies on rudac's `FibonacciHeap::is_empty`: true exactly when the heap
/// holds nothing.
#[verifier::external_body]
pub(crate) fn heap_is_empty(h: &rudac::heap::FibonacciHeap<(u64, usize)>) -> (r: bool)
    ensures
        r == (heap_contents(*h).len() == 0),
{
    h.is_empty()
}

} // verus!
