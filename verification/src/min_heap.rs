//! A bounded min-heap of numbers, kept by the `heapless` crate, and what the
//! library takes for granted about it.

use heapless::binary_heap::{BinaryHeap, Min};
use vstd::multiset::Multiset;
use vstd::prelude::*;

verus! {

#[verifier::external_type_specification]
#[verifier::external_body]
pub struct ExMin(Min);

#[verifier::external_type_specification]
#[verifier::external_body]
#[verifier::reject_recursive_types(T)]
#[verifier::reject_recursive_types(K)]
pub struct ExBinaryHeap<T, K, const N: usize>(BinaryHeap<T, K, N>);

/// The numbers that a heap holds, each as often as the heap holds it.
pub uninterp spec fn heap_items(heap: BinaryHeap<u32, Min, 4>) -> Multiset<u32>;

/// `x` is one of the numbers and no other is smaller.
pub open spec fn is_least(items: Multiset<u32>, x: u32) -> bool {
    items.contains(x) && forall|y: u32| items.contains(y) ==> x <= y
}

/// Calls `BinaryHeap::new`, which makes a heap that holds nothing.
#[verifier::external_body]
pub(crate) fn heap_new() -> (heap: BinaryHeap<u32, Min, 4>)
    ensures
        heap_items(heap) == Multiset::<u32>::empty(),
{
    BinaryHeap::new()
}

/// Calls `BinaryHeap::len`, which counts the numbers that the heap holds.
#[verifier::external_body]
pub(crate) fn heap_len(heap: &BinaryHeap<u32, Min, 4>) -> (n: usize)
    ensures
        n == heap_items(*heap).len(),
{
    heap.len()
}

/// Calls `BinaryHeap::peek`, which for a min-heap gives the smallest number
/// that the heap holds, and nothing for an empty heap.
#[verifier::external_body]
pub(crate) fn heap_peek(heap: &BinaryHeap<u32, Min, 4>) -> (top: Option<u32>)
    ensures
        heap_items(*heap).len() == 0 ==> top is None,
        heap_items(*heap).len() > 0 ==> top is Some && is_least(heap_items(*heap), top->Some_0),
{
    heap.peek().copied()
}

/// Calls `BinaryHeap::push`, which adds the number to a heap that holds
/// fewer than four and leaves a full heap as it is, and says which it did.
#[verifier::external_body]
pub(crate) fn heap_push(heap: &mut BinaryHeap<u32, Min, 4>, item: u32) -> (stored: bool)
    ensures
        stored == (heap_items(*old(heap)).len() < 4),
        stored ==> heap_items(*final(heap)) == heap_items(*old(heap)).insert(item),
        !stored ==> heap_items(*final(heap)) == heap_items(*old(heap)),
{
    heap.push(item).is_ok()
}

/// Calls `BinaryHeap::pop`, which for a min-heap takes the smallest number
/// out of the heap, once, and gives nothing for an empty heap.
#[verifier::external_body]
pub(crate) fn heap_pop(heap: &mut BinaryHeap<u32, Min, 4>) -> (top: Option<u32>)
    ensures
        heap_items(*old(heap)).len() == 0 ==> top is None && heap_items(*final(heap))
            == heap_items(*old(heap)),
        heap_items(*old(heap)).len() > 0 ==> top is Some && is_least(
            heap_items(*old(heap)),
            top->Some_0,
        ) && heap_items(*final(heap)) == heap_items(*old(heap)).remove(top->Some_0),
{
    heap.pop()
}

} // verus!
