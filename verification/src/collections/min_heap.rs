//! A queue of character indices that hands out the least first, held in a
//! binary heap with the comparator for a min-heap.

use binary_heap_plus::{BinaryHeap, MinComparator};
use vstd::multiset::Multiset;
use vstd::prelude::*;

verus! {

/// `binary_heap_plus::MinComparator`, the comparator of a min-heap: a type
/// of which nothing is known here.
#[verifier::external_type_specification]
#[verifier::external_body]
pub struct ExMinComparator(MinComparator);

/// `binary_heap_plus::BinaryHeap`: a type of which nothing is known here
/// but what the functions below say of it.
#[verifier::external_type_specification]
#[verifier::external_body]
#[verifier::reject_recursive_types(T)]
#[verifier::reject_recursive_types(C)]
pub struct ExBinaryHeap<T, C>(BinaryHeap<T, C>);

/// The indices that the heap holds, each as often as it was pushed and not
/// yet popped.
pub uninterp spec fn heap_items(heap: BinaryHeap<usize, MinComparator>) -> Multiset<usize>;

/// `BinaryHeap::new_min`: a min-heap that holds nothing.
#[verifier::external_body]
pub(crate) fn min_heap_new() -> (heap: BinaryHeap<usize, MinComparator>)
    ensures
        heap_items(heap) == Multiset::<usize>::empty(),
{
    BinaryHeap::new_min()
}

/// `BinaryHeap::push`: the heap holds `value` once more.
#[verifier::external_body]
pub(crate) fn min_heap_push(heap: &mut BinaryHeap<usize, MinComparator>, value: usize)
    ensures
        heap_items(*final(heap)) == heap_items(*old(heap)).insert(value),
{
    heap.push(value)
}

/// `BinaryHeap::pop` on a min-heap: takes out the least index and returns
/// it; `None`, and nothing changes, where the heap holds nothing.
#[verifier::external_body]
pub(crate) fn min_heap_pop(heap: &mut BinaryHeap<usize, MinComparator>) -> (least: Option<usize>)
    ensures
        least is None ==> heap_items(*old(heap)).len() == 0 && heap_items(*final(heap))
            == heap_items(*old(heap)),
        least is Some ==> heap_items(*old(heap)).count(least->0) > 0 && heap_items(*final(heap))
            == heap_items(*old(heap)).remove(least->0),
        least is Some ==> forall|other: usize|
            heap_items(*old(heap)).count(other) > 0 ==> least->0 <= other,
{
    heap.pop()
}

/// `BinaryHeap::peek` on a min-heap: the least index; `None` where the heap
/// holds nothing.
#[verifier::external_body]
pub(crate) fn min_heap_peek(heap: &BinaryHeap<usize, MinComparator>) -> (least: Option<usize>)
    ensures
        least is None ==> heap_items(*heap).len() == 0,
        least is Some ==> heap_items(*heap).count(least->0) > 0,
        least is Some ==> forall|other: usize| heap_items(*heap).count(other) > 0 ==> least->0 <= other,
{
    heap.peek().copied()
}

/// `BinaryHeap::len`: how many indices the heap holds.
#[verifier::external_body]
pub(crate) fn min_heap_len(heap: &BinaryHeap<usize, MinComparator>) -> (n: usize)
    ensures
        n == heap_items(*heap).len(),
{
    heap.len()
}

} // verus!
