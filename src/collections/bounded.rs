//! Fixed-capacity collections of the `heapless` crate, as the schedulers use
//! them: a min-heap of ready entries and a vector of node indices.
use vstd::prelude::*;
use vstd::multiset::Multiset;
use heapless::binary_heap::{BinaryHeap, Min};

verus! {

/// How many process nodes a scheduler can track.
pub const MAX_PROCESSES: usize = 8;

/// A ready-set entry: `(priority, insertion order, node index)`.
pub type ReadyEntry = (u32, u32, usize);

#[verifier::external_type_specification]
#[verifier::external_body]
#[verifier::reject_recursive_types(T)]
#[verifier::reject_recursive_types(K)]
pub struct ExBinaryHeap<T, K, const N: usize>(BinaryHeap<T, K, N>);

#[verifier::external_type_specification]
#[verifier::external_body]
pub struct ExMin(Min);

#[verifier::external_type_specification]
#[verifier::external_body]
#[verifier::reject_recursive_types(T)]
pub struct ExVec<T, const N: usize>(heapless::Vec<T, N>);

/// The entries a ready heap holds.
pub uninterp spec fn heap_entries(h: BinaryHeap<ReadyEntry, Min, 8>) -> Multiset<ReadyEntry>;

/// The node indices a done vector holds, first pushed first.
pub uninterp spec fn vec_items(v: heapless::Vec<usize, 8>) -> Seq<usize>;

/// `a` orders before or equal to `b` as tuples do: by priority, then by
/// insertion order, then by node index.
pub open spec fn entry_le(a: ReadyEntry, b: ReadyEntry) -> bool {
    a.0 < b.0 || (a.0 == b.0 && (a.1 < b.1 || (a.1 == b.1 && a.2 <= b.2)))
}

/// `e` is a least entry of `m`.
pub open spec fn is_least(e: ReadyEntry, m: Multiset<ReadyEntry>) -> bool {
    &&& m.contains(e)
    &&& forall|o: ReadyEntry| #[trigger] m.contains(o) ==> entry_le(e, o)
}

/// Relies on heapless::BinaryHeap::new: the heap starts empty.
#[verifier::external_body]
pub(crate) fn heap_new() -> (r: BinaryHeap<ReadyEntry, Min, 8>)
    ensures
        heap_entries(r) =~= Multiset::empty(),
{
    BinaryHeap::new()
}

/// Relies on heapless::BinaryHeap::push: below capacity the entry is added,
/// at capacity the heap is unchanged and the entry handed back.
#[verifier::external_body]
pub(crate) fn heap_push(h: &mut BinaryHeap<ReadyEntry, Min, 8>, e: ReadyEntry) -> (r: Result<(), ReadyEntry>)
    ensures
        heap_entries(*old(h)).len() < 8 ==> r is Ok && heap_entries(*final(h)) == heap_entries(*old(h)).insert(e),
        heap_entries(*old(h)).len() >= 8 ==> r is Err && heap_entries(*final(h)) == heap_entries(*old(h)),
{
    h.push(e)
}

/// Relies on heapless::BinaryHeap::peek: a min-heap shows a least entry, or
/// nothing when empty.
#[verifier::external_body]
pub(crate) fn heap_peek(h: &BinaryHeap<ReadyEntry, Min, 8>) -> (r: Option<ReadyEntry>)
    ensures
        r is None <==> heap_entries(*h).len() == 0,
        r matches Some(e) ==> is_least(e, heap_entries(*h)),
{
    h.peek().copied()
}

/// Relies on heapless::BinaryHeap::pop: a min-heap removes and returns a least
/// entry, or returns nothing when empty.
#[verifier::external_body]
pub(crate) fn heap_pop(h: &mut BinaryHeap<ReadyEntry, Min, 8>) -> (r: Option<ReadyEntry>)
    ensures
        r is None <==> heap_entries(*old(h)).len() == 0,
        r is None ==> heap_entries(*final(h)) == heap_entries(*old(h)),
        r matches Some(e) ==> is_least(e, heap_entries(*old(h)))
            && heap_entries(*final(h)) == heap_entries(*old(h)).remove(e),
{
    h.pop()
}

/// Relies on heapless::Vec::new: the vector starts empty.
#[verifier::external_body]
pub(crate) fn vec_new() -> (r: heapless::Vec<usize, 8>)
    ensures
        vec_items(r) == Seq::<usize>::empty(),
{
    heapless::Vec::new()
}

/// Relies on heapless::Vec::push: below capacity the item is appended, at
/// capacity the vector is unchanged and the item handed back.
#[verifier::external_body]
pub(crate) fn vec_push(v: &mut heapless::Vec<usize, 8>, x: usize) -> (r: Result<(), usize>)
    ensures
        vec_items(*old(v)).len() < 8 ==> r is Ok && vec_items(*final(v)) == vec_items(*old(v)).push(x),
        vec_items(*old(v)).len() >= 8 ==> r is Err && vec_items(*final(v)) == vec_items(*old(v)),
{
    v.push(x)
}

/// Relies on heapless::Vec::pop: removes and returns the last item, or
/// returns nothing when empty.
#[verifier::external_body]
pub(crate) fn vec_pop(v: &mut heapless::Vec<usize, 8>) -> (r: Option<usize>)
    ensures
        vec_items(*old(v)).len() == 0 ==> r is None && vec_items(*final(v)) == vec_items(*old(v)),
        vec_items(*old(v)).len() > 0 ==> r == Some(vec_items(*old(v)).last())
            && vec_items(*final(v)) == vec_items(*old(v)).drop_last(),
{
    v.pop()
}

} // verus!
