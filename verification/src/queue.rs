//! The candidate queue: a max-priority queue of merge candidates, kept
//! in an eight-ary heap from the `dary_heap` crate behind trusted
//! wrappers. A candidate is a triple `(count, inverted pair key,
//! ticket)`: the std tuple order then ranks higher counts first, equal
//! counts by smaller pair first (the pair key is complemented), and
//! equal pairs by the fresher ticket. The ticket indexes a side table
//! holding the pair and its position-set snapshot.

use vstd::prelude::*;
use vstd::multiset::Multiset;
use crate::word::pair_key;

verus! {

/// A queued merge candidate: `(count, inverted pair key, ticket)`.
pub type Cand = (u64, u64, usize);

#[verifier::external_type_specification]
#[verifier::external_body]
#[verifier::reject_recursive_types(T)]
pub struct ExDaryHeap<T, const D: usize>(dary_heap::DaryHeap<T, D>);

/// The multiset of candidates a heap holds.
pub uninterp spec fn heap_items(h: dary_heap::DaryHeap<Cand, 8>) -> Multiset<Cand>;

/// The std (lexicographic) tuple order on candidates: `x` ranks no
/// higher than `y`.
pub open spec fn cand_le(x: Cand, y: Cand) -> bool {
    x.0 < y.0 || (x.0 == y.0 && (x.1 < y.1 || (x.1 == y.1 && x.2 <= y.2)))
}

/// The inverted pair key: complementing reverses the numeric order, so
/// of two equal-count candidates the smaller pair ranks higher.
pub open spec fn inv_key(a: u32, b: u32) -> u64 {
    (u64::MAX - pair_key(a, b)) as u64
}

/// Relies on `dary_heap::DaryHeap::new`: a new heap is empty.
#[verifier::external_body]
pub fn cand_heap_new() -> (h: dary_heap::DaryHeap<Cand, 8>)
    ensures
        heap_items(h) == Multiset::<Cand>::empty(),
{
    dary_heap::DaryHeap::new()
}

/// Relies on `dary_heap::DaryHeap::push`: adds exactly the given item.
#[verifier::external_body]
pub fn cand_heap_push(h: &mut dary_heap::DaryHeap<Cand, 8>, item: Cand)
    ensures
        heap_items(*final(h)) == heap_items(*old(h)).insert(item),
{
    h.push(item)
}

/// Relies on `dary_heap::DaryHeap::pop`: removes and returns a greatest
/// item by the item type's `Ord` (for tuples of unsigned integers, the
/// lexicographic order `cand_le`), or returns `None` on an empty heap.
#[verifier::external_body]
pub fn cand_heap_pop(h: &mut dary_heap::DaryHeap<Cand, 8>) -> (r: Option<Cand>)
    ensures
        match r {
            Option::Some(top) => heap_items(*old(h)).count(top) > 0 && heap_items(*final(h))
                == heap_items(*old(h)).remove(top) && forall|x: Cand|
                #![trigger heap_items(*old(h)).count(x)]
                heap_items(*old(h)).count(x) > 0 ==> cand_le(x, top),
            Option::None => heap_items(*old(h)) == Multiset::<Cand>::empty() && heap_items(
                *final(h),
            ) == heap_items(*old(h)),
        },
{
    h.pop()
}

/// The exec inverted key for a pair, matching `inv_key`.
pub fn make_inv_key(a: u32, b: u32) -> (r: u64)
    ensures
        r == inv_key(a, b),
{
    let k: u64 = (a as u64) * 0x1_0000_0000 + (b as u64);
    u64::MAX - k
}

/// The exec packed key for a pair, matching `pair_key`.
pub fn make_pair_key(a: u32, b: u32) -> (r: u64)
    ensures
        r == pair_key(a, b),
{
    (a as u64) * 0x1_0000_0000 + (b as u64)
}

/// Packing pairs into keys is strictly monotone: a lexicographically
/// smaller pair has a smaller key.
pub proof fn lemma_pair_key_order(a1: u32, b1: u32, a2: u32, b2: u32)
    requires
        a1 < a2 || (a1 == a2 && b1 < b2),
    ensures
        pair_key(a1, b1) < pair_key(a2, b2),
{
}

/// Tie-break law: of two candidates with the same count, the one whose
/// pair is lexicographically smaller ranks strictly higher in the
/// queue, whatever their tickets.
pub proof fn lemma_tiebreak_smaller_pair_first(
    c: u64,
    a1: u32,
    b1: u32,
    a2: u32,
    b2: u32,
    t1: usize,
    t2: usize,
)
    requires
        a1 < a2 || (a1 == a2 && b1 < b2),
    ensures
        cand_le((c, inv_key(a2, b2), t2), (c, inv_key(a1, b1), t1)),
        !cand_le((c, inv_key(a1, b1), t1), (c, inv_key(a2, b2), t2)),
{
    lemma_pair_key_order(a1, b1, a2, b2);
}

} // verus!
