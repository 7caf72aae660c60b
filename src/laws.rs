//! Properties of the allocator that relate several of its operations, or
//! hold in every state it can reach.

use crate::kalloc::{
    alloc_results, alloc_step, frame_byte, free_step, is_chain, lemma_free_pages_valid, lemma_seed_bounds,
    seed_order, Frame, KMem, ALLOC_FILL, BOOT_FILL, FREE_FILL,
};
use crate::riscv::PGSIZE;
use vstd::prelude::*;

verus! {

/// The chain of links that starts at the head is unique.
proof fn lemma_chain_unique(k: &KMem, s: Seq<u64>, t: Seq<u64>)
    requires
        is_chain(k, s),
        is_chain(k, t),
    ensures
        s == t,
{
    assert forall|i: int| 0 <= i < s.len() && 0 <= i < t.len() implies s[i] == t[i] by {
        lemma_chain_prefix(k, s, t, i);
    }
    if s.len() < t.len() {
        lemma_chain_prefix(k, s, t, s.len() - 1);
        let i = s.len() - 1;
        if s.len() > 0 {
            assert(k.page(s[i]) == Frame::Free(None));
            assert(k.page(t[i]) == Frame::Free(Some(t[i + 1])));
        }
    } else if t.len() < s.len() {
        let i = t.len() - 1;
        if t.len() > 0 {
            lemma_chain_prefix(k, s, t, i);
            assert(k.page(t[i]) == Frame::Free(None));
            assert(k.page(s[i]) == Frame::Free(Some(s[i + 1])));
        }
    }
    assert(s =~= t);
}

proof fn lemma_chain_prefix(k: &KMem, s: Seq<u64>, t: Seq<u64>, i: int)
    requires
        is_chain(k, s),
        is_chain(k, t),
        0 <= i < s.len(),
        i < t.len(),
    ensures
        s[i] == t[i],
    decreases i,
{
    if i > 0 {
        lemma_chain_prefix(k, s, t, i - 1);
        assert(k.page(s[i - 1]) == Frame::Free(Some(s[i])));
        assert(k.page(t[i - 1]) == Frame::Free(Some(t[i])));
    }
}

/// The free-page count equals the number of pages reachable from the head:
/// any chain of links from the head is the free list, whose length
/// `sys_nfree` returns.
pub proof fn lemma_count_is_reachable(k: &KMem, s: Seq<u64>)
    requires
        k.wf(),
        is_chain(k, s),
    ensures
        s == k.free_list(),
        s.len() == k.free_list().len(),
{
    lemma_free_pages_valid(k);
    lemma_chain_unique(k, s, k.free_list());
}

/// A pool seeded with the pages of `[p, hi)` and freed into no further
/// gives exactly as many successful allocations as it has pages, each of a
/// different page in the order last seeded first, and then nothing.
pub proof fn lemma_conservation(p: int, hi: int)
    requires
        0 <= p <= hi <= u64::MAX,
    ensures
        ({
            let s = seed_order(p, hi);
            &&& s.len() == (hi - p) / (PGSIZE as int)
            &&& s.no_duplicates()
            &&& alloc_results(s, (s.len() + 1) as nat) == s.map_values(|a: u64| Some(a)).push(
                None,
            )
        }),
{
    lemma_seed_bounds(p, hi);
    lemma_drain(seed_order(p, hi));
}

/// Allocating once more than a list has pages yields its pages in order,
/// and then nothing.
pub proof fn lemma_drain(s: Seq<u64>)
    ensures
        alloc_results(s, (s.len() + 1) as nat) == s.map_values(|a: u64| Some(a)).push(None),
    decreases s.len(),
{
    if s.len() == 0 {
        assert(alloc_results(s, 1) == seq![alloc_step(s).1].add(alloc_results(s, 0)));
        assert(alloc_results(s, 1) =~= s.map_values(|a: u64| Some(a)).push(None));
    } else {
        lemma_drain(s.drop_first());
        assert(alloc_results(s, (s.len() + 1) as nat) == seq![Some(s[0])].add(
            alloc_results(s.drop_first(), s.len() as nat),
        ));
        assert(alloc_results(s, (s.len() + 1) as nat) =~= s.map_values(|a: u64| Some(a)).push(
            None,
        ));
    }
}

/// Freeing `a` and then `b` and then allocating twice gives back `b` first,
/// then `a`, and leaves the list as it was.
pub proof fn lemma_lifo(s: Seq<u64>, a: u64, b: u64)
    ensures
        alloc_results(free_step(free_step(s, a), b), 2) == seq![Some(b), Some(a)],
        alloc_step(alloc_step(free_step(free_step(s, a), b)).0).0 == s,
{
    let s2 = free_step(free_step(s, a), b);
    assert(alloc_step(s2).0 =~= free_step(s, a));
    assert(alloc_step(free_step(s, a)).0 =~= s);
    assert(alloc_results(s2, 2) == seq![Some(b)].add(alloc_results(free_step(s, a), 1)));
    assert(alloc_results(free_step(s, a), 1) == seq![Some(a)].add(alloc_results(s, 0)));
    assert(alloc_results(s2, 2) =~= seq![Some(b), Some(a)]);
}

/// Every byte of a freshly allocated page reads as the allocation filler,
/// which differs from the free filler and from what memory held at boot.
pub proof fn lemma_fresh_page_poisoned(off: u64)
    ensures
        frame_byte(Frame::Owned(ALLOC_FILL), off) == ALLOC_FILL,
        ALLOC_FILL != FREE_FILL,
        ALLOC_FILL != BOOT_FILL,
{
}

} // verus!
