use vstd::prelude::*;
use crate::arena::{Arena, FreeBlock, allocation_step, release_step, can_allocate, fits, span, align_up};
use crate::arena_lemmas::{lemma_align_up, lemma_total_at_least_block};

verus! {

/// A new allocation never overlaps a run that is still handed out, and that
/// run stays handed out afterwards: live allocations are pairwise disjoint.
pub proof fn lemma_allocation_avoids_live(
    pre: Arena,
    post: Arena,
    size: int,
    align: int,
    p: int,
    live: int,
    live_len: int,
)
    requires
        allocation_step(pre, post, size, align, p),
        span(live, live_len).disjoint(pre.free_set()),
    ensures
        span(live, live_len).disjoint(span(p, size)),
        span(live, live_len).disjoint(post.free_set()),
{
}

/// While the whole region is one free block, a request succeeds exactly when
/// its aligned span fits in the region.
pub proof fn lemma_whole_region_allocates(a: Arena, size: int, align: int)
    requires
        align > 0,
        a.free_list() == seq![FreeBlock { start: a.base() as usize, len: a.size() as usize }],
        0 <= a.base(),
        a.base() + a.size() <= usize::MAX,
        0 <= a.size(),
    ensures
        can_allocate(a, size, align) <==> align_up(a.base(), align) + size <= a.base() + a.size(),
{
    assert(a.free_list()[0] == FreeBlock { start: a.base() as usize, len: a.size() as usize });
    if align_up(a.base(), align) + size <= a.base() + a.size() {
        assert(fits(a.free_list()[0], size, align));
    }
}

/// A request for more bytes than are free altogether fails.
pub proof fn lemma_oversized_request_fails(a: Arena, size: int, align: int)
    requires
        align > 0,
        size > a.free_bytes(),
    ensures
        !can_allocate(a, size, align),
{
    assert forall|i: int| 0 <= i < a.free_list().len() implies !fits(#[trigger] a.free_list()[i], size, align) by {
        lemma_total_at_least_block(a.free_list(), i);
        lemma_align_up(a.free_list()[i].start as int, align);
    }
}

/// Giving back an allocation restores the free space and the free byte count
/// that the arena had before it: transient allocations leak nothing.
pub proof fn lemma_release_restores(a0: Arena, a1: Arena, a2: Arena, size: int, align: int, p: int)
    requires
        allocation_step(a0, a1, size, align, p),
        release_step(a1, a2, p, size),
    ensures
        a2.free_set() == a0.free_set(),
        a2.free_bytes() == a0.free_bytes(),
{
    assert(a2.free_set() =~= a0.free_set());
}

} // verus!
