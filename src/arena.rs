use vstd::prelude::*;
use crate::arena_lemmas::{
    lemma_total_at_least_block, lemma_total_bound, lemma_cut, lemma_align_up, lemma_put_back, lemma_gap,
    merged_list, optional_block,
};

verus! {

/// A run of `len` free bytes starting at address `start`.
#[derive(Clone, Copy, Debug, PartialEq, Eq, Structural)]
pub struct FreeBlock {
    pub start: usize,
    pub len: usize,
}

impl FreeBlock {
    pub open spec fn end(self) -> int {
        self.start + self.len
    }
}

/// Why an arena request was refused.
#[derive(Clone, Copy, Debug, PartialEq, Eq, Structural)]
pub enum ArenaError {
    /// No free block can hold the request at the asked alignment.
    AllocationFailure,
    /// `init` was called on an arena that already has a region.
    DoubleInitialization,
    /// A request reached the arena before `init`.
    UninitializedAllocator,
}

/// The addresses `start .. start + len`.
pub open spec fn span(start: int, len: int) -> Set<int> {
    Set::new(|a: int| start <= a < start + len)
}

/// The addresses that a list of free blocks covers.
pub open spec fn covered(s: Seq<FreeBlock>) -> Set<int>
    decreases s.len(),
{
    if s.len() == 0 {
        Set::empty()
    } else {
        covered(s.drop_last()).union(span(s.last().start as int, s.last().len as int))
    }
}

/// The number of bytes in a list of free blocks.
pub open spec fn total_len(s: Seq<FreeBlock>) -> int
    decreases s.len(),
{
    if s.len() == 0 {
        0
    } else {
        total_len(s.drop_last()) + s.last().len
    }
}

/// The least multiple of `align` that is not below `a`.
pub open spec fn align_up(a: int, align: int) -> int {
    if a % align == 0 {
        a
    } else {
        a + (align - a % align)
    }
}

/// `size` bytes aligned to `align` fit inside the block.
pub open spec fn fits(b: FreeBlock, size: int, align: int) -> bool {
    align_up(b.start as int, align) + size <= b.end()
}

/// Block `i` is the first block of `s` that the request fits in.
pub open spec fn first_fit(s: Seq<FreeBlock>, size: int, align: int, i: int) -> bool {
    &&& 0 <= i < s.len()
    &&& fits(s[i], size, align)
    &&& forall|j: int| 0 <= j < i ==> !fits(#[trigger] s[j], size, align)
}

/// Blocks are in address order and never overlap.
pub open spec fn blocks_ordered(s: Seq<FreeBlock>) -> bool {
    forall|i: int, j: int| 0 <= i < j < s.len() ==> (#[trigger] s[i]).end() <= (#[trigger] s[j]).start
}

/// Every block is non-empty and lies inside `lo .. hi`.
pub open spec fn blocks_within(s: Seq<FreeBlock>, lo: int, hi: int) -> bool {
    forall|i: int|
        0 <= i < s.len() ==> lo <= (#[trigger] s[i]).start && s[i].len > 0 && s[i].end() <= hi
}

/// A first-fit allocator over the byte region `base .. base + size`, whose
/// free space is an address-ordered list of free blocks.
pub struct Arena {
    base: usize,
    size: usize,
    initialized: bool,
    blocks: Vec<FreeBlock>,
    free_bytes: usize,
}

/// `post` is `pre` after `size` bytes at `p` were handed out.
pub open spec fn allocation_step(pre: Arena, post: Arena, size: int, align: int, p: int) -> bool {
    &&& p % align == 0
    &&& pre.base() <= p
    &&& p + size <= pre.base() + pre.size()
    &&& span(p, size).subset_of(pre.free_set())
    &&& post.free_set() == pre.free_set().difference(span(p, size))
    &&& post.free_bytes() == pre.free_bytes() - size
}

/// `post` is `pre` after the `size` bytes at `addr` were given back.
pub open spec fn release_step(pre: Arena, post: Arena, addr: int, size: int) -> bool {
    &&& post.free_set() == pre.free_set().union(span(addr, size))
    &&& post.free_bytes() == pre.free_bytes() + size
}

/// The region holds the request at some free block.
pub open spec fn can_allocate(a: Arena, size: int, align: int) -> bool {
    exists|i: int| 0 <= i < a.free_list().len() && fits(#[trigger] a.free_list()[i], size, align)
}

impl Arena {
    pub closed spec fn base(self) -> int {
        self.base as int
    }

    pub closed spec fn size(self) -> int {
        self.size as int
    }

    pub closed spec fn is_initialized(self) -> bool {
        self.initialized
    }

    pub closed spec fn free_list(self) -> Seq<FreeBlock> {
        self.blocks@
    }

    pub open spec fn free_set(self) -> Set<int> {
        covered(self.free_list())
    }

    pub open spec fn free_bytes(self) -> int {
        total_len(self.free_list())
    }

    /// The region fits the address space, the free list is ordered and inside
    /// the region, and the byte count matches the list.
    pub closed spec fn wf(self) -> bool {
        &&& self.base + self.size <= usize::MAX
        &&& !self.initialized ==> self.blocks@.len() == 0
        &&& blocks_ordered(self.blocks@)
        &&& blocks_within(self.blocks@, self.base as int, self.base + self.size)
        &&& self.free_bytes == total_len(self.blocks@)
    }

    /// An arena with no region yet.
    pub fn new() -> (r: Arena)
        ensures
            r.wf(),
            !r.is_initialized(),
            r.free_list().len() == 0,
    {
        Arena { base: 0, size: 0, initialized: false, blocks: Vec::new(), free_bytes: 0 }
    }

    /// Hands the arena the region `base .. base + size`, all of it free.
    pub fn init(&mut self, base: usize, size: usize) -> (r: Result<(), ArenaError>)
        requires
            old(self).wf(),
            base + size <= usize::MAX,
        ensures
            final(self).wf(),
            old(self).is_initialized() ==> (r is Err && r->Err_0 == ArenaError::DoubleInitialization)
                && *final(self) == *old(self),
            !old(self).is_initialized() ==> {
                &&& r is Ok
                &&& final(self).is_initialized()
                &&& final(self).base() == base
                &&& final(self).size() == size
                &&& size > 0 ==> final(self).free_list() == seq![FreeBlock { start: base, len: size }]
                &&& size == 0 ==> final(self).free_list().len() == 0
                &&& final(self).free_set() == span(base as int, size as int)
                &&& final(self).free_bytes() == size
            },
    {
        if self.initialized {
            return Err(ArenaError::DoubleInitialization);
        }
        let mut blocks: Vec<FreeBlock> = Vec::new();
        if size > 0 {
            blocks.push(FreeBlock { start: base, len: size });
        }
        proof {
            reveal_with_fuel(covered, 2);
            reveal_with_fuel(total_len, 2);
            assert(blocks@.len() == 0 || blocks@.drop_last().len() == 0);
            assert(covered(blocks@) =~= span(base as int, size as int));
        }
        *self = Arena { base, size, initialized: true, blocks, free_bytes: size };
        Ok(())
    }

    /// First fit: hands out `size` bytes aligned to `align` from the first
    /// free block that holds them.
    pub fn allocate(&mut self, size: usize, align: usize) -> (r: Result<usize, ArenaError>)
        requires
            old(self).wf(),
            align > 0,
        ensures
            final(self).wf(),
            final(self).base() == old(self).base(),
            final(self).size() == old(self).size(),
            final(self).is_initialized() == old(self).is_initialized(),
            !old(self).is_initialized() ==> (r is Err && r->Err_0 == ArenaError::UninitializedAllocator),
            old(self).is_initialized() ==> (r is Ok <==> can_allocate(*old(self), size as int, align as int)),
            old(self).is_initialized() && r is Err ==> r->Err_0 == ArenaError::AllocationFailure,
            r is Err ==> *final(self) == *old(self),
            r is Ok ==> allocation_step(*old(self), *final(self), size as int, align as int, r->Ok_0 as int),
            r is Ok ==> exists|i: int|
                first_fit(old(self).free_list(), size as int, align as int, i)
                    && r->Ok_0 == align_up(old(self).free_list()[i].start as int, align as int),
    {
        if !self.initialized {
            return Err(ArenaError::UninitializedAllocator);
        }
        let n = self.blocks.len();
        let mut i: usize = 0;
        let mut pad: usize = 0;
        let mut found = false;
        while i < n
            invariant
                self.wf(),
                *self == *old(self),
                n == self.blocks@.len(),
                i <= n,
                align > 0,
                forall|j: int| 0 <= j < i ==> !fits(#[trigger] self.blocks@[j], size as int, align as int),
                found ==> i < n && fits(self.blocks@[i as int], size as int, align as int)
                    && align_up(self.blocks@[i as int].start as int, align as int) == self.blocks@[i as int].start + pad,
            ensures
                self.wf(),
                *self == *old(self),
                forall|j: int| 0 <= j < i ==> !fits(#[trigger] self.blocks@[j], size as int, align as int),
                found ==> i < n && fits(self.blocks@[i as int], size as int, align as int)
                    && align_up(self.blocks@[i as int].start as int, align as int) == self.blocks@[i as int].start + pad,
                !found ==> i == n,
            decreases n - i,
        {
            let b = self.blocks[i];
            let rem = b.start % align;
            pad = if rem == 0 { 0 } else { align - rem };
            assert(align_up(b.start as int, align as int) == b.start + pad);
            if pad <= b.len && size <= b.len - pad {
                found = true;
                break;
            }
            i += 1;
        }
        if !found {
            assert(!can_allocate(*old(self), size as int, align as int));
            return Err(ArenaError::AllocationFailure);
        }
        let ghost s = self.blocks@;
        proof {
            assert(first_fit(s, size as int, align as int, i as int));
            lemma_align_up(s[i as int].start as int, align as int);
        }
        let p = self.cut(i, pad, size);
        Ok(p)
    }

    /// Takes `size` bytes from block `i`, `pad` bytes past its start.
    fn cut(&mut self, i: usize, pad: usize, size: usize) -> (p: usize)
        requires
            old(self).wf(),
            i < old(self).free_list().len(),
            pad + size <= old(self).free_list()[i as int].len,
        ensures
            final(self).wf(),
            final(self).base() == old(self).base(),
            final(self).size() == old(self).size(),
            final(self).is_initialized() == old(self).is_initialized(),
            p == old(self).free_list()[i as int].start + pad,
            old(self).base() <= p,
            p + size <= old(self).base() + old(self).size(),
            span(p as int, size as int).subset_of(old(self).free_set()),
            final(self).free_set() == old(self).free_set().difference(span(p as int, size as int)),
            final(self).free_bytes() == old(self).free_bytes() - size,
    {
        let b = self.blocks[i];
        let p = b.start + pad;
        let left = FreeBlock { start: b.start, len: pad };
        let right = FreeBlock { start: p + size, len: b.len - pad - size };
        let ghost s = self.blocks@;
        proof {
            lemma_total_at_least_block(s, i as int);
            lemma_cut(s, i as int, p as int, size as int, self.base as int, self.base + self.size);
        }
        self.blocks.remove(i);
        if right.len > 0 {
            self.blocks.insert(i, right);
        }
        if pad > 0 {
            self.blocks.insert(i, left);
        }
        self.free_bytes = self.free_bytes - size;
        assert(self.blocks@ =~= s.subrange(0, i as int) + (optional_block(left) + optional_block(right))
            + s.subrange(i + 1, s.len() as int));
        p
    }

    /// Gives back the `size` bytes at `addr`, merging them with the free
    /// blocks they touch.
    #[verifier::rlimit(40)]
    #[verifier::spinoff_prover]
    pub fn deallocate(&mut self, addr: usize, size: usize)
        requires
            old(self).wf(),
            old(self).is_initialized(),
            old(self).base() <= addr,
            addr + size <= old(self).base() + old(self).size(),
            span(addr as int, size as int).disjoint(old(self).free_set()),
        ensures
            final(self).wf(),
            final(self).base() == old(self).base(),
            final(self).size() == old(self).size(),
            final(self).is_initialized(),
            release_step(*old(self), *final(self), addr as int, size as int),
    {
        if size == 0 {
            assert(self.free_set().union(span(addr as int, 0)) =~= self.free_set());
            return;
        }
        let n = self.blocks.len();
        let mut i: usize = 0;
        while i < n && self.blocks[i].start < addr
            invariant
                self.wf(),
                *self == *old(self),
                n == self.blocks@.len(),
                i <= n,
                forall|j: int| 0 <= j < i ==> (#[trigger] self.blocks@[j]).start < addr,
            decreases n - i,
        {
            i += 1;
        }
        let ghost s = self.blocks@;
        let ghost top = self.base + self.size;
        proof {
            lemma_gap(s, i as int, addr as int, size as int);
        }
        let prev = i > 0 && self.blocks[i - 1].start + self.blocks[i - 1].len == addr;
        let next = i < n && addr + size == self.blocks[i].start;
        let start = if prev { self.blocks[i - 1].start } else { addr };
        let end = if next { self.blocks[i].start + self.blocks[i].len } else { addr + size };
        let merged = FreeBlock { start, len: end - start };
        proof {
            lemma_put_back(s, i as int, addr as int, size as int, prev, next, self.base as int, top);
            lemma_total_bound(merged_list(s, i as int, addr as int, size as int, prev, next), self.base as int, top);
        }
        if prev && next {
            self.blocks.set(i - 1, merged);
            self.blocks.remove(i);
        } else if prev {
            self.blocks.set(i - 1, merged);
        } else if next {
            self.blocks.set(i, merged);
        } else {
            self.blocks.insert(i, merged);
        }
        assert(self.blocks@ =~= merged_list(s, i as int, addr as int, size as int, prev, next));
        self.free_bytes = self.free_bytes + size;
    }

    /// Bytes not handed out.
    pub fn free(&self) -> (r: usize)
        requires
            self.wf(),
        ensures
            r == self.free_bytes(),
    {
        self.free_bytes
    }

    /// Bytes handed out and not yet given back.
    pub fn used(&self) -> (r: usize)
        requires
            self.wf(),
        ensures
            r == self.size() - self.free_bytes(),
    {
        proof {
            lemma_total_bound(self.blocks@, self.base as int, self.base + self.size);
        }
        self.size - self.free_bytes
    }
}

} // verus!
