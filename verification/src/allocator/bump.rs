//! Monotonic (bump) allocator: hands out memory linearly from a fixed heap
//! region, tracking only the first unused byte and the number of live
//! allocations.  Individual blocks are never reused; the whole region is
//! reclaimed at once when the last allocation is returned.

use vstd::prelude::*;

use crate::allocator::align_up_spec;
use crate::allocator::disjoint_from_all;
use crate::allocator::lemma_align_up_properties;
use crate::allocator::lemma_pow2_at_least_one;
use crate::allocator::lemma_sum_sizes_at_least_len;
use crate::allocator::lemma_sum_sizes_remove;
use crate::allocator::pairwise_disjoint;
use crate::allocator::span_in_range;
use crate::allocator::sum_sizes;

verus! {

use vstd::arithmetic::power2::is_pow2;

/// Bump allocator state.  `live` is the ghost record of the spans handed out
/// and not yet returned; it backs the non-overlap guarantees of `alloc`.
pub struct BumpAllocator {
    pub heap_start: usize,
    pub heap_end: usize,
    pub next: usize,
    pub allocations: usize,
    pub live: Ghost<Seq<(int, int)>>,
}

impl BumpAllocator {
    /// Invariant of a bump allocator: `next` lies within the heap region,
    /// the allocation counter matches the number of live spans, every live
    /// span sits below `next`, live spans never overlap, and once the
    /// counter reaches zero the region is wholly reclaimed.
    pub open spec fn wf(self) -> bool {
        &&& self.heap_start <= self.next <= self.heap_end
        &&& self.allocations == self.live@.len()
        &&& (self.allocations == 0 ==> self.next == self.heap_start)
        &&& (forall|i: int|
            0 <= i < self.live@.len() ==> span_in_range(
                #[trigger] self.live@[i],
                self.heap_start as int,
                self.next as int,
            ))
        &&& pairwise_disjoint(self.live@)
        &&& sum_sizes(self.live@) <= self.next - self.heap_start
    }

    /// Creates a new empty bump allocator.
    pub fn new() -> (r: BumpAllocator)
        ensures
            r.wf(),
            r.heap_start == 0,
            r.heap_end == 0,
            r.next == 0,
            r.allocations == 0,
            r.live@ == Seq::<(int, int)>::empty(),
    {
        BumpAllocator { heap_start: 0, heap_end: 0, next: 0, allocations: 0, live: Ghost(Seq::empty()) }
    }

    /// Initializes the bump allocator with the given heap bounds.
    ///
    /// The region must be unused (no live allocations), and this must be
    /// done exactly once before the allocator serves requests.
    pub fn init(&mut self, heap_start: usize, heap_size: usize)
        requires
            old(self).allocations == 0,
            old(self).live@.len() == 0,
            heap_start + heap_size <= usize::MAX,
        ensures
            final(self).wf(),
            final(self).heap_start == heap_start,
            final(self).heap_end == heap_start + heap_size,
            final(self).next == heap_start,
            final(self).allocations == 0,
            final(self).live@ == Seq::<(int, int)>::empty(),
    {
        self.heap_start = heap_start;
        self.heap_end = heap_start + heap_size;
        self.next = heap_start;
        proof {
            assert(self.live@ =~= Seq::<(int, int)>::empty());
        }
    }

    /// Serves an allocation request of `size` bytes aligned to `align`:
    /// rounds `next` up to the alignment and commits the span there, or
    /// fails exactly when the rounded start plus `size` would pass the end
    /// of the heap.  A returned span is aligned, lies inside the heap, and
    /// overlaps no live allocation.
    pub fn allocate(&mut self, size: usize, align: usize) -> (r: Option<usize>)
        requires
            old(self).wf(),
            size >= 1,
            is_pow2(align as int),
        ensures
            final(self).wf(),
            final(self).heap_start == old(self).heap_start,
            final(self).heap_end == old(self).heap_end,
            r.is_some() <==> align_up_spec(old(self).next as int, align as int) + size
                <= old(self).heap_end,
            r.is_some() ==> r.unwrap() == align_up_spec(old(self).next as int, align as int),
            r.is_some() ==> r.unwrap() as int % align as int == 0,
            r.is_some() ==> span_in_range(
                (r.unwrap() as int, size as int),
                old(self).heap_start as int,
                old(self).heap_end as int,
            ),
            r.is_some() ==> disjoint_from_all(old(self).live@, (r.unwrap() as int, size as int)),
            r.is_some() ==> final(self).live@ == old(self).live@.push(
                (r.unwrap() as int, size as int),
            ),
            r.is_some() ==> final(self).next == r.unwrap() + size,
            r.is_some() ==> final(self).allocations == old(self).allocations + 1,
            r.is_none() ==> *final(self) == *old(self),
    {
        proof {
            lemma_pow2_at_least_one(align as int);
            lemma_align_up_properties(self.next as int, align as int);
        }
        let rem: usize = self.next % align;
        let alloc_start: usize;
        if rem == 0 {
            alloc_start = self.next;
        } else {
            let pad: usize = align - rem;
            if pad > usize::MAX - self.next {
                return None;
            }
            alloc_start = self.next + pad;
        }
        if size > usize::MAX - alloc_start {
            return None;
        }
        let alloc_end: usize = alloc_start + size;
        if alloc_end > self.heap_end {
            None
        } else {
            proof {
                lemma_sum_sizes_at_least_len(self.live@);
                assert(sum_sizes(self.live@.push((alloc_start as int, size as int)))
                    == sum_sizes(self.live@) + size) by {
                    assert(self.live@.push((alloc_start as int, size as int)).drop_last()
                        =~= self.live@);
                }
            }
            self.next = alloc_end;
            self.allocations = self.allocations + 1;
            self.live = Ghost(self.live@.push((alloc_start as int, size as int)));
            Some(alloc_start)
        }
    }

    /// Returns a span obtained from `alloc`: the allocation counter drops by
    /// one, and when it reaches zero the whole region is reclaimed by
    /// resetting `next` to the start of the heap.
    pub fn deallocate(&mut self, ptr: usize, size: usize, _align: usize)
        requires
            old(self).wf(),
            old(self).live@.contains((ptr as int, size as int)),
        ensures
            final(self).wf(),
            final(self).heap_start == old(self).heap_start,
            final(self).heap_end == old(self).heap_end,
            final(self).allocations == old(self).allocations - 1,
            exists|i: int|
                0 <= i < old(self).live@.len() && old(self).live@[i] == (ptr as int, size as int)
                    && final(self).live@ == old(self).live@.remove(i),
            old(self).allocations == 1 ==> final(self).next == old(self).heap_start,
            old(self).allocations > 1 ==> final(self).next == old(self).next,
    {
        let ghost i = choose|j: int|
            0 <= j < self.live@.len() && self.live@[j] == (ptr as int, size as int);
        proof {
            lemma_sum_sizes_remove(self.live@, i);
        }
        self.live = Ghost(self.live@.remove(i));
        self.allocations = self.allocations - 1;
        if self.allocations == 0 {
            self.next = self.heap_start;
        }
    }
}

/// Whole-region reclamation: once the outstanding-allocation count of a
/// well-formed bump allocator returns to zero, `next` stands at the very
/// start of the heap again, so (by `alloc`'s contract) the next allocation
/// is served from `heap_start` upward.
pub proof fn lemma_bump_reset(b: BumpAllocator)
    requires
        b.wf(),
        b.allocations == 0,
    ensures
        b.next == b.heap_start,
{
}

/// Exhaustion bound: the live allocations of a well-formed bump allocator
/// never cover more bytes than the heap holds, so requests beyond the
/// remaining capacity fail by `alloc`'s success condition rather than
/// corrupt state.
pub proof fn lemma_bump_capacity(b: BumpAllocator)
    requires
        b.wf(),
    ensures
        sum_sizes(b.live@) <= b.heap_end - b.heap_start,
{
}

} // verus!
