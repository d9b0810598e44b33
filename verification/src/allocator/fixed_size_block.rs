//! Fixed-size-block allocator: rounds each request up to one of a fixed set
//! of power-of-two block sizes and keeps, per size class, a list of freed
//! blocks ready for O(1) reuse.  Each class size serves as both block size
//! and block alignment.  Requests that fit no class, and class misses (an
//! empty list), go to the embedded coalescing free-list allocator.

use vstd::prelude::*;

use crate::allocator::lemma_divides_transitive;
use crate::allocator::lemma_pow2_at_least_one;
use crate::allocator::lemma_pow2_divides;
use crate::allocator::span_in_range;
use crate::allocator::spans_disjoint;
use crate::allocator::align_up_spec;
use crate::allocator::linked_list::carved;
use crate::allocator::linked_list::first_fit_at;
use crate::allocator::linked_list::has_fit;
use crate::allocator::linked_list::LinkedListAllocator;

verus! {

use vstd::arithmetic::power2::is_pow2;
use vstd::arithmetic::power2::is_pow2_exists;
use vstd::arithmetic::power2::is_pow2_equiv;
use vstd::arithmetic::power2::lemma2_to64;
use vstd::arithmetic::power::pow;
use vstd::arithmetic::power::lemma_pow_positive;
use vstd::arithmetic::power2::pow2;

/// How many block size classes there are.
pub const BLOCK_SIZE_COUNT: usize = 9;

/// The block sizes. Each must be a power of two because it is also used as
/// the alignment of its blocks (alignments are always powers of two).
pub open spec fn block_size_spec(i: int) -> int {
    if i == 0 {
        8
    } else if i == 1 {
        16
    } else if i == 2 {
        32
    } else if i == 3 {
        64
    } else if i == 4 {
        128
    } else if i == 5 {
        256
    } else if i == 6 {
        512
    } else if i == 7 {
        1024
    } else {
        2048
    }
}

/// The block size of class `i`, for executable code.
pub fn block_size(i: usize) -> (r: usize)
    requires
        i < BLOCK_SIZE_COUNT,
    ensures
        r == block_size_spec(i as int),
{
    match i {
        0 => 8,
        1 => 16,
        2 => 32,
        3 => 64,
        4 => 128,
        5 => 256,
        6 => 512,
        7 => 1024,
        _ => 2048,
    }
}

/// A block must hold the request's bytes and grant its alignment, so the
/// size that matters is the larger of the two.
pub open spec fn required_block_size(size: int, align: int) -> int {
    if size >= align {
        size
    } else {
        align
    }
}

/// The smallest class whose block size is at least the required size, or
/// none if the request exceeds the largest class.
pub open spec fn list_index_spec(size: int, align: int) -> Option<int> {
    let req = required_block_size(size, align);
    if req <= 8 {
        Some(0)
    } else if req <= 16 {
        Some(1)
    } else if req <= 32 {
        Some(2)
    } else if req <= 64 {
        Some(3)
    } else if req <= 128 {
        Some(4)
    } else if req <= 256 {
        Some(5)
    } else if req <= 512 {
        Some(6)
    } else if req <= 1024 {
        Some(7)
    } else if req <= 2048 {
        Some(8)
    } else {
        None
    }
}

/// Choose an appropriate block size class for the given request: the
/// smallest class that can hold `max(size, align)` bytes, or `None` (the
/// fallback path) if even the largest class is too small.
pub fn list_index(size: usize, align: usize) -> (r: Option<usize>)
    ensures
        r.is_some() <==> list_index_spec(size as int, align as int).is_some(),
        r.is_some() ==> r.unwrap() < BLOCK_SIZE_COUNT && r.unwrap()
            == list_index_spec(size as int, align as int).unwrap(),
{
    let required: usize = if size >= align {
        size
    } else {
        align
    };
    if required <= 8 {
        Some(0)
    } else if required <= 16 {
        Some(1)
    } else if required <= 32 {
        Some(2)
    } else if required <= 64 {
        Some(3)
    } else if required <= 128 {
        Some(4)
    } else if required <= 256 {
        Some(5)
    } else if required <= 512 {
        Some(6)
    } else if required <= 1024 {
        Some(7)
    } else if required <= 2048 {
        Some(8)
    } else {
        None
    }
}

/// Every class's block size is a power of two, large enough for any request
/// the class accepts.
pub proof fn lemma_block_size_pow2(i: int)
    requires
        0 <= i < BLOCK_SIZE_COUNT,
    ensures
        is_pow2(block_size_spec(i)),
        block_size_spec(i) >= 8,
{
    broadcast use is_pow2_equiv;

    lemma2_to64();
    let b = block_size_spec(i);
    if i == 0 {
        assert(pow(2, 3) == 8) by {
            lemma_pow_positive(2, 3);
            assert(pow2(3) == 8);
        }
        assert(is_pow2_exists(b));
    } else if i == 1 {
        assert(pow(2, 4) == 16) by {
            lemma_pow_positive(2, 4);
            assert(pow2(4) == 16);
        }
        assert(is_pow2_exists(b));
    } else if i == 2 {
        assert(pow(2, 5) == 32) by {
            lemma_pow_positive(2, 5);
            assert(pow2(5) == 32);
        }
        assert(is_pow2_exists(b));
    } else if i == 3 {
        assert(pow(2, 6) == 64) by {
            lemma_pow_positive(2, 6);
            assert(pow2(6) == 64);
        }
        assert(is_pow2_exists(b));
    } else if i == 4 {
        assert(pow(2, 7) == 128) by {
            lemma_pow_positive(2, 7);
            assert(pow2(7) == 128);
        }
        assert(is_pow2_exists(b));
    } else if i == 5 {
        assert(pow(2, 8) == 256) by {
            lemma_pow_positive(2, 8);
            assert(pow2(8) == 256);
        }
        assert(is_pow2_exists(b));
    } else if i == 6 {
        assert(pow(2, 9) == 512) by {
            lemma_pow_positive(2, 9);
            assert(pow2(9) == 512);
        }
        assert(is_pow2_exists(b));
    } else if i == 7 {
        assert(pow(2, 10) == 1024) by {
            lemma_pow_positive(2, 10);
            assert(pow2(10) == 1024);
        }
        assert(is_pow2_exists(b));
    } else {
        assert(pow(2, 11) == 2048) by {
            lemma_pow_positive(2, 11);
            assert(pow2(11) == 2048);
        }
        assert(is_pow2_exists(b));
    }
}

/// The byte span of a free block of class `i` starting at `b`.
pub open spec fn block_span(b: int, i: int) -> (int, int) {
    (b, block_size_spec(i))
}

/// The byte span a live allocation `(ptr, size, align)` occupies from the
/// caller's point of view.
pub open spec fn entry_span(e: (int, int, int)) -> (int, int) {
    (e.0, e.1)
}

/// The byte span the allocator set aside for a live allocation: the whole
/// block of its size class, or exactly the requested span when the request
/// went to the fallback allocator.
pub open spec fn cover_span(e: (int, int, int)) -> (int, int) {
    match list_index_spec(e.1, e.2) {
        Some(i) => block_span(e.0, i),
        None => (e.0, e.1),
    }
}

/// A free block of class `i`: aligned to the class's block size, and still
/// on record in `flive` as memory obtained from the fallback allocator
/// (freed blocks return to their class list, never to the fallback).
pub open spec fn block_wf(b: usize, i: int, flive: Seq<(int, int)>) -> bool {
    &&& b as int % block_size_spec(i) == 0
    &&& flive.contains(block_span(b as int, i))
}

/// A live allocation `(ptr, size, align)`: a well-formed request, aligned,
/// whose cover span is on record in `flive`, and — when a class applies —
/// lying at the start of a class-aligned block that can hold it.
pub open spec fn entry_wf(e: (int, int, int), flive: Seq<(int, int)>) -> bool {
    &&& e.1 >= 1
    &&& is_pow2(e.2)
    &&& e.0 % e.2 == 0
    &&& flive.contains(cover_span(e))
    &&& match list_index_spec(e.1, e.2) {
        Some(i) => e.0 % block_size_spec(i) == 0 && e.1 <= block_size_spec(i),
        None => true,
    }
}

/// Fixed-size-block allocator state: one stack of free block addresses per
/// size class, the embedded fallback allocator, and the ghost record of the
/// live allocations `(ptr, size, align)`.
pub struct FixedSizeBlockAllocator {
    pub list_heads: Vec<Vec<usize>>,
    pub fallback_allocator: LinkedListAllocator,
    pub live: Ghost<Seq<(int, int, int)>>,
}

impl FixedSizeBlockAllocator {
    /// Invariant: the fallback allocator is well-formed; there is one free
    /// list per class; every free block and every live allocation's cover
    /// span is class-aligned, on record in the fallback's live spans, and
    /// none of these spans overlap one another.
    pub open spec fn wf(self) -> bool {
        &&& self.fallback_allocator.wf()
        &&& self.list_heads@.len() == BLOCK_SIZE_COUNT
        &&& (forall|i: int, k: int|
            0 <= i < BLOCK_SIZE_COUNT && 0 <= k < self.list_heads@[i]@.len() ==> block_wf(
                #[trigger] self.list_heads@[i]@[k],
                i,
                self.fallback_allocator.live@,
            ))
        &&& (forall|j: int|
            0 <= j < self.live@.len() ==> entry_wf(
                #[trigger] self.live@[j],
                self.fallback_allocator.live@,
            ))
        &&& (forall|j1: int, j2: int|
            0 <= j1 < self.live@.len() && 0 <= j2 < self.live@.len() && j1 != j2
                ==> spans_disjoint(
                cover_span(#[trigger] self.live@[j1]),
                cover_span(#[trigger] self.live@[j2]),
            ))
        &&& (forall|i1: int, k1: int, i2: int, k2: int|
            0 <= i1 < BLOCK_SIZE_COUNT && 0 <= k1 < self.list_heads@[i1]@.len() && 0 <= i2
                < BLOCK_SIZE_COUNT && 0 <= k2 < self.list_heads@[i2]@.len() && (i1 != i2 || k1
                != k2) ==> spans_disjoint(
                block_span(#[trigger] self.list_heads@[i1]@[k1] as int, i1),
                block_span(#[trigger] self.list_heads@[i2]@[k2] as int, i2),
            ))
        &&& (forall|j: int, i: int, k: int|
            0 <= j < self.live@.len() && 0 <= i < BLOCK_SIZE_COUNT && 0 <= k
                < self.list_heads@[i]@.len() ==> spans_disjoint(
                cover_span(#[trigger] self.live@[j]),
                block_span(#[trigger] self.list_heads@[i]@[k] as int, i),
            ))
    }

    /// Creates an empty FixedSizeBlockAllocator.
    pub fn new() -> (r: FixedSizeBlockAllocator)
        ensures
            r.wf(),
            r.list_heads@.len() == BLOCK_SIZE_COUNT,
            forall|i: int| 0 <= i < BLOCK_SIZE_COUNT ==> (#[trigger] r.list_heads@[i])@.len() == 0,
            r.fallback_allocator.heap_start == 0,
            r.fallback_allocator.heap_end == 0,
            r.fallback_allocator.regions@.len() == 0,
            r.fallback_allocator.live@ == Seq::<(int, int)>::empty(),
            r.live@ == Seq::<(int, int, int)>::empty(),
    {
        let mut list_heads: Vec<Vec<usize>> = Vec::new();
        let mut i: usize = 0;
        while i < BLOCK_SIZE_COUNT
            invariant
                0 <= i <= BLOCK_SIZE_COUNT,
                list_heads@.len() == i,
                forall|j: int| 0 <= j < i ==> (#[trigger] list_heads@[j])@.len() == 0,
            decreases BLOCK_SIZE_COUNT - i,
        {
            list_heads.push(Vec::new());
            i = i + 1;
        }
        FixedSizeBlockAllocator {
            list_heads,
            fallback_allocator: LinkedListAllocator::new(),
            live: Ghost(Seq::empty()),
        }
    }

    /// Serves an allocation request.  When a size class applies and its
    /// list holds a freed block, that block (the most recently freed one)
    /// is popped and returned in O(1).  When the class list is empty, a
    /// brand-new block of exactly the class's size and alignment comes from
    /// the fallback allocator.  When no class applies, the raw request goes
    /// to the fallback allocator.  A returned span is aligned, lies inside
    /// the heap, and overlaps no live allocation.
    #[verifier::rlimit(100)]
    pub fn allocate(&mut self, size: usize, align: usize) -> (r: Option<usize>)
        requires
            old(self).wf(),
            size >= 1,
            is_pow2(align as int),
        ensures
            final(self).wf(),
            final(self).fallback_allocator.heap_start == old(self).fallback_allocator.heap_start,
            final(self).fallback_allocator.heap_end == old(self).fallback_allocator.heap_end,
            (match list_index_spec(size as int, align as int) {
                Some(i) => r.is_some() <==> (old(self).list_heads@[i]@.len() > 0 || has_fit(
                    old(self).fallback_allocator.regions@,
                    block_size_spec(i),
                    block_size_spec(i),
                )),
                None => r.is_some() <==> has_fit(
                    old(self).fallback_allocator.regions@,
                    size as int,
                    align as int,
                ),
            }),
            (match list_index_spec(size as int, align as int) {
                Some(i) => old(self).list_heads@[i]@.len() > 0 ==> (r.is_some() && r.unwrap()
                    == old(self).list_heads@[i]@.last() && final(self).list_heads@[i]@
                    == old(self).list_heads@[i]@.drop_last() && (forall|i2: int|
                    0 <= i2 < BLOCK_SIZE_COUNT && i2 != i
                        ==> (#[trigger] final(self).list_heads@[i2])@
                        == old(self).list_heads@[i2]@)
                    && final(self).fallback_allocator == old(self).fallback_allocator),
                None => true,
            }),
            (match list_index_spec(size as int, align as int) {
                Some(i) => (old(self).list_heads@[i]@.len() == 0 && r.is_some())
                    ==> (final(self).list_heads@ == old(self).list_heads@ && final(self).fallback_allocator.live@
                    == old(self).fallback_allocator.live@.push(
                    (r.unwrap() as int, block_size_spec(i)),
                ) && carved(
                    final(self).fallback_allocator.regions@,
                    old(self).fallback_allocator.regions@,
                    r.unwrap() as int,
                    block_size_spec(i),
                ) && (exists|fi: int|
                    first_fit_at(
                        old(self).fallback_allocator.regions@,
                        fi,
                        block_size_spec(i),
                        block_size_spec(i),
                    ) && r.unwrap() == align_up_spec(
                        old(self).fallback_allocator.regions@[fi].start as int,
                        block_size_spec(i),
                    ))),
                None => r.is_some() ==> (final(self).list_heads@ == old(self).list_heads@
                    && final(self).fallback_allocator.live@
                    == old(self).fallback_allocator.live@.push(
                    (r.unwrap() as int, size as int),
                ) && carved(
                    final(self).fallback_allocator.regions@,
                    old(self).fallback_allocator.regions@,
                    r.unwrap() as int,
                    size as int,
                ) && (exists|fi: int|
                    first_fit_at(
                        old(self).fallback_allocator.regions@,
                        fi,
                        size as int,
                        align as int,
                    ) && r.unwrap() == align_up_spec(
                        old(self).fallback_allocator.regions@[fi].start as int,
                        align as int,
                    ))),
            }),
            r.is_some() ==> r.unwrap() as int % align as int == 0,
            r.is_some() ==> span_in_range(
                (r.unwrap() as int, size as int),
                old(self).fallback_allocator.heap_start as int,
                old(self).fallback_allocator.heap_end as int,
            ),
            r.is_some() ==> (forall|j: int|
                0 <= j < old(self).live@.len() ==> spans_disjoint(
                    entry_span(#[trigger] old(self).live@[j]),
                    (r.unwrap() as int, size as int),
                )),
            r.is_some() ==> final(self).live@ == old(self).live@.push(
                (r.unwrap() as int, size as int, align as int),
            ),
            r.is_none() ==> *final(self) == *old(self),
    {
        let ghost flive0 = self.fallback_allocator.live@;
        match list_index(size, align) {
            Some(index) => {
                let ghost gi = index as int;
                if self.list_heads[index].len() > 0 {
                    let popped = self.list_heads[index].pop();
                    let node = popped.unwrap();
                    self.live = Ghost(self.live@.push((node as int, size as int, align as int)));
                    proof {
                        self.lemma_class_hit(*old(self), node, size, align, gi);
                    }
                    Some(node)
                } else {
                    let block_sz = block_size(index);
                    proof {
                        lemma_block_size_pow2(gi);
                    }
                    match self.fallback_allocator.allocate(block_sz, block_sz) {
                        Some(node) => {
                            self.live = Ghost(
                                self.live@.push((node as int, size as int, align as int)),
                            );
                            proof {
                                lemma_block_alignment(node as int, size as int, align as int, gi);
                                self.lemma_fresh_block(*old(self), node, size, align);
                            }
                            Some(node)
                        },
                        None => None,
                    }
                }
            },
            None => {
                match self.fallback_allocator.allocate(size, align) {
                    Some(node) => {
                        self.live = Ghost(
                            self.live@.push((node as int, size as int, align as int)),
                        );
                        proof {
                            self.lemma_fresh_block(*old(self), node, size, align);
                        }
                        Some(node)
                    },
                    None => None,
                }
            },
        }
    }

    /// Popping a block from its class list hands out an aligned span inside
    /// the heap that overlaps nothing live, and preserves the invariant.
    #[verifier::rlimit(100)]
    proof fn lemma_class_hit(
        self,
        pre: FixedSizeBlockAllocator,
        node: usize,
        size: usize,
        align: usize,
        i: int,
    )
        requires
            pre.wf(),
            size >= 1,
            is_pow2(align as int),
            list_index_spec(size as int, align as int) == Some(i),
            pre.list_heads@[i]@.len() > 0,
            node == pre.list_heads@[i]@.last(),
            self.fallback_allocator == pre.fallback_allocator,
            self.list_heads@ == pre.list_heads@.update(i, self.list_heads@[i]),
            self.list_heads@[i]@ == pre.list_heads@[i]@.drop_last(),
            self.live@ == pre.live@.push((node as int, size as int, align as int)),
        ensures
            self.wf(),
            node as int % align as int == 0,
            span_in_range(
                (node as int, size as int),
                pre.fallback_allocator.heap_start as int,
                pre.fallback_allocator.heap_end as int,
            ),
            forall|j: int|
                0 <= j < pre.live@.len() ==> spans_disjoint(
                    entry_span(#[trigger] pre.live@[j]),
                    (node as int, size as int),
                ),
    {
        let flive = pre.fallback_allocator.live@;
        let e = (node as int, size as int, align as int);
        let kl = pre.list_heads@[i]@.len() - 1;
        assert(block_wf(pre.list_heads@[i]@[kl], i, flive));
        assert(cover_span(e) == block_span(node as int, i));
        lemma_block_alignment(node as int, size as int, align as int, i);
        // the block's span sits inside the heap because the fallback handed it out
        let w = choose|w: int| 0 <= w < flive.len() && flive[w] == block_span(node as int, i);
        assert(span_in_range(
            flive[w],
            pre.fallback_allocator.heap_start as int,
            pre.fallback_allocator.heap_end as int,
        ));
        // the popped block is disjoint from every cover span, hence from
        // every live span, which sits inside its cover
        assert forall|j: int| 0 <= j < pre.live@.len() implies spans_disjoint(
            entry_span(#[trigger] pre.live@[j]),
            (node as int, size as int),
        ) by {
            assert(entry_wf(pre.live@[j], flive));
            assert(spans_disjoint(cover_span(pre.live@[j]), block_span(node as int, i)));
        }
        // invariant: all quantifiers map back to the pre state
        assert forall|i2: int, k: int|
            0 <= i2 < BLOCK_SIZE_COUNT && 0 <= k < self.list_heads@[i2]@.len() implies block_wf(
            #[trigger] self.list_heads@[i2]@[k],
            i2,
            flive,
        ) by {
            assert(self.list_heads@[i2]@[k] == pre.list_heads@[i2]@[k]);
        }
        assert forall|j: int| 0 <= j < self.live@.len() implies entry_wf(
            #[trigger] self.live@[j],
            flive,
        ) by {
            if j < pre.live@.len() {
                assert(self.live@[j] == pre.live@[j]);
            } else {
                assert(self.live@[j] == e);
            }
        }
        assert forall|j1: int, j2: int|
            0 <= j1 < self.live@.len() && 0 <= j2 < self.live@.len() && j1 != j2 implies spans_disjoint(
            cover_span(#[trigger] self.live@[j1]),
            cover_span(#[trigger] self.live@[j2]),
        ) by {
            let last = self.live@.len() - 1;
            if j1 < last && j2 < last {
                assert(spans_disjoint(cover_span(pre.live@[j1]), cover_span(pre.live@[j2])));
            } else if j1 == last {
                assert(spans_disjoint(
                    cover_span(pre.live@[j2]),
                    block_span(node as int, i),
                ));
            } else {
                assert(spans_disjoint(
                    cover_span(pre.live@[j1]),
                    block_span(node as int, i),
                ));
            }
        }
        assert forall|i1: int, k1: int, i2: int, k2: int|
            0 <= i1 < BLOCK_SIZE_COUNT && 0 <= k1 < self.list_heads@[i1]@.len() && 0 <= i2
                < BLOCK_SIZE_COUNT && 0 <= k2 < self.list_heads@[i2]@.len() && (i1 != i2 || k1
                != k2) implies spans_disjoint(
            block_span(#[trigger] self.list_heads@[i1]@[k1] as int, i1),
            block_span(#[trigger] self.list_heads@[i2]@[k2] as int, i2),
        ) by {
            assert(self.list_heads@[i1]@[k1] == pre.list_heads@[i1]@[k1]);
            assert(self.list_heads@[i2]@[k2] == pre.list_heads@[i2]@[k2]);
        }
        assert forall|j: int, i2: int, k: int|
            0 <= j < self.live@.len() && 0 <= i2 < BLOCK_SIZE_COUNT && 0 <= k
                < self.list_heads@[i2]@.len() implies spans_disjoint(
            cover_span(#[trigger] self.live@[j]),
            block_span(#[trigger] self.list_heads@[i2]@[k] as int, i2),
        ) by {
            assert(self.list_heads@[i2]@[k] == pre.list_heads@[i2]@[k]);
            if j < self.live@.len() - 1 {
                assert(spans_disjoint(
                    cover_span(pre.live@[j]),
                    block_span(pre.list_heads@[i2]@[k] as int, i2),
                ));
            } else {
                // the new cover is the popped block, disjoint from every
                // block still on a list
                assert(spans_disjoint(
                    block_span(pre.list_heads@[i]@[kl] as int, i),
                    block_span(pre.list_heads@[i2]@[k] as int, i2),
                ));
            }
        }
    }

    /// A span freshly obtained from the fallback allocator is disjoint from
    /// every cover span and free block (they are all on the fallback's
    /// earlier record of handed-out spans), so handing it out preserves the
    /// invariant.  Covers the class-miss path (a new class block) and the
    /// oversize path (a raw fallback request) alike.
    #[verifier::rlimit(100)]
    proof fn lemma_fresh_block(
        self,
        pre: FixedSizeBlockAllocator,
        node: usize,
        size: usize,
        align: usize,
    )
        requires
            pre.wf(),
            size >= 1,
            is_pow2(align as int),
            self.list_heads@ == pre.list_heads@,
            self.live@ == pre.live@.push((node as int, size as int, align as int)),
            self.fallback_allocator.wf(),
            self.fallback_allocator.heap_start == pre.fallback_allocator.heap_start,
            self.fallback_allocator.heap_end == pre.fallback_allocator.heap_end,
            self.fallback_allocator.live@ == pre.fallback_allocator.live@.push(
                cover_span((node as int, size as int, align as int)),
            ),
            crate::allocator::disjoint_from_all(
                pre.fallback_allocator.live@,
                cover_span((node as int, size as int, align as int)),
            ),
            span_in_range(
                cover_span((node as int, size as int, align as int)),
                pre.fallback_allocator.heap_start as int,
                pre.fallback_allocator.heap_end as int,
            ),
            node as int % align as int == 0,
            match list_index_spec(size as int, align as int) {
                Some(i) => node as int % block_size_spec(i) == 0 && size <= block_size_spec(i),
                None => true,
            },
        ensures
            self.wf(),
            span_in_range(
                (node as int, size as int),
                pre.fallback_allocator.heap_start as int,
                pre.fallback_allocator.heap_end as int,
            ),
            forall|j: int|
                0 <= j < pre.live@.len() ==> spans_disjoint(
                    entry_span(#[trigger] pre.live@[j]),
                    (node as int, size as int),
                ),
    {
        let flive0 = pre.fallback_allocator.live@;
        let flive1 = self.fallback_allocator.live@;
        let e = (node as int, size as int, align as int);
        let c = cover_span(e);
        assert(c.0 == node as int && c.1 >= size as int);
        // everything recorded before is disjoint from the fresh span
        assert forall|j: int| 0 <= j < pre.live@.len() implies spans_disjoint(
            cover_span(#[trigger] pre.live@[j]),
            c,
        ) by {
            assert(entry_wf(pre.live@[j], flive0));
            let w = choose|w: int|
                0 <= w < flive0.len() && flive0[w] == cover_span(pre.live@[j]);
            assert(spans_disjoint(flive0[w], c));
        }
        assert forall|j: int| 0 <= j < pre.live@.len() implies spans_disjoint(
            entry_span(#[trigger] pre.live@[j]),
            (node as int, size as int),
        ) by {
            assert(spans_disjoint(cover_span(pre.live@[j]), c));
            assert(entry_wf(pre.live@[j], flive0));
        }
        assert forall|i: int, k: int|
            0 <= i < BLOCK_SIZE_COUNT && 0 <= k < self.list_heads@[i]@.len() implies spans_disjoint(
            block_span(#[trigger] self.list_heads@[i]@[k] as int, i),
            c,
        ) by {
            assert(block_wf(pre.list_heads@[i]@[k], i, flive0));
            let w = choose|w: int|
                0 <= w < flive0.len() && flive0[w] == block_span(
                    pre.list_heads@[i]@[k] as int,
                    i,
                );
            assert(spans_disjoint(flive0[w], c));
        }
        // invariant
        assert forall|i2: int, k: int|
            0 <= i2 < BLOCK_SIZE_COUNT && 0 <= k < self.list_heads@[i2]@.len() implies block_wf(
            #[trigger] self.list_heads@[i2]@[k],
            i2,
            flive1,
        ) by {
            assert(block_wf(pre.list_heads@[i2]@[k], i2, flive0));
            crate::allocator::lemma_contains_after_push(
                flive0,
                block_span(pre.list_heads@[i2]@[k] as int, i2),
                c,
            );
        }
        assert forall|j: int| 0 <= j < self.live@.len() implies entry_wf(
            #[trigger] self.live@[j],
            flive1,
        ) by {
            if j < pre.live@.len() {
                assert(self.live@[j] == pre.live@[j]);
                assert(entry_wf(pre.live@[j], flive0));
                crate::allocator::lemma_contains_after_push(
                    flive0,
                    cover_span(pre.live@[j]),
                    c,
                );
            } else {
                assert(self.live@[j] == e);
                assert(flive1[flive1.len() - 1] == c);
            }
        }
        assert forall|j1: int, j2: int|
            0 <= j1 < self.live@.len() && 0 <= j2 < self.live@.len() && j1 != j2 implies spans_disjoint(
            cover_span(#[trigger] self.live@[j1]),
            cover_span(#[trigger] self.live@[j2]),
        ) by {
            let last = self.live@.len() - 1;
            if j1 < last && j2 < last {
                assert(spans_disjoint(cover_span(pre.live@[j1]), cover_span(pre.live@[j2])));
            } else if j1 == last {
                assert(spans_disjoint(cover_span(pre.live@[j2]), c));
            } else {
                assert(spans_disjoint(cover_span(pre.live@[j1]), c));
            }
        }
        assert forall|j: int, i2: int, k: int|
            0 <= j < self.live@.len() && 0 <= i2 < BLOCK_SIZE_COUNT && 0 <= k
                < self.list_heads@[i2]@.len() implies spans_disjoint(
            cover_span(#[trigger] self.live@[j]),
            block_span(#[trigger] self.list_heads@[i2]@[k] as int, i2),
        ) by {
            if j < self.live@.len() - 1 {
                assert(spans_disjoint(
                    cover_span(pre.live@[j]),
                    block_span(pre.list_heads@[i2]@[k] as int, i2),
                ));
            } else {
                assert(spans_disjoint(
                    block_span(self.list_heads@[i2]@[k] as int, i2),
                    c,
                ));
            }
        }
    }

    /// Returns a span obtained from `allocate`.  When a size class applies
    /// (the same class the allocation came from, since the class depends
    /// only on size and alignment), the whole block is pushed onto that
    /// class's free list in O(1); the fallback allocator's bookkeeping is
    /// never touched.  When no class applies, the span goes back to the
    /// fallback allocator, which merges it with adjacent free regions.
    #[verifier::rlimit(100)]
    pub fn deallocate(&mut self, ptr: usize, size: usize, align: usize)
        requires
            old(self).wf(),
            old(self).live@.contains((ptr as int, size as int, align as int)),
        ensures
            final(self).wf(),
            final(self).fallback_allocator.heap_start == old(self).fallback_allocator.heap_start,
            final(self).fallback_allocator.heap_end == old(self).fallback_allocator.heap_end,
            exists|j: int|
                0 <= j < old(self).live@.len() && old(self).live@[j] == (
                ptr as int,
                size as int,
                align as int,
                ) && final(self).live@ == old(self).live@.remove(j),
            (match list_index_spec(size as int, align as int) {
                Some(i) => final(self).list_heads@[i]@ == old(self).list_heads@[i]@.push(ptr) && (
                forall|i2: int|
                    0 <= i2 < BLOCK_SIZE_COUNT && i2 != i
                        ==> (#[trigger] final(self).list_heads@[i2])@
                        == old(self).list_heads@[i2]@) && final(self).fallback_allocator
                    == old(self).fallback_allocator,
                None => final(self).list_heads@ == old(self).list_heads@ && crate::allocator::linked_list::freed(
                    final(self).fallback_allocator.regions@,
                    old(self).fallback_allocator.regions@,
                    ptr as int,
                    ptr + size,
                ),
            }),
    {
        let ghost e = (ptr as int, size as int, align as int);
        let ghost j = choose|j: int| 0 <= j < self.live@.len() && self.live@[j] == e;
        self.live = Ghost(self.live@.remove(j));
        match list_index(size, align) {
            Some(index) => {
                self.list_heads[index].push(ptr);
                proof {
                    self.lemma_class_free(*old(self), j, ptr, size, align, index as int);
                }
            },
            None => {
                proof {
                    assert(entry_wf(old(self).live@[j], old(self).fallback_allocator.live@));
                    assert(cover_span(e) == (ptr as int, size as int));
                }
                self.fallback_allocator.deallocate(ptr, size, align);
                proof {
                    self.lemma_fallback_free(*old(self), j, ptr, size, align);
                }
            },
        }
    }

    /// Pushing a freed block onto its class list preserves the invariant:
    /// the block is the live allocation's cover span, which nothing else
    /// overlaps.
    #[verifier::rlimit(100)]
    proof fn lemma_class_free(
        self,
        pre: FixedSizeBlockAllocator,
        j: int,
        ptr: usize,
        size: usize,
        align: usize,
        i: int,
    )
        requires
            pre.wf(),
            0 <= j < pre.live@.len(),
            pre.live@[j] == (ptr as int, size as int, align as int),
            list_index_spec(size as int, align as int) == Some(i),
            0 <= i < BLOCK_SIZE_COUNT,
            self.fallback_allocator == pre.fallback_allocator,
            self.list_heads@ == pre.list_heads@.update(i, self.list_heads@[i]),
            self.list_heads@[i]@ == pre.list_heads@[i]@.push(ptr),
            self.live@ == pre.live@.remove(j),
        ensures
            self.wf(),
    {
        let flive = pre.fallback_allocator.live@;
        let e = (ptr as int, size as int, align as int);
        let kl = self.list_heads@[i]@.len() - 1;
        assert(entry_wf(pre.live@[j], flive));
        assert(cover_span(e) == block_span(ptr as int, i));
        assert forall|i2: int, k: int|
            0 <= i2 < BLOCK_SIZE_COUNT && 0 <= k < self.list_heads@[i2]@.len() implies block_wf(
            #[trigger] self.list_heads@[i2]@[k],
            i2,
            flive,
        ) by {
            if i2 == i && k == kl {
                assert(self.list_heads@[i2]@[k] == ptr);
            } else {
                assert(self.list_heads@[i2]@[k] == pre.list_heads@[i2]@[k]);
            }
        }
        assert forall|j2: int| 0 <= j2 < self.live@.len() implies entry_wf(
            #[trigger] self.live@[j2],
            flive,
        ) by {
            let j0 = if j2 < j {
                j2
            } else {
                j2 + 1
            };
            assert(self.live@[j2] == pre.live@[j0]);
        }
        assert forall|j1: int, j2: int|
            0 <= j1 < self.live@.len() && 0 <= j2 < self.live@.len() && j1 != j2 implies spans_disjoint(
            cover_span(#[trigger] self.live@[j1]),
            cover_span(#[trigger] self.live@[j2]),
        ) by {
            let a = if j1 < j {
                j1
            } else {
                j1 + 1
            };
            let b = if j2 < j {
                j2
            } else {
                j2 + 1
            };
            assert(spans_disjoint(cover_span(pre.live@[a]), cover_span(pre.live@[b])));
        }
        assert forall|i1: int, k1: int, i2: int, k2: int|
            0 <= i1 < BLOCK_SIZE_COUNT && 0 <= k1 < self.list_heads@[i1]@.len() && 0 <= i2
                < BLOCK_SIZE_COUNT && 0 <= k2 < self.list_heads@[i2]@.len() && (i1 != i2 || k1
                != k2) implies spans_disjoint(
            block_span(#[trigger] self.list_heads@[i1]@[k1] as int, i1),
            block_span(#[trigger] self.list_heads@[i2]@[k2] as int, i2),
        ) by {
            if i1 == i && k1 == kl {
                assert(self.list_heads@[i2]@[k2] == pre.list_heads@[i2]@[k2]);
                assert(spans_disjoint(
                    cover_span(pre.live@[j]),
                    block_span(pre.list_heads@[i2]@[k2] as int, i2),
                ));
            } else if i2 == i && k2 == kl {
                assert(self.list_heads@[i1]@[k1] == pre.list_heads@[i1]@[k1]);
                assert(spans_disjoint(
                    cover_span(pre.live@[j]),
                    block_span(pre.list_heads@[i1]@[k1] as int, i1),
                ));
            } else {
                assert(self.list_heads@[i1]@[k1] == pre.list_heads@[i1]@[k1]);
                assert(self.list_heads@[i2]@[k2] == pre.list_heads@[i2]@[k2]);
            }
        }
        assert forall|j2: int, i2: int, k: int|
            0 <= j2 < self.live@.len() && 0 <= i2 < BLOCK_SIZE_COUNT && 0 <= k
                < self.list_heads@[i2]@.len() implies spans_disjoint(
            cover_span(#[trigger] self.live@[j2]),
            block_span(#[trigger] self.list_heads@[i2]@[k] as int, i2),
        ) by {
            let j0 = if j2 < j {
                j2
            } else {
                j2 + 1
            };
            assert(self.live@[j2] == pre.live@[j0]);
            if i2 == i && k == kl {
                assert(spans_disjoint(cover_span(pre.live@[j0]), cover_span(pre.live@[j])));
            } else {
                assert(self.list_heads@[i2]@[k] == pre.list_heads@[i2]@[k]);
                assert(spans_disjoint(
                    cover_span(pre.live@[j0]),
                    block_span(pre.list_heads@[i2]@[k] as int, i2),
                ));
            }
        }
    }

    /// Handing an oversize span back to the fallback allocator removes its
    /// record there; every other cover span and free block keeps its
    /// record, so the invariant is preserved.
    #[verifier::rlimit(100)]
    proof fn lemma_fallback_free(
        self,
        pre: FixedSizeBlockAllocator,
        j: int,
        ptr: usize,
        size: usize,
        align: usize,
    )
        requires
            pre.wf(),
            0 <= j < pre.live@.len(),
            pre.live@[j] == (ptr as int, size as int, align as int),
            list_index_spec(size as int, align as int).is_none(),
            self.list_heads@ == pre.list_heads@,
            self.live@ == pre.live@.remove(j),
            self.fallback_allocator.wf(),
            exists|fi: int|
                0 <= fi < pre.fallback_allocator.live@.len() && pre.fallback_allocator.live@[fi]
                    == (ptr as int, size as int) && self.fallback_allocator.live@
                    == pre.fallback_allocator.live@.remove(fi),
        ensures
            self.wf(),
    {
        let flive0 = pre.fallback_allocator.live@;
        let flive1 = self.fallback_allocator.live@;
        let e = (ptr as int, size as int, align as int);
        let c = (ptr as int, size as int);
        assert(entry_wf(pre.live@[j], flive0));
        assert(cover_span(e) == c);
        let fi = choose|fi: int|
            0 <= fi < flive0.len() && flive0[fi] == c && flive1 == flive0.remove(fi);
        assert forall|i2: int, k: int|
            0 <= i2 < BLOCK_SIZE_COUNT && 0 <= k < self.list_heads@[i2]@.len() implies block_wf(
            #[trigger] self.list_heads@[i2]@[k],
            i2,
            flive1,
        ) by {
            assert(block_wf(pre.list_heads@[i2]@[k], i2, flive0));
            assert(spans_disjoint(
                cover_span(pre.live@[j]),
                block_span(pre.list_heads@[i2]@[k] as int, i2),
            ));
            crate::allocator::lemma_contains_after_remove(
                flive0,
                block_span(pre.list_heads@[i2]@[k] as int, i2),
                fi,
            );
        }
        assert forall|j2: int| 0 <= j2 < self.live@.len() implies entry_wf(
            #[trigger] self.live@[j2],
            flive1,
        ) by {
            let j0 = if j2 < j {
                j2
            } else {
                j2 + 1
            };
            assert(self.live@[j2] == pre.live@[j0]);
            assert(entry_wf(pre.live@[j0], flive0));
            assert(spans_disjoint(cover_span(pre.live@[j0]), cover_span(pre.live@[j])));
            crate::allocator::lemma_contains_after_remove(
                flive0,
                cover_span(pre.live@[j0]),
                fi,
            );
        }
        assert forall|j1: int, j2: int|
            0 <= j1 < self.live@.len() && 0 <= j2 < self.live@.len() && j1 != j2 implies spans_disjoint(
            cover_span(#[trigger] self.live@[j1]),
            cover_span(#[trigger] self.live@[j2]),
        ) by {
            let a = if j1 < j {
                j1
            } else {
                j1 + 1
            };
            let b = if j2 < j {
                j2
            } else {
                j2 + 1
            };
            assert(spans_disjoint(cover_span(pre.live@[a]), cover_span(pre.live@[b])));
        }
        assert forall|j2: int, i2: int, k: int|
            0 <= j2 < self.live@.len() && 0 <= i2 < BLOCK_SIZE_COUNT && 0 <= k
                < self.list_heads@[i2]@.len() implies spans_disjoint(
            cover_span(#[trigger] self.live@[j2]),
            block_span(#[trigger] self.list_heads@[i2]@[k] as int, i2),
        ) by {
            let j0 = if j2 < j {
                j2
            } else {
                j2 + 1
            };
            assert(self.live@[j2] == pre.live@[j0]);
            assert(spans_disjoint(
                cover_span(pre.live@[j0]),
                block_span(pre.list_heads@[i2]@[k] as int, i2),
            ));
        }
    }

    /// Initializes the allocator with the given heap bounds by initializing
    /// the fallback allocator over them.  The region must be unused, and
    /// this must be done exactly once before the allocator serves requests.
    pub fn init(&mut self, heap_start: usize, heap_size: usize)
        requires
            old(self).wf(),
            old(self).live@.len() == 0,
            forall|i: int|
                0 <= i < BLOCK_SIZE_COUNT ==> (#[trigger] old(self).list_heads@[i])@.len() == 0,
            old(self).fallback_allocator.live@.len() == 0,
            old(self).fallback_allocator.regions@.len() == 0,
            heap_start + heap_size <= usize::MAX,
        ensures
            final(self).wf(),
            final(self).fallback_allocator.heap_start == heap_start,
            final(self).fallback_allocator.heap_end == heap_start + heap_size,
            final(self).live@ == old(self).live@,
            final(self).list_heads@ == old(self).list_heads@,
            heap_size >= 1 ==> final(self).fallback_allocator.regions@.len() == 1
                && crate::allocator::linked_list::region_span(
                final(self).fallback_allocator.regions@[0],
            ) == (heap_start as int, heap_size as int),
            heap_size == 0 ==> final(self).fallback_allocator.regions@.len() == 0,
            heap_size >= 1 ==> has_fit(
                final(self).fallback_allocator.regions@,
                heap_size as int,
                1,
            ),
    {
        self.fallback_allocator.init(heap_start, heap_size);
        proof {
            if heap_size >= 1 {
                crate::allocator::lemma_align_up_properties(heap_start as int, 1);
                assert(crate::allocator::linked_list::region_fits(
                    self.fallback_allocator.regions@[0],
                    heap_size as int,
                    1,
                ));
            }
        }
    }
}

/// Reuse: freeing a block of a size class and then requesting the same
/// size and alignment again, with nothing else freed or taken from that
/// class in between, returns the very same address.  `deallocate`'s
/// contract pushes the block onto its class list, and `allocate`'s
/// contract pops and returns the last block of that list.
pub proof fn lemma_class_reuse(
    pre: FixedSizeBlockAllocator,
    mid: FixedSizeBlockAllocator,
    ptr: usize,
    size: usize,
    align: usize,
    i: int,
)
    requires
        list_index_spec(size as int, align as int) == Some(i),
        0 <= i < BLOCK_SIZE_COUNT,
        mid.list_heads@.len() == BLOCK_SIZE_COUNT,
        // `mid` is the state right after `pre.deallocate(ptr, size, align)`
        mid.list_heads@[i]@ == pre.list_heads@[i]@.push(ptr),
    ensures
        // so `allocate(size, align)` from `mid` takes the class-hit path
        // and, by its contract, returns `Some(ptr)`
        mid.list_heads@[i]@.len() > 0,
        mid.list_heads@[i]@.last() == ptr,
{
}

/// Exhaustion: a request for more bytes than the whole heap region holds
/// cannot be served on any path — if a class applies, its free list must
/// be empty (every listed block lies inside the heap and would be at least
/// as large as the request) and no fallback region fits a block, and
/// without a class no fallback region fits the raw request — so by
/// `allocate`'s success condition the request yields `None`, never a wild
/// pointer.
pub proof fn lemma_oversize_request_fails(
    a: FixedSizeBlockAllocator,
    size: int,
    align: int,
)
    requires
        a.wf(),
        align >= 1,
        size > a.fallback_allocator.heap_end - a.fallback_allocator.heap_start,
    ensures
        (match list_index_spec(size, align) {
            Some(i) => a.list_heads@[i]@.len() == 0 && !has_fit(
                a.fallback_allocator.regions@,
                block_size_spec(i),
                block_size_spec(i),
            ),
            None => !has_fit(a.fallback_allocator.regions@, size, align),
        }),
{
    let hs = a.fallback_allocator.heap_start as int;
    let he = a.fallback_allocator.heap_end as int;
    match list_index_spec(size, align) {
        Some(i) => {
            let bs = block_size_spec(i);
            assert(bs >= size);
            if a.list_heads@[i]@.len() > 0 {
                assert(block_wf(a.list_heads@[i]@[0], i, a.fallback_allocator.live@));
                let b = a.list_heads@[i]@[0] as int;
                let w = choose|w: int|
                    0 <= w < a.fallback_allocator.live@.len() && a.fallback_allocator.live@[w]
                        == block_span(b, i);
                assert(span_in_range(a.fallback_allocator.live@[w], hs, he));
                assert(false);
            }
            crate::allocator::linked_list::lemma_oversize_fails(a.fallback_allocator, bs, bs);
        },
        None => {
            crate::allocator::linked_list::lemma_oversize_fails(a.fallback_allocator, size, align);
        },
    }
}

/// An address aligned to a class's block size is aligned to any power of
/// two the class accepts as an alignment.
pub proof fn lemma_block_alignment(p: int, size: int, align: int, i: int)
    requires
        p >= 0,
        size >= 1,
        is_pow2(align),
        list_index_spec(size, align) == Some(i),
        p % block_size_spec(i) == 0,
    ensures
        p % align == 0,
{
    lemma_block_size_pow2(i);
    lemma_pow2_at_least_one(align);
    lemma_pow2_divides(align, block_size_spec(i));
    lemma_divides_transitive(p, align, block_size_spec(i));
}

} // verus!
