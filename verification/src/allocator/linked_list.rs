//! Coalescing free-list allocator: keeps the free part of the heap as an
//! address-ordered list of disjoint, non-adjacent regions, serves requests
//! first-fit (re-inserting any front or trailing slack of the chosen region),
//! and merges a returned span eagerly with its address-adjacent neighbours.
//! It stands alone as a strategy and also backs the fixed-size-block
//! allocator's fallback path.

use vstd::prelude::*;

use crate::allocator::align_up_spec;
use crate::allocator::disjoint_from_all;
use crate::allocator::lemma_align_up_properties;
use crate::allocator::lemma_pow2_at_least_one;
use crate::allocator::pairwise_disjoint;
use crate::allocator::span_in_range;
use crate::allocator::spans_disjoint;

verus! {

use vstd::arithmetic::power2::is_pow2;

/// A free region of the heap: `size` bytes starting at address `start`.
#[derive(Clone, Copy)]
pub struct Region {
    pub start: usize,
    pub size: usize,
}

/// The byte span a region covers.
pub open spec fn region_span(r: Region) -> (int, int) {
    (r.start as int, r.size as int)
}

/// The request (`size`, `align`) can be carved out of region `r`: the first
/// `align`-aligned address at or after the region's start leaves at least
/// `size` bytes before the region's end.
pub open spec fn region_fits(r: Region, size: int, align: int) -> bool {
    align_up_spec(r.start as int, align) + size <= r.start + r.size
}

/// Some region of `s` can serve the request.
pub open spec fn has_fit(s: Seq<Region>, size: int, align: int) -> bool {
    exists|i: int| 0 <= i < s.len() && region_fits(#[trigger] s[i], size, align)
}

/// Region `i` is the first of `s` (in address order, which is list order)
/// that can serve the request.
pub open spec fn first_fit_at(s: Seq<Region>, i: int, size: int, align: int) -> bool {
    &&& 0 <= i < s.len()
    &&& region_fits(s[i], size, align)
    &&& forall|j: int| 0 <= j < i ==> !region_fits(#[trigger] s[j], size, align)
}

/// Regions are in strictly ascending address order and no two are adjacent:
/// between any two there is at least one byte that belongs to neither
/// (adjacent free regions are always merged on insertion).
pub open spec fn regions_sorted(s: Seq<Region>) -> bool {
    forall|i: int, j: int|
        0 <= i < j < s.len() ==> (#[trigger] s[i]).start + s[i].size < (#[trigger] s[j]).start
}

/// Address `a` lies in some region of `s`.
pub open spec fn covered(s: Seq<Region>, a: int) -> bool {
    exists|i: int| 0 <= i < s.len() && (#[trigger] s[i]).start <= a < s[i].start + s[i].size
}

/// The free bytes of `s1` are exactly the free bytes of `s0` minus the
/// span of `size` bytes at `p`: allocation carves that span out and keeps
/// every other free byte.
pub open spec fn carved(s1: Seq<Region>, s0: Seq<Region>, p: int, size: int) -> bool {
    forall|a: int| covered(s1, a) <==> covered(s0, a) && !(p <= a < p + size)
}

/// The free bytes of `s1` are exactly the free bytes of `s0` plus the span
/// of `pend - ptr` bytes at `ptr`: deallocation gives that span back and
/// keeps every other free byte.
pub open spec fn freed(s1: Seq<Region>, s0: Seq<Region>, ptr: int, pend: int) -> bool {
    forall|a: int| covered(s1, a) <==> covered(s0, a) || (ptr <= a < pend)
}

/// Free-list allocator state.  `regions` is the explicit free list; `live`
/// is the ghost record of the spans handed out and not yet returned.
pub struct LinkedListAllocator {
    pub heap_start: usize,
    pub heap_end: usize,
    pub regions: Vec<Region>,
    pub live: Ghost<Seq<(int, int)>>,
}

impl LinkedListAllocator {
    /// Invariant: free regions are non-empty spans inside the heap, kept in
    /// ascending address order with no two adjacent; live spans are
    /// non-empty spans inside the heap, never overlap one another, and
    /// never overlap any free region.
    pub open spec fn wf(self) -> bool {
        &&& self.heap_start <= self.heap_end
        &&& (forall|i: int|
            0 <= i < self.regions@.len() ==> span_in_range(
                region_span(#[trigger] self.regions@[i]),
                self.heap_start as int,
                self.heap_end as int,
            ))
        &&& regions_sorted(self.regions@)
        &&& (forall|i: int|
            0 <= i < self.live@.len() ==> span_in_range(
                #[trigger] self.live@[i],
                self.heap_start as int,
                self.heap_end as int,
            ))
        &&& pairwise_disjoint(self.live@)
        &&& (forall|i: int, j: int|
            0 <= i < self.live@.len() && 0 <= j < self.regions@.len() ==> spans_disjoint(
                #[trigger] self.live@[i],
                region_span(#[trigger] self.regions@[j]),
            ))
    }

    /// Creates an empty allocator covering no memory.
    pub fn new() -> (r: LinkedListAllocator)
        ensures
            r.wf(),
            r.heap_start == 0,
            r.heap_end == 0,
            r.regions@.len() == 0,
            r.live@ == Seq::<(int, int)>::empty(),
    {
        LinkedListAllocator {
            heap_start: 0,
            heap_end: 0,
            regions: Vec::new(),
            live: Ghost(Seq::empty()),
        }
    }

    /// Initializes the allocator with the given heap bounds: the whole
    /// region `[heap_start, heap_start + heap_size)` becomes one free
    /// region.  The region must be unused, and this must be done exactly
    /// once before the allocator serves requests.
    pub fn init(&mut self, heap_start: usize, heap_size: usize)
        requires
            old(self).live@.len() == 0,
            old(self).regions@.len() == 0,
            heap_start + heap_size <= usize::MAX,
        ensures
            final(self).wf(),
            final(self).heap_start == heap_start,
            final(self).heap_end == heap_start + heap_size,
            final(self).live@ == Seq::<(int, int)>::empty(),
            heap_size >= 1 ==> final(self).regions@.len() == 1
                && region_span(final(self).regions@[0]) == (heap_start as int, heap_size as int),
            heap_size == 0 ==> final(self).regions@.len() == 0,
    {
        self.heap_start = heap_start;
        self.heap_end = heap_start + heap_size;
        if heap_size >= 1 {
            self.regions.push(Region { start: heap_start, size: heap_size });
        }
        proof {
            assert(self.live@ =~= Seq::<(int, int)>::empty());
        }
    }

    /// Index and aligned start address of the first region that can serve
    /// the request, if any region can.
    #[verifier::loop_isolation(false)]
    fn find_first_fit(&self, size: usize, align: usize) -> (r: Option<(usize, usize)>)
        requires
            self.wf(),
            size >= 1,
            align >= 1,
        ensures
            r.is_some() <==> has_fit(self.regions@, size as int, align as int),
            r.is_some() ==> first_fit_at(
                self.regions@,
                r.unwrap().0 as int,
                size as int,
                align as int,
            ),
            r.is_some() ==> r.unwrap().1 == align_up_spec(
                self.regions@[r.unwrap().0 as int].start as int,
                align as int,
            ),
    {
        let n: usize = self.regions.len();
        let mut idx: usize = 0;
        while idx < n
            invariant
                0 <= idx <= n,
                forall|j: int|
                    0 <= j < idx ==> !region_fits(
                        #[trigger] self.regions@[j],
                        size as int,
                        align as int,
                    ),
            decreases n - idx,
        {
            let reg = self.regions[idx];
            proof {
                lemma_align_up_properties(reg.start as int, align as int);
            }
            let rend: usize = reg.start + reg.size;
            let rem: usize = reg.start % align;
            if rem == 0 {
                if size <= rend - reg.start {
                    return Some((idx, reg.start));
                }
            } else {
                let pad: usize = align - rem;
                if pad <= usize::MAX - reg.start {
                    let astart: usize = reg.start + pad;
                    if astart <= rend && size <= rend - astart {
                        return Some((idx, astart));
                    }
                }
            }
            idx = idx + 1;
        }
        None
    }

    /// Serves an allocation request first-fit: walks the free list in
    /// address order, carves the span out of the first region that can hold
    /// it, and re-inserts any unused front slack (from alignment) or
    /// trailing slack of that region as free regions of their own.  Fails
    /// exactly when no free region can serve the request.  A returned span
    /// is aligned, lies inside the heap, and overlaps neither a live
    /// allocation nor any remaining free region.
    pub fn allocate(&mut self, size: usize, align: usize) -> (r: Option<usize>)
        requires
            old(self).wf(),
            size >= 1,
            is_pow2(align as int),
        ensures
            final(self).wf(),
            final(self).heap_start == old(self).heap_start,
            final(self).heap_end == old(self).heap_end,
            r.is_some() <==> has_fit(old(self).regions@, size as int, align as int),
            r.is_some() ==> exists|i: int|
                first_fit_at(old(self).regions@, i, size as int, align as int) && r.unwrap()
                    == align_up_spec(old(self).regions@[i].start as int, align as int),
            r.is_some() ==> r.unwrap() as int % align as int == 0,
            r.is_some() ==> span_in_range(
                (r.unwrap() as int, size as int),
                old(self).heap_start as int,
                old(self).heap_end as int,
            ),
            r.is_some() ==> disjoint_from_all(old(self).live@, (r.unwrap() as int, size as int)),
            r.is_some() ==> final(self).live@ == old(self).live@.push(
                (r.unwrap() as int, size as int),
            ),
            r.is_some() ==> carved(
                final(self).regions@,
                old(self).regions@,
                r.unwrap() as int,
                size as int,
            ),
            r.is_none() ==> *final(self) == *old(self),
    {
        proof {
            lemma_pow2_at_least_one(align as int);
        }
        match self.find_first_fit(size, align) {
            None => None,
            Some((idx, astart)) => {
                let ghost s0 = self.regions@;
                let reg = self.regions[idx];
                proof {
                    lemma_align_up_properties(reg.start as int, align as int);
                }
                let rend: usize = reg.start + reg.size;
                let aend: usize = astart + size;
                let front: usize = astart - reg.start;
                let back: usize = rend - aend;
                self.regions.remove(idx);
                if back > 0 {
                    self.regions.insert(idx, Region { start: aend, size: back });
                }
                if front > 0 {
                    self.regions.insert(idx, Region { start: reg.start, size: front });
                }
                self.live = Ghost(self.live@.push((astart as int, size as int)));
                proof {
                    self.lemma_allocate_restores_wf(s0, idx as int, astart as int, size as int);
                }
                Some(astart)
            },
        }
    }

    /// Returns a span obtained from `allocate`: the span goes back into the
    /// free list at its address position and is merged with the preceding
    /// and/or following free region whenever they are exactly adjacent
    /// (eager coalescing), so no two adjacent free regions ever survive.
    #[verifier::loop_isolation(false)]
    #[verifier::rlimit(100)]
    pub fn deallocate(&mut self, ptr: usize, size: usize, _align: usize)
        requires
            old(self).wf(),
            old(self).live@.contains((ptr as int, size as int)),
        ensures
            final(self).wf(),
            final(self).heap_start == old(self).heap_start,
            final(self).heap_end == old(self).heap_end,
            exists|i: int|
                0 <= i < old(self).live@.len() && old(self).live@[i] == (ptr as int, size as int)
                    && final(self).live@ == old(self).live@.remove(i),
            freed(final(self).regions@, old(self).regions@, ptr as int, (ptr + size) as int),
    {
        let ghost li = choose|j: int|
            0 <= j < self.live@.len() && self.live@[j] == (ptr as int, size as int);
        self.live = Ghost(self.live@.remove(li));
        let ghost s0 = self.regions@;
        proof {
            assert(span_in_range((ptr as int, size as int), self.heap_start as int, self.heap_end as int));
            assert forall|j: int| 0 <= j < s0.len() implies spans_disjoint(
                (ptr as int, size as int),
                region_span(#[trigger] s0[j]),
            ) by {
                assert(spans_disjoint(old(self).live@[li], region_span(s0[j])));
            }
            assert forall|i: int| 0 <= i < self.live@.len() implies span_in_range(
                #[trigger] self.live@[i],
                self.heap_start as int,
                self.heap_end as int,
            ) && spans_disjoint(self.live@[i], (ptr as int, size as int)) by {
                if i < li {
                    assert(self.live@[i] == old(self).live@[i]);
                    assert(spans_disjoint(old(self).live@[i], old(self).live@[li]));
                } else {
                    assert(self.live@[i] == old(self).live@[i + 1]);
                    assert(spans_disjoint(old(self).live@[i + 1], old(self).live@[li]));
                }
            }
            assert forall|i: int, j: int|
                0 <= i < self.live@.len() && 0 <= j < self.live@.len() && i != j implies spans_disjoint(
                #[trigger] self.live@[i],
                #[trigger] self.live@[j],
            ) by {
                let i0 = if i < li { i } else { i + 1 };
                let j0 = if j < li { j } else { j + 1 };
                assert(spans_disjoint(old(self).live@[i0], old(self).live@[j0]));
            }
            assert forall|i: int, j: int|
                0 <= i < self.live@.len() && 0 <= j < s0.len() implies spans_disjoint(
                #[trigger] self.live@[i],
                region_span(#[trigger] s0[j]),
            ) by {
                let i0 = if i < li { i } else { i + 1 };
                assert(spans_disjoint(old(self).live@[i0], region_span(s0[j])));
            }
        }
        let pend: usize = ptr + size;
        let n: usize = self.regions.len();
        let mut idx: usize = 0;
        while idx < n && self.regions[idx].start < ptr
            invariant
                0 <= idx <= n,
                forall|j: int| 0 <= j < idx ==> (#[trigger] self.regions@[j]).start < ptr as int,
            decreases n - idx,
        {
            idx = idx + 1;
        }
        proof {
            assert forall|j: int| 0 <= j < idx implies (#[trigger] s0[j]).start + s0[j].size
                <= ptr as int by {
                assert(spans_disjoint((ptr as int, size as int), region_span(s0[j])));
            }
            assert forall|j: int| idx <= j < s0.len() implies ptr + size
                <= (#[trigger] s0[j]).start by {
                if j == idx {
                    assert(spans_disjoint((ptr as int, size as int), region_span(s0[j])));
                } else {
                    assert(spans_disjoint((ptr as int, size as int), region_span(s0[idx as int])));
                    assert(s0[idx as int].start + s0[idx as int].size < s0[j].start);
                }
            }
        }
        let mut merge_prev = false;
        if idx > 0 {
            let p = self.regions[idx - 1];
            if p.start + p.size == ptr {
                merge_prev = true;
            }
        }
        let mut merge_next = false;
        if idx < n {
            if self.regions[idx].start == pend {
                merge_next = true;
            }
        }
        proof {
            if !merge_prev {
                assert forall|j: int| 0 <= j < idx implies (#[trigger] s0[j]).start + s0[j].size
                    < ptr as int by {
                    if j < idx - 1 {
                        assert(s0[j].start + s0[j].size < s0[idx - 1].start);
                    }
                }
            }
            if !merge_next {
                assert forall|j: int| idx <= j < s0.len() implies pend
                    < (#[trigger] s0[j]).start by {
                    if j > idx {
                        assert(s0[idx as int].start + s0[idx as int].size < s0[j].start);
                    }
                }
            }
        }
        if merge_prev && merge_next {
            let p = self.regions[idx - 1];
            let nx = self.regions[idx];
            self.regions[idx - 1] = Region { start: p.start, size: p.size + size + nx.size };
            self.regions.remove(idx);
            proof {
                let mend = s0[idx as int].start + s0[idx as int].size;
                assert(self.regions@ =~= merged_shape(s0, idx as int, idx - 1,
                    s0[idx - 1].start as int, mend, pend as int));
                self.lemma_merged_covered(s0, idx as int, idx - 1, s0[idx - 1].start as int, mend,
                    ptr as int, pend as int);
            }
        } else if merge_prev {
            let p = self.regions[idx - 1];
            self.regions[idx - 1] = Region { start: p.start, size: p.size + size };
            proof {
                assert(self.regions@ =~= merged_shape(s0, idx as int, idx - 1,
                    s0[idx - 1].start as int, pend as int, pend as int));
                self.lemma_merged_covered(s0, idx as int, idx - 1, s0[idx - 1].start as int,
                    pend as int, ptr as int, pend as int);
            }
        } else if merge_next {
            let nx = self.regions[idx];
            self.regions[idx] = Region { start: ptr, size: size + nx.size };
            proof {
                let mend = s0[idx as int].start + s0[idx as int].size;
                assert(self.regions@ =~= merged_shape(s0, idx as int, idx as int, ptr as int, mend,
                    pend as int));
                self.lemma_merged_covered(s0, idx as int, idx as int, ptr as int, mend, ptr as int,
                    pend as int);
            }
        } else {
            self.regions.insert(idx, Region { start: ptr, size: size });
            proof {
                assert(self.regions@ =~= merged_shape(s0, idx as int, idx as int, ptr as int,
                    pend as int, pend as int));
                self.lemma_merged_covered(s0, idx as int, idx as int, ptr as int, pend as int,
                    ptr as int, pend as int);
            }
        }
        proof {
            assert(freed(self.regions@, s0, ptr as int, pend as int));
        }
    }

    /// After inserting the freed span and coalescing, the free list is the
    /// old one with the regions touching the span fused into one region
    /// `[mstart, mend)`, and the free bytes grow by exactly the span.
    #[verifier::rlimit(100)]
    proof fn lemma_merged_covered(
        self,
        s0: Seq<Region>,
        idx: int,
        mpos: int,
        mstart: int,
        mend: int,
        ptr: int,
        pend: int,
    )
        requires
            self.heap_start <= self.heap_end,
            0 <= idx <= s0.len(),
            forall|i: int|
                0 <= i < s0.len() ==> span_in_range(
                    region_span(#[trigger] s0[i]),
                    self.heap_start as int,
                    self.heap_end as int,
                ),
            regions_sorted(s0),
            ptr < pend,
            self.heap_start <= ptr,
            pend <= self.heap_end,
            mstart <= ptr,
            pend <= mend,
            forall|j: int| 0 <= j < idx ==> (#[trigger] s0[j]).start + s0[j].size <= ptr,
            forall|j: int| idx <= j < s0.len() ==> pend <= (#[trigger] s0[j]).start,
            // the merged region fuses the adjacent neighbours, if any
            0 <= mpos,
            mpos == idx || mpos == idx - 1,
            mpos == idx - 1 ==> s0[idx - 1].start + s0[idx - 1].size == ptr && mstart == s0[idx
                - 1].start,
            mpos == idx ==> mstart == ptr && (forall|j: int|
                0 <= j < idx ==> (#[trigger] s0[j]).start + s0[j].size < ptr),
            mend == pend ==> (forall|j: int| idx <= j < s0.len() ==> pend < (#[trigger] s0[j]).start),
            mend > pend ==> idx < s0.len() && s0[idx].start == pend && mend == s0[idx].start
                + s0[idx].size,
            // how the exec code reshaped the list
            self.regions@ == merged_shape(s0, idx, mpos, mstart, mend, pend),
            // live spans already exclude the freed one and avoid old regions and the span
            forall|i: int|
                0 <= i < self.live@.len() ==> span_in_range(
                    #[trigger] self.live@[i],
                    self.heap_start as int,
                    self.heap_end as int,
                ),
            pairwise_disjoint(self.live@),
            forall|i: int, j: int|
                0 <= i < self.live@.len() && 0 <= j < s0.len() ==> spans_disjoint(
                    #[trigger] self.live@[i],
                    region_span(#[trigger] s0[j]),
                ),
            forall|i: int|
                0 <= i < self.live@.len() ==> spans_disjoint(#[trigger] self.live@[i], (ptr, pend - ptr)),
        ensures
            self.wf(),
            freed(self.regions@, s0, ptr, pend),
    {
        let s1 = self.regions@;
        let hi = if mend > pend { idx + 1 } else { idx };
        // characterise s1 element by element
        assert(s1.len() == s0.len() - (hi - mpos) + 1);
        assert forall|k: int| 0 <= k < s1.len() implies (if k < mpos {
            s1[k] == s0[k]
        } else if k == mpos {
            s1[k] == Region { start: mstart as usize, size: (mend - mstart) as usize }
        } else {
            s1[k] == s0[k + (hi - mpos) - 1]
        }) by {}
        assert(mstart <= ptr && pend <= mend);
        assert(self.heap_start <= mstart && mend <= self.heap_end);
        assert forall|a: int| mstart <= a < mend implies covered(s0, a) || (ptr <= a < pend) by {
            if a < ptr {
                assert(mpos == idx - 1);
                assert(s0[idx - 1].start <= a < s0[idx - 1].start + s0[idx - 1].size);
            } else if a >= pend {
                assert(mend > pend);
                assert(s0[idx].start <= a < s0[idx].start + s0[idx].size);
            }
        }
        assert(self.wf()) by {
            assert forall|i: int, j: int| 0 <= i < j < s1.len() implies (#[trigger] s1[i]).start
                + s1[i].size < (#[trigger] s1[j]).start by {
                if i < mpos && j == mpos {
                    assert(s0[i].start + s0[i].size <= ptr);
                    if mpos == idx - 1 {
                        assert(s0[i].start + s0[i].size < s0[idx - 1].start);
                    }
                } else if i == mpos && j > mpos {
                    assert(pend <= s0[j + (hi - mpos) - 1].start);
                    if mend > pend {
                        assert(s0[idx].start + s0[idx].size < s0[j + (hi - mpos) - 1].start);
                    }
                }
            }
            assert forall|i: int, j: int|
                0 <= i < self.live@.len() && 0 <= j < s1.len() implies spans_disjoint(
                #[trigger] self.live@[i],
                region_span(#[trigger] s1[j]),
            ) by {
                if j == mpos {
                    let l = self.live@[i];
                    assert(spans_disjoint(l, (ptr, pend - ptr)));
                    if mpos == idx - 1 {
                        assert(spans_disjoint(l, region_span(s0[idx - 1])));
                    }
                    if mend > pend {
                        assert(spans_disjoint(l, region_span(s0[idx])));
                    }
                    assert(l.0 + l.1 <= mstart || mend <= l.0) by {
                        if !(l.0 + l.1 <= mstart) && !(mend <= l.0) {
                            assert(l.0 + l.1 > mstart && l.0 < mend);
                            assert(false);
                        }
                    }
                }
            }
        }
        assert forall|a: int| covered(s1, a) <==> covered(s0, a) || (ptr <= a < pend) by {
            if covered(s1, a) {
                let k = choose|k: int|
                    0 <= k < s1.len() && (#[trigger] s1[k]).start <= a < s1[k].start + s1[k].size;
                if k < mpos {
                    assert(s0[k].start <= a < s0[k].start + s0[k].size);
                } else if k == mpos {
                    assert(mstart <= a < mend);
                } else {
                    let k0 = k + (hi - mpos) - 1;
                    assert(s0[k0].start <= a < s0[k0].start + s0[k0].size);
                }
            }
            if ptr <= a < pend {
                assert(s1[mpos].start <= a < s1[mpos].start + s1[mpos].size);
                assert(covered(s1, a));
            }
            if covered(s0, a) {
                let k = choose|k: int|
                    0 <= k < s0.len() && (#[trigger] s0[k]).start <= a < s0[k].start + s0[k].size;
                if k < mpos {
                    assert(s1[k].start <= a < s1[k].start + s1[k].size);
                    assert(covered(s1, a));
                } else if k < hi {
                    assert(mstart <= a < mend);
                    assert(s1[mpos].start <= a < s1[mpos].start + s1[mpos].size);
                    assert(covered(s1, a));
                } else {
                    let k1 = k - (hi - mpos) + 1;
                    assert(s1[k1] == s0[k]);
                    assert(s1[k1].start <= a < s1[k1].start + s1[k1].size);
                    assert(covered(s1, a));
                }
            }
        }
    }

    /// The carving step of `allocate` preserves the invariant and removes
    /// exactly the allocated span from the free bytes.
    #[verifier::rlimit(100)]
    proof fn lemma_allocate_restores_wf(self, s0: Seq<Region>, idx: int, astart: int, size: int)
        requires
            0 <= idx < s0.len(),
            size >= 1,
            self.heap_start <= self.heap_end,
            forall|i: int|
                0 <= i < s0.len() ==> span_in_range(
                    region_span(#[trigger] s0[i]),
                    self.heap_start as int,
                    self.heap_end as int,
                ),
            regions_sorted(s0),
            s0[idx].start <= astart,
            astart + size <= s0[idx].start + s0[idx].size,
            self.live@.len() >= 1,
            self.live@.last() == (astart, size),
            forall|i: int|
                0 <= i < self.live@.len() - 1 ==> span_in_range(
                    #[trigger] self.live@[i],
                    self.heap_start as int,
                    self.heap_end as int,
                ),
            pairwise_disjoint(self.live@.drop_last()),
            forall|i: int, j: int|
                0 <= i < self.live@.len() - 1 && 0 <= j < s0.len() ==> spans_disjoint(
                    #[trigger] self.live@[i],
                    region_span(#[trigger] s0[j]),
                ),
            self.regions@ == spliced(s0, idx, astart, size),
        ensures
            self.wf(),
            disjoint_from_all(self.live@.drop_last(), (astart, size)),
            carved(self.regions@, s0, astart, size),
    {
        let s1 = self.regions@;
        let reg = s0[idx];
        let front = astart - reg.start;
        let back = reg.start as int + reg.size - (astart + size);
        let extra = (if front > 0 { 1int } else { 0 }) + (if back > 0 { 1int } else { 0 });
        assert(s1.len() == s0.len() - 1 + extra);

        // Every new region is an old region or a slice of the chosen one.
        assert forall|k: int| 0 <= k < s1.len() implies region_of_spliced(
            s0,
            idx,
            astart,
            size,
            k,
        ) by {}

        // The spans handed out never overlap a free region, so the one being
        // handed out now is disjoint from every earlier live span.
        assert forall|i: int| 0 <= i < self.live@.len() - 1 implies spans_disjoint(
            #[trigger] self.live@[i],
            (astart, size),
        ) by {
            assert(spans_disjoint(self.live@[i], region_span(s0[idx])));
        }

        assert(self.wf()) by {
            assert forall|i: int, j: int| 0 <= i < s1.len() && 0 <= j < s1.len() && i < j implies (
            s1[i]).start + s1[i].size < (s1[j]).start by {}
            assert(regions_sorted(s1));
            assert forall|i: int|
                0 <= i < self.live@.len() implies span_in_range(
                #[trigger] self.live@[i],
                self.heap_start as int,
                self.heap_end as int,
            ) by {}
            assert forall|i: int, j: int|
                0 <= i < self.live@.len() && 0 <= j < self.live@.len() && i != j implies spans_disjoint(
                #[trigger] self.live@[i],
                #[trigger] self.live@[j],
            ) by {
                let last = self.live@.len() - 1;
                if i < last && j < last {
                    assert(spans_disjoint(
                        self.live@.drop_last()[i],
                        self.live@.drop_last()[j],
                    ));
                } else if i == last {
                    assert(spans_disjoint(self.live@[j], (astart, size)));
                } else {
                    assert(spans_disjoint(self.live@[i], (astart, size)));
                }
            }
            assert(pairwise_disjoint(self.live@));
        }

        assert forall|a: int|
            covered(s1, a) <==> covered(s0, a) && !(astart <= a < astart + size) by {
            if covered(s1, a) {
                let k = choose|k: int| 0 <= k < s1.len() && (#[trigger] s1[k]).start <= a < s1[k].start
                    + s1[k].size;
                if k < idx {
                    assert(s0[k].start <= a < s0[k].start + s0[k].size);
                } else {
                    let shift = k - idx - extra + 1;
                    assert(covered(s0, a));
                }
            }
            if covered(s0, a) && !(astart <= a < astart + size) {
                let k = choose|k: int| 0 <= k < s0.len() && (#[trigger] s0[k]).start <= a < s0[k].start
                    + s0[k].size;
                if k < idx {
                    assert(s1[k].start <= a < s1[k].start + s1[k].size);
                    assert(covered(s1, a));
                } else if k > idx {
                    let k1 = k - 1 + extra;
                    assert(s1[k1].start <= a < s1[k1].start + s1[k1].size);
                    assert(covered(s1, a));
                } else {
                    if a < astart {
                        assert(front > 0);
                        assert(s1[idx].start <= a < s1[idx].start + s1[idx].size);
                        assert(covered(s1, a));
                    } else {
                        assert(a >= astart + size);
                        assert(back > 0);
                        let kb = idx + (if front > 0 { 1int } else { 0 });
                        assert(s1[kb].start <= a < s1[kb].start + s1[kb].size);
                        assert(covered(s1, a));
                    }
                }
            }
        }
    }
}

/// A contiguous run of covered addresses lies inside one single region:
/// regions are separated by at least one uncovered byte, so coverage
/// cannot straddle two of them.
pub proof fn lemma_contiguous_coverage(s: Seq<Region>, lo: int, hi: int)
    requires
        regions_sorted(s),
        lo < hi,
        forall|a: int| lo <= a < hi ==> covered(s, a),
    ensures
        exists|k: int|
            0 <= k < s.len() && (#[trigger] s[k]).start <= lo && hi <= s[k].start + s[k].size,
{
    assert(covered(s, lo));
    let k = choose|k: int| 0 <= k < s.len() && (#[trigger] s[k]).start <= lo < s[k].start + s[k].size;
    let ek = s[k].start + s[k].size;
    if ek < hi {
        assert(covered(s, ek));
        let m = choose|m: int| 0 <= m < s.len() && (#[trigger] s[m]).start <= ek < s[m].start + s[m].size;
        if m < k {
            assert(s[m].start + s[m].size < s[k].start);
        } else if m > k {
            assert(s[k].start + s[k].size < s[m].start);
        }
        assert(false);
    }
    assert(s[k].start <= lo && hi <= s[k].start + s[k].size);
}

/// Reuse, free-list side: the moment a span is given back (its bytes are
/// covered again, merged with any neighbours), a request of the same size
/// and alignment fits the free list again — the coalesced region that
/// absorbed the span can serve it.
pub proof fn lemma_freed_span_refits(b: LinkedListAllocator, ptr: int, size: int, align: int)
    requires
        b.wf(),
        align >= 1,
        size >= 1,
        ptr >= 0,
        ptr % align == 0,
        forall|a: int| ptr <= a < ptr + size ==> covered(b.regions@, a),
    ensures
        has_fit(b.regions@, size, align),
{
    lemma_contiguous_coverage(b.regions@, ptr, ptr + size);
    let k = choose|k: int|
        0 <= k < b.regions@.len() && (#[trigger] b.regions@[k]).start <= ptr && ptr + size
            <= b.regions@[k].start + b.regions@[k].size;
    assert(span_in_range(
        region_span(b.regions@[k]),
        b.heap_start as int,
        b.heap_end as int,
    ));
    crate::allocator::lemma_align_up_minimal(b.regions@[k].start as int, ptr, align);
    assert(region_fits(b.regions@[k], size, align));
}

/// The invariant makes the free list canonical: two sorted, non-adjacent
/// lists of non-empty regions that cover the same addresses are the same
/// list.  Hence `wf` together with `carved` (for `allocate`) or `freed`
/// (for `deallocate`) determines the allocator's effect on the free list
/// completely.
pub proof fn lemma_free_list_canonical(s1: Seq<Region>, s2: Seq<Region>)
    requires
        regions_sorted(s1),
        regions_sorted(s2),
        forall|i: int| 0 <= i < s1.len() ==> (#[trigger] s1[i]).size >= 1,
        forall|i: int| 0 <= i < s2.len() ==> (#[trigger] s2[i]).size >= 1,
        forall|a: int| covered(s1, a) <==> covered(s2, a),
    ensures
        s1 =~= s2,
    decreases s1.len(),
{
    if s1.len() == 0 {
        if s2.len() > 0 {
            assert(covered(s2, s2[0].start as int));
            assert(false);
        }
    } else if s2.len() == 0 {
        assert(covered(s1, s1[0].start as int));
        assert(false);
    } else {
        // both lists start at the least covered address
        assert(covered(s1, s1[0].start as int));
        assert(covered(s2, s2[0].start as int));
        assert forall|a: int| covered(s1, a) implies a >= s1[0].start by {
            let i = choose|i: int|
                0 <= i < s1.len() && (#[trigger] s1[i]).start <= a < s1[i].start + s1[i].size;
            if i > 0 {
                assert(s1[0].start + s1[0].size < s1[i].start);
            }
        }
        assert forall|a: int| covered(s2, a) implies a >= s2[0].start by {
            let i = choose|i: int|
                0 <= i < s2.len() && (#[trigger] s2[i]).start <= a < s2[i].start + s2[i].size;
            if i > 0 {
                assert(s2[0].start + s2[0].size < s2[i].start);
            }
        }
        assert(s1[0].start == s2[0].start);
        // and neither first region's end is covered, so the ends agree too
        let e1 = s1[0].start + s1[0].size;
        let e2 = s2[0].start + s2[0].size;
        assert(!covered(s1, e1 as int)) by {
            if covered(s1, e1 as int) {
                let i = choose|i: int|
                    0 <= i < s1.len() && (#[trigger] s1[i]).start <= e1 < s1[i].start + s1[i].size;
                if i > 0 {
                    assert(s1[0].start + s1[0].size < s1[i].start);
                }
                assert(false);
            }
        }
        assert(!covered(s2, e2 as int)) by {
            if covered(s2, e2 as int) {
                let i = choose|i: int|
                    0 <= i < s2.len() && (#[trigger] s2[i]).start <= e2 < s2[i].start + s2[i].size;
                if i > 0 {
                    assert(s2[0].start + s2[0].size < s2[i].start);
                }
                assert(false);
            }
        }
        if e1 < e2 {
            assert(covered(s2, e1 as int)) by {
                assert(s2[0].start <= e1 < e2);
            }
            assert(false);
        }
        if e2 < e1 {
            assert(covered(s1, e2 as int)) by {
                assert(s1[0].start <= e2 < e1);
            }
            assert(false);
        }
        assert(s1[0] == s2[0]);
        // the tails cover the same addresses: everything covered above the
        // shared first region
        let t1 = s1.subrange(1, s1.len() as int);
        let t2 = s2.subrange(1, s2.len() as int);
        assert forall|a: int| covered(t1, a) implies covered(t2, a) by {
            let i = choose|i: int|
                0 <= i < t1.len() && (#[trigger] t1[i]).start <= a < t1[i].start + t1[i].size;
            assert(t1[i] == s1[i + 1]);
            assert(s1[0].start + s1[0].size < s1[i + 1].start);
            assert(covered(s1, a));
            assert(covered(s2, a));
            let j = choose|j: int|
                0 <= j < s2.len() && (#[trigger] s2[j]).start <= a < s2[j].start + s2[j].size;
            assert(j > 0);
            assert(t2[j - 1] == s2[j]);
            assert(covered(t2, a));
        }
        assert forall|a: int| covered(t2, a) implies covered(t1, a) by {
            let i = choose|i: int|
                0 <= i < t2.len() && (#[trigger] t2[i]).start <= a < t2[i].start + t2[i].size;
            assert(t2[i] == s2[i + 1]);
            assert(s2[0].start + s2[0].size < s2[i + 1].start);
            assert(covered(s2, a));
            assert(covered(s1, a));
            let j = choose|j: int|
                0 <= j < s1.len() && (#[trigger] s1[j]).start <= a < s1[j].start + s1[j].size;
            assert(j > 0);
            assert(t1[j - 1] == s1[j]);
            assert(covered(t1, a));
        }
        lemma_free_list_canonical(t1, t2);
        assert(s1.len() == s2.len());
        assert forall|i: int| 0 <= i < s1.len() implies s1[i] == s2[i] by {
            if i > 0 {
                assert(s1[i] == t1[i - 1]);
                assert(t1[i - 1] == t2[i - 1]);
            }
        }
    }
}

/// Exhaustion: a request for more bytes than the whole heap region holds
/// fits no free region, so by `allocate`'s success condition it yields
/// `None` — a clean failure, never a wild pointer.
pub proof fn lemma_oversize_fails(a: LinkedListAllocator, size: int, align: int)
    requires
        a.wf(),
        align >= 1,
        size > a.heap_end - a.heap_start,
    ensures
        !has_fit(a.regions@, size, align),
{
    assert forall|i: int| 0 <= i < a.regions@.len() implies !region_fits(
        #[trigger] a.regions@[i],
        size,
        align,
    ) by {
        lemma_align_up_properties(a.regions@[i].start as int, align);
        assert(span_in_range(
            region_span(a.regions@[i]),
            a.heap_start as int,
            a.heap_end as int,
        ));
    }
}

/// Shape of the free list after giving a span back: the regions at positions
/// `mpos` up to (but not including) `hi` — the adjacent neighbours that take
/// part in the merge, if any — are replaced by the single fused region
/// `[mstart, mend)`.
pub open spec fn merged_shape(
    s0: Seq<Region>,
    idx: int,
    mpos: int,
    mstart: int,
    mend: int,
    pend: int,
) -> Seq<Region> {
    let hi = if mend > pend {
        idx + 1
    } else {
        idx
    };
    s0.subrange(0, mpos).push(
        Region { start: mstart as usize, size: (mend - mstart) as usize },
    ) + s0.subrange(hi, s0.len() as int)
}

/// Shape of the free list after carving `(astart, size)` out of region `idx`:
/// the region is removed and the trailing then leading slack, when non-empty,
/// are inserted in its place.
pub open spec fn spliced(s0: Seq<Region>, idx: int, astart: int, size: int) -> Seq<Region> {
    let reg = s0[idx];
    let front = astart - reg.start;
    let back = reg.start + reg.size - (astart + size);
    let removed = s0.remove(idx);
    let with_back = if back > 0 {
        removed.insert(
            idx,
            Region { start: (astart + size) as usize, size: back as usize },
        )
    } else {
        removed
    };
    if front > 0 {
        with_back.insert(idx, Region { start: reg.start, size: front as usize })
    } else {
        with_back
    }
}

/// Element `k` of the spliced list, characterised against the list before
/// the carve.
pub open spec fn region_of_spliced(s0: Seq<Region>, idx: int, astart: int, size: int, k: int) -> bool {
    let s1 = spliced(s0, idx, astart, size);
    let reg = s0[idx];
    let front = astart - reg.start;
    let back = reg.start + reg.size - (astart + size);
    let extra = (if front > 0 { 1int } else { 0 }) + (if back > 0 { 1int } else { 0 });
    if k < idx {
        s1[k] == s0[k]
    } else if k < idx + extra {
        (front > 0 && k == idx && s1[k] == Region { start: reg.start, size: front as usize }) || (
        back > 0 && k == idx + extra - 1 && s1[k] == Region {
            start: (astart + size) as usize,
            size: back as usize,
        })
    } else {
        s1[k] == s0[k - extra + 1]
    }
}

} // verus!
