//! Shared ground for the allocator strategies: the heap constants, address
//! alignment, and the span vocabulary (a span is a half-open byte range given
//! as start address and size) that every strategy's contract is written in.

use vstd::prelude::*;

pub mod bump;
pub mod fixed_size_block;
pub mod linked_list;

verus! {

use vstd::arithmetic::power2::is_pow2;
use vstd::arithmetic::power::pow;
use vstd::arithmetic::power::lemma_pow_adds;
use vstd::arithmetic::power::lemma_pow_increases_converse;
use vstd::arithmetic::power::lemma_pow_positive;
use vstd::arithmetic::power2::is_pow2_equiv;
use vstd::arithmetic::div_mod::lemma_fundamental_div_mod;
use vstd::arithmetic::div_mod::lemma_mod_multiples_basic;
use vstd::arithmetic::mul::lemma_mul_is_associative;
use vstd::arithmetic::mul::lemma_mul_is_commutative;
use vstd::arithmetic::mul::lemma_mul_is_distributive_add;
use vstd::arithmetic::div_mod::lemma_mod_decreases;
use vstd::arithmetic::div_mod::lemma_div_is_ordered;
use vstd::arithmetic::div_mod::lemma_multiply_divide_lt;
use vstd::arithmetic::mul::lemma_mul_inequality;
use vstd::arithmetic::mul::lemma_mul_is_distributive_add_other_way;
use vstd::arithmetic::mul::lemma_mul_is_distributive_sub;

/// Fixed virtual address at which the kernel heap begins.
pub const HEAP_START: u64 = 0x4444_4444_0000;

/// Size of the kernel heap in bytes.
pub const HEAP_SIZE: usize = 100 * 1024;

/// `addr` rounded up to the nearest multiple of `align`.
pub open spec fn align_up_spec(addr: int, align: int) -> int
    recommends
        align >= 1,
{
    if addr % align == 0 {
        addr
    } else {
        addr + align - addr % align
    }
}

/// Rounding up lands on a multiple of `align` that is at most `align - 1`
/// bytes past `addr`.
pub proof fn lemma_align_up_properties(addr: int, align: int)
    requires
        align >= 1,
        addr >= 0,
    ensures
        align_up_spec(addr, align) % align == 0,
        addr <= align_up_spec(addr, align) < addr + align,
{
    let r = addr % align;
    if r != 0 {
        lemma_fundamental_div_mod(addr, align);
        let q = addr / align;
        assert(addr + align - r == align * (q + 1)) by {
            assert(addr == align * q + r);
            lemma_mul_is_distributive_add(align, q, 1);
        }
        lemma_mod_multiples_basic(q + 1, align);
    }
}

/// Align the given address `addr` upwards to alignment `align`.
pub fn align_up(addr: usize, align: usize) -> (r: usize)
    requires
        align >= 1,
        addr + align <= usize::MAX,
    ensures
        r == align_up_spec(addr as int, align as int),
        r % align == 0,
        addr <= r < addr + align,
{
    proof {
        lemma_align_up_properties(addr as int, align as int);
        lemma_mod_decreases(addr as nat, align as nat);
    }
    let rem: usize = addr % align;
    if rem == 0 {
        addr
    } else {
        addr - rem + align
    }
}

/// Rounding up is minimal: no aligned address at or after `addr` lies
/// below `align_up_spec(addr, align)`.
pub proof fn lemma_align_up_minimal(addr: int, p: int, align: int)
    requires
        align >= 1,
        addr >= 0,
        p >= addr,
        p % align == 0,
    ensures
        align_up_spec(addr, align) <= p,
{
    lemma_align_up_properties(addr, align);
    let au = align_up_spec(addr, align);
    if p < au {
        lemma_fundamental_div_mod(au, align);
        lemma_fundamental_div_mod(p, align);
        let qa = au / align;
        let qp = p / align;
        assert(au - p == align * (qa - qp)) by {
            lemma_mul_is_distributive_sub(align, qa, qp);
        }
        assert(qa - qp >= 1) by (nonlinear_arith)
            requires
                align >= 1,
                align * (qa - qp) > 0,
        ;
        assert(align * (qa - qp) >= align * 1) by {
            lemma_mul_inequality(1, qa - qp, align);
            lemma_mul_is_commutative(align, qa - qp);
            lemma_mul_is_commutative(align, 1);
        }
        assert(false);
    }
}

/// A positive power of two is at least one.
pub proof fn lemma_pow2_at_least_one(a: int)
    requires
        is_pow2(a),
    ensures
        a >= 1,
{
    broadcast use is_pow2_equiv;

    let e = choose|e: nat| pow(2, e) == a;
    lemma_pow_positive(2, e);
}

/// The smaller of two powers of two divides the larger.
pub proof fn lemma_pow2_divides(a: int, b: int)
    requires
        is_pow2(a),
        is_pow2(b),
        a <= b,
    ensures
        b % a == 0,
{
    broadcast use is_pow2_equiv;

    let ea = choose|e: nat| pow(2, e) == a;
    let eb = choose|e: nat| pow(2, e) == b;
    lemma_pow_positive(2, ea);
    lemma_pow_positive(2, eb);
    lemma_pow_increases_converse(2, ea, eb);
    lemma_pow_adds(2, ea, (eb - ea) as nat);
    assert(b == a * pow(2, (eb - ea) as nat));
    lemma_mod_multiples_basic(pow(2, (eb - ea) as nat), a);
    assert(b == pow(2, (eb - ea) as nat) * a) by {
        lemma_mul_is_associative(1, a, pow(2, (eb - ea) as nat));
    }
}

/// Divisibility is transitive: if `b` divides `p` and `a` divides `b`,
/// then `a` divides `p`.
pub proof fn lemma_divides_transitive(p: int, a: int, b: int)
    requires
        a >= 1,
        b >= 1,
        p >= 0,
        p % b == 0,
        b % a == 0,
    ensures
        p % a == 0,
{
    lemma_fundamental_div_mod(p, b);
    lemma_fundamental_div_mod(b, a);
    let q = p / b;
    let t = b / a;
    assert(p == b * q);
    assert(b == a * t);
    assert(p == (a * t) * q);
    assert(p == a * (t * q)) by {
        lemma_mul_is_associative(a, t, q);
    }
    assert(p == (t * q) * a) by {
        lemma_mul_is_commutative(a, t * q);
    }
    lemma_mod_multiples_basic(t * q, a);
}

/// The span `s` (start, size) is a non-empty byte range lying inside
/// `[lo, hi)`.
pub open spec fn span_in_range(s: (int, int), lo: int, hi: int) -> bool {
    lo <= s.0 && s.0 + s.1 <= hi && s.1 >= 1
}

/// The byte ranges of the two spans have no address in common.
pub open spec fn spans_disjoint(a: (int, int), b: (int, int)) -> bool {
    a.0 + a.1 <= b.0 || b.0 + b.1 <= a.0
}

/// The span `x` shares no address with any span in `s`.
pub open spec fn disjoint_from_all(s: Seq<(int, int)>, x: (int, int)) -> bool {
    forall|i: int| 0 <= i < s.len() ==> spans_disjoint(#[trigger] s[i], x)
}

/// No two distinct spans in `s` share an address.
pub open spec fn pairwise_disjoint(s: Seq<(int, int)>) -> bool {
    forall|i: int, j: int|
        0 <= i < s.len() && 0 <= j < s.len() && i != j ==> spans_disjoint(
            #[trigger] s[i],
            #[trigger] s[j],
        )
}

/// Total number of bytes covered by the spans in `s`.
pub open spec fn sum_sizes(s: Seq<(int, int)>) -> int
    decreases s.len(),
{
    if s.len() == 0 {
        0
    } else {
        s.last().1 + sum_sizes(s.drop_last())
    }
}

/// A sequence of non-empty spans covers at least one byte per span.
pub proof fn lemma_sum_sizes_at_least_len(s: Seq<(int, int)>)
    requires
        forall|i: int| 0 <= i < s.len() ==> (#[trigger] s[i]).1 >= 1,
    ensures
        sum_sizes(s) >= s.len(),
    decreases s.len(),
{
    if s.len() > 0 {
        lemma_sum_sizes_at_least_len(s.drop_last());
    }
}

/// An element of a sequence is still an element after a push.
pub proof fn lemma_contains_after_push<T>(s: Seq<T>, x: T, y: T)
    requires
        s.contains(x),
    ensures
        s.push(y).contains(x),
{
    let i = choose|i: int| 0 <= i < s.len() && s[i] == x;
    assert(s.push(y)[i] == x);
}

/// An element of a sequence is still an element after removing an index
/// that holds a different value.
pub proof fn lemma_contains_after_remove<T>(s: Seq<T>, x: T, i: int)
    requires
        0 <= i < s.len(),
        s.contains(x),
        x != s[i],
    ensures
        s.remove(i).contains(x),
{
    let j = choose|j: int| 0 <= j < s.len() && s[j] == x;
    if j < i {
        assert(s.remove(i)[j] == x);
    } else {
        assert(s.remove(i)[j - 1] == x);
    }
}

/// Removing the span at index `i` lowers the byte total by exactly that
/// span's size.
pub proof fn lemma_sum_sizes_remove(s: Seq<(int, int)>, i: int)
    requires
        0 <= i < s.len(),
    ensures
        sum_sizes(s.remove(i)) == sum_sizes(s) - s[i].1,
    decreases s.len(),
{
    if i == s.len() - 1 {
        assert(s.remove(i) =~= s.drop_last());
    } else {
        lemma_sum_sizes_remove(s.drop_last(), i);
        assert(s.remove(i).drop_last() =~= s.drop_last().remove(i));
        assert(s.remove(i).last() == s.last());
    }
}

/// The 4 KiB pages backing a byte range: index of the page holding the
/// first byte and of the page holding the last byte.  The heap bootstrap
/// maps exactly the pages `first..=last` with a fresh frame each before the
/// strategy is initialized over the range; if any frame runs out the whole
/// bootstrap is abandoned.
pub fn heap_page_range(start: u64, size: u64) -> (r: (u64, u64))
    requires
        size >= 1,
        start + size - 1 <= u64::MAX,
    ensures
        r.0 == start as int / 4096,
        r.1 == (start + size - 1) / 4096,
        r.0 <= r.1,
{
    proof {
        lemma_div_is_ordered(start as int, start as int + size - 1, 4096);
    }
    let first: u64 = start / 4096;
    let last: u64 = (start + (size - 1)) / 4096;
    (first, last)
}

/// 256 to the power `n`: the count of values `n` bytes can take.
pub open spec fn pow256(n: nat) -> int
    decreases n,
{
    if n == 0 {
        1
    } else {
        256 * pow256((n - 1) as nat)
    }
}

/// Concrete values of `pow256` up to eight bytes.
pub proof fn lemma_pow256_values()
    ensures
        pow256(0) == 1,
        pow256(1) == 0x100,
        pow256(2) == 0x1_0000,
        pow256(3) == 0x100_0000,
        pow256(4) == 0x1_0000_0000,
        pow256(5) == 0x100_0000_0000,
        pow256(6) == 0x1_0000_0000_0000,
        pow256(7) == 0x100_0000_0000_0000,
        pow256(8) == 0x1_0000_0000_0000_0000,
{
    reveal_with_fuel(pow256, 10);
}

/// `pow256` is positive and grows with its argument.
pub proof fn lemma_pow256_increases(a: nat, b: nat)
    requires
        a <= b,
    ensures
        1 <= pow256(a) <= pow256(b),
    decreases b,
{
    if b == 0 {
    } else if a == b {
        lemma_pow256_increases((a - 1) as nat, (b - 1) as nat);
    } else {
        lemma_pow256_increases(a, (b - 1) as nat);
    }
}

/// The little-endian value of a byte string: the first byte is least
/// significant.
pub open spec fn le_decode(s: Seq<u8>) -> int
    decreases s.len(),
{
    if s.len() == 0 {
        0
    } else {
        le_decode(s.drop_last()) + s.last() * pow256((s.len() - 1) as nat)
    }
}

/// A string of `n` bytes decodes to a value below `256^n`.
pub proof fn lemma_le_decode_bound(s: Seq<u8>)
    ensures
        0 <= le_decode(s) < pow256(s.len()),
    decreases s.len(),
{
    if s.len() > 0 {
        lemma_le_decode_bound(s.drop_last());
        lemma_pow256_increases(0, (s.len() - 1) as nat);
        lemma_mul_inequality(s.last() as int, 255, pow256((s.len() - 1) as nat));
    }
}

/// Round-trip across disjoint spans: a write confined to one span leaves
/// every byte of a disjoint span unchanged, so a value stored in one live
/// allocation cannot be disturbed through another (no strategy may alias
/// live regions).
pub proof fn lemma_no_alias(
    b0: Seq<u8>,
    b1: Seq<u8>,
    span_w: (int, int),
    span_r: (int, int),
    a: int,
)
    requires
        b0.len() == b1.len(),
        spans_disjoint(span_w, span_r),
        forall|k: int|
            0 <= k < b0.len() && !(span_w.0 <= k < span_w.0 + span_w.1) ==> b1[k] == b0[k],
        span_r.0 <= a < span_r.0 + span_r.1,
        0 <= a < b0.len(),
    ensures
        b1[a] == b0[a],
{
}

/// A model heap: the managed byte range itself together with the
/// fixed-size-block strategy (the one installed as the global allocator)
/// administering it.  Addresses handed out by `allocate` are offsets into
/// `bytes`, so stores and loads go through the very range the strategy
/// manages.
pub struct Heap {
    pub bytes: Vec<u8>,
    pub allocator: fixed_size_block::FixedSizeBlockAllocator,
}

impl Heap {
    /// Invariant: the strategy is well-formed and administers exactly the
    /// byte range `[0, bytes.len())`.
    pub open spec fn wf(self) -> bool {
        &&& self.allocator.wf()
        &&& self.allocator.fallback_allocator.heap_start == 0
        &&& self.allocator.fallback_allocator.heap_end == self.bytes@.len()
    }

    /// One-time heap bootstrap, the model counterpart of mapping the heap
    /// range and initializing the strategy over it: backs `heap_size`
    /// zeroed bytes and initializes the fixed-size-block strategy over
    /// `[0, heap_size)`.
    pub fn new(heap_size: usize) -> (r: Heap)
        ensures
            r.wf(),
            r.bytes@.len() == heap_size,
            r.allocator.live@.len() == 0,
            forall|i: int|
                0 <= i < fixed_size_block::BLOCK_SIZE_COUNT ==> (#[trigger] r.allocator.list_heads@[i])@.len()
                    == 0,
            heap_size >= 1 ==> r.allocator.fallback_allocator.regions@.len() == 1
                && linked_list::region_span(r.allocator.fallback_allocator.regions@[0]) == (
            0int,
            heap_size as int,
            ),
            heap_size >= 1 ==> linked_list::has_fit(
                r.allocator.fallback_allocator.regions@,
                heap_size as int,
                1,
            ),
    {
        let mut bytes: Vec<u8> = Vec::new();
        let mut i: usize = 0;
        while i < heap_size
            invariant
                0 <= i <= heap_size,
                bytes@.len() == i,
            decreases heap_size - i,
        {
            bytes.push(0);
            i = i + 1;
        }
        let mut allocator = fixed_size_block::FixedSizeBlockAllocator::new();
        allocator.init(0, heap_size);
        Heap { bytes, allocator }
    }

    /// Serves an allocation request through the fixed-size-block strategy.
    /// A returned address is a multiple of `align`, the span lies inside
    /// the byte range, and it overlaps no live allocation.
    pub fn allocate(&mut self, size: usize, align: usize) -> (r: Option<usize>)
        requires
            old(self).wf(),
            size >= 1,
            is_pow2(align as int),
        ensures
            final(self).wf(),
            final(self).bytes@ == old(self).bytes@,
            (match fixed_size_block::list_index_spec(size as int, align as int) {
                Some(i) => r.is_some() <==> (old(self).allocator.list_heads@[i]@.len() > 0
                    || linked_list::has_fit(
                    old(self).allocator.fallback_allocator.regions@,
                    fixed_size_block::block_size_spec(i),
                    fixed_size_block::block_size_spec(i),
                )),
                None => r.is_some() <==> linked_list::has_fit(
                    old(self).allocator.fallback_allocator.regions@,
                    size as int,
                    align as int,
                ),
            }),
            (match fixed_size_block::list_index_spec(size as int, align as int) {
                Some(i) => old(self).allocator.list_heads@[i]@.len() > 0 ==> (r.is_some()
                    && r.unwrap() == old(self).allocator.list_heads@[i]@.last()),
                None => true,
            }),
            r.is_some() ==> r.unwrap() as int % align as int == 0,
            r.is_some() ==> r.unwrap() + size <= old(self).bytes@.len(),
            r.is_some() ==> (forall|j: int|
                0 <= j < old(self).allocator.live@.len() ==> spans_disjoint(
                    fixed_size_block::entry_span(#[trigger] old(self).allocator.live@[j]),
                    (r.unwrap() as int, size as int),
                )),
            r.is_some() ==> final(self).allocator.live@ == old(self).allocator.live@.push(
                (r.unwrap() as int, size as int, align as int),
            ),
            r.is_none() ==> *final(self) == *old(self),
    {
        self.allocator.allocate(size, align)
    }

    /// Returns a span obtained from `allocate`, with the triple it was
    /// obtained under, to the strategy.
    pub fn deallocate(&mut self, ptr: usize, size: usize, align: usize)
        requires
            old(self).wf(),
            old(self).allocator.live@.contains((ptr as int, size as int, align as int)),
        ensures
            final(self).wf(),
            final(self).bytes@ == old(self).bytes@,
            exists|j: int|
                0 <= j < old(self).allocator.live@.len() && old(self).allocator.live@[j] == (
                ptr as int,
                size as int,
                align as int,
                ) && final(self).allocator.live@ == old(self).allocator.live@.remove(j),
            (match fixed_size_block::list_index_spec(size as int, align as int) {
                Some(i) => final(self).allocator.list_heads@[i]@
                    == old(self).allocator.list_heads@[i]@.push(ptr),
                None => linked_list::freed(
                    final(self).allocator.fallback_allocator.regions@,
                    old(self).allocator.fallback_allocator.regions@,
                    ptr as int,
                    ptr + size,
                ),
            }),
    {
        self.allocator.deallocate(ptr, size, align)
    }

    /// Loads the byte at `addr`.
    pub fn read_byte(&self, addr: usize) -> (r: u8)
        requires
            addr < self.bytes@.len(),
        ensures
            r == self.bytes@[addr as int],
    {
        self.bytes[addr]
    }

    /// Stores `value` at `addr`; no other byte changes.
    pub fn write_byte(&mut self, addr: usize, value: u8)
        requires
            addr < old(self).bytes@.len(),
        ensures
            final(self).bytes@ == old(self).bytes@.update(addr as int, value),
            final(self).allocator == old(self).allocator,
    {
        self.bytes[addr] = value;
    }

    /// Stores `value` in little-endian order in the eight bytes at `addr`;
    /// every byte outside that span keeps its value, so disjoint
    /// allocations are untouched.
    pub fn write_u64(&mut self, addr: usize, value: u64)
        requires
            addr + 8 <= old(self).bytes@.len(),
        ensures
            final(self).bytes@.len() == old(self).bytes@.len(),
            le_decode(final(self).bytes@.subrange(addr as int, addr + 8)) == value,
            forall|k: int|
                0 <= k < old(self).bytes@.len() && !(addr <= k < addr + 8)
                    ==> #[trigger] final(self).bytes@[k] == old(self).bytes@[k],
            final(self).allocator == old(self).allocator,
    {
        proof {
            lemma_pow256_values();
        }
        let bytes_len: usize = self.bytes.len();
        let mut rest: u64 = value;
        let mut i: usize = 0;
        while i < 8
            invariant
                0 <= i <= 8,
                addr + 8 <= bytes_len,
                bytes_len == old(self).bytes@.len(),
                self.bytes@.len() == old(self).bytes@.len(),
                self.allocator == old(self).allocator,
                forall|k: int|
                    0 <= k < old(self).bytes@.len() && !(addr <= k < addr + i) ==> self.bytes@[k]
                        == old(self).bytes@[k],
                le_decode(self.bytes@.subrange(addr as int, addr + i)) + rest * pow256(i as nat)
                    == value,
                rest < pow256((8 - i) as nat),
            decreases 8 - i,
        {
            let ghost prefix = self.bytes@.subrange(addr as int, addr + i);
            let b: u8 = (rest % 256) as u8;
            self.bytes[addr + i] = b;
            proof {
                lemma_pow256_values();
                let prefix1 = self.bytes@.subrange(addr as int, addr + i + 1);
                assert(prefix1.drop_last() =~= prefix);
                assert(prefix1.last() == b);
                assert(le_decode(prefix1) == le_decode(prefix) + b * pow256(i as nat));
                lemma_fundamental_div_mod(rest as int, 256);
                assert(rest == 256 * (rest as int / 256) + rest as int % 256);
                assert((256 * (rest as int / 256)) * pow256(i as nat) == (rest as int / 256) * (
                256 * pow256(i as nat))) by {
                    lemma_mul_is_associative(256, rest as int / 256, pow256(i as nat));
                    lemma_mul_is_commutative(256, rest as int / 256);
                    lemma_mul_is_associative(rest as int / 256, 256, pow256(i as nat));
                }
                assert((256 * (rest as int / 256) + rest as int % 256) * pow256(i as nat) == (256
                    * (rest as int / 256)) * pow256(i as nat) + (rest as int % 256) * pow256(
                    i as nat,
                )) by {
                    lemma_mul_is_distributive_add_other_way(
                        pow256(i as nat),
                        256 * (rest as int / 256),
                        rest as int % 256,
                    );
                }
                assert(256 * pow256(i as nat) == pow256((i + 1) as nat));
                assert(rest as int / 256 < pow256((8 - i - 1) as nat)) by {
                    lemma_multiply_divide_lt(rest as int, pow256((8 - i - 1) as nat), 256);
                    assert(rest < 256 * pow256((8 - i - 1) as nat)) by {
                        assert(pow256((8 - i) as nat) == 256 * pow256((8 - i - 1) as nat));
                    }
                }
            }
            rest = rest / 256;
            i = i + 1;
        }
        proof {
            lemma_pow256_values();
            assert(rest == 0);
            assert(le_decode(self.bytes@.subrange(addr as int, addr + 8)) == value);
        }
    }

    /// Loads the little-endian value of the eight bytes at `addr`.
    pub fn read_u64(&self, addr: usize) -> (r: u64)
        requires
            addr + 8 <= self.bytes@.len(),
        ensures
            r == le_decode(self.bytes@.subrange(addr as int, addr + 8)),
    {
        proof {
            lemma_pow256_values();
        }
        let bytes_len: usize = self.bytes.len();
        let mut acc: u128 = 0;
        let mut mult: u128 = 1;
        let mut i: usize = 0;
        while i < 8
            invariant
                0 <= i <= 8,
                addr + 8 <= bytes_len,
                bytes_len == self.bytes@.len(),
                mult == pow256(i as nat),
                acc == le_decode(self.bytes@.subrange(addr as int, addr + i)),
                acc < pow256(i as nat),
            decreases 8 - i,
        {
            let ghost prefix = self.bytes@.subrange(addr as int, addr + i);
            let b: u8 = self.bytes[addr + i];
            proof {
                lemma_pow256_values();
                lemma_pow256_increases((i + 1) as nat, 8);
                let prefix1 = self.bytes@.subrange(addr as int, addr + i + 1);
                assert(prefix1.drop_last() =~= prefix);
                assert(prefix1.last() == b);
                assert(le_decode(prefix1) == le_decode(prefix) + b * pow256(i as nat));
                lemma_mul_inequality(b as int, 255, pow256(i as nat));
                assert(255 * pow256(i as nat) + pow256(i as nat) == 256 * pow256(i as nat));
                assert(256 * pow256(i as nat) == pow256((i + 1) as nat));
            }
            acc = acc + (b as u128) * mult;
            mult = mult * 256;
            i = i + 1;
        }
        proof {
            lemma_pow256_values();
            lemma_le_decode_bound(self.bytes@.subrange(addr as int, addr + 8));
        }
        acc as u64
    }
}

} // verus!
