//! A bump allocator over a window of addresses.
//!
//! The allocator hands out addresses only; what lies behind them is the
//! caller's matter.

use vstd::arithmetic::power2::pow2;
use vstd::bits::low_bits_mask;
use vstd::prelude::*;

verus! {

/// Where the kernel's heap starts: an address of 47 bits.
pub const HEAP_START: u64 = 0x4444_4444_0000;

/// Size of the kernel's heap in bytes.
pub const HEAP_SIZE: usize = 1000 * 1024;

/// Whether `align` is a power of two.
pub open spec fn is_power_of_two(align: usize) -> bool {
    exists|n: nat| n < usize::BITS && align == #[trigger] pow2(n)
}

/// The lowest multiple of `align` that is not below `addr`.
pub open spec fn aligned_up(addr: int, align: int) -> int {
    if addr % align == 0 {
        addr
    } else {
        addr + align - addr % align
    }
}

/// Aligns `addr` upwards to the alignment `align`, a power of two.
pub fn align_up(addr: usize, align: usize) -> (aligned: usize)
    requires
        is_power_of_two(align),
        addr + align <= usize::MAX,
    ensures
        aligned == aligned_up(addr as int, align as int),
        addr <= aligned < addr + align,
        aligned % align == 0,
{
    proof {
        let n = choose|n: nat| n < usize::BITS && align == #[trigger] pow2(n);
        vstd::arithmetic::power2::lemma_pow2_pos(n);
    }
    let sum = addr + align - 1;
    let low = align - 1;
    let aligned = sum & !low;
    proof {
        let n = choose|n: nat| n < usize::BITS && align == #[trigger] pow2(n);
        assert(low == low_bits_mask(n) as usize);
        vstd::bits::lemma_usize_low_bits_mask_is_mod(sum, n);
        assert(sum & low == sum % align);
        assert(sum & !low == sum - (sum & low)) by (bit_vector);
        vstd::arithmetic::div_mod::lemma_fundamental_div_mod(sum as int, align as int);
        vstd::arithmetic::div_mod::lemma_mod_multiples_basic(sum as int / align as int, align as int);
        assert(aligned as int == (align as int) * (sum as int / align as int));
        assert((align as int) * (sum as int / align as int) == (sum as int / align as int) * (align as int))
            by (nonlinear_arith);
        lemma_aligned_up(addr as int, align as int, aligned as int);
    }
    aligned
}

/// The one multiple of `align` among `align` numbers in a row from `addr`
/// is `aligned_up(addr, align)`.
pub proof fn lemma_aligned_up(addr: int, align: int, aligned: int)
    requires
        align > 0,
        0 <= addr <= aligned < addr + align,
        aligned % align == 0,
    ensures
        aligned == aligned_up(addr, align),
{
    vstd::arithmetic::div_mod::lemma_fundamental_div_mod(addr, align);
    vstd::arithmetic::div_mod::lemma_fundamental_div_mod(aligned, align);
    let q = addr / align;
    let r = addr % align;
    let k = aligned / align;
    assert(aligned == align * k);
    assert(addr == align * q + r);
    if r == 0 {
        assert(k == q) by (nonlinear_arith)
            requires
                align > 0,
                align * q <= align * k < align * q + align,
        ;
    } else {
        assert(k == q + 1) by (nonlinear_arith)
            requires
                align > 0,
                0 < r < align,
                align * q + r <= align * k < align * q + r + align,
        ;
        assert(align * (q + 1) == align * q + align) by (nonlinear_arith);
    }
}

/// An allocator that hands out the addresses of its window one after the
/// other and takes them all back when the last allocation is returned.
pub struct BumpAllocator {
    heap_start: usize,
    heap_end: usize,
    next: usize,
    allocations: usize,
}

impl BumpAllocator {
    /// The first address of the window.
    pub closed spec fn start(self) -> usize {
        self.heap_start
    }

    /// The address behind the window.
    pub closed spec fn end(self) -> usize {
        self.heap_end
    }

    /// The address from which the next allocation is looked for.
    pub closed spec fn cursor(self) -> usize {
        self.next
    }

    /// The number of allocations that were not returned yet.
    pub closed spec fn live(self) -> usize {
        self.allocations
    }

    /// An allocator with an empty window at address 0.
    pub fn new() -> (allocator: Self)
        ensures
            allocator.start() == 0,
            allocator.end() == 0,
            allocator.cursor() == 0,
            allocator.live() == 0,
    {
        Self { heap_start: 0, heap_end: 0, next: 0, allocations: 0 }
    }

    /// Gives the allocator the window of `heap_size` bytes from `heap_start`.
    pub fn init(&mut self, heap_start: usize, heap_size: usize)
        requires
            heap_start + heap_size <= usize::MAX,
        ensures
            final(self).start() == heap_start,
            final(self).end() == heap_start + heap_size,
            final(self).cursor() == heap_start,
            final(self).live() == old(self).live(),
    {
        self.heap_start = heap_start;
        self.heap_end = heap_start + heap_size;
        self.next = heap_start;
    }

    /// Where an allocation of `size` bytes aligned to `align` would start:
    /// at the cursor, aligned upwards, if the allocation ends within the
    /// window, the sum of cursor and alignment is an address, and the count
    /// of live allocations has room for one more.
    pub open spec fn placement(self, size: usize, align: usize) -> Option<usize> {
        let start = aligned_up(self.cursor() as int, align as int);
        if self.cursor() + align <= usize::MAX && self.live() < usize::MAX && start + size <= self.end() {
            Some(start as usize)
        } else {
            None
        }
    }

    /// Allocates `size` bytes aligned to `align`, a power of two. Returns
    /// the address of the allocation, or `None`, with nothing changed, when
    /// the window has no room for it.
    pub fn allocate(&mut self, size: usize, align: usize) -> (res: Option<usize>)
        requires
            is_power_of_two(align),
        ensures
            res == old(self).placement(size, align),
            final(self).start() == old(self).start(),
            final(self).end() == old(self).end(),
            res is None ==> *final(self) == *old(self),
            res matches Some(start) ==> final(self).cursor() == start + size && final(self).live() == old(
                self,
            ).live() + 1,
    {
        if self.next > usize::MAX - align || self.allocations == usize::MAX {
            return None;
        }
        let alloc_start = align_up(self.next, align);
        let alloc_end = match alloc_start.checked_add(size) {
            Some(val) => val,
            None => {
                return None;
            },
        };
        if alloc_end > self.heap_end {
            None
        } else {
            self.next = alloc_end;
            self.allocations += 1;
            Some(alloc_start)
        }
    }

    /// The number of allocations that were not returned yet.
    pub fn allocations(&self) -> (live: usize)
        ensures
            live == self.live(),
    {
        self.allocations
    }

    /// Returns one allocation. When it was the last one that was live, the
    /// whole window is free again.
    pub fn deallocate(&mut self)
        requires
            old(self).live() > 0,
        ensures
            final(self).start() == old(self).start(),
            final(self).end() == old(self).end(),
            final(self).live() == old(self).live() - 1,
            final(self).cursor() == (if old(self).live() == 1 {
                old(self).start()
            } else {
                old(self).cursor()
            }),
    {
        self.allocations -= 1;
        if self.allocations == 0 {
            self.next = self.heap_start;
        }
    }
}

} // verus!
