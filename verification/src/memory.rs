//! The physical frames that the memory map of the boot loader offers.

use vstd::prelude::*;

verus! {

/// Size of a frame in bytes.
pub const PAGE_SIZE: u64 = 4096;

/// The first address that is no physical address: physical addresses have
/// 52 bits.
pub const PHYS_ADDR_LIMIT: u64 = 0x10_0000_0000_0000;

/// A region of the memory map: the frames from `start_frame_number` up to
/// but not including `end_frame_number`, and whether they are free to use.
#[derive(Debug, Clone, Copy, PartialEq, Eq, Structural)]
pub struct MemoryRegion {
    pub start_frame_number: u64,
    pub end_frame_number: u64,
    pub usable: bool,
}

/// The addresses of the frames that a region offers, in rising order.
pub open spec fn region_frames(region: MemoryRegion) -> Seq<u64> {
    if region.usable && region.start_frame_number < region.end_frame_number {
        Seq::new(
            (region.end_frame_number - region.start_frame_number) as nat,
            |i: int| ((region.start_frame_number + i) * PAGE_SIZE) as u64,
        )
    } else {
        Seq::empty()
    }
}

/// The addresses of the frames that the regions offer, region by region.
pub open spec fn usable_frames(regions: Seq<MemoryRegion>) -> Seq<u64>
    decreases regions.len(),
{
    if regions.len() == 0 {
        Seq::empty()
    } else {
        usable_frames(regions.drop_last()) + region_frames(regions.last())
    }
}

/// The number of regions that a memory map has room for.
pub const MAX_REGIONS: usize = 64;

/// A frame allocator that hands out the usable frames of a memory map, one
/// after the other. It works without a heap, so that the heap can be set up
/// with its frames.
pub struct BootInfoFrameAllocator {
    /// The memory map; its first `entries` regions are in use.
    pub memory_map: [MemoryRegion; MAX_REGIONS],
    pub entries: usize,
    /// How many frames were asked for.
    pub next: usize,
}

impl BootInfoFrameAllocator {
    /// The regions of the memory map that are in use.
    pub open spec fn regions(self) -> Seq<MemoryRegion> {
        self.memory_map@.take(self.entries as int)
    }

    /// The number of regions in use is in range, and the frames of the
    /// usable regions are physical addresses.
    pub open spec fn wf(self) -> bool {
        &&& self.entries <= MAX_REGIONS
        &&& forall|i: int|
            0 <= i < self.entries && (#[trigger] self.memory_map@[i]).usable
                ==> self.memory_map@[i].end_frame_number * PAGE_SIZE <= PHYS_ADDR_LIMIT
    }

    /// A frame allocator over the first `entries` regions of `memory_map`
    /// that has handed out nothing.
    pub fn init(memory_map: [MemoryRegion; MAX_REGIONS], entries: usize) -> (allocator: Self)
        ensures
            allocator.memory_map == memory_map,
            allocator.entries == entries,
            allocator.next == 0,
    {
        BootInfoFrameAllocator { memory_map, entries, next: 0 }
    }

    /// Hands out the next usable frame: its address, or `None` when the
    /// usable frames are used up.
    pub fn allocate_frame(&mut self) -> (frame: Option<u64>)
        requires
            old(self).wf(),
            old(self).next < usize::MAX,
        ensures
            final(self).memory_map == old(self).memory_map,
            final(self).entries == old(self).entries,
            final(self).next == old(self).next + 1,
            frame == (if old(self).next < usable_frames(old(self).regions()).len() {
                Some(usable_frames(old(self).regions())[old(self).next as int])
            } else {
                None
            }),
    {
        let ghost regions = self.regions();
        let mut skip: u64 = self.next as u64;
        self.next += 1;
        let mut i: usize = 0;
        while i < self.entries
            invariant
                i <= regions.len(),
                regions == self.regions(),
                regions.len() == self.entries,
                self.memory_map == old(self).memory_map,
                self.entries == old(self).entries,
                self.next == old(self).next + 1,
                old(self).wf(),
                usable_frames(regions.take(i as int)).len() + skip == old(self).next,
            decreases regions.len() - i,
        {
            let region = self.memory_map[i];
            proof {
                assert(regions.take(i + 1).drop_last() =~= regions.take(i as int));
                assert(regions.take(i + 1).last() == region);
            }
            if region.usable && region.start_frame_number < region.end_frame_number {
                let count = region.end_frame_number - region.start_frame_number;
                if skip < count {
                    proof {
                        let head = usable_frames(regions.take(i as int));
                        assert(usable_frames(regions.take(i + 1))[old(self).next as int] == region_frames(
                            region,
                        )[skip as int]);
                        lemma_frames_prefix(regions, i + 1);
                        assert((region.start_frame_number + skip) * PAGE_SIZE <= region.end_frame_number
                            * PAGE_SIZE) by (nonlinear_arith)
                            requires
                                region.start_frame_number + skip <= region.end_frame_number,
                        ;
                    }
                    return Some((region.start_frame_number + skip) * PAGE_SIZE);
                }
                skip -= count;
            }
            i += 1;
        }
        proof {
            assert(regions.take(regions.len() as int) =~= regions);
        }
        None
    }
}

/// The frames of the first regions are the first frames of all regions.
pub proof fn lemma_frames_prefix(regions: Seq<MemoryRegion>, n: int)
    requires
        0 <= n <= regions.len(),
    ensures
        usable_frames(regions.take(n)).len() <= usable_frames(regions).len(),
        forall|k: int|
            0 <= k < usable_frames(regions.take(n)).len() ==> usable_frames(regions)[k] == usable_frames(
                regions.take(n),
            )[k],
    decreases regions.len(),
{
    if n == regions.len() {
        assert(regions.take(n) =~= regions);
    } else {
        lemma_frames_prefix(regions.drop_last(), n);
        assert(regions.drop_last().take(n) =~= regions.take(n));
    }
}

} // verus!
