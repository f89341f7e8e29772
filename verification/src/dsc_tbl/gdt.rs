//! Segment descriptors.

use vstd::prelude::*;

verus! {

/// A segment descriptor of eight bytes.
///
/// The base address of the segment is stored in three pieces. The limit has
/// twenty bits; the four bits above it in `limit_high` belong to the access
/// rights, among them the granularity bit that makes the limit count pages
/// of four kilobytes.
pub struct SegmentDescriptor {
    pub limit_low: u16,
    pub base_low: u16,
    pub base_mid: u8,
    pub access_right: u8,
    pub limit_high: u8,
    pub base_high: u8,
}

/// The limit as it is stored: in pages if it has more than twenty bits.
pub open spec fn stored_limit(limit: u32) -> u32 {
    if limit > 0xfffff {
        limit / 0x1000
    } else {
        limit
    }
}

/// The access rights as they are stored: with the granularity bit set if
/// the limit is stored in pages.
pub open spec fn stored_access(limit: u32, ar: u16) -> u16 {
    if limit > 0xfffff {
        ar | 0x8000
    } else {
        ar
    }
}

impl SegmentDescriptor {
    /// The base address that the descriptor holds in three pieces.
    pub open spec fn base(self) -> u32 {
        (self.base_low as u32) | ((self.base_mid as u32) << 16) | ((self.base_high as u32) << 24)
    }

    /// The limit of twenty bits that the descriptor holds in two pieces.
    pub open spec fn limit(self) -> u32 {
        (self.limit_low as u32) | (((self.limit_high & 0x0f) as u32) << 16)
    }

    /// The access rights that the descriptor holds in two pieces: the lower
    /// eight bits, and the upper four bits at their place in sixteen.
    pub open spec fn access(self) -> u16 {
        (self.access_right as u16) | (((self.limit_high & 0xf0) as u16) << 8)
    }

    /// The descriptor of the segment of `limit + 1` bytes at `base` with the
    /// access rights `ar`: it holds the base, the lower twenty bits of the
    /// stored limit, and the lower eight and the upper four bits of the
    /// stored access rights.
    pub fn new(limit: u32, base: u32, ar: u16) -> (descriptor: Self)
        ensures
            descriptor.base() == base,
            descriptor.limit() == stored_limit(limit) & 0xfffff,
            descriptor.access() == stored_access(limit, ar) & 0xf0ff,
            descriptor.limit_low == (stored_limit(limit) & 0xffff) as u16,
            descriptor.base_low == (base & 0xffff) as u16,
            descriptor.base_mid == ((base >> 16) & 0xff) as u8,
            descriptor.access_right == (stored_access(limit, ar) & 0xff) as u8,
            descriptor.limit_high == (((stored_access(limit, ar) >> 8) & 0xf0) as u8) | (((stored_limit(limit)
                >> 16) & 0x0f) as u8),
            descriptor.base_high == ((base >> 24) & 0xff) as u8,
    {
        let mut limit = limit;
        let mut ar = ar;
        if limit > 0xfffff {
            // a limit beyond one megabyte counts in pages
            ar |= 0x8000;
            limit /= 0x1000;
        }
        proof {
            let low = (base & 0xffff) as u16;
            let mid = ((base >> 16) & 0xff) as u8;
            let high = ((base >> 24) & 0xff) as u8;
            assert((low as u32) | ((mid as u32) << 16) | ((high as u32) << 24) == base) by (bit_vector)
                requires
                    low == (base & 0xffff) as u16,
                    mid == ((base >> 16) & 0xff) as u8,
                    high == ((base >> 24) & 0xff) as u8,
            ;
            let limit_low = (limit & 0xffff) as u16;
            let limit_high = (((ar >> 8) & 0xf0) as u8) | (((limit >> 16) & 0x0f) as u8);
            assert((limit_low as u32) | (((limit_high & 0x0f) as u32) << 16) == limit & 0xfffff) by (bit_vector)
                requires
                    limit_low == (limit & 0xffff) as u16,
                    limit_high == (((ar >> 8) & 0xf0) as u8) | (((limit >> 16) & 0x0f) as u8),
            ;
            let access_right = (ar & 0xff) as u8;
            assert((access_right as u16) | (((limit_high & 0xf0) as u16) << 8) == ar & 0xf0ff) by (bit_vector)
                requires
                    access_right == (ar & 0xff) as u8,
                    limit_high == (((ar >> 8) & 0xf0) as u8) | (((limit >> 16) & 0x0f) as u8),
            ;
        }
        SegmentDescriptor {
            limit_low: (limit & 0xffff) as u16,
            base_low: (base & 0xffff) as u16,
            base_mid: ((base >> 16) & 0xff) as u8,
            access_right: (ar & 0xff) as u8,
            limit_high: (((ar >> 8) & 0xf0) as u8) | (((limit >> 16) & 0x0f) as u8),
            base_high: ((base >> 24) & 0xff) as u8,
        }
    }
}

} // verus!
