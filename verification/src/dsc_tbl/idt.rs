//! Gate descriptors.

use vstd::prelude::*;

verus! {

/// A gate descriptor of eight bytes: the offset of the handler in two
/// halves, its segment selector, and the access rights.
pub struct GateDescriptor {
    pub offset_low: u16,
    pub selector: u16,
    pub dw_count: u8,
    pub access_right: u8,
    pub offset_high: u16,
}

impl GateDescriptor {
    /// The offset of the handler that the descriptor holds in two halves.
    pub open spec fn offset(self) -> u32 {
        (self.offset_low as u32) | ((self.offset_high as u32) << 16)
    }

    /// The access rights that the descriptor holds in two bytes.
    pub open spec fn access(self) -> u16 {
        (self.access_right as u16) | ((self.dw_count as u16) << 8)
    }

    /// The descriptor for the handler at `offset` in the segment `selector`,
    /// with the lower sixteen bits of the access rights `ar`.
    pub fn new(offset: u32, selector: u16, ar: u32) -> (descriptor: Self)
        ensures
            descriptor.offset() == offset,
            descriptor.access() == (ar & 0xffff) as u16,
            descriptor.offset_low == (offset & 0xffff) as u16,
            descriptor.selector == selector,
            descriptor.dw_count == (ar >> 8) as u8,
            descriptor.access_right == (ar & 0xff) as u8,
            descriptor.offset_high == (offset >> 16) as u16,
    {
        proof {
            let low = (offset & 0xffff) as u16;
            let high = (offset >> 16) as u16;
            assert((low as u32) | ((high as u32) << 16) == offset) by (bit_vector)
                requires
                    low == (offset & 0xffff) as u16,
                    high == (offset >> 16) as u16,
            ;
            let count = (ar >> 8) as u8;
            let right = (ar & 0xff) as u8;
            assert((right as u16) | ((count as u16) << 8) == (ar & 0xffff) as u16) by (bit_vector)
                requires
                    count == (ar >> 8) as u8,
                    right == (ar & 0xff) as u8,
            ;
        }
        GateDescriptor {
            offset_low: (offset & 0xffff) as u16,
            selector,
            dw_count: (ar >> 8) as u8,
            access_right: (ar & 0xff) as u8,
            offset_high: (offset >> 16) as u16,
        }
    }
}

} // verus!
