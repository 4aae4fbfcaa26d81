use vstd::prelude::*;

verus! {

/// An interrupt, trap or task gate in the layout the processor reads.
#[derive(Clone, Copy, Debug)]
pub struct IdtEntry {
    pub offset15_0: u16,
    pub selector: u16,
    pub reserved: u8,
    pub flags: u8,
    pub offset31_16: u16,
}

impl IdtEntry {
    /// An empty gate.
    pub fn null() -> (r: IdtEntry)
        ensures
            r.offset15_0 == 0 && r.selector == 0 && r.reserved == 0 && r.flags == 0 && r.offset31_16 == 0,
    {
        IdtEntry { offset15_0: 0, selector: 0, reserved: 0, flags: 0, offset31_16: 0 }
    }

    /// A present gate of type `idt_type` to the handler at `offset` in segment
    /// `selector`, callable from privilege level `dpl`.
    pub fn new(selector: u16, offset: u32, idt_type: u8, dpl: u8) -> (r: IdtEntry)
        requires
            idt_type < 32,
            dpl < 4,
        ensures
            r.offset15_0 == offset % 0x10000,
            r.selector == selector,
            r.reserved == 0,
            r.flags == idt_type + dpl * 32 + 128,
            r.offset31_16 == offset / 0x10000,
    {
        assert((offset & 0xffff) as u16 == offset % 0x10000) by (bit_vector);
        assert(((offset >> 16) & 0xffff) as u16 == offset / 0x10000) by (bit_vector);
        assert(idt_type | dpl << 5u8 | 1u8 << 7u8 == idt_type + dpl * 32 + 128) by (bit_vector)
            requires
                idt_type < 32,
                dpl < 4;
        IdtEntry {
            offset15_0: (offset & 0xffff) as u16,
            selector,
            reserved: 0,
            flags: idt_type | dpl << 5u8 | 1u8 << 7u8,
            offset31_16: ((offset >> 16) & 0xffff) as u16,
        }
    }
}

/// What the table-loading instruction reads: the table's limit and address.
#[derive(Clone, Copy, Debug)]
pub struct IdtPtr {
    pub limit: u16,
    pub base: u32,
}

impl IdtPtr {
    /// A pointer to nothing.
    pub fn null() -> (r: IdtPtr)
        ensures
            r.limit == 0,
            r.base == 0,
    {
        IdtPtr { limit: 0, base: 0 }
    }

    /// A pointer to the table at `base` whose last byte is at `base + limit`.
    pub fn new(limit: u16, base: u32) -> (r: IdtPtr)
        ensures
            r.limit == limit,
            r.base == base,
    {
        IdtPtr { limit, base }
    }
}

} // verus!
