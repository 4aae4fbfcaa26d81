use vstd::prelude::*;

verus! {

/// Privilege level of user code.
pub const DPL_USER: u8 = 0x3;
/// Privilege level of the kernel.
pub const DPL_KERNEL: u8 = 0x0;

/// Segment types of code, data and system descriptors.
pub const TYPE_DATA_READONLY: u8 = 1;
pub const TYPE_DATA_READWRITE: u8 = 3;
pub const TYPE_CODE_EXECONLY: u8 = 9;
pub const TYPE_CODE_EXECREAD: u8 = 11;
pub const TYPE_LDT: u8 = 2;
pub const TYPE_TASK_GATE: u8 = 5;
pub const TYPE_TSS: u8 = 9;
pub const TYPE_CALL_GATE: u8 = 12;
pub const TYPE_TRAP_GATE: u8 = 15;
pub const TYPE_INTERRUPT_GATE: u8 = 14;

/// Descriptor system bit: code or data segment, or system segment and gates.
pub const S_CODE_OR_DATA: u8 = 1;
pub const S_SYSTEM: u8 = 0;

/// Default operation size bit: 32-bit segment, or system segment.
pub const DB_SEG: u8 = 1;
pub const DB_SYS: u8 = 0;

/// Selectors of the kernel's code and data segments.
pub const GDT_KERNEL_CODE_SELECTOR: u8 = 0x08;
pub const GDT_KERNEL_DATA_SELECTOR: u8 = 0x10;

/// Limit of a task-state segment descriptor: the segment's size less one.
pub const TSS_LIMIT: u32 = 103;

/// Converts a descriptor index into a selector.
pub fn gdt_index_to_selector(idx: u32) -> (r: u32)
    requires
        idx < 0x2000_0000,
    ensures
        r == idx * 8,
{
    assert(idx << 3 == idx * 8) by (bit_vector)
        requires
            idx < 0x2000_0000;
    idx << 3
}

/// Converts a selector into a descriptor index.
pub fn selector_to_gdt_index(sel: u32) -> (r: u32)
    ensures
        r == sel / 8,
{
    assert(sel >> 3 == sel / 8) by (bit_vector);
    sel >> 3
}

/// A segment or task-state segment descriptor in the layout the processor reads.
#[derive(Clone, Copy, Debug)]
pub struct GdtEntry {
    pub lim15_0: u16,
    pub base15_0: u16,
    pub base23_16: u8,
    pub flags7_0: u8,
    pub flags15_8: u8,
    pub base31_24: u8,
}

/// The boot-time descriptor table: null, kernel code and kernel data.
pub type GdtTable = [GdtEntry; 3];

/// The descriptor for a segment at `base` with limit `limit`: the base and the
/// low 20 bits of the limit split over their fields, type, system bit,
/// privilege level and present bit in the first flags byte, and size and
/// granularity bits in the second.
pub open spec fn descriptor(base: u32, limit: u32, gdt_type: u8, s: u8, db: u8, granularity: u8, dpl: u8) -> GdtEntry {
    GdtEntry {
        lim15_0: (limit % 0x10000) as u16,
        base15_0: (base % 0x10000) as u16,
        base23_16: (base / 0x10000 % 0x100) as u8,
        flags7_0: (gdt_type + s * 16 + dpl * 32 + 128) as u8,
        flags15_8: (limit / 0x10000 % 0x10 + db * 64 + granularity * 128) as u8,
        base31_24: (base / 0x100_0000) as u8,
    }
}

impl GdtEntry {
    /// The null descriptor.
    pub fn null() -> (r: GdtEntry)
        ensures
            r == descriptor_zero(),
    {
        GdtEntry { lim15_0: 0, base15_0: 0, base23_16: 0, flags7_0: 0, flags15_8: 0, base31_24: 0 }
    }

    /// Builds a descriptor; see [`descriptor`].
    pub fn build_entry(base: u32, limit: u32, gdt_type: u8, s: u8, db: u8, granularity: u8, dpl: u8) -> (r: GdtEntry)
        requires
            gdt_type < 16,
            s < 2,
            db < 2,
            granularity < 2,
            dpl < 4,
        ensures
            r == descriptor(base, limit, gdt_type, s, db, granularity, dpl),
    {
        assert((limit & 0xffff) as u16 == (limit % 0x10000) as u16) by (bit_vector);
        assert((base & 0xffff) as u16 == (base % 0x10000) as u16) by (bit_vector);
        assert(((base >> 16) & 0xff) as u8 == (base / 0x10000 % 0x100) as u8) by (bit_vector);
        assert(((base >> 24) & 0xff) as u8 == (base / 0x100_0000) as u8) by (bit_vector);
        assert(gdt_type | s << 4u8 | dpl << 5u8 | 1u8 << 7u8 == (gdt_type + s * 16 + dpl * 32 + 128) as u8) by (bit_vector)
            requires
                gdt_type < 16,
                s < 2,
                dpl < 4;
        assert(((limit >> 16) & 0xf) as u8 | db << 6u8 | granularity << 7u8
            == (limit / 0x10000 % 0x10 + db * 64 + granularity * 128) as u8) by (bit_vector)
            requires
                db < 2,
                granularity < 2;
        GdtEntry {
            lim15_0: (limit & 0xffff) as u16,
            base15_0: (base & 0xffff) as u16,
            base23_16: ((base >> 16) & 0xff) as u8,
            flags7_0: gdt_type | s << 4u8 | dpl << 5u8 | 1u8 << 7u8,
            flags15_8: ((limit >> 16) & 0xf) as u8 | db << 6u8 | granularity << 7u8,
            base31_24: ((base >> 24) & 0xff) as u8,
        }
    }

    /// A readable code segment with 4 KiB granularity.
    pub fn make_code_segment(base: u32, limit: u32, dpl: u8) -> (r: GdtEntry)
        requires
            dpl < 4,
        ensures
            r == descriptor(base, limit, TYPE_CODE_EXECREAD, S_CODE_OR_DATA, DB_SEG, 1, dpl),
    {
        GdtEntry::build_entry(base, limit, TYPE_CODE_EXECREAD, S_CODE_OR_DATA, DB_SEG, 1, dpl)
    }

    /// A writable data segment with 4 KiB granularity.
    pub fn make_data_segment(base: u32, limit: u32, dpl: u8) -> (r: GdtEntry)
        requires
            dpl < 4,
        ensures
            r == descriptor(base, limit, TYPE_DATA_READWRITE, S_CODE_OR_DATA, DB_SEG, 1, dpl),
    {
        GdtEntry::build_entry(base, limit, TYPE_DATA_READWRITE, S_CODE_OR_DATA, DB_SEG, 1, dpl)
    }

    /// A task-state segment descriptor for the segment at `base`.
    pub fn make_tss(base: u32, dpl: u8) -> (r: GdtEntry)
        requires
            dpl < 4,
        ensures
            r == descriptor(base, TSS_LIMIT, TYPE_TSS, S_SYSTEM, DB_SYS, 0, dpl),
    {
        GdtEntry::build_entry(base, TSS_LIMIT, TYPE_TSS, S_SYSTEM, DB_SYS, 0, dpl)
    }

    /// A local descriptor table descriptor.
    pub fn make_ldt(base: u32, limit: u32, dpl: u8) -> (r: GdtEntry)
        requires
            dpl < 4,
        ensures
            r == descriptor(base, limit, TYPE_LDT, S_SYSTEM, DB_SYS, 0, dpl),
    {
        GdtEntry::build_entry(base, limit, TYPE_LDT, S_SYSTEM, DB_SYS, 0, dpl)
    }
}

/// The null descriptor: every field zero.
pub open spec fn descriptor_zero() -> GdtEntry {
    GdtEntry { lim15_0: 0, base15_0: 0, base23_16: 0, flags7_0: 0, flags15_8: 0, base31_24: 0 }
}

/// What the table-loading instruction reads: the table's limit and address.
#[derive(Clone, Copy, Debug)]
pub struct GdtPtr {
    pub limit: u16,
    pub base: u32,
}

impl GdtPtr {
    /// A pointer to nothing.
    pub fn null() -> (r: GdtPtr)
        ensures
            r.limit == 0,
            r.base == 0,
    {
        GdtPtr { limit: 0, base: 0 }
    }

    /// A pointer to the table at `base` whose last byte is at `base + limit`.
    pub fn new(limit: u16, base: u32) -> (r: GdtPtr)
        ensures
            r.limit == limit,
            r.base == base,
    {
        GdtPtr { limit, base }
    }
}

} // verus!
