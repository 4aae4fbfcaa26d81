use vstd::prelude::*;
use crate::gdt::{GdtEntry, descriptor, DPL_KERNEL, DPL_USER, GDT_KERNEL_DATA_SELECTOR, TYPE_TSS, S_SYSTEM, DB_SYS, TSS_LIMIT};
use crate::paging::PageDirectory;

verus! {

/// Number of task slots.
pub const TASKS_NB: usize = 8;
/// Bytes of each task's kernel stack.
pub const STACK_SIZE: usize = 0x10000;
/// Descriptors before the tasks' own in the descriptor table.
pub const GDT_SIZE: usize = 6;
/// Selectors of the user code and data segments.
pub const GDT_USER_CODE_SELECTOR: u16 = 0x18;
pub const GDT_USER_DATA_SELECTOR: u16 = 0x20;
/// Flags register of a fresh task: interrupts enabled.
pub const EFLAGS_INTERRUPTS: u32 = 512;

/// A task-state segment in the layout the processor reads.
#[derive(Clone, Copy, Debug)]
pub struct Tss {
    pub previous_task_link: u16,
    pub reserved0: u16,
    pub esp0: u32,
    pub ss0: u16,
    pub reserved1: u16,
    pub esp1: u32,
    pub ss1: u16,
    pub reserved2: u16,
    pub esp2: u32,
    pub ss2: u16,
    pub reserved3: u16,
    pub cr3: u32,
    pub eip: u32,
    pub eflags: u32,
    pub eax: u32,
    pub ecx: u32,
    pub edx: u32,
    pub ebx: u32,
    pub esp: u32,
    pub ebp: u32,
    pub esi: u32,
    pub edi: u32,
    pub es: u16,
    pub reserved4: u16,
    pub cs: u16,
    pub reserved5: u16,
    pub ss: u16,
    pub reserved6: u16,
    pub ds: u16,
    pub reserved7: u16,
    pub fs: u16,
    pub reserved8: u16,
    pub gs: u16,
    pub reserved9: u16,
    pub ldt_selector: u16,
    pub reserved10: u16,
    pub reserved11: u16,
    pub iomap_base_addr: u16,
}

/// The segment with every field zero.
pub open spec fn zero_tss() -> Tss {
    Tss {
        previous_task_link: 0,
        reserved0: 0,
        esp0: 0,
        ss0: 0,
        reserved1: 0,
        esp1: 0,
        ss1: 0,
        reserved2: 0,
        esp2: 0,
        ss2: 0,
        reserved3: 0,
        cr3: 0,
        eip: 0,
        eflags: 0,
        eax: 0,
        ecx: 0,
        edx: 0,
        ebx: 0,
        esp: 0,
        ebp: 0,
        esi: 0,
        edi: 0,
        es: 0,
        reserved4: 0,
        cs: 0,
        reserved5: 0,
        ss: 0,
        reserved6: 0,
        ds: 0,
        reserved7: 0,
        fs: 0,
        reserved8: 0,
        gs: 0,
        reserved9: 0,
        ldt_selector: 0,
        reserved10: 0,
        reserved11: 0,
        iomap_base_addr: 0,
    }
}

impl Tss {
    /// A segment with every field zero.
    pub fn new() -> (r: Tss)
        ensures
            r == zero_tss(),
    {
        Tss {
            previous_task_link: 0,
            reserved0: 0,
            esp0: 0,
            ss0: 0,
            reserved1: 0,
            esp1: 0,
            ss1: 0,
            reserved2: 0,
            esp2: 0,
            ss2: 0,
            reserved3: 0,
            cr3: 0,
            eip: 0,
            eflags: 0,
            eax: 0,
            ecx: 0,
            edx: 0,
            ebx: 0,
            esp: 0,
            ebp: 0,
            esi: 0,
            edi: 0,
            es: 0,
            reserved4: 0,
            cs: 0,
            reserved5: 0,
            ss: 0,
            reserved6: 0,
            ds: 0,
            reserved7: 0,
            fs: 0,
            reserved8: 0,
            gs: 0,
            reserved9: 0,
            ldt_selector: 0,
            reserved10: 0,
            reserved11: 0,
            iomap_base_addr: 0,
        }
    }
}

/// A task slot: its task-state segment and selector, whether it is free, and
/// the directory its program runs with.
pub struct Task {
    pub tss: Tss,
    pub tss_selector: u16,
    pub is_free: bool,
    pub pd: PageDirectory,
}

impl Task {
    /// A free slot.
    pub fn new() -> (r: Task)
        ensures
            r.is_free,
            r.tss_selector == 0,
            r.tss == zero_tss(),
            r.pd.base == 0,
            r.pd.tables@.len() == 0 && r.pd.pages@.len() == 0 && r.pd.mmap@.len() == 0,
    {
        Task { tss: Tss::new(), tss_selector: 0, is_free: true, pd: PageDirectory::null() }
    }

    /// Prepares slot `idx`, whose segment is at `tss_addr` and whose kernel
    /// stack ends at `stack_top`: user code and data segments, interrupts on,
    /// the kernel stack for system calls. Returns the descriptor to put in the
    /// table at `GDT_SIZE + idx`.
    pub fn setup(&mut self, idx: usize, tss_addr: u32, stack_top: u32) -> (r: GdtEntry)
        requires
            idx < TASKS_NB,
        ensures
            r == descriptor(tss_addr, TSS_LIMIT, TYPE_TSS, S_SYSTEM, DB_SYS, 0, DPL_KERNEL),
            final(self).tss_selector == (GDT_SIZE + idx) * 8,
            final(self).tss.cs == GDT_USER_CODE_SELECTOR + DPL_USER,
            final(self).tss.ds == GDT_USER_DATA_SELECTOR + DPL_USER,
            final(self).tss.es == final(self).tss.ds && final(self).tss.fs == final(self).tss.ds,
            final(self).tss.gs == final(self).tss.ds && final(self).tss.ss == final(self).tss.ds,
            final(self).tss.eflags == EFLAGS_INTERRUPTS,
            final(self).tss.ss0 == GDT_KERNEL_DATA_SELECTOR,
            final(self).tss.esp0 == stack_top,
            final(self).tss == (Tss {
                cs: final(self).tss.cs,
                ds: final(self).tss.ds,
                es: final(self).tss.es,
                fs: final(self).tss.fs,
                gs: final(self).tss.gs,
                ss: final(self).tss.ss,
                eflags: final(self).tss.eflags,
                ss0: final(self).tss.ss0,
                esp0: final(self).tss.esp0,
                ..old(self).tss
            }),
            final(self).is_free == old(self).is_free,
            final(self).pd == old(self).pd,
    {
        let entry = GdtEntry::make_tss(tss_addr, DPL_KERNEL);
        self.tss_selector = ((GDT_SIZE + idx) * 8) as u16;
        let cs: u16 = GDT_USER_CODE_SELECTOR | DPL_USER as u16;
        let ds: u16 = GDT_USER_DATA_SELECTOR | DPL_USER as u16;
        assert(GDT_USER_CODE_SELECTOR | 3u16 == 0x1b) by (bit_vector);
        assert(GDT_USER_DATA_SELECTOR | 3u16 == 0x23) by (bit_vector);
        self.tss.cs = cs;
        self.tss.ds = ds;
        self.tss.es = ds;
        self.tss.fs = ds;
        self.tss.gs = ds;
        self.tss.ss = ds;
        self.tss.eflags = EFLAGS_INTERRUPTS;
        self.tss.ss0 = GDT_KERNEL_DATA_SELECTOR as u16;
        self.tss.esp0 = stack_top;
        entry
    }
}

/// Index of the first free task slot, or -1 when every slot is taken.
pub fn free_task(tasks: &Vec<Task>) -> (r: i8)
    requires
        tasks@.len() <= 127,
    ensures
        -1 <= r < tasks@.len(),
        r == -1 <==> forall|i: int| 0 <= i < tasks@.len() ==> !(#[trigger] tasks@[i]).is_free,
        r >= 0 ==> tasks@[r as int].is_free && forall|i: int| 0 <= i < r ==> !(#[trigger] tasks@[i]).is_free,
{
    let mut i: usize = 0;
    while i < tasks.len()
        invariant
            i <= tasks@.len(),
            tasks@.len() <= 127,
            forall|j: int| 0 <= j < i ==> !(#[trigger] tasks@[j]).is_free,
        decreases tasks@.len() - i,
    {
        if tasks[i].is_free {
            return i as i8;
        }
        i = i + 1;
    }
    -1
}

} // verus!
