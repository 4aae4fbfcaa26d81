use rustos::gdt::{gdt_index_to_selector, selector_to_gdt_index, GdtEntry, GdtPtr, GdtTable, DPL_KERNEL, DPL_USER};
use rustos::idt::{IdtEntry, IdtPtr};
use rustos::task::{free_task, Task, Tss, GDT_USER_CODE_SELECTOR, GDT_USER_DATA_SELECTOR};

#[test]
fn check_gdt_size() {
    assert_eq!(core::mem::size_of::<GdtTable>(), 24);
}

#[test]
fn test_check_gdt_size() {
    assert_eq!(core::mem::size_of::<GdtTable>(), 24);
}

#[test]
fn selectors_and_indices() {
    assert_eq!(gdt_index_to_selector(0), 0);
    assert_eq!(gdt_index_to_selector(5), 0x28);
    assert_eq!(selector_to_gdt_index(0x2b), 5);
    assert_eq!(selector_to_gdt_index(gdt_index_to_selector(13)), 13);
}

#[test]
fn code_and_data_segments() {
    let c = GdtEntry::make_code_segment(0, 0xfffff, DPL_KERNEL);
    assert_eq!((c.lim15_0, c.base15_0, c.base23_16, c.flags7_0, c.flags15_8, c.base31_24), (0xffff, 0, 0, 0x9b, 0xcf, 0));
    let d = GdtEntry::make_data_segment(0x1234_5678, 0xabcde, DPL_USER);
    assert_eq!((d.lim15_0, d.base15_0, d.base23_16, d.flags7_0, d.flags15_8, d.base31_24), (0xbcde, 0x5678, 0x34, 0xf3, 0xca, 0x12));
    let n = GdtEntry::null();
    assert_eq!((n.lim15_0, n.flags7_0, n.flags15_8), (0, 0, 0));
}

#[test]
fn system_segments() {
    let t = GdtEntry::make_tss(0x0010_2040, DPL_KERNEL);
    assert_eq!((t.lim15_0, t.base15_0, t.base23_16, t.flags7_0, t.flags15_8, t.base31_24), (103, 0x2040, 0x10, 0x89, 0x00, 0));
    let l = GdtEntry::make_ldt(0x8000, 0x2f, DPL_USER);
    assert_eq!((l.lim15_0, l.base15_0, l.flags7_0, l.flags15_8), (0x2f, 0x8000, 0xe2, 0));
    let p = GdtPtr::new(23, 0x1000);
    assert_eq!((p.limit, p.base), (23, 0x1000));
    let z = GdtPtr::null();
    assert_eq!((z.limit, z.base), (0, 0));
}

#[test]
fn interrupt_gates() {
    let g = IdtEntry::new(0x08, 0x1234_5678, 14, DPL_KERNEL);
    assert_eq!((g.offset15_0, g.selector, g.reserved, g.flags, g.offset31_16), (0x5678, 0x08, 0, 0x8e, 0x1234));
    let u = IdtEntry::new(0x08, 0x10, 15, DPL_USER);
    assert_eq!(u.flags, 0xef);
    let n = IdtEntry::null();
    assert_eq!((n.offset15_0, n.flags), (0, 0));
    let p = IdtPtr::new(2047, 0x2000);
    assert_eq!((p.limit, p.base), (2047, 0x2000));
    assert_eq!(IdtPtr::null().limit, 0);
}

#[test]
fn task_setup_and_free_slots() {
    let mut tasks: Vec<Task> = (0..8).map(|_| Task::new()).collect();
    assert_eq!(free_task(&tasks), 0);
    tasks[0].is_free = false;
    tasks[1].is_free = false;
    assert_eq!(free_task(&tasks), 2);
    for t in tasks.iter_mut() {
        t.is_free = false;
    }
    assert_eq!(free_task(&tasks), -1);
    let e = tasks[3].setup(3, 0x0010_4000, 0x0011_0000);
    assert_eq!(tasks[3].tss_selector, 0x48);
    assert_eq!(tasks[3].tss.cs, GDT_USER_CODE_SELECTOR | 3);
    assert_eq!(tasks[3].tss.ds, GDT_USER_DATA_SELECTOR | 3);
    assert_eq!(tasks[3].tss.ss, 0x23);
    assert_eq!(tasks[3].tss.eflags, 512);
    assert_eq!(tasks[3].tss.ss0, 0x10);
    assert_eq!(tasks[3].tss.esp0, 0x0011_0000);
    assert_eq!((e.base15_0, e.base23_16, e.flags7_0), (0x4000, 0x10, 0x89));
    let z = Tss::new();
    assert_eq!(z.cr3, 0);
}
