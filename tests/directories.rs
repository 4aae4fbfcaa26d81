use rustos::kheap::HEADER_SIZE;
use rustos::memory::{paging_init, BootInfo, ExecError, MemoryManager, TABLE_STORAGE};
use rustos::paging::MMAP_SIZE;
use rustos::task::{Task, STACK_SIZE};
use rustos::paging::{make_entry, FrameError, PageDirectory, FRAME_SIZE, KERNEL_BASE, KERNEL_MODE, USER_MODE};

const KERNEL_END: u32 = 0xC010_0800;

fn manager() -> MemoryManager {
    let boot = BootInfo {
        kernel_start: 0xC000_0000,
        kernel_end: KERNEL_END,
        multiboot_addr: 0x9500,
        multiboot_size: 0x58,
    };
    let kernel = paging_init(&boot, 0x0010_2000);
    MemoryManager::kheap_init(kernel, KERNEL_END, 0x40_0000).unwrap()
}

#[test]
fn entries_pack_base_and_flags() {
    assert_eq!(make_entry(0x0012_3456, 0x3), 0x0012_3003);
    assert_eq!(make_entry(0x0012_3000, 0x3 | USER_MODE), 0x0012_3007);
}

#[test]
fn kernel_mapping_persists_across_switch() {
    let mut m = manager();
    let k = m.heap.start + 0x10;
    let before = m.kernel.lookup(k);
    assert_eq!(before, Some(k - KERNEL_BASE));
    let mut d = m.new_directory().unwrap();
    m.switch_directory(&mut d);
    assert_eq!(m.cr3, d.base);
    assert_eq!(d.lookup(k), before);
    m.switch_to_kernel();
    assert_eq!(m.cr3, m.kernel.base);
}

#[test]
fn new_directory_takes_heap_storage() {
    let mut m = manager();
    let d = m.new_directory().unwrap();
    assert_eq!(d.base % FRAME_SIZE as u32, 0);
    assert_eq!(d.base + KERNEL_BASE, m.heap.start + FRAME_SIZE as u32);
    assert_eq!(m.heap.blocks[0].size, TABLE_STORAGE);
    assert_eq!(m.heap.blocks[1].size, MMAP_SIZE as u32);
    assert!(!m.heap.blocks[1].free);
    assert_eq!(d.mmap_block, m.heap.start + HEADER_SIZE + TABLE_STORAGE + HEADER_SIZE);
    assert!(!m.heap.blocks[0].free);
    assert_eq!(d.mmap_get_free_frame(), Some(0));
    assert_eq!(d.lookup(0x1000), None);
}

#[test]
fn directory_isolation() {
    let mut m = manager();
    let mut d1 = m.new_directory().unwrap();
    let mut d2 = m.new_directory().unwrap();
    let v = m.umalloc(&mut d1, 100).unwrap();
    assert!(v < KERNEL_BASE);
    assert!(d1.lookup(v).is_some());
    m.switch_directory(&mut d2);
    assert_eq!(d2.lookup(v), None);
    m.switch_directory(&mut d1);
    assert!(d1.lookup(v).is_some());
    let k = m.heap.start;
    assert_eq!(d1.lookup(k), m.kernel.lookup(k));
    assert_eq!(d2.lookup(k), m.kernel.lookup(k));
}

#[test]
fn umalloc_maps_whole_pages_at_lowest_free_run() {
    let mut m = manager();
    let mut d = m.new_directory().unwrap();
    let v = m.umalloc(&mut d, 3 * FRAME_SIZE as u32 + 1).unwrap();
    assert_eq!(v, 0);
    for i in 0..4u32 {
        assert!(d.mmap_frame_state(i));
        assert!(d.lookup(v + i * FRAME_SIZE as u32).is_some());
    }
    assert!(!d.mmap_frame_state(4));
    assert_eq!(d.lookup(v + 4 * FRAME_SIZE as u32), None);
    let p0 = d.lookup(v).unwrap();
    let p1 = d.lookup(v + FRAME_SIZE as u32).unwrap();
    assert_eq!(p1, p0 + FRAME_SIZE as u32);
    assert_eq!(p0 % FRAME_SIZE as u32, 0);
    let w = m.umalloc(&mut d, 0).unwrap();
    assert_eq!(w, 4 * FRAME_SIZE as u32);
}

#[test]
fn ufree_gives_backing_back() {
    let mut m = manager();
    let mut d = m.new_directory().unwrap();
    let used = |m: &MemoryManager| m.heap.blocks.iter().filter(|b| !b.free).count();
    assert_eq!(used(&m), 2);
    let v = m.umalloc(&mut d, 2 * FRAME_SIZE as u32).unwrap();
    assert_eq!(used(&m), 4);
    let table = d.tables[0] & 0xffff_f000;
    assert!(table != 0);
    assert_eq!(m.ufree(&d, v), Ok(()));
    assert_eq!(used(&m), 3);
    assert_eq!(d.tables[0] & 0xffff_f000, table);
    let w = m.umalloc(&mut d, FRAME_SIZE as u32).unwrap();
    assert_eq!(d.tables[0] & 0xffff_f000, table);
    assert_eq!(used(&m), 4);
    assert_eq!(m.ufree(&d, w), Ok(()));
    assert_eq!(used(&m), 3);
    assert!(m.ufree(&d, 0x0800_0000).is_err());
    assert!(m.ufree(&d, m.heap.start + HEADER_SIZE).is_err());
}

#[test]
fn directory_free_returns_storage() {
    let mut m = manager();
    let d = m.new_directory().unwrap();
    assert_eq!(m.heap.blocks.len(), 3);
    d.free(&mut m.heap);
    assert_eq!(m.heap.blocks.len(), 1);
    d.free(&mut m.heap);
    assert_eq!(m.heap.blocks.len(), 1);
}

#[test]
fn alloc_and_free_frame_in_directory() {
    let mut d = PageDirectory::empty(0x1000);
    assert_eq!(d.alloc_frame(0x0005_0000, USER_MODE, KERNEL_END, 0x0020_0000), None);
    let v = d.alloc_frame(0x0030_0000, USER_MODE, KERNEL_END, 0x0020_0000).unwrap();
    assert_eq!(v, 0);
    assert_eq!(d.tables[0] & 0xffff_f000, 0x0020_0000);
    assert_eq!(d.pages[0], 0x0030_0007);
    assert_eq!(d.lookup(0x10), Some(0x0030_0010));
    let w = d.alloc_frame(0x0031_0000, USER_MODE, KERNEL_END, 0x0021_0000).unwrap();
    assert_eq!(w, FRAME_SIZE as u32);
    assert_eq!(d.tables[0] & 0xffff_f000, 0x0020_0000);
    assert_eq!(d.free_frame(0xC000_0000, 0, KERNEL_BASE - 1), Err(FrameError::CorruptedAddress));
    assert_eq!(d.free_frame(v, KERNEL_END, u32::MAX), Err(FrameError::CorruptedAddress));
    assert_eq!(d.lookup(0x10), Some(0x0030_0010));
    assert_eq!(d.free_frame(v, 0, KERNEL_BASE - 1), Ok(()));
    assert_eq!(d.lookup(0x10), None);
    assert!(!d.mmap_frame_state(0));
    let k = d.alloc_frame(0x0032_0000, KERNEL_MODE, KERNEL_END, 0x0022_0000).unwrap();
    assert_eq!(k, 0xC032_0000);
    assert_eq!(d.lookup(0xC032_0004), Some(0x0032_0004));
    assert_eq!(d.lookup(0xC022_0000), Some(0x0022_0000));
    assert_eq!(d.free_frame(k, KERNEL_END, u32::MAX), Ok(()));
    assert_eq!(d.lookup(0xC032_0004), None);
    assert!(!d.mmap_frame_state(0xC0320));
    assert_eq!(d.alloc_frame(0x4000_0000, KERNEL_MODE, KERNEL_END, 0x0022_0000), None);
}

#[test]
fn new_table_maps_its_own_frame() {
    let mut d = PageDirectory::empty(0x1000);
    d.new_table(0x300, 0x0000_5000, KERNEL_MODE);
    assert_eq!(d.lookup(0xC000_5000), Some(0x5000));
    assert!(d.mmap_frame_state(0xC0005));
    assert_eq!(d.lookup(0xC000_6000), None);
    d.new_table(0, 0x0000_6000, USER_MODE);
    assert_eq!(d.lookup(0xC000_6000), None);
    assert!(!d.mmap_frame_state(0xC0006));
}

#[test]
fn update_mirrors_kernel_half_only() {
    let mut k = PageDirectory::empty(0x1000);
    k.new_table(0x300, 0x0020_0000, KERNEL_MODE);
    k.map_page(0xC0000, 0x0000_0000, KERNEL_MODE);
    let mut d = PageDirectory::empty(0x2000);
    d.new_table(0, 0x0021_0000, USER_MODE);
    d.map_page(1, 0x0040_0000, USER_MODE);
    d.update(&k);
    assert_eq!(d.lookup(0xC000_0123), Some(0x123));
    assert_eq!(d.lookup(0x1004), Some(0x0040_0004));
    assert_eq!(k.lookup(0x1004), None);
}

#[test]
fn exec_load_sets_up_task() {
    let mut m = manager();
    let mut t = Task::new();
    let (code, stack) = m.exec_load(&mut t, 1000).unwrap();
    let start = m.heap.start;
    assert_eq!(t.pd.base + KERNEL_BASE, start + FRAME_SIZE as u32);
    assert_eq!(code, start + HEADER_SIZE + TABLE_STORAGE + HEADER_SIZE + MMAP_SIZE as u32 + HEADER_SIZE);
    assert_eq!(stack, code + 1008 + HEADER_SIZE);
    assert!(!t.is_free);
    assert_eq!(t.tss.eip, 0);
    assert_eq!(t.tss.esp, stack + STACK_SIZE as u32);
    assert_eq!(t.tss.ebp, t.tss.esp);
    assert_eq!(t.tss.cr3, t.pd.base);
    assert_eq!(t.pd.lookup(stack), m.kernel.lookup(stack));
    assert!(t.pd.lookup(stack).is_some());
    assert_eq!(m.kfree(stack), Ok(()));
    assert_eq!(m.kfree(code), Ok(()));
    t.pd.free(&mut m.heap);
    assert_eq!(m.heap.blocks.len(), 1);
}

#[test]
fn exec_load_out_of_memory_leaves_task() {
    let boot = BootInfo { kernel_start: 0xC000_0000, kernel_end: KERNEL_END, multiboot_addr: 0, multiboot_size: 0 };
    let kernel = paging_init(&boot, 0x1000);
    let mut m = MemoryManager::kheap_init(kernel, KERNEL_END, TABLE_STORAGE + MMAP_SIZE as u32 + 0x2000).unwrap();
    let mut t = Task::new();
    assert_eq!(m.exec_load(&mut t, 100), Err(ExecError::NoMemory));
    assert!(t.is_free);
    assert_eq!(t.pd.base, 0);
    assert_eq!(m.heap.blocks.len(), 1);
    assert!(m.heap.blocks[0].free);
}

#[test]
fn directory_teardown_frees_its_tables() {
    let mut m = manager();
    let mut d = m.new_directory().unwrap();
    let v = m.umalloc(&mut d, 3 * FRAME_SIZE as u32).unwrap();
    let used = |m: &MemoryManager| m.heap.blocks.iter().filter(|b| !b.free).count();
    assert_eq!(used(&m), 4);
    assert_eq!(m.ufree(&d, v), Ok(()));
    assert_eq!(used(&m), 3);
    d.free(&mut m.heap);
    assert_eq!(used(&m), 0);
    assert_eq!(m.heap.blocks.len(), 1);
}
