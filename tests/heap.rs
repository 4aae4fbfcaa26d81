use rustos::kheap::{Heap, HeapError, HEADER_SIZE};
use rustos::memory::{paging_init, BootInfo, MemoryManager};

const KERNEL_END: u32 = 0xC010_0800;
const HEAP_SIZE: u32 = 0x10_0000;

fn manager() -> MemoryManager {
    let boot = BootInfo {
        kernel_start: 0xC000_0000,
        kernel_end: KERNEL_END,
        multiboot_addr: 0x9500,
        multiboot_size: 0x58,
    };
    let kernel = paging_init(&boot, 0x0010_2000);
    MemoryManager::kheap_init(kernel, KERNEL_END, HEAP_SIZE).unwrap()
}

/// Header addresses of the blocks, walked from the heap's start.
fn walk(h: &Heap) -> Vec<u32> {
    let mut addrs = vec![h.start];
    for b in &h.blocks {
        if b.next != 0 {
            addrs.push(b.next);
        }
    }
    addrs
}

fn check_contiguous(h: &Heap) {
    let addrs = walk(h);
    assert_eq!(addrs.len(), h.blocks.len());
    for i in 0..h.blocks.len() {
        let b = &h.blocks[i];
        if i + 1 < h.blocks.len() {
            assert!(addrs[i] < addrs[i + 1]);
            assert_eq!(b.next, addrs[i] + HEADER_SIZE + b.size);
            assert_eq!(h.blocks[i + 1].previous, addrs[i]);
        } else {
            assert_eq!(b.next, 0);
            assert_eq!(addrs[i] + HEADER_SIZE + b.size, h.end);
        }
    }
    assert_eq!(h.blocks[0].previous, 0);
}

#[test]
fn heap_starts_after_kernel() {
    let m = manager();
    assert_eq!(m.heap.start, 0xC010_1000);
    assert_eq!(m.heap.end, 0xC010_1000 + HEAP_SIZE);
    assert_eq!(m.heap.blocks.len(), 1);
    assert!(m.heap.blocks[0].free);
    assert_eq!(m.heap.blocks[0].size, HEAP_SIZE - HEADER_SIZE);
    assert_eq!(m.cr3, 0x0010_2000);
    assert_eq!(m.kernel.lookup(0xC010_1000), Some(0x0010_1000));
    assert!(m.kernel.mmap_frame_state(0xC0101));
    let pool = (m.heap.end / 0x1000) as u32;
    assert!(m.kernel.mmap_frame_state(pool));
    assert!(m.kernel.mmap_frame_state(pool + 0xff));
    let table = m.kernel.tables[0x300];
    assert_eq!(table & 0xffff_f000, (pool + (0xC010_1000u32 >> 22) - 0x300) * 0x1000 - 0xC000_0000);
}

#[test]
fn heap_init_rejects_tiny_heap() {
    let boot = BootInfo { kernel_start: 0xC000_0000, kernel_end: KERNEL_END, multiboot_addr: 0, multiboot_size: 0 };
    let kernel = paging_init(&boot, 0x1000);
    assert!(MemoryManager::kheap_init(kernel, KERNEL_END, 8).is_none());
}

#[test]
fn first_fit_reuse() {
    let mut m = manager();
    let a = m.kmalloc(100).unwrap();
    assert_eq!(a, m.heap.start + HEADER_SIZE);
    let b = m.kmalloc(50).unwrap();
    assert_eq!(b, a + 112 + HEADER_SIZE);
    assert_eq!(b % 16, 0);
    assert_eq!(m.kfree(a), Ok(()));
    let c = m.kmalloc(100).unwrap();
    assert_eq!(c, a);
    check_contiguous(&m.heap);
}

#[test]
fn sizes_are_rounded_to_the_alignment_unit() {
    let mut m = manager();
    let a = m.kmalloc(50).unwrap();
    let b = m.kmalloc(1).unwrap();
    assert_eq!(m.heap.blocks[0].size, 64);
    assert_eq!(b, a + 64 + HEADER_SIZE);
    assert_eq!(m.heap.blocks[1].size, 16);
    assert_eq!(a % 16, 0);
    assert_eq!(b % 16, 0);
}

#[test]
fn coalescing() {
    let mut m = manager();
    let a = m.kmalloc(64).unwrap();
    let b = m.kmalloc(64).unwrap();
    let c = m.kmalloc(64).unwrap();
    let _d = m.kmalloc(64).unwrap();
    assert_eq!(m.kfree(a), Ok(()));
    assert_eq!(m.kfree(c), Ok(()));
    assert!(m.heap.blocks[0].free);
    assert!(!m.heap.blocks[1].free);
    assert!(m.heap.blocks[2].free);
    assert_eq!(m.heap.blocks[0].size, 64);
    assert_eq!(m.heap.blocks[2].size, 64);
    assert_eq!(m.kfree(b), Ok(()));
    assert!(m.heap.blocks[0].free);
    assert_eq!(m.heap.blocks[0].size, 3 * 64 + 2 * HEADER_SIZE);
    assert_eq!(m.heap.blocks[0].next, a - HEADER_SIZE + 3 * 64 + 3 * HEADER_SIZE);
    assert!(!m.heap.blocks[1].free);
    assert_eq!(m.heap.blocks.len(), 3);
    check_contiguous(&m.heap);
}

#[test]
fn freeing_last_block_merges_with_tail() {
    let mut m = manager();
    let a = m.kmalloc(200).unwrap();
    assert_eq!(m.heap.blocks.len(), 2);
    assert_eq!(m.kfree(a), Ok(()));
    assert_eq!(m.heap.blocks.len(), 1);
    assert_eq!(m.heap.blocks[0].size, HEAP_SIZE - HEADER_SIZE);
    check_contiguous(&m.heap);
}

#[test]
fn invalid_frees_are_refused() {
    let mut m = manager();
    let a = m.kmalloc(32).unwrap();
    assert_eq!(m.kfree(a + 4), Err(HeapError::InvalidFree));
    assert_eq!(m.kfree(0), Err(HeapError::InvalidFree));
    assert_eq!(m.kfree(a), Ok(()));
    assert_eq!(m.kfree(a), Err(HeapError::InvalidFree));
    check_contiguous(&m.heap);
}

#[test]
fn allocation_satisfies_size() {
    let mut m = manager();
    for n in [1u32, 3, 17, 100, 4095, 4096, 9000] {
        let a = m.kmalloc(n).unwrap();
        assert_eq!(a % 16, 0);
        let addrs = walk(&m.heap);
        let i = addrs.iter().position(|&x| x == a - HEADER_SIZE).unwrap();
        let b = &m.heap.blocks[i];
        assert!(!b.free);
        assert!(b.size >= n);
        assert!(b.next == 0 || a + n <= b.next);
        assert!(m.kernel.lookup(a).is_some());
        assert!(m.kernel.lookup(a + n - 1).is_some());
    }
    check_contiguous(&m.heap);
}

#[test]
fn contiguity_after_mixed_calls() {
    let mut m = manager();
    let mut live = Vec::new();
    for n in 1..40u32 {
        live.push(m.kmalloc(n * 7).unwrap());
        if n % 3 == 0 {
            let a = live.remove(live.len() / 2);
            assert_eq!(m.kfree(a), Ok(()));
        }
        check_contiguous(&m.heap);
    }
    for a in live {
        assert_eq!(m.kfree(a), Ok(()));
        check_contiguous(&m.heap);
    }
    assert_eq!(m.heap.blocks.len(), 1);
}

#[test]
fn too_large_request_fails() {
    let mut m = manager();
    assert_eq!(m.kmalloc(HEAP_SIZE), None);
    assert_eq!(m.kmalloc(u32::MAX), None);
    assert_eq!(m.heap.blocks.len(), 1);
    assert_eq!(m.kmalloc(HEAP_SIZE - HEADER_SIZE), None);
    let all = m.kmalloc(HEAP_SIZE - 2 * HEADER_SIZE).unwrap();
    assert_eq!(m.heap.blocks.len(), 2);
    assert!(!m.heap.blocks[0].free);
    assert!(m.heap.blocks[1].free);
    assert_eq!(m.heap.blocks[1].size, 0);
    assert_eq!(m.heap.blocks[1].next, 0);
    assert_eq!(m.kmalloc(1), None);
    assert_eq!(m.kfree(all), Ok(()));
    assert_eq!(m.heap.blocks.len(), 1);
}

#[test]
fn heap_new_single_block() {
    let h = Heap::new(0x1000, 0x100);
    assert_eq!(h.blocks.len(), 1);
    assert_eq!(h.blocks[0].size, 0x100 - HEADER_SIZE);
    assert!(h.blocks[0].free);
    assert_eq!(h.empty_block(0x10), (0, 0x1000));
}
