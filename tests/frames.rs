use rustos::memory::{paging_init, BootInfo};
use rustos::paging::{PageDirectory, FRAME_SIZE, MEMORY_FSIZE};

#[test]
fn bitmap_round_trip() {
    let mut d = PageDirectory::empty(0x1000);
    for i in [0u32, 7, 8, 9, 4095, 0xfffff] {
        d.mmap_set_frame(i);
        assert!(d.mmap_frame_state(i));
        d.mmap_reset_frame(i);
        assert!(!d.mmap_frame_state(i));
    }
    d.mmap_set_area(0, 5 * FRAME_SIZE as u32);
    d.mmap_reset_frame(3);
    assert_eq!(d.mmap_get_free_frame(), Some(3));
    assert_eq!(d.mmap_alloc_frame(0), Some(3 * FRAME_SIZE as u32));
    assert_eq!(d.mmap_get_free_frame(), Some(5));
}

#[test]
fn neighbouring_bits_are_kept() {
    let mut d = PageDirectory::empty(0);
    d.mmap_set_frame(8);
    d.mmap_set_frame(10);
    d.mmap_reset_frame(9);
    assert!(d.mmap_frame_state(8));
    assert!(!d.mmap_frame_state(9));
    assert!(d.mmap_frame_state(10));
    assert_eq!(d.mmap[1], 0b101);
}

#[test]
fn no_double_allocation() {
    let mut d = PageDirectory::empty(0);
    let a = d.mmap_alloc_frame(0).unwrap();
    let b = d.mmap_alloc_frame(0).unwrap();
    assert_ne!(a, b);
    assert_eq!(a, 0);
    assert_eq!(b, FRAME_SIZE as u32);
}

#[test]
fn alloc_frame_with_address_takes_that_frame() {
    let mut d = PageDirectory::empty(0);
    assert_eq!(d.mmap_alloc_frame(0x5123), Some(0x5000));
    assert!(d.mmap_frame_state(5));
    assert_eq!(d.mmap_alloc_frame(0x5fff), Some(0x5000));
    assert_eq!(d.mmap_get_free_frame(), Some(0));
}

#[test]
fn exhausted_bitmap_gives_none() {
    let mut d = PageDirectory::empty(0);
    d.mmap_set_area(0, ((MEMORY_FSIZE - 2) * FRAME_SIZE) as u32);
    assert_eq!(d.mmap_alloc_frame(0), Some(((MEMORY_FSIZE - 2) * FRAME_SIZE) as u32));
    assert_eq!(d.mmap_alloc_frame(0), Some(((MEMORY_FSIZE - 1) * FRAME_SIZE) as u32));
    assert_eq!(d.mmap_alloc_frame(0), None);
    assert_eq!(d.mmap_get_free_frame(), None);
    assert_eq!(d.mmap_get_free_area(FRAME_SIZE), None);
}

#[test]
fn set_area_covers_partial_frames() {
    let mut d = PageDirectory::empty(0);
    d.mmap_set_area(0x1800, 0x3001);
    assert!(!d.mmap_frame_state(0));
    assert!(d.mmap_frame_state(1));
    assert!(d.mmap_frame_state(2));
    assert!(d.mmap_frame_state(3));
    assert!(!d.mmap_frame_state(4));
}

#[test]
fn free_area_is_lowest_run() {
    let mut d = PageDirectory::empty(0);
    d.mmap_set_frame(2);
    d.mmap_set_frame(6);
    assert_eq!(d.mmap_get_free_area(2 * FRAME_SIZE), Some(0));
    assert_eq!(d.mmap_get_free_area(3 * FRAME_SIZE), Some(3));
    assert_eq!(d.mmap_get_free_area(4 * FRAME_SIZE), Some(7));
    assert_eq!(d.mmap_get_free_area(0), Some(0));
}

#[test]
fn boot_reservations() {
    let boot = BootInfo {
        kernel_start: 0xC000_0000,
        kernel_end: 0xC010_0800,
        multiboot_addr: 0x9500,
        multiboot_size: 0x58,
    };
    let d = paging_init(&boot, 0x0010_2000);
    assert_eq!(d.base, 0x0010_2000);
    assert!(d.mmap_frame_state(0));
    assert!(!d.mmap_frame_state(1));
    assert!(d.mmap_frame_state(0xC0000));
    assert!(d.mmap_frame_state(0xC0100));
    assert!(!d.mmap_frame_state(0xC0101));
    assert!(d.mmap_frame_state(0xC0009));
    assert!(d.mmap_frame_state(0xC000A));
    assert_eq!(d.lookup(0xC000_0000), None);
}
