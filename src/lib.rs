use vstd::prelude::*;

pub mod curses;
pub mod fs;
pub mod gdt;
pub mod idt;
pub mod keyboard;
pub mod kheap;
pub mod memory;
pub mod multiboot;
pub mod paging;
pub mod task;
pub mod timer;
pub mod vga;
