use vstd::prelude::*;

verus! {

/// Symbol table of an a.out kernel image, as the boot loader reports it.
pub struct MultibootAoutSymbolTable {
    pub tabsize: u32,
    pub strsize: u32,
    pub addr: u32,
    pub reserved: u32,
}

/// Section header table of an ELF kernel image, as the boot loader reports it.
pub struct MultibootElfSectionHeaderTable {
    pub num: u32,
    pub size: u32,
    pub addr: u32,
    pub shndx: u32,
}

/// The information block the boot loader hands the kernel.
pub struct MultibootInfo {
    pub flags: u32,
    pub mem_lower: u32,
    pub mem_upper: u32,
    pub boot_device: u32,
    pub cmdline: u32,
    pub mods_count: u32,
    pub mods_addr: u32,
    pub aout_sym: MultibootAoutSymbolTable,
    pub elf_sec: MultibootElfSectionHeaderTable,
    pub mmap_length: u32,
    pub mmap_addr: u32,
    pub drives_length: u32,
    pub drives_addr: u32,
    pub config_table: u32,
    pub boot_loader_name: u32,
    pub apm_table: u32,
    pub vbe_control_info: u32,
    pub vbe_mode_info: u32,
    pub vbe_mode: u16,
    pub vbe_interface_seg: u16,
    pub vbe_interface_off: u16,
    pub vbe_interface_len: u16,
}

/// One boot module: the bytes from `mod_start` to `mod_end - 1`.
pub struct MultibootModList {
    pub mod_start: u32,
    pub mod_end: u32,
    pub cmdline: u32,
    pub pad: u32,
}

/// The processor state saved on entry to an interrupt handler.
#[derive(Clone, Copy, Debug)]
pub struct Regs {
    pub gs: u32,
    pub fs: u32,
    pub es: u32,
    pub ds: u32,
    pub ebp: u32,
    pub edi: u32,
    pub esi: u32,
    pub edx: u32,
    pub ecx: u32,
    pub ebx: u32,
    pub eax: u32,
    pub number: u32,
    pub error_code: u32,
    pub eip: u32,
    pub cs: u32,
    pub eflags: u32,
    pub esp: u32,
    pub ss: u32,
}

} // verus!
