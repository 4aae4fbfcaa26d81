use vstd::prelude::*;
use crate::kheap::{
    Heap, HeapError, Span, HEADER_SIZE, BLOCK_ALIGN, split_spans, merge_spans, merge_lo, merge_hi,
    live_block, holds, lemma_heap_contiguous, no_free_neighbours, lemma_unsplit,
};
use crate::task::{Task, STACK_SIZE};
use crate::paging::{
    MMAP_SIZE, PageDirectory, KERNEL_BASE, KERNEL_MODE, KERNEL_PAGE_NUMBER, FRAME_SIZE, MEMORY_FSIZE,
    TABLE_FSIZE, USER_MODE, PRESENT_WRITABLE, entry, entry_base, entry_present, entry_present_exec,
    frames_to_cover, page_of, lemma_page_bound, lemma_zero_absent, maps_itself, self_page,
};

verus! {

/// What the boot code tells the memory manager: where the kernel image lies in
/// the kernel's half, and where the boot loader's information block lies in
/// physical memory.
pub struct BootInfo {
    pub kernel_start: u32,
    pub kernel_end: u32,
    pub multiboot_addr: u32,
    pub multiboot_size: u32,
}

/// Whether frame `f` overlaps the byte range `[start, end)`.
pub open spec fn covers(start: int, end: int, f: int) -> bool {
    start / FRAME_SIZE as int <= f < frames_to_cover(end)
}

/// The kernel directory as boot leaves it: no table of its own yet, and frame
/// zero, the kernel image and the boot information marked used. `directory` is
/// the physical address of the directory the boot code loaded.
pub fn paging_init(boot: &BootInfo, directory: u32) -> (r: PageDirectory)
    requires
        KERNEL_BASE <= boot.kernel_start <= boot.kernel_end,
        boot.multiboot_addr as int + boot.multiboot_size < 0x4000_0000,
    ensures
        r.wf(),
        r.base == directory,
        forall|f: int| 0 <= f < MEMORY_FSIZE ==> #[trigger] r.frames()[f] == (f == 0
            || covers(boot.kernel_start as int, boot.kernel_end as int, f)
            || covers(boot.multiboot_addr + KERNEL_BASE, boot.multiboot_addr + boot.multiboot_size + KERNEL_BASE, f)),
        forall|p: int| 0 <= p < MEMORY_FSIZE ==> #[trigger] r.page_frame(p) is None,
{
    let mut d = PageDirectory::empty(directory);
    proof {
        assert forall|p: int| 0 <= p < MEMORY_FSIZE implies #[trigger] d.page_frame(p) is None by {
            assert(0 <= p / 0x400 && p / 0x400 < 0x400);
            crate::paging::lemma_zero_absent();
        }
    }
    let ghost d0 = d;
    d.mmap_set_frame(0);
    d.mmap_set_area(boot.kernel_start, boot.kernel_end);
    let mb = boot.multiboot_addr + KERNEL_BASE;
    d.mmap_set_area(mb, mb + boot.multiboot_size);
    proof {
        assert forall|p: int| 0 <= p < MEMORY_FSIZE implies #[trigger] d.page_frame(p) is None by {
            assert(d0.page_frame(p) is None);
        }
    }
    d
}

/// The memory manager: the kernel directory, the kernel heap laid out in the
/// kernel's half, and the base register value of the active directory.
pub struct MemoryManager {
    pub kernel: PageDirectory,
    pub heap: Heap,
    pub cr3: u32,
}

/// `size` rounded up to the heap's alignment unit.
pub open spec fn align_up(size: int) -> int {
    (size + BLOCK_ALIGN - 1) / BLOCK_ALIGN as int * BLOCK_ALIGN as int
}

/// Whether block `i` of `s` can hold `size` bytes. The last block must keep
/// room for the header of a new, possibly empty, free last block.
pub open spec fn span_fits(s: Seq<Span>, i: int, size: int) -> bool {
    &&& s[i].2
    &&& if i == s.len() - 1 {
        s[i].1 >= size + HEADER_SIZE
    } else {
        s[i].1 >= size
    }
}

/// Block `i` is the first block of `s` that can hold `size` bytes.
pub open spec fn first_fit(s: Seq<Span>, size: int, i: int) -> bool {
    &&& 0 <= i < s.len()
    &&& span_fits(s, i, size)
    &&& forall|j: int| 0 <= j < i ==> !#[trigger] span_fits(s, j, size)
}

/// The allocated block `i` of `s` has its payload at `a`, and `size` bytes
/// written from `a` on stay short of the next header and of the heap's end.
pub open spec fn grants(s: Seq<Span>, end: int, a: int, size: int, i: int) -> bool {
    &&& 0 <= i < s.len()
    &&& s[i].0 + HEADER_SIZE == a
    &&& !s[i].2
    &&& s[i].1 >= size
    &&& i + 1 < s.len() ==> a + size <= s[i + 1].0
    &&& a + size <= end
}

impl MemoryManager {
    /// Both structures are well formed and the heap lies in the kernel's half.
    ///
    /// Right after the heap lies the pool of frames reserved for the kernel's
    /// page tables, and every kernel mapping is at the identity offset.
    pub open spec fn wf(&self) -> bool {
        &&& self.kernel.wf()
        &&& self.heap.wf()
        &&& KERNEL_BASE <= self.heap.start
        &&& self.pool() + KERNEL_TABLES < MEMORY_FSIZE
        &&& identity_mapped(self.kernel)
    }

    /// First frame of the pool that holds the kernel's page tables.
    pub open spec fn pool(&self) -> int {
        frames_to_cover(self.heap.end as int)
    }

    /// Whether every page that overlaps `[from, to)` is mapped in the kernel
    /// directory, to the frame at its address less the kernel base.
    pub open spec fn backed(&self, from: int, to: int) -> bool {
        forall|p: int| page_of(from) <= p < frames_to_cover(to) ==> #[trigger] self.kernel.page_frame(p)
            == Some((p * FRAME_SIZE - KERNEL_BASE) as u32)
    }

    /// Every kernel table present now and not before has its storage in the
    /// table pool, outside every heap block.
    pub open spec fn tables_from_pool(&self, before: PageDirectory) -> bool {
        forall|t: int| KERNEL_PAGE_NUMBER <= t < TABLE_FSIZE && !entry_present(before.tables@[t])
            && entry_present(self.kernel.tables@[t])
            ==> #[trigger] entry_base(self.kernel.tables@[t]) == table_frame(self.pool(), t)
    }

    /// Sets up the kernel heap right after the kernel image, `heap_size` bytes
    /// long, with its first page mapped. `None` when the heap would not fit in
    /// the address space or cannot hold one header.
    pub fn kheap_init(kernel: PageDirectory, kernel_end: u32, heap_size: u32) -> (r: Option<MemoryManager>)
        requires
            kernel.wf(),
            identity_mapped(kernel),
            KERNEL_BASE <= kernel_end,
        ensures
            r is Some <==> (HEADER_SIZE <= heap_size
                && frames_to_cover(kernel_end as int) * FRAME_SIZE + heap_size / BLOCK_ALIGN * BLOCK_ALIGN <= u32::MAX
                && frames_to_cover(frames_to_cover(kernel_end as int) * FRAME_SIZE + heap_size / BLOCK_ALIGN * BLOCK_ALIGN)
                    + KERNEL_TABLES < MEMORY_FSIZE),
            r matches Some(m) ==> {
                &&& m.wf()
                &&& m.cr3 == kernel.base
                &&& m.kernel.base == kernel.base
                &&& m.heap.start == frames_to_cover(kernel_end as int) * FRAME_SIZE
                &&& m.heap.end == m.heap.start + heap_size / BLOCK_ALIGN * BLOCK_ALIGN
                &&& m.heap.spans() == seq![(m.heap.start as int, heap_size / BLOCK_ALIGN * BLOCK_ALIGN - HEADER_SIZE, true)]
                &&& m.backed(m.heap.start as int, m.heap.start + HEADER_SIZE)
                &&& m.kernel.frames()[page_of(m.heap.start as int)]
                &&& forall|f: int| m.pool() <= f < m.pool() + KERNEL_TABLES ==> #[trigger] m.kernel.frames()[f]
                &&& m.tables_from_pool(kernel)
            },
    {
        let mut start: u32 = kernel_end / FRAME_SIZE as u32;
        if kernel_end % FRAME_SIZE as u32 != 0 {
            start = start + 1;
        }
        proof {
            lemma_page_bound(kernel_end);
        }
        let size: u32 = heap_size / BLOCK_ALIGN * BLOCK_ALIGN;
        if size < HEADER_SIZE || start as u64 * FRAME_SIZE as u64 + size as u64 > u32::MAX as u64 {
            return None;
        }
        let start = start * FRAME_SIZE as u32;
        assert(start % 16 == 0 && size % 16 == 0) by (nonlinear_arith)
            requires
                start == (start / 0x1000) * 0x1000,
                size == heap_size / 16 * 16;
        let pool = frames_cover(start + size);
        if pool >= MEMORY_FSIZE as u32 - KERNEL_TABLES {
            return None;
        }
        let heap = Heap::new(start, size);
        let mut kernel = kernel;
        let ghost k0 = kernel;
        assert(pool * 0x1000 <= 0xffff_ffff && (pool + KERNEL_TABLES) * 0x1000 <= 0xffff_ffff
            && (pool * 0x1000) / 0x1000 == pool && ((pool + KERNEL_TABLES) * 0x1000) % 0x1000 == 0
            && ((pool + KERNEL_TABLES) * 0x1000) / 0x1000 == pool + KERNEL_TABLES) by (nonlinear_arith)
            requires
                pool + KERNEL_TABLES < 0x100000;
        kernel.mmap_set_area(pool * FRAME_SIZE as u32, (pool + KERNEL_TABLES) * FRAME_SIZE as u32);
        proof {
            assert forall|p: int| 0 <= p < MEMORY_FSIZE implies #[trigger] kernel.page_frame(p) == k0.page_frame(p) by {}
            assert(start >= KERNEL_BASE) by (nonlinear_arith)
                requires
                    start == (kernel_end / 0x1000 + (if kernel_end % 0x1000 != 0 { 1int } else { 0int })) * 0x1000,
                    kernel_end >= 0xC000_0000;
            assert(identity_mapped(kernel));
        }
        back_pages(&mut kernel, start, start + HEADER_SIZE, pool);
        proof {
            assert(kernel.page_frame(page_of(start as int)) is Some);
        }
        let base = kernel.base;
        Some(MemoryManager { kernel, heap, cr3: base })
    }

    /// Allocates `size` bytes from the kernel heap, first fit, and returns the
    /// address of the payload. The size is rounded up to the alignment unit;
    /// the pages under the block are mapped. `None` when no block can hold it.
    pub fn kmalloc(&mut self, size: u32) -> (r: Option<u32>)
        requires
            old(self).wf(),
        ensures
            final(self).wf(),
            final(self).cr3 == old(self).cr3,
            final(self).kernel.base == old(self).kernel.base,
            final(self).heap.start == old(self).heap.start,
            final(self).heap.end == old(self).heap.end,
            forall|p: int| 0 <= p < MEMORY_FSIZE && old(self).kernel.page_frame(p) is Some
                ==> #[trigger] final(self).kernel.page_frame(p) == old(self).kernel.page_frame(p),
            r is None <==> (size > u32::MAX - 32 || forall|j: int| 0 <= j < old(self).heap.spans().len()
                ==> !#[trigger] span_fits(old(self).heap.spans(), j, align_up(size as int))),
            r is None ==> final(self).heap.spans() == old(self).heap.spans(),
            r matches Some(a) ==> exists|i: int| {
                &&& #[trigger] first_fit(old(self).heap.spans(), align_up(size as int), i)
                &&& a == old(self).heap.spans()[i].0 + HEADER_SIZE
                &&& final(self).heap.spans() == split_spans(old(self).heap.spans(), i, align_up(size as int))
                &&& grants(final(self).heap.spans(), final(self).heap.end as int, a as int, size as int, i)
            },
            r matches Some(a) ==> final(self).backed(a - HEADER_SIZE, a + align_up(size as int)),
            r matches Some(a) ==> a % BLOCK_ALIGN == 0,
            final(self).tables_from_pool(old(self).kernel),
            forall|f: int| 0 <= f < MEMORY_FSIZE && old(self).kernel.frames()[f] ==> #[trigger] final(self).kernel.frames()[f],
            r matches Some(a) ==> old(self).heap.start + HEADER_SIZE <= a
                && a + align_up(size as int) <= old(self).heap.end,
    {
        if size > u32::MAX - 32 {
            return None;
        }
        let aligned: u32 = (size + (BLOCK_ALIGN - 1)) / BLOCK_ALIGN * BLOCK_ALIGN;
        assert(aligned % 16 == 0 && aligned >= size && aligned <= u32::MAX - 16) by (nonlinear_arith)
            requires
                aligned == (size + 15) / 16 * 16,
                size <= u32::MAX - 32;
        let ghost s = self.heap.spans();
        let ghost h0 = self.heap;
        let (i, a) = self.heap.empty_block(aligned);
        proof {
            crate::kheap::lemma_block_inside(&self.heap, i as int);
            assert(s[i as int].0 == a);
        }
        let last = i == self.heap.blocks.len() - 1;
        let b = self.heap.blocks[i];
        if !(b.free && b.size >= aligned && (!last || b.size - aligned >= HEADER_SIZE)) {
            proof {
                assert forall|j: int| 0 <= j < s.len() implies !#[trigger] span_fits(s, j, align_up(size as int)) by {
                    assert(!self.heap.fits(j, aligned as int));
                }
            }
            return None;
        }
        let top: u32 = a + HEADER_SIZE + aligned;
        let pool = frames_cover(self.heap.end);
        back_pages(&mut self.kernel, a, top, pool);
        self.heap.alloc_block(i, a, aligned);
        proof {
            assert(first_fit(s, align_up(size as int), i as int)) by {
                assert forall|j: int| 0 <= j < i implies !#[trigger] span_fits(s, j, align_up(size as int)) by {
                    assert(!h0.fits(j, aligned as int));
                }
            }
            let t = self.heap.spans();
            lemma_heap_contiguous(&self.heap);
            assert(t[i as int] == split_spans(s, i as int, aligned as int)[i as int]);
            lemma_heap_contiguous(&h0);
            if i > 0 {
                assert(s[0].0 < s[i as int].0);
            }
            crate::kheap::lemma_addr_aligned(&h0, i as int);
        }
        Some(a + HEADER_SIZE)
    }

    /// Frees the kernel heap block whose payload starts at `addr`; see
    /// [`Heap::kfree`].
    pub fn kfree(&mut self, addr: u32) -> (r: Result<(), HeapError>)
        requires
            old(self).wf(),
        ensures
            final(self).wf(),
            final(self).cr3 == old(self).cr3,
            final(self).kernel == old(self).kernel,
            final(self).heap.start == old(self).heap.start,
            final(self).heap.end == old(self).heap.end,
            r is Err <==> !exists|k: int| #[trigger] live_block(old(self).heap.spans(), addr as int, k),
            r is Err ==> final(self).heap.spans() == old(self).heap.spans(),
            r is Ok ==> exists|k: int| #[trigger] live_block(old(self).heap.spans(), addr as int, k)
                && final(self).heap.spans() == merge_spans(
                    old(self).heap.spans(),
                    merge_lo(old(self).heap.spans(), k),
                    merge_hi(old(self).heap.spans(), k),
                ),
    {
        self.heap.kfree(addr)
    }

    /// A fresh directory for a task. Its entry table and its bitmap each take a
    /// block of the kernel heap, first fit, the table's block first; its kernel
    /// half is that of the kernel directory, its own half is empty and its
    /// bitmap clear. `None`, with the heap untouched, when either block cannot
    /// be had.
    pub fn new_directory(&mut self) -> (r: Option<PageDirectory>)
        requires
            old(self).wf(),
        ensures
            final(self).wf(),
            final(self).cr3 == old(self).cr3,
            final(self).kernel.base == old(self).kernel.base,
            forall|p: int| 0 <= p < MEMORY_FSIZE && old(self).kernel.page_frame(p) is Some
                ==> #[trigger] final(self).kernel.page_frame(p) == old(self).kernel.page_frame(p),
            r is None <==> !directory_fits(old(self).heap.spans()),
            r is None ==> final(self).heap.spans() == old(self).heap.spans(),
            r matches Some(d) ==> {
                let s0 = old(self).heap.spans();
                let s1 = after_alloc(s0, TABLE_STORAGE as int);
                &&& d.wf()
                &&& d.shares_kernel_half(final(self).kernel)
                &&& forall|f: int| 0 <= f < MEMORY_FSIZE ==> !#[trigger] d.frames()[f]
                &&& forall|i: int| 0 <= i < KERNEL_PAGE_NUMBER ==> #[trigger] d.tables@[i] == 0
                &&& d.base % 0x1000 == 0
                &&& final(self).heap.spans() == after_alloc(s1, MMAP_SIZE as int)
                &&& s0[ff(s0, TABLE_STORAGE as int)].0 + HEADER_SIZE <= d.base + KERNEL_BASE
                &&& d.base + KERNEL_BASE + FRAME_SIZE <= s0[ff(s0, TABLE_STORAGE as int)].0 + HEADER_SIZE + TABLE_STORAGE
                &&& d.mmap_block == s1[ff(s1, MMAP_SIZE as int)].0 + HEADER_SIZE
            },
    {
        let ghost s0 = self.heap.spans();
        proof {
            lemma_heap_contiguous(&self.heap);
        }
        assert(align_up(TABLE_STORAGE as int) == TABLE_STORAGE as int);
        let storage = match self.kmalloc(TABLE_STORAGE) {
            Some(a) => a,
            None => {
                return None;
            },
        };
        let ghost i = choose|i: int| #[trigger] first_fit(s0, align_up(TABLE_STORAGE as int), i)
            && storage == s0[i].0 + HEADER_SIZE
            && self.heap.spans() == split_spans(s0, i, align_up(TABLE_STORAGE as int))
            && grants(self.heap.spans(), self.heap.end as int, storage as int, TABLE_STORAGE as int, i);
        proof {
            assert(align_up(TABLE_STORAGE as int) == TABLE_STORAGE);
            lemma_first_fit_unique(s0, TABLE_STORAGE as int, i);
        }
        let ghost s1 = self.heap.spans();
        assert(align_up(MMAP_SIZE as int) == MMAP_SIZE);
        let mb = match self.kmalloc(MMAP_SIZE as u32) {
            Some(a) => a,
            None => {
                self.give_back(storage, Ghost(s0), Ghost(i), Ghost(TABLE_STORAGE as int));
                return None;
            },
        };
        proof {
            let j = choose|j: int| #[trigger] first_fit(s1, align_up(MMAP_SIZE as int), j)
                && mb == s1[j].0 + HEADER_SIZE
                && self.heap.spans() == split_spans(s1, j, align_up(MMAP_SIZE as int));
            lemma_first_fit_unique(s1, MMAP_SIZE as int, j);
        }
        let table: u32 = (storage + (FRAME_SIZE as u32 - 1)) / FRAME_SIZE as u32 * FRAME_SIZE as u32;
        assert(table >= storage && table < storage + 0x1000 && table % 0x1000 == 0) by (nonlinear_arith)
            requires
                table == (storage + 0xfff) / 0x1000 * 0x1000,
                storage <= 0xffff_ffff - 0x2000;
        let mut d = self.kernel.new_directory(table - KERNEL_BASE);
        let ghost d0 = d;
        d.mmap_block = mb;
        assert(d.frames() =~= d0.frames());
        Some(d)
    }

    /// Makes `dir` the active directory. A directory other than the kernel's
    /// first takes the kernel directory's kernel half, so the kernel stays
    /// mapped the same way once it is active.
    pub fn switch_directory(&mut self, dir: &mut PageDirectory)
        requires
            old(self).wf(),
            old(dir).wf(),
        ensures
            final(self).cr3 == old(dir).base,
            final(self).kernel == old(self).kernel,
            final(self).heap == old(self).heap,
            final(dir).wf(),
            old(dir).base != old(self).kernel.base ==> final(dir).mirrors(*old(dir), old(self).kernel),
            old(dir).base == old(self).kernel.base ==> *final(dir) == *old(dir),
    {
        if dir.base != self.kernel.base {
            dir.update(&self.kernel);
        }
        self.cr3 = dir.base;
    }

    /// Maps `size` bytes, whole pages and at least one, into the own half of the
    /// task directory `dir`, at the lowest run of free frames of its bitmap. The
    /// frames come from one kernel heap block, so the kernel heap keeps the
    /// account of physical memory. Page tables the run needs and `dir` lacks get
    /// their frames from a second heap block of their own, which `ufree` leaves
    /// alone: it lives as long as the directory. Returns the virtual address in
    /// `dir`; `None`, with `dir` and the heap untouched, when its own half has no
    /// such run or the heap has no room for the frames.
    #[verifier::rlimit(80)]
    pub fn umalloc(&mut self, dir: &mut PageDirectory, size: u32) -> (r: Option<u32>)
        requires
            old(self).wf(),
            old(dir).wf(),
        ensures
            final(self).wf(),
            final(self).cr3 == old(self).cr3,
            final(self).kernel.base == old(self).kernel.base,
            final(dir).wf(),
            final(dir).base == old(dir).base,
            r is None ==> *final(dir) == *old(dir),
            r is None ==> final(self).heap.spans() == old(self).heap.spans(),
            r is None <==> umalloc_fails(*old(dir), old(self).heap.spans(), user_pages(size as int)),
            r matches Some(v) ==> {
                let f = v as int / FRAME_SIZE as int;
                let n = user_pages(size as int);
                &&& v as int == f * FRAME_SIZE
                &&& f + n <= USER_FRAMES
                &&& old(dir).area_free(f, n)
                &&& forall|t: int| 0 <= t < f ==> !#[trigger] old(dir).area_free(t, n)
                &&& forall|p: int| f <= p < f + n ==> #[trigger] final(dir).page_frame(p) is Some
                    && final(dir).frames()[p]
                &&& forall|p: int| 0 <= p < MEMORY_FSIZE && !(f <= p < f + n)
                    ==> #[trigger] final(dir).frames()[p] == old(dir).frames()[p]
                &&& forall|p: int| 0 <= p < MEMORY_FSIZE && !(f <= p < f + n) && old(dir).page_frame(p) is Some
                    ==> #[trigger] final(dir).page_frame(p) == old(dir).page_frame(p)
            },
            r matches Some(v) ==> exists|i: int|
                #[trigger] first_fit(old(self).heap.spans(), pages_backing(user_pages(size as int)), i)
                && umalloc_heap(old(self).heap.spans(), final(self).heap.spans(), *old(dir), *final(dir),
                    v as int / FRAME_SIZE as int, user_pages(size as int), i),
    {
        let pages: u32 = if size <= FRAME_SIZE as u32 {
            1
        } else if size % FRAME_SIZE as u32 == 0 {
            size / FRAME_SIZE as u32
        } else {
            size / FRAME_SIZE as u32 + 1
        };
        assert(pages == user_pages(size as int));
        proof {
            lemma_page_bound(size);
        }
        let ghost d0 = *dir;
        let ghost s0 = self.heap.spans();
        proof {
            lemma_heap_contiguous(&self.heap);
        }
        if pages > USER_FRAMES {
            return None;
        }
        assert(pages as int * 0x1000 <= 0xC000_0000) by (nonlinear_arith)
            requires
                pages <= 0xC0000;
        let f: u32 = match dir.mmap_get_free_area(pages as usize * FRAME_SIZE) {
            Some(f) => f,
            None => {
                proof {
                    assert forall|t: int| 0 <= t && t + pages <= USER_FRAMES implies !#[trigger] d0.area_free(t, pages as int) by {
                        assert(!d0.area_free(t, (((pages as usize * FRAME_SIZE) as usize) / FRAME_SIZE) as int));
                    }
                }
                return None;
            },
        };
        assert((pages as int * 0x1000) / 0x1000 == pages as int) by (nonlinear_arith);
        if f as u64 + pages as u64 > USER_FRAMES as u64 {
            proof {
                assert forall|t: int| 0 <= t && t + pages <= USER_FRAMES implies !#[trigger] d0.area_free(t, pages as int) by {
                    if t >= f {
                        assert(t + pages > USER_FRAMES);
                    }
                }
            }
            return None;
        }
        proof {
            lemma_lowest_area(d0, pages as int, f as int);
        }
        let backing: u32 = (pages + 1) * FRAME_SIZE as u32;
        assert(backing == pages_backing(pages as int));
        assert(align_up(backing as int) == backing as int);
        let b: u32 = match self.kmalloc(backing) {
            Some(b) => b,
            None => {
                return None;
            },
        };
        let ghost blk = choose|i: int| #[trigger] first_fit(s0, align_up(backing as int), i)
            && b == s0[i].0 + HEADER_SIZE
            && self.heap.spans() == split_spans(s0, i, align_up(backing as int))
            && grants(self.heap.spans(), self.heap.end as int, b as int, backing as int, i);
        let ghost s1 = self.heap.spans();
        proof {
            lemma_first_fit_unique(s0, backing as int, blk);
            lemma_heap_contiguous(&self.heap);
        }
        let pb: u32 = (b + (FRAME_SIZE as u32 - 1)) / FRAME_SIZE as u32 * FRAME_SIZE as u32;
        let phys0: u32 = pb - KERNEL_BASE;
        proof {
            lemma_pages_room(b as int, pb as int, pages as int, self.heap.end as int);
        }
        let first_t: u32 = f / TABLE_FSIZE as u32;
        let last_t: u32 = (f + pages - 1) / TABLE_FSIZE as u32;
        proof {
            lemma_tables_spanned(f as int, pages as int);
        }
        // Is a table of the run missing?
        let mut missing = false;
        let mut t: u32 = first_t;
        while t <= last_t
            invariant
                *dir == d0,
                dir.wf(),
                first_t == f as int / TABLE_FSIZE as int,
                last_t == (f + pages - 1) as int / TABLE_FSIZE as int,
                last_t < KERNEL_PAGE_NUMBER,
                first_t <= t <= last_t + 1,
                missing == exists|u: int| first_t <= u < t && !#[trigger] entry_present(d0.tables@[u]),
            decreases last_t + 1 - t,
        {
            if !entry_present_exec(dir.tables[t as usize]) {
                missing = true;
            }
            t = t + 1;
        }
        assert(missing == some_missing(d0, f as int, pages as int));
        let mut tp: u32 = 0;
        let ghost mut kt: int = 0;
        if missing {
            let tbacking: u32 = (pages / 1024 + 3) * FRAME_SIZE as u32;
            assert(tbacking == tables_backing(pages as int));
            assert(align_up(tbacking as int) == tbacking as int);
            let tb: u32 = match self.kmalloc(tbacking) {
                Some(tb) => tb,
                None => {
                    proof {
                        assert(!has_fit(s1, tables_backing(pages as int)));
                    }
                    self.give_back(b, Ghost(s0), Ghost(blk), Ghost(backing as int));
                    return None;
                },
            };
            proof {
                let j = choose|j: int| #[trigger] first_fit(s1, align_up(tbacking as int), j)
                    && tb == s1[j].0 + HEADER_SIZE
                    && self.heap.spans() == split_spans(s1, j, align_up(tbacking as int))
                    && grants(self.heap.spans(), self.heap.end as int, tb as int, tbacking as int, j);
                lemma_first_fit_unique(s1, tbacking as int, j);
                kt = j;
            }
            let tpk: u32 = (tb + (FRAME_SIZE as u32 - 1)) / FRAME_SIZE as u32 * FRAME_SIZE as u32;
            proof {
                lemma_tables_room(tb as int, tpk as int, pages as int, self.heap.end as int);
            }
            tp = tpk - KERNEL_BASE;
            proof {
                assert(tables_frames_in(self.heap.spans(), tp as int, pages as int, kt));
            }
        }
        let ghost s2 = self.heap.spans();
        install_tables(dir, first_t, last_t, tp, pages);
        let ghost dt = *dir;
        let mut i: u32 = 0;
        while i < pages
            invariant
                dir.wf(),
                dir.base == d0.base,
                dir.tables@ == dt.tables@,
                i <= pages,
                f as int + pages <= USER_FRAMES,
                first_t == f as int / TABLE_FSIZE as int,
                last_t == (f + pages - 1) as int / TABLE_FSIZE as int,
                phys0 as int + pages * FRAME_SIZE <= u32::MAX,
                forall|u: int| first_t <= u <= last_t ==> #[trigger] entry_present(dir.tables@[u]),
                forall|p: int| f <= p < f + i ==> #[trigger] dir.page_frame(p) is Some && dir.frames()[p],
                forall|p: int| f <= p < f + i ==> #[trigger] dir.pages@[p]
                    == entry((phys0 + (p - f) * FRAME_SIZE) as u32, PRESENT_WRITABLE | USER_MODE),
                forall|p: int| 0 <= p < MEMORY_FSIZE && !(f <= p < f + i)
                    ==> #[trigger] dir.frames()[p] == d0.frames()[p],
                forall|p: int| 0 <= p < MEMORY_FSIZE && !(f <= p < f + i) && d0.page_frame(p) is Some
                    ==> #[trigger] dir.page_frame(p) == d0.page_frame(p),
            decreases pages - i,
        {
            proof {
                lemma_frame_offset(phys0 as int, i as int, pages as int);
                assert(first_t <= (f + i) as int / 0x400 <= last_t) by (nonlinear_arith)
                    requires
                        first_t == f as int / 0x400,
                        last_t == (f + pages - 1) as int / 0x400,
                        i < pages;
            }
            let ghost before = *dir;
            dir.map_page(f + i, phys0 + i * FRAME_SIZE as u32, USER_MODE);
            i = i + 1;
        }
        proof {
            assert((f as int * 0x1000) / 0x1000 == f as int) by (nonlinear_arith);
            assert(f as int * 0x1000 < 0xC000_0000) by (nonlinear_arith)
                requires
                    f as int + pages <= 0xC0000,
                    pages >= 1;
            assert(pb as int == frames_base(s0[blk].0 + HEADER_SIZE) + KERNEL_BASE);
            let kp = if missing { lemma_block_kept(s1, blk, kt, tables_backing(pages as int)) } else { blk };
            assert(s2[kp] == s1[blk]);
            assert forall|p: int| f <= p < f + pages implies #[trigger] dir.table_present(p) by {
                assert(first_t <= p / 0x400 <= last_t) by (nonlinear_arith)
                    requires
                        first_t == f as int / 0x400,
                        last_t == (f + pages - 1) as int / 0x400,
                        f <= p < f + pages;
            }
            lemma_user_frames(*dir, s2, f as int, pages as int, pb as int, b as int, kp);
            if missing {
                lemma_tables_held(d0, *dir, s2, f as int, pages as int, tp as int, kt);
                assert(kp != kt);
            }
            assert(umalloc_placed(d0, *dir, s2, f as int, pages as int, frames_base(s0[blk].0 + HEADER_SIZE), kp, kt));
        }
        Some(f * FRAME_SIZE as u32)
    }

    /// Gives back the memory that `umalloc` mapped at `addr` in `dir`: the
    /// kernel heap block that holds the frame mapped there is freed. `Err` when
    /// `addr` is in the kernel's half, when nothing is mapped at `addr`, or when
    /// its frame is in no allocated heap block.
    pub fn ufree(&mut self, dir: &PageDirectory, addr: u32) -> (r: Result<(), HeapError>)
        requires
            old(self).wf(),
            dir.wf(),
        ensures
            final(self).wf(),
            final(self).cr3 == old(self).cr3,
            final(self).kernel == old(self).kernel,
            final(self).heap.start == old(self).heap.start,
            final(self).heap.end == old(self).heap.end,
            r is Err ==> final(self).heap.spans() == old(self).heap.spans(),
            addr >= KERNEL_BASE ==> r is Err,
            dir.page_frame(page_of(addr as int)) is None ==> r is Err,
            addr < KERNEL_BASE && dir.page_frame(page_of(addr as int)) is Some ==> (r is Err <==> !exists|k: int|
                #[trigger] holds(old(self).heap.spans(), mapped_va(*dir, addr), k)),
            r is Ok ==> exists|k: int|
                #[trigger] holds(old(self).heap.spans(), mapped_va(*dir, addr), k)
                && final(self).heap.spans() == merge_spans(
                    old(self).heap.spans(),
                    merge_lo(old(self).heap.spans(), k),
                    merge_hi(old(self).heap.spans(), k),
                ),
    {
        if addr >= KERNEL_BASE {
            return Err(HeapError::InvalidFree);
        }
        let p: u32 = addr / FRAME_SIZE as u32;
        proof {
            lemma_page_bound(addr);
        }
        assert(p / 0x400 < 0x400);
        if !entry_present_exec(dir.tables[(p / TABLE_FSIZE as u32) as usize]) || !entry_present_exec(dir.pages[p as usize]) {
            return Err(HeapError::InvalidFree);
        }
        let b: u32 = dir.pages[p as usize] & 0xffff_f000u32;
        if b >= 0x4000_0000 {
            proof {
                assert(dir.page_frame(page_of(addr as int)) == Some(b));
                assert forall|k: int| !#[trigger] holds(self.heap.spans(), mapped_va(*dir, addr), k) by {
                    if 0 <= k < self.heap.spans().len() {
                        crate::kheap::lemma_block_inside(&self.heap, k);
                        lemma_heap_contiguous(&self.heap);
                    }
                }
            }
            return Err(HeapError::InvalidFree);
        }
        let va: u32 = b + KERNEL_BASE;
        assert(dir.page_frame(page_of(addr as int)) == Some(b));
        assert(mapped_va(*dir, addr) == va as int);
        let ghost s = self.heap.spans();
        let r = free_holding(&mut self.heap, va);
        proof {
            if r is Ok {
                let k = choose|k: int| #[trigger] holds(s, va as int, k)
                    && self.heap.spans() == merge_spans(s, merge_lo(s, k), merge_hi(s, k));
                assert(holds(s, mapped_va(*dir, addr), k)
                    && self.heap.spans() == merge_spans(s, merge_lo(s, k), merge_hi(s, k)));
            } else {
                assert forall|k: int| !#[trigger] holds(s, mapped_va(*dir, addr), k) by {
                    assert(!holds(s, va as int, k));
                }
            }
        }
        r
    }

    /// Sets up the memory of a program of `code_size` bytes in slot `task`: a
    /// fresh directory, then a code block and a stack block from the kernel
    /// heap, first fit each; the slot's segment starts the program at address
    /// zero with its stack growing down from the end of the stack block, and
    /// runs it with the new directory. Returns the code and stack addresses.
    /// Fails, leaving the slot as it was, exactly when one of the three
    /// allocations finds no block, each tried on the heap the ones before it
    /// left.
    pub fn exec_load(&mut self, task: &mut Task, code_size: u32) -> (r: Result<(u32, u32), ExecError>)
        requires
            old(self).wf(),
        ensures
            final(self).wf(),
            final(self).cr3 == old(self).cr3,
            final(self).kernel.base == old(self).kernel.base,
            r is Ok <==> exec_fits(old(self).heap.spans(), code_size as int),
            r is Err ==> *final(task) == *old(task),
            r is Ok ==> {
                let (code, stack) = r->Ok_0;
                &&& final(task).pd.wf()
                &&& final(task).pd.shares_kernel_half(final(self).kernel)
                &&& forall|f: int| 0 <= f < MEMORY_FSIZE ==> !#[trigger] final(task).pd.frames()[f]
                &&& !final(task).is_free
                &&& final(task).tss.eip == 0
                &&& final(task).tss.esp == stack + STACK_SIZE
                &&& final(task).tss.ebp == final(task).tss.esp
                &&& final(task).tss.cr3 == final(task).pd.base
                &&& is_live(final(self).heap.spans(), code as int)
                &&& is_live(final(self).heap.spans(), stack as int)
                &&& stack + STACK_SIZE <= final(self).heap.end
            },
    {
        let ghost s0 = self.heap.spans();
        let mut dir = match self.new_directory() {
            Some(d) => d,
            None => {
                return Err(ExecError::NoMemory);
            },
        };
        let ghost s1 = self.heap.spans();
        assert(s1 == directory_spans(s0));
        let code = match self.kmalloc(code_size) {
            Some(a) => a,
            None => {
                proof {
                    assert(!has_fit(s1, align_up(code_size as int)) || code_size > u32::MAX - 32);
                }
                let _ = dir.free(&mut self.heap);
                return Err(ExecError::NoMemory);
            },
        };
        let ghost s2 = self.heap.spans();
        proof {
            let i = choose|i: int| #[trigger] first_fit(s1, align_up(code_size as int), i)
                && code == s1[i].0 + HEADER_SIZE
                && s2 == split_spans(s1, i, align_up(code_size as int))
                && grants(s2, self.heap.end as int, code as int, code_size as int, i);
            lemma_first_fit_unique(s1, align_up(code_size as int), i);
            lemma_granted_live(s2, self.heap.end as int, code as int, code_size as int, i);
        }
        let stack = match self.kmalloc(STACK_SIZE as u32) {
            Some(a) => a,
            None => {
                proof {
                    assert(align_up(STACK_SIZE as int) == STACK_SIZE);
                    assert(!has_fit(s2, STACK_SIZE as int));
                }
                let _ = self.kfree(code);
                let _ = dir.free(&mut self.heap);
                return Err(ExecError::NoMemory);
            },
        };
        proof {
            let s3 = self.heap.spans();
            let i = choose|i: int| #[trigger] first_fit(s2, align_up(STACK_SIZE as int), i)
                && stack == s2[i].0 + HEADER_SIZE
                && s3 == split_spans(s2, i, align_up(STACK_SIZE as int))
                && grants(s3, self.heap.end as int, stack as int, STACK_SIZE as int, i);
            assert(align_up(STACK_SIZE as int) == STACK_SIZE);
            lemma_first_fit_unique(s2, STACK_SIZE as int, i);
            lemma_granted_live(s3, self.heap.end as int, stack as int, STACK_SIZE as int, i);
            let k = choose|k: int| #[trigger] live_block(s2, code as int, k);
            lemma_live_after_split(s2, code as int, k, i, STACK_SIZE as int);
            let k2 = choose|k2: int| #[trigger] live_block(split_spans(s2, i, STACK_SIZE as int), code as int, k2);
            assert(live_block(self.heap.spans(), code as int, k2));
            assert(live_block(self.heap.spans(), stack as int, i));
        }
        let top: u32 = stack + STACK_SIZE as u32;
        dir.update(&self.kernel);
        task.pd = dir;
        task.is_free = false;
        task.tss.eip = 0;
        task.tss.esp = top;
        task.tss.ebp = top;
        task.tss.cr3 = task.pd.base;
        proof {
            assert(task.pd.shares_kernel_half(self.kernel));
            assert forall|f: int| 0 <= f < MEMORY_FSIZE implies !#[trigger] task.pd.frames()[f] by {
                assert(task.pd.frames() == dir.frames());
            }
            assert(is_live(self.heap.spans(), code as int));
            assert(is_live(self.heap.spans(), stack as int));
        }
        Ok((code, stack))
    }

    /// Frees the block at `a` that `kmalloc` has just cut from block `i` of
    /// the heap whose blocks were `s0`: the heap is as it was before.
    fn give_back(&mut self, a: u32, s0: Ghost<Seq<Span>>, i: Ghost<int>, size: Ghost<int>)
        requires
            old(self).wf(),
            first_fit(s0@, size@, i@),
            0 <= size@,
            no_free_neighbours(s0@),
            a == s0@[i@].0 + HEADER_SIZE,
            old(self).heap.spans() == split_spans(s0@, i@, size@),
        ensures
            final(self).wf(),
            final(self).heap.spans() == s0@,
            final(self).kernel == old(self).kernel,
            final(self).cr3 == old(self).cr3,
            final(self).heap.start == old(self).heap.start,
            final(self).heap.end == old(self).heap.end,
    {
        let ghost t = self.heap.spans();
        proof {
            assert(live_block(t, a as int, i@));
            lemma_heap_contiguous(&self.heap);
        }
        let r = self.kfree(a);
        proof {
            let k = choose|k: int| #[trigger] live_block(t, a as int, k)
                && self.heap.spans() == merge_spans(t, merge_lo(t, k), merge_hi(t, k));
            if k < i@ {
                assert(t[k].0 < t[i@].0);
            } else if k > i@ {
                assert(t[i@].0 < t[k].0);
            }
            lemma_unsplit(s0@, i@, size@);
        }
    }

    /// Makes the kernel directory the active one.
    pub fn switch_to_kernel(&mut self)
        ensures
            final(self).cr3 == old(self).kernel.base,
            final(self).kernel == old(self).kernel,
            final(self).heap == old(self).heap,
    {
        self.cr3 = self.kernel.base;
    }
}

impl PageDirectory {
    /// Gives the directory's storage back to the kernel heap when its task is
    /// done: the blocks that hold the page tables of its own half, the block of
    /// its bitmap and the block of its entry table. A block is freed once;
    /// storage that lies in no allocated block is passed over. Afterwards no
    /// allocated block holds any of that storage, and nothing else became
    /// allocated.
    pub fn free(&self, heap: &mut Heap)
        requires
            old(heap).wf(),
            self.wf(),
        ensures
            final(heap).wf(),
            final(heap).start == old(heap).start,
            final(heap).end == old(heap).end,
            forall|x: int| #[trigger] holding(final(heap).spans(), x) ==> holding(old(heap).spans(), x),
            forall|t: int| 0 <= t < KERNEL_PAGE_NUMBER && entry_present(self.tables@[t])
                && entry_base(self.tables@[t]) < 0x4000_0000
                ==> !holding(final(heap).spans(), #[trigger] entry_base(self.tables@[t]) + KERNEL_BASE),
            self.mmap_block != 0 ==> !holding(final(heap).spans(), self.mmap_block as int),
            self.base < 0x4000_0000 ==> !holding(final(heap).spans(), self.base + KERNEL_BASE),
    {
        let mut t: usize = 0;
        while t < KERNEL_PAGE_NUMBER as usize
            invariant
                self.wf(),
                heap.wf(),
                heap.start == old(heap).start,
                heap.end == old(heap).end,
                t <= KERNEL_PAGE_NUMBER,
                forall|x: int| #[trigger] holding(heap.spans(), x) ==> holding(old(heap).spans(), x),
                forall|u: int| 0 <= u < t && entry_present(self.tables@[u]) && entry_base(self.tables@[u]) < 0x4000_0000
                    ==> !holding(heap.spans(), #[trigger] entry_base(self.tables@[u]) + KERNEL_BASE),
            decreases KERNEL_PAGE_NUMBER - t,
        {
            let e = self.tables[t];
            if entry_present_exec(e) {
                let b = e & 0xffff_f000u32;
                if b < 0x4000_0000 {
                    let ghost before = heap.spans();
                    let _ = free_holding(heap, b + KERNEL_BASE);
                    proof {
                        assert forall|u: int| 0 <= u < t + 1 && entry_present(self.tables@[u])
                            && entry_base(self.tables@[u]) < 0x4000_0000
                            implies !holding(heap.spans(), #[trigger] entry_base(self.tables@[u]) + KERNEL_BASE) by {
                            if u < t {
                                assert(!holding(before, entry_base(self.tables@[u]) + KERNEL_BASE));
                            }
                        }
                    }
                }
            }
            t = t + 1;
        }
        if self.mmap_block != 0 {
            let _ = free_holding(heap, self.mmap_block);
        }
        if self.base < 0x4000_0000 {
            let ghost before = heap.spans();
            let _ = free_holding(heap, self.base + KERNEL_BASE);
        }
    }
}

/// Frees the allocated heap block whose payload holds the byte at `va`; `Err`,
/// with nothing changed, when no allocated block holds it.
fn free_holding(heap: &mut Heap, va: u32) -> (r: Result<(), HeapError>)
    requires
        old(heap).wf(),
    ensures
        final(heap).wf(),
        final(heap).start == old(heap).start,
        final(heap).end == old(heap).end,
        r is Err <==> !exists|k: int| #[trigger] holds(old(heap).spans(), va as int, k),
        r is Err ==> final(heap).spans() == old(heap).spans(),
        r is Ok ==> exists|k: int| #[trigger] holds(old(heap).spans(), va as int, k)
            && final(heap).spans() == merge_spans(
                old(heap).spans(),
                merge_lo(old(heap).spans(), k),
                merge_hi(old(heap).spans(), k),
            ),
        !holding(final(heap).spans(), va as int),
        forall|x: int| #[trigger] holding(final(heap).spans(), x) ==> holding(old(heap).spans(), x),
{
    let ghost s = heap.spans();
    proof {
        lemma_heap_contiguous(heap);
    }
    match heap.block_containing(va) {
        Some((k, a)) => {
            proof {
                crate::kheap::lemma_block_inside(heap, k as int);
                assert(live_block(s, a + HEADER_SIZE, k as int));
                assert forall|j: int| #[trigger] live_block(s, a + HEADER_SIZE, j) implies j == k by {
                    lemma_heap_contiguous(heap);
                    if j < k {
                        assert(s[j].0 < s[k as int].0);
                    } else if j > k {
                        assert(s[k as int].0 < s[j].0);
                    }
                }
            }
            let r = heap.kfree(a + HEADER_SIZE);
            proof {
                assert(holds(s, va as int, k as int));
                assert(exists|k3: int| #[trigger] live_block(s, a + HEADER_SIZE, k3));
                assert(r is Ok);
                let k2 = choose|k2: int| #[trigger] live_block(s, a + HEADER_SIZE, k2)
                    && heap.spans() == merge_spans(s, merge_lo(s, k2), merge_hi(s, k2));
                assert(k2 == k);
                assert(holds(s, va as int, k as int)
                    && heap.spans() == merge_spans(s, merge_lo(s, k as int), merge_hi(s, k as int)));
                lemma_merge_frees(s, merge_lo(s, k as int), merge_hi(s, k as int), k as int, va as int);
            }
            r
        },
        None => Err(HeapError::InvalidFree),
    }
}

/// Whether some allocated block of `s` holds the byte at `va`.
pub open spec fn holding(s: Seq<Span>, va: int) -> bool {
    exists|k: int| #[trigger] holds(s, va, k)
}

/// Blocks that tile the heap without gap, in address order.
pub open spec fn contiguous(s: Seq<Span>) -> bool {
    &&& forall|i: int| 0 <= i < s.len() - 1 ==> #[trigger] s[i + 1].0 == s[i].0 + HEADER_SIZE + s[i].1
    &&& forall|i: int, j: int| 0 <= i < j < s.len() ==> #[trigger] s[i].0 < #[trigger] s[j].0
    &&& forall|i: int| 0 <= i < s.len() ==> 0 <= #[trigger] s[i].1
}

/// Two blocks of contiguous blocks never hold the same byte.
proof fn lemma_holds_unique(s: Seq<Span>, va: int, a: int, b: int)
    requires
        contiguous(s),
        holds(s, va, a),
        holds(s, va, b),
    ensures
        a == b,
{
    if a < b {
        assert(s[a + 1].0 == s[a].0 + HEADER_SIZE + s[a].1);
        if a + 1 < b {
            assert(s[a + 1].0 < s[b].0);
        }
    } else if b < a {
        assert(s[b + 1].0 == s[b].0 + HEADER_SIZE + s[b].1);
        if b + 1 < a {
            assert(s[b + 1].0 < s[a].0);
        }
    }
}

/// Merging blocks `lo` to `hi` into one free block makes no byte held that was
/// not held before, and leaves the byte `va` that block `k` of the run held
/// held by no block.
proof fn lemma_merge_frees(s: Seq<Span>, lo: int, hi: int, k: int, va: int)
    requires
        contiguous(s),
        0 <= lo <= k <= hi < s.len(),
        holds(s, va, k),
    ensures
        !holding(merge_spans(s, lo, hi), va),
        forall|x: int| #[trigger] holding(merge_spans(s, lo, hi), x) ==> holding(s, x),
{
    let m = merge_spans(s, lo, hi);
    let d = hi - lo;
    assert forall|x: int| #[trigger] holding(m, x) implies holding(s, x) by {
        let j = choose|j: int| #[trigger] holds(m, x, j);
        if j < lo {
            assert(holds(s, x, j));
        } else {
            assert(j > lo);
            assert(holds(s, x, j + d));
        }
    }
    if holding(m, va) {
        let j = choose|j: int| #[trigger] holds(m, va, j);
        if j < lo {
            assert(holds(s, va, j));
            lemma_holds_unique(s, va, j, k);
        } else {
            assert(holds(s, va, j + d));
            lemma_holds_unique(s, va, j + d, k);
        }
    }
}

/// The kernel-half address of the frame that `addr` maps to in `dir`.
pub open spec fn mapped_va(dir: PageDirectory, addr: u32) -> int {
    dir.page_frame(page_of(addr as int))->Some_0 + KERNEL_BASE
}

/// Why a program could not be set up.
#[derive(Clone, Copy, Debug, PartialEq, Eq)]
pub enum ExecError {
    /// The kernel heap has no block for the directory, the code or the stack.
    NoMemory,
}

/// Whether `s` has an allocated block whose payload starts at `a`.
pub open spec fn is_live(s: Seq<Span>, a: int) -> bool {
    exists|k: int| #[trigger] live_block(s, a, k)
}

/// Whether some block of `s` can hold `size` bytes.
pub open spec fn has_fit(s: Seq<Span>, size: int) -> bool {
    exists|j: int| 0 <= j < s.len() && #[trigger] span_fits(s, j, size)
}

/// The first block of `s` that can hold `size` bytes, when there is one.
pub open spec fn ff(s: Seq<Span>, size: int) -> int {
    choose|i: int| first_fit(s, size, i)
}

/// The blocks after a first-fit allocation of `size` bytes from `s`.
pub open spec fn after_alloc(s: Seq<Span>, size: int) -> Seq<Span> {
    split_spans(s, ff(s, size), size)
}

/// Whether the directory, a code block of `code_size` bytes and a stack block
/// can be allocated from `s`, one after the other.
pub open spec fn exec_fits(s: Seq<Span>, code_size: int) -> bool {
    let s1 = directory_spans(s);
    let s2 = after_alloc(s1, align_up(code_size));
    &&& directory_fits(s)
    &&& code_size <= u32::MAX - 32
    &&& has_fit(s1, align_up(code_size))
    &&& has_fit(s2, STACK_SIZE as int)
}

/// The first block that fits is the one `after_alloc` splits.
proof fn lemma_first_fit_unique(s: Seq<Span>, size: int, i: int)
    requires
        first_fit(s, size, i),
    ensures
        (choose|j: int| first_fit(s, size, j)) == i,
        after_alloc(s, size) == split_spans(s, i, size),
        has_fit(s, size),
{
    let j = choose|j: int| first_fit(s, size, j);
    assert(first_fit(s, size, j));
    if j < i {
        assert(!span_fits(s, j, size));
    } else if i < j {
        assert(!span_fits(s, i, size));
    }
}

/// A granted block is an allocated block whose payload is at the given address.
proof fn lemma_granted_live(s: Seq<Span>, end: int, a: int, size: int, i: int)
    requires
        grants(s, end, a, size, i),
    ensures
        live_block(s, a, i),
{
}

/// An allocated block stays allocated, at the same address, when another
/// block is handed out.
proof fn lemma_live_after_split(s: Seq<Span>, a: int, k: int, i: int, size: int)
    requires
        live_block(s, a, k),
        0 <= i < s.len(),
        span_fits(s, i, size),
    ensures
        exists|k2: int| #[trigger] live_block(split_spans(s, i, size), a, k2),
{
    let t = split_spans(s, i, size);
    if k < i {
        assert(live_block(t, a, k));
    } else {
        assert(k != i);
        if s[i].1 - size >= HEADER_SIZE {
            assert(t[k + 1] == s[k]);
            assert(live_block(t, a, k + 1));
        } else {
            assert(live_block(t, a, k));
        }
    }
}

/// Number of frames in the own half of a task's address space.
pub const USER_FRAMES: u32 = 0xC0000;

/// Number of pages that `size` bytes take when mapped for a task: at least one.
pub open spec fn user_pages(size: int) -> int {
    if size <= FRAME_SIZE {
        1
    } else {
        frames_to_cover(size)
    }
}

/// Bytes of kernel heap taken to back `n` user pages: the pages and one page
/// of room to align them.
pub open spec fn pages_backing(n: int) -> int {
    (n + 1) * FRAME_SIZE
}

/// Bytes of kernel heap taken for the page tables a run of `n` pages can
/// reach, and one page of room to align them.
pub open spec fn tables_backing(n: int) -> int {
    (n / 1024 + 3) * FRAME_SIZE
}

/// What a successful `umalloc` of `n` pages at frame `f` did to the heap,
/// whose blocks went from `s0` to `sf`, and to the directory, from `d0` to
/// `d`: it cut the pages' block from block `i`, then, when a table was
/// missing, a block for the tables by first fit; the pages and the new tables
/// lie in those two blocks.
pub open spec fn umalloc_heap(s0: Seq<Span>, sf: Seq<Span>, d0: PageDirectory, d: PageDirectory, f: int, n: int, i: int) -> bool {
    let s1 = split_spans(s0, i, pages_backing(n));
    &&& !some_missing(d0, f, n) ==> sf == s1
    &&& some_missing(d0, f, n) ==> after_alloc(s1, tables_backing(n)) == sf && has_fit(s1, tables_backing(n))
    &&& exists|k: int, kt: int| #[trigger] umalloc_placed(d0, d, sf, f, n, frames_base(s0[i].0 + HEADER_SIZE), k, kt)
}

/// Whether the frame at `b` is one of those from `tp` on that can hold the
/// tables of `n` pages.
pub open spec fn in_table_frames(tp: int, b: u32, n: int) -> bool {
    tp <= b && b + FRAME_SIZE <= tp + (n / 1024 + 2) * FRAME_SIZE
}

/// Whether `d` lacks a table for some page from `f` to `f + n - 1`.
pub open spec fn some_missing(d: PageDirectory, f: int, n: int) -> bool {
    exists|u: int| f / 1024 <= u <= (f + n - 1) / 1024 && !#[trigger] entry_present(d.tables@[u])
}

/// The lowest frame of `d` that starts `n` free frames in a row.
pub open spec fn lowest_area(d: PageDirectory, n: int) -> int {
    choose|t: int| d.area_free(t, n) && forall|u: int| 0 <= u < t ==> !#[trigger] d.area_free(u, n)
}

/// When `umalloc` of `n` pages into `d`, with the heap's blocks `s`, fails: the
/// own half of `d` has no run of `n` free frames, or the heap has no block for
/// the pages, or a table is missing and the heap left after the pages has no
/// block for the tables.
pub open spec fn umalloc_fails(d: PageDirectory, s: Seq<Span>, n: int) -> bool {
    ||| forall|t: int| 0 <= t && t + n <= USER_FRAMES ==> !#[trigger] d.area_free(t, n)
    ||| !has_fit(s, pages_backing(n))
    ||| some_missing(d, lowest_area(d, n), n) && !has_fit(after_alloc(s, pages_backing(n)), tables_backing(n))
}

/// The frames from `tp` on that can hold `n` pages' tables all lie in the
/// payload of the allocated block `kt` of `s`.
pub open spec fn tables_frames_in(s: Seq<Span>, tp: int, n: int, kt: int) -> bool {
    &&& 0 <= kt < s.len()
    &&& !s[kt].2
    &&& tp % 0x1000 == 0
    &&& 0 <= tp
    &&& s[kt].0 + HEADER_SIZE <= tp + KERNEL_BASE
    &&& tp + KERNEL_BASE + (n / 1024 + 2) * FRAME_SIZE <= s[kt].0 + HEADER_SIZE + s[kt].1
}

/// Every table for pages `f` to `f + n - 1` that `d0` lacked is present in `d`,
/// its frame in the payload of the allocated block `kt` of `s`.
pub open spec fn tables_held(d0: PageDirectory, d: PageDirectory, f: int, n: int, s: Seq<Span>, kt: int) -> bool {
    forall|u: int| f / 1024 <= u <= (f + n - 1) / 1024 && !entry_present(d0.tables@[u]) ==> {
        &&& entry_present(d.tables@[u])
        &&& holds(s, entry_base(#[trigger] d.tables@[u]) + KERNEL_BASE, kt)
    }
}

/// Where `umalloc` put things: the pages in block `k` of `s`, and the tables it
/// had to add in another block, `kt`.
pub open spec fn umalloc_placed(d0: PageDirectory, d: PageDirectory, s: Seq<Span>, f: int, n: int, b: int, k: int, kt: int) -> bool {
    &&& user_frames_mapped(d, s, f, n, b, k)
    &&& some_missing(d0, f, n) ==> tables_held(d0, d, f, n, s, kt) && k != kt
}

proof fn lemma_lowest_area(d: PageDirectory, n: int, f: int)
    requires
        d.area_free(f, n),
        forall|u: int| 0 <= u < f ==> !#[trigger] d.area_free(u, n),
    ensures
        lowest_area(d, n) == f,
{
    let t = lowest_area(d, n);
    assert(d.area_free(t, n) && forall|u: int| 0 <= u < t ==> !#[trigger] d.area_free(u, n));
    if t < f {
        assert(!d.area_free(t, n));
    } else if f < t {
        assert(!d.area_free(f, n));
    }
}

/// An allocated block of `s` is still there, at some index, after another
/// block is cut from free block `j`.
proof fn lemma_block_kept(s: Seq<Span>, i: int, j: int, size: int) -> (k: int)
    requires
        0 <= i < s.len(),
        !s[i].2,
        0 <= j < s.len(),
        s[j].2,
    ensures
        0 <= k < split_spans(s, j, size).len(),
        split_spans(s, j, size)[k] == s[i],
{
    if i < j {
        i
    } else if s[j].1 - size >= HEADER_SIZE {
        i + 1
    } else {
        i
    }
}

proof fn lemma_tables_held(d0: PageDirectory, d: PageDirectory, s: Seq<Span>, f: int, n: int, tp: int, kt: int)
    requires
        tables_frames_in(s, tp, n, kt),
        forall|u: int| f / 1024 <= u <= (f + n - 1) / 1024 ==> {
            &&& #[trigger] entry_present(d.tables@[u])
            &&& !entry_present(d0.tables@[u]) ==> in_table_frames(tp, entry_base(d.tables@[u]), n)
        },
    ensures
        tables_held(d0, d, f, n, s, kt),
{
    assert forall|u: int| f / 1024 <= u <= (f + n - 1) / 1024 && !entry_present(d0.tables@[u]) implies {
        &&& entry_present(d.tables@[u])
        &&& holds(s, entry_base(#[trigger] d.tables@[u]) + KERNEL_BASE, kt)
    } by {
        assert(entry_present(d.tables@[u]));
    }
}

proof fn lemma_pages_room(b: int, pb: int, n: int, end: int)
    requires
        pb == (b + 0xfff) / 0x1000 * 0x1000,
        b + (n + 1) * 0x1000 <= end,
        end <= u32::MAX,
        b >= KERNEL_BASE,
        n >= 1,
    ensures
        pb >= b,
        pb % 0x1000 == 0,
        pb - KERNEL_BASE + n * 0x1000 <= u32::MAX,
        pb + n * 0x1000 <= b + (n + 1) * 0x1000,
{
    assert(pb >= b && pb <= b + 0xfff && pb % 0x1000 == 0) by (nonlinear_arith)
        requires
            pb == (b + 0xfff) / 0x1000 * 0x1000,
            b >= 0;
}

proof fn lemma_tables_room(tb: int, tpk: int, n: int, end: int)
    requires
        tpk == (tb + 0xfff) / 0x1000 * 0x1000,
        tb + (n / 1024 + 3) * 0x1000 <= end,
        end <= u32::MAX,
        tb >= KERNEL_BASE,
        n >= 1,
    ensures
        tpk >= tb,
        tpk % 0x1000 == 0,
        tpk + (n / 1024 + 2) * 0x1000 <= tb + (n / 1024 + 3) * 0x1000,
{
    assert(tpk >= tb && tpk <= tb + 0xfff && tpk % 0x1000 == 0) by (nonlinear_arith)
        requires
            tpk == (tb + 0xfff) / 0x1000 * 0x1000,
            tb >= 0;
}

/// Physical address of the first frame that starts in a heap payload at `payload`.
pub open spec fn frames_base(payload: int) -> int {
    (payload + 0xfff) / 0x1000 * 0x1000 - KERNEL_BASE
}

/// Pages `f` to `f + n - 1` of `d` map, with the user flag, to consecutive
/// frames from the frame-aligned address `b` on, and each of those frames lies
/// in the payload of the allocated block `i` of `s`.
pub open spec fn user_frames_mapped(d: PageDirectory, s: Seq<Span>, f: int, n: int, b: int, i: int) -> bool {
    &&& b % 0x1000 == 0
    &&& 0 <= b
    &&& b + n * FRAME_SIZE <= u32::MAX
    &&& forall|p: int| f <= p < f + n ==> {
        &&& #[trigger] d.pages@[p] == entry((b + (p - f) * FRAME_SIZE) as u32, PRESENT_WRITABLE | USER_MODE)
        &&& d.page_frame(p) == Some((b + (p - f) * FRAME_SIZE) as u32)
        &&& holds(s, b + KERNEL_BASE + (p - f) * FRAME_SIZE, i)
    }
}

/// The address `umalloc` returns leads `ufree` to the heap block that
/// `umalloc` took: the frame mapped there lies in that block's payload.
pub proof fn lemma_ufree_finds_umalloc_block(d: PageDirectory, s: Seq<Span>, v: u32, n: int, b: int, i: int)
    requires
        v as int % FRAME_SIZE as int == 0,
        1 <= n,
        user_frames_mapped(d, s, v as int / FRAME_SIZE as int, n, b, i),
    ensures
        d.page_frame(page_of(v as int)) is Some,
        holds(s, mapped_va(d, v), i),
{
    let f = v as int / FRAME_SIZE as int;
    assert(f <= f < f + n);
    assert(d.page_frame(f) == Some((b + (f - f) * FRAME_SIZE) as u32));
    assert((b + (f - f) * FRAME_SIZE) as u32 == b);
    assert(holds(s, b + KERNEL_BASE + (f - f) * FRAME_SIZE, i));
}

proof fn lemma_user_frames(d: PageDirectory, s: Seq<Span>, f: int, n: int, pb: int, b: int, i: int)
    requires
        0 <= f,
        1 <= n,
        f + n <= MEMORY_FSIZE,
        pb % 0x1000 == 0,
        KERNEL_BASE <= pb,
        b <= pb,
        pb + n * 0x1000 <= u32::MAX,
        0 <= i < s.len(),
        s[i].0 + HEADER_SIZE == b,
        !s[i].2,
        pb + n * 0x1000 <= b + s[i].1,
        forall|p: int| f <= p < f + n ==> #[trigger] d.pages@[p]
            == entry((pb - KERNEL_BASE + (p - f) * FRAME_SIZE) as u32, PRESENT_WRITABLE | USER_MODE),
        forall|p: int| f <= p < f + n ==> #[trigger] d.table_present(p),
    ensures
        user_frames_mapped(d, s, f, n, pb - KERNEL_BASE, i),
{
    let b0 = pb - KERNEL_BASE;
    assert((pb - 0xC000_0000) % 0x1000 == 0);
    assert forall|p: int| f <= p < f + n implies {
        &&& #[trigger] d.pages@[p] == entry((b0 + (p - f) * FRAME_SIZE) as u32, PRESENT_WRITABLE | USER_MODE)
        &&& d.page_frame(p) == Some((b0 + (p - f) * FRAME_SIZE) as u32)
        &&& holds(s, b0 + KERNEL_BASE + (p - f) * FRAME_SIZE, i)
    } by {
        let x = b0 + (p - f) * 0x1000;
        assert(x % 0x1000 == 0 && 0 <= x && x + 0x1000 <= b0 + n * 0x1000) by (nonlinear_arith)
            requires
                x == b0 + (p - f) * 0x1000,
                b0 % 0x1000 == 0,
                b0 >= 0,
                f <= p < f + n;
        crate::paging::lemma_entry_base_aligned(x as u32);
        assert(d.table_present(p));
    }
}

proof fn lemma_tables_spanned(f: int, n: int)
    requires
        0 <= f,
        1 <= n,
        f + n <= 0xC0000,
    ensures
        (f + n - 1) / 0x400 - f / 0x400 <= n / 1024 + 1,
        (f + n - 1) / 0x400 < 0x300,
{
    assert((f + n - 1) / 0x400 - f / 0x400 <= n / 1024 + 1) by (nonlinear_arith)
        requires
            0 <= f,
            1 <= n;
    assert((f + n - 1) / 0x400 < 0x300) by (nonlinear_arith)
        requires
            f + n <= 0xC0000,
            0 <= f,
            1 <= n;
}

proof fn lemma_frame_offset(base: int, x: int, bound: int)
    requires
        0 <= x <= bound,
        base >= 0,
        base + bound * 0x1000 <= u32::MAX,
    ensures
        base + x * 0x1000 <= u32::MAX,
        x * 0x1000 <= u32::MAX,
{
    assert(x * 0x1000 <= bound * 0x1000) by (nonlinear_arith)
        requires
            0 <= x <= bound;
}

/// Bytes of kernel heap that back a directory's entry table: the table and one
/// frame of room to align it on a frame.
pub const TABLE_STORAGE: u32 = 0x2000;

/// Whether a directory's two blocks, its entry table's and then its bitmap's,
/// can be had from the heap whose blocks are `s`.
pub open spec fn directory_fits(s: Seq<Span>) -> bool {
    has_fit(s, TABLE_STORAGE as int) && has_fit(after_alloc(s, TABLE_STORAGE as int), MMAP_SIZE as int)
}

/// The blocks after a directory's two blocks are cut from `s`.
pub open spec fn directory_spans(s: Seq<Span>) -> Seq<Span> {
    after_alloc(after_alloc(s, TABLE_STORAGE as int), MMAP_SIZE as int)
}

/// Once a directory has been built by `new_directory` or switched to, every
/// kernel-half address translates through it to the same physical address as
/// through the kernel directory.
pub proof fn lemma_kernel_mapping_persists(kernel: PageDirectory, d: PageDirectory, v: u32)
    requires
        kernel.wf(),
        d.wf(),
        d.shares_kernel_half(kernel),
        KERNEL_BASE <= v,
    ensures
        d.translate(v) == kernel.translate(v),
{
    let p = page_of(v as int);
    assert(p >= 0xC0000 && p < 0x100000 && p / 0x400 >= 0x300 && p / 0x400 < 0x400) by (nonlinear_arith)
        requires
            p == v as int / 0x1000,
            v >= 0xC000_0000,
            v <= 0xffff_ffff;
    assert(d.tables@[p / 0x400] == kernel.tables@[p / 0x400]);
    assert(d.pages@[p] == kernel.pages@[p]);
}

/// Switching to a directory never changes what its own half translates to:
/// whatever other directories map at a user address, this one sees only its own
/// mapping there, or none. Only the kernel half is shared.
pub proof fn lemma_directory_isolation(before: PageDirectory, after: PageDirectory, kernel: PageDirectory, v: u32)
    requires
        before.wf(),
        after.wf(),
        kernel.wf(),
        after.mirrors(before, kernel),
        v < KERNEL_BASE,
    ensures
        after.translate(v) == before.translate(v),
{
    let p = page_of(v as int);
    assert(p < 0xC0000 && p / 0x400 < 0x300 && p >= 0) by (nonlinear_arith)
        requires
            p == v as int / 0x1000,
            v < 0xC000_0000;
    assert(after.tables@[p / 0x400] == before.tables@[p / 0x400]);
    assert(after.pages@[p] == before.pages@[p]);
}

/// Number of frames needed to cover the bytes `[0, end)`.
fn frames_cover(end: u32) -> (r: u32)
    ensures
        r == frames_to_cover(end as int),
        r <= MEMORY_FSIZE,
{
    proof {
        lemma_page_bound(end);
    }
    if end % FRAME_SIZE as u32 == 0 {
        end / FRAME_SIZE as u32
    } else {
        end / FRAME_SIZE as u32 + 1
    }
}

/// Number of tables the kernel's half can hold.
pub const KERNEL_TABLES: u32 = 0x100;

/// Physical address of the frame reserved for kernel table `t`, in the pool of
/// frames that starts at frame `pool`, right after the heap.
pub open spec fn table_frame(pool: int, t: int) -> int {
    (pool + t - KERNEL_PAGE_NUMBER) * FRAME_SIZE - KERNEL_BASE
}

/// Every page mapped in `k` is in the kernel's half and maps to the frame at
/// its own address less the kernel base.
pub open spec fn identity_mapped(k: PageDirectory) -> bool {
    forall|p: int| 0 <= p < MEMORY_FSIZE && (#[trigger] k.page_frame(p)) is Some
        ==> p >= KERNEL_PAGE_NUMBER * TABLE_FSIZE && k.page_frame(p) == Some((p * FRAME_SIZE - KERNEL_BASE) as u32)
}

/// Maps every page that overlaps `[from, to)` in the kernel directory, each to
/// the physical frame at its address less the kernel base, and marks it used.
/// A missing table gets its storage from the table pool that starts at frame
/// `pool`, outside every heap block.
fn back_pages(kernel: &mut PageDirectory, from: u32, to: u32, pool: u32)
    requires
        old(kernel).wf(),
        identity_mapped(*old(kernel)),
        KERNEL_BASE <= from <= to,
        KERNEL_PAGE_NUMBER * TABLE_FSIZE <= pool,
        pool + KERNEL_TABLES < MEMORY_FSIZE,
    ensures
        final(kernel).wf(),
        identity_mapped(*final(kernel)),
        final(kernel).base == old(kernel).base,
        forall|p: int| page_of(from as int) <= p < frames_to_cover(to as int) ==> #[trigger] final(kernel).page_frame(p) is Some
            && final(kernel).frames()[p],
        forall|p: int| 0 <= p < MEMORY_FSIZE && old(kernel).page_frame(p) is Some
            ==> #[trigger] final(kernel).page_frame(p) == old(kernel).page_frame(p),
        forall|p: int| 0 <= p < MEMORY_FSIZE && old(kernel).frames()[p] ==> #[trigger] final(kernel).frames()[p],
        forall|t: int| KERNEL_PAGE_NUMBER <= t < TABLE_FSIZE && !entry_present(old(kernel).tables@[t])
            && entry_present(final(kernel).tables@[t])
            ==> #[trigger] entry_base(final(kernel).tables@[t]) == table_frame(pool as int, t),
        forall|t: int| 0 <= t < TABLE_FSIZE && entry_present(old(kernel).tables@[t])
            ==> #[trigger] final(kernel).tables@[t] == old(kernel).tables@[t],
{
    let first: u32 = from / FRAME_SIZE as u32;
    let mut last: u32 = to / FRAME_SIZE as u32;
    proof {
        lemma_page_bound(to);
        assert((from as int / 0x1000) >= 0xC0000) by (nonlinear_arith)
            requires
                from >= 0xC000_0000;
    }
    if to % FRAME_SIZE as u32 != 0 {
        last = last + 1;
    }
    let mut p: u32 = first;
    while p < last
        invariant
            kernel.wf(),
            identity_mapped(*kernel),
            first == page_of(from as int),
            first >= KERNEL_PAGE_NUMBER * TABLE_FSIZE,
            last == frames_to_cover(to as int),
            last <= MEMORY_FSIZE,
            first <= p,
            KERNEL_PAGE_NUMBER * TABLE_FSIZE <= pool,
            pool + KERNEL_TABLES < MEMORY_FSIZE,
            kernel.base == old(kernel).base,
            forall|q: int| first <= q < p ==> #[trigger] kernel.page_frame(q) is Some && kernel.frames()[q],
            forall|q: int| 0 <= q < MEMORY_FSIZE && old(kernel).page_frame(q) is Some
                ==> #[trigger] kernel.page_frame(q) == old(kernel).page_frame(q),
            forall|q: int| 0 <= q < MEMORY_FSIZE && old(kernel).frames()[q] ==> #[trigger] kernel.frames()[q],
            forall|t: int| KERNEL_PAGE_NUMBER <= t < TABLE_FSIZE && !entry_present(old(kernel).tables@[t])
                && entry_present(kernel.tables@[t])
                ==> #[trigger] entry_base(kernel.tables@[t]) == table_frame(pool as int, t),
            forall|t: int| 0 <= t < TABLE_FSIZE && entry_present(old(kernel).tables@[t])
                ==> #[trigger] kernel.tables@[t] == old(kernel).tables@[t],
        decreases last - p,
    {
        let t: u32 = p / TABLE_FSIZE as u32;
        assert(p / 0x400 < 0x400 && p / 0x400 >= 0x300);
        assert(p * 0x1000 >= 0xC000_0000 && p * 0x1000 < 0x1_0000_0000) by (nonlinear_arith)
            requires
                p >= 0xC0000,
                p < 0x100000;
        let phys: u32 = p * FRAME_SIZE as u32 - KERNEL_BASE;
        if !entry_present_exec(kernel.tables[t as usize]) {
            let tf: u32 = pool + (t - KERNEL_PAGE_NUMBER);
            assert(tf * 0x1000 >= 0xC000_0000 && tf * 0x1000 < 0x1_0000_0000) by (nonlinear_arith)
                requires
                    tf >= 0xC0000,
                    tf < 0x100000;
            let table_phys: u32 = tf * FRAME_SIZE as u32 - KERNEL_BASE;
            let ghost before = *kernel;
            kernel.new_table(t as usize, table_phys, KERNEL_MODE);
            proof {
                lemma_new_table_identity(before, *kernel, t as int, table_phys);
                assert(entry_base(kernel.tables@[t as int]) == table_frame(pool as int, t as int)) by {
                    crate::paging::lemma_entry_base_aligned(table_phys);
                }
            }
        }
        let ghost before = *kernel;
        if !entry_present_exec(kernel.pages[p as usize]) {
            kernel.map_page(p, phys, KERNEL_MODE);
            proof {
                crate::paging::lemma_entry_base_aligned(phys);
                assert forall|q: int| 0 <= q < MEMORY_FSIZE && (#[trigger] kernel.page_frame(q)) is Some
                    implies q >= KERNEL_PAGE_NUMBER * TABLE_FSIZE && kernel.page_frame(q) == Some((q * FRAME_SIZE - KERNEL_BASE) as u32) by {
                    if q != p {
                        assert(before.page_frame(q) is Some);
                    }
                }
            }
        } else {
            kernel.mmap_set_frame(p);
            proof {
                assert forall|q: int| 0 <= q < MEMORY_FSIZE implies #[trigger] kernel.page_frame(q) == before.page_frame(q) by {}
            }
        }
        p = p + 1;
    }
}

/// Installs, for each table from `first_t` to `last_t` that `dir` lacks, a
/// user table whose frame is the next one from `tp` on.
fn install_tables(dir: &mut PageDirectory, first_t: u32, last_t: u32, tp: u32, pages: u32)
    requires
        old(dir).wf(),
        first_t <= last_t,
        last_t < KERNEL_PAGE_NUMBER,
        last_t - first_t <= pages / 1024 + 1,
        tp % 0x1000 == 0,
        tp as int + (pages / 1024 + 2) * FRAME_SIZE <= u32::MAX,
    ensures
        final(dir).wf(),
        final(dir).base == old(dir).base,
        final(dir).frames() == old(dir).frames(),
        forall|u: int| 0 <= u < TABLE_FSIZE && !(first_t <= u <= last_t) ==> #[trigger] final(dir).tables@[u] == old(dir).tables@[u],
        forall|u: int| first_t <= u <= last_t ==> {
            &&& #[trigger] entry_present(final(dir).tables@[u])
            &&& !entry_present(old(dir).tables@[u]) ==> in_table_frames(tp as int, entry_base(final(dir).tables@[u]), pages as int)
            &&& entry_present(old(dir).tables@[u]) ==> final(dir).tables@[u] == old(dir).tables@[u]
        },
        forall|p: int| 0 <= p < MEMORY_FSIZE && old(dir).page_frame(p) is Some
            ==> #[trigger] final(dir).page_frame(p) == old(dir).page_frame(p),
{
    let ghost d0 = *dir;
    let mut t: u32 = first_t;
    let mut k: u32 = 0;
    while t <= last_t
        invariant
            dir.wf(),
            dir.base == d0.base,
            first_t <= t <= last_t + 1,
            last_t < KERNEL_PAGE_NUMBER,
            last_t - first_t <= pages / 1024 + 1,
            k <= t - first_t,
            tp % 0x1000 == 0,
            tp as int + (pages / 1024 + 2) * FRAME_SIZE <= u32::MAX,
            dir.frames() == d0.frames(),
            forall|u: int| 0 <= u < TABLE_FSIZE && !(first_t <= u < t) ==> #[trigger] dir.tables@[u] == d0.tables@[u],
            forall|u: int| first_t <= u < t ==> {
                &&& #[trigger] entry_present(dir.tables@[u])
                &&& !entry_present(d0.tables@[u]) ==> in_table_frames(tp as int, entry_base(dir.tables@[u]), pages as int)
                &&& entry_present(d0.tables@[u]) ==> dir.tables@[u] == d0.tables@[u]
            },
            forall|p: int| 0 <= p < MEMORY_FSIZE && d0.page_frame(p) is Some
                ==> #[trigger] dir.page_frame(p) == d0.page_frame(p),
        decreases last_t + 1 - t,
    {
        let ghost before = *dir;
        if !entry_present_exec(dir.tables[t as usize]) {
            proof {
                lemma_frame_offset(tp as int, k as int, (pages / 1024 + 2) as int);
                crate::paging::lemma_user_table_not_self(t as int, (tp + k * 0x1000) as u32);
                assert((tp + k * 0x1000) % 0x1000 == 0) by (nonlinear_arith)
                    requires
                        tp % 0x1000 == 0;
            }
            dir.new_table(t as usize, tp + k * FRAME_SIZE as u32, USER_MODE);
            proof {
                crate::paging::lemma_entry_base_aligned((tp + k * 0x1000) as u32);
                assert(entry_base(dir.tables@[t as int]) == tp + k * 0x1000);
                assert(0 <= k < pages / 1024 + 2);
                assert(k * 0x1000 + 0x1000 <= (pages / 1024 + 2) * 0x1000 && k * 0x1000 >= 0) by (nonlinear_arith)
                    requires
                        0 <= k < pages / 1024 + 2;
                assert forall|u: int| first_t <= u < t + 1 implies {
                    &&& #[trigger] entry_present(dir.tables@[u])
                    &&& !entry_present(d0.tables@[u]) ==> in_table_frames(tp as int, entry_base(dir.tables@[u]), pages as int)
                    &&& entry_present(d0.tables@[u]) ==> dir.tables@[u] == d0.tables@[u]
                } by {
                    if u < t {
                        assert(dir.tables@[u] == before.tables@[u]);
                    }
                }
            }
            k = k + 1;
        } else {
            proof {
                assert(t < 0x400);
                assert(!(first_t <= t < t));
                assert(dir.tables@[t as int] == d0.tables@[t as int]);
                assert(entry_present(dir.tables@[t as int]));
                assert forall|u: int| first_t <= u < t + 1 implies {
                    &&& #[trigger] entry_present(dir.tables@[u])
                    &&& !entry_present(d0.tables@[u]) ==> in_table_frames(tp as int, entry_base(dir.tables@[u]), pages as int)
                    &&& entry_present(d0.tables@[u]) ==> dir.tables@[u] == d0.tables@[u]
                } by {
                    if u == t {
                        assert(dir.tables@[u] == d0.tables@[u]);
                    } else {
                        assert(first_t <= u < t);
                        assert(entry_present(dir.tables@[u]));
                    }
                }
            }
        }
        t = t + 1;
    }
}

/// Installing a kernel table in an empty slot, with its storage at a
/// frame-aligned address, keeps every mapping at the identity offset.
proof fn lemma_new_table_identity(before: PageDirectory, after: PageDirectory, t: int, table_phys: u32)
    requires
        before.wf(),
        after.wf(),
        identity_mapped(before),
        KERNEL_PAGE_NUMBER <= t < TABLE_FSIZE,
        table_phys % 0x1000 == 0,
        table_phys < 0x4000_0000,
        !entry_present(before.tables@[t]),
        after.tables@ == before.tables@.update(t, entry(table_phys, PRESENT_WRITABLE | KERNEL_MODE)),
        forall|p: int| 0 <= p < MEMORY_FSIZE ==> #[trigger] after.pages@[p]
            == if p / TABLE_FSIZE as int == t {
                if maps_itself(t, table_phys) && p == self_page(table_phys) {
                    entry(table_phys, PRESENT_WRITABLE | KERNEL_MODE)
                } else {
                    0u32
                }
            } else {
                before.pages@[p]
            },
    ensures
        identity_mapped(after),
{
    lemma_zero_absent();
    crate::paging::lemma_entry_base_aligned(table_phys);
    assert forall|p: int| 0 <= p < MEMORY_FSIZE && (#[trigger] after.page_frame(p)) is Some
        implies p >= KERNEL_PAGE_NUMBER * TABLE_FSIZE && after.page_frame(p) == Some((p * FRAME_SIZE - KERNEL_BASE) as u32) by {
        assert(0 <= p / 0x400 && p / 0x400 < 0x400);
        if p / 0x400 == t {
            assert(p == self_page(table_phys));
            assert(p * 0x1000 - 0xC000_0000 == table_phys) by (nonlinear_arith)
                requires
                    p == (table_phys + 0xC000_0000) / 0x1000,
                    table_phys % 0x1000 == 0;
            assert(p >= 0xC0000) by (nonlinear_arith)
                requires
                    p == (table_phys + 0xC000_0000) / 0x1000;
        } else {
            assert(before.page_frame(p) == after.page_frame(p));
        }
    }
}

} // verus!
