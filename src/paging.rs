use vstd::prelude::*;

verus! {

/// Virtual address at which the kernel's half of every address space starts.
pub const KERNEL_BASE: u32 = 0xC000_0000;

/// Index of the first directory entry that belongs to the kernel's half.
pub const KERNEL_PAGE_NUMBER: u32 = 0x300;

/// Number of bytes in a frame bitmap.
pub const MMAP_SIZE: usize = 0x20000;

/// Number of frames a frame bitmap tracks (the whole 32-bit space).
pub const MEMORY_FSIZE: usize = 0x100000;

/// Number of entries in a page table or a page directory.
pub const TABLE_FSIZE: usize = 0x400;

/// Number of bytes of virtual memory one page table covers.
pub const TABLE_SIZE: usize = 0x400000;

/// Size in bytes of a physical frame and of a virtual page.
pub const FRAME_SIZE: usize = 0x1000;

/// Privilege flag of an entry that only the kernel may use.
pub const KERNEL_MODE: u32 = 0x0;

/// Privilege flag of an entry that user code may use.
pub const USER_MODE: u32 = 0x4;

/// Present and writable flags, set on every entry this module writes.
pub const PRESENT_WRITABLE: u32 = 0x3;

/// Whether bit `k` of byte `b` is set.
pub open spec fn bit_set(b: u8, k: u8) -> bool {
    (b >> k) & 1u8 == 1u8
}

proof fn lemma_bit_or(b: u8, k: u8, j: u8)
    by (bit_vector)
    requires
        k < 8,
        j < 8,
    ensures
        bit_set(b | (1u8 << k), j) == (j == k || bit_set(b, j)),
{
}

proof fn lemma_bit_and_not(b: u8, k: u8, j: u8)
    by (bit_vector)
    requires
        k < 8,
        j < 8,
    ensures
        bit_set(b & !(1u8 << k), j) == (j != k && bit_set(b, j)),
{
}

proof fn lemma_bit_zero(j: u8)
    by (bit_vector)
    requires
        j < 8,
    ensures
        !bit_set(0u8, j),
{
}

/// Why a frame could not be given back.
#[derive(Clone, Copy, Debug, PartialEq, Eq)]
pub enum FrameError {
    /// The address lies outside the address space it was given for.
    CorruptedAddress,
}

/// A page directory: 1024 directory entries, the page tables they point to, and
/// the frame bitmap that records which of this address space's frames are taken.
///
/// Table `t` is held in `pages[t * 1024 .. t * 1024 + 1024]`; the directory entry
/// `tables[t]` holds the physical address of that table and its flags.
pub struct PageDirectory {
    /// Physical address of the directory itself: what the page-directory base
    /// register holds while it is active.
    pub base: u32,
    /// The 1024 directory entries.
    pub tables: Vec<u32>,
    /// The entries of all page tables, table after table.
    pub pages: Vec<u32>,
    /// One bit per frame of this address space.
    pub mmap: Vec<u8>,
    /// Kernel-heap address of the block that holds the bitmap; zero when the
    /// directory has no such block.
    pub mmap_block: u32,
}

impl PageDirectory {
    /// Sizes of the three arrays are the hardware's.
    pub open spec fn wf(&self) -> bool {
        &&& self.tables@.len() == TABLE_FSIZE
        &&& self.pages@.len() == MEMORY_FSIZE
        &&& self.mmap@.len() == MMAP_SIZE
    }

    /// Whether frame `f` is marked used in the bitmap.
    pub open spec fn frame_used(&self, f: int) -> bool {
        bit_set(self.mmap@[f / 8], (f % 8) as u8)
    }

    /// The bitmap as one flag per frame.
    pub open spec fn frames(&self) -> Seq<bool> {
        Seq::new(MEMORY_FSIZE as nat, |f: int| self.frame_used(f))
    }

    /// A directory with no storage behind it yet.
    pub fn null() -> (r: PageDirectory)
        ensures
            r.base == 0,
            r.tables@.len() == 0,
            r.pages@.len() == 0,
            r.mmap@.len() == 0,
    {
        PageDirectory { base: 0, tables: Vec::new(), pages: Vec::new(), mmap: Vec::new(), mmap_block: 0 }
    }

    /// Whether frame `frame_id` is used.
    pub fn mmap_frame_state(&self, frame_id: u32) -> (r: bool)
        requires
            self.wf(),
            frame_id < MEMORY_FSIZE,
        ensures
            r == self.frames()[frame_id as int],
    {
        let byte = self.mmap[(frame_id / 8) as usize];
        let bit = (frame_id % 8) as u8;
        (byte >> bit) & 1u8 == 1u8
    }

    /// Marks frame `frame_id` used.
    pub fn mmap_set_frame(&mut self, frame_id: u32)
        requires
            old(self).wf(),
            frame_id < MEMORY_FSIZE,
        ensures
            final(self).wf(),
            final(self).frames() == old(self).frames().update(frame_id as int, true),
            final(self).base == old(self).base,
            final(self).tables@ == old(self).tables@,
            final(self).pages@ == old(self).pages@,
    {
        let idx = (frame_id / 8) as usize;
        let k = (frame_id % 8) as u8;
        let b = self.mmap[idx];
        self.mmap.set(idx, b | (1u8 << k));
        proof {
            let s = self.frames();
            let t = old(self).frames().update(frame_id as int, true);
            assert forall|f: int| 0 <= f < MEMORY_FSIZE implies s[f] == t[f] by {
                if f / 8 == idx as int {
                    lemma_bit_or(b, k, (f % 8) as u8);
                }
            }
            assert(s =~= t);
        }
    }

    /// Marks frame `frame_id` free. The frame's contents are left as they are.
    pub fn mmap_reset_frame(&mut self, frame_id: u32)
        requires
            old(self).wf(),
            frame_id < MEMORY_FSIZE,
        ensures
            final(self).wf(),
            final(self).frames() == old(self).frames().update(frame_id as int, false),
            final(self).base == old(self).base,
            final(self).tables@ == old(self).tables@,
            final(self).pages@ == old(self).pages@,
    {
        let idx = (frame_id / 8) as usize;
        let k = (frame_id % 8) as u8;
        let b = self.mmap[idx];
        self.mmap.set(idx, b & !(1u8 << k));
        proof {
            let s = self.frames();
            let t = old(self).frames().update(frame_id as int, false);
            assert forall|f: int| 0 <= f < MEMORY_FSIZE implies s[f] == t[f] by {
                if f / 8 == idx as int {
                    lemma_bit_and_not(b, k, (f % 8) as u8);
                }
            }
            assert(s =~= t);
        }
    }

    /// Whether the `n` frames from `start` on are all free and inside the bitmap.
    pub open spec fn area_free(&self, start: int, n: int) -> bool {
        &&& 0 <= start
        &&& start + n <= MEMORY_FSIZE
        &&& forall|f: int| start <= f < start + n ==> !#[trigger] self.frames()[f]
    }

    /// The lowest free frame, or `None` when every frame is used.
    pub fn mmap_get_free_frame(&self) -> (r: Option<u32>)
        requires
            self.wf(),
        ensures
            match r {
                Some(f) => {
                    &&& f < MEMORY_FSIZE
                    &&& !self.frames()[f as int]
                    &&& forall|g: int| 0 <= g < f ==> #[trigger] self.frames()[g]
                },
                None => forall|g: int| 0 <= g < MEMORY_FSIZE ==> #[trigger] self.frames()[g],
            },
    {
        let mut i: u32 = 0;
        while i < MEMORY_FSIZE as u32
            invariant
                self.wf(),
                i <= MEMORY_FSIZE,
                forall|g: int| 0 <= g < i ==> #[trigger] self.frames()[g],
            decreases MEMORY_FSIZE - i,
        {
            if !self.mmap_frame_state(i) {
                return Some(i);
            }
            i = i + 1;
        }
        None
    }

    /// The lowest frame that starts `size / FRAME_SIZE` free frames in a row, or
    /// `None` when there is no such run.
    pub fn mmap_get_free_area(&self, size: usize) -> (r: Option<u32>)
        requires
            self.wf(),
        ensures
            match r {
                Some(s) => {
                    &&& self.area_free(s as int, (size / FRAME_SIZE) as int)
                    &&& forall|t: int| 0 <= t < s ==> !#[trigger] self.area_free(t, (size / FRAME_SIZE) as int)
                },
                None => forall|t: int| 0 <= t ==> !#[trigger] self.area_free(t, (size / FRAME_SIZE) as int),
            },
    {
        let n: usize = size / FRAME_SIZE;
        if n == 0 {
            return Some(0);
        }
        let mut cnt: usize = 0;
        let mut i: usize = 0;
        while i < MEMORY_FSIZE
            invariant
                self.wf(),
                n == size / FRAME_SIZE,
                0 < n,
                cnt <= i <= MEMORY_FSIZE,
                cnt < n,
                forall|f: int| i - cnt <= f < i ==> !#[trigger] self.frames()[f],
                forall|t: int| 0 <= t && t + n <= i ==> !#[trigger] self.area_free(t, n as int),
                i - cnt > 0 ==> self.frames()[i - cnt - 1],
            decreases MEMORY_FSIZE - i,
        {
            if !self.mmap_frame_state(i as u32) {
                cnt = cnt + 1;
                if cnt == n {
                    let s = i + 1 - n;
                    proof {
                        assert forall|t: int| 0 <= t < s implies !self.area_free(t, n as int) by {
                            if t + n > i {
                                assert(self.frames()[s - 1]);
                            }
                        }
                    }
                    return Some(s as u32);
                }
            } else {
                proof {
                    assert forall|t: int| 0 <= t && t + n <= i + 1 implies !self.area_free(t, n as int) by {
                        if t + n == i + 1 {
                            assert(self.frames()[i as int]);
                        }
                    }
                }
                cnt = 0;
            }
            i = i + 1;
        }
        proof {
            assert forall|t: int| 0 <= t implies !self.area_free(t, n as int) by {
                if t + n <= MEMORY_FSIZE {
                    assert(t + n <= i);
                }
            }
        }
        None
    }

    /// Marks used every frame that overlaps the byte range `[start, end)`.
    pub fn mmap_set_area(&mut self, start: u32, end: u32)
        requires
            old(self).wf(),
        ensures
            final(self).wf(),
            forall|f: int| 0 <= f < MEMORY_FSIZE ==> #[trigger] final(self).frames()[f] == (old(self).frames()[f]
                || (start as int / FRAME_SIZE as int <= f < frames_to_cover(end as int))),
            final(self).base == old(self).base,
            final(self).tables@ == old(self).tables@,
            final(self).pages@ == old(self).pages@,
    {
        let start_frame: u32 = start / FRAME_SIZE as u32;
        let mut end_frame: u32 = end / FRAME_SIZE as u32;
        if end % FRAME_SIZE as u32 != 0 {
            end_frame = end_frame + 1;
        }
        let mut i: u32 = start_frame;
        while i < end_frame
            invariant
                self.wf(),
                end_frame <= MEMORY_FSIZE,
                end_frame == frames_to_cover(end as int),
                start_frame == start as int / FRAME_SIZE as int,
                i >= start_frame,
                forall|f: int| 0 <= f < MEMORY_FSIZE ==> #[trigger] self.frames()[f] == (old(self).frames()[f]
                    || (start_frame <= f < i && f < end_frame)),
                self.base == old(self).base,
                self.tables@ == old(self).tables@,
                self.pages@ == old(self).pages@,
            decreases end_frame - i,
        {
            self.mmap_set_frame(i);
            i = i + 1;
        }
    }

    /// Takes a frame and returns its address. With `addr` zero the lowest free
    /// frame is taken, and `None` comes back when there is none; otherwise the
    /// frame that holds `addr` is marked used, whatever its state was.
    pub fn mmap_alloc_frame(&mut self, addr: u32) -> (r: Option<u32>)
        requires
            old(self).wf(),
        ensures
            final(self).wf(),
            final(self).base == old(self).base,
            final(self).tables@ == old(self).tables@,
            final(self).pages@ == old(self).pages@,
            addr != 0 ==> r == Some((addr as int / FRAME_SIZE as int * FRAME_SIZE as int) as u32),
            addr == 0 ==> (r is None <==> forall|g: int| 0 <= g < MEMORY_FSIZE ==> #[trigger] old(self).frames()[g]),
            addr == 0 && r is Some ==> {
                let f = r->Some_0 as int / FRAME_SIZE as int;
                &&& r->Some_0 as int == f * FRAME_SIZE as int
                &&& !old(self).frames()[f]
                &&& forall|g: int| 0 <= g < f ==> #[trigger] old(self).frames()[g]
            },
            match r {
                Some(a) => final(self).frames() == old(self).frames().update(a as int / FRAME_SIZE as int, true),
                None => final(self).frames() == old(self).frames(),
            },
    {
        let frame = if addr == 0 {
            match self.mmap_get_free_frame() {
                Some(f) => f,
                None => {
                    return None;
                },
            }
        } else {
            addr / FRAME_SIZE as u32
        };
        self.mmap_set_frame(frame);
        Some(frame * FRAME_SIZE as u32)
    }
}

/// Number of frames needed to cover the bytes `[0, end)`.
pub open spec fn frames_to_cover(end: int) -> int {
    if end % FRAME_SIZE as int == 0 {
        end / FRAME_SIZE as int
    } else {
        end / FRAME_SIZE as int + 1
    }
}

/// A page-table or directory entry: the frame base `base` with the low twelve bits
/// given by `flags`.
pub open spec fn entry(base: u32, flags: u32) -> u32 {
    (base & 0xffff_f000u32) | flags
}

/// Whether an entry's present flag is set.
pub open spec fn entry_present(e: u32) -> bool {
    e & 1u32 == 1u32
}

/// The frame base an entry points to.
pub open spec fn entry_base(e: u32) -> u32 {
    e & 0xffff_f000u32
}

proof fn lemma_entry(base: u32, flags: u32)
    by (bit_vector)
    requires
        flags < 0x1000,
        flags & 1u32 == 1u32,
    ensures
        entry_present((base & 0xffff_f000u32) | flags),
        entry_base((base & 0xffff_f000u32) | flags) == base & 0xffff_f000u32,
{
}

/// An entry built from a frame-aligned address points back at that address.
pub proof fn lemma_entry_base_aligned(base: u32)
    ensures
        base % 0x1000 == 0 ==> entry_base(entry(base, PRESENT_WRITABLE | KERNEL_MODE)) == base
            && entry_base(entry(base, PRESENT_WRITABLE | USER_MODE)) == base,
        entry_present(entry(base, PRESENT_WRITABLE | KERNEL_MODE)),
        entry_present(entry(base, PRESENT_WRITABLE | USER_MODE)),
{
    assert(PRESENT_WRITABLE | KERNEL_MODE == 3u32) by (bit_vector);
    assert(PRESENT_WRITABLE | USER_MODE == 7u32) by (bit_vector);
    assert(((base & 0xffff_f000u32) | 3u32) & 1u32 == 1u32 && ((base & 0xffff_f000u32) | 7u32) & 1u32 == 1u32)
        by (bit_vector);
    assert(base % 0x1000 == 0 ==> ((base & 0xffff_f000u32) | 3u32) & 0xffff_f000u32 == base
        && ((base & 0xffff_f000u32) | 7u32) & 0xffff_f000u32 == base
        && ((base & 0xffff_f000u32) | 3u32) & 1u32 == 1u32) by (bit_vector);
}

/// Every 32-bit address lies in one of the bitmap's frames.
pub proof fn lemma_page_bound(a: u32)
    ensures
        (a as int / FRAME_SIZE as int) < MEMORY_FSIZE,
{
    assert((a as int / 0x1000) < 0x100000) by (nonlinear_arith)
        requires
            a <= 0xffff_ffff;
}

pub proof fn lemma_zero_absent()
    by (bit_vector)
    ensures
        !entry_present(0u32),
{
}

/// Builds an entry that points at `base` with the given flags.
pub fn make_entry(base: u32, flags: u32) -> (r: u32)
    requires
        flags < 0x1000,
    ensures
        r == entry(base, flags),
        flags & 1u32 == 1u32 ==> entry_present(r) && entry_base(r) == base & 0xffff_f000u32,
{
    proof {
        if flags & 1u32 == 1u32 {
            lemma_entry(base, flags);
        }
    }
    (base & 0xffff_f000u32) | flags
}

/// A zero-filled vector of `n` words.
fn zeroed_words(n: usize) -> (r: Vec<u32>)
    ensures
        r@ == Seq::new(n as nat, |i: int| 0u32),
{
    let mut v: Vec<u32> = Vec::with_capacity(n);
    let mut i: usize = 0;
    while i < n
        invariant
            i <= n,
            v@ == Seq::new(i as nat, |j: int| 0u32),
        decreases n - i,
    {
        v.push(0u32);
        i = i + 1;
        proof {
            assert(v@ =~= Seq::new(i as nat, |j: int| 0u32));
        }
    }
    v
}

/// A zero-filled vector of `n` bytes.
fn zeroed_bytes(n: usize) -> (r: Vec<u8>)
    ensures
        r@ == Seq::new(n as nat, |i: int| 0u8),
{
    let mut v: Vec<u8> = Vec::with_capacity(n);
    let mut i: usize = 0;
    while i < n
        invariant
            i <= n,
            v@ == Seq::new(i as nat, |j: int| 0u8),
        decreases n - i,
    {
        v.push(0u8);
        i = i + 1;
        proof {
            assert(v@ =~= Seq::new(i as nat, |j: int| 0u8));
        }
    }
    v
}

/// One page table: 1024 entries.
pub struct PageTable {
    pub entries: Vec<u32>,
}

impl PageTable {
    /// A table whose entries are all empty.
    pub fn null() -> (r: PageTable)
        ensures
            r.entries@ == Seq::new(TABLE_FSIZE as nat, |i: int| 0u32),
    {
        PageTable { entries: zeroed_words(TABLE_FSIZE) }
    }
}

/// The page at which the frame at physical address `table_phys` is seen in the
/// kernel's half.
pub open spec fn self_page(table_phys: u32) -> int {
    (table_phys + KERNEL_BASE) / FRAME_SIZE as int
}

/// Whether a table installed at index `table_idx` with its storage at
/// `table_phys` covers the kernel address of its own frame.
pub open spec fn maps_itself(table_idx: int, table_phys: u32) -> bool {
    table_phys < 0x4000_0000 && self_page(table_phys) / TABLE_FSIZE as int == table_idx
}

/// A table of a task's own half never covers the kernel address of its frame.
pub proof fn lemma_user_table_not_self(table_idx: int, table_phys: u32)
    requires
        0 <= table_idx < KERNEL_PAGE_NUMBER,
    ensures
        !maps_itself(table_idx, table_phys),
{
    if table_phys < 0x4000_0000 {
        assert(self_page(table_phys) / 0x400 >= 0x300) by (nonlinear_arith)
            requires
                self_page(table_phys) == (table_phys + 0xC000_0000) / 0x1000,
                table_phys >= 0;
    }
}

/// Page number of virtual address `v`.
pub open spec fn page_of(v: int) -> int {
    v / FRAME_SIZE as int
}

impl PageDirectory {
    /// The physical frame base that page `p` maps to, if it is mapped: the
    /// directory entry of its table and its own table entry are both present.
    pub open spec fn page_frame(&self, p: int) -> Option<u32> {
        if entry_present(self.tables@[p / TABLE_FSIZE as int]) && entry_present(self.pages@[p]) {
            Some(entry_base(self.pages@[p]))
        } else {
            None
        }
    }

    /// The physical address that virtual address `v` translates to.
    pub open spec fn translate(&self, v: u32) -> Option<int> {
        match self.page_frame(page_of(v as int)) {
            Some(b) => Some(b as int + v as int % FRAME_SIZE as int),
            None => None,
        }
    }

    /// The physical address that virtual address `v` translates to, if any.
    pub fn lookup(&self, v: u32) -> (r: Option<u32>)
        requires
            self.wf(),
        ensures
            r is None <==> self.translate(v) is None,
            r matches Some(p) ==> self.translate(v) == Some(p as int),
    {
        let p: u32 = v / FRAME_SIZE as u32;
        proof {
            lemma_page_bound(v);
        }
        assert(p / 0x400 < 0x400);
        if entry_present_exec(self.tables[(p / TABLE_FSIZE as u32) as usize]) && entry_present_exec(self.pages[p as usize]) {
            let e = self.pages[p as usize];
            let base = e & 0xffff_f000u32;
            assert(base + v % 0x1000 <= 0xffff_ffff) by (bit_vector)
                requires
                    base == e & 0xffff_f000u32;
            Some(base + v % FRAME_SIZE as u32)
        } else {
            None
        }
    }

    /// Whether the table that covers page `p` is present.
    pub open spec fn table_present(&self, p: int) -> bool {
        entry_present(self.tables@[p / TABLE_FSIZE as int])
    }

    /// An empty directory whose base register value is `base`: no table, no
    /// frame taken.
    pub fn empty(base: u32) -> (r: PageDirectory)
        ensures
            r.wf(),
            r.base == base,
            r.tables@ == Seq::new(TABLE_FSIZE as nat, |i: int| 0u32),
            r.pages@ == Seq::new(MEMORY_FSIZE as nat, |i: int| 0u32),
            forall|f: int| 0 <= f < MEMORY_FSIZE ==> !#[trigger] r.frames()[f],
    {
        let r = PageDirectory {
            base,
            tables: zeroed_words(TABLE_FSIZE),
            pages: zeroed_words(MEMORY_FSIZE),
            mmap: zeroed_bytes(MMAP_SIZE),
            mmap_block: 0,
        };
        proof {
            assert forall|f: int| 0 <= f < MEMORY_FSIZE implies !#[trigger] r.frames()[f] by {
                lemma_bit_zero((f % 8) as u8);
            }
        }
        r
    }

    /// Installs table `table_idx` with its storage at physical address
    /// `table_phys`; all its entries start empty, but for the one that maps the
    /// table's own frame at its kernel address when the new table covers that
    /// address, so that the table can be reached and filled in.
    pub fn new_table(&mut self, table_idx: usize, table_phys: u32, mode: u32)
        requires
            old(self).wf(),
            table_idx < TABLE_FSIZE,
            mode == KERNEL_MODE || mode == USER_MODE,
        ensures
            final(self).wf(),
            final(self).base == old(self).base,
            final(self).tables@ == old(self).tables@.update(table_idx as int, entry(table_phys, PRESENT_WRITABLE | mode)),
            entry_present(final(self).tables@[table_idx as int]),
            forall|p: int| 0 <= p < MEMORY_FSIZE ==> #[trigger] final(self).pages@[p]
                == if p / TABLE_FSIZE as int == table_idx {
                    if maps_itself(table_idx as int, table_phys) && p == self_page(table_phys) {
                        entry(table_phys, PRESENT_WRITABLE | mode)
                    } else {
                        0u32
                    }
                } else {
                    old(self).pages@[p]
                },
            !maps_itself(table_idx as int, table_phys) ==> final(self).frames() == old(self).frames(),
            maps_itself(table_idx as int, table_phys) ==> {
                &&& final(self).frames() == old(self).frames().update(self_page(table_phys), true)
                &&& final(self).page_frame(self_page(table_phys)) == Some(table_phys & 0xffff_f000u32)
                &&& table_phys % 0x1000 == 0 ==> final(self).translate((table_phys + KERNEL_BASE) as u32)
                    == Some(table_phys as int)
            },
            !entry_present(old(self).tables@[table_idx as int]) ==> forall|p: int| 0 <= p < MEMORY_FSIZE
                && old(self).page_frame(p) is Some ==> #[trigger] final(self).page_frame(p) == old(self).page_frame(p),
            forall|p: int| 0 <= p < MEMORY_FSIZE ==> #[trigger] final(self).table_present(p)
                == (p / TABLE_FSIZE as int == table_idx || old(self).table_present(p)),
    {
        self.install_table(table_idx, table_phys, mode);
        if table_phys < 0x4000_0000 {
            let q: u32 = (table_phys + KERNEL_BASE) / FRAME_SIZE as u32;
            if (q / TABLE_FSIZE as u32) as usize == table_idx {
                let ghost mid = *self;
                self.map_page(q, table_phys, mode);
                proof {
                    assert(q / 0x400 < 0x400);
                    assert forall|p: int| 0 <= p < MEMORY_FSIZE implies #[trigger] self.table_present(p)
                        == mid.table_present(p) by {}
                    if table_phys % 0x1000 == 0 {
                        assert((table_phys & 0xffff_f000u32) == table_phys) by (bit_vector)
                            requires
                                table_phys % 0x1000 == 0;
                        assert(((table_phys + KERNEL_BASE) as u32) as int / 0x1000 == q);
                        assert(((table_phys + KERNEL_BASE) as u32) as int % 0x1000 == 0) by (nonlinear_arith)
                            requires
                                table_phys % 0x1000 == 0,
                                table_phys < 0x4000_0000;
                    }
                }
            }
        }
    }

    /// Installs table `table_idx` with its storage at physical address
    /// `table_phys`; all its entries start empty.
    fn install_table(&mut self, table_idx: usize, table_phys: u32, mode: u32)
        requires
            old(self).wf(),
            table_idx < TABLE_FSIZE,
            mode == KERNEL_MODE || mode == USER_MODE,
        ensures
            final(self).wf(),
            final(self).base == old(self).base,
            final(self).frames() == old(self).frames(),
            final(self).tables@ == old(self).tables@.update(table_idx as int, entry(table_phys, PRESENT_WRITABLE | mode)),
            entry_present(final(self).tables@[table_idx as int]),
            forall|p: int| 0 <= p < MEMORY_FSIZE ==> #[trigger] final(self).pages@[p]
                == if p / TABLE_FSIZE as int == table_idx { 0u32 } else { old(self).pages@[p] },
            !entry_present(old(self).tables@[table_idx as int]) ==> forall|p: int| 0 <= p < MEMORY_FSIZE
                ==> #[trigger] final(self).page_frame(p) == old(self).page_frame(p),
            forall|p: int| 0 <= p < MEMORY_FSIZE ==> #[trigger] final(self).table_present(p)
                == (p / TABLE_FSIZE as int == table_idx || old(self).table_present(p)),
    {
        let first = table_idx * TABLE_FSIZE;
        let mut i: usize = 0;
        while i < TABLE_FSIZE
            invariant
                self.wf(),
                table_idx < TABLE_FSIZE,
                first == table_idx * TABLE_FSIZE,
                i <= TABLE_FSIZE,
                self.base == old(self).base,
                self.mmap@ == old(self).mmap@,
                self.tables@ == old(self).tables@,
                forall|p: int| 0 <= p < MEMORY_FSIZE ==> #[trigger] self.pages@[p]
                    == if p / TABLE_FSIZE as int == table_idx && p < first + i { 0u32 } else { old(self).pages@[p] },
            decreases TABLE_FSIZE - i,
        {
            self.pages.set(first + i, 0u32);
            i = i + 1;
        }
        assert(PRESENT_WRITABLE | mode < 0x1000 && (PRESENT_WRITABLE | mode) & 1u32 == 1u32) by (bit_vector)
            requires
                mode == KERNEL_MODE || mode == USER_MODE;
        let e = make_entry(table_phys, PRESENT_WRITABLE | mode);
        self.tables.set(table_idx, e);
        assert(self.frames() =~= old(self).frames());
        proof {
            lemma_zero_absent();
            assert forall|p: int| 0 <= p < MEMORY_FSIZE implies #[trigger] self.table_present(p)
                == (p / TABLE_FSIZE as int == table_idx || old(self).table_present(p)) by {
                assert(0 <= p / 0x400 && p / 0x400 < 0x400);
            }
            if !entry_present(old(self).tables@[table_idx as int]) {
                assert forall|p: int| 0 <= p < MEMORY_FSIZE implies #[trigger] self.page_frame(p) == old(self).page_frame(p) by {
                    assert(0 <= p / 0x400 && p / 0x400 < 0x400);
                }
            }
        }
    }

    /// Points page `page` at the frame `phys`, marking its frame used in the
    /// bitmap. The table that covers it must be present.
    pub fn map_page(&mut self, page: u32, phys: u32, mode: u32)
        requires
            old(self).wf(),
            page < MEMORY_FSIZE,
            old(self).table_present(page as int),
            mode == KERNEL_MODE || mode == USER_MODE,
        ensures
            final(self).wf(),
            final(self).base == old(self).base,
            final(self).tables@ == old(self).tables@,
            final(self).pages@ == old(self).pages@.update(page as int, entry(phys, PRESENT_WRITABLE | mode)),
            final(self).frames() == old(self).frames().update(page as int, true),
            final(self).page_frame(page as int) == Some(phys & 0xffff_f000u32),
            forall|p: int| 0 <= p < MEMORY_FSIZE && p != page ==> #[trigger] final(self).page_frame(p) == old(self).page_frame(p),
    {
        assert(PRESENT_WRITABLE | mode < 0x1000 && (PRESENT_WRITABLE | mode) & 1u32 == 1u32) by (bit_vector)
            requires
                mode == KERNEL_MODE || mode == USER_MODE;
        let e = make_entry(phys, PRESENT_WRITABLE | mode);
        self.pages.set(page as usize, e);
        self.mmap_set_frame(page);
    }

    /// Takes a frame and maps it to the physical frame `phys`, with the
    /// privilege flag `mode`. In user mode the lowest free frame of this
    /// directory is taken; in kernel mode, the frame at which `phys` is seen in
    /// the kernel's half. When the table that covers that frame is missing it
    /// is installed first, with its storage at `table_phys`. Returns the virtual
    /// address; `None`, with nothing changed, when `phys` lies below
    /// `kernel_end`, the end of the kernel image, when in user mode every frame
    /// is used, or when in kernel mode `phys` has no kernel address.
    pub fn alloc_frame(&mut self, phys: u32, mode: u32, kernel_end: u32, table_phys: u32) -> (r: Option<u32>)
        requires
            old(self).wf(),
            mode == KERNEL_MODE || mode == USER_MODE,
            KERNEL_BASE <= kernel_end,
        ensures
            final(self).wf(),
            final(self).base == old(self).base,
            r is None ==> *final(self) == *old(self),
            mode == USER_MODE ==> (r is None <==> (phys + KERNEL_BASE < kernel_end
                || forall|g: int| 0 <= g < MEMORY_FSIZE ==> #[trigger] old(self).frames()[g])),
            mode == KERNEL_MODE ==> (r is None <==> (phys + KERNEL_BASE < kernel_end || phys >= 0x4000_0000)),
            r matches Some(v) ==> {
                let f = page_of(v as int);
                &&& v as int == f * FRAME_SIZE
                &&& mode == KERNEL_MODE ==> f == (phys + KERNEL_BASE) / FRAME_SIZE as int
                &&& mode == USER_MODE ==> !old(self).frames()[f]
                    && forall|g: int| 0 <= g < f ==> #[trigger] old(self).frames()[g]
                &&& final(self).pages@[f] == entry(phys, PRESENT_WRITABLE | mode)
                &&& final(self).page_frame(f) == Some(phys & 0xffff_f000u32)
                &&& final(self).frames()[f]
                &&& forall|g: int| 0 <= g < MEMORY_FSIZE && old(self).frames()[g] ==> #[trigger] final(self).frames()[g]
                &&& forall|g: int| 0 <= g < MEMORY_FSIZE && g != f && g != self_page(table_phys)
                    ==> #[trigger] final(self).frames()[g] == old(self).frames()[g]
                &&& forall|p: int| 0 <= p < MEMORY_FSIZE && p != f && old(self).page_frame(p) is Some
                    ==> #[trigger] final(self).page_frame(p) == old(self).page_frame(p)
                &&& old(self).table_present(f) ==> final(self).tables@ == old(self).tables@
                &&& !old(self).table_present(f) ==> final(self).tables@
                    == old(self).tables@.update(f / TABLE_FSIZE as int, entry(table_phys, PRESENT_WRITABLE | mode))
            },
    {
        if phys < kernel_end - KERNEL_BASE {
            return None;
        }
        let page: u32 = if mode == USER_MODE {
            match self.mmap_get_free_frame() {
                Some(f) => f,
                None => {
                    return None;
                },
            }
        } else {
            if phys >= 0x4000_0000 {
                return None;
            }
            (phys + KERNEL_BASE) / FRAME_SIZE as u32
        };
        assert(page < MEMORY_FSIZE);
        assert(page / 0x400 < 0x400);
        let t: usize = (page / TABLE_FSIZE as u32) as usize;
        if !entry_present_exec(self.tables[t]) {
            self.new_table(t, table_phys, mode);
        }
        let ghost mid = *self;
        self.map_page(page, phys, mode);
        assert((page as int * 0x1000) / 0x1000 == page as int) by (nonlinear_arith);
        assert(page as int * 0x1000 <= 0xffff_ffff) by (nonlinear_arith)
            requires
                page < 0x100000;
        Some(page * FRAME_SIZE as u32)
    }

    /// Takes back the frame at `addr`: its bitmap bit and its table entry are
    /// cleared; the table itself stays. `low` and `high` bound the address
    /// space the frame belongs to: a task's own half is `[0, KERNEL_BASE - 1]`,
    /// the kernel's is from the end of its image on. An address outside them is
    /// refused and nothing changes.
    pub fn free_frame(&mut self, addr: u32, low: u32, high: u32) -> (r: Result<(), FrameError>)
        requires
            old(self).wf(),
        ensures
            final(self).wf(),
            !(low <= addr <= high) ==> r == Err::<(), FrameError>(FrameError::CorruptedAddress) && *final(self) == *old(self),
            low <= addr <= high ==> {
                &&& r is Ok
                &&& final(self).base == old(self).base
                &&& final(self).tables@ == old(self).tables@
                &&& final(self).frames() == old(self).frames().update(page_of(addr as int), false)
                &&& final(self).pages@ == old(self).pages@.update(page_of(addr as int), 0u32)
                &&& final(self).page_frame(page_of(addr as int)) is None
                &&& forall|p: int| 0 <= p < MEMORY_FSIZE && p != page_of(addr as int)
                    ==> #[trigger] final(self).page_frame(p) == old(self).page_frame(p)
            },
    {
        if addr < low || addr > high {
            return Err(FrameError::CorruptedAddress);
        }
        let page = addr / FRAME_SIZE as u32;
        proof {
            lemma_page_bound(addr);
        }
        self.mmap_reset_frame(page);
        self.pages.set(page as usize, 0u32);
        proof {
            lemma_zero_absent();
        }
        Ok(())
    }

    /// Copies every kernel-half entry of `kernel` into this directory, so that
    /// the kernel stays mapped the same way once this directory is active.
    pub fn update(&mut self, kernel: &PageDirectory)
        requires
            old(self).wf(),
            kernel.wf(),
        ensures
            final(self).wf(),
            final(self).mirrors(*old(self), *kernel),
    {
        let mut t: usize = KERNEL_PAGE_NUMBER as usize;
        while t < TABLE_FSIZE
            invariant
                self.wf(),
                kernel.wf(),
                KERNEL_PAGE_NUMBER <= t <= TABLE_FSIZE,
                self.base == old(self).base,
                self.mmap_block == old(self).mmap_block,
                self.mmap@ == old(self).mmap@,
                self.pages@ == old(self).pages@,
                forall|i: int| 0 <= i < TABLE_FSIZE ==> #[trigger] self.tables@[i]
                    == if KERNEL_PAGE_NUMBER <= i < t { kernel.tables@[i] } else { old(self).tables@[i] },
            decreases TABLE_FSIZE - t,
        {
            self.tables.set(t, kernel.tables[t]);
            t = t + 1;
        }
        let first: usize = KERNEL_PAGE_NUMBER as usize * TABLE_FSIZE;
        let mut p: usize = first;
        while p < MEMORY_FSIZE
            invariant
                self.wf(),
                kernel.wf(),
                first == KERNEL_PAGE_NUMBER * TABLE_FSIZE,
                first <= p <= MEMORY_FSIZE,
                self.base == old(self).base,
                self.mmap_block == old(self).mmap_block,
                self.mmap@ == old(self).mmap@,
                forall|i: int| 0 <= i < TABLE_FSIZE ==> #[trigger] self.tables@[i]
                    == if KERNEL_PAGE_NUMBER <= i { kernel.tables@[i] } else { old(self).tables@[i] },
                forall|i: int| 0 <= i < MEMORY_FSIZE ==> #[trigger] self.pages@[i]
                    == if first <= i < p { kernel.pages@[i] } else { old(self).pages@[i] },
            decreases MEMORY_FSIZE - p,
        {
            self.pages.set(p, kernel.pages[p]);
            p = p + 1;
        }
        assert(self.frames() =~= old(self).frames());
    }

    /// This directory is `before` with its kernel half, tables and entries, taken
    /// from `kernel`; its own half and its bitmap are those of `before`.
    pub open spec fn mirrors(&self, before: PageDirectory, kernel: PageDirectory) -> bool {
        &&& self.shares_kernel_half(kernel)
        &&& self.base == before.base
        &&& self.mmap_block == before.mmap_block
        &&& self.frames() == before.frames()
        &&& forall|i: int| 0 <= i < TABLE_FSIZE ==> #[trigger] self.tables@[i]
            == if KERNEL_PAGE_NUMBER <= i { kernel.tables@[i] } else { before.tables@[i] }
        &&& forall|i: int| 0 <= i < MEMORY_FSIZE ==> #[trigger] self.pages@[i]
            == if KERNEL_PAGE_NUMBER * TABLE_FSIZE <= i { kernel.pages@[i] } else { before.pages@[i] }
    }

    /// The kernel half of this directory, tables and entries, is that of `kernel`.
    pub open spec fn shares_kernel_half(&self, kernel: PageDirectory) -> bool {
        &&& forall|i: int| KERNEL_PAGE_NUMBER <= i < TABLE_FSIZE ==> #[trigger] self.tables@[i] == kernel.tables@[i]
        &&& forall|i: int| KERNEL_PAGE_NUMBER * TABLE_FSIZE <= i < MEMORY_FSIZE ==> #[trigger] self.pages@[i] == kernel.pages@[i]
    }

    /// A fresh directory for a task, whose base register value is `base`: its own
    /// half is empty, its bitmap clear, and its kernel half that of this one.
    pub fn new_directory(&self, base: u32) -> (r: PageDirectory)
        requires
            self.wf(),
        ensures
            r.wf(),
            r.base == base,
            forall|f: int| 0 <= f < MEMORY_FSIZE ==> !#[trigger] r.frames()[f],
            forall|i: int| 0 <= i < TABLE_FSIZE ==> #[trigger] r.tables@[i]
                == if KERNEL_PAGE_NUMBER <= i { self.tables@[i] } else { 0u32 },
            forall|i: int| 0 <= i < MEMORY_FSIZE ==> #[trigger] r.pages@[i]
                == if KERNEL_PAGE_NUMBER * TABLE_FSIZE <= i { self.pages@[i] } else { 0u32 },
            r.shares_kernel_half(*self),
    {
        let mut d = PageDirectory::empty(base);
        d.update(self);
        assert(d.shares_kernel_half(*self));
        d
    }
}

/// Whether an entry's present flag is set.
pub fn entry_present_exec(e: u32) -> (r: bool)
    ensures
        r == entry_present(e),
{
    e & 1u32 == 1u32
}

/// Marking a frame used and then free again leaves it free, so that the lowest
/// free frame is again at most that one: it can be handed out again. The other
/// frames are as they were before.
pub proof fn lemma_bitmap_round_trip(before: PageDirectory, set: PageDirectory, reset: PageDirectory, i: int)
    requires
        0 <= i < MEMORY_FSIZE,
        set.frames() == before.frames().update(i, true),
        reset.frames() == set.frames().update(i, false),
    ensures
        !reset.frames()[i],
        reset.area_free(i, 1),
        reset.frames() == before.frames().update(i, false),
{
    assert(reset.frames() =~= before.frames().update(i, false));
}

/// Two frames taken one after the other by `mmap_alloc_frame(0)`, the first
/// still held, are different: the second one was free when it was taken, and
/// the first one was marked used.
pub proof fn lemma_no_double_allocation(d0: PageDirectory, d1: PageDirectory, a1: u32, a2: u32)
    requires
        0 <= a1 as int / FRAME_SIZE as int,
        d1.frames() == d0.frames().update(a1 as int / FRAME_SIZE as int, true),
        !d1.frames()[a2 as int / FRAME_SIZE as int],
    ensures
        a1 != a2,
{
    lemma_page_bound(a1);
    assert(d1.frames()[a1 as int / FRAME_SIZE as int]);
}

} // verus!
