use vstd::prelude::*;

verus! {

/// Longest file name a directory entry holds.
pub const MAX_FILENAME_LENGTH: usize = 26;
/// Bytes in a disk sector.
pub const SECTOR_SIZE: usize = 512;
/// Bytes in a directory entry.
pub const ENTRY_SIZE: usize = 32;

/// What is known of a file: its name, size, where its directory entry lies and
/// its first block.
pub struct Stat {
    pub name: Vec<u8>,
    pub size: usize,
    pub entry_offset: u16,
    pub start: usize,
}

impl Stat {
    /// The record of no file: empty name, everything zero.
    pub fn null() -> (r: Stat)
        ensures
            r.name@ == Seq::new(MAX_FILENAME_LENGTH as nat, |i: int| 0u8),
            r.size == 0,
            r.entry_offset == 0,
            r.start == 0,
    {
        let mut name: Vec<u8> = Vec::new();
        let mut i: usize = 0;
        while i < MAX_FILENAME_LENGTH
            invariant
                i <= MAX_FILENAME_LENGTH,
                name@ == Seq::new(i as nat, |j: int| 0u8),
            decreases MAX_FILENAME_LENGTH - i,
        {
            name.push(0u8);
            i = i + 1;
            assert(name@ =~= Seq::new(i as nat, |j: int| 0u8));
        }
        Stat { name, size: 0, entry_offset: 0, start: 0 }
    }
}

impl Stat {
    /// The record of the file whose directory entry starts at `offset` in the
    /// directory sector `entries`: its first block as a little-endian half-word
    /// at byte 26 of the entry, its size as a little-endian word at byte 28.
    pub fn from_entry(entries: &[u8], offset: usize, name: Vec<u8>) -> (r: Stat)
        requires
            entries@.len() == SECTOR_SIZE,
            offset < SECTOR_SIZE,
            offset % ENTRY_SIZE == 0,
        ensures
            r.name@ == name@,
            r.start == entries@[offset + 26] + entries@[offset + 27] * 0x100,
            r.size == entries@[offset + 28] + entries@[offset + 29] * 0x100 + entries@[offset + 30] * 0x1_0000
                + entries@[offset + 31] * 0x100_0000,
            r.entry_offset == offset,
    {
        let start = entries[offset + 26] as usize + entries[offset + 27] as usize * 0x100;
        let size: u32 = entries[offset + 28] as u32 + entries[offset + 29] as u32 * 0x100
            + entries[offset + 30] as u32 * 0x1_0000 + entries[offset + 31] as u32 * 0x100_0000;
        Stat { name, size: size as usize, entry_offset: offset as u16, start }
    }
}

/// Position of a walk over the root directory: a sector and an offset in it.
#[derive(Clone, Copy, Debug)]
pub struct FileIterator {
    pub sector: u32,
    pub offset: usize,
}

impl FileIterator {
    pub fn null() -> (r: FileIterator)
        ensures
            r.sector == 0,
            r.offset == 0,
    {
        FileIterator { sector: 0, offset: 0 }
    }

    /// Whether the directory sector `entries`, read at this iterator's sector,
    /// holds an entry at its offset.
    pub fn has_next(&self, entries: &[u8]) -> (r: bool)
        requires
            entries@.len() == SECTOR_SIZE,
            self.offset < SECTOR_SIZE,
        ensures
            r == (entries@[self.offset as int] != 0),
    {
        entries[self.offset] != 0
    }

    /// Takes the name of the entry at this iterator's offset in the directory
    /// sector `entries`, and moves to the next entry; `None` when there is no
    /// entry there.
    pub fn next(&mut self, entries: &[u8]) -> (r: Option<Vec<u8>>)
        requires
            entries@.len() == SECTOR_SIZE,
            old(self).offset < SECTOR_SIZE,
            old(self).offset % ENTRY_SIZE == 0,
            old(self).sector < u32::MAX,
        ensures
            final(self).offset < SECTOR_SIZE,
            final(self).offset % ENTRY_SIZE == 0,
            entries@[old(self).offset as int] == 0 ==> r is None && *final(self) == *old(self),
            entries@[old(self).offset as int] != 0 ==> {
                &&& r is Some
                &&& r->Some_0@ == entries@.subrange(old(self).offset as int, old(self).offset + MAX_FILENAME_LENGTH)
                &&& final(self).offset == (old(self).offset + ENTRY_SIZE) % SECTOR_SIZE as int
                &&& final(self).sector == if final(self).offset == 0 { old(self).sector + 1 } else { old(self).sector as int }
            },
    {
        if !self.has_next(entries) {
            return None;
        }
        let mut name: Vec<u8> = Vec::new();
        let mut i: usize = 0;
        while i < MAX_FILENAME_LENGTH
            invariant
                self.offset < SECTOR_SIZE,
                self.offset % ENTRY_SIZE == 0,
                entries@.len() == SECTOR_SIZE,
                i <= MAX_FILENAME_LENGTH,
                name@ == entries@.subrange(self.offset as int, self.offset + i),
            decreases MAX_FILENAME_LENGTH - i,
        {
            name.push(entries[self.offset + i]);
            i = i + 1;
            assert(name@ =~= entries@.subrange(self.offset as int, self.offset + i));
        }
        self.offset = (self.offset + ENTRY_SIZE) % SECTOR_SIZE;
        if self.offset == 0 {
            self.sector = self.sector + 1;
        }
        Some(name)
    }
}

/// An open file: what is known of it and the read position.
pub struct FdtEntry {
    pub stat: Stat,
    pub pos: usize,
}

impl FdtEntry {
    /// A free slot of the file table.
    pub fn null() -> (r: FdtEntry)
        ensures
            r.stat.name@ == Seq::new(MAX_FILENAME_LENGTH as nat, |i: int| 0u8),
            r.stat.start == 0,
            r.stat.size == 0,
            r.stat.entry_offset == 0,
            r.pos == 0,
    {
        FdtEntry { stat: Stat::null(), pos: 0 }
    }
}

impl FdtEntry {
    /// Moves the read position `offset` bytes on. Past the end of the file
    /// the position stops at the end and -1 comes back; otherwise 0.
    pub fn seek(&mut self, offset: usize) -> (r: i32)
        ensures
            old(self).pos + offset > old(self).stat.size ==> r == -1 && final(self).pos == old(self).stat.size,
            old(self).pos + offset <= old(self).stat.size ==> r == 0 && final(self).pos == old(self).pos + offset,
            final(self).stat == old(self).stat,
    {
        if offset > self.stat.size || self.pos > self.stat.size - offset {
            self.pos = self.stat.size;
            -1
        } else {
            self.pos = self.pos + offset;
            0
        }
    }
}

/// Index of the first free slot of the file table `fdt`, or -1 when every
/// slot holds an open file.
pub fn free_fd(fdt: &Vec<FdtEntry>) -> (r: i32)
    requires
        fdt@.len() <= i32::MAX,
    ensures
        -1 <= r < fdt@.len(),
        r == -1 <==> forall|i: int| 0 <= i < fdt@.len() ==> (#[trigger] fdt@[i]).stat.start != 0,
        r >= 0 ==> fdt@[r as int].stat.start == 0 && forall|i: int| 0 <= i < r ==> (#[trigger] fdt@[i]).stat.start != 0,
{
    let mut i: usize = 0;
    while i < fdt.len()
        invariant
            i <= fdt@.len(),
            fdt@.len() <= i32::MAX,
            forall|j: int| 0 <= j < i ==> (#[trigger] fdt@[j]).stat.start != 0,
        decreases fdt@.len() - i,
    {
        if fdt[i].stat.start == 0 {
            return i as i32;
        }
        i = i + 1;
    }
    -1
}

/// Closes file `fd` of the file table `fdt`: its slot is freed and 0 comes
/// back; -1 when `fd` names no open file.
pub fn file_close(fdt: &mut Vec<FdtEntry>, fd: i32) -> (r: i32)
    ensures
        final(fdt)@.len() == old(fdt)@.len(),
        (fd < 0 || fd >= old(fdt)@.len() || old(fdt)@[fd as int].stat.start == 0) ==> r == -1
            && final(fdt)@ == old(fdt)@,
        (0 <= fd < old(fdt)@.len() && old(fdt)@[fd as int].stat.start != 0) ==> {
            &&& r == 0
            &&& final(fdt)@[fd as int].stat.start == 0
            &&& final(fdt)@[fd as int].stat.size == 0
            &&& final(fdt)@[fd as int].pos == 0
            &&& forall|i: int| 0 <= i < old(fdt)@.len() && i != fd ==> #[trigger] final(fdt)@[i] == old(fdt)@[i]
        },
{
    if fd < 0 || fd as usize >= fdt.len() || fdt[fd as usize].stat.start == 0 {
        return -1;
    }
    fdt.set(fd as usize, FdtEntry::null());
    0
}

/// The file system's geometry, read from its first sector.
#[derive(Clone, Copy, Debug)]
pub struct Superblock {
    pub block_size: usize,
    pub fat_size: usize,
    pub root_entry: usize,
}

impl Superblock {
    pub fn null() -> (r: Superblock)
        ensures
            r.block_size == 0 && r.fat_size == 0 && r.root_entry == 0,
    {
        Superblock { block_size: 0, fat_size: 0, root_entry: 0 }
    }

    /// Reads the geometry from the first sector `raw`: sectors per block at
    /// byte 13, the table's size as a little-endian word at byte 0x24, and the
    /// root directory's block at byte 0x2c.
    pub fn new(raw: &[u8]) -> (r: Superblock)
        requires
            raw@.len() == SECTOR_SIZE,
        ensures
            r.block_size == raw@[13] * SECTOR_SIZE,
            r.fat_size == raw@[0x24] + raw@[0x25] * 0x100 + raw@[0x26] * 0x1_0000 + raw@[0x27] * 0x100_0000,
            r.root_entry == raw@[0x2c],
    {
        let block_size = raw[13] as usize * SECTOR_SIZE;
        let fat_size: u32 = raw[0x24] as u32 + raw[0x25] as u32 * 0x100 + raw[0x26] as u32 * 0x1_0000
            + raw[0x27] as u32 * 0x100_0000;
        Superblock { block_size, fat_size: fat_size as usize, root_entry: raw[0x2c] as usize }
    }
}

/// The bytes of `s` before its first zero, or all of them when there is none.
pub open spec fn cstr(s: Seq<u8>) -> Seq<u8>
    decreases s.len(),
{
    if s.len() == 0 || s[0] == 0 {
        Seq::empty()
    } else {
        seq![s[0]] + cstr(s.drop_first())
    }
}

proof fn lemma_cstr(s: Seq<u8>, p: Seq<u8>)
    requires
        p.len() <= s.len(),
        p == s.subrange(0, p.len() as int),
        forall|i: int| 0 <= i < p.len() ==> #[trigger] s[i] != 0,
        p.len() < s.len() ==> s[p.len() as int] == 0,
    ensures
        p == cstr(s),
    decreases s.len(),
{
    if p.len() > 0 {
        assert(p.drop_first() =~= s.drop_first().subrange(0, p.len() - 1));
        lemma_cstr(s.drop_first(), p.drop_first());
        assert(p =~= seq![s[0]] + p.drop_first());
    } else if s.len() > 0 {
        assert(s[0] == 0);
    }
}

/// The name in the directory entry `k` of the directory bytes `root`.
pub open spec fn entry_name(root: Seq<u8>, k: int) -> Seq<u8> {
    cstr(root.subrange(k * ENTRY_SIZE, k * ENTRY_SIZE + MAX_FILENAME_LENGTH))
}

/// Entry `k` of `root` is reached by a walk from the first entry: it and
/// every entry before it are in use.
pub open spec fn listed(root: Seq<u8>, k: int) -> bool {
    &&& 0 <= k < root.len() as int / ENTRY_SIZE as int
    &&& forall|j: int| 0 <= j <= k ==> root[#[trigger] (j * ENTRY_SIZE)] != 0
}

/// Whether the root directory, whose entries are `root`, lists a file named
/// `filename`: the walk stops at the first entry not in use.
pub fn file_exists(root: &[u8], filename: &[u8]) -> (r: bool)
    requires
        root@.len() as int % ENTRY_SIZE as int == 0,
    ensures
        r == exists|k: int| #[trigger] listed(root@, k) && entry_name(root@, k) == filename@,
{
    let len: usize = root.len();
    let n: usize = len / ENTRY_SIZE;
    let mut k: usize = 0;
    while k < n
        invariant
            len == root@.len(),
            n == root@.len() as int / ENTRY_SIZE as int,
            root@.len() as int % ENTRY_SIZE as int == 0,
            k <= n,
            forall|j: int| 0 <= j < k ==> root@[#[trigger] (j * ENTRY_SIZE)] != 0,
            forall|j: int| 0 <= j < k ==> #[trigger] entry_name(root@, j) != filename@,
        decreases n - k,
    {
        assert(k * 32 + 32 <= len) by (nonlinear_arith)
            requires
                k < n,
                n == len as int / 32,
                len as int % 32 == 0;
        let off: usize = k * ENTRY_SIZE;
        if root[off] == 0 {
            proof {
                assert forall|j: int| #[trigger] listed(root@, j) implies entry_name(root@, j) != filename@ by {
                    if j >= k {
                        assert(root@[k * ENTRY_SIZE] != 0);
                    }
                }
            }
            return false;
        }
        let mut raw: Vec<u8> = Vec::new();
        let mut i: usize = 0;
        while i < MAX_FILENAME_LENGTH
            invariant
                off == k * ENTRY_SIZE,
                k < n,
                n == root@.len() as int / ENTRY_SIZE as int,
                i <= MAX_FILENAME_LENGTH,
                raw@ == root@.subrange(off as int, off + i),
            decreases MAX_FILENAME_LENGTH - i,
        {
            raw.push(root[off + i]);
            i = i + 1;
            assert(raw@ =~= root@.subrange(off as int, off + i));
        }
        let name = bytes_to_str(raw.as_slice());
        proof {
            lemma_cstr(raw@, name@);
        }
        if bytes_eq(name.as_slice(), filename) {
            proof {
                assert(listed(root@, k as int));
            }
            return true;
        }
        k = k + 1;
    }
    proof {
        assert forall|j: int| #[trigger] listed(root@, j) implies entry_name(root@, j) != filename@ by {}
    }
    false
}

/// Whether `a` and `b` hold the same bytes.
fn bytes_eq(a: &[u8], b: &[u8]) -> (r: bool)
    ensures
        r == (a@ == b@),
{
    if a.len() != b.len() {
        return false;
    }
    let mut i: usize = 0;
    while i < a.len()
        invariant
            a@.len() == b@.len(),
            i <= a@.len(),
            forall|j: int| 0 <= j < i ==> a@[j] == b@[j],
        decreases a@.len() - i,
    {
        if a[i] != b[i] {
            return false;
        }
        i = i + 1;
    }
    assert(a@ =~= b@);
    true
}

/// The bytes of `bytes` before its first zero, or all of them when there is none.
pub fn bytes_to_str(bytes: &[u8]) -> (r: Vec<u8>)
    ensures
        r@.len() <= bytes@.len(),
        r@ == bytes@.subrange(0, r@.len() as int),
        forall|i: int| 0 <= i < r@.len() ==> #[trigger] bytes@[i] != 0,
        r@.len() < bytes@.len() ==> bytes@[r@.len() as int] == 0,
{
    let mut r: Vec<u8> = Vec::new();
    let mut i: usize = 0;
    while i < bytes.len()
        invariant
            i <= bytes@.len(),
            r@ == bytes@.subrange(0, i as int),
            forall|j: int| 0 <= j < i ==> #[trigger] bytes@[j] != 0,
        decreases bytes@.len() - i,
    {
        if bytes[i] == 0 {
            return r;
        }
        r.push(bytes[i]);
        i = i + 1;
        assert(r@ =~= bytes@.subrange(0, i as int));
    }
    r
}

/// A string handed across the system-call boundary: where its bytes are and
/// how many there are.
#[derive(Clone, Copy, Debug)]
pub struct String {
    pub bytes_ptr: u32,
    pub len: usize,
}

impl String {
    /// Moves the start of the string `offset` bytes on.
    pub fn offset(&mut self, offset: u32)
        requires
            old(self).bytes_ptr + offset <= u32::MAX,
        ensures
            final(self).bytes_ptr == old(self).bytes_ptr + offset,
            final(self).len == old(self).len,
    {
        self.bytes_ptr = self.bytes_ptr + offset;
    }
}

/// The system calls user programs make, by number.
#[derive(Clone, Copy, Debug, PartialEq, Eq)]
pub enum Syscall {
    Puts,
    Putc,
    Exec,
    Keypressed,
    Getc,
    FileStat,
    FileOpen,
    FileClose,
    FileRead,
    FileSeek,
    FileIterator,
    FileNext,
    GetTicks,
    Sleep,
    SetCursor,
    GetCursor,
    CursorDisable,
    CopyScr,
}

} // verus!
