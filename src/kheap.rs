use vstd::prelude::*;

verus! {

/// Size in bytes of the header that precedes every block.
pub const HEADER_SIZE: u32 = 16;

/// Requested sizes are rounded up to a multiple of this many bytes.
pub const BLOCK_ALIGN: u32 = 16;

/// The header of one heap block.
#[derive(Clone, Copy, Debug)]
pub struct Header {
    /// Address of the previous block's header, zero for the first block.
    pub previous: u32,
    /// Address of the next block's header, zero for the last block.
    pub next: u32,
    /// Number of bytes after the header that belong to the block.
    pub size: u32,
    /// Whether the block is free.
    pub free: bool,
}

impl Header {
    /// A free tail block after `previous`, holding `size` bytes.
    pub fn null(previous: u32, size: u32) -> (r: Header)
        ensures
            r.previous == previous,
            r.next == 0,
            r.size == size,
            r.free,
    {
        Header { previous, next: 0, size, free: true }
    }
}

/// Why a block could not be freed.
#[derive(Clone, Copy, Debug, PartialEq, Eq)]
pub enum HeapError {
    /// The address is not the payload of an allocated block.
    InvalidFree,
}

/// One block as seen from outside: header address, payload size, free flag.
pub type Span = (int, int, bool);

/// A free-list heap over the virtual range `[start, end)`.
///
/// The blocks tile the range in address order: each header is followed by its
/// payload, and the next header comes right after.
pub struct Heap {
    pub start: u32,
    pub end: u32,
    pub blocks: Vec<Header>,
}

impl Heap {
    /// Address of the header of block `i`.
    #[verifier::opaque]
    pub open spec fn addr(&self, i: int) -> int {
        if i == 0 {
            self.start as int
        } else {
            self.blocks@[i - 1].next as int
        }
    }

    /// The block list tiles `[start, end)` with no gap, links each block to its
    /// neighbours, never holds two free blocks side by side, and keeps every
    /// header and payload on the alignment unit.
    #[verifier::opaque]
    pub open spec fn wf(&self) -> bool {
        let n = self.blocks@.len() as int;
        &&& n >= 1
        &&& 0 < self.start
        &&& self.start % BLOCK_ALIGN == 0
        &&& forall|i: int| 0 <= i < n ==> (#[trigger] self.blocks@[i]).size % BLOCK_ALIGN == 0
        &&& forall|i: int| 0 <= i < n - 1 ==> (#[trigger] self.blocks@[i]).next as int
            == self.addr(i) + HEADER_SIZE + self.blocks@[i].size
        &&& self.blocks@[n - 1].next == 0
        &&& self.addr(n - 1) + HEADER_SIZE + self.blocks@[n - 1].size == self.end
        &&& self.blocks@[0].previous == 0
        &&& forall|i: int| 0 < i < n ==> (#[trigger] self.blocks@[i]).previous as int == self.addr(i - 1)
        &&& forall|i: int, j: int| 0 <= i && j == i + 1 && j < n
            ==> !((#[trigger] self.blocks@[i]).free && (#[trigger] self.blocks@[j]).free)
    }

    /// The blocks in address order.
    pub open spec fn spans(&self) -> Seq<Span> {
        Seq::new(
            self.blocks@.len(),
            |i: int| (self.addr(i), self.blocks@[i].size as int, self.blocks@[i].free),
        )
    }

    /// Whether block `i` can hold `size` bytes. The last block must keep room
    /// for the header of a new, possibly empty, free last block.
    pub open spec fn fits(&self, i: int, size: int) -> bool {
        &&& self.blocks@[i].free
        &&& if i == self.blocks@.len() - 1 {
            self.blocks@[i].size >= size + HEADER_SIZE
        } else {
            self.blocks@[i].size >= size
        }
    }

    /// A heap over `[start, start + size)`: one free block.
    pub fn new(start: u32, size: u32) -> (r: Heap)
        requires
            0 < start,
            start % BLOCK_ALIGN == 0,
            size % BLOCK_ALIGN == 0,
            HEADER_SIZE <= size,
            start as int + size <= u32::MAX,
        ensures
            r.wf(),
            r.start == start,
            r.end == start + size,
            r.spans() == seq![(start as int, size - HEADER_SIZE, true)],
    {
        let mut blocks: Vec<Header> = Vec::new();
        blocks.push(Header::null(0, size - HEADER_SIZE));
        let r = Heap { start, end: start + size, blocks };
        proof {
            reveal(Heap::wf);
            lemma_addr(&r, 0);
        }
        assert(r.spans() =~= seq![(start as int, size - HEADER_SIZE, true)]);
        r
    }
}

impl Heap {
    /// First fit: the first block that can hold `size` bytes, or the last block
    /// when none can. The block's header address comes with it.
    pub fn empty_block(&self, size: u32) -> (r: (usize, u32))
        requires
            self.wf(),
        ensures
            r.0 < self.blocks@.len(),
            r.1 as int == self.addr(r.0 as int),
            forall|j: int| 0 <= j < r.0 ==> !#[trigger] self.fits(j, size as int),
            self.fits(r.0 as int, size as int) || r.0 == self.blocks@.len() - 1,
    {
        let mut i: usize = 0;
        let mut a: u32 = self.start;
        proof {
            reveal(Heap::wf);
            lemma_addr(self, 0);
        }
        while i < self.blocks.len() - 1
            invariant
                self.wf(),
                i < self.blocks@.len(),
                a as int == self.addr(i as int),
                forall|j: int| 0 <= j < i ==> !#[trigger] self.fits(j, size as int),
            decreases self.blocks@.len() - i,
        {
            if self.blocks[i].free && self.blocks[i].size >= size {
                return (i, a);
            }
            a = self.blocks[i].next;
            proof {
                reveal(Heap::wf);
                lemma_addr(self, i + 1);
            }
            i = i + 1;
        }
        (i, a)
    }

    /// The index of the block whose payload starts at `payload`, with its header
    /// address, if there is one.
    pub fn block_index(&self, payload: u32) -> (r: Option<(usize, u32)>)
        requires
            self.wf(),
        ensures
            match r {
                Some((i, a)) => {
                    &&& i < self.blocks@.len()
                    &&& a as int == self.addr(i as int)
                    &&& a + HEADER_SIZE == payload
                },
                None => forall|j: int| 0 <= j < self.blocks@.len() ==> #[trigger] self.addr(j) + HEADER_SIZE != payload,
            },
    {
        let mut i: usize = 0;
        let mut a: u32 = self.start;
        proof {
            lemma_addr(self, 0);
            lemma_blocks_ordered(self);
        }
        while i < self.blocks.len()
            invariant
                self.wf(),
                i <= self.blocks@.len(),
                i < self.blocks@.len() ==> a as int == self.addr(i as int),
                forall|j: int| 0 <= j < i ==> #[trigger] self.addr(j) + HEADER_SIZE != payload,
            decreases self.blocks@.len() - i,
        {
            proof {
                lemma_blocks_ordered(self);
            }
            if a as u64 + HEADER_SIZE as u64 == payload as u64 {
                return Some((i, a));
            }
            a = self.blocks[i].next;
            proof {
                reveal(Heap::wf);
                lemma_addr(self, i + 1);
            }
            i = i + 1;
        }
        None
    }

    /// The allocated block whose payload holds the byte at `va`, with its header
    /// address, if there is one.
    pub fn block_containing(&self, va: u32) -> (r: Option<(usize, u32)>)
        requires
            self.wf(),
        ensures
            match r {
                Some((i, a)) => {
                    &&& a as int == self.addr(i as int)
                    &&& holds(self.spans(), va as int, i as int)
                },
                None => forall|j: int| !#[trigger] holds(self.spans(), va as int, j),
            },
    {
        let mut i: usize = 0;
        let mut a: u32 = self.start;
        proof {
            reveal(Heap::wf);
            lemma_addr(self, 0);
        }
        while i < self.blocks.len()
            invariant
                self.wf(),
                i <= self.blocks@.len(),
                i < self.blocks@.len() ==> a as int == self.addr(i as int),
                forall|j: int| 0 <= j < i ==> !#[trigger] holds(self.spans(), va as int, j),
            decreases self.blocks@.len() - i,
        {
            proof {
                lemma_block_inside(self, i as int);
            }
            let b = self.blocks[i];
            if !b.free && a + HEADER_SIZE <= va && va - (a + HEADER_SIZE) < b.size {
                return Some((i, a));
            }
            a = b.next;
            proof {
                reveal(Heap::wf);
                lemma_addr(self, i + 1);
            }
            i = i + 1;
        }
        proof {
            assert forall|j: int| !#[trigger] holds(self.spans(), va as int, j) by {
                if 0 <= j < self.blocks@.len() {
                    assert(j < i);
                }
            }
        }
        None
    }

    /// Hands out block `i`, whose header is at `a`, for `size` bytes. When the
    /// block holds room for another header the rest becomes a free block of its
    /// own; otherwise the whole block is handed out.
    pub fn alloc_block(&mut self, i: usize, a: u32, size: u32)
        requires
            old(self).wf(),
            i < old(self).blocks@.len(),
            a as int == old(self).addr(i as int),
            old(self).fits(i as int, size as int),
            size % BLOCK_ALIGN == 0,
        ensures
            final(self).wf(),
            final(self).start == old(self).start,
            final(self).end == old(self).end,
            final(self).spans() == split_spans(old(self).spans(), i as int, size as int),
    {
        let ghost pre = *old(self);
        let ghost n = pre.blocks@.len() as int;
        proof {
            lemma_block_inside(&pre, i as int);
        }
        let b = self.blocks[i];
        if b.size - size >= HEADER_SIZE {
            let next_addr: u32 = a + HEADER_SIZE + size;
            let h1 = Header { previous: b.previous, next: next_addr, size, free: false };
            let h2 = Header { previous: a, next: b.next, size: b.size - size - HEADER_SIZE, free: true };
            self.blocks.set(i, h1);
            self.blocks.insert(i + 1, h2);
            let ghost mid = self.blocks@;
            assert(mid == pre.blocks@.update(i as int, h1).insert(i + 1, h2));
            if i + 2 < self.blocks.len() {
                let mut h3 = self.blocks[i + 2];
                h3.previous = next_addr;
                self.blocks.set(i + 2, h3);
            }
            proof {
                assert forall|j: int| i + 1 < j < self.blocks@.len() implies {
                    &&& (#[trigger] self.blocks@[j]).next == pre.blocks@[j - 1].next
                    &&& self.blocks@[j].size == pre.blocks@[j - 1].size
                    &&& self.blocks@[j].free == pre.blocks@[j - 1].free
                    &&& self.blocks@[j].previous == if j == i + 2 { next_addr } else { pre.blocks@[j - 1].previous }
                } by {
                    assert(mid[j] == pre.blocks@[j - 1]);
                }
                lemma_split(&pre, self, i as int, size as int);
            }
        } else {
            let h1 = Header { previous: b.previous, next: b.next, size: b.size, free: false };
            self.blocks.set(i, h1);
            proof {
                lemma_take_whole(&pre, self, i as int, size as int);
            }
        }
    }

    /// Frees the block whose payload starts at `payload`, merging it with a free
    /// block right before it and with a free block right after it. An address
    /// that is not the payload of an allocated block is refused and nothing
    /// changes.
    pub fn kfree(&mut self, payload: u32) -> (r: Result<(), HeapError>)
        requires
            old(self).wf(),
        ensures
            final(self).wf(),
            final(self).start == old(self).start,
            final(self).end == old(self).end,
            r is Err <==> !exists|k: int| #[trigger] live_block(old(self).spans(), payload as int, k),
            r is Err ==> r == Err::<(), HeapError>(HeapError::InvalidFree) && final(self).spans() == old(self).spans(),
            r is Ok ==> exists|k: int| #[trigger] live_block(old(self).spans(), payload as int, k)
                && final(self).spans() == merge_spans(
                    old(self).spans(),
                    merge_lo(old(self).spans(), k),
                    merge_hi(old(self).spans(), k),
                ),
    {
        let ghost pre = *old(self);
        let (k, a) = match self.block_index(payload) {
            Some(found) => found,
            None => {
                proof {
                    lemma_not_live(&pre, payload as int, -1);
                }
                return Err(HeapError::InvalidFree);
            },
        };
        if self.blocks[k].free {
            proof {
                lemma_not_live(&pre, payload as int, k as int);
            }
            return Err(HeapError::InvalidFree);
        }
        proof {
            reveal(Heap::wf);
            lemma_block_inside(&pre, k as int);
            lemma_addr(&pre, k as int);
            lemma_addr(&pre, k + 1);
            assert(live_block(pre.spans(), payload as int, k as int));
        }
        let n = self.blocks.len();
        let lo: usize = if k > 0 && self.blocks[k - 1].free { k - 1 } else { k };
        let hi: usize = if k + 1 < n && self.blocks[k + 1].free { k + 1 } else { k };
        let lo_addr: u32 = if lo == k { a } else { self.blocks[k].previous };
        let hi_addr: u32 = if hi == k { a } else { self.blocks[k].next };
        proof {
            lemma_block_inside(&pre, hi as int);
            lemma_block_inside(&pre, lo as int);
            lemma_addr(&pre, hi as int);
            lemma_addr(&pre, lo as int);
            if lo < k {
                assert(pre.blocks@[k as int].previous as int == pre.addr(k - 1));
            }
            if hi > k {
                assert(pre.blocks@[k as int].next as int == pre.addr(k as int) + HEADER_SIZE + pre.blocks@[k as int].size);
            }
            assert(lo_addr as int == pre.addr(lo as int));
            assert(hi_addr as int == pre.addr(hi as int));
            if lo > 0 {
                if lo < k {
                    assert(!(pre.blocks@[lo - 1].free && pre.blocks@[lo as int].free));
                }
            }
            if hi + 1 < n {
                if hi > k {
                    assert(!(pre.blocks@[hi as int].free && pre.blocks@[hi + 1].free));
                }
            }
        }
        self.merge_run(lo, hi, lo_addr, hi_addr);
        proof {
            assert(merge_lo(pre.spans(), k as int) == lo);
            assert(merge_hi(pre.spans(), k as int) == hi);
        }
        Ok(())
    }

    /// Folds blocks `lo` to `hi`, whose headers are at `lo_addr` and `hi_addr`,
    /// into one free block.
    #[verifier::rlimit(60)]
    fn merge_run(&mut self, lo: usize, hi: usize, lo_addr: u32, hi_addr: u32)
        requires
            old(self).wf(),
            lo <= hi < old(self).blocks@.len(),
            hi <= lo + 2,
            lo_addr as int == old(self).addr(lo as int),
            hi_addr as int == old(self).addr(hi as int),
            lo > 0 ==> !old(self).blocks@[lo - 1].free,
            hi + 1 < old(self).blocks@.len() ==> !old(self).blocks@[hi + 1].free,
        ensures
            final(self).wf(),
            final(self).start == old(self).start,
            final(self).end == old(self).end,
            final(self).spans() == merge_spans(old(self).spans(), lo as int, hi as int),
    {
        let ghost pre = *old(self);
        let n = self.blocks.len();
        proof {
            lemma_block_inside(&pre, hi as int);
            lemma_block_inside(&pre, lo as int);
            lemma_blocks_ordered_from(&pre, lo as int);
        }
        let merged = Header {
            previous: self.blocks[lo].previous,
            next: self.blocks[hi].next,
            size: hi_addr + self.blocks[hi].size - lo_addr,
            free: true,
        };
        self.blocks.set(lo, merged);
        let ghost mid = self.blocks@;
        if hi > lo {
            self.blocks.remove(lo + 1);
        }
        if hi > lo + 1 {
            self.blocks.remove(lo + 1);
        }
        let ghost removed = self.blocks@;
        assert(removed == mid.subrange(0, lo + 1) + mid.subrange(hi + 1, n as int));
        if lo + 1 < self.blocks.len() {
            let mut after = self.blocks[lo + 1];
            after.previous = lo_addr;
            self.blocks.set(lo + 1, after);
        }
        proof {
            let d = hi - lo;
            assert forall|j: int| lo < j < self.blocks@.len() implies {
                &&& (#[trigger] self.blocks@[j]).next == pre.blocks@[j + d].next
                &&& self.blocks@[j].size == pre.blocks@[j + d].size
                &&& self.blocks@[j].free == pre.blocks@[j + d].free
                &&& self.blocks@[j].previous == if j == lo + 1 { lo_addr } else { pre.blocks@[j + d].previous }
            } by {
                assert(removed[j] == mid[j + d]);
            }
            lemma_merge_addr(&pre, self, lo as int, hi as int);
            lemma_merge(&pre, self, lo as int, hi as int);
        }
    }
}

#[verifier::rlimit(40)]
proof fn lemma_split(pre: &Heap, post: &Heap, i: int, size: int)
    requires
        pre.wf(),
        0 <= i < pre.blocks@.len(),
        pre.fits(i, size),
        0 <= size,
        size % BLOCK_ALIGN as int == 0,
        pre.blocks@[i].size - size >= HEADER_SIZE,
        post.start == pre.start,
        post.end == pre.end,
        post.blocks@.len() == pre.blocks@.len() + 1,
        forall|j: int| 0 <= j < i ==> post.blocks@[j] == pre.blocks@[j],
        post.blocks@[i] == (Header {
            previous: pre.blocks@[i].previous,
            next: (pre.addr(i) + HEADER_SIZE + size) as u32,
            size: size as u32,
            free: false,
        }),
        post.blocks@[i + 1] == (Header {
            previous: pre.addr(i) as u32,
            next: pre.blocks@[i].next,
            size: (pre.blocks@[i].size - size - HEADER_SIZE) as u32,
            free: true,
        }),
        forall|j: int| i + 1 < j < post.blocks@.len() ==> {
            &&& (#[trigger] post.blocks@[j]).next == pre.blocks@[j - 1].next
            &&& post.blocks@[j].size == pre.blocks@[j - 1].size
            &&& post.blocks@[j].free == pre.blocks@[j - 1].free
            &&& post.blocks@[j].previous == if j == i + 2 {
                (pre.addr(i) + HEADER_SIZE + size) as u32
            } else {
                pre.blocks@[j - 1].previous
            }
        },
    ensures
        post.wf(),
        post.spans() == split_spans(pre.spans(), i, size),
{
    reveal(Heap::wf);
    let n = pre.blocks@.len() as int;
    let na = pre.addr(i) + HEADER_SIZE + size;
    assert forall|j: int| 0 <= j < n + 1 implies (#[trigger] post.blocks@[j]).size % BLOCK_ALIGN == 0 by {
        if j < i {
            assert(post.blocks@[j] == pre.blocks@[j]);
        } else if j > i + 1 {
            assert(post.blocks@[j].size == pre.blocks@[j - 1].size);
        }
    }
    lemma_blocks_ordered(pre);
    assert forall|j: int| 0 <= j <= n implies #[trigger] post.addr(j)
        == if j <= i { pre.addr(j) } else if j == i + 1 { na } else { pre.addr(j - 1) } by {
        lemma_addr(post, j);
        lemma_addr(pre, j);
        lemma_addr(pre, j - 1);
        lemma_addr(pre, i + 1);
    }
    assert forall|j: int| 0 <= j < n implies (#[trigger] post.blocks@[j]).next as int
        == post.addr(j) + HEADER_SIZE + post.blocks@[j].size by {
        assert(post.addr(j) == if j <= i { pre.addr(j) } else if j == i + 1 { na } else { pre.addr(j - 1) });
        if j > i + 1 {
            assert(pre.blocks@[j - 1].next as int == pre.addr(j - 1) + HEADER_SIZE + pre.blocks@[j - 1].size);
        } else if j == i + 1 {
            assert(i + 1 < n);
            assert(pre.blocks@[i].next as int == pre.addr(i) + HEADER_SIZE + pre.blocks@[i].size);
        }
    }
    assert(post.addr(n) == if n <= i { pre.addr(n) } else if n == i + 1 { na } else { pre.addr(n - 1) });
    assert forall|j: int| 0 < j < n + 1 implies (#[trigger] post.blocks@[j]).previous as int == post.addr(j - 1) by {
        assert(post.addr(j - 1) == if j - 1 <= i { pre.addr(j - 1) } else if j - 1 == i + 1 { na } else { pre.addr(j - 2) });
        if j > i + 2 {
            assert(pre.blocks@[j - 1].previous as int == pre.addr(j - 2));
        } else if j < i {
            assert(pre.blocks@[j].previous as int == pre.addr(j - 1));
        } else if j == i {
            assert(pre.blocks@[i].previous as int == pre.addr(i - 1));
        }
    }
    assert forall|j: int, k: int| 0 <= j && k == j + 1 && k < n + 1
        implies !((#[trigger] post.blocks@[j]).free && (#[trigger] post.blocks@[k]).free) by {
        if j > i + 1 {
            assert(!(pre.blocks@[j - 1].free && pre.blocks@[j].free));
        } else if j == i + 1 {
            assert(!(pre.blocks@[i].free && pre.blocks@[i + 1].free));
        } else if j + 1 < i {
            assert(!(pre.blocks@[j].free && pre.blocks@[j + 1].free));
        }
    }
    assert forall|j: int| 0 <= j < n + 1 implies #[trigger] post.spans()[j] == split_spans(pre.spans(), i, size)[j] by {
        assert(post.addr(j) == if j <= i { pre.addr(j) } else if j == i + 1 { na } else { pre.addr(j - 1) });
    }
    assert(post.spans() =~= split_spans(pre.spans(), i, size));
}

proof fn lemma_take_whole(pre: &Heap, post: &Heap, i: int, size: int)
    requires
        pre.wf(),
        0 <= i < pre.blocks@.len(),
        pre.fits(i, size),
        pre.blocks@[i].size - size < HEADER_SIZE,
        post.start == pre.start,
        post.end == pre.end,
        post.blocks@ == pre.blocks@.update(i, Header { free: false, ..pre.blocks@[i] }),
    ensures
        post.wf(),
        post.spans() == split_spans(pre.spans(), i, size),
{
    reveal(Heap::wf);
    let n = pre.blocks@.len() as int;
    assert forall|j: int| 0 <= j < n implies #[trigger] post.addr(j) == pre.addr(j) by {
        lemma_addr(post, j);
        lemma_addr(pre, j);
    }
    assert(post.addr(n - 1) == pre.addr(n - 1));
    assert forall|j: int| 0 < j < n implies (#[trigger] post.blocks@[j]).previous as int == post.addr(j - 1) by {
        assert(post.addr(j - 1) == pre.addr(j - 1));
    }
    assert forall|j: int| 0 <= j < n implies #[trigger] post.spans()[j] == split_spans(pre.spans(), i, size)[j] by {
        assert(post.addr(j) == pre.addr(j));
    }
    assert(post.spans() =~= split_spans(pre.spans(), i, size));
}

/// No allocated block has its payload at `p` when no block at all has it there,
/// or when the block that has it there (block `k`) is free.
proof fn lemma_not_live(h: &Heap, p: int, k: int)
    requires
        h.wf(),
        k == -1 ==> forall|j: int| 0 <= j < h.blocks@.len() ==> #[trigger] h.addr(j) + HEADER_SIZE != p,
        k != -1 ==> 0 <= k < h.blocks@.len() && h.addr(k) + HEADER_SIZE == p && h.blocks@[k].free,
    ensures
        forall|j: int| !#[trigger] live_block(h.spans(), p, j),
{
    reveal(Heap::wf);
    lemma_blocks_ordered(h);
    assert forall|j: int| !#[trigger] live_block(h.spans(), p, j) by {
        if 0 <= j < h.blocks@.len() {
            assert(h.spans()[j].0 == h.addr(j));
            if k != -1 && j != k {
                if j < k {
                    assert(h.addr(j) < h.addr(k));
                } else {
                    assert(h.addr(k) < h.addr(j));
                }
            }
        }
    }
}

/// Coalescing: with three blocks side by side, the middle one allocated, the
/// outer two stay apart while the middle one is held, since neither merges
/// across it; freeing the middle one then leaves one free block over all
/// three, headers included.
pub proof fn lemma_coalescing(s: Seq<Span>, k: int)
    requires
        0 < k < s.len() - 1,
        s[k - 1].2,
        !s[k].2,
        s[k + 1].2,
        k < 2 || !s[k - 2].2,
        k + 2 >= s.len() || !s[k + 2].2,
        s[k].0 == s[k - 1].0 + HEADER_SIZE + s[k - 1].1,
        s[k + 1].0 == s[k].0 + HEADER_SIZE + s[k].1,
    ensures
        merge_hi(s, k - 1) == k - 1,
        merge_lo(s, k + 1) == k + 1,
        merge_lo(s, k) == k - 1,
        merge_hi(s, k) == k + 1,
        merge_spans(s, k - 1, k + 1).len() == s.len() - 2,
        merge_spans(s, k - 1, k + 1)[k - 1] == (s[k - 1].0, s[k - 1].1 + s[k].1 + s[k + 1].1 + 2 * HEADER_SIZE, true),
{
}

/// Whether block `k` of `s` is allocated and its payload holds the byte at `va`.
pub open spec fn holds(s: Seq<Span>, va: int, k: int) -> bool {
    0 <= k < s.len() && s[k].0 + HEADER_SIZE <= va < s[k].0 + HEADER_SIZE + s[k].1 && !s[k].2
}

/// Whether block `k` of `s` is allocated and its payload starts at `p`.
pub open spec fn live_block(s: Seq<Span>, p: int, k: int) -> bool {
    0 <= k < s.len() && s[k].0 + HEADER_SIZE == p && !s[k].2
}

/// First block of the run that freeing block `k` merges into one.
pub open spec fn merge_lo(s: Seq<Span>, k: int) -> int {
    if k > 0 && s[k - 1].2 {
        k - 1
    } else {
        k
    }
}

/// Last block of the run that freeing block `k` merges into one.
pub open spec fn merge_hi(s: Seq<Span>, k: int) -> int {
    if k + 1 < s.len() && s[k + 1].2 {
        k + 1
    } else {
        k
    }
}

/// The blocks after blocks `lo` to `hi` become one free block over their extent.
pub open spec fn merge_spans(s: Seq<Span>, lo: int, hi: int) -> Seq<Span> {
    Seq::new(
        (s.len() - (hi - lo)) as nat,
        |j: int|
            if j < lo {
                s[j]
            } else if j == lo {
                (s[lo].0, s[hi].0 + s[hi].1 - s[lo].0, true)
            } else {
                s[j + (hi - lo)]
            },
    )
}

/// `post` is `pre` with blocks `lo` to `hi` folded into one free block.
spec fn merge_shape(pre: &Heap, post: &Heap, lo: int, hi: int) -> bool {
    &&& pre.wf()
    &&& 0 <= lo <= hi < pre.blocks@.len()
    &&& hi <= lo + 2
    &&& lo > 0 ==> !pre.blocks@[lo - 1].free
    &&& hi + 1 < pre.blocks@.len() ==> !pre.blocks@[hi + 1].free
    &&& post.start == pre.start
    &&& post.end == pre.end
    &&& post.blocks@.len() == pre.blocks@.len() - (hi - lo)
    &&& forall|j: int| 0 <= j < lo ==> post.blocks@[j] == pre.blocks@[j]
    &&& post.blocks@[lo] == (Header {
        previous: pre.blocks@[lo].previous,
        next: pre.blocks@[hi].next,
        size: (pre.addr(hi) + pre.blocks@[hi].size - pre.addr(lo)) as u32,
        free: true,
    })
    &&& forall|j: int| lo < j < post.blocks@.len() ==> {
        &&& (#[trigger] post.blocks@[j]).next == pre.blocks@[j + (hi - lo)].next
        &&& post.blocks@[j].size == pre.blocks@[j + (hi - lo)].size
        &&& post.blocks@[j].free == pre.blocks@[j + (hi - lo)].free
        &&& post.blocks@[j].previous == if j == lo + 1 {
            pre.addr(lo) as u32
        } else {
            pre.blocks@[j + (hi - lo)].previous
        }
    }
}

proof fn lemma_merge_addr(pre: &Heap, post: &Heap, lo: int, hi: int)
    requires
        merge_shape(pre, post, lo, hi),
    ensures
        forall|j: int| 0 <= j < post.blocks@.len() ==> #[trigger] post.addr(j)
            == if j <= lo { pre.addr(j) } else { pre.addr(j + (hi - lo)) },
        pre.addr(hi) + HEADER_SIZE + pre.blocks@[hi].size <= pre.end,
        pre.addr(lo) <= pre.addr(hi),
        0 <= pre.addr(lo),
        pre.addr(lo) % BLOCK_ALIGN as int == 0,
        pre.addr(hi) % BLOCK_ALIGN as int == 0,
{
    reveal(Heap::wf);
    lemma_addr_aligned(pre, lo);
    lemma_addr_aligned(pre, hi);
    let d = hi - lo;
    lemma_block_inside(pre, lo);
    lemma_block_inside(pre, hi);
    lemma_blocks_ordered_from(pre, lo);
    assert forall|j: int| 0 <= j < post.blocks@.len() implies #[trigger] post.addr(j)
        == if j <= lo { pre.addr(j) } else { pre.addr(j + d) } by {
        lemma_addr(post, j);
        lemma_addr(pre, j);
        lemma_addr(pre, j + d);
        lemma_addr(pre, hi + 1);
    }
}

proof fn lemma_merge(pre: &Heap, post: &Heap, lo: int, hi: int)
    requires
        merge_shape(pre, post, lo, hi),
        forall|j: int| 0 <= j < post.blocks@.len() ==> #[trigger] post.addr(j)
            == if j <= lo { pre.addr(j) } else { pre.addr(j + (hi - lo)) },
        pre.addr(hi) + HEADER_SIZE + pre.blocks@[hi].size <= pre.end,
        pre.addr(lo) <= pre.addr(hi),
        0 <= pre.addr(lo),
        pre.addr(lo) % BLOCK_ALIGN as int == 0,
        pre.addr(hi) % BLOCK_ALIGN as int == 0,
    ensures
        post.wf(),
        post.spans() == merge_spans(pre.spans(), lo, hi),
{
    reveal(Heap::wf);
    let n = pre.blocks@.len() as int;
    let d = hi - lo;
    let m = n - d;
    let msize = pre.addr(hi) + pre.blocks@[hi].size - pre.addr(lo);
    assert(post.blocks@[lo].size as int == msize);
    assert(msize % 16 == 0);
    assert forall|j: int| 0 <= j < m implies (#[trigger] post.blocks@[j]).size % BLOCK_ALIGN == 0 by {
        if j < lo {
            assert(post.blocks@[j] == pre.blocks@[j]);
        } else if j > lo {
            assert(post.blocks@[j].size == pre.blocks@[j + d].size);
        }
    }
    assert forall|j: int| 0 <= j < m - 1 implies (#[trigger] post.blocks@[j]).next as int
        == post.addr(j) + HEADER_SIZE + post.blocks@[j].size by {
        assert(post.addr(j) == if j <= lo { pre.addr(j) } else { pre.addr(j + d) });
        if j == lo {
            assert(hi < n - 1);
            assert(pre.blocks@[hi].next as int == pre.addr(hi) + HEADER_SIZE + pre.blocks@[hi].size);
            assert(post.blocks@[j].next == pre.blocks@[hi].next);
        } else if j > lo {
            assert(j + d < n - 1);
            assert(pre.blocks@[j + d].next as int == pre.addr(j + d) + HEADER_SIZE + pre.blocks@[j + d].size);
        } else {
            assert(post.blocks@[j] == pre.blocks@[j]);
            assert(pre.blocks@[j].next as int == pre.addr(j) + HEADER_SIZE + pre.blocks@[j].size);
        }
    }
    assert(post.addr(m - 1) == if m - 1 <= lo { pre.addr(m - 1) } else { pre.addr(m - 1 + d) });
    assert forall|j: int| 0 < j < m implies (#[trigger] post.blocks@[j]).previous as int == post.addr(j - 1) by {
        assert(post.addr(j - 1) == if j - 1 <= lo { pre.addr(j - 1) } else { pre.addr(j - 1 + d) });
        if j > lo + 1 {
            assert(pre.blocks@[j + d].previous as int == pre.addr(j + d - 1));
        } else if j <= lo {
            assert(pre.blocks@[j].previous as int == pre.addr(j - 1));
        }
    }
    assert forall|j: int, k: int| 0 <= j && k == j + 1 && k < m
        implies !((#[trigger] post.blocks@[j]).free && (#[trigger] post.blocks@[k]).free) by {
        if j > lo {
            assert(!(pre.blocks@[j + d].free && pre.blocks@[j + d + 1].free));
        } else if j + 1 < lo {
            assert(!(pre.blocks@[j].free && pre.blocks@[j + 1].free));
        }
    }
    assert forall|j: int| 0 <= j < m implies #[trigger] post.spans()[j] == merge_spans(pre.spans(), lo, hi)[j] by {
        assert(post.addr(j) == if j <= lo { pre.addr(j) } else { pre.addr(j + d) });
        if j < lo {
            assert(post.blocks@[j] == pre.blocks@[j]);
        }
    }
    assert(post.spans() =~= merge_spans(pre.spans(), lo, hi));
}

/// The blocks after block `i` is handed out for `size` bytes: split in two when
/// the rest has room for a header, taken whole otherwise.
pub open spec fn split_spans(s: Seq<Span>, i: int, size: int) -> Seq<Span> {
    let (a, old_size, _) = s[i];
    if old_size - size >= HEADER_SIZE {
        Seq::new(
            s.len() + 1,
            |j: int|
                if j < i {
                    s[j]
                } else if j == i {
                    (a, size, false)
                } else if j == i + 1 {
                    (a + HEADER_SIZE + size, old_size - size - HEADER_SIZE, true)
                } else {
                    s[j - 1]
                },
        )
    } else {
        s.update(i, (a, old_size, false))
    }
}

/// No two free blocks of `s` sit side by side.
pub open spec fn no_free_neighbours(s: Seq<Span>) -> bool {
    forall|i: int, j: int| 0 <= i && j == i + 1 && j < s.len() ==> !((#[trigger] s[i]).2 && (#[trigger] s[j]).2)
}

/// Freeing a block right after it was handed out from free block `i` gives
/// back the blocks as they were.
pub proof fn lemma_unsplit(s: Seq<Span>, i: int, size: int)
    requires
        0 <= i < s.len(),
        s[i].2,
        0 <= size <= s[i].1,
        no_free_neighbours(s),
    ensures
        ({
            let t = split_spans(s, i, size);
            merge_spans(t, merge_lo(t, i), merge_hi(t, i)) == s
        }),
{
    let t = split_spans(s, i, size);
    if i > 0 {
        assert(!(s[i - 1].2 && s[i].2));
    }
    if i + 1 < s.len() {
        assert(!(s[i].2 && s[i + 1].2));
    }
    let m = merge_spans(t, merge_lo(t, i), merge_hi(t, i));
    assert(m =~= s);
}

/// Whatever allocations and frees came before, the blocks walked from the heap's
/// start have strictly increasing addresses, each block that is not the last is
/// followed right after its payload by the next one, and the last one ends where
/// the heap ends.
pub proof fn lemma_heap_contiguous(h: &Heap)
    requires
        h.wf(),
    ensures
        h.spans().len() >= 1,
        h.spans()[0].0 == h.start,
        forall|i: int| 0 <= i < h.spans().len() - 1 ==> #[trigger] h.spans()[i + 1].0
            == h.spans()[i].0 + HEADER_SIZE + h.spans()[i].1,
        forall|i: int, j: int| 0 <= i < j < h.spans().len() ==> #[trigger] h.spans()[i].0 < #[trigger] h.spans()[j].0,
        h.spans()[h.spans().len() - 1].0 + HEADER_SIZE + h.spans()[h.spans().len() - 1].1 == h.end,
        forall|i: int| 0 <= i < h.spans().len() ==> 0 <= #[trigger] h.spans()[i].1,
        no_free_neighbours(h.spans()),
{
    reveal(Heap::wf);
    lemma_blocks_ordered(h);
    assert forall|i: int, j: int| 0 <= i && j == i + 1 && j < h.spans().len()
        implies !((#[trigger] h.spans()[i]).2 && (#[trigger] h.spans()[j]).2) by {
        assert(!(h.blocks@[i].free && h.blocks@[j].free));
    }
    lemma_addr(h, 0);
    assert forall|i: int| 0 <= i < h.spans().len() - 1 implies #[trigger] h.spans()[i + 1].0
        == h.spans()[i].0 + HEADER_SIZE + h.spans()[i].1 by {
        lemma_addr(h, i + 1);
    }
}

/// The blocks of a well-formed heap lie inside it and strictly increase in address.
pub proof fn lemma_blocks_ordered(h: &Heap)
    requires
        h.wf(),
    ensures
        forall|i: int| 0 <= i < h.blocks@.len() ==> h.start <= #[trigger] h.addr(i)
            && h.addr(i) + HEADER_SIZE + h.blocks@[i].size <= h.end,
        forall|i: int, j: int| 0 <= i < j < h.blocks@.len() ==> #[trigger] h.addr(i) < #[trigger] h.addr(j),
{
    reveal(Heap::wf);
    lemma_addr(h, 0);
    lemma_blocks_ordered_from(h, 0);
    assert forall|i: int, j: int| 0 <= i < j < h.blocks@.len() implies #[trigger] h.addr(i) < #[trigger] h.addr(j) by {
        lemma_blocks_ordered_from(h, i + 1);
        lemma_addr(h, i + 1);
        assert(h.blocks@[i].next as int == h.addr(i) + HEADER_SIZE + h.blocks@[i].size);
    }
}

/// Block `i` ends inside the heap.
pub proof fn lemma_block_inside(h: &Heap, i: int)
    requires
        h.wf(),
        0 <= i < h.blocks@.len(),
    ensures
        h.start <= h.addr(i),
        h.addr(i) + HEADER_SIZE + h.blocks@[i].size <= h.end,
        h.end <= u32::MAX,
        h.blocks@.len() <= 0x1000_0000,
{
    reveal(Heap::wf);
    lemma_blocks_ordered(h);
    lemma_addr_lower(h, h.blocks@.len() - 1);
}

/// Each block before block `k` takes at least a header's room.
proof fn lemma_addr_lower(h: &Heap, k: int)
    requires
        h.wf(),
        0 <= k < h.blocks@.len(),
    ensures
        h.addr(k) >= h.start + k * HEADER_SIZE,
    decreases k,
{
    reveal(Heap::wf);
    lemma_addr(h, k);
    if k > 0 {
        lemma_addr_lower(h, k - 1);
        assert(h.blocks@[k - 1].next as int == h.addr(k - 1) + HEADER_SIZE + h.blocks@[k - 1].size);
    }
}

/// Every header of a well-formed heap is on the alignment unit.
pub proof fn lemma_addr_aligned(h: &Heap, k: int)
    requires
        h.wf(),
        0 <= k < h.blocks@.len(),
    ensures
        h.addr(k) % BLOCK_ALIGN as int == 0,
    decreases k,
{
    reveal(Heap::wf);
    lemma_addr(h, k);
    if k > 0 {
        lemma_addr_aligned(h, k - 1);
        assert(h.blocks@[k - 1].next as int == h.addr(k - 1) + HEADER_SIZE + h.blocks@[k - 1].size);
        assert(h.blocks@[k - 1].size % 16 == 0);
    }
}

/// The header of block `i` sits where the previous block says the next one does.
pub proof fn lemma_addr(h: &Heap, i: int)
    ensures
        h.addr(i) == if i == 0 { h.start as int } else { h.blocks@[i - 1].next as int },
{
    reveal(Heap::addr);
}

proof fn lemma_blocks_ordered_from(h: &Heap, k: int)
    requires
        h.wf(),
        0 <= k < h.blocks@.len(),
    ensures
        forall|i: int| k <= i < h.blocks@.len() ==> h.addr(k) <= #[trigger] h.addr(i)
            && h.addr(i) + HEADER_SIZE + h.blocks@[i].size <= h.end,
    decreases h.blocks@.len() - k,
{
    reveal(Heap::wf);
    let n = h.blocks@.len() as int;
    if k + 1 < n {
        lemma_blocks_ordered_from(h, k + 1);
        lemma_addr(h, k + 1);
        assert(h.blocks@[k].next as int == h.addr(k) + HEADER_SIZE + h.blocks@[k].size);
        assert(h.addr(k + 1) + HEADER_SIZE + h.blocks@[k + 1].size <= h.end);
    }
}

} // verus!
