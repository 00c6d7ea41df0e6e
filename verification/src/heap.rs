//! Kernel heap.
//!
//! An address-ordered, coalescing free list (first fit). The heap lives in a
//! fixed slice of virtual address space; nothing is mapped up front. Physical
//! frames are wired in only as the heap actually needs to grow.

use vstd::prelude::*;

pub mod growth;

pub use growth::{allocated_bytes, heap_size, self_test};

verus! {

/// Virtual base of the kernel heap.
pub const HEAP_START: u64 = 0xffff_ffff_9000_0000;

/// Upper bound the heap may grow to.
pub const HEAP_MAX_SIZE: u64 = 0x400_0000;

/// One past the highest address the heap may have.
pub const HEAP_END: u64 = HEAP_START + HEAP_MAX_SIZE;

/// How much to map in per growth step, at least.
pub const HEAP_GROW_STEP: u64 = 0x1_0000;

/// The least size of a loan.
pub const MIN_BLOCK: u64 = 16;

/// The alignment of every block.
pub const BLOCK_ALIGN: u64 = 8;

/// The largest alignment the heap serves: the last address of the heap can be
/// rounded up to it.
pub const MAX_ALIGN: u64 = 0x4000_0000;

/// The largest size the heap is asked for.
pub const MAX_SIZE: u64 = 0x7fff_ffff_ffff_ffff;

/// A free block of heap memory.
#[derive(Clone, Copy, Debug, PartialEq, Eq, Structural)]
pub struct FreeBlock {
    pub addr: u64,
    pub size: u64,
}

impl FreeBlock {
    /// One past its last byte.
    pub open spec fn end(self) -> int {
        self.addr + self.size
    }

    pub open spec fn holds(self, x: int) -> bool {
        self.addr <= x < self.end()
    }
}

/// The lowest multiple of `align` that is not below `addr`.
pub open spec fn aligned_up(addr: int, align: int) -> int {
    if addr % align == 0 {
        addr
    } else {
        addr - addr % align + align
    }
}

pub open spec fn larger(a: int, b: int) -> int {
    if a > b {
        a
    } else {
        b
    }
}

pub open spec fn smaller(a: int, b: int) -> int {
    if a < b {
        a
    } else {
        b
    }
}

proof fn lemma_aligned(addr: int, align: int)
    requires
        0 <= addr,
        align > 0,
        align % 8 == 0,
        addr % 8 == 0,
    ensures
        addr <= aligned_up(addr, align) < addr + align,
        aligned_up(addr, align) % align == 0,
        aligned_up(addr, align) % 8 == 0,
{
    let m = addr % align;
    vstd::arithmetic::div_mod::lemma_fundamental_div_mod(addr, align);
    let q = addr / align;
    assert(addr - m == align * q);
    assert((align * q) % align == 0) by {
        vstd::arithmetic::div_mod::lemma_mod_multiples_basic(q, align);
        vstd::arithmetic::mul::lemma_mul_is_commutative(q, align);
    }
    assert(align * q + align == align * (q + 1)) by (nonlinear_arith);
    assert((align * (q + 1)) % align == 0) by {
        vstd::arithmetic::div_mod::lemma_mod_multiples_basic(q + 1, align);
        vstd::arithmetic::mul::lemma_mul_is_commutative(q + 1, align);
    }
    let k = align / 8;
    assert((align * (q + 1)) % 8 == 0) by {
        assert(align * (q + 1) == 8 * (k * (q + 1))) by (nonlinear_arith)
            requires
                align == 8 * k,
        ;
    }
}

pub fn align_up(addr: u64, align: u64) -> (r: u64)
    requires
        align > 0,
        addr + align <= u64::MAX,
    ensures
        r == aligned_up(addr as int, align as int),
{
    let m: u64 = addr % align;
    if m == 0 {
        addr
    } else {
        proof {
            vstd::arithmetic::div_mod::lemma_mod_decreases(addr as nat, align as nat);
        }
        addr - m + align
    }
}

/// Bump a size and an alignment up to what the bookkeeping of free blocks
/// needs: every region has to be big enough, and aligned enough, to become a
/// free block when it comes back.
pub fn adjust(size: u64, align: u64) -> (r: (u64, u64))
    requires
        size <= MAX_SIZE,
    ensures
        r.0 == aligned_up(larger(size as int, 16), 8),
        r.1 == larger(align as int, 8),
        r.0 >= 16,
        r.0 % 8 == 0,
        r.0 <= MAX_SIZE + 1,
{
    let a: u64 = if align > BLOCK_ALIGN {
        align
    } else {
        BLOCK_ALIGN
    };
    let s: u64 = if size > MIN_BLOCK {
        size
    } else {
        MIN_BLOCK
    };
    (align_up(s, BLOCK_ALIGN), a)
}

/// The free blocks, in address order, and how far the heap has grown.
#[derive(Debug)]
pub struct FreeList {
    pub blocks: Vec<FreeBlock>,
    /// One past the highest heap address that is backed by a frame. Zero means
    /// the heap has not grown at all yet.
    pub mapped_end: u64,
    /// Bytes on loan to callers.
    pub allocated: u64,
    /// Bytes ever added to the free list by growing.
    pub total: u64,
}

/// The bytes that blocks have in all.
pub open spec fn free_bytes(b: Seq<FreeBlock>) -> int
    decreases b.len(),
{
    if b.len() == 0 {
        0
    } else {
        free_bytes(b.drop_last()) + b.last().size
    }
}

proof fn lemma_free_bytes(a: Seq<FreeBlock>, b: Seq<FreeBlock>)
    ensures
        free_bytes(a + b) == free_bytes(a) + free_bytes(b),
    decreases b.len(),
{
    if b.len() == 0 {
        assert(a + b =~= a);
    } else {
        assert((a + b).drop_last() =~= a + b.drop_last());
        lemma_free_bytes(a, b.drop_last());
    }
}

proof fn lemma_free_bytes_one(b: FreeBlock)
    ensures
        free_bytes(seq![b]) == b.size,
{
    assert(seq![b].drop_last() =~= Seq::<FreeBlock>::empty());
    reveal_with_fuel(free_bytes, 2);
}

pub proof fn lemma_free_bytes_nonnegative(b: Seq<FreeBlock>)
    ensures
        free_bytes(b) >= 0,
    decreases b.len(),
{
    if b.len() > 0 {
        lemma_free_bytes_nonnegative(b.drop_last());
    }
}

/// Whether a byte is free.
pub open spec fn is_free(b: Seq<FreeBlock>, x: int) -> bool {
    exists|i: int| 0 <= i < b.len() && (#[trigger] b[i]).holds(x)
}

/// Whether no byte of a range is free.
pub open spec fn none_free(b: Seq<FreeBlock>, from: int, to: int) -> bool {
    forall|x: int| from <= x < to ==> !(#[trigger] is_free(b, x))
}

/// Whether blocks are sound, in address order, with a gap between any two: no
/// two free blocks touch.
pub open spec fn is_sorted(b: Seq<FreeBlock>, top: int) -> bool {
    &&& forall|i: int|
        0 <= i < b.len() ==> {
            &&& HEAP_START <= (#[trigger] b[i]).addr
            &&& b[i].end() <= top
            &&& b[i].size >= 8
            &&& b[i].addr % 8 == 0
            &&& b[i].size % 8 == 0
        }
    &&& forall|i: int, j: int|
        0 <= i < j < b.len() ==> (#[trigger] b[i]).end() < (#[trigger] b[j]).addr
}

/// Whether a block has room for `size` bytes at a multiple of `align`.
pub open spec fn fits(b: FreeBlock, size: int, align: int) -> bool {
    aligned_up(b.addr as int, align) + size <= b.end()
}

/// The first block with room.
pub open spec fn first_fit(b: Seq<FreeBlock>, size: int, align: int, from: int) -> Option<int>
    decreases b.len() - from,
{
    if from < 0 || from >= b.len() {
        None
    } else if fits(b[from], size, align) {
        Some(from)
    } else {
        first_fit(b, size, align, from + 1)
    }
}

/// Whether carving `size` bytes at `start` out of the free ones left `after` free: all
/// but those.
pub open spec fn is_carved(
    before: Seq<FreeBlock>,
    after: Seq<FreeBlock>,
    start: int,
    size: int,
) -> bool {
    forall|x: int| #[trigger]
        is_free(after, x) == (is_free(before, x) && !(start <= x < start + size))
}

impl FreeList {
    pub open spec fn wf(self) -> bool {
        &&& is_sorted(self.blocks@, self.top())
        &&& self.mapped_end == 0 || HEAP_START <= self.mapped_end <= HEAP_END
        &&& self.mapped_end % 4096 == 0
        &&& self.total == self.top() - HEAP_START
        &&& free_bytes(self.blocks@) + self.allocated == self.total
    }

    /// One past the highest byte the heap has.
    pub open spec fn top(self) -> int {
        if self.mapped_end == 0 {
            HEAP_START as int
        } else {
            self.mapped_end as int
        }
    }

    pub fn new() -> (r: Self)
        ensures
            r.wf(),
            r.blocks@.len() == 0,
            r.mapped_end == 0,
            r.allocated == 0,
            r.total == 0,
    {
        FreeList { blocks: Vec::new(), mapped_end: 0, allocated: 0, total: 0 }
    }

    /// Put a range into the free list in address order, merging it with
    /// whichever neighbours it is adjacent to.
    pub fn insert(&mut self, addr: u64, size: u64)
        requires
            is_sorted(old(self).blocks@, old(self).top()),
            old(self).top() <= HEAP_END,
            HEAP_START <= addr,
            addr + size <= old(self).top(),
            size >= 8,
            addr % 8 == 0,
            size % 8 == 0,
            none_free(old(self).blocks@, addr as int, addr + size),
        ensures
            is_sorted(final(self).blocks@, final(self).top()),
            forall|x: int| #[trigger]
                is_free(final(self).blocks@, x) == (is_free(old(self).blocks@, x) || addr <= x
                    < addr + size),
            free_bytes(final(self).blocks@) == free_bytes(old(self).blocks@) + size,
            final(self).mapped_end == old(self).mapped_end,
            final(self).allocated == old(self).allocated,
            final(self).total == old(self).total,
    {
        let ghost b = self.blocks@;
        let ghost top = self.top();
        let count: usize = self.blocks.len();
        let mut i: usize = 0;
        while i < count && self.blocks[i].addr < addr
            invariant
                i <= count,
                count == self.blocks@.len(),
                self.blocks@ == b,
                *self == *old(self),
                forall|k: int| 0 <= k < i ==> (#[trigger] b[k]).addr < addr,
            decreases count - i,
        {
            i += 1;
        }
        proof {
            lemma_no_overlap(b, top, addr as int, size as int, i as int);
        }
        let mut end: u64 = addr + size;
        let mut start: u64 = addr;
        let next: bool = i < count && self.blocks[i].addr == end;
        if next {
            end = self.blocks[i].addr + self.blocks[i].size;
            let _ = self.blocks.remove(i);
        }
        let ghost c = self.blocks@;
        proof {
            if next {
                assert(c =~= b.remove(i as int));
            }
        }
        let prev: bool = i > 0 && self.blocks[i - 1].addr + self.blocks[i - 1].size == addr;
        if prev {
            start = self.blocks[i - 1].addr;
            let merged: FreeBlock = FreeBlock { addr: start, size: end - start };
            self.blocks[i - 1] = merged;
        } else {
            let block: FreeBlock = FreeBlock { addr: start, size: end - start };
            self.blocks.insert(i, block);
        }
        proof {
            lemma_inserted(
                b,
                self.blocks@,
                top,
                addr as int,
                size as int,
                i as int,
                next,
                prev,
            );
        }
    }

    /// First fit: take the first block with room off the list, hand out the bytes from
    /// it, and put what is left of it on either side back, however little.
    pub fn find_and_remove(&mut self, size: u64, align: u64) -> (r: Option<u64>)
        requires
            old(self).wf(),
            16 <= size <= MAX_SIZE + 1,
            size % 8 == 0,
            8 <= align <= MAX_ALIGN,
            align % 8 == 0,
        ensures
            final(self).wf(),
            final(self).mapped_end == old(self).mapped_end,
            final(self).total == old(self).total,
            match first_fit(old(self).blocks@, size as int, align as int, 0) {
                None => r is None && final(self).blocks@ == old(self).blocks@
                    && final(self).allocated == old(self).allocated,
                Some(i) => {
                    let b = old(self).blocks@[i];
                    let start = aligned_up(b.addr as int, align as int);
                    &&& 0 <= i < old(self).blocks@.len()
                    &&& r == Some(start as u64)
                    &&& start as u64 == start
                    &&& start % align as int == 0
                    &&& b.addr <= start
                    &&& start + size <= b.end()
                    &&& final(self).allocated == old(self).allocated + size
                    &&& is_carved(old(self).blocks@, final(self).blocks@, start, size as int)
                },
            },
    {
        let ghost b = self.blocks@;
        let ghost top = self.top();
        let count: usize = self.blocks.len();
        let mut i: usize = 0;
        while i < count
            invariant
                i <= count,
                count == self.blocks@.len(),
                self.blocks@ == b,
                top == self.top(),
                *self == *old(self),
                self.wf(),
                16 <= size <= MAX_SIZE + 1,
                size % 8 == 0,
                8 <= align <= MAX_ALIGN,
                align % 8 == 0,
                first_fit(b, size as int, align as int, 0) == first_fit(
                    b,
                    size as int,
                    align as int,
                    i as int,
                ),
            decreases count - i,
        {
            let block: FreeBlock = self.blocks[i];
            let ghost g = b[i as int];
            proof {
                assert(g == block);
                assert(HEAP_START <= g.addr && g.end() <= top);
                lemma_aligned(block.addr as int, align as int);
            }
            let start: u64 = align_up(block.addr, align);
            let padding: u64 = start - block.addr;
            if padding + size <= block.size {
                let _ = self.blocks.remove(i);
                let ghost c = self.blocks@;
                proof {
                    assert(c =~= b.remove(i as int));
                    lemma_block_removed(b, c, top, i as int);
                    lemma_block_taken(b, c, i as int);
                    lemma_free_bytes_nonnegative(c);
                }
                if padding > 0 {
                    self.insert(block.addr, padding);
                }
                let after: u64 = block.size - padding - size;
                if after > 0 {
                    self.insert(start + size, after);
                }
                proof {
                    lemma_free_bytes_nonnegative(self.blocks@);
                }
                self.allocated = self.allocated + size;
                return Some(start);
            }
            i += 1;
        }
        None
    }
}

/// A range with no free byte lies between two neighbouring blocks.
proof fn lemma_no_overlap(b: Seq<FreeBlock>, top: int, addr: int, size: int, i: int)
    requires
        is_sorted(b, top),
        size >= 8,
        none_free(b, addr, addr + size),
        0 <= i <= b.len(),
        forall|k: int| 0 <= k < i ==> (#[trigger] b[k]).addr < addr,
        i < b.len() ==> b[i].addr >= addr,
    ensures
        forall|k: int| 0 <= k < i ==> (#[trigger] b[k]).end() <= addr,
        forall|k: int| i <= k < b.len() ==> addr + size <= (#[trigger] b[k]).addr,
{
    assert forall|k: int| 0 <= k < i implies (#[trigger] b[k]).end() <= addr by {
        if b[k].end() > addr {
            assert(b[k].holds(addr));
            assert(is_free(b, addr));
        }
    }
    assert forall|k: int| i <= k < b.len() implies addr + size <= (#[trigger] b[k]).addr by {
        if k > i {
            assert(b[i].end() < b[k].addr);
        }
        if b[k].addr < addr + size {
            assert(b[k].holds(b[k].addr as int));
            assert(is_free(b, b[k].addr as int));
        }
    }
}

#[verifier::spinoff_prover]
#[verifier::rlimit(30)]
proof fn lemma_inserted(
    b: Seq<FreeBlock>,
    n: Seq<FreeBlock>,
    top: int,
    addr: int,
    size: int,
    i: int,
    next: bool,
    prev: bool,
)
    requires
        is_sorted(b, top),
        top <= HEAP_END,
        HEAP_START <= addr,
        addr + size <= top,
        size >= 8,
        addr % 8 == 0,
        size % 8 == 0,
        0 <= i <= b.len(),
        forall|k: int| 0 <= k < i ==> (#[trigger] b[k]).end() <= addr,
        forall|k: int| i <= k < b.len() ==> addr + size <= (#[trigger] b[k]).addr,
        next == (i < b.len() && b[i].addr == addr + size),
        prev == (i > 0 && b[i - 1].end() == addr),
        ({
            let c = if next {
                b.remove(i)
            } else {
                b
            };
            let end = if next {
                b[i].end()
            } else {
                addr + size
            };
            if prev {
                n == c.update(
                    i - 1,
                    FreeBlock { addr: b[i - 1].addr, size: (end - b[i - 1].addr) as u64 },
                )
            } else {
                n == c.insert(i, FreeBlock { addr: addr as u64, size: (end - addr) as u64 })
            }
        }),
    ensures
        is_sorted(n, top),
        forall|x: int| #[trigger] is_free(n, x) == (is_free(b, x) || addr <= x < addr + size),
        free_bytes(n) == free_bytes(b) + size,
{
    let cut = if next {
        i + 1
    } else {
        i
    };
    let at = if prev {
        i - 1
    } else {
        i
    };
    let end = if next {
        b[i].end()
    } else {
        addr + size
    };
    let start = if prev {
        b[i - 1].addr as int
    } else {
        addr
    };
    if next {
        assert(HEAP_START <= b[i].addr && b[i].end() <= top);
    }
    if prev {
        assert(HEAP_START <= b[i - 1].addr && b[i - 1].end() <= top);
    }
    let block = FreeBlock { addr: start as u64, size: (end - start) as u64 };
    assert(n[at] == block);
    assert(is_replaced(b, n, at, cut, block));
    assert forall|k: int| cut <= k < b.len() implies end < (#[trigger] b[k]).addr by {
        if next {
            assert(b[i].end() < b[k].addr);
        } else if k > i {
            assert(b[i].end() < b[k].addr);
        } else {
            assert(b[i].addr != addr + size);
        }
    }
    assert forall|k: int| 0 <= k < at implies (#[trigger] b[k]).end() < start by {
        if prev {
            assert(b[k].end() < b[i - 1].addr);
        } else if k < i - 1 {
            assert(b[k].end() < b[i - 1].addr);
        } else {
            assert(b[i - 1].end() != addr);
        }
    }
    lemma_replaced_sorted(b, n, top, at, cut, block);
    lemma_replaced_free(b, n, at, cut, block);
    lemma_replaced_bytes(b, n, at, cut, block);
    assert(free_bytes(b.subrange(at, cut)) == block.size - size) by {
        let mid = b.subrange(at, cut);
        if prev && next {
            assert(mid =~= seq![b[i - 1]] + seq![b[i]]);
            lemma_free_bytes(seq![b[i - 1]], seq![b[i]]);
            lemma_free_bytes_one(b[i - 1]);
            lemma_free_bytes_one(b[i]);
        } else if prev {
            assert(mid =~= seq![b[i - 1]]);
            lemma_free_bytes_one(b[i - 1]);
        } else if next {
            assert(mid =~= seq![b[i]]);
            lemma_free_bytes_one(b[i]);
        } else {
            assert(mid =~= Seq::empty());
        }
    }
    assert forall|x: int| #[trigger] is_free(n, x) == (is_free(b, x) || addr <= x < addr + size) by {
        if block.holds(x) && !(addr <= x < addr + size) {
            if x < addr {
                assert(b[i - 1].holds(x));
            } else {
                assert(b[i].holds(x));
            }
        }
        if exists|k: int| at <= k < cut && (#[trigger] b[k]).holds(x) {
            let k = choose|k: int| at <= k < cut && (#[trigger] b[k]).holds(x);
            assert(block.holds(x));
        }
    }
}

/// Whether `n` has one block in the place of blocks `at` to `cut` of `b`.
spec fn is_replaced(
    b: Seq<FreeBlock>,
    n: Seq<FreeBlock>,
    at: int,
    cut: int,
    block: FreeBlock,
) -> bool {
    &&& 0 <= at <= cut <= b.len()
    &&& n.len() == at + 1 + (b.len() - cut)
    &&& n[at] == block
    &&& forall|k: int| 0 <= k < at ==> #[trigger] n[k] == b[k]
    &&& forall|k: int| at < k < n.len() ==> #[trigger] n[k] == b[k - at - 1 + cut]
}

#[verifier::spinoff_prover]
proof fn lemma_replaced_sorted(
    b: Seq<FreeBlock>,
    n: Seq<FreeBlock>,
    top: int,
    at: int,
    cut: int,
    block: FreeBlock,
)
    requires
        is_sorted(b, top),
        is_replaced(b, n, at, cut, block),
        HEAP_START <= block.addr,
        block.end() <= top,
        block.size >= 8,
        block.addr % 8 == 0,
        block.size % 8 == 0,
        forall|k: int| cut <= k < b.len() ==> block.end() < (#[trigger] b[k]).addr,
        forall|k: int| 0 <= k < at ==> (#[trigger] b[k]).end() < block.addr,
    ensures
        is_sorted(n, top),
{
    assert forall|k: int| 0 <= k < n.len() implies {
        &&& HEAP_START <= (#[trigger] n[k]).addr
        &&& n[k].end() <= top
        &&& n[k].size >= 8
        &&& n[k].addr % 8 == 0
        &&& n[k].size % 8 == 0
    } by {
        if k < at {
            assert(HEAP_START <= b[k].addr);
        } else if k > at {
            assert(HEAP_START <= b[k - at - 1 + cut].addr);
        }
    }
    assert forall|j: int, k: int| 0 <= j < k < n.len() implies (#[trigger] n[j]).end() < (
    #[trigger] n[k]).addr by {
        if k < at {
            assert(b[j].end() < b[k].addr);
        } else if j > at {
            assert(b[j - at - 1 + cut].end() < b[k - at - 1 + cut].addr);
        } else if j < at && k > at {
            assert(b[j].end() < block.addr);
            assert(block.end() < b[k - at - 1 + cut].addr);
        } else if k == at {
            assert(b[j].end() < block.addr);
        } else {
            assert(block.end() < b[k - at - 1 + cut].addr);
        }
    }
}

#[verifier::spinoff_prover]
proof fn lemma_replaced_free(
    b: Seq<FreeBlock>,
    n: Seq<FreeBlock>,
    at: int,
    cut: int,
    block: FreeBlock,
)
    requires
        is_replaced(b, n, at, cut, block),
    ensures
        forall|x: int| #[trigger]
            is_free(n, x) ==> block.holds(x) || is_free(b, x),
        forall|x: int| block.holds(x) ==> #[trigger] is_free(n, x),
        forall|x: int| #[trigger]
            is_free(b, x) ==> is_free(n, x) || exists|k: int|
                at <= k < cut && (#[trigger] b[k]).holds(x),
{
    assert forall|x: int| #[trigger] is_free(n, x) implies block.holds(x) || is_free(b, x) by {
        let k = choose|k: int| 0 <= k < n.len() && (#[trigger] n[k]).holds(x);
        if k < at {
            assert(b[k].holds(x));
        } else if k > at {
            assert(b[k - at - 1 + cut].holds(x));
        }
    }
    assert forall|x: int| block.holds(x) implies #[trigger] is_free(n, x) by {
        assert(n[at].holds(x));
    }
    assert forall|x: int| #[trigger] is_free(b, x) implies is_free(n, x) || exists|k: int|
        at <= k < cut && (#[trigger] b[k]).holds(x) by {
        let k = choose|k: int| 0 <= k < b.len() && (#[trigger] b[k]).holds(x);
        if k < at {
            assert(n[k].holds(x));
        } else if k >= cut {
            assert(n[k - cut + at + 1].holds(x));
        }
    }
}

proof fn lemma_replaced_bytes(
    b: Seq<FreeBlock>,
    n: Seq<FreeBlock>,
    at: int,
    cut: int,
    block: FreeBlock,
)
    requires
        is_replaced(b, n, at, cut, block),
    ensures
        free_bytes(n) == free_bytes(b) - free_bytes(b.subrange(at, cut)) + block.size,
{
    let front = b.take(at);
    let mid = b.subrange(at, cut);
    let back = b.skip(cut);
    assert(b =~= front + mid + back);
    lemma_free_bytes(front + mid, back);
    lemma_free_bytes(front, mid);
    assert(n =~= front + seq![block] + back);
    lemma_free_bytes(front + seq![block], back);
    lemma_free_bytes(front, seq![block]);
    lemma_free_bytes_one(block);
}

proof fn lemma_block_taken(b: Seq<FreeBlock>, c: Seq<FreeBlock>, i: int)
    requires
        0 <= i < b.len(),
        c == b.remove(i),
    ensures
        free_bytes(c) == free_bytes(b) - b[i].size,
{
    let front = b.take(i);
    let back = b.skip(i + 1);
    assert(b =~= front + seq![b[i]] + back);
    assert(c =~= front + back);
    lemma_free_bytes(front + seq![b[i]], back);
    lemma_free_bytes(front, seq![b[i]]);
    lemma_free_bytes_one(b[i]);
    lemma_free_bytes(front, back);
}

/// Taking a block off the list.
proof fn lemma_block_removed(b: Seq<FreeBlock>, c: Seq<FreeBlock>, top: int, i: int)
    requires
        is_sorted(b, top),
        0 <= i < b.len(),
        c == b.remove(i),
    ensures
        is_sorted(c, top),
        forall|x: int| #[trigger] is_free(c, x) == (is_free(b, x) && !b[i].holds(x)),
        forall|x: int| b[i].holds(x) ==> #[trigger] is_free(b, x),
{
    assert forall|k: int| 0 <= k < c.len() implies c[k] == b[if k < i {
        k
    } else {
        k + 1
    }] by {}
    assert forall|x: int| #[trigger] is_free(c, x) == (is_free(b, x) && !b[i].holds(x)) by {
        if is_free(c, x) {
            let k = choose|k: int| 0 <= k < c.len() && (#[trigger] c[k]).holds(x);
            let j = if k < i {
                k
            } else {
                k + 1
            };
            assert(b[j].holds(x));
            if j < i {
                assert(b[j].end() < b[i].addr);
            } else {
                assert(b[i].end() < b[j].addr);
            }
        }
        if is_free(b, x) && !b[i].holds(x) {
            let j = choose|j: int| 0 <= j < b.len() && (#[trigger] b[j]).holds(x);
            let k = if j < i {
                j
            } else {
                j - 1
            };
            assert(c[k].holds(x));
        }
    }
    assert forall|j: int, k: int| 0 <= j < k < c.len() implies (#[trigger] c[j]).end() < (
    #[trigger] c[k]).addr by {
        let p = if j < i {
            j
        } else {
            j + 1
        };
        let q = if k < i {
            k
        } else {
            k + 1
        };
        assert(b[p].end() < b[q].addr);
    }
}

/// Free bytes that touch are one block: where the free bytes are those of one
/// range, there is one block and it is that range.
pub proof fn law_free_bytes_coalesce(list: FreeList, from: int, to: int)
    requires
        list.wf(),
        from < to,
        forall|x: int| #[trigger] is_free(list.blocks@, x) == (from <= x < to),
    ensures
        list.blocks@.len() == 1,
        list.blocks@[0].addr == from,
        list.blocks@[0].end() == to,
{
    let b = list.blocks@;
    assert(is_free(b, from));
    let i = choose|i: int| 0 <= i < b.len() && (#[trigger] b[i]).holds(from);
    assert(b[i].holds(b[i].addr as int));
    assert(is_free(b, b[i].addr as int));
    assert(is_free(b, b[i].end() - 1)) by {
        assert(b[i].holds(b[i].end() - 1));
    }
    assert(!is_free(b, b[i].end())) by {
        if is_free(b, b[i].end()) {
            let j = choose|j: int| 0 <= j < b.len() && (#[trigger] b[j]).holds(b[i].end());
            if j < i {
                assert(b[j].end() < b[i].addr);
            } else if j > i {
                assert(b[i].end() < b[j].addr);
            }
        }
    }
    if b.len() > 1 {
        let j = if i == 0 {
            1int
        } else {
            0int
        };
        assert(b[j].holds(b[j].addr as int));
        assert(is_free(b, b[j].addr as int));
        if j < i {
            assert(b[j].end() < b[i].addr);
        } else {
            assert(b[i].end() < b[j].addr);
        }
    }
}

/// The address that a loan is put at in a free block is the lowest that is a multiple of its
/// alignment.
pub proof fn law_loans_are_aligned(addr: int, align: int, x: int)
    requires
        0 <= addr,
        align > 0,
    ensures
        aligned_up(addr, align) % align == 0,
        aligned_up(addr, align) >= addr,
        x >= addr && x % align == 0 ==> x >= aligned_up(addr, align),
{
    let a = aligned_up(addr, align);
    let q = addr / align;
    let r = addr % align;
    assert(addr == q * align + r && 0 <= r < align) by (nonlinear_arith)
        requires
            q == addr / align,
            r == addr % align,
            align > 0,
    ;
    if r == 0 {
    } else {
        assert(a == (q + 1) * align) by (nonlinear_arith)
            requires
                a == addr - r + align,
                addr == q * align + r,
        ;
        vstd::arithmetic::div_mod::lemma_fundamental_div_mod_converse(a, align, q + 1, 0);
        if x >= addr && x % align == 0 {
            let p = x / align;
            vstd::arithmetic::div_mod::lemma_fundamental_div_mod(x, align);
            assert(x == p * align) by (nonlinear_arith)
                requires
                    x == align * p + 0,
            ;
            assert(p >= q + 1) by (nonlinear_arith)
                requires
                    x == p * align,
                    x >= q * align + r,
                    r > 0,
                    align > 0,
            ;
            assert(p * align >= (q + 1) * align) by (nonlinear_arith)
                requires
                    p >= q + 1,
                    align > 0,
            ;
        }
    }
}

/// A loan comes out of the first free block that has room for it, and is refused only where
/// none has.
pub proof fn law_first_fit(b: Seq<FreeBlock>, size: int, align: int, from: int)
    requires
        0 <= from <= b.len(),
    ensures
        match first_fit(b, size, align, from) {
            Some(i) => from <= i < b.len() && aligned_up(b[i].addr as int, align) + size <= b[i].addr
                + b[i].size && forall|k: int|
                from <= k < i ==> aligned_up((#[trigger] b[k]).addr as int, align) + size > b[k].addr
                    + b[k].size,
            None => forall|k: int|
                from <= k < b.len() ==> aligned_up((#[trigger] b[k]).addr as int, align) + size
                    > b[k].addr + b[k].size,
        },
    decreases b.len() - from,
{
    if from < b.len() && !fits(b[from], size, align) {
        law_first_fit(b, size, align, from + 1);
    }
}

} // verus!
