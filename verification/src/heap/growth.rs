//! Growing the heap, and handing out and taking back its memory.

use vstd::prelude::*;
use crate::pmm::{is_used, PhysicalMemory, PAGE_SIZE};
use crate::vmm::data::{is_data_kept, keeps_data, lemma_data_on, lemma_data_there};
use crate::vmm::regions::{
    keeps_regions, lemma_regions_same, lemma_regions_twice, lemma_regions_wider,
};
use crate::vmm::region::{
    back_pages, extends_regions, is_backed, is_backing, is_data_page, is_in_one_table,
    is_out_of_frames, is_plain, is_region, is_same_outside, lemma_nothing_backed,
};
use crate::vmm::{cannot_map, is_kernel_space, walked, MapError, Vmm};
use super::{
    adjust, align_up, aligned_up, first_fit, fits, free_bytes, is_carved, is_free, is_sorted,
    larger, lemma_free_bytes_nonnegative, none_free, smaller, FreeBlock, FreeList, HEAP_END,
    HEAP_GROW_STEP, HEAP_MAX_SIZE, HEAP_START, MAX_ALIGN, MAX_SIZE,
};

verus! {

/// By how much the heap grows when at least `min_extra` bytes are wanted and
/// it has grown up to `top`.
pub open spec fn growth(top: int, min_extra: int) -> int {
    smaller(larger(HEAP_GROW_STEP as int, aligned_up(min_extra, 4096)), HEAP_END - top)
}

/// By how much the heap grows next.
fn growth_of(mapped_end: u64, min_extra: u64) -> (r: u64)
    requires
        HEAP_START <= mapped_end <= HEAP_END,
        mapped_end % 4096 == 0,
        min_extra <= MAX_SIZE + 1 + MAX_ALIGN,
    ensures
        r == growth(mapped_end as int, min_extra as int),
        r % 4096 == 0,
        mapped_end + r <= HEAP_END,
{
    let remaining: u64 = HEAP_END - mapped_end;
    let wanted: u64 = align_up(min_extra, PAGE_SIZE);
    let step: u64 = if wanted > HEAP_GROW_STEP {
        wanted
    } else {
        HEAP_GROW_STEP
    };
    if step < remaining {
        step
    } else {
        remaining
    }
}

/// Add the bytes above the heap to it.
fn add_region(list: &mut FreeList, mapped: u64)
    requires
        old(list).wf(),
        old(list).mapped_end >= HEAP_START,
        old(list).mapped_end + mapped <= HEAP_END,
        mapped >= 4096,
        mapped % 4096 == 0,
    ensures
        final(list).wf(),
        final(list).allocated == old(list).allocated,
        final(list).top() == old(list).top() + mapped,
        forall|x: int| #[trigger]
            is_free(final(list).blocks@, x) == (is_free(old(list).blocks@, x) || old(list).top()
                <= x < final(list).top()),
{
    let ghost b = list.blocks@;
    let start: u64 = list.mapped_end;
    list.mapped_end = start + mapped;
    list.total = list.total + mapped;
    proof {
        assert forall|x: int| start <= x < start + mapped implies !(#[trigger] is_free(b, x)) by {
            if is_free(b, x) {
                let i = choose|i: int| 0 <= i < b.len() && (#[trigger] b[i]).holds(x);
                assert(b[i].end() <= start);
            }
        }
    }
    list.insert(start, mapped);
}

/// Whether a page of the heap cannot be mapped, and why.
pub open spec fn is_cut_short(mem: PhysicalMemory, vmm: Option<Vmm>, e: MapError) -> bool {
    vmm is Some && cannot_map(mem, vmm->0.pml4_phys, HEAP_START as int, HEAP_END as int, e)
}

/// Whether all that the heap has is mapped for the kernel to read and write, each page to
/// a frame of its own. Before the kernel has page tables of its own there is nothing to
/// map.
pub open spec fn is_wired(list: FreeList, mem: PhysicalMemory, vmm: Option<Vmm>) -> bool {
    vmm matches Some(k) ==> is_region(mem, k.pml4_phys, HEAP_START as int, list.top())
}

/// Whether the regions of the kernel's half beside the part that the heap has yet to grow
/// into are as they were.
pub open spec fn are_others_kept(
    before: PhysicalMemory,
    after: PhysicalMemory,
    vmm: Option<Vmm>,
    top: int,
) -> bool {
    vmm matches Some(k) ==> keeps_regions(before, after, k.pml4_phys, top, HEAP_END as int)
}

proof fn lemma_others_there(m: PhysicalMemory, vmm: Option<Vmm>, top: int)
    requires
        is_kernel_space(m, vmm),
    ensures
        are_others_kept(m, m, vmm, top),
{
    if let Some(k) = vmm {
        lemma_regions_same(m, m, k.pml4_phys, top, HEAP_END as int);
    }
}

proof fn lemma_others_on(
    a: PhysicalMemory,
    b: PhysicalMemory,
    c: PhysicalMemory,
    vmm: Option<Vmm>,
    top: int,
    later: int,
)
    requires
        are_others_kept(a, b, vmm, top),
        are_others_kept(b, c, vmm, later),
        top <= later,
    ensures
        are_others_kept(a, c, vmm, top),
{
    if let Some(k) = vmm {
        let end = HEAP_END as int;
        lemma_regions_wider(b, c, k.pml4_phys, later, end, top, end);
        lemma_regions_twice(a, b, c, k.pml4_phys, top, end);
    }
}

/// Whether the heap has grown from `top` as far as there are frames, where the pages it is
/// to grow by share one page table: these and the tables that were missing are all that
/// was taken.
pub open spec fn is_exact_growth(
    before: PhysicalMemory,
    after: PhysicalMemory,
    vmm: Option<Vmm>,
    top: int,
    by: int,
    r: Result<int, MapError>,
) -> bool {
    vmm matches Some(k) ==> by > 0 && is_in_one_table(top, by) ==> is_backing(
        before,
        after,
        k.pml4_phys,
        top as u64,
        by as u64,
        match r {
            Ok(n) => Ok((n - top) as u64),
            Err(e) => Err(e),
        },
    )
}

/// Map in more physical memory and add it to the free list.
///
/// Tells whether the heap has grown. It has not where it is at its upper bound
/// or there are no frames. An error tells that a page could not be mapped.
pub fn grow(
    list: &mut FreeList,
    mem: &mut PhysicalMemory,
    vmm: &Option<Vmm>,
    min_extra: u64,
) -> (r: Result<bool, MapError>)
    requires
        old(list).wf(),
        old(mem).wf(),
        is_kernel_space(*old(mem), *vmm),
        min_extra <= MAX_SIZE + 1 + MAX_ALIGN,
    ensures
        final(list).wf(),
        final(list).allocated == old(list).allocated,
        is_kernel_space(*final(mem), *vmm),
        final(mem).wf(),
        final(mem).hhdm == old(mem).hhdm,
        is_wired(*old(list), *old(mem), *vmm) ==> is_wired(*final(list), *final(mem), *vmm),
        is_data_kept(*old(mem), *final(mem), *vmm),
        are_others_kept(*old(mem), *final(mem), *vmm, old(list).top()),
        is_exact_growth(
            *old(mem),
            *final(mem),
            *vmm,
            old(list).top(),
            growth(old(list).top(), min_extra as int),
            match r {
                Ok(_) => Ok(final(list).top()),
                Err(e) => Err(e),
            },
        ),
        r matches Err(e) ==> {
            &&& final(list).blocks@ == old(list).blocks@
            &&& final(list).top() == old(list).top()
            &&& is_cut_short(*final(mem), *vmm, e)
        },
        r matches Ok(grew) ==> {
            let n = final(list).top() - old(list).top();
            &&& n % 4096 == 0
            &&& 0 <= n <= growth(old(list).top(), min_extra as int)
            &&& grew == (n > 0)
            &&& n < growth(old(list).top(), min_extra as int) ==> is_out_of_frames(*final(mem))
            &&& forall|x: int| #[trigger]
                is_free(final(list).blocks@, x) == (is_free(old(list).blocks@, x) || old(
                    list,
                ).top() <= x < final(list).top())
            &&& is_backed(*old(mem), *final(mem), *vmm, old(list).top(), final(list).top())
        },
{
    if list.mapped_end == 0 {
        list.mapped_end = HEAP_START;
    }
    let grow_by: u64 = growth_of(list.mapped_end, min_extra);
    if grow_by == 0 {
        proof {
            lemma_nothing_backed(*mem, *vmm, list.top());
            lemma_data_there(*mem, *vmm);
            lemma_others_there(*mem, *vmm, list.top());
        }
        return Ok(false);
    }
    let start: u64 = list.mapped_end;
    proof {
        reveal(extends_regions);
    }
    let ghost m0 = *mem;
    let backed: Result<u64, MapError> = back_pages(mem, vmm, start, grow_by);
    proof {
        if let Some(k) = *vmm {
            lemma_regions_wider(
                m0,
                *mem,
                k.pml4_phys,
                start as int,
                start + grow_by,
                start as int,
                HEAP_END as int,
            );
        }
    }
    let mapped: u64 = backed?;
    if mapped == 0 {
        return Ok(false);
    }
    add_region(list, mapped);
    Ok(true)
}

/// Whether the bytes from `addr` on were handed out: they were free, or the
/// heap has grown by them, and are not free any more.
pub open spec fn is_handed_out(before: FreeList, after: FreeList, addr: int, size: int) -> bool {
    &&& none_free(after.blocks@, addr, addr + size)
    &&& forall|x: int|
        addr <= x < addr + size ==> #[trigger] is_free(before.blocks@, x) || before.top() <= x
            < after.top()
    &&& forall|x: int|
        #![trigger is_free(after.blocks@, x)]
        is_free(after.blocks@, x) == ((is_free(before.blocks@, x) || before.top() <= x
            < after.top()) && !(addr <= x < addr + size))
    &&& HEAP_START <= addr
    &&& addr + size <= after.top()
}

proof fn lemma_handed_out(a: FreeList, b: FreeList, c: FreeList, i: int, start: int, size: int)
    requires
        b.wf(),
        c.top() == b.top(),
        0 <= i < b.blocks@.len(),
        b.blocks@[i].addr <= start,
        start + size <= b.blocks@[i].end(),
        size >= 16,
        is_carved(b.blocks@, c.blocks@, start, size),
        a.top() <= b.top(),
        forall|x: int| #[trigger]
            is_free(b.blocks@, x) == (is_free(a.blocks@, x) || a.top() <= x < b.top()),
    ensures
        is_handed_out(a, c, start, size),
{
    let f = b.blocks@[i];
    assert forall|x: int| start <= x < start + size implies !(#[trigger] is_free(c.blocks@, x)) by {}
    assert forall|x: int| start <= x < start + size implies #[trigger] is_free(a.blocks@, x)
        || a.top() <= x < c.top() by {
        assert(f.holds(x));
        assert(is_free(b.blocks@, x));
    }
    assert(HEAP_START <= f.addr && f.end() <= b.top());
}

proof fn lemma_some_fit(b: Seq<FreeBlock>, size: int, align: int, from: int, i: int)
    requires
        0 <= from <= i < b.len(),
        fits(b[i], size, align),
    ensures
        first_fit(b, size, align, from) is Some,
    decreases i - from,
{
    if from < i && !fits(b[from], size, align) {
        lemma_some_fit(b, size, align, from + 1, i);
    }
}

/// Free bytes in a row are in one block, which then has room.
proof fn lemma_room(b: Seq<FreeBlock>, top: int, x: int, size: int, align: int)
    requires
        is_sorted(b, top),
        align > 0,
        size > 0,
        forall|y: int| x <= y < x + size + align ==> #[trigger] is_free(b, y),
    ensures
        first_fit(b, size, align, 0) is Some,
{
    assert(is_free(b, x));
    let i = choose|i: int| 0 <= i < b.len() && (#[trigger] b[i]).holds(x);
    if b[i].end() < x + size + align {
        let y = b[i].end();
        assert(is_free(b, y));
        let j = choose|j: int| 0 <= j < b.len() && (#[trigger] b[j]).holds(y);
        if j < i {
            assert(b[j].end() < b[i].addr);
        } else if i < j {
            assert(b[i].end() < b[j].addr);
        }
    }
    assert(fits(b[i], size, align));
    lemma_some_fit(b, size, align, 0, i);
}

/// Hand out `size` bytes at a multiple of `align` from the memory that the heap has:
/// the first free block with room, if there is one.
pub fn hand_out_now(list: &mut FreeList, size: u64, align: u64) -> (r: Option<u64>)
    requires
        old(list).wf(),
        size <= MAX_SIZE,
        align <= MAX_ALIGN,
        align <= 8 || align % 8 == 0,
    ensures
        final(list).wf(),
        final(list).top() == old(list).top(),
        ({
            let s = aligned_up(larger(size as int, 16), 8);
            let a = larger(align as int, 8);
            match first_fit(old(list).blocks@, s, a, 0) {
                None => r is None && final(list).blocks@ == old(list).blocks@
                    && final(list).allocated == old(list).allocated,
                Some(i) => {
                    let start = aligned_up(old(list).blocks@[i].addr as int, a);
                    &&& r == Some(start as u64)
                    &&& start % a == 0
                    &&& is_handed_out(*old(list), *final(list), start, s)
                    &&& final(list).allocated == old(list).allocated + s
                },
            }
        }),
{
    let (s, a) = adjust(size, align);
    let ghost l0 = *list;
    let r = list.find_and_remove(s, a);
    proof {
        if r is Some {
            let i = first_fit(l0.blocks@, s as int, a as int, 0)->0;
            lemma_handed_out(l0, l0, *list, i, r->0 as int, s as int);
        }
    }
    r
}

/// Hand out `size` bytes at a multiple of `align`: the first free block with
/// room, after growing the heap once where none has. There is nothing to hand out
/// only where no frames are left or the heap is at its upper bound. The outer
/// error tells that a page could not be mapped.
pub fn hand_out(
    list: &mut FreeList,
    mem: &mut PhysicalMemory,
    vmm: &Option<Vmm>,
    size: u64,
    align: u64,
) -> (r: Result<Option<u64>, MapError>)
    requires
        old(list).wf(),
        old(mem).wf(),
        is_kernel_space(*old(mem), *vmm),
        size <= MAX_SIZE,
        align <= MAX_ALIGN,
        align <= 8 || align % 8 == 0,
    ensures
        final(list).wf(),
        ({
            let s = aligned_up(larger(size as int, 16), 8);
            let a = larger(align as int, 8);
            &&& first_fit(old(list).blocks@, s, a, 0) matches Some(i) ==> {
                &&& r == Ok::<Option<u64>, MapError>(
                    Some(aligned_up(old(list).blocks@[i].addr as int, a) as u64),
                )
                &&& final(list).top() == old(list).top()
                &&& *final(mem) == *old(mem)
            }
            &&& r matches Ok(Some(addr)) ==> {
                &&& addr as int % a == 0
                &&& is_handed_out(*old(list), *final(list), addr as int, s)
                &&& final(list).allocated == old(list).allocated + s
            }
            &&& r matches Ok(None) ==> {
                &&& first_fit(old(list).blocks@, s, a, 0) is None
                &&& is_out_of_frames(*final(mem)) || HEAP_END - old(list).top() < s + a
                &&& final(list).allocated == old(list).allocated
                &&& forall|x: int| #[trigger]
                    is_free(final(list).blocks@, x) == (is_free(old(list).blocks@, x) || old(
                        list,
                    ).top() <= x < final(list).top())
            }
            &&& r matches Err(e) ==> {
                &&& first_fit(old(list).blocks@, s, a, 0) is None
                &&& is_cut_short(*final(mem), *vmm, e)
                &&& final(list).allocated == old(list).allocated
                &&& final(list).blocks@ == old(list).blocks@
            }
            &&& final(list).top() >= old(list).top()
        }),
        is_kernel_space(*final(mem), *vmm),
        final(mem).wf(),
        final(mem).hhdm == old(mem).hhdm,
        r is Ok ==> is_backed(
            *old(mem),
            *final(mem),
            *vmm,
            old(list).top(),
            final(list).top(),
        ),
        is_wired(*old(list), *old(mem), *vmm) ==> is_wired(*final(list), *final(mem), *vmm),
        is_data_kept(*old(mem), *final(mem), *vmm),
        are_others_kept(*old(mem), *final(mem), *vmm, old(list).top()),
        ({
            let s = aligned_up(larger(size as int, 16), 8);
            let a = larger(align as int, 8);
            first_fit(old(list).blocks@, s, a, 0) is None ==> is_exact_growth(
                *old(mem),
                *final(mem),
                *vmm,
                old(list).top(),
                growth(old(list).top(), s + a),
                match r {
                    Ok(_) => Ok(final(list).top()),
                    Err(e) => Err(e),
                },
            )
        }),
{
    let ghost l0 = *list;
    proof {
        lemma_nothing_backed(*mem, *vmm, list.top());
        lemma_data_there(*mem, *vmm);
        lemma_others_there(*mem, *vmm, list.top());
    }
    match hand_out_now(list, size, align) {
        Some(addr) => {
            return Ok(Some(addr));
        },
        None => {},
    }
    let (s, a) = adjust(size, align);
    if !grow(list, mem, vmm, s + a)? {
        assert(growth(l0.top(), s + a) > 0 ==> is_out_of_frames(*mem));
        return Ok(None);
    }
    let ghost l1 = *list;
    match list.find_and_remove(s, a) {
        Some(addr) => {
            proof {
                let i = first_fit(l1.blocks@, s as int, a as int, 0)->0;
                lemma_handed_out(l0, l1, *list, i, addr as int, s as int);
            }
            Ok(Some(addr))
        },
        None => {
            proof {
                if !is_out_of_frames(*mem) && HEAP_END - l0.top() >= s + a {
                    lemma_room(l1.blocks@, l1.top(), l0.top(), s as int, a as int);
                }
            }
            Ok(None)
        },
    }
}

/// Take back memory that was handed out.
pub fn take_back(list: &mut FreeList, addr: u64, size: u64)
    requires
        old(list).wf(),
        size <= MAX_SIZE,
        is_on_loan(*old(list), addr as int, aligned_up(larger(size as int, 16), 8)),
    ensures
        final(list).wf(),
        final(list).top() == old(list).top(),
        final(list).allocated == old(list).allocated - aligned_up(larger(size as int, 16), 8),
        forall|x: int| #[trigger]
            is_free(final(list).blocks@, x) == (is_free(old(list).blocks@, x) || addr <= x < addr
                + aligned_up(larger(size as int, 16), 8)),
{
    let (s, _align) = adjust(size, 8);
    list.allocated = list.allocated - s;
    list.insert(addr, s);
}

/// Whether `size` bytes from `addr` on can be on loan: they are bytes of the heap, and
/// not free.
pub open spec fn is_on_loan(list: FreeList, addr: int, size: int) -> bool {
    &&& HEAP_START <= addr
    &&& addr + size <= list.top()
    &&& addr % 8 == 0
    &&& none_free(list.blocks@, addr, addr + size)
    &&& size <= list.allocated
}

/// Whether memory can be taken back.
pub fn can_take_back(list: &FreeList, addr: u64, size: u64) -> (r: bool)
    requires
        list.wf(),
    ensures
        r == (size <= MAX_SIZE && is_on_loan(
            *list,
            addr as int,
            aligned_up(larger(size as int, 16), 8),
        )),
{
    if size > MAX_SIZE || addr < HEAP_START || addr >= HEAP_END {
        return false;
    }
    let (s, _align) = adjust(size, 8);
    let top: u64 = if list.mapped_end == 0 {
        HEAP_START
    } else {
        list.mapped_end
    };
    if s > top - HEAP_START || addr - HEAP_START > (top - HEAP_START) - s || addr % 8 != 0 || s
        > list.allocated {
        return false;
    }
    let mut i: usize = 0;
    while i < list.blocks.len()
        invariant
            i <= list.blocks@.len(),
            list.wf(),
            s >= 16,
            addr + s <= list.top() <= HEAP_END,
            forall|k: int|
                0 <= k < i ==> {
                    ||| (#[trigger] list.blocks@[k]).end() <= addr
                    ||| addr + s <= list.blocks@[k].addr
                },
            s == aligned_up(larger(size as int, 16), 8),
        decreases list.blocks@.len() - i,
    {
        let b = list.blocks[i];
        assert(b == list.blocks@[i as int]);
        assert(b.end() <= list.top());
        if addr < b.addr + b.size && b.addr < addr + s {
            proof {
                let x = if addr < b.addr {
                    b.addr as int
                } else {
                    addr as int
                };
                assert(list.blocks@[i as int].holds(x));
                assert(is_free(list.blocks@, x));
            }
            return false;
        }
        i += 1;
    }
    true
}

/// Bytes on loan to callers.
pub fn allocated_bytes(list: &FreeList) -> (r: u64)
    ensures
        r == list.allocated,
{
    list.allocated
}

/// Total bytes the heap has grown to (allocated and free).
pub fn heap_size(list: &FreeList) -> (r: u64)
    ensures
        r == list.total,
{
    list.total
}

/// Map the initial region. Tells whether that worked.
pub fn init(list: &mut FreeList, mem: &mut PhysicalMemory, vmm: &Option<Vmm>) -> (r: Result<
    bool,
    MapError,
>)
    requires
        old(list).wf(),
        old(list).mapped_end == 0,
        old(mem).wf(),
        is_kernel_space(*old(mem), *vmm),
    ensures
        final(list).wf(),
        r matches Ok(up) ==> {
            &&& up == (final(list).total > 0)
            &&& final(list).total <= HEAP_GROW_STEP
            &&& final(list).total < HEAP_GROW_STEP ==> is_out_of_frames(*final(mem))
            &&& final(list).allocated == old(list).allocated
        },
        r matches Err(e) ==> is_cut_short(*final(mem), *vmm, e) && final(list).total == 0,
        r is Ok ==> is_backed(
            *old(mem),
            *final(mem),
            *vmm,
            HEAP_START as int,
            final(list).top(),
        ),
        forall|x: int| #[trigger]
            is_free(final(list).blocks@, x) == (is_free(old(list).blocks@, x) || HEAP_START <= x
                < final(list).top()),
        is_wired(*final(list), *final(mem), *vmm),
        is_kernel_space(*final(mem), *vmm),
        final(mem).wf(),
        final(mem).hhdm == old(mem).hhdm,
        is_data_kept(*old(mem), *final(mem), *vmm),
        are_others_kept(*old(mem), *final(mem), *vmm, old(list).top()),
        is_exact_growth(
            *old(mem),
            *final(mem),
            *vmm,
            HEAP_START as int,
            HEAP_GROW_STEP as int,
            match r {
                Ok(_) => Ok(final(list).top()),
                Err(e) => Err(e),
            },
        ),
{
    proof {
        reveal(is_region);
    }
    grow(list, mem, vmm, HEAP_GROW_STEP)
}

/// What was handed out goes back: the bytes on loan are as before, and the free bytes
/// are those that were free and those that the heap has grown by.
pub proof fn law_take_back_undoes_hand_out(a: FreeList, b: FreeList, c: FreeList, addr: int, size: int)
    requires
        is_handed_out(a, b, addr, size),
        b.allocated == a.allocated + size,
        c.allocated == b.allocated - size,
        forall|x: int| #[trigger]
            is_free(c.blocks@, x) == (is_free(b.blocks@, x) || addr <= x < addr + size),
    ensures
        c.allocated == a.allocated,
        forall|x: int| #[trigger]
            is_free(c.blocks@, x) == (is_free(a.blocks@, x) || a.top() <= x < b.top()),
{
    assert forall|x: int| #[trigger] is_free(c.blocks@, x) == (is_free(a.blocks@, x) || a.top() <= x
        < b.top()) by {
        assert(is_free(b.blocks@, x) == ((is_free(a.blocks@, x) || a.top() <= x < b.top()) && !(addr
            <= x < addr + size)));
    }
}

/// What the heap has grown by since leaves what is on loan as it was: where it is, and
/// what it holds.
pub proof fn law_loans_are_kept(
    list: FreeList,
    m0: PhysicalMemory,
    m: PhysicalMemory,
    k: Vmm,
    top: int,
    v: u64,
)
    requires
        is_wired(list, m0, Some(k)),
        is_backed(m0, m, Some(k), list.top(), top),
        is_data_kept(m0, m, Some(k)),
        HEAP_START <= v < list.top(),
    ensures
        ({
            let root = k.pml4_phys;
            &&& walked(m.bytes@, root, v) == walked(m0.bytes@, root, v)
            &&& walked(m0.bytes@, root, v) matches Some(p)
            &&& m.bytes@[p as int] == m0.bytes@[p as int]
        }),
{
    reveal(is_region);
    reveal(is_same_outside);
    reveal(keeps_data);
    assert(walked(m0.bytes@, k.pml4_phys, v) is Some);
    let p = walked(m0.bytes@, k.pml4_phys, v)->0;
    assert(walked(m.bytes@, k.pml4_phys, v) == Some(p));
    assert(m.bytes@[p as int] == m0.bytes@[p as int]);
}

/// Memory that is handed out can be used: each of its pages is mapped for reading and
/// writing, to a frame that is the heap's and holds no page table, and no two of them to
/// the same one.
pub proof fn law_loans_are_mapped(
    before: FreeList,
    after: FreeList,
    mem: PhysicalMemory,
    k: Vmm,
    addr: int,
    size: int,
    v: u64,
    w: u64,
)
    requires
        is_handed_out(before, after, addr, size),
        is_wired(after, mem, Some(k)),
        addr <= v < addr + size,
        addr <= w < addr + size,
    ensures
        ({
            let root = k.pml4_phys;
            &&& walked(mem.bytes@, root, v) matches Some(p)
            &&& p < mem.bytes@.len()
            &&& p as int % 4096 == v as int % 4096
            &&& is_used(mem.pmm->0.bitmap@, p as int / 4096)
            &&& is_plain(mem.bytes@, root, p as int)
            &&& is_data_page(mem.bytes@, root, v, p)
            &&& walked(mem.bytes@, root, w)->0 as int / 4096 == p as int / 4096 ==> v as int / 4096
                == w as int / 4096
        }),
{
    reveal(is_region);
    assert(walked(mem.bytes@, k.pml4_phys, w) is Some);
}

/// What is on loan and what is free make up the heap, whose size is whole pages and
/// within its bound.
pub proof fn law_loans_and_free_make_up_the_heap(list: FreeList)
    requires
        list.wf(),
    ensures
        list.allocated + free_bytes(list.blocks@) == list.total,
        list.total % 4096 == 0,
        list.total <= HEAP_MAX_SIZE,
{
}

/// Memory on loan is not handed out a second time.
pub proof fn law_loans_are_exclusive(
    a: FreeList,
    b: FreeList,
    c: FreeList,
    first: int,
    first_size: int,
    second: int,
    second_size: int,
)
    requires
        is_handed_out(a, b, first, first_size),
        is_handed_out(b, c, second, second_size),
        first_size > 0,
        second_size > 0,
    ensures
        first + first_size <= second || second + second_size <= first,
{
    if first < second + second_size && second < first + first_size {
        let x = if first < second {
            second
        } else {
            first
        };
        assert(!is_free(b.blocks@, x));
        assert(is_free(b.blocks@, x) || b.top() <= x < c.top());
    }
}

/// The outcome of trying the heap out.
#[derive(Clone, Copy, Debug, PartialEq, Eq, Structural)]
pub enum HeapTest {
    /// The heap had no memory to give.
    OutOfMemory,
    /// Everything was handed out and taken back, with the bytes on loan then.
    Passed { grew: bool, allocated: u64 },
    /// Bytes that should have come back did not.
    Leaked { before: u64, after: u64 },
}

/// Whether `n` loans of 512 bytes each are out, none of them free and no two
/// of them overlapping.
pub open spec fn are_out(list: FreeList, loans: Seq<u64>, from: int) -> bool {
    &&& forall|i: int|
        from <= i < loans.len() ==> {
            &&& HEAP_START <= #[trigger] loans[i]
            &&& loans[i] + 512 <= list.top()
            &&& loans[i] % 8 == 0
            &&& none_free(list.blocks@, loans[i] as int, loans[i] + 512)
        }
    &&& forall|i: int, j: int|
        from <= i < j < loans.len() ==> #[trigger] loans[i] + 512 <= #[trigger] loans[j] || loans[j]
            + 512 <= loans[i]
}

/// Whether the first `n` loans of 512 bytes each are free.
pub open spec fn are_back(list: FreeList, loans: Seq<u64>, n: int) -> bool {
    forall|i: int, x: int|
        #![trigger loans[i], is_free(list.blocks@, x)]
        0 <= i < n && loans[i] <= x < loans[i] + 512 ==> is_free(list.blocks@, x)
}

/// Whether 300 loans of 512 bytes each were out at once and are free now.
pub open spec fn has_taken_300(list: FreeList) -> bool {
    exists|loans: Seq<u64>|
        loans.len() == 300 && #[trigger] are_back(list, loans, 300) && forall|i: int, j: int|
            0 <= i < j < 300 ==> #[trigger] loans[i] + 512 <= #[trigger] loans[j] || loans[j] + 512
                <= loans[i]
}

/// One more loan.
proof fn lemma_one_out(a: FreeList, b: FreeList, loans: Seq<u64>, addr: u64)
    requires
        a.wf(),
        b.wf(),
        are_out(a, loans, 0),
        is_handed_out(a, b, addr as int, 512),
        addr % 8 == 0,
        a.top() <= b.top(),
    ensures
        are_out(b, loans.push(addr), 0),
{
    let l = loans.push(addr);
    assert forall|i: int| 0 <= i < l.len() implies {
        &&& HEAP_START <= #[trigger] l[i]
        &&& l[i] + 512 <= b.top()
        &&& l[i] % 8 == 0
        &&& none_free(b.blocks@, l[i] as int, l[i] + 512)
    } by {
        if i < loans.len() {
            assert(l[i] == loans[i]);
            assert forall|x: int| l[i] <= x < l[i] + 512 implies !(#[trigger] is_free(
                b.blocks@,
                x,
            )) by {
                assert(!is_free(a.blocks@, x));
            }
        }
    }
    assert forall|i: int, j: int| 0 <= i < j < l.len() implies #[trigger] l[i] + 512
        <= #[trigger] l[j] || l[j] + 512 <= l[i] by {
        if j == loans.len() {
            let p = l[i] as int;
            let q = addr as int;
            assert(l[i] == loans[i]);
            if p < q + 512 && q < p + 512 {
                let x = if p < q {
                    q
                } else {
                    p
                };
                assert(!is_free(a.blocks@, x));
                assert(is_free(a.blocks@, x) || a.top() <= x < b.top());
            }
        } else {
            assert(loans[i] + 512 <= loans[j] || loans[j] + 512 <= loans[i]);
        }
    }
}

/// Whether `n` bytes in a row, from a multiple of eight on, are free.
spec fn has_run(b: Seq<FreeBlock>, x: int, n: int) -> bool {
    x % 8 == 0 && forall|y: int| x <= y < x + n ==> #[trigger] is_free(b, y)
}

/// The block that a loan fits in has as many bytes in a row.
proof fn lemma_run_there(b: Seq<FreeBlock>, top: int, n: int, from: int) -> (x: int)
    requires
        is_sorted(b, top),
        first_fit(b, n, 8, from) is Some,
        0 <= from,
    ensures
        has_run(b, x, n),
    decreases b.len() - from,
{
    if fits(b[from], n, 8) {
        let x = b[from].addr as int;
        assert forall|y: int| x <= y < x + n implies #[trigger] is_free(b, y) by {
            assert(b[from].holds(y));
        }
        x
    } else {
        lemma_run_there(b, top, n, from + 1)
    }
}

/// Free bytes in a row are in one block, in which a loan of no more bytes fits.
proof fn lemma_run_fits(b: Seq<FreeBlock>, top: int, x: int, n: int, size: int)
    requires
        is_sorted(b, top),
        has_run(b, x, n),
        0 < size <= n,
    ensures
        first_fit(b, size, 8, 0) is Some,
{
    assert(is_free(b, x));
    let i = choose|i: int| 0 <= i < b.len() && (#[trigger] b[i]).holds(x);
    if b[i].end() < x + n {
        let y = b[i].end();
        assert(is_free(b, y));
        let j = choose|j: int| 0 <= j < b.len() && (#[trigger] b[j]).holds(y);
        if j < i {
            assert(b[j].end() < b[i].addr);
        } else if i < j {
            assert(b[i].end() < b[j].addr);
        }
    }
    assert(fits(b[i], size, 8));
    lemma_some_fit(b, size, 8, 0, i);
}

/// Make and end a single loan.
fn try_one(
    list: &mut FreeList,
    mem: &mut PhysicalMemory,
    vmm: &Option<Vmm>,
    size: u64,
    align: u64,
) -> (r: Result<bool, MapError>)
    requires
        old(list).wf(),
        old(mem).wf(),
        is_kernel_space(*old(mem), *vmm),
        size <= MAX_SIZE,
        align == 1 || align == 4 || align == 8,
    ensures
        final(list).wf(),
        is_kernel_space(*final(mem), *vmm),
        final(mem).wf(),
        r is Ok ==> final(list).allocated == old(list).allocated,
        r matches Ok(false) ==> is_out_of_frames(*final(mem)) || HEAP_END - final(list).top()
            < aligned_up(larger(size as int, 16), 8) + 8,
        r matches Err(e) ==> is_cut_short(*final(mem), *vmm, e),
        final(list).total >= old(list).total,
        is_wired(*old(list), *old(mem), *vmm) ==> is_wired(*final(list), *final(mem), *vmm),
        is_data_kept(*old(mem), *final(mem), *vmm),
        are_others_kept(*old(mem), *final(mem), *vmm, old(list).top()),
        first_fit(
            old(list).blocks@,
            aligned_up(larger(size as int, 16), 8),
            8,
            0,
        ) is Some ==> r == Ok::<bool, MapError>(true) && final(list).total == old(list).total
            && forall|x: int| #[trigger]
            is_free(final(list).blocks@, x) == is_free(old(list).blocks@, x),
{
    let ghost l0 = *list;
    match hand_out(list, mem, vmm, size, align)? {
        Some(addr) => {
            let ghost l1 = *list;
            take_back(list, addr, size);
            proof {
                law_take_back_undoes_hand_out(
                    l0,
                    l1,
                    *list,
                    addr as int,
                    aligned_up(larger(size as int, 16), 8),
                );
            }
            Ok(true)
        },
        None => Ok(false),
    }
}

/// Try the heap out: a single small loan, loans of doubling size as a growing
/// vector makes them, and 300 loans of 512 bytes that are out at once. Only where
/// the heap cannot grow is there another outcome than that all comes back.
pub fn self_test(list: &mut FreeList, mem: &mut PhysicalMemory, vmm: &Option<Vmm>) -> (r: Result<
    HeapTest,
    MapError,
>)
    requires
        old(list).wf(),
        old(mem).wf(),
        is_kernel_space(*old(mem), *vmm),
    ensures
        final(list).wf(),
        final(mem).wf(),
        is_kernel_space(*final(mem), *vmm),
        is_wired(*old(list), *old(mem), *vmm) ==> is_wired(*final(list), *final(mem), *vmm),
        is_data_kept(*old(mem), *final(mem), *vmm),
        are_others_kept(*old(mem), *final(mem), *vmm, old(list).top()),
        final(list).total >= old(list).total,
        match r {
            Ok(HeapTest::Passed { grew, allocated }) => {
                &&& allocated == old(list).allocated
                &&& final(list).allocated == old(list).allocated
                &&& final(list).total >= old(list).allocated + 300 * 512
                &&& has_taken_300(*final(list))
                &&& grew ==> final(list).total > old(list).total
                &&& first_fit(old(list).blocks@, 8192, 8, 0) is Some ==> grew == (final(list).total
                    > old(list).total)
            },
            Ok(HeapTest::OutOfMemory) => is_out_of_frames(*final(mem)) || HEAP_END < final(list).top()
                + 8200,
            Ok(HeapTest::Leaked { .. }) => false,
            Err(e) => is_cut_short(*final(mem), *vmm, e),
        },
{
    let before: u64 = allocated_bytes(list);
    let ghost roomy = first_fit(list.blocks@, 8192, 8, 0) is Some;
    let ghost mut x: int = 0;
    proof {
        if roomy {
            x = lemma_run_there(list.blocks@, list.top(), 8192, 0);
            lemma_run_fits(list.blocks@, list.top(), x, 8192, 16);
        }
    }
    if !try_one(list, mem, vmm, 8, 8)? {
        return Ok(HeapTest::OutOfMemory);
    }
    let mut size: u64 = 16;
    while size <= 8192
        invariant
            list.wf(),
            mem.wf(),
            is_kernel_space(*mem, *vmm),
            list.allocated == before,
            size <= 16384,
            size >= 16,
            size % 16 == 0,
            list.total >= old(list).total,
            roomy ==> list.total == old(list).total && has_run(list.blocks@, x, 8192),
            is_wired(*old(list), *old(mem), *vmm) ==> is_wired(*list, *mem, *vmm),
            is_kernel_space(*old(mem), *vmm),
            is_data_kept(*old(mem), *mem, *vmm),
            are_others_kept(*old(mem), *mem, *vmm, old(list).top()),
            list.top() >= old(list).top(),
        decreases 16384 - size,
    {
        proof {
            if roomy {
                lemma_run_fits(list.blocks@, list.top(), x, 8192, size as int);
            }
        }
        let ghost m1 = *mem;
        let ghost top = list.top();
        let one: Result<bool, MapError> = try_one(list, mem, vmm, size, 4);
        proof {
            lemma_data_on(*old(mem), m1, *mem, *vmm);
            lemma_others_on(*old(mem), m1, *mem, *vmm, old(list).top(), top);
        }
        if !one? {
            return Ok(HeapTest::OutOfMemory);
        }
        size = size * 2;
    }
    let grown_before: u64 = heap_size(list);
    assert(roomy ==> grown_before == old(list).total);
    let mut loans: Vec<u64> = Vec::new();
    let mut n: u64 = 0;
    while n < 300
        invariant
            n <= 300,
            n == loans@.len(),
            list.wf(),
            mem.wf(),
            is_kernel_space(*mem, *vmm),
            list.allocated == before + 512 * n,
            are_out(*list, loans@, 0),
            list.total >= grown_before,
            grown_before >= old(list).total,
            is_wired(*old(list), *old(mem), *vmm) ==> is_wired(*list, *mem, *vmm),
            is_kernel_space(*old(mem), *vmm),
            is_data_kept(*old(mem), *mem, *vmm),
            are_others_kept(*old(mem), *mem, *vmm, old(list).top()),
            list.top() >= old(list).top(),
        decreases 300 - n,
    {
        let ghost l0 = *list;
        let ghost m1 = *mem;
        let ghost top = list.top();
        let loan: Result<Option<u64>, MapError> = hand_out(list, mem, vmm, 512, 1);
        proof {
            lemma_data_on(*old(mem), m1, *mem, *vmm);
            lemma_others_on(*old(mem), m1, *mem, *vmm, old(list).top(), top);
        }
        match loan? {
            Some(addr) => {
                proof {
                    lemma_one_out(l0, *list, loans@, addr);
                }
                loans.push(addr);
            },
            None => {
                return Ok(HeapTest::OutOfMemory);
            },
        }
        n += 1;
    }
    let ghost apart = forall|i: int, j: int|
        0 <= i < j < 300 ==> #[trigger] loans@[i] + 512 <= #[trigger] loans@[j] || loans@[j] + 512
            <= loans@[i];
    proof {
        lemma_free_bytes_nonnegative(list.blocks@);
        assert(apart);
    }
    let mut i: usize = 0;
    while i < 300
        invariant
            i <= 300,
            loans@.len() == 300,
            list.wf(),
            mem.wf(),
            is_kernel_space(*mem, *vmm),
            list.total >= before + 300 * 512,
            is_wired(*old(list), *old(mem), *vmm) ==> is_wired(*list, *mem, *vmm),
            is_kernel_space(*old(mem), *vmm),
            is_data_kept(*old(mem), *mem, *vmm),
            are_others_kept(*old(mem), *mem, *vmm, old(list).top()),
            list.top() >= old(list).top(),
            list.allocated == before + 512 * (300 - i),
            are_out(*list, loans@, i as int),
            are_back(*list, loans@, i as int),
            apart == (forall|i: int, j: int|
                0 <= i < j < 300 ==> #[trigger] loans@[i] + 512 <= #[trigger] loans@[j] || loans@[j]
                    + 512 <= loans@[i]),
            list.total >= grown_before,
            grown_before >= old(list).total,
        decreases 300 - i,
    {
        let ghost l0 = *list;
        let addr: u64 = loans[i];
        take_back(list, addr, 512);
        proof {
            assert forall|k: int| i + 1 <= k < loans@.len() implies {
                &&& HEAP_START <= #[trigger] loans@[k]
                &&& loans@[k] + 512 <= list.top()
                &&& loans@[k] % 8 == 0
                &&& none_free(list.blocks@, loans@[k] as int, loans@[k] + 512)
            } by {
                assert(loans@[i as int] + 512 <= loans@[k] || loans@[k] + 512 <= loans@[i as int]);
                assert forall|x: int| loans@[k] <= x < loans@[k] + 512 implies !(
                #[trigger] is_free(list.blocks@, x)) by {
                    assert(!is_free(l0.blocks@, x));
                }
            }
        }
        i += 1;
    }
    let grew: bool = heap_size(list) > grown_before;
    let after: u64 = allocated_bytes(list);
    if after != before {
        return Ok(HeapTest::Leaked { before, after });
    }
    Ok(HeapTest::Passed { grew, allocated: after })
}

/// The heap grows by what is asked for, in pages, and by 64 KiB at least, as long as there is
/// room for it.
pub proof fn law_growth(top: int, min_extra: int)
    requires
        0 <= min_extra,
        top <= HEAP_END,
    ensures
        growth(top, min_extra) <= HEAP_END - top,
        growth(top, min_extra) < HEAP_END - top ==> growth(top, min_extra) >= min_extra && growth(
            top,
            min_extra,
        ) >= 0x1_0000 && growth(top, min_extra) % 4096 == 0 && (growth(top, min_extra) == 0x1_0000
            || growth(top, min_extra) < min_extra + 4096),
        min_extra + 4095 < HEAP_END - top && 0x1_0000 <= HEAP_END - top ==> growth(top, min_extra)
            >= min_extra,
{
    let a = aligned_up(min_extra, 4096);
    assert(a >= min_extra && a < min_extra + 4096 && a % 4096 == 0);
}

} // verus!
