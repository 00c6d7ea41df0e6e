//! Backing ranges of the kernel's address space with frames, page by page.

use vstd::prelude::*;
use super::data::{
    are_new_frames, gives_back, is_data_kept, keeps_data, lemma_data_same, lemma_data_step,
    lemma_data_twice, lemma_gives_none, lemma_gives_one,
};
use crate::pmm::{alloc_frame, free_frame, is_used, page_down, PhysicalMemory, PAGE_SIZE};
use super::layout::lemma_frame_itself;
use super::space::lemma_space_kept;
use super::regions::{
    keeps_regions, keeps_regions_apart, lemma_apart_none, lemma_apart_one, lemma_regions_mapped,
    lemma_regions_same, lemma_regions_twice,
};
use super::{
    adds_tables, adds_way, cannot_map, huge_at, in_memory, is_clear, is_in_1g, is_kernel_space,
    is_mapped_page, is_space, leaf_at, leaf_of, lemma_apart, lemma_same_page_way, lemma_same_way,
    lemma_takes_only, lemma_uc_leaf, map_outcome, map_page, missing_tables, same_way, table_at,
    takes_only, translate, unmap_needs_frame, unmap_page, walked, MapError, Vmm, ADDR_MASK,
    KERNEL_RW, PHYS_LIMIT,
};

verus! {

/// Start of the half of the address space that belongs to the kernel.
pub const KERNEL_HALF: u64 = 0xffff_8000_0000_0000;

/// Whether no page table stands in the frame of a physical address.
#[verifier::opaque]
pub open spec fn is_plain(m: Seq<u8>, root: u64, p: int) -> bool {
    forall|v: u64, k: int|
        0 <= k <= 3 ==> ((#[trigger] table_at(m, root, v, k)) matches Some(t) ==> t != page_down(p))
}

/// A frame in use that holds no page table goes on holding none when tables are
/// added in free frames.
pub proof fn lemma_stays_plain(a: PhysicalMemory, b: PhysicalMemory, root: u64, p: int)
    requires
        is_plain(a.bytes@, root, p),
        adds_tables(a, b, root),
        p >= 0,
        is_used(a.pmm->0.bitmap@, p / 4096),
    ensures
        is_plain(b.bytes@, root, p),
{
    reveal(is_plain);
    reveal(adds_tables);
    assert forall|v: u64, k: int| 0 <= k <= 3 implies ((#[trigger] table_at(
        b.bytes@,
        root,
        v,
        k,
    )) matches Some(t) ==> t != page_down(p)) by {
        if let Some(t) = table_at(b.bytes@, root, v, k) {
            if t == page_down(p) {
                assert(t as int / 4096 == p / 4096);
                assert(table_at(a.bytes@, root, v, k) == Some(t));
            }
        }
    }
}

/// A frame that was free holds no page table.
pub proof fn lemma_fresh_plain(a: PhysicalMemory, root: u64, phys: u64)
    requires
        is_space(a, root),
        phys % 4096 == 0,
        !is_used(a.pmm->0.bitmap@, phys as int / 4096),
    ensures
        is_plain(a.bytes@, root, phys as int),
{
    reveal(is_plain);
    assert forall|v: u64, k: int| 0 <= k <= 3 implies ((#[trigger] table_at(
        a.bytes@,
        root,
        v,
        k,
    )) matches Some(t) ==> t != page_down(phys as int)) by {
        if let Some(t) = table_at(a.bytes@, root, v, k) {
            assert(is_used(a.pmm->0.bitmap@, t as int / 4096));
        }
    }
}

/// Whether the page of `v` is mapped for the kernel to read and write, and for nothing
/// else, to the frame of `p`.
pub open spec fn is_data_page(m: Seq<u8>, root: u64, v: u64, p: u64) -> bool {
    leaf_at(m, root, v) == Some(leaf_of(page_down(p as int) as u64, KERNEL_RW))
}

/// Whether the pages from `from` to `to` are mapped for reading and writing, each to
/// a frame of its own that is handed out and holds no page table.
#[verifier::opaque]
pub open spec fn is_region(mem: PhysicalMemory, root: u64, from: int, to: int) -> bool {
    &&& forall|v: u64|
        from <= v < to ==> {
            &&& (#[trigger] walked(mem.bytes@, root, v)) matches Some(p)
            &&& p < mem.bytes@.len()
            &&& p as int % 4096 == v as int % 4096
            &&& is_used(mem.pmm->0.bitmap@, p as int / 4096)
            &&& is_plain(mem.bytes@, root, p as int)
            &&& is_data_page(mem.bytes@, root, v, p)
        }
    &&& forall|v: u64, w: u64|
        from <= v < to && from <= w < to && (#[trigger] walked(mem.bytes@, root, v))->0 as int / 4096
            == (#[trigger] walked(mem.bytes@, root, w))->0 as int / 4096 ==> v as int / 4096
            == w as int / 4096
}

/// Whether the kernel's half is mapped as before outside a range.
#[verifier::opaque]
pub open spec fn is_same_outside(
    before: PhysicalMemory,
    after: PhysicalMemory,
    root: u64,
    from: int,
    to: int,
) -> bool {
    forall|v: u64|
        v >= KERNEL_HALF && !(from <= v < to) ==> #[trigger] walked(after.bytes@, root, v)
            == walked(before.bytes@, root, v)
}

/// Whether the pages from `from` to `to` are backed in `after`, and the rest of
/// the kernel's half is mapped as in `before`. Before there are page tables of
/// the kernel's own, nothing is.
pub open spec fn is_backed(
    before: PhysicalMemory,
    after: PhysicalMemory,
    vmm: Option<Vmm>,
    from: int,
    to: int,
) -> bool {
    vmm matches Some(k) ==> is_region(after, k.pml4_phys, from, to) && is_same_outside(
        before,
        after,
        k.pml4_phys,
        from,
        to,
    )
}

/// Whether there is no frame to be had.
pub open spec fn is_out_of_frames(mem: PhysicalMemory) -> bool {
    mem.pmm matches Some(p) ==> p.free_frames == 0
}

/// Whether the pages of a range share one page table.
pub open spec fn is_in_one_table(start: int, bytes: int) -> bool {
    start / 0x20_0000 == (start + bytes - 1) / 0x20_0000
}

/// What backing the pages of a range that share one page table comes to: the bytes
/// that there are frames for, each page taking one, and the first those of the
/// tables that are missing too. There is an error where the first page cannot be
/// mapped.
pub open spec fn backing(mem: PhysicalMemory, root: u64, start: u64, bytes: u64) -> Result<
    int,
    MapError,
> {
    let free = mem.pmm->0.free_frames;
    let missing = missing_tables(mem.bytes@, root, start);
    if free == 0 {
        Ok(0)
    } else if !is_clear(mem.bytes@, root, start) {
        Err(MapError::HugePage)
    } else if free - 1 < missing {
        Err(MapError::OutOfMemory)
    } else if (free - missing) * PAGE_SIZE < bytes {
        Ok((free - missing) * PAGE_SIZE)
    } else {
        Ok(bytes as int)
    }
}

/// The frames that backing so many bytes of a range takes: one for each page, and
/// those of the tables that are missing.
pub open spec fn frames_taken(mem: PhysicalMemory, root: u64, start: u64, bytes: int) -> int {
    if bytes == 0 {
        0
    } else {
        bytes / 4096 + missing_tables(mem.bytes@, root, start)
    }
}

/// Whether backing a range of pages that share one page table has done what it
/// should, as far as frames go.
pub open spec fn is_backing(
    before: PhysicalMemory,
    after: PhysicalMemory,
    root: u64,
    start: u64,
    bytes: u64,
    r: Result<u64, MapError>,
) -> bool {
    &&& match backing(before, root, start, bytes) {
        Ok(n) => r matches Ok(x) && x == n,
        Err(e) => r == Err::<u64, MapError>(e),
    }
    &&& r matches Ok(n) ==> after.pmm->0.free_frames == before.pmm->0.free_frames - frames_taken(
        before,
        root,
        start,
        n as int,
    )
}

/// The state of backing a range of pages that share one page table, `mapped` bytes of
/// which are done.
#[verifier::opaque]
spec fn keeps_count(
    m0: PhysicalMemory,
    m: PhysicalMemory,
    vmm: Option<Vmm>,
    start: u64,
    bytes: u64,
    mapped: u64,
) -> bool {
    vmm matches Some(k) ==> is_in_one_table(start as int, bytes as int) ==> {
        &&& mapped == 0 ==> m == m0
        &&& m.pmm->0.free_frames == m0.pmm->0.free_frames - frames_taken(
            m0,
            k.pml4_phys,
            start,
            mapped as int,
        )
        &&& mapped > 0 ==> is_clear(m0.bytes@, k.pml4_phys, start) && !huge_at(
            m.bytes@,
            k.pml4_phys,
            start,
            0,
        )
    }
}

/// Where one page of a range that shares one page table is mapped, no table is
/// missing for another.
proof fn lemma_table_there(m: Seq<u8>, root: u64, start: u64, bytes: u64, v: u64)
    requires
        start + bytes <= u64::MAX,
        is_in_one_table(start as int, bytes as int),
        start <= v < start + bytes,
        table_at(m, root, start, 3) is Some,
        !huge_at(m, root, start, 0),
    ensures
        missing_tables(m, root, v) == 0,
        is_clear(m, root, v),
{
    assert(start as int / 0x20_0000 == v as int / 0x20_0000);
    assert(start as int / 0x4000_0000 == start as int / 0x20_0000 / 512);
    assert(v as int / 0x4000_0000 == v as int / 0x20_0000 / 512);
    assert(start as int / 0x80_0000_0000 == start as int / 0x20_0000 / 0x4_0000);
    assert(v as int / 0x80_0000_0000 == v as int / 0x20_0000 / 0x4_0000);
    assert(same_way(v, start, 3));
    lemma_same_way(m, root, v, start, 3);
    reveal_with_fuel(table_at, 4);
}

/// Mapping a page puts no huge page at the top of a way.
proof fn lemma_top_clear(
    a: PhysicalMemory,
    b: PhysicalMemory,
    root: u64,
    virt: u64,
    leaf: u64,
    v: u64,
)
    requires
        is_mapped_page(a, b, root, virt, leaf),
        !huge_at(a.bytes@, root, v, 0),
    ensures
        !huge_at(b.bytes@, root, v, 0),
{
    reveal(adds_way);
}

/// What mapping the next page comes to: only the first can fail.
proof fn lemma_count_on(
    m0: PhysicalMemory,
    m1: PhysicalMemory,
    m2: PhysicalMemory,
    vmm: Option<Vmm>,
    start: u64,
    bytes: u64,
    mapped: u64,
    phys: u64,
)
    requires
        vmm is Some,
        start + bytes <= u64::MAX,
        mapped < bytes,
        keeps_count(m0, m1, vmm, start, bytes, mapped),
        is_region(m1, vmm->0.pml4_phys, start as int, start + mapped),
        m2.bytes == m1.bytes,
        m1.pmm->0.gave_one(m2.pmm->0, phys),
        m1.pmm->0.free_frames > 0,
    ensures
        is_in_one_table(start as int, bytes as int) ==> {
            let root = vmm->0.pml4_phys;
            let virt = (start + mapped) as u64;
            let r = map_outcome(m2, root, virt);
            &&& r is Err ==> backing(m0, root, start, bytes) == Err::<int, MapError>(r->Err_0)
            &&& missing_tables(m2.bytes@, root, virt) == if mapped == 0 {
                missing_tables(m0.bytes@, root, start)
            } else {
                0
            }
        },
{
    reveal(keeps_count);
    let root = vmm->0.pml4_phys;
    if mapped > 0 && is_in_one_table(start as int, bytes as int) {
        reveal(is_region);
        assert(walked(m1.bytes@, root, start) is Some);
        lemma_table_there(m1.bytes@, root, start, bytes, (start + mapped) as u64);
    }
}

/// The state after the next page was mapped.
proof fn lemma_counted(
    m0: PhysicalMemory,
    m1: PhysicalMemory,
    m2: PhysicalMemory,
    m3: PhysicalMemory,
    k: Vmm,
    start: u64,
    bytes: u64,
    mapped: u64,
    phys: u64,
)
    requires
        start + bytes <= u64::MAX,
        mapped + 4096 <= bytes,
        mapped % 4096 == 0,
        keeps_count(m0, m1, Some(k), start, bytes, mapped),
        is_region(m1, k.pml4_phys, start as int, start + mapped),
        m2.bytes == m1.bytes,
        m1.pmm->0.gave_one(m2.pmm->0, phys),
        m1.pmm->0.free_frames > 0,
        map_outcome(m2, k.pml4_phys, (start + mapped) as u64) is Ok,
        is_mapped_page(
            m2,
            m3,
            k.pml4_phys,
            (start + mapped) as u64,
            leaf_of(phys, KERNEL_RW),
        ),
    ensures
        keeps_count(m0, m3, Some(k), start, bytes, (mapped + 4096) as u64),
{
    lemma_count_on(m0, m1, m2, Some(k), start, bytes, mapped, phys);
    reveal(keeps_count);
    if is_in_one_table(start as int, bytes as int) {
        let virt = (start + mapped) as u64;
        lemma_top_clear(m2, m3, k.pml4_phys, virt, leaf_of(phys, KERNEL_RW), start);
    }
}

pub proof fn lemma_nothing_backed(mem: PhysicalMemory, vmm: Option<Vmm>, at: int)
    ensures
        is_backed(mem, mem, vmm, at, at),
{
    reveal(is_region);
    reveal(is_same_outside);
}

/// What mapping the page at `virt` to the frame at `phys` does, as far as
/// backing a range goes.
pub open spec fn is_page_mapped(
    before: PhysicalMemory,
    after: PhysicalMemory,
    root: u64,
    virt: u64,
    phys: u64,
) -> bool {
    &&& after.bytes@.len() == before.bytes@.len()
    &&& takes_only(before.pmm->0, after.pmm->0)
    &&& adds_tables(before, after, root)
    &&& forall|v: u64|
        !same_way(v, virt, 4) ==> #[trigger] walked(after.bytes@, root, v) == walked(
            before.bytes@,
            root,
            v,
        )
    &&& forall|v: u64|
        same_way(v, virt, 4) ==> #[trigger] walked(after.bytes@, root, v) == Some(
            (phys + v % 4096) as u64,
        )
    &&& forall|v: u64|
        same_way(v, virt, 4) || leaf_at(before.bytes@, root, v) is Some ==> #[trigger] leaf_at(
            after.bytes@,
            root,
            v,
        ) == if same_way(v, virt, 4) {
            Some(leaf_of(phys, KERNEL_RW))
        } else {
            leaf_at(before.bytes@, root, v)
        }
}

proof fn lemma_page_mapped(m2: PhysicalMemory, m3: PhysicalMemory, root: u64, virt: u64, phys: u64)
    requires
        phys % 4096 == 0,
        phys < PHYS_LIMIT,
        is_mapped_page(m2, m3, root, virt, leaf_of(phys, KERNEL_RW)),
    ensures
        is_page_mapped(m2, m3, root, virt, phys),
{
    lemma_uc_leaf(phys);
    lemma_frame_itself(phys);
    assert(leaf_of(phys, KERNEL_RW) & ADDR_MASK == phys);
    assert forall|v: u64|
        same_way(v, virt, 4) || leaf_at(m2.bytes@, root, v) is Some implies #[trigger] leaf_at(
        m3.bytes@,
        root,
        v,
    ) == if same_way(v, virt, 4) {
        Some(leaf_of(phys, KERNEL_RW))
    } else {
        leaf_at(m2.bytes@, root, v)
    } by {
        if same_way(v, virt, 4) {
            lemma_same_way(m3.bytes@, root, v, virt, 3);
        }
    }
}

/// Backing one more page: a frame was handed out, then mapped.
#[verifier::spinoff_prover]
#[verifier::rlimit(40)]
proof fn lemma_page_backed(
    m0: PhysicalMemory,
    m1: PhysicalMemory,
    m2: PhysicalMemory,
    m3: PhysicalMemory,
    root: u64,
    start: u64,
    mapped: u64,
    phys: u64,
)
    requires
        KERNEL_HALF <= start,
        start + mapped + 4096 <= u64::MAX,
        start % 4096 == 0,
        mapped % 4096 == 0,
        m1.wf(),
        m1.pmm is Some,
        m1.pmm->0.gave_one(m2.pmm->0, phys),
        m2.bytes == m1.bytes,
        m2.wf(),
        m2.pmm is Some,
        m1.bytes@.len() <= PHYS_LIMIT,
        is_plain(m1.bytes@, root, phys as int),
        is_region(m1, root, start as int, start + mapped),
        is_same_outside(m0, m1, root, start as int, start + mapped),
        is_page_mapped(m2, m3, root, (start + mapped) as u64, phys),
    ensures
        is_region(m3, root, start as int, start + mapped + 4096),
        is_same_outside(m0, m3, root, start as int, start + mapped + 4096),
{
    reveal(is_region);
    reveal(is_same_outside);
    let virt = (start + mapped) as u64;
    let b = m3.bytes@;
    lemma_takes_only(m1.pmm->0, m2.pmm->0, phys);
    assert(phys + 4096 <= b.len()) by {
        assert(phys as int / 4096 < m1.pmm->0.total_frames);
    }
    assert(is_used(m2.pmm->0.bitmap@, phys as int / 4096));
    assert(is_used(m3.pmm->0.bitmap@, phys as int / 4096));
    lemma_stays_plain(m2, m3, root, phys as int);
    assert forall|v: u64| start <= v < start + mapped + 4096 implies {
        &&& (#[trigger] walked(b, root, v)) matches Some(p)
        &&& p < b.len()
        &&& p as int % 4096 == v as int % 4096
        &&& is_used(m3.pmm->0.bitmap@, p as int / 4096)
        &&& is_plain(b, root, p as int)
        &&& is_data_page(b, root, v, p)
        &&& v < virt ==> walked(m1.bytes@, root, v) == Some(p)
        &&& v >= virt ==> p as int / 4096 == phys as int / 4096
    } by {
        if v < virt {
            lemma_apart(v, virt);
            let p = walked(m1.bytes@, root, v)->0;
            assert(leaf_at(b, root, v) is Some);
            assert(is_used(m1.pmm->0.bitmap@, p as int / 4096));
            assert(is_used(m2.pmm->0.bitmap@, p as int / 4096));
            lemma_stays_plain(m2, m3, root, p as int);
        } else {
            lemma_same_page_way(v, virt);
            assert(leaf_at(b, root, v) is Some);
            let p = (phys + v % 4096) as u64;
            assert(page_down(p as int) == phys);
            assert(p as int / 4096 == phys as int / 4096);
            assert(is_plain(b, root, p as int)) by {
                reveal(is_plain);
            }
        }
    }
    assert forall|v: u64, w: u64|
        start <= v < start + mapped + 4096 && start <= w < start + mapped + 4096 && (
        #[trigger] walked(b, root, v))->0 as int / 4096 == (#[trigger] walked(b, root, w))->0 as int
            / 4096 implies v as int / 4096 == w as int / 4096 by {
        if v < virt && w < virt {
            assert(walked(m1.bytes@, root, v)->0 as int / 4096 == walked(m1.bytes@, root, w)->0 as int
                / 4096);
        } else if v < virt {
            assert(is_used(m1.pmm->0.bitmap@, walked(m1.bytes@, root, v)->0 as int / 4096));
        } else if w < virt {
            assert(is_used(m1.pmm->0.bitmap@, walked(m1.bytes@, root, w)->0 as int / 4096));
        }
    }
    assert forall|v: u64|
        v >= KERNEL_HALF && !(start <= v < start + mapped + 4096) implies #[trigger] walked(
        b,
        root,
        v,
    ) == walked(m0.bytes@, root, v) by {
        lemma_apart(v, virt);
        assert(walked(m1.bytes@, root, v) == walked(m0.bytes@, root, v));
    }
}

/// Whether every region that ended at `start` is there, and reaches `n` bytes further.
#[verifier::opaque]
pub open spec fn extends_regions(
    before: PhysicalMemory,
    after: PhysicalMemory,
    root: u64,
    start: u64,
    n: int,
) -> bool {
    forall|from: u64|
        KERNEL_HALF <= from <= start && from % 4096 == 0 && #[trigger] is_region(
            before,
            root,
            from as int,
            start as int,
        ) ==> is_region(after, root, from as int, start + n)
}

/// A frame that is handed out is none of a region's.
pub proof fn lemma_region_taken(a: PhysicalMemory, b: PhysicalMemory, root: u64, from: int, to: int)
    requires
        a.wf(),
        a.pmm is Some,
        is_region(a, root, from, to),
        b.bytes == a.bytes,
        takes_only(a.pmm->0, b.pmm->0),
    ensures
        is_region(b, root, from, to),
{
    reveal(is_region);
    assert forall|v: u64| from <= v < to implies {
        &&& (#[trigger] walked(b.bytes@, root, v)) matches Some(p)
        &&& p < b.bytes@.len()
        &&& p as int % 4096 == v as int % 4096
        &&& is_used(b.pmm->0.bitmap@, p as int / 4096)
        &&& is_plain(b.bytes@, root, p as int)
        &&& is_data_page(b.bytes@, root, v, p)
    } by {
        let p = walked(a.bytes@, root, v)->0;
        assert(is_used(a.pmm->0.bitmap@, p as int / 4096));
        assert(p as int / 4096 < a.pmm->0.total_frames);
    }
}

/// What is part of a region is one.
proof fn lemma_region_part(mem: PhysicalMemory, root: u64, from: int, mid: int, to: int)
    requires
        is_region(mem, root, from, to),
        mid <= to,
    ensures
        is_region(mem, root, from, mid),
{
    reveal(is_region);
}

/// Backing one more page extends regions by it.
proof fn lemma_regions_on(
    m0: PhysicalMemory,
    m1: PhysicalMemory,
    m2: PhysicalMemory,
    m3: PhysicalMemory,
    root: u64,
    start: u64,
    mapped: u64,
    phys: u64,
)
    requires
        extends_regions(m0, m1, root, start, mapped as int),
        KERNEL_HALF <= start,
        start + mapped + 4096 <= u64::MAX,
        start % 4096 == 0,
        mapped % 4096 == 0,
        m1.wf(),
        m1.pmm is Some,
        m1.pmm->0.gave_one(m2.pmm->0, phys),
        m2.bytes == m1.bytes,
        m2.wf(),
        m2.pmm is Some,
        m1.bytes@.len() <= PHYS_LIMIT,
        is_plain(m1.bytes@, root, phys as int),
        is_page_mapped(m2, m3, root, (start + mapped) as u64, phys),
    ensures
        extends_regions(m0, m3, root, start, mapped + 4096),
{
    reveal(extends_regions);
    assert forall|from: u64|
        KERNEL_HALF <= from <= start && from % 4096 == 0 && #[trigger] is_region(
            m0,
            root,
            from as int,
            start as int,
        ) implies is_region(m3, root, from as int, start + mapped + 4096) by {
        let more = (start - from + mapped) as u64;
        assert(from + more == start + mapped);
        assert(is_same_outside(m1, m1, root, from as int, from + more)) by {
            reveal(is_same_outside);
        }
        lemma_page_backed(m1, m1, m2, m3, root, from, more, phys);
    }
}

/// Where a page was not mapped, regions are as they were, but for one frame more that is
/// handed out.
proof fn lemma_regions_stay(
    m0: PhysicalMemory,
    m1: PhysicalMemory,
    m2: PhysicalMemory,
    root: u64,
    start: u64,
    mapped: u64,
)
    requires
        extends_regions(m0, m1, root, start, mapped as int),
        m1.wf(),
        m1.pmm is Some,
        m2.bytes == m1.bytes,
        takes_only(m1.pmm->0, m2.pmm->0),
    ensures
        extends_regions(m0, m2, root, start, 0),
{
    reveal(extends_regions);
    assert forall|from: u64|
        KERNEL_HALF <= from <= start && from % 4096 == 0 && #[trigger] is_region(
            m0,
            root,
            from as int,
            start as int,
        ) implies is_region(m2, root, from as int, start as int) by {
        lemma_region_taken(m1, m2, root, from as int, start + mapped);
        lemma_region_part(m2, root, from as int, start as int, start + mapped);
    }
}

/// One page more is mapped to a frame that was free.
#[verifier::spinoff_prover]
proof fn lemma_new_frame(
    m0: PhysicalMemory,
    m1: PhysicalMemory,
    m2: PhysicalMemory,
    m3: PhysicalMemory,
    root: u64,
    start: u64,
    mapped: u64,
    phys: u64,
)
    requires
        KERNEL_HALF <= start,
        start + mapped + 4096 <= u64::MAX,
        start % 4096 == 0,
        mapped % 4096 == 0,
        m1.wf(),
        m1.pmm is Some,
        keeps_data(m0, m1, root),
        m1.pmm->0.gave_one(m2.pmm->0, phys),
        m2.bytes == m1.bytes,
        m1.bytes@.len() <= PHYS_LIMIT,
        are_new_frames(m0, m1, root, start as int, start + mapped),
        is_page_mapped(m2, m3, root, (start + mapped) as u64, phys),
    ensures
        are_new_frames(m0, m3, root, start as int, start + mapped + 4096),
{
    reveal(keeps_data);
    reveal(are_new_frames);
    let virt = (start + mapped) as u64;
    assert(!is_used(m0.pmm->0.bitmap@, phys as int / 4096));
    assert(walked(m3.bytes@, root, virt) == Some(phys)) by {
        assert(same_way(virt, virt, 4));
    }
    assert forall|v: u64| start <= v < start + mapped + 4096 && v % 4096 == 0 implies ((
    #[trigger] walked(m3.bytes@, root, v)) matches Some(p) ==> !is_used(
        m0.pmm->0.bitmap@,
        p as int / 4096,
    )) by {
        if v != virt {
            lemma_apart(v, virt);
            assert(walked(m3.bytes@, root, v) == walked(m1.bytes@, root, v));
        }
    }
}

/// What backing a range of pages leaves alone, `mapped` bytes of which are done.
#[verifier::opaque]
spec fn is_under_way(
    m0: PhysicalMemory,
    m: PhysicalMemory,
    root: u64,
    start: u64,
    bytes: u64,
    mapped: u64,
) -> bool {
    &&& keeps_data(m0, m, root)
    &&& keeps_regions(m0, m, root, start as int, start + bytes)
    &&& are_new_frames(m0, m, root, start as int, start + mapped)
}

proof fn lemma_under_way(m: PhysicalMemory, root: u64, start: u64, bytes: u64)
    requires
        is_space(m, root),
    ensures
        is_under_way(m, m, root, start, bytes, 0),
{
    reveal(is_under_way);
    reveal(are_new_frames);
    lemma_data_same(m, m, root);
    lemma_regions_same(m, m, root, start as int, start + bytes);
}

/// A frame more was handed out.
proof fn lemma_way_taken(
    m0: PhysicalMemory,
    m1: PhysicalMemory,
    m2: PhysicalMemory,
    root: u64,
    start: u64,
    bytes: u64,
    mapped: u64,
)
    requires
        is_under_way(m0, m1, root, start, bytes, mapped),
        m0.wf(),
        m0.pmm is Some,
        m1.wf(),
        m1.pmm is Some,
        is_space(m2, root),
        m2.hhdm == m1.hhdm,
        m2.bytes == m1.bytes,
        takes_only(m1.pmm->0, m2.pmm->0),
    ensures
        keeps_data(m0, m2, root),
        keeps_regions(m0, m2, root, start as int, start + bytes),
{
    reveal(is_under_way);
    lemma_data_same(m1, m2, root);
    lemma_data_twice(m0, m1, m2, root);
    lemma_regions_same(m1, m2, root, start as int, start + bytes);
    lemma_regions_twice(m0, m1, m2, root, start as int, start + bytes);
}

/// A page more was mapped.
proof fn lemma_way_on(
    m0: PhysicalMemory,
    m1: PhysicalMemory,
    m2: PhysicalMemory,
    m3: PhysicalMemory,
    root: u64,
    start: u64,
    bytes: u64,
    mapped: u64,
    phys: u64,
)
    requires
        is_under_way(m0, m1, root, start, bytes, mapped),
        keeps_data(m0, m2, root),
        keeps_regions(m0, m2, root, start as int, start + bytes),
        m0.wf(),
        m0.pmm is Some,
        m1.wf(),
        m1.pmm is Some,
        is_space(m2, root),
        m1.pmm->0.gave_one(m2.pmm->0, phys),
        m2.bytes == m1.bytes,
        m1.bytes@.len() <= PHYS_LIMIT,
        is_mapped_page(m2, m3, root, (start + mapped) as u64, leaf_of(phys, KERNEL_RW)),
        is_page_mapped(m2, m3, root, (start + mapped) as u64, phys),
        KERNEL_HALF <= start,
        start + bytes <= u64::MAX,
        start % 4096 == 0,
        mapped % 4096 == 0,
        mapped + 4096 <= bytes,
    ensures
        is_under_way(m0, m3, root, start, bytes, (mapped + 4096) as u64),
{
    reveal(is_under_way);
    let virt = (start + mapped) as u64;
    lemma_data_step(m2, m3, root, virt);
    lemma_data_twice(m0, m2, m3, root);
    lemma_new_frame(m0, m1, m2, m3, root, start, mapped, phys);
    lemma_regions_mapped(m2, m3, root, virt, phys, start as int, start + bytes);
    lemma_regions_twice(m0, m2, m3, root, start as int, start + bytes);
}

/// Back the pages from `start` on with frames, until there are no more of them.
/// Returns how many bytes were backed.
pub fn back_pages(mem: &mut PhysicalMemory, vmm: &Option<Vmm>, start: u64, bytes: u64) -> (r:
    Result<u64, MapError>)
    requires
        is_kernel_space(*old(mem), *vmm),
        old(mem).wf(),
        KERNEL_HALF <= start,
        start + bytes <= u64::MAX,
        start % 4096 == 0,
        bytes % 4096 == 0,
    ensures
        is_kernel_space(*final(mem), *vmm),
        final(mem).wf(),
        r matches Ok(n) ==> {
            &&& n <= bytes
            &&& n % 4096 == 0
            &&& n < bytes ==> is_out_of_frames(*final(mem))
            &&& is_backed(*old(mem), *final(mem), *vmm, start as int, start + n)
        },
        r matches Err(e) ==> vmm is Some && cannot_map(
            *final(mem),
            vmm->0.pml4_phys,
            start as int,
            start + bytes,
            e,
        ),
        final(mem).hhdm == old(mem).hhdm,
        vmm matches Some(k) ==> extends_regions(
            *old(mem),
            *final(mem),
            k.pml4_phys,
            start,
            match r {
                Ok(n) => n as int,
                Err(_) => 0,
            },
        ),
        vmm matches Some(k) ==> bytes > 0 && is_in_one_table(start as int, bytes as int)
            ==> is_backing(*old(mem), *final(mem), k.pml4_phys, start, bytes, r),
        is_data_kept(*old(mem), *final(mem), *vmm),
        vmm matches Some(k) ==> keeps_regions(
            *old(mem),
            *final(mem),
            k.pml4_phys,
            start as int,
            start + bytes,
        ),
        vmm matches Some(k) ==> r matches Ok(n) ==> are_new_frames(
            *old(mem),
            *final(mem),
            k.pml4_phys,
            start as int,
            start + n,
        ),
{
    let ghost m0 = *mem;
    let mut mapped: u64 = 0;
    proof {
        lemma_nothing_backed(m0, *vmm, start as int);
        reveal(keeps_count);
        reveal(extends_regions);
        if let Some(k) = *vmm {
            lemma_under_way(m0, k.pml4_phys, start, bytes);
        }
    }
    while mapped < bytes
        invariant
            mem.hhdm == m0.hhdm,
            vmm matches Some(k) ==> extends_regions(
                m0,
                *mem,
                k.pml4_phys,
                start,
                mapped as int,
            ),
            mapped <= bytes,
            mapped % 4096 == 0,
            bytes % 4096 == 0,
            start % 4096 == 0,
            KERNEL_HALF <= start,
            start + bytes <= u64::MAX,
            is_kernel_space(*mem, *vmm),
            mem.wf(),
            is_backed(m0, *mem, *vmm, start as int, start + mapped),
            m0 == *old(mem),
            keeps_count(m0, *mem, *vmm, start, bytes, mapped),
            m0.wf(),
            vmm is Some ==> m0.pmm is Some,
            vmm is None ==> mem.bytes@ == m0.bytes@,
            vmm matches Some(k) ==> is_under_way(m0, *mem, k.pml4_phys, start, bytes, mapped),
        decreases bytes - mapped,
    {
        let ghost m1 = *mem;
        let phys: u64 = match alloc_frame(mem) {
            Some(phys) => phys,
            None => {
                assert(*mem == m1);
                proof {
                    reveal(keeps_count);
                    reveal(is_under_way);
                }
                return Ok(mapped);
            },
        };
        let ghost m2 = *mem;
        proof {
            if let Some(k) = *vmm {
                lemma_takes_only(m1.pmm->0, m2.pmm->0, phys);
                lemma_space_kept(m1, m2, k.pml4_phys);
            }
        }
        let virt: u64 = start + mapped;
        proof {
            if let Some(k) = *vmm {
                lemma_count_on(m0, m1, m2, *vmm, start, bytes, mapped, phys);
                lemma_regions_stay(m0, m1, m2, k.pml4_phys, start, mapped);
                lemma_way_taken(m0, m1, m2, k.pml4_phys, start, bytes, mapped);
            }
        }
        map_page(mem, vmm, virt, phys, KERNEL_RW)?;
        proof {
            if let Some(k) = *vmm {
                lemma_fresh_plain(m1, k.pml4_phys, phys);
                lemma_page_mapped(m2, *mem, k.pml4_phys, virt, phys);
                lemma_way_on(m0, m1, m2, *mem, k.pml4_phys, start, bytes, mapped, phys);
                lemma_counted(m0, m1, m2, *mem, k, start, bytes, mapped, phys);
                lemma_regions_on(m0, m1, m2, *mem, k.pml4_phys, start, mapped, phys);
                lemma_page_backed(m0, m1, m2, *mem, k.pml4_phys, start, mapped, phys);
            } else {
                reveal(keeps_count);
            }
        }
        mapped += PAGE_SIZE;
    }
    proof {
        reveal(keeps_count);
        reveal(is_under_way);
    }
    Ok(mapped)
}

/// Taking back one page of a region: it was unmapped, then its frame freed.
#[verifier::spinoff_prover]
#[verifier::rlimit(40)]
proof fn lemma_page_unbacked(
    m0: PhysicalMemory,
    m1: PhysicalMemory,
    m2: PhysicalMemory,
    m3: PhysicalMemory,
    root: u64,
    at: u64,
    from: u64,
    to: u64,
    phys: u64,
)
    requires
        KERNEL_HALF <= at,
        at <= from,
        from + 4096 <= to,
        at % 4096 == 0,
        from % 4096 == 0,
        is_space(m1, root),
        is_space(m2, root),
        is_region(m1, root, from as int, to as int),
        is_same_outside(m0, m1, root, at as int, to as int),
        walked(m1.bytes@, root, from) == Some(phys),
        forall|v: u64| #[trigger]
            walked(m2.bytes@, root, v) == if same_way(v, from, 4) {
                None
            } else {
                walked(m1.bytes@, root, v)
            },
        forall|v: u64| at <= v < from ==> #[trigger] walked(m1.bytes@, root, v) is None,
        adds_tables(m1, m2, root),
        takes_only(m1.pmm->0, m2.pmm->0),
        forall|v: u64, k: int|
            0 <= k <= 3 && table_at(m1.bytes@, root, v, k) is Some ==> #[trigger] table_at(
                m2.bytes@,
                root,
                v,
                k,
            ) == table_at(m1.bytes@, root, v, k),
        forall|v: u64|
            !same_way(v, from, 4) && leaf_at(m1.bytes@, root, v) is Some ==> #[trigger] leaf_at(
                m2.bytes@,
                root,
                v,
            ) == leaf_at(m1.bytes@, root, v),
        m2.bytes@.len() == m1.bytes@.len(),
        m3.bytes == m2.bytes,
        m3.wf(),
        m3.pmm is Some,
        m2.pmm->0.took_back(m3.pmm->0, phys, 1),
    ensures
        is_space(m3, root),
        is_region(m3, root, from + 4096, to as int),
        is_same_outside(m0, m3, root, at as int, to as int),
        forall|v: u64| at <= v < from + 4096 ==> #[trigger] walked(m3.bytes@, root, v) is None,
        m3.pmm->0.free_frames == m2.pmm->0.free_frames + 1,
{
    reveal(is_region);
    reveal(is_same_outside);
    let b = m3.bytes@;
    let n = phys as int / 4096;
    assert(phys % 4096 == 0);
    assert(is_used(m1.pmm->0.bitmap@, n));
    assert(n < m2.pmm->0.total_frames);
    assert(is_used(m2.pmm->0.bitmap@, n));
    assert forall|f: int| n <= f < n + 1 implies is_used(m2.pmm->0.bitmap@, f) by {}
    assert(m2.pmm->0.free_result(phys, 1) is Ok);
    lemma_stays_plain(m1, m2, root, phys as int);
    reveal(is_plain);
    assert forall|v: u64, k: int| 0 <= k <= 3 implies ((#[trigger] table_at(
        b,
        root,
        v,
        k,
    )) matches Some(t) ==> t as int / 4096 != n && is_used(m3.pmm->0.bitmap@, t as int / 4096)) by {
        if let Some(t) = table_at(b, root, v, k) {
            assert(in_memory(b, t));
            assert(is_used(m2.pmm->0.bitmap@, t as int / 4096));
            if t as int / 4096 == n {
                assert(t == page_down(phys as int));
            }
        }
    }
    assert forall|v: u64| from + 4096 <= v < to implies {
        &&& (#[trigger] walked(b, root, v)) matches Some(p)
        &&& p < b.len()
        &&& p as int % 4096 == v as int % 4096
        &&& is_used(m3.pmm->0.bitmap@, p as int / 4096)
        &&& is_plain(b, root, p as int)
        &&& is_data_page(b, root, v, p)
        &&& walked(m1.bytes@, root, v) == Some(p)
    } by {
        lemma_apart(v, from);
        let p = walked(m1.bytes@, root, v)->0;
        assert(walked(m2.bytes@, root, v) == Some(p));
        assert(is_used(m2.pmm->0.bitmap@, p as int / 4096));
        assert(walked(m1.bytes@, root, from)->0 as int / 4096 != p as int / 4096);
        lemma_stays_plain(m1, m2, root, p as int);
    }
    assert forall|v: u64| v >= KERNEL_HALF && !(at <= v < to) implies #[trigger] walked(b, root, v)
        == walked(m0.bytes@, root, v) by {
        lemma_apart(v, from);
        assert(walked(m2.bytes@, root, v) == walked(m1.bytes@, root, v));
        assert(walked(m1.bytes@, root, v) == walked(m0.bytes@, root, v));
    }
    assert forall|v: u64| at <= v < from + 4096 implies #[trigger] walked(b, root, v) is None by {
        if v >= from {
            lemma_same_page_way(v, from);
        }
        assert(walked(m2.bytes@, root, v) is None);
    }
}

/// A page that has a leaf entry is in no larger page.
proof fn lemma_small_page(m: Seq<u8>, root: u64, v: u64)
    requires
        table_at(m, root, v, 3) is Some,
    ensures
        !is_in_1g(m, root, v),
        !unmap_needs_frame(m, root, v),
{
    reveal_with_fuel(table_at, 4);
}

/// Unmap the pages of a region and take their frames back.
pub fn unback_pages(mem: &mut PhysicalMemory, vmm: &Option<Vmm>, start: u64, bytes: u64)
    requires
        is_kernel_space(*old(mem), *vmm),
        old(mem).wf(),
        KERNEL_HALF <= start,
        start + bytes <= u64::MAX,
        start % 4096 == 0,
        bytes % 4096 == 0,
        vmm matches Some(k) ==> is_region(*old(mem), k.pml4_phys, start as int, start + bytes),
    ensures
        is_kernel_space(*final(mem), *vmm),
        final(mem).wf(),
        vmm is None ==> *final(mem) == *old(mem),
        vmm matches Some(k) ==> {
            &&& forall|v: u64|
                start <= v < start + bytes ==> #[trigger] walked(
                    final(mem).bytes@,
                    k.pml4_phys,
                    v,
                ) is None
            &&& is_same_outside(
                *old(mem),
                *final(mem),
                k.pml4_phys,
                start as int,
                start + bytes,
            )
            &&& final(mem).pmm->0.free_frames == old(mem).pmm->0.free_frames + bytes / 4096
            &&& gives_back(*old(mem), *final(mem), k.pml4_phys, start as int, start + bytes)
            &&& keeps_regions_apart(
                *old(mem),
                *final(mem),
                k.pml4_phys,
                start as int,
                start + bytes,
            )
        },
{
    let ghost m0 = *mem;
    let root: u64 = match vmm {
        Some(k) => k.pml4_phys,
        None => {
            return;
        },
    };
    let mut done: u64 = 0;
    proof {
        reveal(is_same_outside);
        lemma_gives_none(m0, root, start as int);
        lemma_apart_none(m0, root, start as int, start + bytes);
    }
    while done < bytes
        invariant
            done <= bytes,
            done % 4096 == 0,
            bytes % 4096 == 0,
            start % 4096 == 0,
            KERNEL_HALF <= start,
            start + bytes <= u64::MAX,
            vmm matches Some(k) && k.pml4_phys == root,
            is_space(*mem, root),
            is_region(*mem, root, start + done, start + bytes),
            is_same_outside(m0, *mem, root, start as int, start + bytes),
            forall|v: u64|
                start <= v < start + done ==> #[trigger] walked(mem.bytes@, root, v) is None,
            mem.pmm->0.free_frames == m0.pmm->0.free_frames + done / 4096,
            m0 == *old(mem),
            m0.wf(),
            m0.pmm is Some,
            gives_back(m0, *mem, root, start as int, start + done),
            keeps_regions_apart(m0, *mem, root, start as int, start + bytes),
            forall|v: u64|
                start + done <= v < start + bytes ==> #[trigger] walked(mem.bytes@, root, v)
                    == walked(m0.bytes@, root, v),
        decreases bytes - done,
    {
        let virt: u64 = start + done;
        let ghost m1 = *mem;
        proof {
            reveal(is_region);
            assert(walked(m1.bytes@, root, virt) is Some);
            lemma_small_page(m1.bytes@, root, virt);
        }
        match translate(mem, vmm, virt) {
            Some(phys) => {
                let _ = unmap_page(mem, vmm, virt);
                let ghost m2 = *mem;
                let _ = free_frame(mem, phys);
                proof {
                    lemma_page_unbacked(
                        m0,
                        m1,
                        m2,
                        *mem,
                        root,
                        start,
                        virt,
                        (start + bytes) as u64,
                        phys,
                    );
                    lemma_gives_one(m0, m1, m2, *mem, root, start as int, virt, phys);
                    lemma_apart_one(
                        m0,
                        m1,
                        m2,
                        *mem,
                        root,
                        start as int,
                        start + bytes,
                        virt,
                        phys,
                    );
                    assert forall|v: u64| virt + 4096 <= v < start + bytes implies #[trigger] walked(
                        mem.bytes@,
                        root,
                        v,
                    ) == walked(m0.bytes@, root, v) by {
                        lemma_apart(v, virt);
                        assert(walked(m1.bytes@, root, v) == walked(m0.bytes@, root, v));
                    }
                }
            },
            None => {},
        }
        done += PAGE_SIZE;
    }
}

} // verus!
