//! Regions of the kernel's half beside one that is worked on.

use vstd::prelude::*;
use super::data::{are_new_frames, is_frame_of};
use super::region::{
    is_data_page, is_page_mapped, is_plain, is_region, is_same_outside, lemma_stays_plain,
    KERNEL_HALF,
};
use super::{adds_tables, is_space, leaf_at, lemma_apart, same_way, table_at, takes_only, walked};
use crate::pmm::trial::lemma_given;
use crate::pmm::{is_used, PhysicalMemory};

verus! {

/// Whether every region that lies outside a range is still one.
#[verifier::opaque]
pub open spec fn keeps_regions(
    before: PhysicalMemory,
    after: PhysicalMemory,
    root: u64,
    from: int,
    to: int,
) -> bool {
    forall|a: int, b: int|
        KERNEL_HALF <= a && (b <= from || to <= a) && #[trigger] is_region(before, root, a, b)
            ==> is_region(after, root, a, b)
}

/// Whether two ranges have no frame in common.
pub open spec fn share_no_frame(m: Seq<u8>, root: u64, a: int, b: int, from: int, to: int) -> bool {
    forall|v: u64|
        a <= v < b ==> ((#[trigger] walked(m, root, v)) matches Some(p) ==> !is_frame_of(
            m,
            root,
            from,
            to,
            p as int / 4096,
        ))
}

/// Whether every region that lies outside a range and shares no frame with it is still one.
#[verifier::opaque]
pub open spec fn keeps_regions_apart(
    before: PhysicalMemory,
    after: PhysicalMemory,
    root: u64,
    from: int,
    to: int,
) -> bool {
    forall|a: int, b: int|
        KERNEL_HALF <= a && (b <= from || to <= a) && share_no_frame(
            before.bytes@,
            root,
            a,
            b,
            from,
            to,
        ) && #[trigger] is_region(before, root, a, b) ==> is_region(after, root, a, b)
}

/// A region is one where its pages are mapped as before, to frames in use that hold no
/// table.
proof fn lemma_still_region(m0: PhysicalMemory, m: PhysicalMemory, root: u64, a: int, b: int)
    requires
        is_region(m0, root, a, b),
        m.bytes@.len() == m0.bytes@.len(),
        forall|v: u64|
            a <= v < b ==> {
                &&& #[trigger] walked(m.bytes@, root, v) == walked(m0.bytes@, root, v)
                &&& leaf_at(m.bytes@, root, v) == leaf_at(m0.bytes@, root, v)
                &&& walked(m0.bytes@, root, v) matches Some(p) ==> is_used(
                    m.pmm->0.bitmap@,
                    p as int / 4096,
                ) && is_plain(m.bytes@, root, p as int)
            },
    ensures
        is_region(m, root, a, b),
{
    reveal(is_region);
    assert forall|v: u64| a <= v < b implies {
        &&& (#[trigger] walked(m.bytes@, root, v)) matches Some(p)
        &&& p < m.bytes@.len()
        &&& p as int % 4096 == v as int % 4096
        &&& is_used(m.pmm->0.bitmap@, p as int / 4096)
        &&& is_plain(m.bytes@, root, p as int)
        &&& is_data_page(m.bytes@, root, v, p)
    } by {
        assert(walked(m0.bytes@, root, v) is Some);
    }
    assert forall|v: u64, w: u64|
        a <= v < b && a <= w < b && (#[trigger] walked(m.bytes@, root, v))->0 as int / 4096 == (
        #[trigger] walked(m.bytes@, root, w))->0 as int / 4096 implies v as int / 4096 == w as int
        / 4096 by {
        assert(walked(m0.bytes@, root, v)->0 as int / 4096 == walked(m0.bytes@, root, w)->0 as int
            / 4096);
    }
}

/// Handing out frames keeps all regions.
pub proof fn lemma_regions_same(
    a: PhysicalMemory,
    b: PhysicalMemory,
    root: u64,
    from: int,
    to: int,
)
    requires
        a.wf(),
        a.pmm is Some,
        b.bytes == a.bytes,
        takes_only(a.pmm->0, b.pmm->0),
    ensures
        keeps_regions(a, b, root, from, to),
{
    reveal(keeps_regions);
    assert forall|x: int, y: int| #[trigger] is_region(a, root, x, y) implies is_region(
        b,
        root,
        x,
        y,
    ) by {
        super::region::lemma_region_taken(a, b, root, x, y);
    }
}

/// Regions that are kept twice over are kept.
pub proof fn lemma_regions_twice(
    a: PhysicalMemory,
    b: PhysicalMemory,
    c: PhysicalMemory,
    root: u64,
    from: int,
    to: int,
)
    requires
        keeps_regions(a, b, root, from, to),
        keeps_regions(b, c, root, from, to),
    ensures
        keeps_regions(a, c, root, from, to),
{
    reveal(keeps_regions);
}

/// What is kept beside a range is kept beside a wider one.
pub proof fn lemma_regions_wider(
    a: PhysicalMemory,
    b: PhysicalMemory,
    root: u64,
    from: int,
    to: int,
    lower: int,
    upper: int,
)
    requires
        keeps_regions(a, b, root, from, to),
        lower <= from,
        to <= upper,
    ensures
        keeps_regions(a, b, root, lower, upper),
{
    reveal(keeps_regions);
}

/// Mapping a page of a range keeps the regions beside it.
#[verifier::spinoff_prover]
pub proof fn lemma_regions_mapped(
    a: PhysicalMemory,
    b: PhysicalMemory,
    root: u64,
    virt: u64,
    phys: u64,
    from: int,
    to: int,
)
    requires
        a.wf(),
        a.pmm is Some,
        is_page_mapped(a, b, root, virt, phys),
        KERNEL_HALF <= from <= virt,
        virt % 4096 == 0,
        virt + 4096 <= to,
    ensures
        keeps_regions(a, b, root, from, to),
{
    reveal(keeps_regions);
    assert forall|x: int, y: int|
        KERNEL_HALF <= x && (y <= from || to <= x) && #[trigger] is_region(a, root, x, y) implies is_region(
        b,
        root,
        x,
        y,
    ) by {
        assert forall|v: u64| x <= v < y implies {
            &&& #[trigger] walked(b.bytes@, root, v) == walked(a.bytes@, root, v)
            &&& leaf_at(b.bytes@, root, v) == leaf_at(a.bytes@, root, v)
            &&& walked(a.bytes@, root, v) matches Some(p) ==> is_used(
                b.pmm->0.bitmap@,
                p as int / 4096,
            ) && is_plain(b.bytes@, root, p as int)
        } by {
            reveal(is_region);
            lemma_apart(v, virt);
            assert(walked(a.bytes@, root, v) is Some);
            let p = walked(a.bytes@, root, v)->0;
            assert(is_used(a.pmm->0.bitmap@, p as int / 4096));
            assert(p as int / 4096 < a.pmm->0.total_frames);
            lemma_stays_plain(a, b, root, p as int);
            assert(leaf_at(a.bytes@, root, v) is Some);
        }
        lemma_still_region(a, b, root, x, y);
    }
}

pub proof fn lemma_apart_none(m: PhysicalMemory, root: u64, from: int, to: int)
    ensures
        keeps_regions_apart(m, m, root, from, to),
{
    reveal(keeps_regions_apart);
}

/// Unmapping a page of a range and taking its frame back keeps the regions beside it that
/// share no frame with it.
#[verifier::spinoff_prover]
pub proof fn lemma_apart_one(
    m0: PhysicalMemory,
    m1: PhysicalMemory,
    m2: PhysicalMemory,
    m3: PhysicalMemory,
    root: u64,
    from: int,
    to: int,
    virt: u64,
    phys: u64,
)
    requires
        keeps_regions_apart(m0, m1, root, from, to),
        is_same_outside(m0, m1, root, from, to),
        KERNEL_HALF <= from <= virt,
        virt % 4096 == 0,
        virt + 4096 <= to,
        walked(m0.bytes@, root, virt) == Some(phys),
        m1.wf(),
        m1.pmm is Some,
        is_space(m2, root),
        phys % 4096 == 0,
        phys as int / 4096 < m1.pmm->0.total_frames,
        is_used(m1.pmm->0.bitmap@, phys as int / 4096),
        m2.pmm == m1.pmm,
        m2.bytes@.len() == m1.bytes@.len(),
        adds_tables(m1, m2, root),
        forall|v: u64|
            !same_way(v, virt, 4) ==> #[trigger] walked(m2.bytes@, root, v) == walked(
                m1.bytes@,
                root,
                v,
            ),
        forall|v: u64|
            !same_way(v, virt, 4) && leaf_at(m1.bytes@, root, v) is Some ==> #[trigger] leaf_at(
                m2.bytes@,
                root,
                v,
            ) == leaf_at(m1.bytes@, root, v),
        m3.bytes == m2.bytes,
        m2.pmm->0.took_back(m3.pmm->0, phys, 1),
    ensures
        keeps_regions_apart(m0, m3, root, from, to),
{
    reveal(keeps_regions_apart);
    reveal(is_same_outside);
    lemma_given(m2.pmm->0, m3.pmm->0, phys, 1);
    let a = m0.bytes@;
    assert(is_frame_of(a, root, from, to, phys as int / 4096)) by {
        assert(walked(a, root, virt) is Some);
    }
    assert forall|x: int, y: int|
        KERNEL_HALF <= x && (y <= from || to <= x) && share_no_frame(a, root, x, y, from, to)
            && #[trigger] is_region(m0, root, x, y) implies is_region(m3, root, x, y) by {
        assert(is_region(m1, root, x, y));
        assert forall|v: u64| x <= v < y implies {
            &&& #[trigger] walked(m3.bytes@, root, v) == walked(m1.bytes@, root, v)
            &&& leaf_at(m3.bytes@, root, v) == leaf_at(m1.bytes@, root, v)
            &&& walked(m1.bytes@, root, v) matches Some(p) ==> is_used(
                m3.pmm->0.bitmap@,
                p as int / 4096,
            ) && is_plain(m3.bytes@, root, p as int)
        } by {
            reveal(is_region);
            lemma_apart(v, virt);
            assert(walked(m1.bytes@, root, v) is Some);
            let p = walked(m1.bytes@, root, v)->0;
            assert(walked(a, root, v) == Some(p));
            assert(p as int / 4096 != phys as int / 4096);
            assert(is_used(m1.pmm->0.bitmap@, p as int / 4096));
            assert(p as int / 4096 < m1.pmm->0.total_frames);
            lemma_stays_plain(m1, m2, root, p as int);
            assert(leaf_at(m1.bytes@, root, v) is Some);
        }
        lemma_still_region(m1, m3, root, x, y);
    }
}

/// A region shares no frame with pages that were mapped to new frames.
pub proof fn lemma_no_new_frame(
    a: PhysicalMemory,
    b: PhysicalMemory,
    root: u64,
    x: int,
    y: int,
    from: int,
    to: int,
)
    requires
        is_region(a, root, x, y),
        KERNEL_HALF <= x,
        y <= from || to <= x,
        is_same_outside(a, b, root, from, to),
        are_new_frames(a, b, root, from, to),
    ensures
        share_no_frame(b.bytes@, root, x, y, from, to),
{
    reveal(is_same_outside);
    reveal(are_new_frames);
    assert forall|v: u64| x <= v < y implies ((#[trigger] walked(b.bytes@, root, v)) matches Some(
        p,
    ) ==> !is_frame_of(b.bytes@, root, from, to, p as int / 4096)) by {
        reveal(is_region);
        assert(walked(a.bytes@, root, v) is Some);
        let p = walked(a.bytes@, root, v)->0;
        if is_frame_of(b.bytes@, root, from, to, p as int / 4096) {
            let w = choose|w: u64|
                from <= w < to && w % 4096 == 0 && ((#[trigger] walked(b.bytes@, root, w)) matches
                    Some(q) && q as int / 4096 == p as int / 4096);
            assert(!is_used(a.pmm->0.bitmap@, p as int / 4096));
        }
    }
}

/// Writing into memory outside a range of regions, in a frame that holds no table, keeps
/// them.
pub proof fn lemma_regions_written(
    a: PhysicalMemory,
    b: PhysicalMemory,
    c: PhysicalMemory,
    root: u64,
    from: int,
    to: int,
)
    requires
        keeps_regions(a, b, root, from, to),
        c.pmm == b.pmm,
        c.bytes@.len() == b.bytes@.len(),
        forall|v: u64| #[trigger] walked(c.bytes@, root, v) == walked(b.bytes@, root, v),
        forall|v: u64| #[trigger] leaf_at(c.bytes@, root, v) == leaf_at(b.bytes@, root, v),
        forall|v: u64, k: int|
            0 <= k <= 3 ==> #[trigger] table_at(c.bytes@, root, v, k) == table_at(
                b.bytes@,
                root,
                v,
                k,
            ),
    ensures
        keeps_regions(a, c, root, from, to),
{
    reveal(keeps_regions);
    assert forall|x: int, y: int|
        KERNEL_HALF <= x && (y <= from || to <= x) && #[trigger] is_region(a, root, x, y) implies is_region(
        c,
        root,
        x,
        y,
    ) by {
        assert(is_region(b, root, x, y));
        assert forall|v: u64| x <= v < y implies {
            &&& #[trigger] walked(c.bytes@, root, v) == walked(b.bytes@, root, v)
            &&& leaf_at(c.bytes@, root, v) == leaf_at(b.bytes@, root, v)
            &&& walked(b.bytes@, root, v) matches Some(p) ==> is_used(
                c.pmm->0.bitmap@,
                p as int / 4096,
            ) && is_plain(c.bytes@, root, p as int)
        } by {
            reveal(is_region);
            reveal(is_plain);
            assert(walked(b.bytes@, root, v) is Some);
            let p = walked(b.bytes@, root, v)->0;
            assert(is_plain(b.bytes@, root, p as int));
        }
        lemma_still_region(b, c, root, x, y);
    }
}

} // verus!
