//! Memory that page tables do not stand in, and that work on them leaves alone.

use vstd::prelude::*;
use super::region::{is_plain, lemma_stays_plain};
use super::{
    adds_tables, in_memory, is_kernel_space, is_space, is_way_byte, keeps_others, keeps_rest,
    lemma_adds_tables, page_down, table_at, takes_only, walked, Vmm,
};
use crate::pmm::trial::lemma_given;
use crate::pmm::{is_used, PhysicalMemory};

verus! {

/// Whether all memory in use that holds no table of an address space is as it was, and
/// tables were added to that space in free frames only.
#[verifier::opaque]
pub open spec fn keeps_data(before: PhysicalMemory, after: PhysicalMemory, root: u64) -> bool {
    &&& after.hhdm == before.hhdm
    &&& after.bytes@.len() == before.bytes@.len()
    &&& takes_only(before.pmm->0, after.pmm->0)
    &&& adds_tables(before, after, root)
    &&& forall|x: int|
        0 <= x < before.bytes@.len() && is_used(before.pmm->0.bitmap@, x / 4096) && is_plain(
            before.bytes@,
            root,
            x,
        ) ==> #[trigger] after.bytes@[x] == before.bytes@[x]
}

/// The same of the kernel's page tables. Where there are none, all of memory is as it was.
pub open spec fn is_data_kept(
    before: PhysicalMemory,
    after: PhysicalMemory,
    vmm: Option<Vmm>,
) -> bool {
    match vmm {
        Some(k) => keeps_data(before, after, k.pml4_phys),
        None => after.hhdm == before.hhdm && after.bytes@ == before.bytes@,
    }
}

/// Handing out frames changes nothing that is in use.
pub proof fn lemma_data_same(a: PhysicalMemory, b: PhysicalMemory, root: u64)
    requires
        b.hhdm == a.hhdm,
        b.bytes@ == a.bytes@,
        takes_only(a.pmm->0, b.pmm->0),
    ensures
        keeps_data(a, b, root),
{
    reveal(keeps_data);
    reveal(adds_tables);
}

/// Where nothing has changed, all data is kept.
pub proof fn lemma_data_there(m: PhysicalMemory, vmm: Option<Vmm>)
    ensures
        is_data_kept(m, m, vmm),
{
    if let Some(k) = vmm {
        lemma_data_same(m, m, k.pml4_phys);
    }
}

/// Data that the kernel's page tables keep twice over is kept.
pub proof fn lemma_data_on(
    a: PhysicalMemory,
    b: PhysicalMemory,
    c: PhysicalMemory,
    vmm: Option<Vmm>,
)
    requires
        is_kernel_space(a, vmm),
        is_kernel_space(c, vmm),
        is_data_kept(a, b, vmm),
        is_data_kept(b, c, vmm),
    ensures
        is_data_kept(a, c, vmm),
{
    if let Some(k) = vmm {
        lemma_data_twice(a, b, c, k.pml4_phys);
    }
}

/// Data that is kept twice over is kept.
pub proof fn lemma_data_twice(a: PhysicalMemory, b: PhysicalMemory, c: PhysicalMemory, root: u64)
    requires
        a.wf(),
        a.pmm is Some,
        is_space(c, root),
        keeps_data(a, b, root),
        keeps_data(b, c, root),
    ensures
        keeps_data(a, c, root),
{
    reveal(keeps_data);
    lemma_adds_tables(a, b, c, root);
    let n = a.pmm->0.total_frames;
    assert forall|f: int| 0 <= f < n && is_used(a.pmm->0.bitmap@, f) implies #[trigger] is_used(
        c.pmm->0.bitmap@,
        f,
    ) by {
        assert(is_used(b.pmm->0.bitmap@, f));
    }
    assert forall|x: int|
        0 <= x < a.bytes@.len() && is_used(a.pmm->0.bitmap@, x / 4096) && is_plain(
            a.bytes@,
            root,
            x,
        ) implies #[trigger] c.bytes@[x] == a.bytes@[x] by {
        assert(0 <= x / 4096 < n);
        assert(is_used(b.pmm->0.bitmap@, x / 4096));
        lemma_stays_plain(a, b, root, x);
        assert(b.bytes@[x] == a.bytes@[x]);
    }
}

/// A change of one table keeps all data.
pub proof fn lemma_data_others(
    a: PhysicalMemory,
    b: PhysicalMemory,
    root: u64,
    virt: u64,
    l: int,
    table: u64,
)
    requires
        is_space(a, root),
        b.hhdm == a.hhdm,
        b.bytes@.len() == a.bytes@.len(),
        takes_only(a.pmm->0, b.pmm->0),
        adds_tables(a, b, root),
        0 <= l <= 3,
        table_at(a.bytes@, root, virt, l) == Some(table),
        keeps_others(a, b, table),
    ensures
        keeps_data(a, b, root),
{
    assert forall|x: int|
        0 <= x < a.bytes@.len() && is_used(a.pmm->0.bitmap@, x / 4096) && !is_way_byte(
            a.bytes@,
            root,
            virt,
            x,
        ) implies #[trigger] b.bytes@[x] == a.bytes@[x] by {}
    lemma_data_step(a, b, root, virt);
}

/// A change of the tables on the way of one address keeps all data.
pub proof fn lemma_data_step(a: PhysicalMemory, b: PhysicalMemory, root: u64, virt: u64)
    requires
        is_space(a, root),
        b.hhdm == a.hhdm,
        b.bytes@.len() == a.bytes@.len(),
        takes_only(a.pmm->0, b.pmm->0),
        adds_tables(a, b, root),
        keeps_rest(a, b, root, virt),
    ensures
        keeps_data(a, b, root),
{
    reveal(keeps_data);
    reveal(is_plain);
    assert forall|x: int|
        0 <= x < a.bytes@.len() && is_used(a.pmm->0.bitmap@, x / 4096) && is_plain(
            a.bytes@,
            root,
            x,
        ) implies #[trigger] b.bytes@[x] == a.bytes@[x] by {
        if is_way_byte(a.bytes@, root, virt, x) {
            let l = choose|l: int|
                0 <= l <= 3 && ((#[trigger] table_at(a.bytes@, root, virt, l)) matches Some(t) && t
                    <= x < t + 4096);
            let t = table_at(a.bytes@, root, virt, l)->0;
            assert(in_memory(a.bytes@, t));
            assert(t == page_down(x));
        }
    }
}

/// Whether pages of a range are mapped to frames that were free.
#[verifier::opaque]
pub open spec fn are_new_frames(
    before: PhysicalMemory,
    after: PhysicalMemory,
    root: u64,
    from: int,
    to: int,
) -> bool {
    forall|v: u64|
        from <= v < to && v % 4096 == 0 ==> ((#[trigger] walked(after.bytes@, root, v)) matches Some(
            p,
        ) ==> !is_used(before.pmm->0.bitmap@, p as int / 4096))
}

/// Whether a page of a range is mapped to a frame.
pub open spec fn is_frame_of(m: Seq<u8>, root: u64, from: int, to: int, f: int) -> bool {
    exists|v: u64|
        from <= v < to && v % 4096 == 0 && ((#[trigger] walked(m, root, v)) matches Some(p)
            && p as int / 4096 == f)
}

/// Whether just the frames of the pages of a range were taken back, no table was added,
/// and all other memory in use that holds none is as it was.
#[verifier::opaque]
pub open spec fn gives_back(
    before: PhysicalMemory,
    after: PhysicalMemory,
    root: u64,
    from: int,
    to: int,
) -> bool {
    &&& after.hhdm == before.hhdm
    &&& after.bytes@.len() == before.bytes@.len()
    &&& after.pmm->0.same_memory(before.pmm->0)
    &&& forall|f: int|
        0 <= f < before.pmm->0.total_frames ==> #[trigger] is_used(after.pmm->0.bitmap@, f) == (
        is_used(before.pmm->0.bitmap@, f) && !is_frame_of(before.bytes@, root, from, to, f))
    &&& forall|v: u64, k: int|
        0 <= k <= 3 ==> ((#[trigger] table_at(after.bytes@, root, v, k)) matches Some(t)
            ==> table_at(before.bytes@, root, v, k) == Some(t))
    &&& forall|x: int|
        0 <= x < before.bytes@.len() && is_used(after.pmm->0.bitmap@, x / 4096) && is_plain(
            before.bytes@,
            root,
            x,
        ) ==> #[trigger] after.bytes@[x] == before.bytes@[x]
}

pub proof fn lemma_gives_none(m: PhysicalMemory, root: u64, from: int)
    ensures
        gives_back(m, m, root, from, from),
{
    reveal(gives_back);
}

/// One page more was unmapped, and its frame taken back.
#[verifier::spinoff_prover]
pub proof fn lemma_gives_one(
    m0: PhysicalMemory,
    m1: PhysicalMemory,
    m2: PhysicalMemory,
    m3: PhysicalMemory,
    root: u64,
    from: int,
    virt: u64,
    phys: u64,
)
    requires
        m0.wf(),
        m0.pmm is Some,
        gives_back(m0, m1, root, from, virt as int),
        from <= virt,
        virt % 4096 == 0,
        is_space(m1, root),
        is_space(m2, root),
        walked(m0.bytes@, root, virt) == Some(phys),
        phys % 4096 == 0,
        phys as int / 4096 < m1.pmm->0.total_frames,
        is_used(m1.pmm->0.bitmap@, phys as int / 4096),
        m2.hhdm == m1.hhdm,
        m2.pmm == m1.pmm,
        m2.bytes@.len() == m1.bytes@.len(),
        adds_tables(m1, m2, root),
        keeps_rest(m1, m2, root, virt),
        m3.hhdm == m2.hhdm,
        m3.bytes == m2.bytes,
        m2.pmm->0.took_back(m3.pmm->0, phys, 1),
    ensures
        gives_back(m0, m3, root, from, virt + 4096),
{
    reveal(gives_back);
    lemma_data_step(m1, m2, root, virt);
    reveal(keeps_data);
    lemma_given(m2.pmm->0, m3.pmm->0, phys, 1);
    let a = m0.bytes@;
    let n = m0.pmm->0.total_frames;
    assert forall|f: int| 0 <= f < n implies #[trigger] is_used(m3.pmm->0.bitmap@, f) == (is_used(
        m0.pmm->0.bitmap@,
        f,
    ) && !is_frame_of(a, root, from, virt + 4096, f)) by {
        assert(is_used(m2.pmm->0.bitmap@, f) == (is_used(m0.pmm->0.bitmap@, f) && !is_frame_of(
            a,
            root,
            from,
            virt as int,
            f,
        )));
        if is_frame_of(a, root, from, virt + 4096, f) && !is_frame_of(a, root, from, virt as int, f) {
            let v = choose|v: u64|
                from <= v < virt + 4096 && v % 4096 == 0 && ((#[trigger] walked(a, root, v)) matches
                    Some(p) && p as int / 4096 == f);
            assert(v == virt);
        }
        if f == phys as int / 4096 {
            assert(walked(a, root, virt) is Some);
            assert(is_frame_of(a, root, from, virt + 4096, f));
        }
    }
    assert forall|v: u64, k: int| 0 <= k <= 3 implies ((#[trigger] table_at(
        m3.bytes@,
        root,
        v,
        k,
    )) matches Some(t) ==> table_at(a, root, v, k) == Some(t)) by {
        if let Some(t) = table_at(m2.bytes@, root, v, k) {
            reveal(adds_tables);
            assert(is_used(m2.pmm->0.bitmap@, t as int / 4096));
            assert(table_at(m1.bytes@, root, v, k) == Some(t));
        }
    }
    assert forall|x: int|
        0 <= x < a.len() && is_used(m3.pmm->0.bitmap@, x / 4096) && is_plain(a, root, x) implies
        #[trigger] m3.bytes@[x] == a[x] by {
        assert(0 <= x / 4096 < n);
        assert(is_used(m1.pmm->0.bitmap@, x / 4096));
        assert(is_plain(m1.bytes@, root, x)) by {
            reveal(is_plain);
        }
        assert(m1.bytes@[x] == a[x]);
        assert(m2.bytes@[x] == m1.bytes@[x]);
    }
}

/// Pages that were mapped to new frames and then given back leave all data as it was.
pub proof fn lemma_back_and_forth(
    a: PhysicalMemory,
    b: PhysicalMemory,
    c: PhysicalMemory,
    root: u64,
    from: int,
    to: int,
)
    requires
        a.wf(),
        a.pmm is Some,
        keeps_data(a, b, root),
        are_new_frames(a, b, root, from, to),
        gives_back(b, c, root, from, to),
    ensures
        keeps_data(a, c, root),
{
    reveal(keeps_data);
    reveal(are_new_frames);
    reveal(gives_back);
    let n = a.pmm->0.total_frames;
    assert forall|f: int| 0 <= f < n && is_used(a.pmm->0.bitmap@, f) implies #[trigger] is_used(
        c.pmm->0.bitmap@,
        f,
    ) by {
        assert(is_used(b.pmm->0.bitmap@, f));
        if is_frame_of(b.bytes@, root, from, to, f) {
            let v = choose|v: u64|
                from <= v < to && v % 4096 == 0 && ((#[trigger] walked(b.bytes@, root, v)) matches
                    Some(p) && p as int / 4096 == f);
            assert(!is_used(a.pmm->0.bitmap@, f));
        }
    }
    assert(adds_tables(a, c, root)) by {
        reveal(adds_tables);
    }
    assert forall|x: int|
        0 <= x < a.bytes@.len() && is_used(a.pmm->0.bitmap@, x / 4096) && is_plain(
            a.bytes@,
            root,
            x,
        ) implies #[trigger] c.bytes@[x] == a.bytes@[x] by {
        assert(0 <= x / 4096 < n);
        assert(is_used(c.pmm->0.bitmap@, x / 4096));
        lemma_stays_plain(a, b, root, x);
        assert(b.bytes@[x] == a.bytes@[x]);
    }
}

/// Writing into a frame that was free leaves all data as it was.
pub proof fn lemma_data_written(
    a: PhysicalMemory,
    b: PhysicalMemory,
    c: PhysicalMemory,
    root: u64,
    frame: u64,
)
    requires
        keeps_data(a, b, root),
        frame % 4096 == 0,
        !is_used(a.pmm->0.bitmap@, frame as int / 4096),
        c.hhdm == b.hhdm,
        c.pmm == b.pmm,
        c.bytes@.len() == b.bytes@.len(),
        forall|x: int|
            0 <= x < b.bytes@.len() && !(frame <= x < frame + 4096) ==> #[trigger] c.bytes@[x]
                == b.bytes@[x],
        forall|v: u64, k: int|
            0 <= k <= 3 ==> #[trigger] table_at(c.bytes@, root, v, k) == table_at(
                b.bytes@,
                root,
                v,
                k,
            ),
    ensures
        keeps_data(a, c, root),
{
    reveal(keeps_data);
    reveal(adds_tables);
    assert forall|x: int|
        0 <= x < a.bytes@.len() && is_used(a.pmm->0.bitmap@, x / 4096) && is_plain(
            a.bytes@,
            root,
            x,
        ) implies #[trigger] c.bytes@[x] == a.bytes@[x] by {
        assert(b.bytes@[x] == a.bytes@[x]);
        assert(x / 4096 != frame as int / 4096);
    }
}

} // verus!
