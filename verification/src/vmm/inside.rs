//! Changes to the user half of an address space, and what they leave alone.

use vstd::prelude::*;
use crate::pmm::{is_used, keeps_used, page_down, PhysicalMemory};
use super::region::is_plain;
use super::space::{is_fresh_root, is_user_half, lemma_space_kept, lemma_tables_kept};
use super::{
    adds_tables, adds_way, in_memory, is_kernel_space, is_mapped_page, is_space, is_way_byte,
    same_way, table_at, takes_only, walked, Vmm,
};

verus! {

/// Whether a byte lies in a table that addresses of the user half go through.
pub open spec fn is_user_table(m: Seq<u8>, root: u64, x: int) -> bool {
    exists|v: u64, k: int|
        is_user_half(v) && 0 <= k <= 3 && ((#[trigger] table_at(m, root, v, k)) matches Some(t) && t
            <= x < t + 4096)
}

/// Whether nothing but the user half of an address space was changed: bytes in use that
/// are not of its tables there are as they were, tables that were added there stand in
/// frames that were free, and the kernel's half is mapped as before, through the same
/// tables.
#[verifier::opaque]
pub open spec fn stays_inside(before: PhysicalMemory, after: PhysicalMemory, root: u64) -> bool {
    &&& is_space(after, root)
    &&& after.hhdm == before.hhdm
    &&& after.bytes@.len() == before.bytes@.len()
    &&& takes_only(before.pmm->0, after.pmm->0)
    &&& forall|x: int|
        0 <= x < before.bytes@.len() && is_used(before.pmm->0.bitmap@, x / 4096) && !is_user_table(
            before.bytes@,
            root,
            x,
        ) ==> #[trigger] after.bytes@[x] == before.bytes@[x]
    &&& forall|v: u64, k: int|
        is_user_half(v) && 0 <= k <= 3 ==> ((#[trigger] table_at(after.bytes@, root, v, k)) matches
            Some(t) ==> !is_used(before.pmm->0.bitmap@, t as int / 4096) || is_user_table(
            before.bytes@,
            root,
            t as int,
        ))
    &&& forall|v: u64, k: int|
        !is_user_half(v) && 0 <= k <= 3 ==> #[trigger] table_at(after.bytes@, root, v, k)
            == table_at(before.bytes@, root, v, k)
    &&& forall|v: u64|
        !is_user_half(v) ==> #[trigger] walked(after.bytes@, root, v) == walked(
            before.bytes@,
            root,
            v,
        )
}

/// A byte in use of a page that is a table of the user half is in such a table.
proof fn lemma_user_table_page(mem: PhysicalMemory, root: u64, v: u64, k: int, x: int)
    requires
        is_space(mem, root),
        is_user_half(v),
        0 <= k <= 3,
        table_at(mem.bytes@, root, v, k) is Some,
        x / 4096 == table_at(mem.bytes@, root, v, k)->0 as int / 4096,
        0 <= x,
    ensures
        is_user_table(mem.bytes@, root, x),
{
    let t = table_at(mem.bytes@, root, v, k)->0;
    assert(in_memory(mem.bytes@, t));
    assert(t <= x < t + 4096);
}

/// Where nothing in use has changed, nothing outside the user half has.
pub proof fn lemma_inside_kept(a: PhysicalMemory, b: PhysicalMemory, root: u64)
    requires
        is_space(a, root),
        b.wf(),
        b.pmm is Some,
        b.hhdm == a.hhdm,
        takes_only(a.pmm->0, b.pmm->0),
        keeps_used(a, b),
    ensures
        stays_inside(a, b, root),
{
    reveal(stays_inside);
    lemma_space_kept(a, b, root);
    assert forall|v: u64, k: int| is_user_half(v) && 0 <= k <= 3 implies ((#[trigger] table_at(
        b.bytes@,
        root,
        v,
        k,
    )) matches Some(t) ==> !is_used(a.pmm->0.bitmap@, t as int / 4096) || is_user_table(
        a.bytes@,
        root,
        t as int,
    )) by {
        if let Some(t) = table_at(b.bytes@, root, v, k) {
            assert(table_at(a.bytes@, root, v, k) == Some(t));
            lemma_user_table_page(a, root, v, k, t as int);
        }
    }
}

/// Changes in two steps.
#[verifier::spinoff_prover]
pub proof fn lemma_inside_twice(a: PhysicalMemory, b: PhysicalMemory, c: PhysicalMemory, root: u64)
    requires
        is_space(a, root),
        stays_inside(a, b, root),
        stays_inside(b, c, root),
    ensures
        stays_inside(a, c, root),
{
    reveal(stays_inside);
    let n = a.pmm->0.total_frames;
    assert forall|f: int| 0 <= f < n && is_used(a.pmm->0.bitmap@, f) implies #[trigger] is_used(
        c.pmm->0.bitmap@,
        f,
    ) by {
        assert(is_used(b.pmm->0.bitmap@, f));
    }
    assert forall|x: int|
        0 <= x < a.bytes@.len() && is_used(a.pmm->0.bitmap@, x / 4096) && !is_user_table(
            a.bytes@,
            root,
            x,
        ) implies #[trigger] c.bytes@[x] == a.bytes@[x] by {
        assert(b.bytes@[x] == a.bytes@[x]);
        assert(0 <= x / 4096 < n);
        assert(is_used(b.pmm->0.bitmap@, x / 4096));
        if is_user_table(b.bytes@, root, x) {
            let (v, k) = choose|v: u64, k: int|
                is_user_half(v) && 0 <= k <= 3 && ((#[trigger] table_at(b.bytes@, root, v, k))
                    matches Some(t) && t <= x < t + 4096);
            let t = table_at(b.bytes@, root, v, k)->0;
            assert(in_memory(b.bytes@, t));
            assert(t as int / 4096 == x / 4096);
            lemma_user_table_of(a, root, t as int, x);
        }
    }
    assert forall|v: u64, k: int| is_user_half(v) && 0 <= k <= 3 implies ((#[trigger] table_at(
        c.bytes@,
        root,
        v,
        k,
    )) matches Some(t) ==> !is_used(a.pmm->0.bitmap@, t as int / 4096) || is_user_table(
        a.bytes@,
        root,
        t as int,
    )) by {
        if let Some(t) = table_at(c.bytes@, root, v, k) {
            assert(in_memory(c.bytes@, t));
            assert(0 <= t as int / 4096 < n);
            if is_used(a.pmm->0.bitmap@, t as int / 4096) {
                assert(is_used(b.pmm->0.bitmap@, t as int / 4096));
                let (w, l) = choose|w: u64, l: int|
                    is_user_half(w) && 0 <= l <= 3 && ((#[trigger] table_at(b.bytes@, root, w, l))
                        matches Some(s) && s <= t < s + 4096);
                let s = table_at(b.bytes@, root, w, l)->0;
                assert(in_memory(b.bytes@, s));
                assert(s == t);
            }
        }
    }
    assert forall|v: u64, k: int| !is_user_half(v) && 0 <= k <= 3 implies #[trigger] table_at(
        c.bytes@,
        root,
        v,
        k,
    ) == table_at(a.bytes@, root, v, k) by {
        assert(table_at(b.bytes@, root, v, k) == table_at(a.bytes@, root, v, k));
    }
    assert forall|v: u64| !is_user_half(v) implies #[trigger] walked(c.bytes@, root, v) == walked(
        a.bytes@,
        root,
        v,
    ) by {
        assert(walked(b.bytes@, root, v) == walked(a.bytes@, root, v));
    }
}

/// Two page boundaries within a page of each other are one.
proof fn lemma_page_start(s: int, t: int)
    requires
        s % 4096 == 0,
        t % 4096 == 0,
        s <= t < s + 4096,
    ensures
        s == t,
{
}

#[verifier::spinoff_prover]
proof fn lemma_user_table_of(a: PhysicalMemory, root: u64, t: int, x: int)
    requires
        is_space(a, root),
        is_user_table(a.bytes@, root, t),
        t % 4096 == 0,
        t <= x < t + 4096,
    ensures
        is_user_table(a.bytes@, root, x),
{
    let (v, k) = choose|v: u64, k: int|
        is_user_half(v) && 0 <= k <= 3 && ((#[trigger] table_at(a.bytes@, root, v, k)) matches Some(
            s,
        ) && s <= t < s + 4096);
    let s = table_at(a.bytes@, root, v, k)->0;
    assert(in_memory(a.bytes@, s));
    lemma_page_start(s as int, t);
}

/// Mapping a page of the user half.
#[verifier::spinoff_prover]
pub proof fn lemma_inside_mapped(
    a: PhysicalMemory,
    b: PhysicalMemory,
    root: u64,
    virt: u64,
    leaf: u64,
)
    requires
        is_space(a, root),
        is_user_half(virt),
        is_mapped_page(a, b, root, virt, leaf),
    ensures
        stays_inside(a, b, root),
{
    reveal(stays_inside);
    reveal(adds_tables);
    assert forall|x: int|
        0 <= x < a.bytes@.len() && is_used(a.pmm->0.bitmap@, x / 4096) && !is_user_table(
            a.bytes@,
            root,
            x,
        ) implies #[trigger] b.bytes@[x] == a.bytes@[x] by {
        assert(!is_way_byte(a.bytes@, root, virt, x));
    }
    assert forall|v: u64, k: int| is_user_half(v) && 0 <= k <= 3 implies ((#[trigger] table_at(
        b.bytes@,
        root,
        v,
        k,
    )) matches Some(t) ==> !is_used(a.pmm->0.bitmap@, t as int / 4096) || is_user_table(
        a.bytes@,
        root,
        t as int,
    )) by {
        if let Some(t) = table_at(b.bytes@, root, v, k) {
            if is_used(a.pmm->0.bitmap@, t as int / 4096) {
                assert(table_at(a.bytes@, root, v, k) == Some(t));
                lemma_user_table_page(a, root, v, k, t as int);
            }
        }
    }
    assert forall|v: u64, k: int| !is_user_half(v) && 0 <= k <= 3 implies #[trigger] table_at(
        b.bytes@,
        root,
        v,
        k,
    ) == table_at(a.bytes@, root, v, k) by {
        reveal(adds_way);
        assert(k > 0 ==> !same_way(v, virt, k));
    }
    assert forall|v: u64| !is_user_half(v) implies #[trigger] walked(b.bytes@, root, v) == walked(
        a.bytes@,
        root,
        v,
    ) by {
        assert(!same_way(v, virt, 4));
    }
}

/// Writing into a frame that was free at first and holds no table.
pub proof fn lemma_inside_written(
    m0: PhysicalMemory,
    a: PhysicalMemory,
    b: PhysicalMemory,
    root: u64,
    frame: u64,
)
    requires
        is_space(m0, root),
        stays_inside(m0, a, root),
        b.pmm == a.pmm,
        b.hhdm == a.hhdm,
        b.bytes@.len() == a.bytes@.len(),
        frame % 4096 == 0,
        is_plain(a.bytes@, root, frame as int),
        !is_used(m0.pmm->0.bitmap@, frame as int / 4096),
        forall|x: int|
            0 <= x < a.bytes@.len() && !(frame <= x < frame + 4096) ==> #[trigger] b.bytes@[x]
                == a.bytes@[x],
    ensures
        stays_inside(m0, b, root),
{
    reveal(stays_inside);
    let m = a.bytes@;
    assert forall|v: u64, k: int, x: int|
        #![trigger table_at(m, root, v, k), b.bytes@[x]]
        0 <= k <= 3 && (table_at(m, root, v, k) matches Some(t) && t <= x < t + 4096) implies b.bytes@[x]
        == m[x] by {
        reveal(is_plain);
        let t = table_at(m, root, v, k)->0;
        assert(in_memory(m, t));
        assert(t != page_down(frame as int));
    }
    lemma_tables_kept(a, b, root);
    assert forall|x: int|
        0 <= x < m0.bytes@.len() && is_used(m0.pmm->0.bitmap@, x / 4096) && !is_user_table(
            m0.bytes@,
            root,
            x,
        ) implies #[trigger] b.bytes@[x] == m0.bytes@[x] by {
        assert(a.bytes@[x] == m0.bytes@[x]);
        if frame <= x < frame + 4096 {
            assert(x / 4096 == frame as int / 4096);
        }
    }
}

/// What is done inside an address space that was made a moment ago changes nothing that
/// was in use before it was made.
#[verifier::spinoff_prover]
pub proof fn lemma_inside_fresh(
    m0: PhysicalMemory,
    m1: PhysicalMemory,
    m: PhysicalMemory,
    root: u64,
    kernel: u64,
)
    requires
        m0.wf(),
        m0.pmm is Some,
        is_space(m0, kernel),
        is_space(m1, root),
        is_fresh_root(m1.bytes@, root, kernel),
        m0.pmm->0.gave_one(m1.pmm->0, root),
        keeps_used(m0, m1),
        stays_inside(m1, m, root),
    ensures
        keeps_used(m0, m),
        takes_only(m0.pmm->0, m.pmm->0),
        is_space(m, kernel),
        forall|v: u64| #[trigger] walked(m.bytes@, kernel, v) == walked(m0.bytes@, kernel, v),
        shares_kernel_half(m.bytes@, root, kernel),
{
    reveal(stays_inside);
    super::lemma_takes_only(m0.pmm->0, m1.pmm->0, root);
    assert forall|f: int|
        0 <= f < m0.pmm->0.total_frames && is_used(m0.pmm->0.bitmap@, f) implies #[trigger] is_used(
        m.pmm->0.bitmap@,
        f,
    ) by {
        assert(is_used(m1.pmm->0.bitmap@, f));
    }
    assert forall|x: int|
        0 <= x < m0.bytes@.len() && is_used(m0.pmm->0.bitmap@, x / 4096) implies #[trigger] m.bytes@[x]
        == m0.bytes@[x] by {
        assert(m1.bytes@[x] == m0.bytes@[x]);
        assert(0 <= x / 4096 < m0.pmm->0.total_frames);
        assert(is_used(m1.pmm->0.bitmap@, x / 4096));
        if is_user_table(m1.bytes@, root, x) {
            let (v, k) = choose|v: u64, k: int|
                is_user_half(v) && 0 <= k <= 3 && ((#[trigger] table_at(m1.bytes@, root, v, k))
                    matches Some(t) && t <= x < t + 4096);
            if k > 0 {
                super::space::lemma_fresh_tables(m1.bytes@, root, kernel, v, k);
            }
            assert(table_at(m1.bytes@, root, v, 0) == Some(root));
            assert(in_memory(m1.bytes@, root));
            assert(x / 4096 == root as int / 4096);
        }
    }
    lemma_space_kept(m0, m, kernel);
    lemma_space_kept(m0, m1, kernel);
    assert forall|v: u64, k: int| !is_user_half(v) && 1 <= k <= 3 implies #[trigger] table_at(
        m.bytes@,
        root,
        v,
        k,
    ) == table_at(m.bytes@, kernel, v, k) by {
        super::space::lemma_fresh_tables(m1.bytes@, root, kernel, v, k);
        assert(table_at(m.bytes@, kernel, v, k) == table_at(m0.bytes@, kernel, v, k));
        assert(table_at(m1.bytes@, kernel, v, k) == table_at(m0.bytes@, kernel, v, k));
    }
    assert forall|v: u64| !is_user_half(v) implies #[trigger] walked(m.bytes@, root, v) == walked(
        m.bytes@,
        kernel,
        v,
    ) by {
        super::space::law_fresh_space_shares_kernel_half(m1.bytes@, root, kernel, v);
        assert(walked(m.bytes@, kernel, v) == walked(m0.bytes@, kernel, v));
        assert(walked(m1.bytes@, kernel, v) == walked(m0.bytes@, kernel, v));
    }
}

/// Whether an address space has the kernel's half from the kernel: the same tables, which
/// map the same.
pub open spec fn shares_kernel_half(m: Seq<u8>, root: u64, kernel: u64) -> bool {
    &&& forall|v: u64, k: int|
        !is_user_half(v) && 1 <= k <= 3 ==> #[trigger] table_at(m, root, v, k) == table_at(
            m,
            kernel,
            v,
            k,
        )
    &&& forall|v: u64|
        !is_user_half(v) ==> #[trigger] walked(m, root, v) == walked(m, kernel, v)
}

/// Whether every frame is in use, or free, as it was.
pub open spec fn is_as_before(m0: PhysicalMemory, m: PhysicalMemory) -> bool {
    &&& m.wf()
    &&& m.pmm is Some
    &&& m.hhdm == m0.hhdm
    &&& m.pmm->0.same_memory(m0.pmm->0)
    &&& m.bytes@.len() == m0.bytes@.len()
    &&& forall|f: int|
        0 <= f < m0.pmm->0.total_frames ==> #[trigger] is_used(m.pmm->0.bitmap@, f) == is_used(
            m0.pmm->0.bitmap@,
            f,
        )
}

/// What work on another address space leaves alone: the kernel's page tables, and all
/// memory that was in use.
pub open spec fn is_else_kept(m0: PhysicalMemory, m: PhysicalMemory, vmm: Option<Vmm>) -> bool {
    &&& m.wf()
    &&& m.hhdm == m0.hhdm
    &&& is_kernel_space(m, vmm)
    &&& vmm matches Some(k) ==> {
        &&& keeps_used(m0, m)
        &&& takes_only(m0.pmm->0, m.pmm->0)
        &&& forall|v: u64| #[trigger]
            walked(m.bytes@, k.pml4_phys, v) == walked(m0.bytes@, k.pml4_phys, v)
    }
}

/// What is kept twice over is kept.
pub proof fn lemma_kept_twice(
    a: PhysicalMemory,
    b: PhysicalMemory,
    c: PhysicalMemory,
    vmm: Option<Vmm>,
)
    requires
        is_kernel_space(a, vmm),
        is_else_kept(a, b, vmm),
        is_else_kept(b, c, vmm),
    ensures
        is_else_kept(a, c, vmm),
{
    if let Some(k) = vmm {
        assert forall|f: int|
            0 <= f < a.pmm->0.total_frames && is_used(a.pmm->0.bitmap@, f) implies #[trigger] is_used(
            c.pmm->0.bitmap@,
            f,
        ) by {
            assert(is_used(b.pmm->0.bitmap@, f));
        }
        assert forall|x: int|
            0 <= x < a.bytes@.len() && is_used(a.pmm->0.bitmap@, x / 4096) implies #[trigger] c.bytes@[x]
            == a.bytes@[x] by {
            assert(b.bytes@[x] == a.bytes@[x]);
            assert(0 <= x / 4096 < a.pmm->0.total_frames);
            assert(is_used(b.pmm->0.bitmap@, x / 4096));
        }
        assert forall|v: u64| #[trigger] walked(c.bytes@, k.pml4_phys, v) == walked(
            a.bytes@,
            k.pml4_phys,
            v,
        ) by {
            assert(walked(b.bytes@, k.pml4_phys, v) == walked(a.bytes@, k.pml4_phys, v));
        }
    }
}

/// Where all the frames that were taken have come back, all else is kept.
pub proof fn lemma_freed_kept(m0: PhysicalMemory, a: PhysicalMemory, b: PhysicalMemory, kernel: u64)
    requires
        is_space(m0, kernel),
        keeps_used(m0, a),
        b.wf(),
        b.pmm is Some,
        b.same_bytes(a),
        b.pmm->0.same_memory(m0.pmm->0),
        forall|f: int|
            0 <= f < m0.pmm->0.total_frames ==> #[trigger] is_used(b.pmm->0.bitmap@, f) == is_used(
                m0.pmm->0.bitmap@,
                f,
            ),
    ensures
        keeps_used(m0, b),
        takes_only(m0.pmm->0, b.pmm->0),
        is_space(b, kernel),
        forall|v: u64| #[trigger] walked(b.bytes@, kernel, v) == walked(m0.bytes@, kernel, v),
{
    lemma_space_kept(m0, b, kernel);
}

} // verus!
