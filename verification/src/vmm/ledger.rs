//! Which frames an address space has, and that all of them come back.

use vstd::prelude::*;
use crate::pmm::{free_below, is_used, page_down, Pmm, PhysicalMemory};
use super::region::is_plain;
use super::user::lemma_entry_bytes;
use super::space::{
    is_fresh_root, is_user_half, lemma_fresh_user_frames, pd_entry_frame, pd_frame,
    pdpt_entry_frame, pdpt_frame, pt_frame, took_back_all, user_frame,
};
use super::{
    adds_way, entry, huge_at, in_memory, index_of, is_huge, is_mapped_page, is_present, is_space,
    is_way_byte, leaf_at, lemma_same_way, lemma_walked, lemma_zero_entry, same_way, table_at,
    tables_in_memory, walked, ADDR_MASK, PAGE_SIZE,
};

verus! {

/// Whether there are no huge pages in the user half.
pub open spec fn no_huge(m: Seq<u8>, root: u64) -> bool {
    forall|v: u64, k: int| is_user_half(v) && 1 <= k <= 2 ==> !#[trigger] huge_at(m, root, v, k)
}

/// Whether a frame holds a table on the way of an address of the user half.
spec fn holds_table(m: Seq<u8>, root: u64, p: u64) -> bool {
    exists|v: u64, k: int|
        is_user_half(v) && 0 <= k <= 3 && #[trigger] table_at(m, root, v, k) == Some(p)
}

/// Whether a frame is mapped at an address.
spec fn shows(m: Seq<u8>, root: u64, v: u64, p: u64) -> bool {
    leaf_at(m, root, v) matches Some(e) && is_present(e) && p == e & ADDR_MASK
}

/// Whether a frame is mapped somewhere in the user half.
spec fn is_shown(m: Seq<u8>, root: u64, p: u64) -> bool {
    exists|v: u64| is_user_half(v) && #[trigger] shows(m, root, v, p)
}

spec fn address(a: int, b: int, c: int, d: int) -> u64 {
    (a * 0x80_0000_0000 + b * 0x4000_0000 + c * 0x20_0000 + d * 0x1000) as u64
}

proof fn lemma_address(a: int, b: int, c: int, d: int)
    requires
        0 <= a < 256,
        0 <= b < 512,
        0 <= c < 512,
        0 <= d < 512,
    ensures
        index_of(address(a, b, c, d), 0) == a,
        index_of(address(a, b, c, d), 1) == b,
        index_of(address(a, b, c, d), 2) == c,
        index_of(address(a, b, c, d), 3) == d,
{
    let v = a * 0x80_0000_0000 + b * 0x4000_0000 + c * 0x20_0000 + d * 0x1000;
    assert(v / 0x1000 == a * 0x800_0000 + b * 0x4_0000 + c * 512 + d);
    assert(v / 0x20_0000 == a * 0x4_0000 + b * 512 + c);
    assert(v / 0x4000_0000 == a * 512 + b);
    assert(v / 0x80_0000_0000 == a);
}

/// The tables that an address goes through, from the entries on its way.
proof fn lemma_way(m: Seq<u8>, root: u64, v: u64)
    ensures
        table_at(m, root, v, 0) == Some(root),
        table_at(m, root, v, 1) == if is_present(entry(m, root, index_of(v, 0))) {
            Some(entry(m, root, index_of(v, 0)) & ADDR_MASK)
        } else {
            None
        },
        table_at(m, root, v, 1) matches Some(t) ==> table_at(m, root, v, 2) == if is_present(
            entry(m, t, index_of(v, 1)),
        ) && !is_huge(entry(m, t, index_of(v, 1))) {
            Some(entry(m, t, index_of(v, 1)) & ADDR_MASK)
        } else {
            None
        },
        table_at(m, root, v, 2) matches Some(t) ==> table_at(m, root, v, 3) == if is_present(
            entry(m, t, index_of(v, 2)),
        ) && !is_huge(entry(m, t, index_of(v, 2))) {
            Some(entry(m, t, index_of(v, 2)) & ADDR_MASK)
        } else {
            None
        },
        table_at(m, root, v, 1) is None ==> table_at(m, root, v, 2) is None,
        table_at(m, root, v, 2) is None ==> table_at(m, root, v, 3) is None,
{
    reveal_with_fuel(table_at, 4);
}

/// A frame that an address space has is one of its tables or mapped in it.
#[verifier::spinoff_prover]
proof fn lemma_has(m: Seq<u8>, root: u64, p: u64)
    requires
        no_huge(m, root),
        user_frame(m, root, p),
    ensures
        holds_table(m, root, p) || is_shown(m, root, p),
{
    if p == root {
        lemma_address(0, 0, 0, 0);
        assert(table_at(m, root, address(0, 0, 0, 0), 0) == Some(p));
    } else {
        let a = choose|i: int|
            0 <= i < 256 && is_present(#[trigger] entry(m, root, i)) && pdpt_frame(
                m,
                entry(m, root, i) & ADDR_MASK,
                p,
            );
        let t1 = entry(m, root, a) & ADDR_MASK;
        if p == t1 {
            lemma_address(a, 0, 0, 0);
            let v = address(a, 0, 0, 0);
            lemma_way(m, root, v);
            assert(table_at(m, root, v, 1) == Some(p));
        } else {
            let b = choose|i: int|
                0 <= i < 512 && pdpt_entry_frame(m, #[trigger] entry(m, t1, i), p);
            let t2 = entry(m, t1, b) & ADDR_MASK;
            lemma_address(a, b, 0, 0);
            let v = address(a, b, 0, 0);
            lemma_way(m, root, v);
            assert(!huge_at(m, root, v, 1));
            if p == t2 {
                assert(table_at(m, root, v, 2) == Some(p));
            } else {
                let c = choose|i: int|
                    0 <= i < 512 && pd_entry_frame(m, #[trigger] entry(m, t2, i), p);
                let t3 = entry(m, t2, c) & ADDR_MASK;
                lemma_address(a, b, c, 0);
                let v = address(a, b, c, 0);
                lemma_way(m, root, v);
                assert(!huge_at(m, root, v, 1));
                assert(!huge_at(m, root, v, 2));
                if p == t3 {
                    assert(table_at(m, root, v, 3) == Some(p));
                } else {
                    let d = choose|i: int|
                        0 <= i < 512 && is_present(#[trigger] entry(m, t3, i)) && p == entry(
                            m,
                            t3,
                            i,
                        ) & ADDR_MASK;
                    lemma_address(a, b, c, d);
                    let v = address(a, b, c, d);
                    lemma_way(m, root, v);
                    assert(!huge_at(m, root, v, 1));
                    assert(!huge_at(m, root, v, 2));
                    assert(shows(m, root, v, p));
                }
            }
        }
    }
}

/// A table of an address space is one of its frames.
proof fn lemma_has_table(m: Seq<u8>, root: u64, v: u64, k: int)
    requires
        is_user_half(v),
        0 <= k <= 3,
        table_at(m, root, v, k) is Some,
    ensures
        user_frame(m, root, table_at(m, root, v, k)->0),
{
    lemma_way(m, root, v);
    let p = table_at(m, root, v, k)->0;
    if k >= 1 {
        let a = index_of(v, 0);
        let t1 = entry(m, root, a) & ADDR_MASK;
        assert(0 <= a < 256);
        assert(pdpt_frame(m, t1, p)) by {
            if k >= 2 {
                let b = index_of(v, 1);
                let t2 = entry(m, t1, b) & ADDR_MASK;
                assert(0 <= b < 512);
                assert(pd_frame(m, t2, p)) by {
                    if k == 3 {
                        let c = index_of(v, 2);
                        assert(0 <= c < 512);
                        assert(pd_entry_frame(m, entry(m, t2, c), p));
                    }
                }
                assert(pdpt_entry_frame(m, entry(m, t1, b), p));
            }
        }
        assert(is_present(entry(m, root, a)));
    }
}

/// A page that is mapped in an address space is one of its frames.
proof fn lemma_has_page(m: Seq<u8>, root: u64, v: u64, p: u64)
    requires
        is_user_half(v),
        shows(m, root, v, p),
    ensures
        user_frame(m, root, p),
{
    lemma_way(m, root, v);
    let a = index_of(v, 0);
    let b = index_of(v, 1);
    let c = index_of(v, 2);
    let d = index_of(v, 3);
    let t1 = entry(m, root, a) & ADDR_MASK;
    let t2 = entry(m, t1, b) & ADDR_MASK;
    let t3 = entry(m, t2, c) & ADDR_MASK;
    assert(0 <= a < 256 && 0 <= b < 512 && 0 <= c < 512 && 0 <= d < 512);
    assert(is_present(entry(m, t3, d)));
    assert(pt_frame(m, t3, p));
    assert(pd_entry_frame(m, entry(m, t2, c), p));
    assert(pd_frame(m, t2, p));
    assert(pdpt_entry_frame(m, entry(m, t1, b), p));
    assert(pdpt_frame(m, t1, p));
    assert(is_present(entry(m, root, a)));
}

/// Whether the frames taken since `base` are those of an address space and the ones in
/// `loose`, and none of these was taken before.
#[verifier::opaque]
pub open spec fn owns(base: Pmm, mem: PhysicalMemory, root: u64, loose: Set<u64>) -> bool {
    &&& mem.pmm is Some
    &&& mem.pmm->0.same_memory(base)
    &&& no_huge(mem.bytes@, root)
    &&& forall|f: int|
        0 <= f < base.total_frames ==> {
            let p = (f * 4096) as u64;
            #[trigger] is_used(mem.pmm->0.bitmap@, f) == (is_used(base.bitmap@, f) || user_frame(
                mem.bytes@,
                root,
                p,
            ) || loose.contains(p))
        }
    &&& forall|f: int|
        0 <= f < base.total_frames && #[trigger] is_used(base.bitmap@, f) ==> {
            let p = (f * 4096) as u64;
            !user_frame(mem.bytes@, root, p) && !loose.contains(p)
        }
}

/// Whether an address space that had all the frames taken since some time has all that
/// are taken since, also after what was done to it.
pub open spec fn keeps_accounts(a: PhysicalMemory, b: PhysicalMemory, root: u64) -> bool {
    forall|base: Pmm| #[trigger]
        owns(base, a, root, Set::empty()) ==> owns(base, b, root, Set::empty())
}

/// As many frames are free as there are unused.
proof fn lemma_free_same(a: Seq<u64>, b: Seq<u64>, n: int)
    requires
        forall|f: int| 0 <= f < n ==> #[trigger] is_used(a, f) == is_used(b, f),
    ensures
        free_below(a, n) == free_below(b, n),
    decreases n,
{
    if n > 0 {
        lemma_free_same(a, b, n - 1);
        assert(is_used(a, n - 1) == is_used(b, n - 1));
    }
}

/// When an address space that has all the frames taken since is torn down, every frame
/// is as it was: whatever was mapped in it meanwhile, nothing stays taken, and nothing
/// of anybody else's is given away.
pub proof fn law_all_frames_come_back(base: Pmm, mem: PhysicalMemory, after: PhysicalMemory, root: u64)
    requires
        base.wf(),
        owns(base, mem, root, Set::empty()),
        took_back_all(mem, after, |p: u64| user_frame(mem.bytes@, root, p)),
    ensures
        forall|f: int|
            0 <= f < base.total_frames ==> #[trigger] is_used(after.pmm->0.bitmap@, f) == is_used(
                base.bitmap@,
                f,
            ),
        after.pmm->0.free_frames == base.free_frames,
{
    reveal(owns);
    assert forall|f: int| 0 <= f < base.total_frames implies #[trigger] is_used(
        after.pmm->0.bitmap@,
        f,
    ) == is_used(base.bitmap@, f) by {
        let p = (f * 4096) as u64;
        assert(is_used(mem.pmm->0.bitmap@, f) == (is_used(base.bitmap@, f) || user_frame(
            mem.bytes@,
            root,
            p,
        )));
        assert(is_used(base.bitmap@, f) ==> !user_frame(mem.bytes@, root, p));
    }
    lemma_free_same(after.pmm->0.bitmap@, base.bitmap@, base.total_frames as int);
}

/// A new address space has its top-level table.
pub proof fn lemma_owns_created(before: PhysicalMemory, created: PhysicalMemory, root: u64, kernel: u64)
    requires
        before.wf(),
        before.pmm is Some,
        created.pmm is Some,
        before.pmm->0.gave_one(created.pmm->0, root),
        is_fresh_root(created.bytes@, root, kernel),
    ensures
        owns(before.pmm->0, created, root, Set::empty()),
{
    reveal(owns);
    let m = created.bytes@;
    lemma_zero_entry();
    assert forall|v: u64, k: int| is_user_half(v) && 1 <= k <= 2 implies !#[trigger] huge_at(
        m,
        root,
        v,
        k,
    ) by {
        lemma_way(m, root, v);
        assert(entry(m, root, index_of(v, 0)) == 0);
    }
    assert forall|f: int| 0 <= f < before.pmm->0.total_frames implies ({
        let p = (f * 4096) as u64;
        #[trigger] is_used(created.pmm->0.bitmap@, f) == (is_used(before.pmm->0.bitmap@, f)
            || user_frame(m, root, p))
    }) by {
        let p = (f * 4096) as u64;
        lemma_fresh_user_frames(m, root, kernel, p);
        assert(0 <= f < before.pmm->0.bitmap@.len() * 64);
        assert(f * 4096 <= u64::MAX);
        assert(p == root <==> f == root as int / 4096);
    }
    assert forall|f: int|
        0 <= f < before.pmm->0.total_frames && #[trigger] is_used(
            before.pmm->0.bitmap@,
            f,
        ) implies !user_frame(m, root, (f * 4096) as u64) by {
        lemma_fresh_user_frames(m, root, kernel, (f * 4096) as u64);
        assert(f * 4096 <= u64::MAX);
    }
}

/// Whether the tables of an address space hold what they held.
pub open spec fn same_tables(a: Seq<u8>, b: Seq<u8>, root: u64) -> bool {
    forall|v: u64, k: int|
        0 <= k <= 3 ==> ((#[trigger] table_at(a, root, v, k)) matches Some(t) ==> forall|i: int|
            0 <= i < 512 ==> #[trigger] entry(b, t, i) == entry(a, t, i))
}

/// Where every byte of every table is the same, the tables are.
pub proof fn lemma_kept_entries(a: Seq<u8>, b: Seq<u8>, root: u64)
    requires
        tables_in_memory(a, root),
        a.len() == b.len(),
        forall|v: u64, k: int, x: int|
            #![trigger table_at(a, root, v, k), b[x]]
            0 <= k <= 3 && (table_at(a, root, v, k) matches Some(t) && t <= x < t + 4096) ==> b[x]
                == a[x],
    ensures
        same_tables(a, b, root),
{
    assert forall|v: u64, k: int| 0 <= k <= 3 implies ((#[trigger] table_at(a, root, v, k)) matches Some(
        t,
    ) ==> forall|i: int| 0 <= i < 512 ==> #[trigger] entry(b, t, i) == entry(a, t, i)) by {
        if let Some(t) = table_at(a, root, v, k) {
            assert forall|i: int| 0 <= i < 512 implies #[trigger] entry(b, t, i) == entry(a, t, i) by {
                lemma_entry_bytes(a, b, t, i);
            }
        }
    }
}

/// Writing to a page that holds no table leaves the tables as they are.
pub proof fn lemma_plain_tables(a: PhysicalMemory, b: PhysicalMemory, root: u64, phys: u64)
    requires
        is_space(a, root),
        phys % 4096 == 0,
        is_plain(a.bytes@, root, phys as int),
        b.bytes@.len() == a.bytes@.len(),
        forall|x: int|
            0 <= x < a.bytes@.len() && !(phys <= x < phys + 4096) ==> #[trigger] b.bytes@[x]
                == a.bytes@[x],
    ensures
        same_tables(a.bytes@, b.bytes@, root),
{
    reveal(is_plain);
    let m = a.bytes@;
    assert forall|v: u64, k: int, x: int|
        #![trigger table_at(m, root, v, k), b.bytes@[x]]
        0 <= k <= 3 && (table_at(m, root, v, k) matches Some(t) && t <= x < t + 4096) implies b.bytes@[x]
        == m[x] by {
        let t = table_at(m, root, v, k)->0;
        assert(in_memory(m, t));
        assert(t != page_down(phys as int));
    }
    lemma_kept_entries(m, b.bytes@, root);
}

/// Where nothing that was in use has changed, neither have the tables.
pub proof fn lemma_used_tables(a: PhysicalMemory, b: PhysicalMemory, root: u64)
    requires
        is_space(a, root),
        b.bytes@.len() == a.bytes@.len(),
        forall|x: int|
            0 <= x < a.bytes@.len() && is_used(a.pmm->0.bitmap@, x / 4096) ==> #[trigger] b.bytes@[x]
                == a.bytes@[x],
    ensures
        same_tables(a.bytes@, b.bytes@, root),
{
    let m = a.bytes@;
    assert forall|v: u64, k: int, x: int|
        #![trigger table_at(m, root, v, k), b.bytes@[x]]
        0 <= k <= 3 && (table_at(m, root, v, k) matches Some(t) && t <= x < t + 4096) implies b.bytes@[x]
        == m[x] by {
        let t = table_at(m, root, v, k)->0;
        assert(in_memory(m, t));
        assert(is_used(a.pmm->0.bitmap@, t as int / 4096));
        assert(x / 4096 == t as int / 4096);
    }
    lemma_kept_entries(m, b.bytes@, root);
}

pub proof fn lemma_same_ways(a: Seq<u8>, b: Seq<u8>, root: u64, v: u64)
    requires
        same_tables(a, b, root),
    ensures
        forall|k: int| 0 <= k <= 3 ==> #[trigger] table_at(b, root, v, k) == table_at(a, root, v, k),
        forall|k: int|
            0 <= k <= 3 ==> (#[trigger] table_at(a, root, v, k) matches Some(t) ==> entry(
                b,
                t,
                index_of(v, k),
            ) == entry(a, t, index_of(v, k))),
{
    lemma_way(a, root, v);
    lemma_way(b, root, v);
    assert(0 <= index_of(v, 0) < 512 && 0 <= index_of(v, 1) < 512 && 0 <= index_of(v, 2) < 512 && 0
        <= index_of(v, 3) < 512);
    assert(table_at(a, root, v, 0) == Some(root));
    assert(entry(b, root, index_of(v, 0)) == entry(a, root, index_of(v, 0)));
    if let Some(t) = table_at(a, root, v, 1) {
        assert(entry(b, t, index_of(v, 1)) == entry(a, t, index_of(v, 1)));
    }
    if let Some(t) = table_at(a, root, v, 2) {
        assert(entry(b, t, index_of(v, 2)) == entry(a, t, index_of(v, 2)));
    }
    if let Some(t) = table_at(a, root, v, 3) {
        assert(entry(b, t, index_of(v, 3)) == entry(a, t, index_of(v, 3)));
    }
    assert forall|k: int| 0 <= k <= 3 implies #[trigger] table_at(b, root, v, k) == table_at(
        a,
        root,
        v,
        k,
    ) by {
        assert(k == 0 || k == 1 || k == 2 || k == 3);
    }
    assert forall|k: int| 0 <= k <= 3 implies (#[trigger] table_at(a, root, v, k) matches Some(t)
        ==> entry(b, t, index_of(v, k)) == entry(a, t, index_of(v, k))) by {
        assert(k == 0 || k == 1 || k == 2 || k == 3);
    }
}

proof fn lemma_same_has(a: Seq<u8>, b: Seq<u8>, root: u64, p: u64)
    requires
        same_tables(a, b, root),
        no_huge(a, root),
        user_frame(a, root, p),
    ensures
        user_frame(b, root, p),
{
    lemma_has(a, root, p);
    if holds_table(a, root, p) {
        let (v, k) = choose|v: u64, k: int|
            is_user_half(v) && 0 <= k <= 3 && #[trigger] table_at(a, root, v, k) == Some(p);
        lemma_same_ways(a, b, root, v);
        assert(table_at(b, root, v, k) == Some(p));
        lemma_has_table(b, root, v, k);
    } else {
        let v = choose|v: u64| is_user_half(v) && #[trigger] shows(a, root, v, p);
        lemma_same_ways(a, b, root, v);
        assert(table_at(b, root, v, 3) == table_at(a, root, v, 3));
        assert(shows(b, root, v, p));
        lemma_has_page(b, root, v, p);
    }
}

/// What an address space has is a matter of its tables.
pub proof fn lemma_same_frames(a: Seq<u8>, b: Seq<u8>, root: u64)
    requires
        same_tables(a, b, root),
        no_huge(a, root),
    ensures
        no_huge(b, root),
        forall|p: u64| #[trigger] user_frame(b, root, p) == user_frame(a, root, p),
{
    assert forall|v: u64, k: int| is_user_half(v) && 1 <= k <= 2 implies !#[trigger] huge_at(
        b,
        root,
        v,
        k,
    ) by {
        lemma_same_ways(a, b, root, v);
        assert(table_at(b, root, v, k) == table_at(a, root, v, k));
        assert(!huge_at(a, root, v, k));
    }
    assert(same_tables(b, a, root)) by {
        assert forall|v: u64, k: int| 0 <= k <= 3 implies ((#[trigger] table_at(b, root, v, k)) matches Some(
            t,
        ) ==> forall|i: int| 0 <= i < 512 ==> #[trigger] entry(a, t, i) == entry(b, t, i)) by {
            lemma_same_ways(a, b, root, v);
            assert(table_at(b, root, v, k) == table_at(a, root, v, k));
        }
    }
    assert forall|p: u64| #[trigger] user_frame(b, root, p) == user_frame(a, root, p) by {
        if user_frame(a, root, p) {
            lemma_same_has(a, b, root, p);
        }
        if user_frame(b, root, p) {
            lemma_same_has(b, a, root, p);
        }
    }
}

/// A frame that is taken is loose at first.
pub proof fn lemma_owns_taken(
    base: Pmm,
    a: PhysicalMemory,
    b: PhysicalMemory,
    root: u64,
    loose: Set<u64>,
    p: u64,
)
    requires
        owns(base, a, root, loose),
        a.pmm->0.wf(),
        b.pmm is Some,
        a.pmm->0.gave_one(b.pmm->0, p),
        same_tables(a.bytes@, b.bytes@, root),
    ensures
        owns(base, b, root, loose.insert(p)),
        !loose.contains(p),
{
    reveal(owns);
    lemma_same_frames(a.bytes@, b.bytes@, root);
    let g = p as int / 4096;
    assert(is_used(a.pmm->0.bitmap@, g) == (is_used(base.bitmap@, g) || user_frame(
        a.bytes@,
        root,
        (g * 4096) as u64,
    ) || loose.contains((g * 4096) as u64)));
    assert((g * 4096) as u64 == p);
    assert forall|f: int| 0 <= f < base.total_frames implies ({
        let q = (f * 4096) as u64;
        #[trigger] is_used(b.pmm->0.bitmap@, f) == (is_used(base.bitmap@, f) || user_frame(
            b.bytes@,
            root,
            q,
        ) || loose.insert(p).contains(q))
    }) by {
        let q = (f * 4096) as u64;
        assert(0 <= f < a.pmm->0.bitmap@.len() * 64);
        assert(is_used(a.pmm->0.bitmap@, f) == (is_used(base.bitmap@, f) || user_frame(
            a.bytes@,
            root,
            q,
        ) || loose.contains(q)));
        assert(f * 4096 <= u64::MAX);
        assert(q == p <==> f == g);
    }
    assert forall|f: int|
        0 <= f < base.total_frames && #[trigger] is_used(base.bitmap@, f) implies ({
        let q = (f * 4096) as u64;
        !user_frame(b.bytes@, root, q) && !loose.insert(p).contains(q)
    }) by {
        assert(f * 4096 <= u64::MAX);
    }
}

/// What is written outside the tables changes nothing about who has which frame.
pub proof fn lemma_owns_written(
    base: Pmm,
    a: PhysicalMemory,
    b: PhysicalMemory,
    root: u64,
    loose: Set<u64>,
)
    requires
        owns(base, a, root, loose),
        b.pmm == a.pmm,
        same_tables(a.bytes@, b.bytes@, root),
    ensures
        owns(base, b, root, loose),
{
    reveal(owns);
    lemma_same_frames(a.bytes@, b.bytes@, root);
    assert forall|f: int| 0 <= f < base.total_frames implies ({
        let q = (f * 4096) as u64;
        #[trigger] is_used(b.pmm->0.bitmap@, f) == (is_used(base.bitmap@, f) || user_frame(
            b.bytes@,
            root,
            q,
        ) || loose.contains(q))
    }) by {
        let q = (f * 4096) as u64;
        assert(is_used(a.pmm->0.bitmap@, f) == (is_used(base.bitmap@, f) || user_frame(
            a.bytes@,
            root,
            q,
        ) || loose.contains(q)));
    }
}

/// What an address is mapped to where there are no huge pages.
proof fn lemma_small_walk(m: Seq<u8>, root: u64, v: u64)
    requires
        no_huge(m, root),
        is_user_half(v),
    ensures
        walked(m, root, v) == match leaf_at(m, root, v) {
            Some(e) => if is_present(e) {
                Some(((e & ADDR_MASK) + v % PAGE_SIZE) as u64)
            } else {
                None
            },
            None => None,
        },
{
    lemma_walked(m, root, v);
    lemma_way(m, root, v);
    assert(!huge_at(m, root, v, 1));
    assert(!huge_at(m, root, v, 2));
}

/// Addresses of one page have one leaf.
proof fn lemma_one_leaf(m: Seq<u8>, root: u64, v: u64, w: u64)
    requires
        same_way(v, w, 4),
    ensures
        leaf_at(m, root, v) == leaf_at(m, root, w),
{
    lemma_same_way(m, root, v, w, 3);
}

/// A frame that an address space had before a page was mapped, it has after.
proof fn lemma_still_has(
    a: PhysicalMemory,
    b: PhysicalMemory,
    root: u64,
    virt: u64,
    leaf: u64,
    p: u64,
)
    requires
        no_huge(a.bytes@, root),
        is_mapped_page(a, b, root, virt, leaf),
        is_user_half(virt),
        walked(a.bytes@, root, virt) is None,
        user_frame(a.bytes@, root, p),
    ensures
        user_frame(b.bytes@, root, p),
{
    reveal(adds_way);
    let m = a.bytes@;
    let w = b.bytes@;
    lemma_has(m, root, p);
    if holds_table(m, root, p) {
        let (v, k) = choose|v: u64, k: int|
            is_user_half(v) && 0 <= k <= 3 && #[trigger] table_at(m, root, v, k) == Some(p);
        assert(table_at(w, root, v, k) == Some(p));
        lemma_has_table(w, root, v, k);
    } else {
        let v = choose|v: u64| is_user_half(v) && #[trigger] shows(m, root, v, p);
        if same_way(v, virt, 4) {
            lemma_one_leaf(m, root, v, virt);
            lemma_small_walk(m, root, virt);
        }
        assert(leaf_at(w, root, v) == leaf_at(m, root, v));
        assert(shows(w, root, v, p));
        lemma_has_page(w, root, v, p);
    }
}

/// A frame that an address space has after a page was mapped is that page, or one that
/// it had before, or was free.
#[verifier::spinoff_prover]
proof fn lemma_newly_has(
    a: PhysicalMemory,
    b: PhysicalMemory,
    root: u64,
    virt: u64,
    leaf: u64,
    p: u64,
)
    requires
        is_space(a, root),
        no_huge(a.bytes@, root),
        is_mapped_page(a, b, root, virt, leaf),
        is_user_half(virt),
        user_frame(b.bytes@, root, p),
    ensures
        no_huge(b.bytes@, root),
        user_frame(a.bytes@, root, p) || p == leaf & ADDR_MASK || (in_memory(b.bytes@, p)
            && !is_used(a.pmm->0.bitmap@, p as int / 4096) && is_used(
            b.pmm->0.bitmap@,
            p as int / 4096,
        )),
{
    reveal(adds_way);
    reveal(super::adds_tables);
    let m = a.bytes@;
    let w = b.bytes@;
    assert forall|v: u64, k: int| is_user_half(v) && 1 <= k <= 2 implies !#[trigger] huge_at(
        w,
        root,
        v,
        k,
    ) by {
        assert(!huge_at(m, root, v, k));
    }
    lemma_has(w, root, p);
    if holds_table(w, root, p) {
        let (v, k) = choose|v: u64, k: int|
            is_user_half(v) && 0 <= k <= 3 && #[trigger] table_at(w, root, v, k) == Some(p);
        assert(in_memory(w, p));
        assert(is_used(b.pmm->0.bitmap@, p as int / 4096));
        if table_at(m, root, v, k) == Some(p) {
            lemma_has_table(m, root, v, k);
        }
    } else {
        let v = choose|v: u64| is_user_half(v) && #[trigger] shows(w, root, v, p);
        if same_way(v, virt, 4) {
            lemma_one_leaf(w, root, v, virt);
        } else {
            lemma_small_walk(w, root, v);
            lemma_small_walk(m, root, v);
            assert(walked(w, root, v) == walked(m, root, v));
            let e = leaf_at(m, root, v)->0;
            let n = leaf_at(w, root, v)->0;
            super::lemma_frame_bound(e);
            super::lemma_frame_bound(n);
            assert(e & ADDR_MASK == n & ADDR_MASK);
            assert(shows(m, root, v, p));
            lemma_has_page(m, root, v, p);
        }
    }
}

/// A loose frame that is mapped where nothing was is the address space's.
#[verifier::spinoff_prover]
pub proof fn lemma_owns_mapped(
    base: Pmm,
    a: PhysicalMemory,
    b: PhysicalMemory,
    root: u64,
    loose: Set<u64>,
    virt: u64,
    leaf: u64,
)
    requires
        owns(base, a, root, loose),
        is_space(a, root),
        is_mapped_page(a, b, root, virt, leaf),
        is_user_half(virt),
        is_present(leaf),
        loose.contains(leaf & ADDR_MASK),
        walked(a.bytes@, root, virt) is None,
    ensures
        owns(base, b, root, loose.remove(leaf & ADDR_MASK)),
{
    reveal(owns);
    let m = a.bytes@;
    let w = b.bytes@;
    let phys = leaf & ADDR_MASK;
    let left = loose.remove(phys);
    assert(leaf_at(w, root, virt) == Some(leaf));
    assert(shows(w, root, virt, phys));
    lemma_has_page(w, root, virt, phys);
    lemma_newly_has(a, b, root, virt, leaf, phys);
    assert forall|f: int| 0 <= f < base.total_frames implies ({
        let q = (f * 4096) as u64;
        #[trigger] is_used(b.pmm->0.bitmap@, f) == (is_used(base.bitmap@, f) || user_frame(
            w,
            root,
            q,
        ) || left.contains(q))
    }) by {
        let q = (f * 4096) as u64;
        assert(f * 4096 <= u64::MAX);
        assert(is_used(a.pmm->0.bitmap@, f) == (is_used(base.bitmap@, f) || user_frame(m, root, q)
            || loose.contains(q)));
        if is_used(b.pmm->0.bitmap@, f) {
            if is_used(a.pmm->0.bitmap@, f) {
                if user_frame(m, root, q) {
                    lemma_still_has(a, b, root, virt, leaf, q);
                }
            } else {
                lemma_way_frame(a, b, root, virt, f);
            }
        }
        if user_frame(w, root, q) {
            lemma_newly_has(a, b, root, virt, leaf, q);
            assert(q as int / 4096 == f);
        }
    }
    assert forall|f: int|
        0 <= f < base.total_frames && #[trigger] is_used(base.bitmap@, f) implies ({
        let q = (f * 4096) as u64;
        !user_frame(w, root, q) && !left.contains(q)
    }) by {
        let q = (f * 4096) as u64;
        assert(f * 4096 <= u64::MAX);
        assert(is_used(a.pmm->0.bitmap@, f));
        if user_frame(w, root, q) {
            lemma_newly_has(a, b, root, virt, leaf, q);
            assert(q as int / 4096 == f);
        }
    }
}

/// A frame that mapping a page has taken is a table on its way.
proof fn lemma_way_frame(a: PhysicalMemory, b: PhysicalMemory, root: u64, virt: u64, f: int)
    requires
        adds_way(a, b, root, virt),
        is_space(b, root),
        is_user_half(virt),
        0 <= f < a.pmm->0.total_frames,
        f * 4096 <= u64::MAX,
        !is_used(a.pmm->0.bitmap@, f),
        is_used(b.pmm->0.bitmap@, f),
    ensures
        user_frame(b.bytes@, root, (f * 4096) as u64),
{
    reveal(adds_way);
    let w = b.bytes@;
    assert(is_way_byte(w, root, virt, f * 4096));
    let l = choose|l: int|
        0 <= l <= 3 && ((#[trigger] table_at(w, root, virt, l)) matches Some(t) && t <= f * 4096 < t
            + 4096);
    let t = table_at(w, root, virt, l)->0;
    assert(in_memory(w, t));
    assert(t == f * 4096);
    lemma_has_table(w, root, virt, l);
}

} // verus!
