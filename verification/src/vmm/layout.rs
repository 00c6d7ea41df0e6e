//! The kernel's own address space: the direct map, the framebuffer and the
//! kernel image.

use vstd::prelude::*;
use crate::pmm::{
    alloc_frame_zeroed, is_used, keeps_used, page_down, phys_top, PhysicalMemory, PAGE_SIZE,
};
use super::closed::{
    is_closed, lemma_closed_empty, lemma_closed_huge, lemma_closed_mapped, lemma_kernel_entry,
};
use super::data::{keeps_data, lemma_data_same, lemma_data_step, lemma_data_twice};
use super::modes::{keeps_modes, lemma_leaf_mode, mode_at};
use super::region::is_plain;
use super::{
    cannot_map, entry, huge_of, in_memory, index_of, is_space, is_present, is_tree, leaf_at,
    leaf_of, lemma_apart, lemma_leaf_present, lemma_same_page_way, lemma_same_way, lemma_takes_only,
    lemma_uc_leaf, lemma_walked, lemma_zero_entry, lemma_zeroed_page, map2m, map_huge_outcome,
    map_outcome, same_way, split_flags, table_at, tables_in_memory, takes_only, try_map4k, walked,
    zeroed_page, MapError, Vmm, ADDR_MASK, HUGE_2M, HUGE_2M_MASK, KERNEL_RW, PHYS_LIMIT, PRESENT,
    USER,
};

verus! {

/// Whether one of the first `n` ranges holds `x`.
pub open spec fn covers(r: Seq<(u64, u64)>, n: int, x: int) -> bool {
    exists|i: int| 0 <= i < n && (#[trigger] r[i]).0 <= x < r[i].1
}

/// Whether the first `n` ranges are in order.
pub open spec fn is_sorted(r: Seq<(u64, u64)>, n: int) -> bool {
    forall|i: int, j: int| 0 <= i <= j < n ==> (#[trigger] r[i]).0 <= (#[trigger] r[j]).0
}

/// Whether none of the first `n` ranges is empty.
pub open spec fn no_empty(r: Seq<(u64, u64)>, n: int) -> bool {
    forall|i: int| 0 <= i < n ==> (#[trigger] r[i]).0 < r[i].1
}

proof fn lemma_none_empty(a: Seq<(u64, u64)>, b: Seq<(u64, u64)>)
    requires
        a.to_multiset() == b.to_multiset(),
    ensures
        no_empty(a, a.len() as int) ==> no_empty(b, b.len() as int),
{
    broadcast use vstd::seq_lib::group_to_multiset_ensures;

    if no_empty(a, a.len() as int) {
        assert forall|i: int| 0 <= i < b.len() implies (#[trigger] b[i]).0 < b[i].1 by {
            assert(b.contains(b[i]));
            assert(a.to_multiset().count(b[i]) > 0);
            assert(a.contains(b[i]));
        }
    }
}

/// Sort the ranges by where they start.
fn sort_ranges(r: &mut Vec<(u64, u64)>)
    ensures
        final(r)@.len() == old(r)@.len(),
        is_sorted(final(r)@, final(r)@.len() as int),
        final(r)@.to_multiset() == old(r)@.to_multiset(),
        forall|x: int|
            covers(final(r)@, final(r)@.len() as int, x) == covers(
                old(r)@,
                old(r)@.len() as int,
                x,
            ),
{
    let n: usize = r.len();
    let mut i: usize = 1;
    while i < n
        invariant
            1 <= i,
            i <= n || n == 0,
            n == r@.len(),
            n == old(r)@.len(),
            is_sorted(r@, if i <= n {
                i as int
            } else {
                n as int
            }),
            r@.to_multiset() == old(r)@.to_multiset(),
        decreases n - i,
    {
        let mut j: usize = i;
        while j > 0 && r[j - 1].0 > r[j].0
            invariant
                j <= i < n,
                n == r@.len(),
                n == old(r)@.len(),
                r@.to_multiset() == old(r)@.to_multiset(),
                forall|a: int, b: int|
                    0 <= a <= b <= i && a != j && b != j ==> (#[trigger] r@[a]).0 <= (
                    #[trigger] r@[b]).0,
                forall|b: int| j < b <= i ==> r@[j as int].0 <= (#[trigger] r@[b]).0,
            decreases j,
        {
            let ghost before = r@;
            let a: (u64, u64) = r[j - 1];
            let b: (u64, u64) = r[j];
            r[j - 1] = b;
            r[j] = a;
            proof {
                assert(r@ =~= before.update(j - 1, b).update(j as int, a));
                vstd::seq_lib::to_multiset_update(before, j - 1, b);
                vstd::seq_lib::to_multiset_update(before.update(j - 1, b), j as int, a);
                broadcast use vstd::seq_lib::group_to_multiset_ensures;
                assert(before.to_multiset().count(a) > 0) by {
                    assert(before.contains(before[j - 1]));
                }
                assert(before.update(j - 1, b).contains(b)) by {
                    assert(before.update(j - 1, b)[j as int] == b);
                }
                assert(r@.to_multiset() =~= before.to_multiset());
            }
            j -= 1;
        }
        i += 1;
    }
    proof {
        lemma_cover_multiset(old(r)@, r@);
    }
}

proof fn lemma_cover_multiset(a: Seq<(u64, u64)>, b: Seq<(u64, u64)>)
    requires
        a.to_multiset() == b.to_multiset(),
    ensures
        forall|x: int| covers(a, a.len() as int, x) == covers(b, b.len() as int, x),
{
    broadcast use vstd::seq_lib::group_to_multiset_ensures;

    assert forall|x: int| covers(a, a.len() as int, x) == covers(b, b.len() as int, x) by {
        if covers(a, a.len() as int, x) {
            let i = choose|i: int| 0 <= i < a.len() && (#[trigger] a[i]).0 <= x < a[i].1;
            assert(a.contains(a[i]));
            assert(a.to_multiset().count(a[i]) > 0);
            assert(b.to_multiset().count(a[i]) > 0);
            assert(b.contains(a[i]));
            let j = choose|j: int| 0 <= j < b.len() && b[j] == a[i];
            assert(b[j].0 <= x < b[j].1);
        }
        if covers(b, b.len() as int, x) {
            let i = choose|i: int| 0 <= i < b.len() && (#[trigger] b[i]).0 <= x < b[i].1;
            assert(b.contains(b[i]));
            assert(b.to_multiset().count(b[i]) > 0);
            assert(a.to_multiset().count(b[i]) > 0);
            assert(a.contains(b[i]));
            let j = choose|j: int| 0 <= j < a.len() && a[j] == b[i];
            assert(a[j].0 <= x < a[j].1);
        }
    }
}

/// Sort `[start, end)` ranges and merge any that touch or overlap. The first of
/// the ranges are what remains; how many they are comes back.
pub fn merge_ranges(r: &mut Vec<(u64, u64)>) -> (n: usize)
    ensures
        final(r)@.len() == old(r)@.len(),
        n <= final(r)@.len(),
        forall|x: int|
            covers(final(r)@, n as int, x) == covers(old(r)@, old(r)@.len() as int, x),
        forall|i: int, j: int|
            0 <= i < j < n ==> (#[trigger] final(r)@[i]).1 < (#[trigger] final(r)@[j]).0
                || final(r)@[i].1 < final(r)@[i].0,
        is_sorted(final(r)@, n as int),
        no_empty(old(r)@, old(r)@.len() as int) ==> no_empty(final(r)@, n as int),
{
    sort_ranges(r);
    let ghost s = r@;
    proof {
        lemma_none_empty(old(r)@, s);
    }
    let total: usize = r.len();
    let mut out: usize = 0;
    let mut i: usize = 0;
    while i < total
        invariant
            total == s.len(),
            r@.len() == s.len(),
            out <= i <= total,
            i > 0 ==> out > 0,
            is_sorted(s, s.len() as int),
            is_sorted(r@, out as int),
            forall|k: int| i <= k < total ==> r@[k] == #[trigger] s[k],
            forall|x: int| covers(r@, out as int, x) == covers(s, i as int, x),
            forall|a: int, b: int|
                0 <= a < b < out ==> (#[trigger] r@[a]).1 < (#[trigger] r@[b]).0 || r@[a].1
                    < r@[a].0,
            forall|a: int| 0 <= a < out && i < total ==> (#[trigger] r@[a]).0 <= s[i as int].0,
            no_empty(s, s.len() as int) ==> no_empty(r@, out as int),
            no_empty(old(r)@, old(r)@.len() as int) ==> no_empty(s, s.len() as int),
        decreases total - i,
    {
        let ghost before = r@;
        let e: (u64, u64) = r[i];
        assert(e == s[i as int]);
        if out > 0 && e.0 <= r[out - 1].1 {
            let last: (u64, u64) = r[out - 1];
            if e.1 > last.1 {
                r[out - 1] = (last.0, e.1);
            }
            assert forall|x: int| covers(r@, out as int, x) == covers(s, i + 1, x) by {
                lemma_cover_merge(before, r@, s, out as int, i as int, x);
            }
        } else {
            r[out] = e;
            out += 1;
            assert forall|x: int| covers(r@, out as int, x) == covers(s, i + 1, x) by {
                lemma_cover_push(before, r@, s, out as int, i as int, x);
            }
        }
        i += 1;
    }
    assert forall|x: int| covers(r@, out as int, x) == covers(
        old(r)@,
        old(r)@.len() as int,
        x,
    ) by {
        assert(covers(r@, out as int, x) == covers(s, i as int, x));
    }
    out
}

proof fn lemma_cover_merge(
    before: Seq<(u64, u64)>,
    after: Seq<(u64, u64)>,
    s: Seq<(u64, u64)>,
    out: int,
    i: int,
    x: int,
)
    requires
        0 < out <= i < s.len(),
        before.len() == s.len(),
        covers(before, out, x) == covers(s, i, x),
        before[out - 1].0 <= s[i].0 <= before[out - 1].1,
        after == if s[i].1 > before[out - 1].1 {
            before.update(out - 1, (before[out - 1].0, s[i].1))
        } else {
            before
        },
    ensures
        covers(after, out, x) == covers(s, i + 1, x),
{
    if covers(after, out, x) {
        let k = choose|k: int| 0 <= k < out && (#[trigger] after[k]).0 <= x < after[k].1;
        if k < out - 1 {
            assert(before[k].0 <= x < before[k].1);
        } else if x < before[out - 1].1 {
            assert(before[out - 1].0 <= x < before[out - 1].1);
        } else {
            assert(s[i].0 <= x < s[i].1);
        }
        if covers(s, i, x) {
            let q = choose|q: int| 0 <= q < i && (#[trigger] s[q]).0 <= x < s[q].1;
            assert(s[q].0 <= x);
        }
    }
    if covers(s, i + 1, x) {
        let q = choose|q: int| 0 <= q < i + 1 && (#[trigger] s[q]).0 <= x < s[q].1;
        if q < i {
            assert(covers(s, i, x));
            let k = choose|k: int| 0 <= k < out && (#[trigger] before[k]).0 <= x < before[k].1;
            assert(after[k].0 <= x < after[k].1);
        } else {
            assert(after[out - 1].0 <= x < after[out - 1].1);
        }
    }
}

proof fn lemma_cover_push(
    before: Seq<(u64, u64)>,
    after: Seq<(u64, u64)>,
    s: Seq<(u64, u64)>,
    out: int,
    i: int,
    x: int,
)
    requires
        0 < out <= i + 1 <= s.len(),
        before.len() == s.len(),
        covers(before, out - 1, x) == covers(s, i, x),
        after == before.update(out - 1, s[i]),
    ensures
        covers(after, out, x) == covers(s, i + 1, x),
{
    if covers(after, out, x) {
        let k = choose|k: int| 0 <= k < out && (#[trigger] after[k]).0 <= x < after[k].1;
        if k < out - 1 {
            assert(before[k].0 <= x < before[k].1);
            assert(covers(s, i, x));
            let q = choose|q: int| 0 <= q < i && (#[trigger] s[q]).0 <= x < s[q].1;
            assert(s[q].0 <= x < s[q].1);
        } else {
            assert(s[i].0 <= x < s[i].1);
        }
    }
    if covers(s, i + 1, x) {
        let q = choose|q: int| 0 <= q < i + 1 && (#[trigger] s[q]).0 <= x < s[q].1;
        if q < i {
            assert(s[q].0 <= x < s[q].1);
            assert(covers(s, i, x));
            let k = choose|k: int| 0 <= k < out - 1 && (#[trigger] before[k]).0 <= x < before[k].1;
            assert(after[k].0 <= x < after[k].1);
        } else {
            assert(after[out - 1].0 <= x < after[out - 1].1);
        }
    }
}

/// The EFER value with no-execute pages enabled.
pub fn nxe_value(efer: u64) -> (r: u64)
    ensures
        r == efer | 0x800,
{
    efer | 0x800
}

/// The PAT value with slot 1 turned to write-combining.
pub fn pat_value(pat: u64) -> (r: u64)
    ensures
        r == (pat & !0xff00u64) | 0x100,
{
    (pat & !0xff00u64) | 0x100
}

/// Whether memory from `start` up to `p` is shown at `base` with these flags, and
/// addresses outside the range up to `end` are mapped as before.
pub open spec fn is_shown(
    m: Seq<u8>,
    w: Seq<u8>,
    root: u64,
    base: u64,
    start: u64,
    end: u64,
    p: u64,
    mode: u64,
) -> bool {
    &&& forall|q: u64|
        start <= q < p && q < end ==> #[trigger] walked(w, root, (base + q) as u64) == Some(q)
    &&& forall|q: u64|
        start <= q < p && q < end ==> #[trigger] mode_at(w, root, (base + q) as u64) == Some(mode)
    &&& forall|v: u64|
        is_outside(v, base, start, end) ==> #[trigger] walked(w, root, v) == walked(m, root, v)
    &&& forall|v: u64|
        is_outside(v, base, start, end) ==> #[trigger] mode_at(w, root, v) == mode_at(m, root, v)
}

/// The flags of a page that was mapped with these.
proof fn lemma_leaf_flags(p: u64, flags: u64)
    requires
        flags & ADDR_MASK == 0,
    ensures
        leaf_of(p, flags) & !ADDR_MASK == flags | PRESENT,
{
    assert(((p & 0x000f_ffff_ffff_f000) | flags | 1) & !0x000f_ffff_ffff_f000u64 == flags | 1)
        by (bit_vector)
        requires
            flags & 0x000f_ffff_ffff_f000 == 0,
    ;
}

/// The flags of the large pages of the direct map.
proof fn lemma_huge_flags(p: u64)
    ensures
        split_flags(huge_of(p, KERNEL_RW)) == KERNEL_RW,
        KERNEL_RW | PRESENT == KERNEL_RW,
        KERNEL_RW & ADDR_MASK == 0,
{
    let e = huge_of(p, KERNEL_RW);
    assert(e & !0x000f_ffff_ffff_f000u64 & !0x80u64 == 1u64 | 2 | 0x8000_0000_0000_0000 && e & 0x1000
        == 0) by (bit_vector)
        requires
            e == (p & 0x000f_ffff_ffe0_0000) | (1u64 | 2 | 0x8000_0000_0000_0000) | 1 | 0x80,
    ;
    assert((1u64 | 2 | 0x8000_0000_0000_0000) | 1 == 1u64 | 2 | 0x8000_0000_0000_0000 && (1u64 | 2
        | 0x8000_0000_0000_0000) & 0x000f_ffff_ffff_f000 == 0) by (bit_vector);
}

/// Whether an address lies in no page at which `[start, end)` is shown.
#[verifier::opaque]
pub open spec fn is_outside(v: u64, base: u64, start: u64, end: u64) -> bool {
    forall|q: u64| start <= q < end ==> !#[trigger] same_way(v, (base + q) as u64, 4)
}

/// Addresses in one 2 MiB page go the same way down to its entry.
proof fn lemma_2m_way(a: u64, b: u64)
    requires
        a as int / 0x20_0000 == b as int / 0x20_0000,
    ensures
        same_way(a, b, 3),
{
    let x = a as int / 0x20_0000;
    assert(a as int / 0x4000_0000 == x / 512);
    assert(a as int / 0x80_0000_0000 == x / 0x4_0000);
    assert(b as int / 0x4000_0000 == x / 512);
    assert(b as int / 0x80_0000_0000 == x / 0x4_0000);
}

/// Addresses in different 2 MiB pages that are not too far apart part ways
/// above them.
proof fn lemma_2m_apart(a: u64, b: u64)
    requires
        a as int / 0x20_0000 != b as int / 0x20_0000,
        -0xffff_ffe0_0000 <= a - b <= 0xffff_ffe0_0000,
    ensures
        !same_way(a, b, 3),
{
    if same_way(a, b, 3) {
        let x = a as int / 0x20_0000;
        let y = b as int / 0x20_0000;
        assert(x % 512 == y % 512);
        assert(a as int / 0x4000_0000 == x / 512);
        assert(b as int / 0x4000_0000 == y / 512);
        let x1 = x / 512;
        let y1 = y / 512;
        let x2 = x1 / 512;
        let y2 = y1 / 512;
        assert(a as int / 0x80_0000_0000 == x2);
        assert(b as int / 0x80_0000_0000 == y2);
        assert(x1 % 512 == y1 % 512);
        assert(x2 % 512 == y2 % 512);
        let n = x2 / 512 - y2 / 512;
        assert(x - y == n * 0x800_0000) by {
            assert(x == x1 * 512 + x % 512 && y == y1 * 512 + y % 512);
            assert(x1 == x2 * 512 + x1 % 512 && y1 == y2 * 512 + y1 % 512);
            assert(x2 == x2 / 512 * 512 + x2 % 512 && y2 == y2 / 512 * 512 + y2 % 512);
        }
        assert(-0x800_0000 < x - y < 0x800_0000);
    }
}

/// Addresses that go through the same entry of a page directory, as far as
/// their place in it goes.
proof fn lemma_in_same_2m(v: u64, b: u64) -> (q: u64)
    requires
        same_way(v, b, 3),
        b % 0x20_0000 == 0,
        b + 0x20_0000 <= u64::MAX,
    ensures
        b <= q < b + 0x20_0000,
        same_way(v, q, 4),
{
    let q = (b + v % 0x20_0000) as u64;
    assert(q as int / 0x20_0000 == b as int / 0x20_0000);
    lemma_2m_way(q, b);
    assert(q % 0x20_0000 == v % 0x20_0000);
    lemma_page_in_2m(q as int);
    lemma_page_in_2m(v as int);
    q
}

proof fn lemma_page_in_2m(x: int)
    requires
        0 <= x,
    ensures
        x / 0x1000 % 512 == (x % 0x20_0000) / 0x1000,
{
    let k = x / 0x20_0000;
    let r = x % 0x20_0000;
    assert(x / 0x1000 == k * 512 + r / 0x1000);
    assert(0 <= r / 0x1000 < 512);
}

proof fn lemma_2m_leaf(p: u64)
    requires
        p % 0x20_0000 == 0,
        p < PHYS_LIMIT,
    ensures
        huge_of(p, KERNEL_RW) & HUGE_2M_MASK == p,
{
    assert(((p & 0x000f_ffff_ffe0_0000) | (1u64 | 2 | 0x8000_0000_0000_0000) | 1 | 0x80)
        & 0x000f_ffff_ffe0_0000 == p) by (bit_vector)
        requires
            p % 0x20_0000 == 0,
            p < 0x10_0000_0000_0000,
    ;
}

pub proof fn lemma_frame_itself(p: u64)
    requires
        p % 4096 == 0,
        p < PHYS_LIMIT,
    ensures
        p & ADDR_MASK == p,
{
    assert(p & 0x000f_ffff_ffff_f000 == p) by (bit_vector)
        requires
            p % 4096 == 0,
            p < 0x10_0000_0000_0000,
    ;
}

/// Pages of the direct map are pages of memory.
proof fn lemma_shown_page(base: u64, q: u64, p: u64)
    requires
        base % 4096 == 0,
        p % 4096 == 0,
        base + q <= u64::MAX,
        base + p <= u64::MAX,
    ensures
        (base + q) as u64 % 4096 == q % 4096,
        p <= q < p + 4096 ==> (base + q) / 4096 == (base + p) / 4096 && q == p + q % 4096,
        q < p ==> (base + q) / 4096 != (base + p) / 4096,
{
    let b = base as int / 4096;
    let k = p as int / 4096;
    let i = q as int / 4096;
    let r = q as int % 4096;
    assert(base == 4096 * b);
    assert(p == 4096 * k);
    assert(q == 4096 * i + r);
    assert(base + q == 4096 * (b + i) + r);
    assert((base + q) / 4096 == b + i);
    assert((base + p) / 4096 == b + k);
}

#[verifier::spinoff_prover]
proof fn lemma_show_page(
    m: Seq<u8>,
    b: Seq<u8>,
    w: Seq<u8>,
    root: u64,
    base: u64,
    start: u64,
    end: u64,
    p: u64,
    mode: u64,
)
    requires
        is_shown(m, b, root, base, start, end, p, mode),
        base % 4096 == 0,
        p % 4096 == 0,
        end % 4096 == 0,
        start <= p < end,
        end <= PHYS_LIMIT,
        base + end <= u64::MAX,
        end - start <= 0xffff_ffff_f000,
        forall|v: u64|
            !same_way(v, (base + p) as u64, 4) ==> #[trigger] walked(w, root, v) == walked(
                b,
                root,
                v,
            ),
        forall|v: u64|
            same_way(v, (base + p) as u64, 4) ==> #[trigger] walked(w, root, v) == Some(
                ((p & ADDR_MASK) + v % PAGE_SIZE) as u64,
            ),
        keeps_modes(b, w, root, (base + p) as u64, 4),
        leaf_at(w, root, (base + p) as u64) matches Some(e) && is_present(e) && e & !ADDR_MASK
            == mode,
    ensures
        is_shown(m, w, root, base, start, end, (p + 4096) as u64, mode),
{
    reveal(keeps_modes);
    let virt = (base + p) as u64;
    lemma_frame_itself(p);
    assert forall|q: u64| start <= q < p + 4096 && q < end implies #[trigger] walked(
        w,
        root,
        (base + q) as u64,
    ) == Some(q) by {
        let v = (base + q) as u64;
        lemma_shown_page(base, q, p);
        if q >= p {
            lemma_same_page_way(v, virt);
        } else {
            lemma_apart(v, virt);
            assert(walked(b, root, v) == Some(q));
        }
    }
    assert forall|q: u64| start <= q < p + 4096 && q < end implies #[trigger] mode_at(
        w,
        root,
        (base + q) as u64,
    ) == Some(mode) by {
        let v = (base + q) as u64;
        lemma_shown_page(base, q, p);
        if q >= p {
            lemma_same_page_way(v, virt);
            lemma_same_way(w, root, v, virt, 3);
            lemma_leaf_mode(w, root, v);
        } else {
            lemma_apart(v, virt);
            assert(mode_at(b, root, v) == Some(mode));
        }
    }
    assert forall|v: u64| is_outside(v, base, start, end) implies #[trigger] walked(w, root, v)
        == walked(m, root, v) by {
        reveal(is_outside);
        assert(!same_way(v, (base + p) as u64, 4));
        assert(walked(b, root, v) == walked(m, root, v));
    }
    assert forall|v: u64| is_outside(v, base, start, end) implies #[trigger] mode_at(w, root, v)
        == mode_at(m, root, v) by {
        reveal(is_outside);
        assert(!same_way(v, (base + p) as u64, 4));
        assert(mode_at(b, root, v) == mode_at(m, root, v));
    }
}

#[verifier::spinoff_prover]
proof fn lemma_show_huge(
    m: Seq<u8>,
    b: Seq<u8>,
    w: Seq<u8>,
    root: u64,
    base: u64,
    start: u64,
    end: u64,
    p: u64,
)
    requires
        is_shown(m, b, root, base, start, end, p, KERNEL_RW),
        base % 0x20_0000 == 0,
        p % 0x20_0000 == 0,
        start <= p,
        p + 0x20_0000 <= end <= PHYS_LIMIT,
        base + end <= u64::MAX,
        end - start <= 0xffff_ffe0_0000,
        forall|v: u64|
            !same_way(v, (base + p) as u64, 3) ==> #[trigger] walked(w, root, v) == walked(
                b,
                root,
                v,
            ),
        forall|v: u64|
            same_way(v, (base + p) as u64, 3) ==> #[trigger] walked(w, root, v) == Some(
                ((huge_of(p, KERNEL_RW) & HUGE_2M_MASK) + v % HUGE_2M) as u64,
            ),
        keeps_modes(b, w, root, (base + p) as u64, 3),
        forall|v: u64|
            same_way(v, (base + p) as u64, 3) ==> #[trigger] mode_at(w, root, v) == Some(
                split_flags(huge_of(p, KERNEL_RW)),
            ),
    ensures
        is_shown(m, w, root, base, start, end, (p + 0x20_0000) as u64, KERNEL_RW),
{
    reveal(keeps_modes);
    lemma_huge_flags(p);
    let virt = (base + p) as u64;
    lemma_2m_leaf(p);
    assert forall|q: u64| start <= q < p + 0x20_0000 && q < end implies #[trigger] walked(
        w,
        root,
        (base + q) as u64,
    ) == Some(q) by {
        let v = (base + q) as u64;
        if q >= p {
            assert(v as int / 0x20_0000 == virt as int / 0x20_0000);
            lemma_2m_way(v, virt);
            assert(v % 0x20_0000 == q % 0x20_0000);
        } else {
            assert(v as int / 0x20_0000 != virt as int / 0x20_0000);
            lemma_2m_apart(v, virt);
            assert(walked(b, root, v) == Some(q));
        }
    }
    assert forall|q: u64| start <= q < p + 0x20_0000 && q < end implies #[trigger] mode_at(
        w,
        root,
        (base + q) as u64,
    ) == Some(KERNEL_RW) by {
        let v = (base + q) as u64;
        if q >= p {
            assert(v as int / 0x20_0000 == virt as int / 0x20_0000);
            lemma_2m_way(v, virt);
        } else {
            assert(v as int / 0x20_0000 != virt as int / 0x20_0000);
            lemma_2m_apart(v, virt);
            assert(mode_at(b, root, v) == Some(KERNEL_RW));
        }
    }
    assert forall|v: u64| is_outside(v, base, start, end) implies #[trigger] mode_at(w, root, v)
        == mode_at(m, root, v) by {
        reveal(is_outside);
        if same_way(v, virt, 3) {
            let x = lemma_in_same_2m(v, virt);
            let q = (x - base) as u64;
            assert(same_way(v, (base + q) as u64, 4));
        }
        assert(mode_at(b, root, v) == mode_at(m, root, v));
    }
    assert forall|v: u64| is_outside(v, base, start, end) implies #[trigger] walked(w, root, v)
        == walked(m, root, v) by {
        reveal(is_outside);
        if same_way(v, virt, 3) {
            let x = lemma_in_same_2m(v, virt);
            let q = (x - base) as u64;
            assert(same_way(v, (base + q) as u64, 4));
        }
        assert(walked(b, root, v) == walked(m, root, v));
    }
}

/// Whether no page, small or large, can be mapped at an address, and why.
pub open spec fn fails_at(mem: PhysicalMemory, root: u64, v: u64, e: MapError) -> bool {
    map_outcome(mem, root, v) == Err::<(), MapError>(e) || map_huge_outcome(mem, root, v) == Err::<
        (),
        MapError,
    >(e)
}

/// Whether some page of a range cannot be mapped, and why.
#[verifier::opaque]
pub open spec fn cannot_show(mem: PhysicalMemory, root: u64, from: int, to: int, e: MapError) -> bool {
    exists|v: u64| from <= v < to && #[trigger] fails_at(mem, root, v, e)
}

proof fn lemma_fails(mem: PhysicalMemory, root: u64, v: u64, from: int, to: int, e: MapError)
    requires
        from <= v < to,
        map_outcome(mem, root, v) == Err::<(), MapError>(e) || map_huge_outcome(mem, root, v) == Err::<
            (),
            MapError,
        >(e),
    ensures
        cannot_show(mem, root, from, to, e),
{
    reveal(cannot_show);
    assert(fails_at(mem, root, v, e));
}

/// Map physical `[start, end)` into the direct map, using 2 MiB pages wherever
/// a whole aligned 2 MiB fits inside the range and 4 KiB pages elsewhere.
#[verifier::spinoff_prover]
#[verifier::rlimit(60)]
pub fn map_hhdm_range(mem: &mut PhysicalMemory, root: u64, hhdm: u64, start: u64, end: u64) -> (r:
    Result<(), MapError>)
    requires
        is_space(*old(mem), root),
        hhdm % 0x20_0000 == 0,
        start % 4096 == 0,
        end % 4096 == 0,
        end <= PHYS_LIMIT,
        hhdm + end <= u64::MAX,
        end - start <= 0xffff_ffe0_0000,
    ensures
        is_space(*final(mem), root),
        final(mem).hhdm == old(mem).hhdm,
        r is Ok ==> is_shown(
            old(mem).bytes@,
            final(mem).bytes@,
            root,
            hhdm,
            start,
            end,
            end,
            KERNEL_RW,
        ),
        r matches Err(e) ==> cannot_show(*final(mem), root, hhdm + start, hhdm + end, e),
        is_closed(old(mem).bytes@, root) ==> is_closed(final(mem).bytes@, root),
        keeps_data(*old(mem), *final(mem), root),
{
    let mut p: u64 = start;
    proof {
        lemma_data_same(*mem, *mem, root);
    }
    while p < end
        invariant
            is_space(*mem, root),
            mem.hhdm == old(mem).hhdm,
            hhdm % 0x20_0000 == 0,
            p % 4096 == 0,
            start % 4096 == 0,
            end % 4096 == 0,
            end <= PHYS_LIMIT,
            hhdm + end <= u64::MAX,
            end - start <= 0xffff_ffe0_0000,
            start <= p,
            p <= end || p == start,
            is_shown(old(mem).bytes@, mem.bytes@, root, hhdm, start, end, p, KERNEL_RW),
            is_closed(old(mem).bytes@, root) ==> is_closed(mem.bytes@, root),
            is_space(*old(mem), root),
            keeps_data(*old(mem), *mem, root),
        decreases end - p,
    {
        let ghost b = mem.bytes@;
        let ghost a = *mem;
        let ghost virt: u64 = (hhdm + p) as u64;
        proof {
            lemma_kernel_rw();
            lemma_kernel_entry(p, KERNEL_RW);
        }
        if p % HUGE_2M == 0 && end - p >= HUGE_2M {
            match map2m(mem, root, hhdm + p, p, KERNEL_RW) {
                Ok(_) => {},
                Err(e) => {
                    proof {
                        lemma_fails(*mem, root, virt, hhdm + start, hhdm + end, e);
                    }
                    return Err(e);
                },
            }
            proof {
                lemma_data_twice(*old(mem), a, *mem, root);
                lemma_show_huge(old(mem).bytes@, b, mem.bytes@, root, hhdm, start, end, p);
                if is_closed(b, root) {
                    lemma_closed_huge(b, mem.bytes@, root, virt);
                }
            }
            p += HUGE_2M;
        } else {
            match try_map4k(mem, root, hhdm + p, p, KERNEL_RW) {
                Ok(_) => {},
                Err(e) => {
                    proof {
                        lemma_fails(*mem, root, virt, hhdm + start, hhdm + end, e);
                    }
                    return Err(e);
                },
            }
            proof {
                lemma_data_step(a, *mem, root, virt);
                lemma_data_twice(*old(mem), a, *mem, root);
                lemma_uc_leaf(p);
                lemma_leaf_present(p, KERNEL_RW);
                lemma_huge_flags(p);
                lemma_leaf_flags(p, KERNEL_RW);
                lemma_show_page(
                    old(mem).bytes@,
                    b,
                    mem.bytes@,
                    root,
                    hhdm,
                    start,
                    end,
                    p,
                    KERNEL_RW,
                );
                if is_closed(b, root) {
                    lemma_closed_mapped(a, *mem, root, virt, leaf_of(p, KERNEL_RW));
                }
            }
            p += PAGE_SIZE;
        }
    }
    Ok(())
}

/// Show the physical pages `[start, end)` at `base`, with the given flags, by
/// 4 KiB pages.
pub fn map_pages(
    mem: &mut PhysicalMemory,
    root: u64,
    base: u64,
    start: u64,
    end: u64,
    flags: u64,
) -> (r: Result<(), MapError>)
    requires
        is_space(*old(mem), root),
        base % 4096 == 0,
        start % 4096 == 0,
        end % 4096 == 0,
        end <= PHYS_LIMIT,
        base + end <= u64::MAX,
        end - start <= 0xffff_ffff_f000,
        flags & ADDR_MASK == 0,
    ensures
        is_space(*final(mem), root),
        final(mem).hhdm == old(mem).hhdm,
        r is Ok ==> is_shown(
            old(mem).bytes@,
            final(mem).bytes@,
            root,
            base,
            start,
            end,
            end,
            flags | PRESENT,
        ),
        r matches Err(e) ==> cannot_map(*final(mem), root, base + start, base + end, e),
        is_closed(old(mem).bytes@, root) && flags & USER == 0 ==> is_closed(
            final(mem).bytes@,
            root,
        ),
        keeps_data(*old(mem), *final(mem), root),
{
    let mut p: u64 = start;
    proof {
        lemma_data_same(*mem, *mem, root);
    }
    while p < end
        invariant
            is_space(*mem, root),
            mem.hhdm == old(mem).hhdm,
            base % 4096 == 0,
            p % 4096 == 0,
            end % 4096 == 0,
            end <= PHYS_LIMIT,
            base + end <= u64::MAX,
            end - start <= 0xffff_ffff_f000,
            flags & ADDR_MASK == 0,
            start <= p,
            p <= end || p == start,
            is_shown(
                old(mem).bytes@,
                mem.bytes@,
                root,
                base,
                start,
                end,
                p,
                flags | PRESENT,
            ),
            is_closed(old(mem).bytes@, root) && flags & USER == 0 ==> is_closed(mem.bytes@, root),
            is_space(*old(mem), root),
            keeps_data(*old(mem), *mem, root),
        decreases end - p,
    {
        let ghost b = mem.bytes@;
        let ghost a = *mem;
        try_map4k(mem, root, base + p, p, flags)?;
        proof {
            lemma_data_step(a, *mem, root, (base + p) as u64);
            lemma_data_twice(*old(mem), a, *mem, root);
            lemma_leaf_present(p, flags);
            lemma_leaf_flags(p, flags);
            lemma_show_page(
                old(mem).bytes@,
                b,
                mem.bytes@,
                root,
                base,
                start,
                end,
                p,
                flags | PRESENT,
            );
            if is_closed(b, root) && flags & USER == 0 {
                lemma_kernel_entry(p, flags);
                lemma_closed_mapped(a, *mem, root, (base + p) as u64, leaf_of(p, flags));
            }
        }
        p += PAGE_SIZE;
    }
    Ok(())
}

/// A piece of physical memory and where the kernel sees it.
#[derive(Clone, Copy, Debug, PartialEq, Eq, Structural)]
pub struct Mapping {
    /// Where physical address 0 would be seen.
    pub base: u64,
    pub start: u64,
    pub end: u64,
    pub flags: u64,
    /// Whether 2 MiB pages are used where they fit. They are always read-write
    /// and not executable.
    pub huge: bool,
}

/// The first address of kernel space.
pub const KERNEL_SPACE: u64 = 0xffff_8000_0000_0000;

impl Mapping {
    pub open spec fn wf(self) -> bool {
        &&& self.start <= self.end <= PHYS_LIMIT
        &&& self.start % 4096 == 0
        &&& self.end % 4096 == 0
        &&& self.base % (if self.huge {
            0x20_0000u64
        } else {
            4096u64
        }) == 0
        &&& self.base + self.start >= KERNEL_SPACE
        &&& self.base + self.end <= u64::MAX
        &&& self.end - self.start <= 0xffff_ffe0_0000
        &&& self.flags & ADDR_MASK == 0
    }

    /// The flags that its pages have.
    pub open spec fn mode(self) -> u64 {
        if self.huge {
            KERNEL_RW
        } else {
            self.flags | PRESENT
        }
    }

    /// Whether an address shows a byte of this piece.
    pub open spec fn shows(self, v: u64) -> bool {
        self.base + self.start <= v < self.base + self.end
    }
}

/// What an address is mapped to by the first `n` mappings made one after the
/// other, and by `before` where none of them shows it.
pub open spec fn last_shown(maps: Seq<Mapping>, n: int, v: u64, before: Option<u64>) -> Option<u64>
    decreases n,
{
    if n <= 0 {
        before
    } else if maps[n - 1].shows(v) {
        Some((v - maps[n - 1].base) as u64)
    } else {
        last_shown(maps, n - 1, v, before)
    }
}

/// The flags that an address is mapped with by the first `n` mappings made one after
/// the other, and by `before` where none of them shows it.
pub open spec fn last_mode(maps: Seq<Mapping>, n: int, v: u64, before: Option<u64>) -> Option<u64>
    decreases n,
{
    if n <= 0 {
        before
    } else if maps[n - 1].shows(v) {
        Some(maps[n - 1].mode())
    } else {
        last_mode(maps, n - 1, v, before)
    }
}

/// An address of kernel space that shows no byte of a piece lies in none of the
/// pages that do.
proof fn lemma_is_outside(k: Mapping, v: u64)
    requires
        k.wf(),
        v >= KERNEL_SPACE,
        !k.shows(v),
    ensures
        is_outside(v, k.base, k.start, k.end),
{
    reveal(is_outside);
    assert forall|q: u64| k.start <= q < k.end implies !#[trigger] same_way(
        v,
        (k.base + q) as u64,
        4,
    ) by {
        let x = (k.base + q) as u64;
        assert(k.base % 4096 == 0);
        assert(v as int / 4096 != x as int / 4096);
        lemma_apart(v, x);
    }
}

/// Whether no mapping is for user mode.
pub open spec fn none_for_users(maps: Seq<Mapping>) -> bool {
    forall|i: int| 0 <= i < maps.len() ==> (#[trigger] maps[i]).flags & USER == 0
}

proof fn lemma_kernel_rw()
    ensures
        KERNEL_RW & USER == 0,
{
    assert((1u64 | 2 | 0x8000_0000_0000_0000) & 4 == 0) by (bit_vector);
}

/// Whether a page of some mapping cannot be mapped, and why.
pub open spec fn some_fails(mem: PhysicalMemory, root: u64, maps: Seq<Mapping>, e: MapError) -> bool {
    exists|i: int|
        0 <= i < maps.len() && cannot_show(
            mem,
            root,
            (#[trigger] maps[i]).base + maps[i].start,
            maps[i].base + maps[i].end,
            e,
        )
}

/// Make mappings one after the other. An address is then mapped as the last
/// mapping that shows it says.
pub fn map_all(mem: &mut PhysicalMemory, root: u64, maps: &[Mapping]) -> (r: Result<(), MapError>)
    requires
        is_space(*old(mem), root),
        forall|i: int| 0 <= i < maps@.len() ==> (#[trigger] maps@[i]).wf(),
    ensures
        is_space(*final(mem), root),
        final(mem).hhdm == old(mem).hhdm,
        r is Ok ==> forall|v: u64|
            v >= KERNEL_SPACE ==> #[trigger] walked(final(mem).bytes@, root, v) == last_shown(
                maps@,
                maps@.len() as int,
                v,
                walked(old(mem).bytes@, root, v),
            ),
        r is Ok ==> forall|v: u64|
            v >= KERNEL_SPACE ==> #[trigger] mode_at(final(mem).bytes@, root, v) == last_mode(
                maps@,
                maps@.len() as int,
                v,
                mode_at(old(mem).bytes@, root, v),
            ),
        r matches Err(e) ==> some_fails(*final(mem), root, maps@, e),
        is_closed(old(mem).bytes@, root) && none_for_users(maps@) ==> is_closed(
            final(mem).bytes@,
            root,
        ),
        keeps_data(*old(mem), *final(mem), root),
{
    let ghost m = mem.bytes@;
    let mut i: usize = 0;
    proof {
        lemma_data_same(*mem, *mem, root);
    }
    while i < maps.len()
        invariant
            i <= maps@.len(),
            m == old(mem).bytes@,
            is_space(*mem, root),
            mem.hhdm == old(mem).hhdm,
            forall|i: int| 0 <= i < maps@.len() ==> (#[trigger] maps@[i]).wf(),
            is_closed(m, root) && none_for_users(maps@) ==> is_closed(mem.bytes@, root),
            is_space(*old(mem), root),
            keeps_data(*old(mem), *mem, root),
            forall|v: u64|
                v >= KERNEL_SPACE ==> #[trigger] walked(mem.bytes@, root, v) == last_shown(
                    maps@,
                    i as int,
                    v,
                    walked(m, root, v),
                ),
            forall|v: u64|
                v >= KERNEL_SPACE ==> #[trigger] mode_at(mem.bytes@, root, v) == last_mode(
                    maps@,
                    i as int,
                    v,
                    mode_at(m, root, v),
                ),
        decreases maps@.len() - i,
    {
        let k: Mapping = maps[i];
        assert(maps@[i as int].wf());
        let ghost b = mem.bytes@;
        let ghost a = *mem;
        if k.huge {
            let shown: Result<(), MapError> = map_hhdm_range(mem, root, k.base, k.start, k.end);
            proof {
                lemma_data_twice(*old(mem), a, *mem, root);
            }
            shown?;
        } else {
            let mapped: Result<(), MapError> = map_pages(
                mem,
                root,
                k.base,
                k.start,
                k.end,
                k.flags,
            );
            proof {
                lemma_data_twice(*old(mem), a, *mem, root);
            }
            match mapped {
                Ok(_) => {},
                Err(e) => {
                    proof {
                        let v = choose|v: u64|
                            k.base + k.start <= v < k.base + k.end && #[trigger] map_outcome(
                                *mem,
                                root,
                                v,
                            ) == Err::<(), MapError>(e);
                        lemma_fails(*mem, root, v, k.base + k.start, k.base + k.end, e);
                        assert(k == maps@[i as int]);
                    }
                    return Err(e);
                },
            }
        }
        i += 1;
        assert forall|v: u64| v >= KERNEL_SPACE implies #[trigger] walked(mem.bytes@, root, v)
            == last_shown(maps@, i as int, v, walked(m, root, v)) by {
            if k.shows(v) {
                let q = (v - k.base) as u64;
                assert(walked(mem.bytes@, root, (k.base + q) as u64) == Some(q));
            } else {
                lemma_is_outside(k, v);
                assert(walked(b, root, v) == last_shown(maps@, i - 1, v, walked(m, root, v)));
            }
        }
        assert forall|v: u64| v >= KERNEL_SPACE implies #[trigger] mode_at(mem.bytes@, root, v)
            == last_mode(maps@, i as int, v, mode_at(m, root, v)) by {
            if k.shows(v) {
                let q = (v - k.base) as u64;
                assert(mode_at(mem.bytes@, root, (k.base + q) as u64) == Some(k.mode()));
            } else {
                lemma_is_outside(k, v);
                assert(mode_at(b, root, v) == last_mode(maps@, i - 1, v, mode_at(m, root, v)));
            }
        }
    }
    Ok(())
}

/// Why the kernel has no page tables of its own.
#[derive(Clone, Copy, Debug, PartialEq, Eq, Structural)]
pub enum VmmError {
    /// There is no memory to map.
    NoMemoryRange,
    /// There is no frame for the top-level table.
    NoTable,
    /// A mapping could not be made.
    Mapping(MapError),
}

/// Build the kernel's own page tables.
pub fn init(mem: &mut PhysicalMemory, maps: &[Mapping]) -> (r: Result<Vmm, VmmError>)
    requires
        old(mem).wf(),
        old(mem).bytes@.len() <= PHYS_LIMIT,
        forall|i: int| 0 <= i < maps@.len() ==> (#[trigger] maps@[i]).wf(),
    ensures
        final(mem).wf(),
        final(mem).hhdm == old(mem).hhdm,
        keeps_used(*old(mem), *final(mem)),
        old(mem).pmm is Some ==> final(mem).pmm is Some && takes_only(
            old(mem).pmm->0,
            final(mem).pmm->0,
        ),
        r is Err && r->Err_0 == VmmError::NoMemoryRange <==> old(mem).pmm is None,
        r is Err && r->Err_0 == VmmError::NoTable <==> (old(mem).pmm matches Some(p)
            && p.free_frames == 0),
        r matches Err(VmmError::Mapping(e)) ==> exists|root: u64|
            is_space(*final(mem), root) && #[trigger] some_fails(*final(mem), root, maps@, e),
        r matches Ok(vmm) ==> {
            &&& is_space(*final(mem), vmm.pml4_phys)
            &&& forall|v: u64|
                v >= KERNEL_SPACE ==> #[trigger] walked(final(mem).bytes@, vmm.pml4_phys, v)
                    == last_shown(maps@, maps@.len() as int, v, None)
            &&& forall|v: u64|
                v >= KERNEL_SPACE ==> #[trigger] mode_at(final(mem).bytes@, vmm.pml4_phys, v)
                    == last_mode(maps@, maps@.len() as int, v, None)
            &&& none_for_users(maps@) ==> is_closed(final(mem).bytes@, vmm.pml4_phys)
        },
{
    if phys_top(mem) == 0 {
        return Err(VmmError::NoMemoryRange);
    }
    let ghost before = *mem;
    let root: u64 = match alloc_frame_zeroed(mem) {
        Some(root) => root,
        None => {
            return Err(VmmError::NoTable);
        },
    };
    proof {
        let m = before.bytes@;
        let w = mem.bytes@;
        assert(root as int / 4096 < before.pmm->0.total_frames);
        assert(in_memory(m, root));
        assert(w =~= zeroed_page(m, root));
        lemma_zeroed_page(m, root);
        lemma_empty_space(*mem, root);
        lemma_closed_empty(w, root);
        assert(is_used(mem.pmm->0.bitmap@, root as int / 4096)) by {
            assert(0 <= root as int / 4096 < before.pmm->0.bitmap@.len() * 64);
        }
    }
    let ghost m1 = *mem;
    let mapped: Result<(), MapError> = map_all(mem, root, maps);
    proof {
        lemma_fresh_data(before, m1, *mem, root);
    }
    match mapped {
        Ok(_) => Ok(Vmm { pml4_phys: root }),
        Err(e) => Err(VmmError::Mapping(e)),
    }
}

/// Work on page tables that were begun in a free frame keeps all that was in use.
proof fn lemma_fresh_data(a: PhysicalMemory, b: PhysicalMemory, c: PhysicalMemory, root: u64)
    requires
        a.wf(),
        a.pmm is Some,
        a.pmm->0.gave_one(b.pmm->0, root),
        b.bytes@.len() == a.bytes@.len(),
        forall|x: int|
            0 <= x < a.bytes@.len() && !(root <= x < root + 4096) ==> #[trigger] b.bytes@[x]
                == a.bytes@[x],
        forall|v: u64, l: int| 1 <= l <= 3 ==> #[trigger] table_at(b.bytes@, root, v, l) is None,
        keeps_data(b, c, root),
    ensures
        keeps_used(a, c),
        takes_only(a.pmm->0, c.pmm->0),
{
    reveal(keeps_data);
    reveal(is_plain);
    lemma_takes_only(a.pmm->0, b.pmm->0, root);
    let n = a.pmm->0.total_frames;
    assert forall|f: int| 0 <= f < n && is_used(a.pmm->0.bitmap@, f) implies #[trigger] is_used(
        c.pmm->0.bitmap@,
        f,
    ) by {
        assert(is_used(b.pmm->0.bitmap@, f));
    }
    assert forall|x: int|
        0 <= x < a.bytes@.len() && is_used(a.pmm->0.bitmap@, x / 4096) implies #[trigger] c.bytes@[x]
        == a.bytes@[x] by {
        assert(0 <= x / 4096 < n);
        assert(is_used(b.pmm->0.bitmap@, x / 4096));
        assert(root as int / 4096 != x / 4096);
        assert forall|v: u64, k: int| 0 <= k <= 3 implies ((#[trigger] table_at(
            b.bytes@,
            root,
            v,
            k,
        )) matches Some(t) ==> t != page_down(x)) by {
            if k > 0 {
                assert(table_at(b.bytes@, root, v, k) is None);
            }
        }
        assert(is_plain(b.bytes@, root, x));
        assert(b.bytes@[x] == a.bytes@[x]);
    }
}

/// An empty top-level table maps nothing.
proof fn lemma_empty_space(mem: PhysicalMemory, root: u64)
    requires
        in_memory(mem.bytes@, root),
        forall|i: int| 0 <= i < 512 ==> #[trigger] entry(mem.bytes@, root, i) == 0,
    ensures
        tables_in_memory(mem.bytes@, root),
        is_tree(mem.bytes@, root),
        forall|v: u64, l: int| 1 <= l <= 3 ==> #[trigger] table_at(mem.bytes@, root, v, l) is None,
        forall|v: u64| #[trigger] walked(mem.bytes@, root, v) is None,
        forall|v: u64| #[trigger] mode_at(mem.bytes@, root, v) is None,
{
    let m = mem.bytes@;
    reveal(mode_at);
    lemma_zero_entry();
    assert forall|v: u64, l: int| 1 <= l <= 3 implies #[trigger] table_at(m, root, v, l) is None by {
        reveal_with_fuel(table_at, 4);
        assert(entry(m, root, index_of(v, 0)) == 0);
    }
    assert forall|v: u64| #[trigger] walked(m, root, v) is None by {
        lemma_walked(m, root, v);
        assert(table_at(m, root, v, 1) is None);
        assert(table_at(m, root, v, 2) is None);
        assert(table_at(m, root, v, 3) is None);
    }
    assert forall|v: u64, l: int, w: u64, k: int|
        #![trigger table_at(m, root, v, l), table_at(m, root, w, k)]
        0 <= l <= 3 && 0 <= k <= 3 && table_at(m, root, v, l) is Some && table_at(m, root, v, l)
            == table_at(m, root, w, k) implies l == k && same_way(v, w, l) by {
        if l > 0 {
            assert(table_at(m, root, v, l) is None);
        }
        if k > 0 {
            assert(table_at(m, root, w, k) is None);
        }
    }
}

} // verus!
