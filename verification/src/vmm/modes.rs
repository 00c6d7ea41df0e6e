//! How addresses are mapped: for reading or writing, for executing, cached or not.

use vstd::prelude::*;
use super::{
    end_entry, entry, in_memory, index_of, is_hung, is_leaf_or_empty, is_present, is_space, is_tree,
    leaf_at, lemma_huge_entry, lemma_huge_table, lemma_hung_at, lemma_hung_entry, lemma_leaf_entry,
    lemma_same_way, lemma_split_leaf, lemma_write_entry, lemma_write_leaf, lemma_zero_entry,
    same_way, split_flags, split_leaf, table_at, tables_in_memory, ADDR_MASK, HUGE_2M_MASK,
};
use crate::bytes::{le64_bytes, spliced};
use crate::pmm::PhysicalMemory;

verus! {

/// The flags by which an address is mapped, as a 4 KiB page has them, where it lies in a
/// 4 KiB or 2 MiB page.
#[verifier::opaque]
pub open spec fn mode_at(m: Seq<u8>, root: u64, v: u64) -> Option<u64> {
    match end_entry(m, root, v) {
        Some(e) => if !is_present(e) {
            None
        } else if table_at(m, root, v, 3) is Some {
            Some(e & !ADDR_MASK)
        } else {
            Some(split_flags(e))
        },
        None => None,
    }
}

/// Whether all addresses have the flags they had, but for those that go the way of one
/// down to a level.
#[verifier::opaque]
pub open spec fn keeps_modes(m: Seq<u8>, w: Seq<u8>, root: u64, virt: u64, level: int) -> bool {
    forall|v: u64|
        !same_way(v, virt, level) ==> #[trigger] mode_at(w, root, v) == mode_at(m, root, v)
}

/// Whether all addresses have the flags they had.
#[verifier::opaque]
pub open spec fn same_modes(m: Seq<u8>, w: Seq<u8>, root: u64) -> bool {
    forall|v: u64| #[trigger] mode_at(w, root, v) == mode_at(m, root, v)
}

pub(super) proof fn lemma_same_modes(
    a: Seq<u8>,
    b: Seq<u8>,
    c: Seq<u8>,
    root: u64,
    virt: u64,
    level: int,
)
    requires
        same_modes(a, b, root),
        keeps_modes(b, c, root, virt, level),
    ensures
        keeps_modes(a, c, root, virt, level),
{
    reveal(same_modes);
    reveal(keeps_modes);
}

pub(super) proof fn lemma_no_modes(m: Seq<u8>, root: u64)
    ensures
        same_modes(m, m, root),
{
    reveal(same_modes);
}

/// The flags of a 4 KiB page are those of its entry.
pub proof fn lemma_leaf_mode(m: Seq<u8>, root: u64, v: u64)
    requires
        leaf_at(m, root, v) matches Some(e) && is_present(e),
    ensures
        mode_at(m, root, v) == Some(leaf_at(m, root, v)->0 & !ADDR_MASK),
{
    reveal(mode_at);
}

/// A new, empty table maps nothing.
#[verifier::spinoff_prover]
pub(super) proof fn lemma_hung_modes(
    m: Seq<u8>,
    w: Seq<u8>,
    root: u64,
    virt: u64,
    l: int,
    n: u64,
    e: u64,
)
    requires
        is_hung(m, w, root, virt, l, n, e),
        is_tree(m, root),
        !is_present(entry(m, table_at(m, root, virt, l)->0, index_of(virt, l))),
        forall|i: int| 0 <= i < 512 ==> #[trigger] entry(w, n, i) == 0,
    ensures
        same_modes(m, w, root),
{
    reveal(same_modes);
    reveal(mode_at);
    lemma_zero_entry();
    assert forall|v: u64| #[trigger] mode_at(w, root, v) == mode_at(m, root, v) by {
        lemma_hung_at(m, w, root, virt, l, n, e, v, 3);
        lemma_hung_at(m, w, root, virt, l, n, e, v, 2);
        lemma_hung_entry(m, w, root, virt, l, n, e, v, 3);
        lemma_hung_entry(m, w, root, virt, l, n, e, v, 2);
        assert(entry(w, n, index_of(v, 3)) == 0);
        assert(entry(w, n, index_of(v, 2)) == 0);
        if same_way(v, virt, l + 1) {
            lemma_same_way(m, root, v, virt, l);
            reveal_with_fuel(table_at, 4);
        }
    }
}

/// The pieces of a 2 MiB page have its flags.
proof fn lemma_split_mode(e: u64, i: int)
    requires
        0 <= i < 512,
        is_present(e),
    ensures
        split_leaf(e, i) & !ADDR_MASK == split_flags(e),
        is_present(split_leaf(e, i)),
{
    lemma_split_leaf(e, i as u64);
    let p = ((e & HUGE_2M_MASK) + i * 4096) as u64;
    let f = split_flags(e);
    let j = i as u64;
    assert(p & !0x000f_ffff_ffff_f000u64 == 0) by (bit_vector)
        requires
            p == (e & 0x000f_ffff_ffe0_0000) + j * 4096,
            j < 512,
    ;
    let k = e & !ADDR_MASK & !0x80u64;
    assert(k & !0x000f_ffff_ffff_f000u64 == k && (k | 0x80) & !0x000f_ffff_ffff_f000u64 == k | 0x80)
        by (bit_vector)
        requires
            k == e & !0x000f_ffff_ffff_f000u64 & !0x80u64,
    ;
    assert((p | f) & !0x000f_ffff_ffff_f000u64 == f) by (bit_vector)
        requires
            p & !0x000f_ffff_ffff_f000u64 == 0,
            f & !0x000f_ffff_ffff_f000u64 == f,
    ;
}

/// Splitting a 2 MiB page keeps the flags of all addresses.
#[verifier::spinoff_prover]
pub(super) proof fn lemma_split_modes(m: Seq<u8>, w: Seq<u8>, root: u64, virt: u64, n: u64, e: u64)
    requires
        is_hung(m, w, root, virt, 2, n, e),
        is_tree(m, root),
        is_present(entry(m, table_at(m, root, virt, 2)->0, index_of(virt, 2))),
        table_at(m, root, virt, 3) is None,
        forall|i: int|
            0 <= i < 512 ==> #[trigger] entry(w, n, i) == split_leaf(
                entry(m, table_at(m, root, virt, 2)->0, index_of(virt, 2)),
                i,
            ),
    ensures
        same_modes(m, w, root),
{
    reveal(same_modes);
    reveal(mode_at);
    let huge = entry(m, table_at(m, root, virt, 2)->0, index_of(virt, 2));
    assert forall|v: u64| #[trigger] mode_at(w, root, v) == mode_at(m, root, v) by {
        lemma_hung_at(m, w, root, virt, 2, n, e, v, 3);
        lemma_hung_at(m, w, root, virt, 2, n, e, v, 2);
        lemma_hung_entry(m, w, root, virt, 2, n, e, v, 3);
        lemma_hung_entry(m, w, root, virt, 2, n, e, v, 2);
        if same_way(v, virt, 3) {
            assert(entry(w, n, index_of(v, 3)) == split_leaf(huge, index_of(v, 3)));
            lemma_split_mode(huge, index_of(v, 3));
            lemma_same_way(m, root, v, virt, 2);
            lemma_same_way(m, root, v, virt, 3);
        }
    }
}

/// Writing a leaf entry changes the flags of its page alone.
#[verifier::spinoff_prover]
pub(super) proof fn lemma_leaf_modes(
    a: PhysicalMemory,
    b: PhysicalMemory,
    root: u64,
    virt: u64,
    pt: u64,
    leaf: u64,
)
    requires
        is_space(a, root),
        table_at(a.bytes@, root, virt, 3) == Some(pt),
        b.bytes@ == spliced(a.bytes@, pt + 8 * index_of(virt, 3), le64_bytes(leaf)),
    ensures
        keeps_modes(a.bytes@, b.bytes@, root, virt, 4),
{
    reveal(keeps_modes);
    reveal(mode_at);
    let m = a.bytes@;
    let w = b.bytes@;
    lemma_write_leaf(m, w, root, virt, pt, leaf, a.pmm->0);
    assert(in_memory(m, pt));
    lemma_write_entry(m, pt, index_of(virt, 3), leaf);
    assert forall|v: u64| !same_way(v, virt, 4) implies #[trigger] mode_at(w, root, v) == mode_at(
        m,
        root,
        v,
    ) by {
        assert(table_at(w, root, v, 3) == table_at(m, root, v, 3));
        assert(table_at(w, root, v, 2) == table_at(m, root, v, 2));
        lemma_leaf_entry(m, w, root, virt, pt, leaf, v, 3);
        lemma_leaf_entry(m, w, root, virt, pt, leaf, v, 2);
    }
}

/// Writing the entry of a 2 MiB page gives its flags to that page, and to no other.
#[verifier::spinoff_prover]
pub(super) proof fn lemma_huge_modes(m: Seq<u8>, w: Seq<u8>, root: u64, virt: u64, pd: u64, e: u64)
    requires
        tables_in_memory(m, root),
        is_tree(m, root),
        table_at(m, root, virt, 2) == Some(pd),
        is_leaf_or_empty(entry(m, pd, index_of(virt, 2))),
        is_leaf_or_empty(e),
        is_present(e),
        w == spliced(m, pd + 8 * index_of(virt, 2), le64_bytes(e)),
    ensures
        keeps_modes(m, w, root, virt, 3),
        forall|v: u64|
            same_way(v, virt, 3) ==> #[trigger] mode_at(w, root, v) == Some(split_flags(e)),
{
    reveal(keeps_modes);
    reveal(mode_at);
    assert forall|v: u64| #[trigger] mode_at(w, root, v) == if same_way(v, virt, 3) {
        Some(split_flags(e))
    } else {
        mode_at(m, root, v)
    } by {
        lemma_huge_table(m, w, root, virt, pd, e, v, 3);
        lemma_huge_table(m, w, root, virt, pd, e, v, 2);
        lemma_huge_entry(m, w, root, virt, pd, e, v, 3);
        lemma_huge_entry(m, w, root, virt, pd, e, v, 2);
        if same_way(v, virt, 3) {
            lemma_same_way(m, root, v, virt, 2);
            reveal_with_fuel(table_at, 2);
        }
    }
}

} // verus!
