//! That the kernel's half of an address space is closed to user mode.
//!
//! Every table on the way to a page lets user mode through, so it is the last entry
//! that decides.

use vstd::prelude::*;
use super::ledger::same_tables;
use super::space::{is_fresh_root, is_user_half};
use super::user::{is_user, lemma_user_present, user_walked};
use super::{
    entry, grants, grants_only, huge_of, index_of, is_mapped_page, leaf_of, lemma_same_tables,
    lemma_zero_entry, table_at, ADDR_MASK, USER,
};
use crate::pmm::PhysicalMemory;

verus! {

/// Whether nothing in the kernel's half is for user mode.
pub open spec fn is_closed(m: Seq<u8>, root: u64) -> bool {
    forall|v: u64| !is_user_half(v) ==> !#[trigger] grants(m, root, v)
}

/// Where the kernel's half is closed, user mode may neither read nor write there.
pub proof fn law_kernel_half_is_out_of_reach(m: Seq<u8>, root: u64, v: u64, write: bool)
    requires
        is_closed(m, root),
        !is_user_half(v),
    ensures
        user_walked(m, root, v, write) is None,
{
    reveal(user_walked);
    reveal(grants);
    reveal_with_fuel(table_at, 4);
    let e0 = entry(m, root, index_of(v, 0));
    let e1 = entry(m, e0 & ADDR_MASK, index_of(v, 1));
    let e2 = entry(m, e1 & ADDR_MASK, index_of(v, 2));
    let leaf = entry(m, e2 & ADDR_MASK, index_of(v, 3));
    lemma_user_present(e0);
    lemma_user_present(e1);
    lemma_user_present(e2);
    lemma_user_present(leaf);
    assert(!grants(m, root, v));
}

/// Entries that are not for user mode.
pub proof fn lemma_kernel_entry(phys: u64, flags: u64)
    requires
        flags & USER == 0,
    ensures
        !is_user(leaf_of(phys, flags)),
        !is_user(huge_of(phys, flags)),
{
    assert(((phys & 0x000f_ffff_ffff_f000) | flags | 1) & (1u64 | 4u64) != 1u64 | 4u64 && ((phys
        & 0x000f_ffff_ffe0_0000) | flags | 1 | 0x80) & (1u64 | 4u64) != 1u64 | 4u64) by (bit_vector)
        requires
            flags & 4 == 0,
    ;
}

/// A page that is mapped below the kernel's half, or not for user mode, leaves it closed.
pub proof fn lemma_closed_mapped(
    a: PhysicalMemory,
    b: PhysicalMemory,
    root: u64,
    virt: u64,
    leaf: u64,
)
    requires
        is_closed(a.bytes@, root),
        is_mapped_page(a, b, root, virt, leaf),
        is_user_half(virt) || !is_user(leaf),
    ensures
        is_closed(b.bytes@, root),
{
    reveal(grants_only);
}

pub proof fn lemma_closed_huge(m: Seq<u8>, w: Seq<u8>, root: u64, virt: u64)
    requires
        is_closed(m, root),
        grants_only(m, w, root, virt, 3, false),
    ensures
        is_closed(w, root),
{
    reveal(grants_only);
}

/// Where the tables hold what they held, as much is closed.
pub proof fn lemma_closed_same(a: Seq<u8>, b: Seq<u8>, root: u64)
    requires
        is_closed(a, root),
        same_tables(a, b, root),
    ensures
        is_closed(b, root),
{
    reveal(grants);
    assert forall|v: u64| !is_user_half(v) implies !#[trigger] grants(b, root, v) by {
        assert forall|u: u64, l: int, i: int|
            #![trigger table_at(a, root, u, l), entry(b, table_at(a, root, u, l)->0, i)]
            0 <= l <= 3 && 0 <= i < 512 && table_at(a, root, u, l) is Some implies entry(
            b,
            table_at(a, root, u, l)->0,
            i,
        ) == entry(a, table_at(a, root, u, l)->0, i) by {
            let t = table_at(a, root, u, l)->0;
            assert(entry(b, t, i) == entry(a, t, i));
        }
        lemma_same_tables(a, b, root, v, 3);
        lemma_same_tables(a, b, root, v, 2);
        assert(!grants(a, root, v));
        if let Some(pt) = table_at(a, root, v, 3) {
            assert(entry(b, pt, index_of(v, 3)) == entry(a, pt, index_of(v, 3)));
        }
        if let Some(pd) = table_at(a, root, v, 2) {
            assert(entry(b, pd, index_of(v, 2)) == entry(a, pd, index_of(v, 2)));
        }
    }
}

/// A new address space is as closed as the kernel's.
pub proof fn lemma_closed_fresh(m: Seq<u8>, root: u64, kernel: u64)
    requires
        is_fresh_root(m, root, kernel),
        is_closed(m, kernel),
    ensures
        is_closed(m, root),
{
    reveal(grants);
    assert forall|v: u64| !is_user_half(v) implies !#[trigger] grants(m, root, v) by {
        assert(!grants(m, kernel, v));
        assert(entry(m, root, index_of(v, 0)) == entry(m, kernel, index_of(v, 0)));
        reveal_with_fuel(table_at, 4);
    }
}

/// Empty page tables are closed.
pub proof fn lemma_closed_empty(m: Seq<u8>, root: u64)
    requires
        forall|i: int| 0 <= i < 512 ==> #[trigger] entry(m, root, i) == 0,
    ensures
        is_closed(m, root),
{
    reveal(grants);
    lemma_zero_entry();
    assert forall|v: u64| !is_user_half(v) implies !#[trigger] grants(m, root, v) by {
        assert(entry(m, root, index_of(v, 0)) == 0);
        reveal_with_fuel(table_at, 4);
    }
}

} // verus!
