//! Page tables: mapping, translating, and copying to and from user memory.

use vstd::prelude::*;
use crate::bytes::{
    copy_into, le64, le64_bytes, lemma_le64_round_trip, spliced, u64_to_le, u64le,
};
use self::data::{
    is_data_kept, keeps_data, lemma_data_on, lemma_data_others, lemma_data_same, lemma_data_step,
    lemma_data_there, lemma_data_twice,
};
use self::modes::{
    keeps_modes, lemma_huge_modes, lemma_hung_modes, lemma_leaf_modes, lemma_no_modes,
    lemma_same_modes, lemma_split_modes, mode_at, same_modes,
};
use self::user::{is_user, lemma_user_present};
use crate::pmm::{alloc_frame_zeroed, is_used, page_down, PhysicalMemory, Pmm, PAGE_SIZE};

pub use self::trial::{address_space_self_test, self_test};

pub mod closed;
pub mod data;
pub mod hardware;
pub mod inside;
pub mod layout;
pub mod ledger;
pub mod modes;
pub mod plan;
pub mod region;
pub mod regions;
pub mod space;
pub mod tables;
pub mod trial;
pub mod user;

verus! {

pub const PRESENT: u64 = 0x1;
pub const WRITABLE: u64 = 0x2;
pub const USER: u64 = 0x4;
pub const PWT: u64 = 0x8;
pub const PCD: u64 = 0x10;
pub const HUGE: u64 = 0x80;
pub const NO_EXECUTE: u64 = 0x8000_0000_0000_0000;

pub const KERNEL_RX: u64 = PRESENT;
pub const KERNEL_RO: u64 = PRESENT | NO_EXECUTE;
pub const KERNEL_RW: u64 = PRESENT | WRITABLE | NO_EXECUTE;
/// Ring-3-accessible leaf flags.
pub const USER_RX: u64 = PRESENT | USER;
pub const USER_RO: u64 = PRESENT | USER | NO_EXECUTE;
pub const USER_RW: u64 = PRESENT | WRITABLE | USER | NO_EXECUTE;
/// Write-combining: for framebuffers and other linear MMIO.
pub const KERNEL_WC: u64 = PRESENT | WRITABLE | NO_EXECUTE | PWT;
/// Fully uncacheable: for device registers.
pub const KERNEL_UC: u64 = PRESENT | WRITABLE | NO_EXECUTE | PCD;

pub const ADDR_MASK: u64 = 0x000f_ffff_ffff_f000;
pub const ENTRIES: usize = 512;
pub const HUGE_2M: u64 = 0x20_0000;
pub const HUGE_1G: u64 = 0x4000_0000;
/// Bit 12 is the PAT bit in a 2M/1G entry, so it is not part of the address.
pub const HUGE_2M_MASK: u64 = 0x000f_ffff_ffe0_0000;
pub const HUGE_1G_MASK: u64 = 0x000f_ffff_c000_0000;
pub const PAT_HUGE: u64 = 0x1000;
pub const PAT_4K: u64 = 0x80;

/// The first top-level entry of kernel space.
pub const KERNEL_PML4_START: usize = 256;

/// First address past the user half of the address space.
pub const USER_SPACE_END: u64 = 0x0000_8000_0000_0000;

/// Physical addresses have this many values.
pub const PHYS_LIMIT: u64 = 0x10_0000_0000_0000;

/// The word of memory at an address.
#[verifier::opaque]
pub open spec fn word(m: Seq<u8>, at: int) -> u64 {
    le64(m, at) as u64
}

/// Entry `i` of the table at a physical address.
pub open spec fn entry(m: Seq<u8>, table: u64, i: int) -> u64 {
    word(m, table + 8 * i)
}

/// The entry of a level-`level` table that an address goes through.
pub open spec fn index_of(virt: u64, level: int) -> int {
    if level == 0 {
        virt as int / 0x80_0000_0000 % 512
    } else if level == 1 {
        virt as int / 0x4000_0000 % 512
    } else if level == 2 {
        virt as int / 0x20_0000 % 512
    } else {
        virt as int / 0x1000 % 512
    }
}

pub open spec fn is_present(e: u64) -> bool {
    e & PRESENT != 0
}

pub open spec fn is_huge(e: u64) -> bool {
    e & HUGE != 0
}

/// The table that an address goes through on a level, if there is one: the top
/// level is level 0. On the levels below the top an entry may be a huge page in
/// place of a table.
pub open spec fn table_at(m: Seq<u8>, root: u64, virt: u64, level: int) -> Option<u64>
    decreases level,
{
    if level <= 0 {
        Some(root)
    } else {
        match table_at(m, root, virt, level - 1) {
            None => None,
            Some(t) => {
                let e = entry(m, t, index_of(virt, level - 1));
                if !is_present(e) || (level > 1 && is_huge(e)) {
                    None
                } else {
                    Some(e & ADDR_MASK)
                }
            },
        }
    }
}

/// The physical address that an address is mapped to.
#[verifier::opaque]
pub open spec fn walked(m: Seq<u8>, root: u64, virt: u64) -> Option<u64> {
    match table_at(m, root, virt, 1) {
        None => None,
        Some(pdpt) => {
            let e = entry(m, pdpt, index_of(virt, 1));
            if !is_present(e) {
                None
            } else if is_huge(e) {
                Some(((e & HUGE_1G_MASK) + virt % HUGE_1G) as u64)
            } else {
                let e = entry(m, e & ADDR_MASK, index_of(virt, 2));
                if !is_present(e) {
                    None
                } else if is_huge(e) {
                    Some(((e & HUGE_2M_MASK) + virt % HUGE_2M) as u64)
                } else {
                    let leaf = entry(m, e & ADDR_MASK, index_of(virt, 3));
                    if !is_present(leaf) {
                        None
                    } else {
                        Some(((leaf & ADDR_MASK) + virt % PAGE_SIZE) as u64)
                    }
                }
            }
        },
    }
}

/// Whether a page lies in memory.
pub open spec fn in_memory(m: Seq<u8>, page: u64) -> bool {
    page % 4096 == 0 && page + 4096 <= m.len()
}

/// Whether two addresses go through the same entries above a level.
pub open spec fn same_way(a: u64, b: u64, level: int) -> bool {
    &&& level > 0 ==> index_of(a, 0) == index_of(b, 0)
    &&& level > 1 ==> index_of(a, 1) == index_of(b, 1)
    &&& level > 2 ==> index_of(a, 2) == index_of(b, 2)
    &&& level > 3 ==> index_of(a, 3) == index_of(b, 3)
}

/// Whether all tables below a root lie in memory.
pub open spec fn tables_in_memory(m: Seq<u8>, root: u64) -> bool {
    forall|v: u64, l: int|
        0 <= l <= 3 ==> ((#[trigger] table_at(m, root, v, l)) matches Some(t) ==> in_memory(m, t))
}

/// Whether the tables below a root form a tree: no table is reached in two ways.
pub open spec fn is_tree(m: Seq<u8>, root: u64) -> bool {
    forall|v: u64, l: int, w: u64, k: int|
        #![trigger table_at(m, root, v, l), table_at(m, root, w, k)]
        0 <= l <= 3 && 0 <= k <= 3 && table_at(m, root, v, l) is Some && table_at(m, root, v, l)
            == table_at(m, root, w, k) ==> l == k && same_way(v, w, l)
}

/// Whether the frames of all tables below a root are handed out.
pub open spec fn tables_taken(m: Seq<u8>, root: u64, pmm: Pmm) -> bool {
    forall|v: u64, l: int|
        0 <= l <= 3 ==> ((#[trigger] table_at(m, root, v, l)) matches Some(t) ==> is_used(
            pmm.bitmap@,
            t as int / 4096,
        ))
}

/// Whether the page tables below a root are sound.
pub open spec fn is_space(mem: PhysicalMemory, root: u64) -> bool {
    &&& mem.wf()
    &&& mem.pmm is Some
    &&& mem.bytes@.len() <= PHYS_LIMIT
    &&& tables_in_memory(mem.bytes@, root)
    &&& is_tree(mem.bytes@, root)
    &&& tables_taken(mem.bytes@, root, mem.pmm->0)
}

pub fn index(virt: u64, level: usize) -> (i: usize)
    requires
        level <= 3,
    ensures
        i == index_of(virt, level as int),
        i < 512,
{
    if level == 0 {
        (virt / 0x80_0000_0000 % 512) as usize
    } else if level == 1 {
        (virt / 0x4000_0000 % 512) as usize
    } else if level == 2 {
        (virt / 0x20_0000 % 512) as usize
    } else {
        (virt / 0x1000 % 512) as usize
    }
}

/// Read an entry of a table.
fn read_entry(mem: &PhysicalMemory, table: u64, i: usize) -> (e: u64)
    requires
        in_memory(mem.bytes@, table),
        i < 512,
    ensures
        e == entry(mem.bytes@, table, i as int),
{
    reveal(word);
    let size: usize = mem.bytes.len();
    u64le(mem.bytes.as_slice(), table as usize + 8 * i)
}

/// Write an entry of a table.
pub(crate) fn write_entry(mem: &mut PhysicalMemory, table: u64, i: usize, e: u64)
    requires
        in_memory(old(mem).bytes@, table),
        i < 512,
    ensures
        final(mem).hhdm == old(mem).hhdm,
        final(mem).pmm == old(mem).pmm,
        final(mem).bytes@ == spliced(old(mem).bytes@, table + 8 * i, le64_bytes(e)),
{
    let size: usize = mem.bytes.len();
    let b: [u8; 8] = u64_to_le(e);
    proof {
        lemma_le64_round_trip(e);
    }
    copy_into(&mut mem.bytes, table as usize + 8 * i, b.as_slice());
}

/// What a written entry does to the entries of all tables.
pub proof fn lemma_write_entry(m: Seq<u8>, table: u64, i: int, e: u64)
    requires
        in_memory(m, table),
        0 <= i < 512,
    ensures
        ({
            let w = spliced(m, table + 8 * i, le64_bytes(e));
            &&& entry(w, table, i) == e
            &&& forall|t: u64, k: int|
                #![trigger entry(w, t, k)]
                in_memory(m, t) && 0 <= k < 512 && (t != table || k != i) ==> entry(w, t, k)
                    == entry(m, t, k)
        }),
{
    reveal(word);
    let w = spliced(m, table + 8 * i, le64_bytes(e));
    let b = le64_bytes(e);
    lemma_le64_round_trip(e);
    let at = table + 8 * i;
    assert(le64(w, at) == le64(b, 0)) by {
        assert(w[at] == b[0] && w[at + 1] == b[1] && w[at + 2] == b[2] && w[at + 3] == b[3] && w[at
            + 4] == b[4] && w[at + 5] == b[5] && w[at + 6] == b[6] && w[at + 7] == b[7]);
    }
    assert forall|t: u64, k: int|
        #![trigger entry(w, t, k)]
        in_memory(m, t) && 0 <= k < 512 && (t != table || k != i) implies entry(w, t, k) == entry(
        m,
        t,
        k,
    ) by {
        let o = t + 8 * k;
        assert(o + 8 <= at || at + 8 <= o);
        assert(w[o] == m[o] && w[o + 1] == m[o + 1] && w[o + 2] == m[o + 2] && w[o + 3] == m[o + 3]
            && w[o + 4] == m[o + 4] && w[o + 5] == m[o + 5] && w[o + 6] == m[o + 6] && w[o + 7]
            == m[o + 7]);
    }
}

/// A walk reads tables and nothing else.
proof fn lemma_same_tables(m: Seq<u8>, w: Seq<u8>, root: u64, v: u64, level: int)
    requires
        0 <= level <= 3,
        forall|v: u64, l: int, i: int|
            #![trigger table_at(m, root, v, l), entry(w, table_at(m, root, v, l)->0, i)]
            0 <= l <= 3 && 0 <= i < 512 && table_at(m, root, v, l) is Some ==> entry(
                w,
                table_at(m, root, v, l)->0,
                i,
            ) == entry(m, table_at(m, root, v, l)->0, i),
    ensures
        table_at(w, root, v, level) == table_at(m, root, v, level),
    decreases level,
{
    if level > 0 {
        lemma_same_tables(m, w, root, v, level - 1);
        if let Some(t) = table_at(m, root, v, level - 1) {
            assert(entry(w, table_at(m, root, v, level - 1)->0, index_of(v, level - 1)) == entry(
                m,
                t,
                index_of(v, level - 1),
            ));
        }
    }
}

/// A walk, in terms of the tables it goes through.
proof fn lemma_walked(m: Seq<u8>, root: u64, v: u64)
    ensures
        walked(m, root, v) == match table_at(m, root, v, 3) {
            Some(pt) => {
                let leaf = entry(m, pt, index_of(v, 3));
                if is_present(leaf) {
                    Some(((leaf & ADDR_MASK) + v % PAGE_SIZE) as u64)
                } else {
                    None
                }
            },
            None => match table_at(m, root, v, 2) {
                Some(pd) => {
                    let e = entry(m, pd, index_of(v, 2));
                    if is_present(e) {
                        Some(((e & HUGE_2M_MASK) + v % HUGE_2M) as u64)
                    } else {
                        None
                    }
                },
                None => match table_at(m, root, v, 1) {
                    Some(pdpt) => {
                        let e = entry(m, pdpt, index_of(v, 1));
                        if is_present(e) {
                            Some(((e & HUGE_1G_MASK) + v % HUGE_1G) as u64)
                        } else {
                            None
                        }
                    },
                    None => None,
                },
            },
        },
{
    reveal(walked);
    reveal_with_fuel(table_at, 4);
}

pub proof fn lemma_same_way(m: Seq<u8>, root: u64, a: u64, b: u64, level: int)
    requires
        0 <= level <= 3,
        same_way(a, b, level),
    ensures
        table_at(m, root, a, level) == table_at(m, root, b, level),
    decreases level,
{
    if level > 0 {
        lemma_same_way(m, root, a, b, level - 1);
    }
}

/// Whether `w` is memory `m` with a new table `n` hung into the tables below
/// `root`, on the way of `virt`, under its table of level `l`.
pub open spec fn is_hung(
    m: Seq<u8>,
    w: Seq<u8>,
    root: u64,
    virt: u64,
    l: int,
    n: u64,
    e: u64,
) -> bool {
    &&& 0 <= l <= 2
    &&& w.len() == m.len()
    &&& table_at(m, root, virt, l) is Some
    &&& table_at(m, root, virt, l + 1) is None
    &&& in_memory(m, n)
    &&& is_present(e)
    &&& !is_huge(e)
    &&& e & ADDR_MASK == n
    &&& forall|v: u64, k: int| 0 <= k <= 3 ==> #[trigger] table_at(m, root, v, k) != Some(n)
    &&& forall|v: u64, k: int, i: int|
        #![trigger table_at(m, root, v, k), entry(w, table_at(m, root, v, k)->0, i)]
        0 <= k <= 3 && 0 <= i < 512 && table_at(m, root, v, k) is Some ==> entry(
            w,
            table_at(m, root, v, k)->0,
            i,
        ) == if table_at(m, root, v, k) == table_at(m, root, virt, l) && i == index_of(virt, l) {
            e
        } else {
            entry(m, table_at(m, root, v, k)->0, i)
        }
    &&& l < 2 ==> forall|i: int| 0 <= i < 512 ==> !is_present(#[trigger] entry(w, n, i))
}

/// The tables on the way of an address after a new table was hung in.
pub open spec fn hung_table(
    m: Seq<u8>,
    root: u64,
    virt: u64,
    l: int,
    n: u64,
    v: u64,
    k: int,
) -> Option<u64> {
    if k > l && same_way(v, virt, l + 1) {
        if k == l + 1 {
            Some(n)
        } else {
            None
        }
    } else {
        table_at(m, root, v, k)
    }
}

proof fn lemma_hung_at(
    m: Seq<u8>,
    w: Seq<u8>,
    root: u64,
    virt: u64,
    l: int,
    n: u64,
    e: u64,
    v: u64,
    k: int,
)
    requires
        is_hung(m, w, root, virt, l, n, e),
        is_tree(m, root),
        0 <= k <= 3,
    ensures
        table_at(w, root, v, k) == hung_table(m, root, virt, l, n, v, k),
    decreases k,
{
    if k > 0 {
        lemma_hung_at(m, w, root, virt, l, n, e, v, k - 1);
        let i = index_of(v, k - 1);
        if k - 1 > l && same_way(v, virt, l + 1) {
            if k - 1 == l + 1 {
                assert(!is_present(entry(w, n, i)));
            }
        } else {
            let t = table_at(m, root, v, k - 1);
            if k - 1 <= l && same_way(v, virt, l + 1) {
                assert(same_way(v, virt, k - 1));
                lemma_same_way(m, root, v, virt, k - 1);
            }
            if t is Some {
                assert(entry(w, table_at(m, root, v, k - 1)->0, i) == if t == table_at(
                    m,
                    root,
                    virt,
                    l,
                ) && i == index_of(virt, l) {
                    e
                } else {
                    entry(m, t->0, i)
                });
                if t == table_at(m, root, virt, l) {
                    assert(k - 1 == l && same_way(v, virt, l));
                    if i == index_of(virt, l) {
                        assert(same_way(v, virt, l + 1));
                    }
                } else if same_way(v, virt, l + 1) && k - 1 == l {
                    lemma_same_way(m, root, v, virt, l);
                }
            } else if same_way(v, virt, l + 1) && k - 1 == l {
                lemma_same_way(m, root, v, virt, l);
            }
        }
    }
}

/// Hanging a new table in keeps the tables sound.
proof fn lemma_hung(
    m: Seq<u8>,
    w: Seq<u8>,
    root: u64,
    virt: u64,
    l: int,
    n: u64,
    e: u64,
    pmm: Pmm,
)
    requires
        is_hung(m, w, root, virt, l, n, e),
        is_tree(m, root),
        tables_in_memory(m, root),
        tables_taken(m, root, pmm),
        is_used(pmm.bitmap@, n as int / 4096),
    ensures
        is_tree(w, root),
        tables_in_memory(w, root),
        tables_taken(w, root, pmm),
        forall|v: u64, k: int|
            0 <= k <= 3 ==> #[trigger] table_at(w, root, v, k) == hung_table(
                m,
                root,
                virt,
                l,
                n,
                v,
                k,
            ),
{
    assert forall|v: u64, k: int| 0 <= k <= 3 implies #[trigger] table_at(w, root, v, k)
        == hung_table(m, root, virt, l, n, v, k) by {
        lemma_hung_at(m, w, root, virt, l, n, e, v, k);
    }
    assert forall|a: u64, i: int, b: u64, j: int|
        #![trigger table_at(w, root, a, i), table_at(w, root, b, j)]
        0 <= i <= 3 && 0 <= j <= 3 && table_at(w, root, a, i) is Some && table_at(w, root, a, i)
            == table_at(w, root, b, j) implies i == j && same_way(a, b, i) by {
        let x = table_at(w, root, a, i);
        assert(x == hung_table(m, root, virt, l, n, a, i));
        assert(x == hung_table(m, root, virt, l, n, b, j));
        assert(table_at(m, root, a, i) != Some(n));
        assert(table_at(m, root, b, j) != Some(n));
    }
    assert forall|v: u64, k: int| 0 <= k <= 3 implies ((#[trigger] table_at(w, root, v, k)) matches Some(
        t,
    ) ==> in_memory(w, t)) by {
        assert(table_at(m, root, v, k) matches Some(t) ==> in_memory(m, t));
    }
    assert forall|v: u64, k: int| 0 <= k <= 3 implies ((#[trigger] table_at(w, root, v, k)) matches Some(
        t,
    ) ==> is_used(pmm.bitmap@, t as int / 4096)) by {
        assert(table_at(m, root, v, k) matches Some(t) ==> is_used(pmm.bitmap@, t as int / 4096));
    }
}

/// An entry that points to a table.
proof fn lemma_table_entry(n: u64)
    requires
        n % 4096 == 0,
        n < PHYS_LIMIT,
    ensures
        ({
            let e = n | PRESENT | WRITABLE | USER;
            is_present(e) && !is_huge(e) && e & ADDR_MASK == n
        }),
{
    assert((n | 1 | 2 | 4) & 1 != 0 && (n | 1 | 2 | 4) & 0x80 == 0 && (n | 1 | 2 | 4)
        & 0x000f_ffff_ffff_f000 == n) by (bit_vector)
        requires
            n % 4096 == 0,
            n < 0x10_0000_0000_0000,
    ;
}

/// Memory with one page zeroed.
pub open spec fn zeroed_page(m: Seq<u8>, page: u64) -> Seq<u8> {
    Seq::new(
        m.len(),
        |i: int|
            if page <= i < page + 4096 {
                0u8
            } else {
                m[i]
            },
    )
}

proof fn lemma_zeroed_page(m: Seq<u8>, page: u64)
    requires
        in_memory(m, page),
    ensures
        forall|i: int| 0 <= i < 512 ==> #[trigger] entry(zeroed_page(m, page), page, i) == 0,
        forall|t: u64, i: int|
            in_memory(m, t) && 0 <= i < 512 && t != page ==> #[trigger] entry(
                zeroed_page(m, page),
                t,
                i,
            ) == entry(m, t, i),
{
    reveal(word);
    let w = zeroed_page(m, page);
    assert forall|i: int| 0 <= i < 512 implies #[trigger] entry(w, page, i) == 0 by {
        let o = page + 8 * i;
        assert(w[o] == 0 && w[o + 1] == 0 && w[o + 2] == 0 && w[o + 3] == 0 && w[o + 4] == 0 && w[o
            + 5] == 0 && w[o + 6] == 0 && w[o + 7] == 0);
    }
    assert forall|t: u64, i: int|
        in_memory(m, t) && 0 <= i < 512 && t != page implies #[trigger] entry(w, t, i) == entry(
        m,
        t,
        i,
    ) by {
        let o = t + 8 * i;
        assert(o + 8 <= page || page + 4096 <= o);
        assert(w[o] == m[o] && w[o + 1] == m[o + 1] && w[o + 2] == m[o + 2] && w[o + 3] == m[o + 3]
            && w[o + 4] == m[o + 4] && w[o + 5] == m[o + 5] && w[o + 6] == m[o + 6] && w[o + 7]
            == m[o + 7]);
    }
}

/// Whether every page but free ones and `page` keeps its bytes.
pub open spec fn keeps_others(before: PhysicalMemory, after: PhysicalMemory, page: u64) -> bool {
    forall|i: int|
        0 <= i < before.bytes@.len() && is_used(before.pmm->0.bitmap@, i / 4096) && !(page <= i
            < page + 4096) ==> #[trigger] after.bytes@[i] == before.bytes@[i]
}

/// Hang a zeroed table into an empty entry of `parent`, the table of level
/// `level` on the way of `virt`.
fn hang_table(mem: &mut PhysicalMemory, root: u64, virt: u64, level: usize, parent: u64) -> (n: u64)
    requires
        is_space(*old(mem), root),
        level <= 2,
        table_at(old(mem).bytes@, root, virt, level as int) == Some(parent),
        table_at(old(mem).bytes@, root, virt, level + 1) is None,
        old(mem).pmm->0.free_frames > 0,
    ensures
        is_space(*final(mem), root),
        final(mem).hhdm == old(mem).hhdm,
        old(mem).pmm->0.gave_one(final(mem).pmm->0, n),
        is_hung(
            old(mem).bytes@,
            final(mem).bytes@,
            root,
            virt,
            level as int,
            n,
            n | PRESENT | WRITABLE | USER,
        ),
        forall|i: int| 0 <= i < 512 ==> #[trigger] entry(final(mem).bytes@, n, i) == 0,
        keeps_others(*old(mem), *final(mem), parent),
{
    let ghost m = mem.bytes@;
    let ghost before = *mem;
    let n: u64 = match alloc_frame_zeroed(mem) {
        Some(n) => n,
        None => 0,
    };
    let ghost z = mem.bytes@;
    let ghost pmm = mem.pmm->0;
    proof {
        assert(n as int / 4096 < before.pmm->0.total_frames);
        assert(in_memory(m, n));
        assert(z =~= zeroed_page(m, n));
        lemma_zeroed_page(m, n);
        lemma_table_entry(n);
        assert forall|v: u64, k: int| 0 <= k <= 3 implies #[trigger] table_at(m, root, v, k)
            != Some(n) by {
            assert(table_at(m, root, v, k) matches Some(t) ==> is_used(
                before.pmm->0.bitmap@,
                t as int / 4096,
            ));
        }
        assert(table_at(m, root, virt, level as int) == Some(parent));
        assert(in_memory(m, parent));
    }
    let i: usize = index(virt, level);
    let e: u64 = n | PRESENT | WRITABLE | USER;
    write_entry(mem, parent, i, e);
    proof {
        let w = mem.bytes@;
        lemma_write_entry(z, parent, i as int, e);
        assert forall|v: u64, k: int, j: int|
            #![trigger table_at(m, root, v, k), entry(w, table_at(m, root, v, k)->0, j)]
            0 <= k <= 3 && 0 <= j < 512 && table_at(m, root, v, k) is Some implies entry(
            w,
            table_at(m, root, v, k)->0,
            j,
        ) == if table_at(m, root, v, k) == table_at(m, root, virt, level as int) && j == index_of(
            virt,
            level as int,
        ) {
            e
        } else {
            entry(m, table_at(m, root, v, k)->0, j)
        } by {
            let t = table_at(m, root, v, k)->0;
            assert(in_memory(m, t));
            assert(in_memory(z, t));
            assert(entry(z, t, j) == entry(m, t, j));
        }
        assert forall|j: int| 0 <= j < 512 implies #[trigger] entry(w, n, j) == 0 by {
            assert(in_memory(z, n));
            assert(n != parent);
            assert(entry(z, n, j) == 0);
        }
        assert(!is_present(0)) by {
            assert(0u64 & 1 == 0) by (bit_vector);
        }
        lemma_tables_still_taken(before, pmm, root, n);
        lemma_hung(m, w, root, virt, level as int, n, e, pmm);
        lemma_le64_round_trip(e);
        assert forall|x: int|
            0 <= x < m.len() && is_used(before.pmm->0.bitmap@, x / 4096) && !(parent <= x < parent
                + 4096) implies #[trigger] w[x] == m[x] by {
            assert(z[x] == m[x]) by {
                if n <= x < n + 4096 {
                    assert(x / 4096 == n as int / 4096);
                }
            }
        }
    }
    n
}

/// Handing out a frame takes none back.
proof fn lemma_tables_still_taken(before: PhysicalMemory, pmm: Pmm, root: u64, n: u64)
    requires
        is_space(before, root),
        before.pmm->0.gave_one(pmm, n),
    ensures
        tables_taken(before.bytes@, root, pmm),
        is_used(pmm.bitmap@, n as int / 4096),
{
    let m = before.bytes@;
    let total = before.pmm->0.total_frames as int;
    assert forall|v: u64, l: int|
        0 <= l <= 3 implies ((#[trigger] table_at(m, root, v, l)) matches Some(t) ==> is_used(
        pmm.bitmap@,
        t as int / 4096,
    )) by {
        if let Some(t) = table_at(m, root, v, l) {
            assert(in_memory(m, t));
            assert(is_used(before.pmm->0.bitmap@, t as int / 4096));
            assert(0 <= t as int / 4096 < before.pmm->0.bitmap@.len() * 64);
        }
    }
    assert(0 <= n as int / 4096 < before.pmm->0.bitmap@.len() * 64);
}

/// Hanging an empty table into an empty entry maps nothing and unmaps nothing.
proof fn lemma_hung_empty(
    m: Seq<u8>,
    w: Seq<u8>,
    root: u64,
    virt: u64,
    l: int,
    n: u64,
    e: u64,
    v: u64,
)
    requires
        is_hung(m, w, root, virt, l, n, e),
        is_tree(m, root),
        !is_present(entry(m, table_at(m, root, virt, l)->0, index_of(virt, l))),
        forall|i: int| 0 <= i < 512 ==> !is_present(#[trigger] entry(w, n, i)),
    ensures
        walked(w, root, v) == walked(m, root, v),
{
    lemma_walked(m, root, v);
    lemma_walked(w, root, v);
    lemma_hung_at(m, w, root, virt, l, n, e, v, 1);
    lemma_hung_at(m, w, root, virt, l, n, e, v, 2);
    lemma_hung_at(m, w, root, virt, l, n, e, v, 3);
    lemma_hung_entry(m, w, root, virt, l, n, e, v, 1);
    lemma_hung_entry(m, w, root, virt, l, n, e, v, 2);
    lemma_hung_entry(m, w, root, virt, l, n, e, v, 3);
    assert(!is_present(entry(w, n, index_of(v, 1))));
    assert(!is_present(entry(w, n, index_of(v, 2))));
    assert(!is_present(entry(w, n, index_of(v, 3))));
    if same_way(v, virt, l + 1) {
        lemma_same_way(m, root, v, virt, l);
        lemma_same_way(m, root, v, virt, l + 1);
        reveal_with_fuel(table_at, 4);
    }
}

/// An entry on the way of an address after a new table was hung in.
proof fn lemma_hung_entry(
    m: Seq<u8>,
    w: Seq<u8>,
    root: u64,
    virt: u64,
    l: int,
    n: u64,
    e: u64,
    v: u64,
    k: int,
)
    requires
        is_hung(m, w, root, virt, l, n, e),
        is_tree(m, root),
        0 <= k <= 3,
    ensures
        table_at(m, root, v, k) matches Some(t) ==> !(k == l && same_way(v, virt, l + 1))
            ==> entry(w, t, index_of(v, k)) == entry(m, t, index_of(v, k)),
{
    if let Some(t) = table_at(m, root, v, k) {
        let i = index_of(v, k);
        assert(entry(w, table_at(m, root, v, k)->0, i) == if table_at(m, root, v, k) == table_at(
            m,
            root,
            virt,
            l,
        ) && i == index_of(virt, l) {
            e
        } else {
            entry(m, t, i)
        });
        if table_at(m, root, v, k) == table_at(m, root, virt, l) {
            assert(k == l && same_way(v, virt, l));
        }
    }
}

/// Tables that mapping a 4 KiB page has to add.
pub open spec fn missing_tables(m: Seq<u8>, root: u64, virt: u64) -> int {
    if table_at(m, root, virt, 1) is None {
        3
    } else if table_at(m, root, virt, 2) is None {
        2
    } else if table_at(m, root, virt, 3) is None {
        1
    } else {
        0
    }
}

/// Whether no 1 GiB page, and no malformed top-level entry, is in the way of
/// mapping an address.
pub open spec fn is_clear(m: Seq<u8>, root: u64, virt: u64) -> bool {
    let top = entry(m, root, index_of(virt, 0));
    &&& is_present(top) ==> !is_huge(top)
    &&& table_at(m, root, virt, 1) matches Some(pdpt) ==> !(is_present(
        entry(m, pdpt, index_of(virt, 1)),
    ) && is_huge(entry(m, pdpt, index_of(virt, 1))))
}

/// The leaf entry of a page, if it has a page table.
pub open spec fn leaf_at(m: Seq<u8>, root: u64, v: u64) -> Option<u64> {
    match table_at(m, root, v, 3) {
        Some(pt) => Some(entry(m, pt, index_of(v, 3))),
        None => None,
    }
}

/// Whether every page that had a leaf entry keeps it.
pub open spec fn keeps_leaves(m: Seq<u8>, w: Seq<u8>, root: u64) -> bool {
    forall|v: u64|
        leaf_at(m, root, v) is Some ==> #[trigger] leaf_at(w, root, v) == leaf_at(m, root, v)
}

/// Hanging a table in changes no leaf entry.
proof fn lemma_hung_leaf(
    m: Seq<u8>,
    w: Seq<u8>,
    root: u64,
    virt: u64,
    l: int,
    n: u64,
    e: u64,
    v: u64,
)
    requires
        is_hung(m, w, root, virt, l, n, e),
        is_tree(m, root),
        leaf_at(m, root, v) is Some,
    ensures
        leaf_at(w, root, v) == leaf_at(m, root, v),
{
    lemma_hung_at(m, w, root, virt, l, n, e, v, 3);
    lemma_hung_entry(m, w, root, virt, l, n, e, v, 3);
    if same_way(v, virt, l + 1) {
        lemma_same_way(m, root, v, virt, l + 1);
        reveal_with_fuel(table_at, 4);
    }
}

/// What adding tables on the way of an address leaves alone.
pub open spec fn same_walks(m: Seq<u8>, w: Seq<u8>, root: u64) -> bool {
    forall|v: u64| #[trigger] walked(w, root, v) == walked(m, root, v)
}

/// Whether every byte outside free pages and the tables on the way of `virt`
/// is kept.
pub open spec fn keeps_rest(before: PhysicalMemory, after: PhysicalMemory, root: u64, virt: u64) -> bool {
    forall|i: int|
        0 <= i < before.bytes@.len() && is_used(before.pmm->0.bitmap@, i / 4096) && !is_way_byte(
            before.bytes@,
            root,
            virt,
            i,
        ) ==> #[trigger] after.bytes@[i] == before.bytes@[i]
}

/// Whether a byte lies in a table on the way of an address.
pub open spec fn is_way_byte(m: Seq<u8>, root: u64, virt: u64, i: int) -> bool {
    exists|l: int|
        0 <= l <= 3 && ((#[trigger] table_at(m, root, virt, l)) matches Some(t) && t <= i < t
            + 4096)
}

/// Whether every table that `after` has and `before` has not stands in a frame
/// that was free.
#[verifier::opaque]
pub open spec fn adds_tables(before: PhysicalMemory, after: PhysicalMemory, root: u64) -> bool {
    forall|v: u64, k: int|
        0 <= k <= 3 ==> ((#[trigger] table_at(after.bytes@, root, v, k)) matches Some(t)
            ==> table_at(before.bytes@, root, v, k) == Some(t) || !is_used(
            before.pmm->0.bitmap@,
            t as int / 4096,
        ))
}

/// Tables added in two steps.
pub proof fn lemma_adds_tables(a: PhysicalMemory, b: PhysicalMemory, c: PhysicalMemory, root: u64)
    requires
        is_space(c, root),
        a.wf(),
        a.pmm is Some,
        a.bytes@.len() == c.bytes@.len(),
        adds_tables(a, b, root),
        adds_tables(b, c, root),
        takes_only(a.pmm->0, b.pmm->0),
    ensures
        adds_tables(a, c, root),
{
    reveal(adds_tables);
    assert forall|v: u64, k: int| 0 <= k <= 3 implies ((#[trigger] table_at(
        c.bytes@,
        root,
        v,
        k,
    )) matches Some(t) ==> table_at(a.bytes@, root, v, k) == Some(t) || !is_used(
        a.pmm->0.bitmap@,
        t as int / 4096,
    )) by {
        if let Some(t) = table_at(c.bytes@, root, v, k) {
            assert(in_memory(c.bytes@, t));
            assert(t as int / 4096 < a.pmm->0.total_frames);
            assert(table_at(b.bytes@, root, v, k) == Some(t) || !is_used(
                b.pmm->0.bitmap@,
                t as int / 4096,
            ));
        }
    }
}

/// Whether an entry on the way of an address is a huge page.
pub open spec fn huge_at(m: Seq<u8>, root: u64, v: u64, k: int) -> bool {
    table_at(m, root, v, k) matches Some(t) && is_present(entry(m, t, index_of(v, k))) && is_huge(
        entry(m, t, index_of(v, k)),
    )
}

/// Whether nothing but tables on the way of an address was added: no table is lost, the
/// new ones are on that way, the frames that were taken are theirs, and no huge page is
/// new.
#[verifier::opaque]
pub open spec fn adds_way(before: PhysicalMemory, after: PhysicalMemory, root: u64, virt: u64) -> bool {
    &&& forall|v: u64, k: int|
        0 <= k <= 3 && table_at(before.bytes@, root, v, k) is Some ==> #[trigger] table_at(
            after.bytes@,
            root,
            v,
            k,
        ) == table_at(before.bytes@, root, v, k)
    &&& forall|v: u64, k: int|
        0 <= k <= 3 && (#[trigger] table_at(after.bytes@, root, v, k)) is Some && table_at(
            before.bytes@,
            root,
            v,
            k,
        ) is None ==> same_way(v, virt, k)
    &&& forall|f: int|
        0 <= f < before.pmm->0.total_frames && !is_used(before.pmm->0.bitmap@, f)
            && #[trigger] is_used(after.pmm->0.bitmap@, f) ==> is_way_byte(
            after.bytes@,
            root,
            virt,
            f * 4096,
        )
    &&& forall|v: u64, k: int|
        0 <= k <= 2 && #[trigger] huge_at(after.bytes@, root, v, k) ==> huge_at(
            before.bytes@,
            root,
            v,
            k,
        )
}

/// Ways added to in two steps.
proof fn lemma_adds_way(
    a: PhysicalMemory,
    b: PhysicalMemory,
    c: PhysicalMemory,
    root: u64,
    virt: u64,
)
    requires
        adds_way(a, b, root, virt),
        adds_way(b, c, root, virt),
        b.pmm->0.total_frames == a.pmm->0.total_frames,
    ensures
        adds_way(a, c, root, virt),
{
    reveal(adds_way);
    assert forall|v: u64, k: int|
        0 <= k <= 3 && table_at(a.bytes@, root, v, k) is Some implies #[trigger] table_at(
        c.bytes@,
        root,
        v,
        k,
    ) == table_at(a.bytes@, root, v, k) by {
        assert(table_at(b.bytes@, root, v, k) == table_at(a.bytes@, root, v, k));
    }
    assert forall|v: u64, k: int|
        0 <= k <= 3 && (#[trigger] table_at(c.bytes@, root, v, k)) is Some && table_at(
            a.bytes@,
            root,
            v,
            k,
        ) is None implies same_way(v, virt, k) by {
        assert(table_at(b.bytes@, root, v, k) is Some || table_at(b.bytes@, root, v, k) is None);
    }
    assert forall|f: int|
        0 <= f < a.pmm->0.total_frames && !is_used(a.pmm->0.bitmap@, f) && #[trigger] is_used(
            c.pmm->0.bitmap@,
            f,
        ) implies is_way_byte(c.bytes@, root, virt, f * 4096) by {
        if is_used(b.pmm->0.bitmap@, f) {
            let l = choose|l: int|
                0 <= l <= 3 && ((#[trigger] table_at(b.bytes@, root, virt, l)) matches Some(t) && t
                    <= f * 4096 < t + 4096);
            assert(table_at(c.bytes@, root, virt, l) == table_at(b.bytes@, root, virt, l));
        }
    }
    assert forall|v: u64, k: int| 0 <= k <= 2 && #[trigger] huge_at(c.bytes@, root, v, k) implies huge_at(
        a.bytes@,
        root,
        v,
        k,
    ) by {
        assert(huge_at(b.bytes@, root, v, k));
    }
}

/// A table that is hung in is on the way.
proof fn lemma_hung_way(
    before: PhysicalMemory,
    after: PhysicalMemory,
    root: u64,
    virt: u64,
    l: int,
    n: u64,
)
    requires
        is_space(before, root),
        is_hung(before.bytes@, after.bytes@, root, virt, l, n, n | PRESENT | WRITABLE | USER),
        before.pmm->0.gave_one(after.pmm->0, n),
        n % 4096 == 0,
        0 <= l <= 2,
        !is_huge(n | PRESENT | WRITABLE | USER),
        table_at(before.bytes@, root, virt, l) is Some,
        table_at(before.bytes@, root, virt, l + 1) is None,
        l < 2 ==> forall|i: int| 0 <= i < 512 ==> #[trigger] entry(after.bytes@, n, i) == 0,
    ensures
        adds_way(before, after, root, virt),
{
    reveal(adds_way);
    let m = before.bytes@;
    let w = after.bytes@;
    let e = n | PRESENT | WRITABLE | USER;
    lemma_zero_entry();
    assert forall|v: u64, k: int|
        0 <= k <= 3 && table_at(m, root, v, k) is Some implies #[trigger] table_at(w, root, v, k)
        == table_at(m, root, v, k) by {
        lemma_hung_at(m, w, root, virt, l, n, e, v, k);
        if k > l && same_way(v, virt, l + 1) {
            lemma_same_way(m, root, v, virt, l + 1);
            reveal_with_fuel(table_at, 4);
        }
    }
    assert forall|v: u64, k: int|
        0 <= k <= 3 && (#[trigger] table_at(w, root, v, k)) is Some && table_at(m, root, v, k)
            is None implies same_way(v, virt, k) by {
        lemma_hung_at(m, w, root, virt, l, n, e, v, k);
    }
    assert forall|f: int|
        0 <= f < before.pmm->0.total_frames && !is_used(before.pmm->0.bitmap@, f)
            && #[trigger] is_used(after.pmm->0.bitmap@, f) implies is_way_byte(
        w,
        root,
        virt,
        f * 4096,
    ) by {
        assert(0 <= f < before.pmm->0.bitmap@.len() * 64);
        assert(f == n as int / 4096);
        lemma_hung_at(m, w, root, virt, l, n, e, virt, l + 1);
        assert(table_at(w, root, virt, l + 1) == Some(n));
    }
    assert forall|v: u64, k: int| 0 <= k <= 2 && #[trigger] huge_at(w, root, v, k) implies huge_at(
        m,
        root,
        v,
        k,
    ) by {
        lemma_hung_at(m, w, root, virt, l, n, e, v, k);
        lemma_hung_entry(m, w, root, virt, l, n, e, v, k);
        if k == l && same_way(v, virt, l + 1) {
            lemma_same_way(m, root, v, virt, l);
            assert(entry(w, table_at(m, root, v, k)->0, index_of(v, k)) == e);
        }
        if k > l && same_way(v, virt, l + 1) {
            assert(entry(w, n, index_of(v, k)) == 0);
        }
    }
}

/// The entry that an address ends at: that of its page, or of the piece of 2 MiB that it
/// lies in where there is no page table.
pub open spec fn end_entry(m: Seq<u8>, root: u64, v: u64) -> Option<u64> {
    match table_at(m, root, v, 3) {
        Some(pt) => Some(entry(m, pt, index_of(v, 3))),
        None => match table_at(m, root, v, 2) {
            Some(pd) => Some(entry(m, pd, index_of(v, 2))),
            None => None,
        },
    }
}

/// Whether what an address ends at is for user mode.
#[verifier::opaque]
pub open spec fn grants(m: Seq<u8>, root: u64, v: u64) -> bool {
    end_entry(m, root, v) matches Some(e) && is_user(e)
}

/// Whether nothing was granted to user mode that was not, but for the page or the piece
/// of 2 MiB of an address, where that is for user mode.
#[verifier::opaque]
pub open spec fn grants_only(
    m: Seq<u8>,
    w: Seq<u8>,
    root: u64,
    virt: u64,
    level: int,
    user: bool,
) -> bool {
    forall|v: u64| #[trigger]
        grants(w, root, v) ==> grants(m, root, v) || (user && same_way(v, virt, level))
}

proof fn lemma_grants_only(
    a: Seq<u8>,
    b: Seq<u8>,
    c: Seq<u8>,
    root: u64,
    virt: u64,
    level: int,
    user: bool,
)
    requires
        grants_only(a, b, root, virt, level, false),
        grants_only(b, c, root, virt, level, user),
    ensures
        grants_only(a, c, root, virt, level, user),
{
    reveal(grants_only);
}

proof fn lemma_same_grants(m: Seq<u8>, root: u64, virt: u64, level: int)
    ensures
        grants_only(m, m, root, virt, level, false),
{
    reveal(grants_only);
}

/// A new, empty table grants nothing.
#[verifier::spinoff_prover]
proof fn lemma_hung_grants(
    m: Seq<u8>,
    w: Seq<u8>,
    root: u64,
    virt: u64,
    l: int,
    n: u64,
    e: u64,
    level: int,
)
    requires
        is_hung(m, w, root, virt, l, n, e),
        is_tree(m, root),
        forall|i: int| 0 <= i < 512 ==> #[trigger] entry(w, n, i) == 0,
    ensures
        grants_only(m, w, root, virt, level, false),
{
    reveal(grants_only);
    reveal(grants);
    lemma_zero_entry();
    lemma_user_present(0);
    assert forall|v: u64| #[trigger] grants(w, root, v) implies grants(m, root, v) by {
        lemma_hung_at(m, w, root, virt, l, n, e, v, 3);
        lemma_hung_at(m, w, root, virt, l, n, e, v, 2);
        lemma_hung_entry(m, w, root, virt, l, n, e, v, 3);
        lemma_hung_entry(m, w, root, virt, l, n, e, v, 2);
        assert(entry(w, n, index_of(v, 3)) == 0);
        assert(entry(w, n, index_of(v, 2)) == 0);
    }
}

/// The pieces of a page are for user mode only where the page was.
proof fn lemma_split_user(e: u64, i: int)
    requires
        0 <= i < 512,
        is_present(e),
    ensures
        is_user(split_leaf(e, i)) ==> is_user(e),
{
    lemma_split_leaf(e, i as u64);
    let base = e & HUGE_2M_MASK;
    let p = (base + i * 4096) as u64;
    let f = split_flags(e);
    let j = i as u64;
    assert(p & 5 == 0) by (bit_vector)
        requires
            p == (e & 0x000f_ffff_ffe0_0000) + j * 4096,
            j < 512,
    ;
    assert(f & 5 == e & 5) by {
        assert((e & !0x000f_ffff_ffff_f000u64 & !0x80u64) & 5 == e & 5 && ((e
            & !0x000f_ffff_ffff_f000u64 & !0x80u64) | 0x80) & 5 == e & 5) by (bit_vector);
    }
    assert((p | f) & (1u64 | 4u64) == 1u64 | 4u64 ==> e & (1u64 | 4u64) == 1u64 | 4u64) by (bit_vector)
        requires
            p & 5 == 0,
            f & 5 == e & 5,
    ;
}

#[verifier::spinoff_prover]
proof fn lemma_split_grants(m: Seq<u8>, w: Seq<u8>, root: u64, virt: u64, n: u64, e: u64, level: int)
    requires
        is_hung(m, w, root, virt, 2, n, e),
        is_tree(m, root),
        is_present(entry(m, table_at(m, root, virt, 2)->0, index_of(virt, 2))),
        forall|i: int|
            0 <= i < 512 ==> #[trigger] entry(w, n, i) == split_leaf(
                entry(m, table_at(m, root, virt, 2)->0, index_of(virt, 2)),
                i,
            ),
    ensures
        grants_only(m, w, root, virt, level, false),
{
    reveal(grants_only);
    reveal(grants);
    let huge = entry(m, table_at(m, root, virt, 2)->0, index_of(virt, 2));
    assert forall|v: u64| #[trigger] grants(w, root, v) implies grants(m, root, v) by {
        lemma_hung_at(m, w, root, virt, 2, n, e, v, 3);
        lemma_hung_at(m, w, root, virt, 2, n, e, v, 2);
        lemma_hung_entry(m, w, root, virt, 2, n, e, v, 3);
        lemma_hung_entry(m, w, root, virt, 2, n, e, v, 2);
        if same_way(v, virt, 3) {
            assert(entry(w, n, index_of(v, 3)) == split_leaf(huge, index_of(v, 3)));
            lemma_split_user(huge, index_of(v, 3));
            lemma_same_way(m, root, v, virt, 2);
            lemma_same_way(m, root, v, virt, 3);
        }
    }
}

/// Descend one level, adding a zeroed table if the entry is empty.
fn child_table(mem: &mut PhysicalMemory, root: u64, virt: u64, level: usize, parent: u64) -> (t:
    u64)
    requires
        is_space(*old(mem), root),
        level <= 2,
        table_at(old(mem).bytes@, root, virt, level as int) == Some(parent),
        is_present(entry(old(mem).bytes@, parent, index_of(virt, level as int))) ==> !is_huge(
            entry(old(mem).bytes@, parent, index_of(virt, level as int)),
        ),
        table_at(old(mem).bytes@, root, virt, level + 1) is None
            ==> old(mem).pmm->0.free_frames > 0,
    ensures
        is_space(*final(mem), root),
        final(mem).hhdm == old(mem).hhdm,
        table_at(final(mem).bytes@, root, virt, level + 1) == Some(t),
        same_walks(old(mem).bytes@, final(mem).bytes@, root),
        keeps_leaves(old(mem).bytes@, final(mem).bytes@, root),
        forall|v: u64, k: int|
            0 <= k <= 3 && !(k > level && same_way(v, virt, level + 1)) ==> #[trigger] table_at(
                final(mem).bytes@,
                root,
                v,
                k,
            ) == table_at(old(mem).bytes@, root, v, k),
        table_at(old(mem).bytes@, root, virt, level + 1) is Some ==> *final(mem) == *old(mem),
        table_at(old(mem).bytes@, root, virt, level + 1) is None ==> {
            &&& old(mem).pmm->0.gave_one(final(mem).pmm->0, t)
            &&& keeps_others(*old(mem), *final(mem), parent)
            &&& forall|i: int| 0 <= i < 512 ==> #[trigger] entry(final(mem).bytes@, t, i) == 0
            &&& forall|k: int|
                level + 1 < k <= 3 ==> #[trigger] table_at(final(mem).bytes@, root, virt, k) is None
        },
        final(mem).bytes@.len() == old(mem).bytes@.len(),
        adds_tables(*old(mem), *final(mem), root),
        adds_way(*old(mem), *final(mem), root, virt),
        forall|l: int| #[trigger]
            grants_only(old(mem).bytes@, final(mem).bytes@, root, virt, l, false),
        same_modes(old(mem).bytes@, final(mem).bytes@, root),
{
    proof {
        reveal(adds_tables);
        lemma_no_way(*mem, root, virt);
        lemma_no_modes(mem.bytes@, root);
        assert forall|l: int| #[trigger] grants_only(mem.bytes@, mem.bytes@, root, virt, l, false) by {
            lemma_same_grants(mem.bytes@, root, virt, l);
        }
    }
    let ghost before = *mem;
    let i: usize = index(virt, level);
    assert(in_memory(mem.bytes@, parent)) by {
        assert(table_at(mem.bytes@, root, virt, level as int) == Some(parent));
    }
    let e: u64 = read_entry(mem, parent, i);
    if e & PRESENT != 0 {
        return e & ADDR_MASK;
    }
    let ghost m = mem.bytes@;
    let n: u64 = hang_table(mem, root, virt, level, parent);
    proof {
        let w = mem.bytes@;
        let ne = n | PRESENT | WRITABLE | USER;
        let l = level as int;
        assert(!is_present(0)) by {
            assert(0u64 & 1 == 0) by (bit_vector);
        }
        assert forall|v: u64| #[trigger] walked(w, root, v) == walked(m, root, v) by {
            lemma_hung_empty(m, w, root, virt, l, n, ne, v);
        }
        assert forall|v: u64| leaf_at(m, root, v) is Some implies #[trigger] leaf_at(w, root, v)
            == leaf_at(m, root, v) by {
            lemma_hung_leaf(m, w, root, virt, l, n, ne, v);
        }
        assert forall|v: u64, k: int| 0 <= k <= 3 implies #[trigger] table_at(w, root, v, k)
            == hung_table(m, root, virt, l, n, v, k) by {
            lemma_hung_at(m, w, root, virt, l, n, ne, v, k);
        }
        lemma_table_entry(n);
        lemma_hung_way(before, *mem, root, virt, l, n);
        lemma_hung_modes(m, w, root, virt, l, n, ne);
        assert forall|k: int| #[trigger] grants_only(m, w, root, virt, k, false) by {
            lemma_hung_grants(m, w, root, virt, l, n, ne, k);
        }
    }
    n
}

/// Where nothing has changed, nothing was added.
proof fn lemma_no_way(mem: PhysicalMemory, root: u64, virt: u64)
    ensures
        adds_way(mem, mem, root, virt),
{
    reveal(adds_way);
}

/// The entry of a 4 KiB page that stands for a piece of a 2 MiB page.
pub open spec fn split_leaf(e: u64, i: int) -> u64 {
    (((e & HUGE_2M_MASK) + i * 4096) as u64) | split_flags(e)
}

/// Permission and caching flags of a 2 MiB page as its 4 KiB pages have them.
pub open spec fn split_flags(e: u64) -> u64 {
    let kept = e & !ADDR_MASK & !HUGE;
    if e & PAT_HUGE != 0 {
        kept | PAT_4K
    } else {
        kept
    }
}

proof fn lemma_split_leaf(e: u64, i: u64)
    requires
        i < 512,
        is_present(e),
    ensures
        (e & HUGE_2M_MASK) + i * 4096 < PHYS_LIMIT,
        is_present(split_leaf(e, i as int)),
        split_leaf(e, i as int) & ADDR_MASK == (e & HUGE_2M_MASK) + i * 4096,
        (e & HUGE_2M_MASK) + 0x20_0000 <= PHYS_LIMIT,
{
    let base = e & HUGE_2M_MASK;
    assert((e & 0x000f_ffff_ffe0_0000) + i * 4096 < 0x10_0000_0000_0000 && (e
        & 0x000f_ffff_ffe0_0000) + 0x20_0000 <= 0x10_0000_0000_0000) by (bit_vector)
        requires
            i < 512,
    ;
    let p = (base + i * 4096) as u64;
    assert(p & 0x000f_ffff_ffff_f000 == p) by (bit_vector)
        requires
            p == (e & 0x000f_ffff_ffe0_0000) + i * 4096,
            i < 512,
    ;
    let k = e & !ADDR_MASK & !HUGE;
    assert(k & 1 != 0 && k & 0x000f_ffff_ffff_f000 == 0 && (k | 0x80) & 1 != 0 && (k | 0x80)
        & 0x000f_ffff_ffff_f000 == 0) by (bit_vector)
        requires
            k == e & !0x000f_ffff_ffff_f000u64 & !0x80u64,
            e & 1 != 0,
    ;
    let f = split_flags(e);
    assert((p | f) & 1 != 0 && (p | f) & 0x000f_ffff_ffff_f000 == p) by (bit_vector)
        requires
            p & 0x000f_ffff_ffff_f000 == p,
            f & 1 != 0,
            f & 0x000f_ffff_ffff_f000 == 0,
    ;
}

/// Replace a 2 MiB mapping with a page table of 512 4 KiB mappings of the same
/// memory with the same permissions, so individual pages can be remapped.
#[verifier::spinoff_prover]
#[verifier::rlimit(40)]
fn split_huge(mem: &mut PhysicalMemory, root: u64, virt: u64, pd: u64) -> (n: u64)
    requires
        is_space(*old(mem), root),
        table_at(old(mem).bytes@, root, virt, 2) == Some(pd),
        is_present(entry(old(mem).bytes@, pd, index_of(virt, 2))),
        is_huge(entry(old(mem).bytes@, pd, index_of(virt, 2))),
        old(mem).pmm->0.free_frames > 0,
    ensures
        is_space(*final(mem), root),
        final(mem).hhdm == old(mem).hhdm,
        final(mem).bytes@.len() == old(mem).bytes@.len(),
        old(mem).pmm->0.gave_one(final(mem).pmm->0, n),
        table_at(final(mem).bytes@, root, virt, 3) == Some(n),
        same_walks(old(mem).bytes@, final(mem).bytes@, root),
        keeps_leaves(old(mem).bytes@, final(mem).bytes@, root),
        forall|i: int|
            0 <= i < 512 ==> #[trigger] entry(final(mem).bytes@, n, i) == split_leaf(
                entry(old(mem).bytes@, pd, index_of(virt, 2)),
                i,
            ),
        forall|v: u64, k: int|
            0 <= k <= 3 && !(k == 3 && same_way(v, virt, 3)) ==> #[trigger] table_at(
                final(mem).bytes@,
                root,
                v,
                k,
            ) == table_at(old(mem).bytes@, root, v, k),
        keeps_others(*old(mem), *final(mem), pd),
        adds_tables(*old(mem), *final(mem), root),
        adds_way(*old(mem), *final(mem), root, virt),
        grants_only(old(mem).bytes@, final(mem).bytes@, root, virt, 4, false),
        same_modes(old(mem).bytes@, final(mem).bytes@, root),
{
    let ghost m = mem.bytes@;
    let ghost before = *mem;
    let at: usize = index(virt, 2);
    assert(in_memory(m, pd));
    let e: u64 = read_entry(mem, pd, at);
    let base: u64 = e & HUGE_2M_MASK;
    let mut flags: u64 = e & !ADDR_MASK & !HUGE;
    if e & PAT_HUGE != 0 {
        flags = flags | PAT_4K;
    }
    assert(table_at(m, root, virt, 3) is None) by {
        reveal_with_fuel(table_at, 2);
    }
    let n: u64 = hang_table(mem, root, virt, 2, pd);
    let ghost h = mem.bytes@;
    let ghost ne = n | PRESENT | WRITABLE | USER;
    let ghost pmm = mem.pmm;
    let mut i: usize = 0;
    while i < ENTRIES
        invariant
            i <= 512,
            base == e & HUGE_2M_MASK,
            flags == split_flags(e),
            is_present(e),
            mem.pmm == pmm,
            mem.hhdm == before.hhdm,
            mem.bytes@.len() == h.len(),
            in_memory(h, n),
            forall|j: int|
                0 <= j < i ==> #[trigger] entry(mem.bytes@, n, j) == split_leaf(e, j),
            forall|t: u64, j: int|
                in_memory(h, t) && 0 <= j < 512 && t != n ==> #[trigger] entry(mem.bytes@, t, j)
                    == entry(h, t, j),
            forall|x: int|
                0 <= x < h.len() && !(n <= x < n + 4096) ==> #[trigger] mem.bytes@[x] == h[x],
        decreases 512 - i,
    {
        proof {
            lemma_split_leaf(e, i as u64);
        }
        let leaf: u64 = (base + i as u64 * PAGE_SIZE) | flags;
        let ghost b = mem.bytes@;
        write_entry(mem, n, i, leaf);
        proof {
            lemma_write_entry(b, n, i as int, leaf);
            lemma_le64_round_trip(leaf);
            assert forall|j: int| 0 <= j < i + 1 implies #[trigger] entry(mem.bytes@, n, j)
                == split_leaf(e, j) by {
                if j < i {
                    assert(entry(b, n, j) == split_leaf(e, j));
                }
            }
            assert forall|t: u64, j: int|
                in_memory(h, t) && 0 <= j < 512 && t != n implies #[trigger] entry(mem.bytes@, t, j)
                == entry(h, t, j) by {
                assert(entry(b, t, j) == entry(h, t, j));
            }
        }
        i += 1;
    }
    proof {
        let w = mem.bytes@;
        assert(is_hung(m, w, root, virt, 2, n, ne)) by {
            assert forall|v: u64, k: int, j: int|
                #![trigger table_at(m, root, v, k), entry(w, table_at(m, root, v, k)->0, j)]
                0 <= k <= 3 && 0 <= j < 512 && table_at(m, root, v, k) is Some implies entry(
                w,
                table_at(m, root, v, k)->0,
                j,
            ) == if table_at(m, root, v, k) == table_at(m, root, virt, 2) && j == index_of(virt, 2) {
                ne
            } else {
                entry(m, table_at(m, root, v, k)->0, j)
            } by {
                let t = table_at(m, root, v, k)->0;
                assert(in_memory(m, t));
                assert(t != n);
                assert(entry(w, t, j) == entry(h, t, j));
                assert(entry(h, table_at(m, root, v, k)->0, j) == if table_at(m, root, v, k)
                    == table_at(m, root, virt, 2) && j == index_of(virt, 2) {
                    ne
                } else {
                    entry(m, t, j)
                });
            }
        }
        lemma_tables_still_taken(before, pmm->0, root, n);
        lemma_hung(m, w, root, virt, 2, n, ne, pmm->0);
        lemma_table_entry(n);
        lemma_hung_way(before, *mem, root, virt, 2, n);
        lemma_split_grants(m, w, root, virt, n, ne, 4);
        lemma_split_modes(m, w, root, virt, n, ne);
        reveal(adds_tables);
        assert forall|v: u64| #[trigger] walked(w, root, v) == walked(m, root, v) by {
            lemma_split_walk(m, w, root, virt, n, ne, v);
        }
        assert forall|v: u64| leaf_at(m, root, v) is Some implies #[trigger] leaf_at(w, root, v)
            == leaf_at(m, root, v) by {
            lemma_hung_leaf(m, w, root, virt, 2, n, ne, v);
        }
    }
    n
}

/// Splitting a 2 MiB page maps every address as before.
#[verifier::spinoff_prover]
proof fn lemma_split_walk(m: Seq<u8>, w: Seq<u8>, root: u64, virt: u64, n: u64, ne: u64, v: u64)
    requires
        is_hung(m, w, root, virt, 2, n, ne),
        is_tree(m, root),
        is_present(entry(m, table_at(m, root, virt, 2)->0, index_of(virt, 2))),
        is_huge(entry(m, table_at(m, root, virt, 2)->0, index_of(virt, 2))),
        forall|i: int|
            0 <= i < 512 ==> #[trigger] entry(w, n, i) == split_leaf(
                entry(m, table_at(m, root, virt, 2)->0, index_of(virt, 2)),
                i,
            ),
    ensures
        walked(w, root, v) == walked(m, root, v),
{
    lemma_walked(m, root, v);
    lemma_walked(w, root, v);
    lemma_hung_at(m, w, root, virt, 2, n, ne, v, 1);
    lemma_hung_at(m, w, root, virt, 2, n, ne, v, 2);
    lemma_hung_at(m, w, root, virt, 2, n, ne, v, 3);
    lemma_hung_entry(m, w, root, virt, 2, n, ne, v, 1);
    lemma_hung_entry(m, w, root, virt, 2, n, ne, v, 2);
    lemma_hung_entry(m, w, root, virt, 2, n, ne, v, 3);
    if same_way(v, virt, 3) {
        lemma_same_way(m, root, v, virt, 2);
        lemma_same_way(m, root, v, virt, 3);
        let e = entry(m, table_at(m, root, virt, 2)->0, index_of(virt, 2));
        let i = index_of(v, 3);
        lemma_split_leaf(e, i as u64);
        assert(entry(w, n, i) == split_leaf(e, i));
        assert(table_at(m, root, v, 3) is None) by {
            reveal_with_fuel(table_at, 2);
        }
        lemma_in_2m(v);
    }
}

proof fn lemma_in_2m(v: u64)
    ensures
        index_of(v, 3) * 4096 + v % PAGE_SIZE == v % HUGE_2M,
        0 <= index_of(v, 3) < 512,
{
}

/// Writing a leaf entry of a page table changes no table, and the mapping of
/// the pages that go through that entry.
proof fn lemma_write_leaf(m: Seq<u8>, w: Seq<u8>, root: u64, virt: u64, pt: u64, leaf: u64, pmm: Pmm)
    requires
        tables_in_memory(m, root),
        is_tree(m, root),
        tables_taken(m, root, pmm),
        table_at(m, root, virt, 3) == Some(pt),
        w == spliced(m, pt + 8 * index_of(virt, 3), le64_bytes(leaf)),
    ensures
        tables_in_memory(w, root),
        is_tree(w, root),
        tables_taken(w, root, pmm),
        entry(w, pt, index_of(virt, 3)) == leaf,
        forall|v: u64, k: int|
            0 <= k <= 3 ==> #[trigger] table_at(w, root, v, k) == table_at(m, root, v, k),
        forall|v: u64| #[trigger]
            leaf_at(w, root, v) == if same_way(v, virt, 4) {
                Some(leaf)
            } else {
                leaf_at(m, root, v)
            },
        forall|v: u64|
            !same_way(v, virt, 4) ==> #[trigger] walked(w, root, v) == walked(m, root, v),
        forall|v: u64|
            same_way(v, virt, 4) ==> #[trigger] walked(w, root, v) == if is_present(leaf) {
                Some(((leaf & ADDR_MASK) + v % PAGE_SIZE) as u64)
            } else {
                None
            },
{
    let i = index_of(virt, 3);
    assert(in_memory(m, pt));
    lemma_write_entry(m, pt, i, leaf);
    assert forall|v: u64, k: int| 0 <= k <= 3 implies #[trigger] table_at(w, root, v, k)
        == table_at(m, root, v, k) by {
        lemma_leaf_table(m, w, root, virt, pt, v, k);
    }
    assert forall|a: u64, l: int, b: u64, k: int|
        #![trigger table_at(w, root, a, l), table_at(w, root, b, k)]
        0 <= l <= 3 && 0 <= k <= 3 && table_at(w, root, a, l) is Some && table_at(w, root, a, l)
            == table_at(w, root, b, k) implies l == k && same_way(a, b, l) by {
        assert(table_at(m, root, a, l) == table_at(m, root, b, k));
    }
    assert forall|v: u64, k: int| 0 <= k <= 3 implies ((#[trigger] table_at(w, root, v, k)) matches Some(
        t,
    ) ==> in_memory(w, t)) by {
        assert(table_at(m, root, v, k) matches Some(t) ==> in_memory(m, t));
    }
    assert forall|v: u64, k: int| 0 <= k <= 3 implies ((#[trigger] table_at(w, root, v, k)) matches Some(
        t,
    ) ==> is_used(pmm.bitmap@, t as int / 4096)) by {
        assert(table_at(m, root, v, k) matches Some(t) ==> is_used(pmm.bitmap@, t as int / 4096));
    }
    assert forall|v: u64| #[trigger] leaf_at(w, root, v) == if same_way(v, virt, 4) {
        Some(leaf)
    } else {
        leaf_at(m, root, v)
    } by {
        assert(table_at(w, root, v, 3) == table_at(m, root, v, 3));
        lemma_leaf_entry(m, w, root, virt, pt, leaf, v, 3);
        if same_way(v, virt, 4) {
            lemma_same_way(m, root, v, virt, 3);
        }
    }
    assert forall|v: u64| #[trigger] walked(w, root, v) == if same_way(v, virt, 4) {
        if is_present(leaf) {
            Some(((leaf & ADDR_MASK) + v % PAGE_SIZE) as u64)
        } else {
            None
        }
    } else {
        walked(m, root, v)
    } by {
        lemma_walked(m, root, v);
        lemma_walked(w, root, v);
        assert(table_at(w, root, v, 1) == table_at(m, root, v, 1));
        assert(table_at(w, root, v, 2) == table_at(m, root, v, 2));
        assert(table_at(w, root, v, 3) == table_at(m, root, v, 3));
        lemma_leaf_entry(m, w, root, virt, pt, leaf, v, 1);
        lemma_leaf_entry(m, w, root, virt, pt, leaf, v, 2);
        lemma_leaf_entry(m, w, root, virt, pt, leaf, v, 3);
        if same_way(v, virt, 4) {
            lemma_same_way(m, root, v, virt, 3);
        }
    }
}

proof fn lemma_leaf_entry(
    m: Seq<u8>,
    w: Seq<u8>,
    root: u64,
    virt: u64,
    pt: u64,
    leaf: u64,
    v: u64,
    k: int,
)
    requires
        tables_in_memory(m, root),
        is_tree(m, root),
        table_at(m, root, virt, 3) == Some(pt),
        w == spliced(m, pt + 8 * index_of(virt, 3), le64_bytes(leaf)),
        0 <= k <= 3,
    ensures
        table_at(m, root, v, k) matches Some(t) ==> !(k == 3 && same_way(v, virt, 4)) ==> entry(
            w,
            t,
            index_of(v, k),
        ) == entry(m, t, index_of(v, k)),
{
    assert(in_memory(m, pt));
    lemma_write_entry(m, pt, index_of(virt, 3), leaf);
    if let Some(t) = table_at(m, root, v, k) {
        assert(in_memory(m, t));
        if t == pt {
            assert(table_at(m, root, v, k) == table_at(m, root, virt, 3));
            assert(k == 3 && same_way(v, virt, 3));
        }
    }
}

proof fn lemma_leaf_table(
    m: Seq<u8>,
    w: Seq<u8>,
    root: u64,
    virt: u64,
    pt: u64,
    v: u64,
    k: int,
)
    requires
        tables_in_memory(m, root),
        is_tree(m, root),
        table_at(m, root, virt, 3) == Some(pt),
        forall|t: u64, i: int|
            #![trigger entry(w, t, i)]
            in_memory(m, t) && 0 <= i < 512 && (t != pt || i != index_of(virt, 3)) ==> entry(w, t, i)
                == entry(m, t, i),
        0 <= k <= 3,
    ensures
        table_at(w, root, v, k) == table_at(m, root, v, k),
    decreases k,
{
    if k > 0 {
        lemma_leaf_table(m, w, root, virt, pt, v, k - 1);
        if let Some(t) = table_at(m, root, v, k - 1) {
            assert(in_memory(m, t));
            if t == pt {
                assert(table_at(m, root, v, k - 1) == table_at(m, root, virt, 3));
            }
        }
    }
}

/// The leaf entry that maps a page to a frame.
pub open spec fn leaf_of(phys: u64, flags: u64) -> u64 {
    (phys & ADDR_MASK) | flags | PRESENT
}

pub proof fn lemma_leaf_present(phys: u64, flags: u64)
    ensures
        is_present(leaf_of(phys, flags)),
        flags & ADDR_MASK == 0 ==> leaf_of(phys, flags) & ADDR_MASK == phys & ADDR_MASK,
{
    let p = phys & ADDR_MASK;
    assert((p | flags | 1) & 1 != 0) by (bit_vector);
    assert(flags & 0x000f_ffff_ffff_f000 == 0 ==> ((phys & 0x000f_ffff_ffff_f000) | flags | 1)
        & 0x000f_ffff_ffff_f000 == phys & 0x000f_ffff_ffff_f000) by (bit_vector);
}

/// What mapping a page comes to.
pub open spec fn is_mapped_page(
    before: PhysicalMemory,
    after: PhysicalMemory,
    root: u64,
    virt: u64,
    leaf: u64,
) -> bool {
    &&& is_space(after, root)
    &&& after.hhdm == before.hhdm
    &&& after.bytes@.len() == before.bytes@.len()
    &&& table_at(after.bytes@, root, virt, 3) matches Some(pt)
    &&& entry(after.bytes@, pt, index_of(virt, 3)) == leaf
    &&& forall|v: u64|
        !same_way(v, virt, 4) && leaf_at(before.bytes@, root, v) is Some ==> #[trigger] leaf_at(
            after.bytes@,
            root,
            v,
        ) == leaf_at(before.bytes@, root, v)
    &&& forall|v: u64|
        !same_way(v, virt, 4) ==> #[trigger] walked(after.bytes@, root, v) == walked(
            before.bytes@,
            root,
            v,
        )
    &&& forall|v: u64|
        same_way(v, virt, 4) ==> #[trigger] walked(after.bytes@, root, v) == Some(
            ((leaf & ADDR_MASK) + v % PAGE_SIZE) as u64,
        )
    &&& after.pmm->0.free_frames == before.pmm->0.free_frames - missing_tables(
        before.bytes@,
        root,
        virt,
    )
    &&& takes_only(before.pmm->0, after.pmm->0)
    &&& keeps_rest(before, after, root, virt)
    &&& adds_tables(before, after, root)
    &&& adds_way(before, after, root, virt)
    &&& grants_only(before.bytes@, after.bytes@, root, virt, 4, is_user(leaf))
    &&& keeps_modes(before.bytes@, after.bytes@, root, virt, 4)
}

/// Whether no frame was taken back.
pub open spec fn takes_only(before: Pmm, after: Pmm) -> bool {
    &&& after.same_memory(before)
    &&& forall|f: int|
        0 <= f < before.total_frames && is_used(before.bitmap@, f) ==> #[trigger] is_used(
            after.bitmap@,
            f,
        )
}

pub proof fn lemma_takes_only(before: Pmm, after: Pmm, n: u64)
    requires
        before.wf(),
        before.gave_one(after, n),
    ensures
        takes_only(before, after),
{
    assert forall|f: int| 0 <= f < before.total_frames && is_used(before.bitmap@, f) implies
        #[trigger] is_used(after.bitmap@, f) by {
        assert(0 <= f < before.bitmap@.len() * 64);
    }
}

/// Whether a step towards a page gave the table `t`, new or there before.
pub open spec fn is_step(a: PhysicalMemory, b: PhysicalMemory, parent: u64, t: u64) -> bool {
    &&& b.hhdm == a.hhdm
    &&& b.bytes@.len() == a.bytes@.len()
    &&& a == b || (a.pmm->0.gave_one(b.pmm->0, t) && keeps_others(a, b, parent))
}

/// Whether a table is on the way of an address, or its frame was free.
pub open spec fn is_way_or_free(a: PhysicalMemory, root: u64, virt: u64, l: int, t: u64) -> bool {
    table_at(a.bytes@, root, virt, l) == Some(t) || !is_used(a.pmm->0.bitmap@, t as int / 4096)
}

/// What the steps towards a page and writing its leaf leave alone.
proof fn lemma_steps_keep(
    m0: PhysicalMemory,
    m1: PhysicalMemory,
    m2: PhysicalMemory,
    m3: PhysicalMemory,
    w: PhysicalMemory,
    root: u64,
    virt: u64,
    pdpt: u64,
    pd: u64,
    pt: u64,
)
    requires
        is_space(m0, root),
        is_space(m1, root),
        is_space(m2, root),
        is_space(m3, root),
        is_step(m0, m1, root, pdpt),
        is_step(m1, m2, pdpt, pd),
        is_step(m2, m3, pd, pt),
        is_way_or_free(m0, root, virt, 1, pdpt),
        is_way_or_free(m0, root, virt, 2, pd),
        is_way_or_free(m0, root, virt, 3, pt),
        pdpt % 4096 == 0,
        pd % 4096 == 0,
        pt % 4096 == 0,
        w.pmm == m3.pmm,
        w.bytes@.len() == m3.bytes@.len(),
        forall|i: int|
            0 <= i < m3.bytes@.len() && !(pt <= i < pt + 4096) ==> #[trigger] w.bytes@[i]
                == m3.bytes@[i],
    ensures
        takes_only(m0.pmm->0, w.pmm->0),
        keeps_rest(m0, w, root, virt),
{
    if m0 != m1 {
        lemma_takes_only(m0.pmm->0, m1.pmm->0, pdpt);
    }
    if m1 != m2 {
        lemma_takes_only(m1.pmm->0, m2.pmm->0, pd);
    }
    if m2 != m3 {
        lemma_takes_only(m2.pmm->0, m3.pmm->0, pt);
    }
    let b0 = m0.bytes@;
    assert(takes_only(m0.pmm->0, w.pmm->0)) by {
        assert forall|f: int|
            0 <= f < m0.pmm->0.total_frames && is_used(m0.pmm->0.bitmap@, f) implies
            #[trigger] is_used(w.pmm->0.bitmap@, f) by {
            assert(is_used(m1.pmm->0.bitmap@, f));
            assert(is_used(m2.pmm->0.bitmap@, f));
            assert(is_used(m3.pmm->0.bitmap@, f));
        }
    }
    assert forall|i: int|
        0 <= i < b0.len() && is_used(m0.pmm->0.bitmap@, i / 4096) && !is_way_byte(
            b0,
            root,
            virt,
            i,
        ) implies #[trigger] w.bytes@[i] == b0[i] by {
        let f = i / 4096;
        assert(0 <= f < m0.pmm->0.total_frames);
        assert(is_used(m1.pmm->0.bitmap@, f));
        assert(is_used(m2.pmm->0.bitmap@, f));
        assert(table_at(b0, root, virt, 0) == Some(root));
        assert(!(root <= i < root + 4096));
        assert(m1.bytes@[i] == b0[i]);
        assert(!(pdpt <= i < pdpt + 4096)) by {
            if table_at(b0, root, virt, 1) != Some(pdpt) && pdpt <= i < pdpt + 4096 {
                assert(f == pdpt as int / 4096);
            }
        }
        assert(m2.bytes@[i] == m1.bytes@[i]);
        assert(!(pd <= i < pd + 4096)) by {
            if table_at(b0, root, virt, 2) != Some(pd) && pd <= i < pd + 4096 {
                assert(f == pd as int / 4096);
            }
        }
        assert(m3.bytes@[i] == m2.bytes@[i]);
        assert(!(pt <= i < pt + 4096)) by {
            if table_at(b0, root, virt, 3) != Some(pt) && pt <= i < pt + 4096 {
                assert(f == pt as int / 4096);
            }
        }
    }
}

/// A frame that is free later was free before.
proof fn lemma_was_free(a: PhysicalMemory, b: PhysicalMemory, parent: u64, t: u64, n: u64)
    requires
        a.wf(),
        a.pmm is Some,
        is_step(a, b, parent, t),
        n as int / 4096 < a.pmm->0.total_frames,
        !is_used(b.pmm->0.bitmap@, n as int / 4096),
    ensures
        !is_used(a.pmm->0.bitmap@, n as int / 4096),
{
    if a != b {
        lemma_takes_only(a.pmm->0, b.pmm->0, t);
    }
}

/// Map a 4 KiB page, adding the tables on its way that are missing.
pub fn map4k(mem: &mut PhysicalMemory, root: u64, virt: u64, phys: u64, flags: u64)
    requires
        is_space(*old(mem), root),
        is_clear(old(mem).bytes@, root, virt),
        old(mem).pmm->0.free_frames >= missing_tables(old(mem).bytes@, root, virt),
    ensures
        is_mapped_page(*old(mem), *final(mem), root, virt, leaf_of(phys, flags)),
{
    let ghost m0 = *mem;
    proof {
        lemma_zero_entry();
        assert(table_at(m0.bytes@, root, virt, 0) == Some(root));
    }
    let pdpt: u64 = child_table(mem, root, virt, 0, root);
    let ghost m1 = *mem;
    assert(in_memory(m1.bytes@, pdpt)) by {
        assert(table_at(m1.bytes@, root, virt, 1) == Some(pdpt));
    }
    proof {
        if table_at(m0.bytes@, root, virt, 1) is None {
            assert(entry(m1.bytes@, pdpt, index_of(virt, 1)) == 0);
            assert(table_at(m1.bytes@, root, virt, 2) is None);
            assert(table_at(m1.bytes@, root, virt, 3) is None);
        }
    }
    let pd: u64 = child_table(mem, root, virt, 1, pdpt);
    let ghost m2 = *mem;
    assert(in_memory(m2.bytes@, pd)) by {
        assert(table_at(m2.bytes@, root, virt, 2) == Some(pd));
    }
    proof {
        if table_at(m1.bytes@, root, virt, 2) is None {
            assert(entry(m2.bytes@, pd, index_of(virt, 2)) == 0);
            assert(table_at(m2.bytes@, root, virt, 3) is None);
        }
        assert(m2.pmm->0.free_frames > 0 || table_at(m2.bytes@, root, virt, 3) is Some) by {
            lemma_none_below(m0.bytes@, root, virt);
        }
    }
    let at: usize = index(virt, 2);
    let e: u64 = read_entry(mem, pd, at);
    proof {
        reveal_with_fuel(table_at, 2);
    }
    let pt: u64 = if e & PRESENT != 0 && e & HUGE != 0 {
        split_huge(mem, root, virt, pd)
    } else {
        child_table(mem, root, virt, 2, pd)
    };
    let ghost m3 = *mem;
    let leaf: u64 = (phys & ADDR_MASK) | flags | PRESENT;
    assert(in_memory(m3.bytes@, pt)) by {
        assert(table_at(m3.bytes@, root, virt, 3) == Some(pt));
    }
    let i: usize = index(virt, 3);
    write_entry(mem, pt, i, leaf);
    proof {
        lemma_leaf_present(phys, flags);
        lemma_write_leaf(m3.bytes@, mem.bytes@, root, virt, pt, leaf, m3.pmm->0);
        lemma_le64_round_trip(leaf);
        if m1 != m2 {
            lemma_was_free(m0, m1, root, pdpt, pd);
        }
        if m2 != m3 {
            lemma_was_free(m1, m2, pdpt, pd, pt);
            lemma_was_free(m0, m1, root, pdpt, pt);
        }
        lemma_steps_keep(m0, m1, m2, m3, *mem, root, virt, pdpt, pd, pt);
        if m0 != m1 {
            lemma_takes_only(m0.pmm->0, m1.pmm->0, pdpt);
        }
        if m1 != m2 {
            lemma_takes_only(m1.pmm->0, m2.pmm->0, pd);
        }
        lemma_adds_tables(m0, m1, m2, root);
        lemma_adds_tables(m0, m2, m3, root);
        assert(adds_tables(m0, *mem, root)) by {
            reveal(adds_tables);
        }
        lemma_adds_way(m0, m1, m2, root, virt);
        lemma_adds_way(m0, m2, m3, root, virt);
        lemma_leaf_way(m3, *mem, root, virt, pt, leaf);
        lemma_adds_way(m0, m3, *mem, root, virt);
        lemma_grants_only(m0.bytes@, m1.bytes@, m2.bytes@, root, virt, 4, false);
        lemma_grants_only(m0.bytes@, m2.bytes@, m3.bytes@, root, virt, 4, false);
        lemma_leaf_grants(m3, *mem, root, virt, pt, leaf);
        lemma_leaf_modes(m3, *mem, root, virt, pt, leaf);
        lemma_same_modes(m2.bytes@, m3.bytes@, mem.bytes@, root, virt, 4);
        lemma_same_modes(m1.bytes@, m2.bytes@, mem.bytes@, root, virt, 4);
        lemma_same_modes(m0.bytes@, m1.bytes@, mem.bytes@, root, virt, 4);
        lemma_grants_only(m0.bytes@, m3.bytes@, mem.bytes@, root, virt, 4, is_user(leaf));
        lemma_none_below(m0.bytes@, root, virt);
        assert forall|v: u64| !same_way(v, virt, 4) implies #[trigger] walked(mem.bytes@, root, v)
            == walked(m0.bytes@, root, v) by {
            assert(walked(m1.bytes@, root, v) == walked(m0.bytes@, root, v));
            assert(walked(m2.bytes@, root, v) == walked(m1.bytes@, root, v));
            assert(walked(m3.bytes@, root, v) == walked(m2.bytes@, root, v));
        }
        assert(table_at(mem.bytes@, root, virt, 3) == table_at(m3.bytes@, root, virt, 3));
        assert forall|v: u64|
            !same_way(v, virt, 4) && leaf_at(m0.bytes@, root, v) is Some implies #[trigger] leaf_at(
            mem.bytes@,
            root,
            v,
        ) == leaf_at(m0.bytes@, root, v) by {
            assert(leaf_at(m1.bytes@, root, v) == leaf_at(m0.bytes@, root, v));
            assert(leaf_at(m2.bytes@, root, v) == leaf_at(m1.bytes@, root, v));
            assert(leaf_at(m3.bytes@, root, v) == leaf_at(m2.bytes@, root, v));
        }
    }
}

/// Writing a leaf entry adds no table.
proof fn lemma_leaf_way(a: PhysicalMemory, b: PhysicalMemory, root: u64, virt: u64, pt: u64, leaf: u64)
    requires
        is_space(a, root),
        b.pmm == a.pmm,
        table_at(a.bytes@, root, virt, 3) == Some(pt),
        b.bytes@ == spliced(a.bytes@, pt + 8 * index_of(virt, 3), le64_bytes(leaf)),
    ensures
        adds_way(a, b, root, virt),
{
    reveal(adds_way);
    lemma_write_leaf(a.bytes@, b.bytes@, root, virt, pt, leaf, a.pmm->0);
    assert forall|v: u64, k: int| 0 <= k <= 2 && #[trigger] huge_at(b.bytes@, root, v, k) implies huge_at(
        a.bytes@,
        root,
        v,
        k,
    ) by {
        lemma_leaf_entry(a.bytes@, b.bytes@, root, virt, pt, leaf, v, k);
        assert(table_at(b.bytes@, root, v, k) == table_at(a.bytes@, root, v, k));
    }
}

/// Writing a leaf entry grants its page at most.
#[verifier::spinoff_prover]
proof fn lemma_leaf_grants(
    a: PhysicalMemory,
    b: PhysicalMemory,
    root: u64,
    virt: u64,
    pt: u64,
    leaf: u64,
)
    requires
        is_space(a, root),
        table_at(a.bytes@, root, virt, 3) == Some(pt),
        b.bytes@ == spliced(a.bytes@, pt + 8 * index_of(virt, 3), le64_bytes(leaf)),
    ensures
        grants_only(a.bytes@, b.bytes@, root, virt, 4, is_user(leaf)),
{
    reveal(grants_only);
    reveal(grants);
    let m = a.bytes@;
    let w = b.bytes@;
    lemma_write_leaf(m, w, root, virt, pt, leaf, a.pmm->0);
    assert(in_memory(m, pt));
    lemma_write_entry(m, pt, index_of(virt, 3), leaf);
    assert forall|v: u64| #[trigger] grants(w, root, v) implies grants(m, root, v) || (is_user(leaf)
        && same_way(v, virt, 4)) by {
        assert(table_at(w, root, v, 3) == table_at(m, root, v, 3));
        assert(table_at(w, root, v, 2) == table_at(m, root, v, 2));
        lemma_leaf_entry(m, w, root, virt, pt, leaf, v, 3);
        lemma_leaf_entry(m, w, root, virt, pt, leaf, v, 2);
        if same_way(v, virt, 4) {
            lemma_same_way(m, root, v, virt, 3);
        }
    }
}

/// Below a missing table there is none.
proof fn lemma_none_below(m: Seq<u8>, root: u64, virt: u64)
    ensures
        table_at(m, root, virt, 1) is None ==> table_at(m, root, virt, 2) is None,
        table_at(m, root, virt, 2) is None ==> table_at(m, root, virt, 3) is None,
{
}

pub proof fn lemma_zero_entry()
    ensures
        !is_present(0),
        !is_huge(0),
{
    assert(0u64 & 1 == 0 && 0u64 & 0x80 == 0) by (bit_vector);
}

/// Software page-table walk. Handles 1 GiB, 2 MiB and 4 KiB mappings.
pub fn walk(mem: &PhysicalMemory, root: u64, virt: u64) -> (r: Option<u64>)
    requires
        tables_in_memory(mem.bytes@, root),
    ensures
        r == walked(mem.bytes@, root, virt),
{
    let ghost m = mem.bytes@;
    proof {
        reveal(walked);
        reveal_with_fuel(table_at, 4);
        assert(table_at(m, root, virt, 0) == Some(root));
    }
    let e: u64 = read_entry(mem, root, index(virt, 0));
    if e & PRESENT == 0 {
        return None;
    }
    let pdpt: u64 = e & ADDR_MASK;
    assert(table_at(m, root, virt, 1) == Some(pdpt));
    let e: u64 = read_entry(mem, pdpt, index(virt, 1));
    if e & PRESENT == 0 {
        return None;
    }
    if e & HUGE != 0 {
        assert((e & 0x000f_ffff_c000_0000) <= 0x000f_ffff_c000_0000) by (bit_vector);
        return Some((e & HUGE_1G_MASK) + virt % HUGE_1G);
    }
    let pd: u64 = e & ADDR_MASK;
    assert(table_at(m, root, virt, 2) == Some(pd));
    let e: u64 = read_entry(mem, pd, index(virt, 2));
    if e & PRESENT == 0 {
        return None;
    }
    if e & HUGE != 0 {
        assert((e & 0x000f_ffff_ffe0_0000) <= 0x000f_ffff_ffe0_0000) by (bit_vector);
        return Some((e & HUGE_2M_MASK) + virt % HUGE_2M);
    }
    let pt: u64 = e & ADDR_MASK;
    assert(table_at(m, root, virt, 3) == Some(pt));
    let leaf: u64 = read_entry(mem, pt, index(virt, 3));
    if leaf & PRESENT == 0 {
        return None;
    }
    proof {
        lemma_frame_bound(leaf);
    }
    Some((leaf & ADDR_MASK) + virt % PAGE_SIZE)
}

proof fn lemma_frame_bound(e: u64)
    ensures
        e & ADDR_MASK <= ADDR_MASK,
        (e & ADDR_MASK) % 4096 == 0,
{
    assert((e & 0x000f_ffff_ffff_f000) <= 0x000f_ffff_ffff_f000 && (e & 0x000f_ffff_ffff_f000)
        % 4096 == 0) by (bit_vector);
}

/// Why a page could not be mapped.
#[derive(Clone, Copy, Debug, PartialEq, Eq, Structural)]
pub enum MapError {
    /// There is no frame for a page table.
    OutOfMemory,
    /// A larger page, or a malformed entry, is in the way.
    HugePage,
    /// A 2 MiB page would overwrite an existing page table.
    TableInTheWay,
}

/// The number of tables that mapping a page has to add, unless a larger page is
/// in the way.
fn count_missing(mem: &PhysicalMemory, root: u64, virt: u64) -> (r: Option<usize>)
    requires
        tables_in_memory(mem.bytes@, root),
    ensures
        r is Some <==> is_clear(mem.bytes@, root, virt),
        r matches Some(n) ==> n == missing_tables(mem.bytes@, root, virt),
{
    let ghost m = mem.bytes@;
    proof {
        reveal_with_fuel(table_at, 4);
        assert(table_at(m, root, virt, 0) == Some(root));
    }
    let e: u64 = read_entry(mem, root, index(virt, 0));
    if e & PRESENT == 0 {
        return Some(3);
    }
    if e & HUGE != 0 {
        return None;
    }
    let pdpt: u64 = e & ADDR_MASK;
    assert(table_at(m, root, virt, 1) == Some(pdpt));
    let e: u64 = read_entry(mem, pdpt, index(virt, 1));
    if e & PRESENT == 0 {
        return Some(2);
    }
    if e & HUGE != 0 {
        return None;
    }
    let pd: u64 = e & ADDR_MASK;
    assert(table_at(m, root, virt, 2) == Some(pd));
    let e: u64 = read_entry(mem, pd, index(virt, 2));
    if e & PRESENT == 0 || e & HUGE != 0 {
        Some(1)
    } else {
        Some(0)
    }
}

/// Whether a page can be mapped.
pub open spec fn map_outcome(mem: PhysicalMemory, root: u64, virt: u64) -> Result<(), MapError> {
    if !is_clear(mem.bytes@, root, virt) {
        Err(MapError::HugePage)
    } else if mem.pmm->0.free_frames < missing_tables(mem.bytes@, root, virt) {
        Err(MapError::OutOfMemory)
    } else {
        Ok(())
    }
}

/// Whether some page of a range cannot be mapped, and why.
pub open spec fn cannot_map(mem: PhysicalMemory, root: u64, from: int, to: int, e: MapError) -> bool {
    exists|v: u64| from <= v < to && #[trigger] map_outcome(mem, root, v) == Err::<(), MapError>(e)
}

/// Map a 4 KiB page where that can be done.
pub fn try_map4k(mem: &mut PhysicalMemory, root: u64, virt: u64, phys: u64, flags: u64) -> (r:
    Result<(), MapError>)
    requires
        is_space(*old(mem), root),
    ensures
        r == map_outcome(*old(mem), root, virt),
        r is Ok ==> is_mapped_page(*old(mem), *final(mem), root, virt, leaf_of(phys, flags)),
        r is Err ==> *final(mem) == *old(mem),
{
    let missing: usize = match count_missing(mem, root, virt) {
        Some(n) => n,
        None => {
            return Err(MapError::HugePage);
        },
    };
    if crate::pmm::free_frame_count(mem) < missing {
        return Err(MapError::OutOfMemory);
    }
    map4k(mem, root, virt, phys, flags);
    Ok(())
}

/// The kernel's own page tables.
#[derive(Clone, Copy, Debug, PartialEq, Eq, Structural)]
pub struct Vmm {
    pub pml4_phys: u64,
}

/// The root of the kernel's page tables, or none before there are any.
pub open spec fn kernel_walked(mem: PhysicalMemory, vmm: Option<Vmm>, virt: u64) -> Option<u64> {
    match vmm {
        Some(v) => walked(mem.bytes@, v.pml4_phys, virt),
        None => None,
    }
}

/// Whether the kernel's page tables, if there are any, are sound.
pub open spec fn is_kernel_space(mem: PhysicalMemory, vmm: Option<Vmm>) -> bool {
    vmm matches Some(v) ==> is_space(mem, v.pml4_phys)
}

/// Map a page in the kernel's page tables, if there are any.
pub fn map_page(
    mem: &mut PhysicalMemory,
    vmm: &Option<Vmm>,
    virt: u64,
    phys: u64,
    flags: u64,
) -> (r: Result<(), MapError>)
    requires
        is_kernel_space(*old(mem), *vmm),
    ensures
        match *vmm {
            Some(v) => r == map_outcome(*old(mem), v.pml4_phys, virt) && (r is Ok ==> is_mapped_page(
                *old(mem),
                *final(mem),
                v.pml4_phys,
                virt,
                leaf_of(phys, flags),
            )),
            None => r is Ok,
        },
        vmm is None || r is Err ==> *final(mem) == *old(mem),
        is_kernel_space(*final(mem), *vmm),
{
    match vmm {
        Some(v) => try_map4k(mem, v.pml4_phys, virt, phys, flags),
        None => Ok(()),
    }
}

pub fn translate(mem: &PhysicalMemory, vmm: &Option<Vmm>, virt: u64) -> (r: Option<u64>)
    requires
        is_kernel_space(*mem, *vmm),
    ensures
        r == kernel_walked(*mem, *vmm, virt),
{
    match vmm {
        Some(v) => walk(mem, v.pml4_phys, virt),
        None => None,
    }
}

/// Like `translate`, for crash handlers: where the kernel's address space cannot be
/// had, because the code that failed holds it, there is no answer.
pub fn try_translate(mem: &PhysicalMemory, vmm: Option<&Option<Vmm>>, virt: u64) -> (r: Option<u64>)
    requires
        vmm is Some ==> is_kernel_space(*mem, *vmm->0),
    ensures
        r == match vmm {
            Some(v) => kernel_walked(*mem, *v, virt),
            None => None,
        },
{
    match vmm {
        Some(v) => translate(mem, v, virt),
        None => None,
    }
}

pub fn is_active(vmm: &Option<Vmm>) -> (r: bool)
    ensures
        r == vmm is Some,
{
    vmm.is_some()
}

/// Physical address of the kernel's own PML4, or 0 before there is one.
pub fn kernel_cr3(vmm: &Option<Vmm>) -> (r: u64)
    ensures
        r == match *vmm {
            Some(v) => v.pml4_phys,
            None => 0,
        },
{
    match vmm {
        Some(v) => v.pml4_phys,
        None => 0,
    }
}

/// Different pages that are not too far apart go different ways.
pub proof fn lemma_apart(a: u64, b: u64)
    requires
        a as int / 4096 != b as int / 4096,
        -0xffff_ffff_f000 <= a - b <= 0xffff_ffff_f000,
    ensures
        !same_way(a, b, 4),
{
    if same_way(a, b, 4) {
        let x = a as int / 4096;
        let y = b as int / 4096;
        assert(x % 512 == y % 512);
        assert(x / 512 % 512 == y / 512 % 512) by {
            assert(x / 512 == a as int / 0x20_0000);
            assert(y / 512 == b as int / 0x20_0000);
        }
        assert(x / 0x4_0000 % 512 == y / 0x4_0000 % 512) by {
            assert(x / 0x4_0000 == a as int / 0x4000_0000);
            assert(y / 0x4_0000 == b as int / 0x4000_0000);
        }
        assert(x / 0x800_0000 % 512 == y / 0x800_0000 % 512) by {
            assert(x / 0x800_0000 == a as int / 0x80_0000_0000);
            assert(y / 0x800_0000 == b as int / 0x80_0000_0000);
        }
        let p = x / 512;
        let q = y / 512;
        assert(p / 512 == x / 0x4_0000);
        assert(q / 512 == y / 0x4_0000);
        assert(p / 512 / 512 == x / 0x800_0000);
        assert(q / 512 / 512 == y / 0x800_0000);
        assert(x % 0x10_0000_0000 == y % 0x10_0000_0000);
        assert(-0x10_0000_0000 < x - y < 0x10_0000_0000);
    }
}

/// Whether a page is not mapped and cannot be.
pub open spec fn is_stuck(mem: PhysicalMemory, vmm: Option<Vmm>, virt: u64) -> bool {
    &&& vmm is Some
    &&& kernel_walked(mem, vmm, virt) is None
    &&& map_outcome(mem, vmm->0.pml4_phys, virt) is Err
}

/// The end of the pages that a range touches.
pub open spec fn pages_end(phys: u64, len: u64) -> int {
    (phys + len + 4095) / 4096 * 4096
}

/// Ranges up to this length do not come back to the page they start in, as longer ones
/// do: only 48 bits of an address choose its way.
pub const WAY_SPAN: u64 = 0xffff_ffff_0000;

/// Whether the page of an address is mapped uncacheable.
pub open spec fn is_uncached(m: Seq<u8>, root: u64, v: u64) -> bool {
    exists|x: u64| leaf_at(m, root, v) == Some(#[trigger] leaf_of(x, KERNEL_UC))
}

/// Whether all that is mapped in `w` and was not in `m` is uncacheable.
pub open spec fn only_uncached(m: Seq<u8>, w: Seq<u8>, root: u64) -> bool {
    forall|v: u64|
        walked(m, root, v) is None && #[trigger] walked(w, root, v) is Some ==> is_uncached(
            w,
            root,
            v,
        )
}

/// Whether an address goes the way of none in a range.
pub open spec fn is_off(v: u64, from: int, to: int) -> bool {
    forall|w: u64| from <= w < to ==> !#[trigger] same_way(v, w, 4)
}

/// Whether all that is mapped in `m` is mapped in `w` alike, and what is on the way of no
/// address of a range is mapped in `w` only where it is in `m`.
#[verifier::opaque]
pub open spec fn keeps_mapped(m: Seq<u8>, w: Seq<u8>, root: u64, from: int, to: int) -> bool {
    forall|v: u64|
        walked(m, root, v) is Some || is_off(v, from, to) ==> #[trigger] walked(w, root, v)
            == walked(m, root, v) && mode_at(w, root, v) == mode_at(m, root, v)
}

/// Whether the direct map shows address `p`: as before, or uncacheable, where it was
/// not shown.
pub open spec fn is_shown(before: PhysicalMemory, after: PhysicalMemory, root: u64, p: u64) -> bool {
    let v = (before.hhdm + p) as u64;
    match walked(before.bytes@, root, v) {
        Some(q) => walked(after.bytes@, root, v) == Some(q),
        None => {
            &&& walked(after.bytes@, root, v) == Some(((p & ADDR_MASK) + p % PAGE_SIZE) as u64)
            &&& leaf_at(after.bytes@, root, v) == Some(
                leaf_of(page_down(p as int) as u64, KERNEL_UC),
            )
        },
    }
}

/// Map a device's physical MMIO range, uncacheable, where the direct map does
/// not show it yet, and say where it then is. Every page that the range touches
/// is mapped. Nothing comes back where a page could not be mapped.
pub fn map_mmio(mem: &mut PhysicalMemory, vmm: &Option<Vmm>, phys: u64, len: u64) -> (r: Option<
    u64,
>)
    requires
        is_kernel_space(*old(mem), *vmm),
        phys + len + 4095 <= u64::MAX,
        old(mem).hhdm + phys + len + 4095 <= u64::MAX,
        old(mem).hhdm % 4096 == 0,
    ensures
        is_kernel_space(*final(mem), *vmm),
        final(mem).hhdm == old(mem).hhdm,
        vmm matches Some(k) ==> keeps_mapped(
            old(mem).bytes@,
            final(mem).bytes@,
            k.pml4_phys,
            old(mem).hhdm + page_down(phys as int),
            old(mem).hhdm + pages_end(phys, len),
        ),
        r is None ==> exists|virt: u64|
            old(mem).hhdm + page_down(phys as int) <= virt < old(mem).hhdm + pages_end(phys, len)
                && #[trigger] is_stuck(*final(mem), *vmm, virt),
        r matches Some(virt) ==> {
            &&& virt == old(mem).hhdm + phys
            &&& vmm is Some ==> forall|p: u64|
                page_down(phys as int) <= p < pages_end(phys, len) ==> (#[trigger] kernel_walked(
                    *final(mem),
                    *vmm,
                    (old(mem).hhdm + p) as u64,
                )) is Some && (len <= WAY_SPAN ==> is_shown(
                    *old(mem),
                    *final(mem),
                    vmm->0.pml4_phys,
                    p,
                ))
        },
        vmm matches Some(k) ==> only_uncached(old(mem).bytes@, final(mem).bytes@, k.pml4_phys),
        vmm is None ==> r is Some && *final(mem) == *old(mem),
        is_data_kept(*old(mem), *final(mem), *vmm),
{
    let hhdm: u64 = mem.hhdm;
    let start: u64 = phys - phys % PAGE_SIZE;
    let end: u64 = (phys + len + (PAGE_SIZE - 1)) / PAGE_SIZE * PAGE_SIZE;
    let mut p: u64 = start;
    proof {
        reveal(mmio_progress);
        reveal(keeps_mapped);
        lemma_data_there(*mem, *vmm);
    }
    while p < end
        invariant
            hhdm == old(mem).hhdm,
            mem.hhdm == hhdm,
            hhdm % 4096 == 0,
            is_kernel_space(*mem, *vmm),
            hhdm + phys + len + 4095 <= u64::MAX,
            start == phys - phys % 4096,
            end == pages_end(phys, len),
            start <= p,
            p % 4096 == 0,
            p <= end || p == start,
            vmm is None ==> *mem == *old(mem),
            is_kernel_space(*old(mem), *vmm),
            is_data_kept(*old(mem), *mem, *vmm),
            vmm matches Some(v) ==> mmio_progress(
                old(mem).bytes@,
                mem.bytes@,
                v.pml4_phys,
                hhdm,
                start,
                end,
                p,
            ),
        decreases end - p,
    {
        let virt: u64 = hhdm + p;
        let ghost before = *mem;
        if translate(mem, vmm, virt).is_none() {
            match map_page(mem, vmm, virt, p, KERNEL_UC) {
                Ok(_) => {},
                Err(_) => {
                    proof {
                        reveal(mmio_progress);
                        assert(is_stuck(*mem, *vmm, virt));
                    }
                    return None;
                },
            }
        }
        proof {
            if let Some(v) = *vmm {
                if before != *mem {
                    lemma_data_step(before, *mem, v.pml4_phys, virt);
                    lemma_data_on(*old(mem), before, *mem, *vmm);
                }
                lemma_uc_leaf(p);
                lemma_mmio_step(
                    old(mem).bytes@,
                    before.bytes@,
                    mem.bytes@,
                    v.pml4_phys,
                    hhdm,
                    start,
                    end,
                    p,
                );
            }
        }
        p += PAGE_SIZE;
    }
    proof {
        reveal(mmio_progress);
        if let Some(k) = *vmm {
            let m = old(mem).bytes@;
            let w = mem.bytes@;
            let root = k.pml4_phys;
            assert forall|q: u64| start <= q < end implies (#[trigger] kernel_walked(
                *mem,
                *vmm,
                (hhdm + q) as u64,
            )) is Some && (len <= WAY_SPAN ==> is_shown(*old(mem), *mem, root, q)) by {
                assert(walked(w, root, (hhdm + q) as u64) is Some);
                if len <= WAY_SPAN {
                    assert(walked(w, root, (hhdm + q) as u64) == mmio_walked(m, root, hhdm, q, p));
                }
            }
        }
    }
    Some(hhdm + phys)
}

/// Where the direct map shows address `q` once the pages below `p` are mapped.
pub open spec fn mmio_walked(m: Seq<u8>, root: u64, hhdm: u64, q: u64, p: u64) -> Option<u64> {
    let v = (hhdm + q) as u64;
    if q < p && walked(m, root, v) is None {
        Some(((q & ADDR_MASK) + q % PAGE_SIZE) as u64)
    } else {
        walked(m, root, v)
    }
}

/// Whether the pages from `start` up to `p` are shown, and nothing that was
/// mapped changed.
#[verifier::opaque]
pub open spec fn mmio_progress(
    m: Seq<u8>,
    w: Seq<u8>,
    root: u64,
    hhdm: u64,
    start: u64,
    end: u64,
    p: u64,
) -> bool {
    &&& forall|v: u64| #[trigger]
        walked(m, root, v) is Some ==> walked(w, root, v) == walked(m, root, v)
    &&& keeps_mapped(m, w, root, hhdm + start, hhdm + end)
    &&& only_uncached(m, w, root)
    &&& forall|q: u64|
        start <= q < p && q < end ==> (#[trigger] walked(w, root, (hhdm + q) as u64)) is Some
    &&& end - start <= 0xffff_ffff_f000 ==> forall|q: u64|
        start <= q < end ==> (#[trigger] walked(w, root, (hhdm + q) as u64)) == mmio_walked(
            m,
            root,
            hhdm,
            q,
            p,
        ) && (q < p && walked(m, root, (hhdm + q) as u64) is None ==> leaf_at(
            w,
            root,
            (hhdm + q) as u64,
        ) == Some(leaf_of(page_down(q as int) as u64, KERNEL_UC)))
}

/// Mapping one more page of a range keeps what is mapped, and what lies outside.
proof fn lemma_mmio_kept(
    m: Seq<u8>,
    b: Seq<u8>,
    w: Seq<u8>,
    root: u64,
    from: int,
    to: int,
    virt: u64,
)
    requires
        keeps_mapped(m, b, root, from, to),
        from <= virt < to,
        w == b || {
            &&& walked(b, root, virt) is None
            &&& keeps_modes(b, w, root, virt, 4)
            &&& forall|v: u64|
                !same_way(v, virt, 4) ==> #[trigger] walked(w, root, v) == walked(b, root, v)
        },
    ensures
        keeps_mapped(m, w, root, from, to),
{
    reveal(keeps_mapped);
    reveal(keeps_modes);
    assert forall|v: u64| walked(m, root, v) is Some || is_off(v, from, to) implies #[trigger] walked(
        w,
        root,
        v,
    ) == walked(m, root, v) && mode_at(w, root, v) == mode_at(m, root, v) by {
        assert(walked(b, root, v) == walked(m, root, v));
        if same_way(v, virt, 4) {
            lemma_same_page(b, root, v, virt);
        }
    }
}

#[verifier::spinoff_prover]
proof fn lemma_mmio_step(
    m: Seq<u8>,
    b: Seq<u8>,
    w: Seq<u8>,
    root: u64,
    hhdm: u64,
    start: u64,
    end: u64,
    p: u64,
)
    requires
        mmio_progress(m, b, root, hhdm, start, end, p),
        hhdm % 4096 == 0,
        p % 4096 == 0,
        start <= p < end,
        start % 4096 == 0,
        hhdm + end <= u64::MAX,
        end % 4096 == 0,
        ({
            let virt = (hhdm + p) as u64;
            if walked(b, root, virt) is None {
                &&& forall|v: u64|
                    !same_way(v, virt, 4) ==> #[trigger] walked(w, root, v) == walked(b, root, v)
                &&& forall|v: u64|
                    same_way(v, virt, 4) ==> #[trigger] walked(w, root, v) == Some(
                        ((p & ADDR_MASK) + v % PAGE_SIZE) as u64,
                    )
                &&& keeps_modes(b, w, root, virt, 4)
                &&& leaf_at(w, root, virt) == Some(leaf_of(p, KERNEL_UC))
                &&& forall|v: u64|
                    !same_way(v, virt, 4) && leaf_at(b, root, v) is Some ==> #[trigger] leaf_at(
                        w,
                        root,
                        v,
                    ) == leaf_at(b, root, v)
            } else {
                w == b
            }
        }),
    ensures
        mmio_progress(m, w, root, hhdm, start, end, (p + 4096) as u64),
{
    reveal(mmio_progress);
    let virt = (hhdm + p) as u64;
    lemma_mmio_kept(m, b, w, root, hhdm + start, hhdm + end, virt);
    assert forall|v: u64| #[trigger] walked(m, root, v) is Some implies walked(w, root, v) == walked(
        m,
        root,
        v,
    ) by {
        assert(walked(b, root, v) == walked(m, root, v));
        if same_way(v, virt, 4) {
            lemma_same_page(b, root, v, virt);
        }
    }
    assert forall|v: u64|
        walked(m, root, v) is None && #[trigger] walked(w, root, v) is Some implies is_uncached(
        w,
        root,
        v,
    ) by {
        if same_way(v, virt, 4) && walked(b, root, virt) is None {
            lemma_same_way(w, root, v, virt, 3);
            assert(leaf_at(w, root, v) == Some(leaf_of(p, KERNEL_UC)));
        } else {
            assert(walked(b, root, v) is Some);
            assert(is_uncached(b, root, v));
            assert(leaf_at(w, root, v) == leaf_at(b, root, v));
        }
    }
    assert forall|q: u64| start <= q < p + 4096 && q < end implies (#[trigger] walked(
        w,
        root,
        (hhdm + q) as u64,
    )) is Some by {
        let v = (hhdm + q) as u64;
        if q < p {
            assert(walked(b, root, v) is Some);
        } else {
            lemma_same_page_way(v, virt);
            lemma_same_page(b, root, v, virt);
        }
    }
    if end - start <= 0xffff_ffff_f000 {
        assert forall|q: u64| start <= q < end implies (#[trigger] walked(
            w,
            root,
            (hhdm + q) as u64,
        )) == mmio_walked(m, root, hhdm, q, (p + 4096) as u64) && (q < p + 4096 && walked(
            m,
            root,
            (hhdm + q) as u64,
        ) is None ==> leaf_at(w, root, (hhdm + q) as u64) == Some(
            leaf_of(page_down(q as int) as u64, KERNEL_UC),
        )) by {
            let v = (hhdm + q) as u64;
            assert(walked(b, root, v) == mmio_walked(m, root, hhdm, q, p));
            if q as int / 4096 == p as int / 4096 {
                lemma_same_page_way(v, virt);
                lemma_same_page(b, root, v, virt);
                lemma_same_page(m, root, v, virt);
                lemma_same_way(w, root, v, virt, 3);
                lemma_page_bits(q, p);
                assert(walked(b, root, virt) == mmio_walked(m, root, hhdm, p, p));
                assert(v % 4096 == q % 4096);
            } else {
                assert(v as int / 4096 != virt as int / 4096);
                lemma_apart(v, virt);
            }
        }
    }
}

/// Addresses in the same page go the same way.
pub proof fn lemma_same_page_way(a: u64, b: u64)
    requires
        a as int / 4096 == b as int / 4096,
    ensures
        same_way(a, b, 4),
{
    let x = a as int / 4096;
    assert(a as int / 0x20_0000 == x / 512);
    assert(a as int / 0x4000_0000 == x / 0x4_0000);
    assert(a as int / 0x80_0000_0000 == x / 0x800_0000);
    assert(b as int / 0x20_0000 == x / 512);
    assert(b as int / 0x4000_0000 == x / 0x4_0000);
    assert(b as int / 0x80_0000_0000 == x / 0x800_0000);
}

/// Addresses that go the same way are mapped or unmapped together.
proof fn lemma_same_page(m: Seq<u8>, root: u64, a: u64, b: u64)
    requires
        same_way(a, b, 4),
    ensures
        walked(m, root, a) is Some == walked(m, root, b) is Some,
{
    reveal(walked);
    lemma_same_way(m, root, a, b, 1);
}

proof fn lemma_page_bits(q: u64, p: u64)
    requires
        p % 4096 == 0,
        q as int / 4096 == p as int / 4096,
    ensures
        q & ADDR_MASK == p & ADDR_MASK,
{
    let d = (q - p) as u64;
    assert(q & 0x000f_ffff_ffff_f000 == p & 0x000f_ffff_ffff_f000) by (bit_vector)
        requires
            p % 4096 == 0,
            q == p + d,
            d < 4096,
    ;
}

pub proof fn lemma_uc_leaf(p: u64)
    ensures
        leaf_of(p, KERNEL_UC) & ADDR_MASK == p & ADDR_MASK,
        leaf_of(p, KERNEL_WC) & ADDR_MASK == p & ADDR_MASK,
        leaf_of(p, KERNEL_RW) & ADDR_MASK == p & ADDR_MASK,
        leaf_of(p, KERNEL_RO) & ADDR_MASK == p & ADDR_MASK,
        leaf_of(p, KERNEL_RX) & ADDR_MASK == p & ADDR_MASK,
        leaf_of(p, USER_RW) & ADDR_MASK == p & ADDR_MASK,
        leaf_of(p, USER_RO) & ADDR_MASK == p & ADDR_MASK,
        leaf_of(p, USER_RX) & ADDR_MASK == p & ADDR_MASK,
{
    assert((1u64 | 2 | 0x8000_0000_0000_0000 | 0x10) & 0x000f_ffff_ffff_f000 == 0 && (1u64 | 2
        | 0x8000_0000_0000_0000 | 8) & 0x000f_ffff_ffff_f000 == 0 && (1u64 | 2
        | 0x8000_0000_0000_0000) & 0x000f_ffff_ffff_f000 == 0 && (1u64 | 0x8000_0000_0000_0000)
        & 0x000f_ffff_ffff_f000 == 0 && 1u64 & 0x000f_ffff_ffff_f000 == 0 && (1u64 | 2 | 4
        | 0x8000_0000_0000_0000) & 0x000f_ffff_ffff_f000 == 0 && (1u64 | 4 | 0x8000_0000_0000_0000)
        & 0x000f_ffff_ffff_f000 == 0 && (1u64 | 4) & 0x000f_ffff_ffff_f000 == 0) by (bit_vector);
    lemma_leaf_present(p, KERNEL_UC);
    lemma_leaf_present(p, KERNEL_WC);
    lemma_leaf_present(p, KERNEL_RW);
    lemma_leaf_present(p, KERNEL_RO);
    lemma_leaf_present(p, KERNEL_RX);
    lemma_leaf_present(p, USER_RW);
    lemma_leaf_present(p, USER_RO);
    lemma_leaf_present(p, USER_RX);
}

/// Whether an entry of a page directory maps nothing through a page table.
pub open spec fn is_leaf_or_empty(e: u64) -> bool {
    !is_present(e) || is_huge(e)
}

/// Writing an entry of a page directory that is no table, and was none, changes
/// no table, and the mapping of the addresses that go through it.
#[verifier::spinoff_prover]
proof fn lemma_write_huge(m: Seq<u8>, w: Seq<u8>, root: u64, virt: u64, pd: u64, e: u64, pmm: Pmm)
    requires
        tables_in_memory(m, root),
        is_tree(m, root),
        tables_taken(m, root, pmm),
        table_at(m, root, virt, 2) == Some(pd),
        is_leaf_or_empty(entry(m, pd, index_of(virt, 2))),
        is_leaf_or_empty(e),
        w == spliced(m, pd + 8 * index_of(virt, 2), le64_bytes(e)),
    ensures
        tables_in_memory(w, root),
        is_tree(w, root),
        tables_taken(w, root, pmm),
        entry(w, pd, index_of(virt, 2)) == e,
        forall|v: u64, k: int|
            0 <= k <= 3 ==> #[trigger] table_at(w, root, v, k) == table_at(m, root, v, k),
        forall|v: u64|
            !same_way(v, virt, 3) ==> #[trigger] walked(w, root, v) == walked(m, root, v),
        forall|v: u64|
            same_way(v, virt, 3) ==> #[trigger] walked(w, root, v) == if is_present(e) {
                Some(((e & HUGE_2M_MASK) + v % HUGE_2M) as u64)
            } else {
                None
            },
{
    let i = index_of(virt, 2);
    assert(in_memory(m, pd));
    lemma_write_entry(m, pd, i, e);
    assert forall|v: u64, k: int| 0 <= k <= 3 implies #[trigger] table_at(w, root, v, k)
        == table_at(m, root, v, k) by {
        lemma_huge_table(m, w, root, virt, pd, e, v, k);
    }
    assert forall|a: u64, l: int, b: u64, k: int|
        #![trigger table_at(w, root, a, l), table_at(w, root, b, k)]
        0 <= l <= 3 && 0 <= k <= 3 && table_at(w, root, a, l) is Some && table_at(w, root, a, l)
            == table_at(w, root, b, k) implies l == k && same_way(a, b, l) by {
        assert(table_at(m, root, a, l) == table_at(m, root, b, k));
    }
    assert forall|v: u64, k: int| 0 <= k <= 3 implies ((#[trigger] table_at(w, root, v, k)) matches Some(
        t,
    ) ==> in_memory(w, t)) by {
        assert(table_at(m, root, v, k) matches Some(t) ==> in_memory(m, t));
    }
    assert forall|v: u64, k: int| 0 <= k <= 3 implies ((#[trigger] table_at(w, root, v, k)) matches Some(
        t,
    ) ==> is_used(pmm.bitmap@, t as int / 4096)) by {
        assert(table_at(m, root, v, k) matches Some(t) ==> is_used(pmm.bitmap@, t as int / 4096));
    }
    assert forall|v: u64| #[trigger] walked(w, root, v) == if same_way(v, virt, 3) {
        if is_present(e) {
            Some(((e & HUGE_2M_MASK) + v % HUGE_2M) as u64)
        } else {
            None
        }
    } else {
        walked(m, root, v)
    } by {
        lemma_walked(m, root, v);
        lemma_walked(w, root, v);
        assert(table_at(w, root, v, 1) == table_at(m, root, v, 1));
        assert(table_at(w, root, v, 2) == table_at(m, root, v, 2));
        assert(table_at(w, root, v, 3) == table_at(m, root, v, 3));
        lemma_huge_entry(m, w, root, virt, pd, e, v, 1);
        lemma_huge_entry(m, w, root, virt, pd, e, v, 2);
        lemma_huge_entry(m, w, root, virt, pd, e, v, 3);
        if same_way(v, virt, 3) {
            lemma_same_way(m, root, v, virt, 2);
            assert(table_at(m, root, v, 3) is None) by {
                reveal_with_fuel(table_at, 2);
            }
        }
    }
}

proof fn lemma_huge_entry(
    m: Seq<u8>,
    w: Seq<u8>,
    root: u64,
    virt: u64,
    pd: u64,
    e: u64,
    v: u64,
    k: int,
)
    requires
        tables_in_memory(m, root),
        is_tree(m, root),
        table_at(m, root, virt, 2) == Some(pd),
        w == spliced(m, pd + 8 * index_of(virt, 2), le64_bytes(e)),
        0 <= k <= 3,
    ensures
        table_at(m, root, v, k) matches Some(t) ==> entry(w, t, index_of(v, k)) == if k == 2
            && same_way(v, virt, 3) {
            e
        } else {
            entry(m, t, index_of(v, k))
        },
{
    assert(in_memory(m, pd));
    lemma_write_entry(m, pd, index_of(virt, 2), e);
    if let Some(t) = table_at(m, root, v, k) {
        assert(in_memory(m, t));
        if t == pd {
            assert(table_at(m, root, v, k) == table_at(m, root, virt, 2));
            assert(k == 2 && same_way(v, virt, 2));
        } else if k == 2 && same_way(v, virt, 3) {
            lemma_same_way(m, root, v, virt, 2);
        }
    }
}

proof fn lemma_huge_table(
    m: Seq<u8>,
    w: Seq<u8>,
    root: u64,
    virt: u64,
    pd: u64,
    e: u64,
    v: u64,
    k: int,
)
    requires
        tables_in_memory(m, root),
        is_tree(m, root),
        table_at(m, root, virt, 2) == Some(pd),
        is_leaf_or_empty(entry(m, pd, index_of(virt, 2))),
        is_leaf_or_empty(e),
        w == spliced(m, pd + 8 * index_of(virt, 2), le64_bytes(e)),
        0 <= k <= 3,
    ensures
        table_at(w, root, v, k) == table_at(m, root, v, k),
    decreases k,
{
    if k > 0 {
        lemma_huge_table(m, w, root, virt, pd, e, v, k - 1);
        lemma_huge_entry(m, w, root, virt, pd, e, v, k - 1);
        if k - 1 == 2 && same_way(v, virt, 3) {
            lemma_same_way(m, root, v, virt, 2);
        }
    }
}

/// Writing the entry of a 2 MiB page grants that page at most.
#[verifier::spinoff_prover]
proof fn lemma_huge_grants(m: Seq<u8>, w: Seq<u8>, root: u64, virt: u64, pd: u64, e: u64)
    requires
        tables_in_memory(m, root),
        is_tree(m, root),
        table_at(m, root, virt, 2) == Some(pd),
        is_leaf_or_empty(entry(m, pd, index_of(virt, 2))),
        is_leaf_or_empty(e),
        w == spliced(m, pd + 8 * index_of(virt, 2), le64_bytes(e)),
    ensures
        grants_only(m, w, root, virt, 3, is_user(e)),
{
    reveal(grants_only);
    reveal(grants);
    assert(in_memory(m, pd));
    lemma_write_entry(m, pd, index_of(virt, 2), e);
    assert forall|v: u64| #[trigger] grants(w, root, v) implies grants(m, root, v) || (is_user(e)
        && same_way(v, virt, 3)) by {
        lemma_huge_table(m, w, root, virt, pd, e, v, 3);
        lemma_huge_table(m, w, root, virt, pd, e, v, 2);
        lemma_huge_entry(m, w, root, virt, pd, e, v, 3);
        lemma_huge_entry(m, w, root, virt, pd, e, v, 2);
        if same_way(v, virt, 3) {
            lemma_same_way(m, root, v, virt, 2);
        }
    }
}

/// The entry that maps a 2 MiB page.
pub open spec fn huge_of(phys: u64, flags: u64) -> u64 {
    (phys & HUGE_2M_MASK) | flags | PRESENT | HUGE
}

/// Tables that mapping a 2 MiB page has to add.
pub open spec fn missing_for_huge(m: Seq<u8>, root: u64, virt: u64) -> int {
    if table_at(m, root, virt, 1) is None {
        2
    } else if table_at(m, root, virt, 2) is None {
        1
    } else {
        0
    }
}

/// Whether a 2 MiB page can be mapped.
pub open spec fn map_huge_outcome(mem: PhysicalMemory, root: u64, virt: u64) -> Result<
    (),
    MapError,
> {
    if !is_clear(mem.bytes@, root, virt) {
        Err(MapError::HugePage)
    } else if table_at(mem.bytes@, root, virt, 3) is Some {
        Err(MapError::TableInTheWay)
    } else if mem.pmm->0.free_frames < missing_for_huge(mem.bytes@, root, virt) {
        Err(MapError::OutOfMemory)
    } else {
        Ok(())
    }
}

/// Descending one level keeps all data.
proof fn lemma_child_data(
    a: PhysicalMemory,
    b: PhysicalMemory,
    root: u64,
    virt: u64,
    level: int,
    parent: u64,
    t: u64,
)
    requires
        is_space(a, root),
        0 <= level <= 2,
        table_at(a.bytes@, root, virt, level) == Some(parent),
        b.hhdm == a.hhdm,
        b.bytes@.len() == a.bytes@.len(),
        table_at(a.bytes@, root, virt, level + 1) is Some ==> b == a,
        table_at(a.bytes@, root, virt, level + 1) is None ==> a.pmm->0.gave_one(b.pmm->0, t)
            && keeps_others(a, b, parent),
        adds_tables(a, b, root),
    ensures
        keeps_data(a, b, root),
{
    if table_at(a.bytes@, root, virt, level + 1) is Some {
        lemma_data_same(a, b, root);
    } else {
        lemma_takes_only(a.pmm->0, b.pmm->0, t);
        lemma_data_others(a, b, root, virt, level, parent);
    }
}

/// Map a 2 MiB page where that can be done.
pub fn map2m(mem: &mut PhysicalMemory, root: u64, virt: u64, phys: u64, flags: u64) -> (r: Result<
    (),
    MapError,
>)
    requires
        is_space(*old(mem), root),
    ensures
        r == map_huge_outcome(*old(mem), root, virt),
        r is Err ==> *final(mem) == *old(mem),
        r is Ok ==> {
            &&& is_space(*final(mem), root)
            &&& final(mem).hhdm == old(mem).hhdm
            &&& final(mem).bytes@.len() == old(mem).bytes@.len()
            &&& forall|v: u64|
                !same_way(v, virt, 3) ==> #[trigger] walked(final(mem).bytes@, root, v) == walked(
                    old(mem).bytes@,
                    root,
                    v,
                )
            &&& forall|v: u64|
                same_way(v, virt, 3) ==> #[trigger] walked(final(mem).bytes@, root, v) == Some(
                    ((huge_of(phys, flags) & HUGE_2M_MASK) + v % HUGE_2M) as u64,
                )
            &&& final(mem).pmm->0.free_frames == old(mem).pmm->0.free_frames - missing_for_huge(
                old(mem).bytes@,
                root,
                virt,
            )
            &&& grants_only(
                old(mem).bytes@,
                final(mem).bytes@,
                root,
                virt,
                3,
                is_user(huge_of(phys, flags)),
            )
            &&& keeps_modes(old(mem).bytes@, final(mem).bytes@, root, virt, 3)
            &&& forall|v: u64|
                same_way(v, virt, 3) ==> #[trigger] mode_at(final(mem).bytes@, root, v) == Some(
                    split_flags(huge_of(phys, flags)),
                )
            &&& keeps_data(*old(mem), *final(mem), root)
        },
{
    let ghost m0 = *mem;
    let missing: usize = match count_missing(mem, root, virt) {
        Some(n) => n,
        None => {
            return Err(MapError::HugePage);
        },
    };
    proof {
        lemma_zero_entry();
        lemma_none_below(m0.bytes@, root, virt);
        assert(table_at(m0.bytes@, root, virt, 0) == Some(root));
    }
    if missing == 0 {
        return Err(MapError::TableInTheWay);
    }
    if crate::pmm::free_frame_count(mem) < missing - 1 {
        return Err(MapError::OutOfMemory);
    }
    let pdpt: u64 = child_table(mem, root, virt, 0, root);
    let ghost m1 = *mem;
    assert(in_memory(m1.bytes@, pdpt)) by {
        assert(table_at(m1.bytes@, root, virt, 1) == Some(pdpt));
    }
    proof {
        if table_at(m0.bytes@, root, virt, 1) is None {
            assert(entry(m1.bytes@, pdpt, index_of(virt, 1)) == 0);
            assert(table_at(m1.bytes@, root, virt, 2) is None);
            assert(table_at(m1.bytes@, root, virt, 3) is None);
        }
    }
    let pd: u64 = child_table(mem, root, virt, 1, pdpt);
    let ghost m2 = *mem;
    assert(in_memory(m2.bytes@, pd)) by {
        assert(table_at(m2.bytes@, root, virt, 2) == Some(pd));
    }
    let at: usize = index(virt, 2);
    proof {
        if table_at(m1.bytes@, root, virt, 2) is None {
            assert(entry(m2.bytes@, pd, index_of(virt, 2)) == 0);
            assert(table_at(m2.bytes@, root, virt, 3) is None);
        }
        assert(is_leaf_or_empty(entry(m2.bytes@, pd, index_of(virt, 2)))) by {
            reveal_with_fuel(table_at, 2);
        }
    }
    let e: u64 = (phys & HUGE_2M_MASK) | flags | PRESENT | HUGE;
    proof {
        let x = (phys & HUGE_2M_MASK) | flags;
        assert((x | 1 | 0x80) & 1 != 0 && (x | 1 | 0x80) & 0x80 != 0) by (bit_vector);
    }
    write_entry(mem, pd, at, e);
    proof {
        lemma_write_huge(m2.bytes@, mem.bytes@, root, virt, pd, e, m2.pmm->0);
        lemma_grants_only(m0.bytes@, m1.bytes@, m2.bytes@, root, virt, 3, false);
        lemma_huge_grants(m2.bytes@, mem.bytes@, root, virt, pd, e);
        lemma_huge_modes(m2.bytes@, mem.bytes@, root, virt, pd, e);
        lemma_same_modes(m1.bytes@, m2.bytes@, mem.bytes@, root, virt, 3);
        lemma_same_modes(m0.bytes@, m1.bytes@, mem.bytes@, root, virt, 3);
        lemma_grants_only(m0.bytes@, m2.bytes@, mem.bytes@, root, virt, 3, is_user(e));
        lemma_le64_round_trip(e);
        lemma_child_data(m0, m1, root, virt, 0, root, pdpt);
        lemma_child_data(m1, m2, root, virt, 1, pdpt, pd);
        assert(adds_tables(m2, *mem, root)) by {
            reveal(adds_tables);
        }
        lemma_data_others(m2, *mem, root, virt, 2, pd);
        lemma_data_twice(m0, m1, m2, root);
        lemma_data_twice(m0, m2, *mem, root);
        assert forall|v: u64| !same_way(v, virt, 3) implies #[trigger] walked(mem.bytes@, root, v)
            == walked(m0.bytes@, root, v) by {
            assert(walked(m1.bytes@, root, v) == walked(m0.bytes@, root, v));
            assert(walked(m2.bytes@, root, v) == walked(m1.bytes@, root, v));
        }
    }
    Ok(())
}

/// Whether a page can be unmapped without a frame: only splitting a 2 MiB page
/// takes one.
pub open spec fn unmap_needs_frame(m: Seq<u8>, root: u64, virt: u64) -> bool {
    table_at(m, root, virt, 2) matches Some(pd) && is_present(entry(m, pd, index_of(virt, 2)))
        && is_huge(entry(m, pd, index_of(virt, 2)))
}

/// Whether an address lies in a 1 GiB page, which unmapping leaves alone.
pub open spec fn is_in_1g(m: Seq<u8>, root: u64, virt: u64) -> bool {
    table_at(m, root, virt, 1) matches Some(pdpt) && is_present(entry(m, pdpt, index_of(virt, 1)))
        && is_huge(entry(m, pdpt, index_of(virt, 1)))
}

/// Unmap a 4 KiB page of the kernel's page tables. A 2 MiB page around it is
/// split first, which can fail for want of a frame. 1 GiB pages stay.
pub fn unmap_page(mem: &mut PhysicalMemory, vmm: &Option<Vmm>, virt: u64) -> (r: Result<
    (),
    MapError,
>)
    requires
        is_kernel_space(*old(mem), *vmm),
    ensures
        is_kernel_space(*final(mem), *vmm),
        final(mem).hhdm == old(mem).hhdm,
        vmm is None ==> r is Ok && *final(mem) == *old(mem),
        vmm matches Some(k) ==> {
            let root = k.pml4_phys;
            let m = old(mem).bytes@;
            &&& keeps_rest(*old(mem), *final(mem), root, virt)
            &&& adds_way(*old(mem), *final(mem), root, virt)
            &&& grants_only(m, final(mem).bytes@, root, virt, 4, false)
            &&& keeps_modes(m, final(mem).bytes@, root, virt, 4)
            &&& r is Ok && unmap_needs_frame(m, root, virt) ==> final(mem).pmm->0.free_frames
                == old(mem).pmm->0.free_frames - 1
            &&& r is Ok <==> !(unmap_needs_frame(m, root, virt) && old(mem).pmm->0.free_frames == 0)
            &&& r is Err ==> *final(mem) == *old(mem) && r == Err::<(), MapError>(
                MapError::OutOfMemory,
            )
            &&& r is Ok ==> forall|v: u64| #[trigger]
                walked(final(mem).bytes@, root, v) == if same_way(v, virt, 4) && !is_in_1g(
                    m,
                    root,
                    virt,
                ) {
                    None
                } else {
                    walked(m, root, v)
                }
            &&& adds_tables(*old(mem), *final(mem), root)
            &&& takes_only(old(mem).pmm->0, final(mem).pmm->0)
            &&& !unmap_needs_frame(m, root, virt) ==> final(mem).pmm == old(mem).pmm
            &&& final(mem).bytes@.len() == m.len()
            &&& forall|v: u64|
                !same_way(v, virt, 4) && leaf_at(m, root, v) is Some ==> #[trigger] leaf_at(
                    final(mem).bytes@,
                    root,
                    v,
                ) == leaf_at(m, root, v)
            &&& forall|v: u64, k: int|
                0 <= k <= 3 && table_at(m, root, v, k) is Some ==> #[trigger] table_at(
                    final(mem).bytes@,
                    root,
                    v,
                    k,
                ) == table_at(m, root, v, k)
        },
{
    let root: u64 = match vmm {
        Some(k) => k.pml4_phys,
        None => {
            return Ok(());
        },
    };
    let ghost m0 = *mem;
    let ghost m = mem.bytes@;
    proof {
        reveal(adds_tables);
        reveal(walked);
        reveal_with_fuel(table_at, 4);
        lemma_zero_entry();
        assert(table_at(m, root, virt, 0) == Some(root));
        assert forall|v: u64| same_way(v, virt, 4) implies #[trigger] walked(m, root, v) is Some
            == walked(m, root, virt) is Some by {
            lemma_same_page(m, root, v, virt);
        }
        lemma_same_grants(m, root, virt, 4);
        lemma_no_modes(m, root);
        assert(keeps_modes(m, m, root, virt, 4)) by {
            reveal(keeps_modes);
        }
        assert(adds_way(m0, m0, root, virt)) by {
            reveal(adds_way);
        }
    }
    let e: u64 = read_entry(mem, root, index(virt, 0));
    if e & PRESENT == 0 {
        return Ok(());
    }
    let pdpt: u64 = e & ADDR_MASK;
    assert(table_at(m, root, virt, 1) == Some(pdpt));
    let e: u64 = read_entry(mem, pdpt, index(virt, 1));
    if e & PRESENT == 0 || e & HUGE != 0 {
        return Ok(());
    }
    let pd: u64 = e & ADDR_MASK;
    assert(table_at(m, root, virt, 2) == Some(pd));
    let e: u64 = read_entry(mem, pd, index(virt, 2));
    if e & PRESENT == 0 {
        return Ok(());
    }
    let pt: u64 = if e & HUGE != 0 {
        if crate::pmm::free_frame_count(mem) == 0 {
            return Err(MapError::OutOfMemory);
        }
        split_huge(mem, root, virt, pd)
    } else {
        e & ADDR_MASK
    };
    let ghost split = *mem;
    let ghost m1 = mem.bytes@;
    assert(table_at(m1, root, virt, 3) == Some(pt));
    assert(in_memory(m1, pt));
    let i: usize = index(virt, 3);
    write_entry(mem, pt, i, 0);
    proof {
        lemma_write_leaf(m1, mem.bytes@, root, virt, pt, 0, mem.pmm->0);
        lemma_le64_round_trip(0);
        lemma_leaf_way(split, *mem, root, virt, pt, 0);
        lemma_leaf_grants(split, *mem, root, virt, pt, 0);
        lemma_leaf_modes(split, *mem, root, virt, pt, 0);
        assert(!is_user(0)) by {
            assert(0u64 & (1u64 | 4u64) != 1u64 | 4u64) by (bit_vector);
        }
        lemma_adds_way(m0, split, *mem, root, virt);
        lemma_grants_only(m, m1, mem.bytes@, root, virt, 4, false);
        lemma_same_modes(m, m1, mem.bytes@, root, virt, 4);
        assert(keeps_rest(m0, *mem, root, virt)) by {
            assert forall|x: int|
                0 <= x < m.len() && is_used(m0.pmm->0.bitmap@, x / 4096) && !is_way_byte(
                    m,
                    root,
                    virt,
                    x,
                ) implies #[trigger] mem.bytes@[x] == m[x] by {
                assert(!(pd <= x < pd + 4096));
                if pt <= x < pt + 4096 {
                    assert(pt % 4096 == 0);
                    assert(x / 4096 == pt as int / 4096);
                    if e & HUGE == 0 {
                        assert(table_at(m, root, virt, 3) == Some(pt));
                    }
                }
            }
        }
        if e & HUGE != 0 {
            lemma_takes_only(m0.pmm->0, mem.pmm->0, pt);
        }
        assert forall|v: u64| #[trigger] walked(mem.bytes@, root, v) == if same_way(v, virt, 4) {
            None
        } else {
            walked(m, root, v)
        } by {
            assert(walked(m1, root, v) == walked(m, root, v));
        }
    }
    Ok(())
}

/// Mapping a range of registers again changes no mapping: where all its pages are mapped,
/// every address is mapped as it was.
pub proof fn law_mapping_again_changes_nothing(
    m: Seq<u8>,
    w: Seq<u8>,
    root: u64,
    from: int,
    to: int,
    v: u64,
)
    requires
        forall|u: u64| from <= u < to ==> #[trigger] walked(m, root, u) is Some,
        keeps_mapped(m, w, root, from, to),
    ensures
        walked(w, root, v) == walked(m, root, v),
        mode_at(w, root, v) == mode_at(m, root, v),
{
    reveal(keeps_mapped);
    if !is_off(v, from, to) {
        let u = choose|u: u64| from <= u < to && #[trigger] same_way(v, u, 4);
        assert(walked(m, root, u) is Some);
        lemma_same_page(m, root, v, u);
    }
}

/// Translating a page that was mapped gives the frame it was mapped to.
pub proof fn law_map_then_translate(
    before: PhysicalMemory,
    after: PhysicalMemory,
    root: u64,
    virt: u64,
    phys: u64,
    flags: u64,
)
    requires
        is_mapped_page(before, after, root, virt, leaf_of(phys, flags)),
        flags & ADDR_MASK == 0,
        phys % 4096 == 0,
        phys < PHYS_LIMIT,
    ensures
        walked(after.bytes@, root, virt) == Some((phys + virt % PAGE_SIZE) as u64),
{
    lemma_leaf_present(phys, flags);
    assert(phys & 0x000f_ffff_ffff_f000 == phys) by (bit_vector)
        requires
            phys % 4096 == 0,
            phys < 0x10_0000_0000_0000,
    ;
    assert(same_way(virt, virt, 4));
}

} // verus!
