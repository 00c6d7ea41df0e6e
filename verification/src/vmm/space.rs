//! Per-process address spaces.

use vstd::prelude::*;
use crate::bytes::lemma_le64_round_trip;
use crate::pmm::{alloc_frame_zeroed, free_frame, is_used, keeps_used, PhysicalMemory};
use super::ledger::same_tables;
use super::{
    entry, in_memory, index_of, is_huge, is_kernel_space, is_mapped_page, is_present, is_space,
    is_way_byte, leaf_at, leaf_of, lemma_frame_bound, lemma_same_tables, lemma_tables_still_taken,
    lemma_walked, lemma_write_entry, lemma_zero_entry, lemma_zeroed_page, map_outcome, read_entry,
    same_way, table_at, tables_in_memory, tables_taken, takes_only, try_map4k, walk, walked,
    write_entry, zeroed_page, MapError, Vmm, ADDR_MASK, ENTRIES, HUGE, HUGE_1G_MASK, HUGE_2M_MASK,
    KERNEL_PML4_START, PRESENT,
};

verus! {

/// A process's page tables.
///
/// The lower 256 top-level entries (user space) are private to this address
/// space. The upper 256 (kernel space) are those of the kernel's own top-level
/// table, so every address space shares its kernel half with the kernel.
pub struct AddressSpace {
    pub pml4_phys: u64,
}

/// The end of the half of the address space that a process has for itself.
pub const USER_END: u64 = 0x0000_8000_0000_0000;

/// Whether an address lies in the user half.
pub open spec fn is_user_half(virt: u64) -> bool {
    index_of(virt, 0) < 256
}

impl AddressSpace {
    /// Physical address of this address space's PML4, i.e. the value to load
    /// into CR3 to make it current.
    pub fn phys(&self) -> (r: u64)
        ensures
            r == self.pml4_phys,
    {
        self.pml4_phys
    }

    /// What mapping a page comes to.
    pub open spec fn map_result(self, mem: PhysicalMemory, virt: u64) -> Result<(), MapError> {
        map_outcome(mem, self.pml4_phys, virt)
    }

    /// Map a single 4 KiB page in this address space's private half.
    pub fn map(&self, mem: &mut PhysicalMemory, virt: u64, phys: u64, flags: u64) -> (r: Result<
        (),
        MapError,
    >)
        requires
            is_space(*old(mem), self.pml4_phys),
            is_user_half(virt),
        ensures
            r == map_outcome(*old(mem), self.pml4_phys, virt),
            r is Ok ==> is_mapped_page(
                *old(mem),
                *final(mem),
                self.pml4_phys,
                virt,
                leaf_of(phys, flags),
            ),
            r is Err ==> *final(mem) == *old(mem),
    {
        try_map4k(mem, self.pml4_phys, virt, phys, flags)
    }

    /// Software page-table walk in this address space.
    pub fn translate(&self, mem: &PhysicalMemory, virt: u64) -> (r: Option<u64>)
        requires
            tables_in_memory(mem.bytes@, self.pml4_phys),
        ensures
            r == walked(mem.bytes@, self.pml4_phys, virt),
    {
        walk(mem, self.pml4_phys, virt)
    }
}

/// Whether the top-level table at `root` has an empty user half and the kernel
/// half of the one at `kernel`.
pub open spec fn is_fresh_root(m: Seq<u8>, root: u64, kernel: u64) -> bool {
    &&& forall|i: int| 0 <= i < 256 ==> #[trigger] entry(m, root, i) == 0
    &&& forall|i: int| 256 <= i < 512 ==> #[trigger] entry(m, root, i) == entry(m, kernel, i)
}

/// The tables below a fresh root: those of the kernel, in the kernel half.
pub proof fn lemma_fresh_tables(m: Seq<u8>, root: u64, kernel: u64, v: u64, k: int)
    requires
        is_fresh_root(m, root, kernel),
        1 <= k <= 3,
    ensures
        table_at(m, root, v, k) == if is_user_half(v) {
            None
        } else {
            table_at(m, kernel, v, k)
        },
    decreases k,
{
    lemma_zero_entry();
    if k == 1 {
        reveal_with_fuel(table_at, 2);
        let i = index_of(v, 0);
        if i < 256 {
            assert(entry(m, root, i) == 0);
        } else {
            assert(entry(m, root, i) == entry(m, kernel, i));
        }
    } else {
        lemma_fresh_tables(m, root, kernel, v, k - 1);
    }
}

/// A fresh address space maps nothing in the user half and in the kernel half
/// what the kernel maps.
pub proof fn law_fresh_space_shares_kernel_half(m: Seq<u8>, root: u64, kernel: u64, v: u64)
    requires
        is_fresh_root(m, root, kernel),
    ensures
        walked(m, root, v) == if is_user_half(v) {
            None
        } else {
            walked(m, kernel, v)
        },
{
    reveal(walked);
    lemma_fresh_tables(m, root, kernel, v, 1);
}

/// Create a new address space for a process: a private, empty lower half plus
/// the kernel's upper half. There is none before the kernel has page tables, or
/// without a frame for the new top-level table.
pub fn create_address_space(mem: &mut PhysicalMemory, vmm: &Option<Vmm>) -> (r: Option<
    AddressSpace,
>)
    requires
        is_kernel_space(*old(mem), *vmm),
    ensures
        r is Some <==> vmm is Some && old(mem).pmm->0.free_frames > 0,
        r is None ==> *final(mem) == *old(mem),
        final(mem).hhdm == old(mem).hhdm,
        r matches Some(a) ==> {
            let kernel = vmm->0.pml4_phys;
            &&& is_space(*final(mem), kernel)
            &&& is_space(*final(mem), a.pml4_phys)
            &&& is_fresh_root(final(mem).bytes@, a.pml4_phys, kernel)
            &&& old(mem).pmm->0.gave_one(final(mem).pmm->0, a.pml4_phys)
            &&& final(mem).bytes@.len() == old(mem).bytes@.len()
            &&& forall|v: u64, k: int|
                0 <= k <= 3 ==> #[trigger] table_at(final(mem).bytes@, kernel, v, k) == table_at(
                    old(mem).bytes@,
                    kernel,
                    v,
                    k,
                )
            &&& forall|v: u64| #[trigger]
                walked(final(mem).bytes@, kernel, v) == walked(old(mem).bytes@, kernel, v)
            &&& same_tables(old(mem).bytes@, final(mem).bytes@, kernel)
            &&& keeps_used(*old(mem), *final(mem))
        },
{
    let kernel: u64 = match vmm {
        Some(k) => k.pml4_phys,
        None => {
            return None;
        },
    };
    let ghost m = mem.bytes@;
    let ghost before = *mem;
    let root: u64 = alloc_frame_zeroed(mem)?;
    let ghost z = mem.bytes@;
    proof {
        assert(root as int / 4096 < before.pmm->0.total_frames);
        assert(in_memory(m, root));
        assert(z =~= zeroed_page(m, root));
        lemma_zeroed_page(m, root);
        assert(table_at(m, kernel, 0, 0) == Some(kernel));
        assert(in_memory(m, kernel));
        lemma_tables_still_taken(before, mem.pmm->0, kernel, root);
        assert(root != kernel) by {
            assert(is_used(before.pmm->0.bitmap@, kernel as int / 4096));
        }
    }
    let ghost pmm = mem.pmm;
    let mut i: usize = KERNEL_PML4_START;
    while i < ENTRIES
        invariant
            256 <= i <= 512,
            mem.pmm == pmm,
            mem.hhdm == before.hhdm,
            mem.bytes@.len() == m.len(),
            in_memory(m, root),
            in_memory(m, kernel),
            root != kernel,
            forall|x: int|
                0 <= x < m.len() && !(root <= x < root + 4096) ==> #[trigger] mem.bytes@[x] == m[x],
            forall|t: u64, j: int|
                in_memory(m, t) && 0 <= j < 512 && t != root ==> #[trigger] entry(mem.bytes@, t, j)
                    == entry(m, t, j),
            forall|j: int| 0 <= j < 256 ==> #[trigger] entry(mem.bytes@, root, j) == 0,
            forall|j: int|
                256 <= j < i ==> #[trigger] entry(mem.bytes@, root, j) == entry(m, kernel, j),
        decreases 512 - i,
    {
        let e: u64 = read_entry(mem, kernel, i);
        let ghost b = mem.bytes@;
        write_entry(mem, root, i, e);
        proof {
            lemma_write_entry(b, root, i as int, e);
            lemma_le64_round_trip(e);
            assert(in_memory(b, root));
            assert(in_memory(b, kernel));
            assert forall|t: u64, j: int|
                in_memory(m, t) && 0 <= j < 512 && t != root implies #[trigger] entry(
                mem.bytes@,
                t,
                j,
            ) == entry(m, t, j) by {
                assert(in_memory(b, t));
                assert(entry(b, t, j) == entry(m, t, j));
            }
            assert forall|j: int| 0 <= j < 256 implies #[trigger] entry(mem.bytes@, root, j) == 0 by {
                assert(entry(b, root, j) == 0);
            }
            assert forall|j: int| 256 <= j < i + 1 implies #[trigger] entry(mem.bytes@, root, j)
                == entry(m, kernel, j) by {
                if j < i {
                    assert(entry(b, root, j) == entry(m, kernel, j));
                }
            }
        }
        i += 1;
    }
    proof {
        let w = mem.bytes@;
        lemma_created(before, *mem, root, kernel);
        assert forall|x: int|
            0 <= x < m.len() && is_used(before.pmm->0.bitmap@, x / 4096) implies #[trigger] w[x]
            == m[x] by {
            if root <= x < root + 4096 {
                assert(x / 4096 == root as int / 4096);
            }
        }
        assert forall|v: u64, k: int| 0 <= k <= 3 implies ((#[trigger] table_at(m, kernel, v, k)) matches Some(
            t,
        ) ==> forall|j: int| 0 <= j < 512 ==> #[trigger] entry(w, t, j) == entry(m, t, j)) by {
            if let Some(t) = table_at(m, kernel, v, k) {
                assert(in_memory(m, t));
                assert(is_used(before.pmm->0.bitmap@, t as int / 4096));
            }
        }
    }
    Some(AddressSpace { pml4_phys: root })
}

#[verifier::spinoff_prover]
proof fn lemma_created(before: PhysicalMemory, after: PhysicalMemory, root: u64, kernel: u64)
    requires
        is_space(before, kernel),
        after.wf(),
        after.pmm is Some,
        before.pmm->0.gave_one(after.pmm->0, root),
        after.bytes@.len() == before.bytes@.len(),
        in_memory(before.bytes@, root),
        forall|t: u64, j: int|
            in_memory(before.bytes@, t) && 0 <= j < 512 && t != root ==> #[trigger] entry(
                after.bytes@,
                t,
                j,
            ) == entry(before.bytes@, t, j),
        forall|j: int| 0 <= j < 256 ==> #[trigger] entry(after.bytes@, root, j) == 0,
        forall|j: int|
            256 <= j < 512 ==> #[trigger] entry(after.bytes@, root, j) == entry(
                before.bytes@,
                kernel,
                j,
            ),
    ensures
        is_space(after, kernel),
        is_space(after, root),
        is_fresh_root(after.bytes@, root, kernel),
        forall|v: u64, k: int|
            0 <= k <= 3 ==> #[trigger] table_at(after.bytes@, kernel, v, k) == table_at(
                before.bytes@,
                kernel,
                v,
                k,
            ),
        forall|v: u64| #[trigger]
            walked(after.bytes@, kernel, v) == walked(before.bytes@, kernel, v),
{
    let m = before.bytes@;
    let w = after.bytes@;
    lemma_tables_still_taken(before, after.pmm->0, kernel, root);
    assert(table_at(m, kernel, 0, 0) == Some(kernel));
    // The new table is none of the kernel's.
    assert forall|v: u64, k: int| 0 <= k <= 3 implies #[trigger] table_at(m, kernel, v, k) != Some(
        root,
    ) by {
        assert(table_at(m, kernel, v, k) matches Some(t) ==> is_used(
            before.pmm->0.bitmap@,
            t as int / 4096,
        ));
    }
    assert forall|v: u64, l: int, i: int|
        #![trigger table_at(m, kernel, v, l), entry(w, table_at(m, kernel, v, l)->0, i)]
        0 <= l <= 3 && 0 <= i < 512 && table_at(m, kernel, v, l) is Some implies entry(
        w,
        table_at(m, kernel, v, l)->0,
        i,
    ) == entry(m, table_at(m, kernel, v, l)->0, i) by {
        let t = table_at(m, kernel, v, l)->0;
        assert(in_memory(m, t));
        assert(t != root);
    }
    assert forall|v: u64, k: int| 0 <= k <= 3 implies #[trigger] table_at(w, kernel, v, k)
        == table_at(m, kernel, v, k) by {
        lemma_same_tables(m, w, kernel, v, k);
    }
    assert(is_fresh_root(w, root, kernel)) by {
        assert forall|i: int| 256 <= i < 512 implies #[trigger] entry(w, root, i) == entry(
            w,
            kernel,
            i,
        ) by {
            assert(in_memory(m, kernel));
            assert(kernel != root) by {
                assert(table_at(m, kernel, 0, 0) != Some(root));
            }
            assert(entry(w, kernel, i) == entry(m, kernel, i));
        }
    }
    assert forall|v: u64, k: int| 1 <= k <= 3 implies #[trigger] table_at(w, root, v, k)
        == if is_user_half(v) {
        None
    } else {
        table_at(m, kernel, v, k)
    } by {
        lemma_fresh_tables(w, root, kernel, v, k);
        assert(table_at(w, kernel, v, k) == table_at(m, kernel, v, k));
    }
    assert forall|v: u64| #[trigger] walked(w, kernel, v) == walked(m, kernel, v) by {
        lemma_walked(m, kernel, v);
        lemma_walked(w, kernel, v);
        assert(table_at(w, kernel, v, 1) == table_at(m, kernel, v, 1));
        assert(table_at(w, kernel, v, 2) == table_at(m, kernel, v, 2));
        assert(table_at(w, kernel, v, 3) == table_at(m, kernel, v, 3));
        if table_at(m, kernel, v, 1) is Some {
            assert(entry(w, table_at(m, kernel, v, 1)->0, index_of(v, 1)) == entry(
                m,
                table_at(m, kernel, v, 1)->0,
                index_of(v, 1),
            ));
        }
        if table_at(m, kernel, v, 2) is Some {
            assert(entry(w, table_at(m, kernel, v, 2)->0, index_of(v, 2)) == entry(
                m,
                table_at(m, kernel, v, 2)->0,
                index_of(v, 2),
            ));
        }
        if table_at(m, kernel, v, 3) is Some {
            assert(entry(w, table_at(m, kernel, v, 3)->0, index_of(v, 3)) == entry(
                m,
                table_at(m, kernel, v, 3)->0,
                index_of(v, 3),
            ));
        }
    }
    lemma_created_spaces(before, after, root, kernel);
}

#[verifier::spinoff_prover]
proof fn lemma_created_spaces(before: PhysicalMemory, after: PhysicalMemory, root: u64, kernel: u64)
    requires
        is_space(before, kernel),
        after.wf(),
        after.pmm is Some,
        after.bytes@.len() == before.bytes@.len(),
        in_memory(before.bytes@, root),
        tables_taken(before.bytes@, kernel, after.pmm->0),
        is_used(after.pmm->0.bitmap@, root as int / 4096),
        forall|v: u64, k: int|
            0 <= k <= 3 ==> #[trigger] table_at(before.bytes@, kernel, v, k) != Some(root),
        forall|v: u64, k: int|
            0 <= k <= 3 ==> #[trigger] table_at(after.bytes@, kernel, v, k) == table_at(
                before.bytes@,
                kernel,
                v,
                k,
            ),
        forall|v: u64, k: int|
            1 <= k <= 3 ==> #[trigger] table_at(after.bytes@, root, v, k) == if is_user_half(v) {
                None
            } else {
                table_at(before.bytes@, kernel, v, k)
            },
    ensures
        is_space(after, kernel),
        is_space(after, root),
{
    let m = before.bytes@;
    let w = after.bytes@;
    assert forall|v: u64, l: int| 0 <= l <= 3 implies ((#[trigger] table_at(w, kernel, v, l)) matches Some(
        t,
    ) ==> in_memory(w, t) && is_used(after.pmm->0.bitmap@, t as int / 4096)) by {
        assert(table_at(m, kernel, v, l) matches Some(t) ==> in_memory(m, t));
        assert(table_at(m, kernel, v, l) matches Some(t) ==> is_used(
            after.pmm->0.bitmap@,
            t as int / 4096,
        ));
    }
    assert forall|v: u64, l: int| 0 <= l <= 3 implies ((#[trigger] table_at(w, root, v, l)) matches Some(
        t,
    ) ==> in_memory(w, t) && is_used(after.pmm->0.bitmap@, t as int / 4096)) by {
        if l > 0 {
            assert(table_at(m, kernel, v, l) matches Some(t) ==> in_memory(m, t));
            assert(table_at(m, kernel, v, l) matches Some(t) ==> is_used(
                after.pmm->0.bitmap@,
                t as int / 4096,
            ));
        }
    }
    assert forall|a: u64, i: int, b: u64, j: int|
        #![trigger table_at(w, kernel, a, i), table_at(w, kernel, b, j)]
        0 <= i <= 3 && 0 <= j <= 3 && table_at(w, kernel, a, i) is Some && table_at(
            w,
            kernel,
            a,
            i,
        ) == table_at(w, kernel, b, j) implies i == j && same_way(a, b, i) by {
        assert(table_at(m, kernel, a, i) == table_at(m, kernel, b, j));
    }
    assert forall|a: u64, i: int, b: u64, j: int|
        #![trigger table_at(w, root, a, i), table_at(w, root, b, j)]
        0 <= i <= 3 && 0 <= j <= 3 && table_at(w, root, a, i) is Some && table_at(w, root, a, i)
            == table_at(w, root, b, j) implies i == j && same_way(a, b, i) by {
        if i > 0 && j > 0 {
            assert(table_at(m, kernel, a, i) == table_at(m, kernel, b, j));
        } else if i == 0 && j > 0 {
            assert(table_at(m, kernel, b, j) != Some(root));
        } else if i > 0 {
            assert(table_at(m, kernel, a, i) != Some(root));
        }
    }
}

/// Whether no table on the user half's ways below `root` is a table below
/// `other`.
pub open spec fn is_private(m: Seq<u8>, root: u64, other: u64) -> bool {
    forall|v: u64, l: int, w: u64, k: int|
        #![trigger table_at(m, root, v, l), table_at(m, other, w, k)]
        is_user_half(v) && 0 <= l <= 3 && 0 <= k <= 3 && table_at(m, root, v, l) is Some
            ==> table_at(m, root, v, l) != table_at(m, other, w, k)
}

/// Mapping a page in the private half of an address space changes no
/// translation of another one.
pub proof fn law_private_map_keeps_others(
    before: PhysicalMemory,
    after: PhysicalMemory,
    root: u64,
    other: u64,
    virt: u64,
    leaf: u64,
    v: u64,
)
    requires
        is_space(before, root),
        is_space(before, other),
        is_user_half(virt),
        is_private(before.bytes@, root, other),
        is_mapped_page(before, after, root, virt, leaf),
    ensures
        walked(after.bytes@, other, v) == walked(before.bytes@, other, v),
{
    let m = before.bytes@;
    let w = after.bytes@;
    assert forall|u: u64, l: int, i: int|
        #![trigger table_at(m, other, u, l), entry(w, table_at(m, other, u, l)->0, i)]
        0 <= l <= 3 && 0 <= i < 512 && table_at(m, other, u, l) is Some implies entry(
        w,
        table_at(m, other, u, l)->0,
        i,
    ) == entry(m, table_at(m, other, u, l)->0, i) by {
        let t = table_at(m, other, u, l)->0;
        assert(in_memory(m, t));
        assert(is_used(before.pmm->0.bitmap@, t as int / 4096));
        assert forall|x: int| t <= x < t + 4096 implies #[trigger] w[x] == m[x] by {
            assert(x / 4096 == t as int / 4096);
            assert(!is_way_byte(m, root, virt, x)) by {
                if is_way_byte(m, root, virt, x) {
                    let k = choose|k: int|
                        0 <= k <= 3 && ((#[trigger] table_at(m, root, virt, k)) matches Some(s) && s
                            <= x < s + 4096);
                    let s = table_at(m, root, virt, k)->0;
                    assert(in_memory(m, s));
                    assert(s as int / 4096 == t as int / 4096);
                    assert(table_at(m, root, virt, k) != table_at(m, other, u, l));
                }
            }
        }
        super::user::lemma_entry_bytes(m, w, t, i);
    }
    lemma_same_tables(m, w, other, v, 1);
    lemma_same_tables(m, w, other, v, 2);
    lemma_same_tables(m, w, other, v, 3);
    lemma_walked(m, other, v);
    lemma_walked(w, other, v);
    if table_at(m, other, v, 1) is Some {
        assert(entry(w, table_at(m, other, v, 1)->0, index_of(v, 1)) == entry(
            m,
            table_at(m, other, v, 1)->0,
            index_of(v, 1),
        ));
    }
    if table_at(m, other, v, 2) is Some {
        assert(entry(w, table_at(m, other, v, 2)->0, index_of(v, 2)) == entry(
            m,
            table_at(m, other, v, 2)->0,
            index_of(v, 2),
        ));
    }
    if table_at(m, other, v, 3) is Some {
        assert(entry(w, table_at(m, other, v, 3)->0, index_of(v, 3)) == entry(
            m,
            table_at(m, other, v, 3)->0,
            index_of(v, 3),
        ));
    }
}

/// Whether a frame is a page table or one of the pages it maps.
pub open spec fn pt_frame(m: Seq<u8>, t: u64, p: u64) -> bool {
    p == t || exists|i: int|
        0 <= i < 512 && is_present(#[trigger] entry(m, t, i)) && p == entry(m, t, i) & ADDR_MASK
}

/// Whether a frame is a page directory or one of those below it.
pub open spec fn pd_frame(m: Seq<u8>, t: u64, p: u64) -> bool {
    p == t || exists|i: int| 0 <= i < 512 && pd_entry_frame(m, #[trigger] entry(m, t, i), p)
}

pub open spec fn pd_entry_frame(m: Seq<u8>, e: u64, p: u64) -> bool {
    is_present(e) && if is_huge(e) {
        p == e & HUGE_2M_MASK
    } else {
        pt_frame(m, e & ADDR_MASK, p)
    }
}

/// Whether a frame is a page directory pointer table or one of those below it.
pub open spec fn pdpt_frame(m: Seq<u8>, t: u64, p: u64) -> bool {
    p == t || exists|i: int| 0 <= i < 512 && pdpt_entry_frame(m, #[trigger] entry(m, t, i), p)
}

pub open spec fn pdpt_entry_frame(m: Seq<u8>, e: u64, p: u64) -> bool {
    is_present(e) && if is_huge(e) {
        p == e & HUGE_1G_MASK
    } else {
        pd_frame(m, e & ADDR_MASK, p)
    }
}

/// Whether a frame is a top-level table or one of those in its user half.
pub open spec fn user_frame(m: Seq<u8>, t: u64, p: u64) -> bool {
    p == t || exists|i: int|
        0 <= i < 256 && is_present(#[trigger] entry(m, t, i)) && pdpt_frame(
            m,
            entry(m, t, i) & ADDR_MASK,
            p,
        )
}

/// Whether exactly the frames for which `given` holds were taken back, as far
/// as they were handed out.
pub open spec fn took_back_all(
    before: PhysicalMemory,
    after: PhysicalMemory,
    given: spec_fn(u64) -> bool,
) -> bool {
    &&& after.wf()
    &&& after.same_bytes(before)
    &&& after.pmm is Some
    &&& after.pmm->0.same_memory(before.pmm->0)
    &&& forall|f: int|
        0 <= f < before.pmm->0.total_frames ==> #[trigger] is_used(after.pmm->0.bitmap@, f) == (
        is_used(before.pmm->0.bitmap@, f) && !given((f * 4096) as u64))
}

/// Take one frame back, if it is handed out.
fn give_back(mem: &mut PhysicalMemory, phys: u64)
    requires
        old(mem).wf(),
        old(mem).pmm is Some,
        phys % 4096 == 0,
    ensures
        took_back_all(*old(mem), *final(mem), |p: u64| p == phys),
{
    let _refused = free_frame(mem, phys);
    proof {
        let before = old(mem).pmm->0;
        let after = mem.pmm->0;
        let g = phys as int / 4096;
        assert forall|f: int| 0 <= f < before.total_frames implies #[trigger] is_used(
            after.bitmap@,
            f,
        ) == (is_used(before.bitmap@, f) && (f * 4096) as u64 != phys) by {
            assert(0 <= f < before.bitmap@.len() * 64);
            assert(f * 4096 <= u64::MAX);
            if before.free_result(phys, 1) is Err && f == g {
                assert(!is_used(before.bitmap@, f));
            }
        }
    }
}

proof fn lemma_huge_bounds(e: u64)
    ensures
        (e & HUGE_2M_MASK) % 4096 == 0,
        (e & HUGE_1G_MASK) % 4096 == 0,
{
    assert((e & 0x000f_ffff_ffe0_0000) % 4096 == 0 && (e & 0x000f_ffff_c000_0000) % 4096 == 0)
        by (bit_vector);
}

fn free_pt(mem: &mut PhysicalMemory, t: u64)
    requires
        old(mem).wf(),
        old(mem).pmm is Some,
        in_memory(old(mem).bytes@, t),
    ensures
        took_back_all(*old(mem), *final(mem), |p: u64| pt_frame(old(mem).bytes@, t, p)),
{
    let ghost m = mem.bytes@;
    let ghost before = *mem;
    let mut i: usize = 0;
    while i < ENTRIES
        invariant
            i <= 512,
            before == *old(mem),
            before.pmm is Some,
            m == before.bytes@,
            in_memory(m, t),
            took_back_all(
                before,
                *mem,
                |p: u64|
                    exists|j: int|
                        0 <= j < i && is_present(#[trigger] entry(m, t, j)) && p == entry(m, t, j)
                            & ADDR_MASK,
            ),
        decreases 512 - i,
    {
        let e: u64 = read_entry(mem, t, i);
        let ghost mid = *mem;
        proof {
            lemma_frame_bound(e);
        }
        if e & PRESENT != 0 {
            give_back(mem, e & ADDR_MASK);
        }
        i += 1;
        assert forall|f: int| 0 <= f < before.pmm->0.total_frames implies #[trigger] is_used(
            mem.pmm->0.bitmap@,
            f,
        ) == (is_used(before.pmm->0.bitmap@, f) && !exists|j: int|
            0 <= j < i && is_present(#[trigger] entry(m, t, j)) && (f * 4096) as u64 == entry(
                m,
                t,
                j,
            ) & ADDR_MASK) by {
            assert(is_used(mid.pmm->0.bitmap@, f) == (is_used(before.pmm->0.bitmap@, f) && !exists|
                j: int,
            |
                0 <= j < i - 1 && is_present(#[trigger] entry(m, t, j)) && (f * 4096) as u64
                    == entry(m, t, j) & ADDR_MASK));
            assert(entry(m, t, i - 1) == e);
        }
    }
    let ghost mid = *mem;
    give_back(mem, t);
    assert forall|f: int| 0 <= f < before.pmm->0.total_frames implies #[trigger] is_used(
        mem.pmm->0.bitmap@,
        f,
    ) == (is_used(before.pmm->0.bitmap@, f) && !pt_frame(m, t, (f * 4096) as u64)) by {
        assert(is_used(mid.pmm->0.bitmap@, f) || !is_used(mid.pmm->0.bitmap@, f));
    }
}

/// Whether the tables that a page directory's entries name lie in memory.
pub open spec fn pd_ok(m: Seq<u8>, t: u64) -> bool {
    &&& in_memory(m, t)
    &&& forall|i: int|
        0 <= i < 512 && is_present(#[trigger] entry(m, t, i)) && !is_huge(entry(m, t, i))
            ==> in_memory(m, entry(m, t, i) & ADDR_MASK)
}

fn free_pd(mem: &mut PhysicalMemory, t: u64)
    requires
        old(mem).wf(),
        old(mem).pmm is Some,
        pd_ok(old(mem).bytes@, t),
    ensures
        took_back_all(*old(mem), *final(mem), |p: u64| pd_frame(old(mem).bytes@, t, p)),
{
    let ghost m = mem.bytes@;
    let ghost before = *mem;
    let mut i: usize = 0;
    while i < ENTRIES
        invariant
            i <= 512,
            before == *old(mem),
            before.pmm is Some,
            m == before.bytes@,
            pd_ok(m, t),
            took_back_all(
                before,
                *mem,
                |p: u64|
                    exists|j: int| 0 <= j < i && pd_entry_frame(m, #[trigger] entry(m, t, j), p),
            ),
        decreases 512 - i,
    {
        let e: u64 = read_entry(mem, t, i);
        let ghost mid = *mem;
        proof {
            lemma_huge_bounds(e);
        }
        if e & PRESENT != 0 {
            if e & HUGE != 0 {
                give_back(mem, e & HUGE_2M_MASK);
            } else {
                free_pt(mem, e & ADDR_MASK);
            }
        }
        i += 1;
        assert forall|f: int| 0 <= f < before.pmm->0.total_frames implies #[trigger] is_used(
            mem.pmm->0.bitmap@,
            f,
        ) == (is_used(before.pmm->0.bitmap@, f) && !exists|j: int|
            0 <= j < i && pd_entry_frame(m, #[trigger] entry(m, t, j), (f * 4096) as u64)) by {
            assert(is_used(mid.pmm->0.bitmap@, f) == (is_used(before.pmm->0.bitmap@, f) && !exists|
                j: int,
            |
                0 <= j < i - 1 && pd_entry_frame(
                    m,
                    #[trigger] entry(m, t, j),
                    (f * 4096) as u64,
                )));
            assert(entry(m, t, i - 1) == e);
        }
    }
    let ghost mid = *mem;
    give_back(mem, t);
    assert forall|f: int| 0 <= f < before.pmm->0.total_frames implies #[trigger] is_used(
        mem.pmm->0.bitmap@,
        f,
    ) == (is_used(before.pmm->0.bitmap@, f) && !pd_frame(m, t, (f * 4096) as u64)) by {
        assert(is_used(mid.pmm->0.bitmap@, f) || !is_used(mid.pmm->0.bitmap@, f));
    }
}

pub open spec fn pdpt_ok(m: Seq<u8>, t: u64) -> bool {
    &&& in_memory(m, t)
    &&& forall|i: int|
        0 <= i < 512 && is_present(#[trigger] entry(m, t, i)) && !is_huge(entry(m, t, i)) ==> pd_ok(
            m,
            entry(m, t, i) & ADDR_MASK,
        )
}

fn free_pdpt(mem: &mut PhysicalMemory, t: u64)
    requires
        old(mem).wf(),
        old(mem).pmm is Some,
        pdpt_ok(old(mem).bytes@, t),
    ensures
        took_back_all(*old(mem), *final(mem), |p: u64| pdpt_frame(old(mem).bytes@, t, p)),
{
    let ghost m = mem.bytes@;
    let ghost before = *mem;
    let mut i: usize = 0;
    while i < ENTRIES
        invariant
            i <= 512,
            before == *old(mem),
            before.pmm is Some,
            m == before.bytes@,
            pdpt_ok(m, t),
            took_back_all(
                before,
                *mem,
                |p: u64|
                    exists|j: int| 0 <= j < i && pdpt_entry_frame(m, #[trigger] entry(m, t, j), p),
            ),
        decreases 512 - i,
    {
        let e: u64 = read_entry(mem, t, i);
        let ghost mid = *mem;
        proof {
            lemma_huge_bounds(e);
        }
        if e & PRESENT != 0 {
            if e & HUGE != 0 {
                give_back(mem, e & HUGE_1G_MASK);
            } else {
                free_pd(mem, e & ADDR_MASK);
            }
        }
        i += 1;
        assert forall|f: int| 0 <= f < before.pmm->0.total_frames implies #[trigger] is_used(
            mem.pmm->0.bitmap@,
            f,
        ) == (is_used(before.pmm->0.bitmap@, f) && !exists|j: int|
            0 <= j < i && pdpt_entry_frame(m, #[trigger] entry(m, t, j), (f * 4096) as u64)) by {
            assert(is_used(mid.pmm->0.bitmap@, f) == (is_used(before.pmm->0.bitmap@, f) && !exists|
                j: int,
            |
                0 <= j < i - 1 && pdpt_entry_frame(
                    m,
                    #[trigger] entry(m, t, j),
                    (f * 4096) as u64,
                )));
            assert(entry(m, t, i - 1) == e);
        }
    }
    let ghost mid = *mem;
    give_back(mem, t);
    assert forall|f: int| 0 <= f < before.pmm->0.total_frames implies #[trigger] is_used(
        mem.pmm->0.bitmap@,
        f,
    ) == (is_used(before.pmm->0.bitmap@, f) && !pdpt_frame(m, t, (f * 4096) as u64)) by {
        assert(is_used(mid.pmm->0.bitmap@, f) || !is_used(mid.pmm->0.bitmap@, f));
    }
}

/// The address that goes through the given entries.
pub open spec fn address_of(a: int, b: int, c: int) -> u64 {
    (a * 0x80_0000_0000 + b * 0x4000_0000 + c * 0x20_0000) as u64
}

proof fn lemma_address_of(a: int, b: int, c: int)
    requires
        0 <= a < 256,
        0 <= b < 512,
        0 <= c < 512,
    ensures
        index_of(address_of(a, b, c), 0) == a,
        index_of(address_of(a, b, c), 1) == b,
        index_of(address_of(a, b, c), 2) == c,
{
    let v = a * 0x80_0000_0000 + b * 0x4000_0000 + c * 0x20_0000;
    assert(v / 0x20_0000 == a * 0x4_0000 + b * 512 + c);
    assert(v / 0x4000_0000 == a * 512 + b);
    assert(v / 0x80_0000_0000 == a);
}

/// Sound tables are readable on every level.
proof fn lemma_user_tables_ok(m: Seq<u8>, root: u64, a: int)
    requires
        tables_in_memory(m, root),
        0 <= a < 256,
        is_present(entry(m, root, a)),
    ensures
        pdpt_ok(m, entry(m, root, a) & ADDR_MASK),
{
    reveal_with_fuel(table_at, 4);
    let pdpt = entry(m, root, a) & ADDR_MASK;
    lemma_address_of(a, 0, 0);
    assert(table_at(m, root, address_of(a, 0, 0), 1) == Some(pdpt));
    assert forall|b: int|
        0 <= b < 512 && is_present(#[trigger] entry(m, pdpt, b)) && !is_huge(
            entry(m, pdpt, b),
        ) implies pd_ok(m, entry(m, pdpt, b) & ADDR_MASK) by {
        let pd = entry(m, pdpt, b) & ADDR_MASK;
        lemma_address_of(a, b, 0);
        assert(table_at(m, root, address_of(a, b, 0), 1) == Some(pdpt));
        assert(table_at(m, root, address_of(a, b, 0), 2) == Some(pd));
        assert forall|c: int|
            0 <= c < 512 && is_present(#[trigger] entry(m, pd, c)) && !is_huge(
                entry(m, pd, c),
            ) implies in_memory(m, entry(m, pd, c) & ADDR_MASK) by {
            lemma_address_of(a, b, c);
            let v = address_of(a, b, c);
            assert(table_at(m, root, v, 1) == Some(pdpt));
            assert(table_at(m, root, v, 2) == Some(pd));
            assert(table_at(m, root, v, 3) == Some(entry(m, pd, c) & ADDR_MASK));
        }
    }
}

/// Tear down an address space's private half: every page table it owns, and
/// every frame still mapped underneath them, then the top-level table itself.
/// The shared kernel half is never touched.
pub fn free_user_half(mem: &mut PhysicalMemory, aspace: AddressSpace)
    requires
        old(mem).wf(),
        old(mem).pmm is Some,
        tables_in_memory(old(mem).bytes@, aspace.pml4_phys),
    ensures
        took_back_all(
            *old(mem),
            *final(mem),
            |p: u64| user_frame(old(mem).bytes@, aspace.pml4_phys, p),
        ),
{
    let t: u64 = aspace.pml4_phys;
    let ghost m = mem.bytes@;
    let ghost before = *mem;
    assert(in_memory(m, t)) by {
        assert(table_at(m, t, 0, 0) == Some(t));
    }
    let mut i: usize = 0;
    while i < KERNEL_PML4_START
        invariant
            i <= 256,
            before == *old(mem),
            before.pmm is Some,
            m == before.bytes@,
            tables_in_memory(m, t),
            in_memory(m, t),
            took_back_all(
                before,
                *mem,
                |p: u64|
                    exists|j: int|
                        0 <= j < i && is_present(#[trigger] entry(m, t, j)) && pdpt_frame(
                            m,
                            entry(m, t, j) & ADDR_MASK,
                            p,
                        ),
            ),
        decreases 256 - i,
    {
        let e: u64 = read_entry(mem, t, i);
        let ghost mid = *mem;
        if e & PRESENT != 0 {
            proof {
                lemma_user_tables_ok(m, t, i as int);
            }
            free_pdpt(mem, e & ADDR_MASK);
        }
        i += 1;
        assert forall|f: int| 0 <= f < before.pmm->0.total_frames implies #[trigger] is_used(
            mem.pmm->0.bitmap@,
            f,
        ) == (is_used(before.pmm->0.bitmap@, f) && !exists|j: int|
            0 <= j < i && is_present(#[trigger] entry(m, t, j)) && pdpt_frame(
                m,
                entry(m, t, j) & ADDR_MASK,
                (f * 4096) as u64,
            )) by {
            assert(is_used(mid.pmm->0.bitmap@, f) == (is_used(before.pmm->0.bitmap@, f) && !exists|
                j: int,
            |
                0 <= j < i - 1 && is_present(#[trigger] entry(m, t, j)) && pdpt_frame(
                    m,
                    entry(m, t, j) & ADDR_MASK,
                    (f * 4096) as u64,
                )));
            assert(entry(m, t, i - 1) == e);
        }
    }
    let ghost mid = *mem;
    give_back(mem, t);
    assert forall|f: int| 0 <= f < before.pmm->0.total_frames implies #[trigger] is_used(
        mem.pmm->0.bitmap@,
        f,
    ) == (is_used(before.pmm->0.bitmap@, f) && !user_frame(m, t, (f * 4096) as u64)) by {
        assert(is_used(mid.pmm->0.bitmap@, f) || !is_used(mid.pmm->0.bitmap@, f));
    }
}

/// A fresh address space owns its top-level table and nothing else.
pub proof fn lemma_fresh_user_frames(m: Seq<u8>, root: u64, kernel: u64, p: u64)
    requires
        is_fresh_root(m, root, kernel),
    ensures
        user_frame(m, root, p) == (p == root),
{
    lemma_zero_entry();
    if user_frame(m, root, p) && p != root {
        let i = choose|i: int|
            0 <= i < 256 && is_present(#[trigger] entry(m, root, i)) && pdpt_frame(
                m,
                entry(m, root, i) & ADDR_MASK,
                p,
            );
        assert(entry(m, root, i) == 0);
    }
}

/// An address space that is torn down right after it was created gives back its
/// one frame: every frame is as it was before.
pub proof fn law_create_then_free(
    before: PhysicalMemory,
    created: PhysicalMemory,
    after: PhysicalMemory,
    root: u64,
    kernel: u64,
    f: int,
)
    requires
        before.wf(),
        before.pmm is Some,
        created.wf(),
        created.pmm is Some,
        before.pmm->0.gave_one(created.pmm->0, root),
        is_fresh_root(created.bytes@, root, kernel),
        took_back_all(created, after, |p: u64| user_frame(created.bytes@, root, p)),
        0 <= f < before.pmm->0.total_frames,
    ensures
        is_used(after.pmm->0.bitmap@, f) == is_used(before.pmm->0.bitmap@, f),
{
    let p = (f * 4096) as u64;
    lemma_fresh_user_frames(created.bytes@, root, kernel, p);
    assert(0 <= f < before.pmm->0.bitmap@.len() * 64);
    assert(f * 4096 <= u64::MAX);
    assert(p == root <==> f == root as int / 4096);
}

/// Where no page table has changed, an address space is what it was.
pub proof fn lemma_tables_kept(before: PhysicalMemory, after: PhysicalMemory, root: u64)
    requires
        is_space(before, root),
        after.wf(),
        after.pmm is Some,
        after.bytes@.len() == before.bytes@.len(),
        takes_only(before.pmm->0, after.pmm->0),
        forall|v: u64, k: int, x: int|
            #![trigger table_at(before.bytes@, root, v, k), after.bytes@[x]]
            0 <= k <= 3 && (table_at(before.bytes@, root, v, k) matches Some(t) && t <= x < t
                + 4096) ==> after.bytes@[x] == before.bytes@[x],
    ensures
        is_space(after, root),
        forall|v: u64, k: int|
            0 <= k <= 3 ==> #[trigger] table_at(after.bytes@, root, v, k) == table_at(
                before.bytes@,
                root,
                v,
                k,
            ),
        forall|v: u64| #[trigger]
            walked(after.bytes@, root, v) == walked(before.bytes@, root, v),
        forall|v: u64| #[trigger]
            leaf_at(after.bytes@, root, v) == leaf_at(before.bytes@, root, v),
{
    let m = before.bytes@;
    let w = after.bytes@;
    assert forall|u: u64, l: int, i: int|
        #![trigger table_at(m, root, u, l), entry(w, table_at(m, root, u, l)->0, i)]
        0 <= l <= 3 && 0 <= i < 512 && table_at(m, root, u, l) is Some implies entry(
        w,
        table_at(m, root, u, l)->0,
        i,
    ) == entry(m, table_at(m, root, u, l)->0, i) by {
        let t = table_at(m, root, u, l)->0;
        assert(in_memory(m, t));
        assert forall|x: int| t <= x < t + 4096 implies #[trigger] w[x] == m[x] by {
            assert(table_at(m, root, u, l) matches Some(t) && t <= x < t + 4096);
        }
        super::user::lemma_entry_bytes(m, w, t, i);
    }
    assert forall|v: u64, k: int| 0 <= k <= 3 implies #[trigger] table_at(w, root, v, k)
        == table_at(m, root, v, k) by {
        lemma_same_tables(m, w, root, v, k);
    }
    assert forall|a: u64, l: int, b: u64, k: int|
        #![trigger table_at(w, root, a, l), table_at(w, root, b, k)]
        0 <= l <= 3 && 0 <= k <= 3 && table_at(w, root, a, l) is Some && table_at(w, root, a, l)
            == table_at(w, root, b, k) implies l == k && same_way(a, b, l) by {
        assert(table_at(m, root, a, l) == table_at(m, root, b, k));
    }
    assert forall|v: u64, k: int| 0 <= k <= 3 implies ((#[trigger] table_at(w, root, v, k)) matches Some(
        t,
    ) ==> in_memory(w, t) && is_used(after.pmm->0.bitmap@, t as int / 4096)) by {
        assert(table_at(m, root, v, k) matches Some(t) ==> in_memory(m, t) && is_used(
            before.pmm->0.bitmap@,
            t as int / 4096,
        ));
    }
    assert forall|v: u64| #[trigger] leaf_at(w, root, v) == leaf_at(m, root, v) by {
        assert(table_at(w, root, v, 3) == table_at(m, root, v, 3));
    }
    assert forall|v: u64| #[trigger] walked(w, root, v) == walked(m, root, v) by {
        lemma_walked(m, root, v);
        lemma_walked(w, root, v);
        assert(table_at(w, root, v, 1) == table_at(m, root, v, 1));
        assert(table_at(w, root, v, 2) == table_at(m, root, v, 2));
        assert(table_at(w, root, v, 3) == table_at(m, root, v, 3));
        if table_at(m, root, v, 1) is Some {
            assert(entry(w, table_at(m, root, v, 1)->0, index_of(v, 1)) == entry(
                m,
                table_at(m, root, v, 1)->0,
                index_of(v, 1),
            ));
        }
        if table_at(m, root, v, 2) is Some {
            assert(entry(w, table_at(m, root, v, 2)->0, index_of(v, 2)) == entry(
                m,
                table_at(m, root, v, 2)->0,
                index_of(v, 2),
            ));
        }
        if table_at(m, root, v, 3) is Some {
            assert(entry(w, table_at(m, root, v, 3)->0, index_of(v, 3)) == entry(
                m,
                table_at(m, root, v, 3)->0,
                index_of(v, 3),
            ));
        }
    }
}

/// Where nothing in use has changed, an address space is what it was.
pub proof fn lemma_space_kept(before: PhysicalMemory, after: PhysicalMemory, root: u64)
    requires
        is_space(before, root),
        after.wf(),
        after.pmm is Some,
        after.bytes@.len() == before.bytes@.len(),
        takes_only(before.pmm->0, after.pmm->0),
        forall|x: int|
            0 <= x < before.bytes@.len() && is_used(before.pmm->0.bitmap@, x / 4096)
                ==> #[trigger] after.bytes@[x] == before.bytes@[x],
    ensures
        is_space(after, root),
        forall|v: u64, k: int|
            0 <= k <= 3 ==> #[trigger] table_at(after.bytes@, root, v, k) == table_at(
                before.bytes@,
                root,
                v,
                k,
            ),
        forall|v: u64| #[trigger]
            walked(after.bytes@, root, v) == walked(before.bytes@, root, v),
        forall|v: u64| #[trigger]
            leaf_at(after.bytes@, root, v) == leaf_at(before.bytes@, root, v),
{
    let m = before.bytes@;
    assert forall|v: u64, k: int, x: int|
        #![trigger table_at(m, root, v, k), after.bytes@[x]]
        0 <= k <= 3 && (table_at(m, root, v, k) matches Some(t) && t <= x < t + 4096) implies after.bytes@[x]
        == m[x] by {
        let t = table_at(m, root, v, k)->0;
        assert(in_memory(m, t));
        assert(is_used(before.pmm->0.bitmap@, t as int / 4096));
        assert(x / 4096 == t as int / 4096);
    }
    lemma_tables_kept(before, after, root);
}

} // verus!
