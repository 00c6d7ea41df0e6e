//! Trials of the page tables at start-up.

use vstd::prelude::*;
use crate::bytes::{copy_into, lemma_le64_round_trip, u64_to_le, u64le};
use crate::pmm::{
    alloc_frame, free_frame, free_frame_count, is_used, page_down, PhysicalMemory, Pmm,
};
use super::inside::{
    is_as_before, is_else_kept, lemma_freed_kept, lemma_inside_fresh, lemma_inside_kept,
    lemma_inside_mapped, lemma_inside_twice, lemma_inside_written,
};
use super::layout::lemma_frame_itself;
use super::region::{is_plain, lemma_fresh_plain, lemma_stays_plain};
use super::space::{
    create_address_space, free_user_half, is_fresh_root, is_user_half,
    law_fresh_space_shares_kernel_half, lemma_space_kept, lemma_tables_kept, AddressSpace,
};
use super::{
    adds_tables, entry, in_memory, index_of, is_active, is_clear, is_in_1g, is_kernel_space,
    is_mapped_page, is_space, is_way_byte, keeps_rest, leaf_of, lemma_leaf_present,
    lemma_takes_only, lemma_uc_leaf, map_outcome, map_page, missing_tables, read_entry, takes_only,
    same_way, table_at, translate, unmap_needs_frame, unmap_page, walked, MapError, Vmm, ENTRIES,
    KERNEL_PML4_START, KERNEL_RW, USER_RW,
};
use super::ledger::{
    law_all_frames_come_back, lemma_owns_created, lemma_owns_mapped, lemma_owns_taken,
    lemma_owns_written, lemma_plain_tables,
};

verus! {

/// Where the kernel's page is mapped.
pub const SELF_TEST_VIRT: u64 = 0xffff_ffff_c000_0000;

/// Where a process's page is mapped.
pub const SELF_TEST_USER_VIRT: u64 = 0x0000_0000_0010_0000;

/// How the trial of the kernel's own page tables ended.
#[derive(Clone, Copy, Debug, PartialEq, Eq, Structural)]
pub enum MapTrial {
    NotActive,
    NoFrame,
    /// The page was still there after it was unmapped.
    Survived,
    /// It did not hold what was written, or was not found where it was mapped.
    Mismatch,
    Passed(u64),
}

/// Writing to a page that holds no table leaves an address space as it is.
proof fn lemma_write_plain(a: PhysicalMemory, b: PhysicalMemory, root: u64, phys: u64)
    requires
        is_space(a, root),
        phys % 4096 == 0,
        is_plain(a.bytes@, root, phys as int),
        b.pmm == a.pmm,
        b.wf(),
        b.bytes@.len() == a.bytes@.len(),
        forall|x: int|
            0 <= x < a.bytes@.len() && !(phys <= x < phys + 4096) ==> #[trigger] b.bytes@[x]
                == a.bytes@[x],
    ensures
        is_space(b, root),
        is_plain(b.bytes@, root, phys as int),
        forall|v: u64| #[trigger] walked(b.bytes@, root, v) == walked(a.bytes@, root, v),
        forall|v: u64, k: int|
            0 <= k <= 3 ==> #[trigger] table_at(b.bytes@, root, v, k) == table_at(
                a.bytes@,
                root,
                v,
                k,
            ),
{
    reveal(is_plain);
    let m = a.bytes@;
    assert forall|v: u64, k: int, x: int|
        #![trigger table_at(m, root, v, k), b.bytes@[x]]
        0 <= k <= 3 && (table_at(m, root, v, k) matches Some(t) && t <= x < t + 4096) implies b.bytes@[x]
        == m[x] by {
        let t = table_at(m, root, v, k)->0;
        assert(in_memory(m, t));
        assert(t != page_down(phys as int));
    }
    lemma_tables_kept(a, b, root);
}

/// Write a word to the start of a page, and see whether it is there.
fn write_and_read(mem: &mut PhysicalMemory, phys: u64, v: u64) -> (r: bool)
    requires
        old(mem).wf(),
        phys + 4096 <= old(mem).bytes@.len(),
    ensures
        r,
        final(mem).wf(),
        final(mem).hhdm == old(mem).hhdm,
        final(mem).pmm == old(mem).pmm,
        final(mem).bytes@.len() == old(mem).bytes@.len(),
        forall|x: int|
            0 <= x < old(mem).bytes@.len() && !(phys <= x < phys + 4096)
                ==> #[trigger] final(mem).bytes@[x] == old(mem).bytes@[x],
{
    let size: usize = mem.bytes.len();
    proof {
        lemma_le64_round_trip(v);
    }
    copy_into(mem.bytes.as_mut_slice(), phys as usize, u64_to_le(v).as_slice());
    u64le(mem.bytes.as_slice(), phys as usize) == v
}

/// What the trial of the kernel's page tables comes to: whether there is a frame for the
/// page, or why it cannot be mapped then.
pub open spec fn map_trial(mem: PhysicalMemory, root: u64) -> Result<bool, MapError> {
    if mem.pmm->0.free_frames == 0 {
        Ok(false)
    } else if !is_clear(mem.bytes@, root, SELF_TEST_VIRT) {
        Err(MapError::HugePage)
    } else if mem.pmm->0.free_frames - 1 < missing_tables(mem.bytes@, root, SELF_TEST_VIRT) {
        Err(MapError::OutOfMemory)
    } else {
        Ok(true)
    }
}

/// Whether the frame at `p` was taken for a page that was mapped, and unmapped again: the
/// tables that were missing for the page stay, and nothing is mapped there.
pub open spec fn is_map_trial(
    before: PhysicalMemory,
    after: PhysicalMemory,
    root: u64,
    p: u64,
) -> bool {
    &&& exists|next: Pmm| #[trigger] before.pmm->0.gave_one(next, p)
    &&& table_at(after.bytes@, root, SELF_TEST_VIRT, 3) is Some
    &&& after.pmm->0.free_frames == before.pmm->0.free_frames - missing_tables(
        before.bytes@,
        root,
        SELF_TEST_VIRT,
    )
    &&& takes_only(before.pmm->0, after.pmm->0)
    &&& forall|v: u64| #[trigger]
        walked(after.bytes@, root, v) == if same_way(v, SELF_TEST_VIRT, 4) {
            None
        } else {
            walked(before.bytes@, root, v)
        }
}

/// What the steps of the trial leave alone.
#[verifier::spinoff_prover]
proof fn lemma_trial_keeps(
    m0: PhysicalMemory,
    m1: PhysicalMemory,
    m2: PhysicalMemory,
    m3: PhysicalMemory,
    m4: PhysicalMemory,
    root: u64,
    phys: u64,
    leaf: u64,
)
    requires
        is_space(m0, root),
        is_space(m2, root),
        m0.pmm->0.gave_one(m1.pmm->0, phys),
        m1.bytes == m0.bytes,
        is_mapped_page(m1, m2, root, SELF_TEST_VIRT, leaf),
        m3.pmm == m2.pmm,
        m3.bytes@.len() == m2.bytes@.len(),
        forall|v: u64, k: int|
            0 <= k <= 3 ==> #[trigger] table_at(m3.bytes@, root, v, k) == table_at(
                m2.bytes@,
                root,
                v,
                k,
            ),
        forall|x: int|
            0 <= x < m2.bytes@.len() && !(phys <= x < phys + 4096) ==> #[trigger] m3.bytes@[x]
                == m2.bytes@[x],
        keeps_rest(m3, m4, root, SELF_TEST_VIRT),
    ensures
        keeps_rest(m0, m4, root, SELF_TEST_VIRT),
{
    lemma_takes_only(m0.pmm->0, m1.pmm->0, phys);
    assert forall|x: int|
        0 <= x < m0.bytes@.len() && is_used(m0.pmm->0.bitmap@, x / 4096) && !is_way_byte(
            m0.bytes@,
            root,
            SELF_TEST_VIRT,
            x,
        ) implies #[trigger] m4.bytes@[x] == m0.bytes@[x] by {
        assert(0 <= x / 4096 < m0.pmm->0.total_frames);
        assert(is_used(m1.pmm->0.bitmap@, x / 4096));
        assert(is_used(m2.pmm->0.bitmap@, x / 4096));
        assert(m2.bytes@[x] == m1.bytes@[x]);
        if phys <= x < phys + 4096 {
            assert(x / 4096 == phys as int / 4096);
        }
        if is_way_byte(m3.bytes@, root, SELF_TEST_VIRT, x) {
            let l = choose|l: int|
                0 <= l <= 3 && ((#[trigger] table_at(m3.bytes@, root, SELF_TEST_VIRT, l)) matches
                    Some(t) && t <= x < t + 4096);
            let t = table_at(m3.bytes@, root, SELF_TEST_VIRT, l)->0;
            assert(table_at(m2.bytes@, root, SELF_TEST_VIRT, l) == Some(t));
            assert(in_memory(m2.bytes@, t));
            assert(x / 4096 == t as int / 4096);
            reveal(adds_tables);
            assert(table_at(m1.bytes@, root, SELF_TEST_VIRT, l) == Some(t));
        }
    }
}

/// A page of the kernel's is mapped, written, found, and unmapped again. The outer
/// error tells that it could not be mapped.
pub fn self_test(mem: &mut PhysicalMemory, vmm: &Option<Vmm>) -> (r: Result<MapTrial, MapError>)
    requires
        is_kernel_space(*old(mem), *vmm),
    ensures
        is_kernel_space(*final(mem), *vmm),
        final(mem).hhdm == old(mem).hhdm,
        match *vmm {
            None => r == Ok::<MapTrial, MapError>(MapTrial::NotActive) && *final(mem) == *old(mem),
            Some(k) => {
                let root = k.pml4_phys;
                &&& match map_trial(*old(mem), root) {
                    Ok(true) => r matches Ok(MapTrial::Passed(p)) && is_map_trial(
                        *old(mem),
                        *final(mem),
                        root,
                        p,
                    ),
                    Ok(false) => r == Ok::<MapTrial, MapError>(MapTrial::NoFrame) && *final(mem)
                        == *old(mem),
                    Err(e) => r == Err::<MapTrial, MapError>(e) && forall|v: u64| #[trigger]
                        walked(final(mem).bytes@, root, v) == walked(old(mem).bytes@, root, v),
                }
                &&& keeps_rest(*old(mem), *final(mem), root, SELF_TEST_VIRT)
            },
        },
{
    let ghost m0 = *mem;
    let ghost root = vmm->0.pml4_phys;
    if !is_active(vmm) {
        return Ok(MapTrial::NotActive);
    }
    let phys: u64 = match alloc_frame(mem) {
        Some(phys) => phys,
        None => {
            return Ok(MapTrial::NoFrame);
        },
    };
    let ghost m1 = *mem;
    proof {
        lemma_takes_only(m0.pmm->0, m1.pmm->0, phys);
        lemma_space_kept(m0, m1, root);
        lemma_fresh_plain(m0, root, phys);
        assert(is_plain(m1.bytes@, root, phys as int)) by {
            reveal(is_plain);
        }
        assert(is_used(m1.pmm->0.bitmap@, phys as int / 4096)) by {
            assert(0 <= phys as int / 4096 < m0.pmm->0.bitmap@.len() * 64);
        }
        assert(phys + 4096 <= m1.bytes@.len());
    }
    map_page(mem, vmm, SELF_TEST_VIRT, phys, KERNEL_RW)?;
    let ghost m2 = *mem;
    proof {
        lemma_stays_plain(m1, m2, root, phys as int);
        lemma_uc_leaf(phys);
        lemma_frame_itself(phys);
        assert(same_way(SELF_TEST_VIRT, SELF_TEST_VIRT, 4));
        assert(walked(m2.bytes@, root, SELF_TEST_VIRT) == Some(phys));
    }
    let mut ok: bool = write_and_read(mem, phys, 0xcafe_f00d_1234_5678);
    let ghost m3 = *mem;
    proof {
        lemma_write_plain(m2, m3, root, phys);
    }
    match translate(mem, vmm, SELF_TEST_VIRT) {
        Some(p) => {
            ok = ok && p == phys;
        },
        None => {
            ok = false;
        },
    }
    proof {
        assert(table_at(m3.bytes@, root, SELF_TEST_VIRT, 3) is Some);
        reveal_with_fuel(table_at, 4);
        assert(!unmap_needs_frame(m3.bytes@, root, SELF_TEST_VIRT));
        assert(!is_in_1g(m3.bytes@, root, SELF_TEST_VIRT));
    }
    let unmapped: Result<(), MapError> = unmap_page(mem, vmm, SELF_TEST_VIRT);
    let ghost m4 = *mem;
    proof {
        lemma_stays_plain(m3, m4, root, phys as int);
        assert(walked(m4.bytes@, root, SELF_TEST_VIRT) is None);
    }
    let _given = free_frame(mem, phys);
    proof {
        lemma_plain_given(m4, *mem, root, phys);
        lemma_trial_keeps(m0, m1, m2, m3, m4, root, phys, leaf_of(phys, KERNEL_RW));
        lemma_given_back(m0, m1, m4, *mem, phys);
        assert(table_at(m4.bytes@, root, SELF_TEST_VIRT, 3) is Some);
    }
    if translate(mem, vmm, SELF_TEST_VIRT).is_some() {
        return Ok(MapTrial::Survived);
    }
    assert forall|v: u64| #[trigger] walked(mem.bytes@, root, v) == if same_way(
        v,
        SELF_TEST_VIRT,
        4,
    ) {
        None
    } else {
        walked(m0.bytes@, root, v)
    } by {
        assert(walked(m4.bytes@, root, v) == if same_way(v, SELF_TEST_VIRT, 4) {
            None
        } else {
            walked(m3.bytes@, root, v)
        });
        assert(walked(m3.bytes@, root, v) == walked(m2.bytes@, root, v));
        if !same_way(v, SELF_TEST_VIRT, 4) {
            assert(walked(m2.bytes@, root, v) == walked(m1.bytes@, root, v));
        }
        assert(walked(m1.bytes@, root, v) == walked(m0.bytes@, root, v));
    }
    if ok {
        Ok(MapTrial::Passed(phys))
    } else {
        Ok(MapTrial::Mismatch)
    }
}

/// Taking back a frame that holds no table leaves an address space as it is.
proof fn lemma_plain_given(a: PhysicalMemory, b: PhysicalMemory, root: u64, phys: u64)
    requires
        is_space(a, root),
        is_plain(a.bytes@, root, phys as int),
        phys % 4096 == 0,
        b.wf(),
        b.pmm is Some,
        b.same_bytes(a),
        a.pmm->0.took_back(b.pmm->0, phys, 1),
    ensures
        is_space(b, root),
{
    reveal(is_plain);
    let n = phys as int / 4096;
    let m = a.bytes@;
    assert(b.bytes@ == m);
    assert forall|v: u64, k: int| 0 <= k <= 3 implies ((#[trigger] table_at(b.bytes@, root, v, k)) matches Some(
        t,
    ) ==> is_used(b.pmm->0.bitmap@, t as int / 4096)) by {
        if let Some(t) = table_at(m, root, v, k) {
            assert(in_memory(m, t));
            assert(t != page_down(phys as int));
            assert(t as int / 4096 != n);
            assert(is_used(a.pmm->0.bitmap@, t as int / 4096));
            assert(t as int / 4096 < a.pmm->0.total_frames);
        }
    }
}

/// A frame that was taken and given back is free as it was.
proof fn lemma_given_back(
    m0: PhysicalMemory,
    m1: PhysicalMemory,
    m4: PhysicalMemory,
    m5: PhysicalMemory,
    phys: u64,
)
    requires
        m0.wf(),
        m0.pmm is Some,
        m0.pmm->0.gave_one(m1.pmm->0, phys),
        m1.wf(),
        m1.pmm is Some,
        takes_only(m1.pmm->0, m4.pmm->0),
        m4.wf(),
        m4.pmm is Some,
        m4.pmm->0.took_back(m5.pmm->0, phys, 1),
    ensures
        takes_only(m0.pmm->0, m5.pmm->0),
        m5.pmm->0.free_frames == m4.pmm->0.free_frames + 1,
{
    lemma_takes_only(m0.pmm->0, m1.pmm->0, phys);
    let n = phys as int / 4096;
    assert(0 <= n < m0.pmm->0.bitmap@.len() * 64);
    assert(is_used(m1.pmm->0.bitmap@, n));
    assert(is_used(m4.pmm->0.bitmap@, n));
    assert(m4.pmm->0.free_result(phys, 1) is Ok);
    assert forall|f: int|
        0 <= f < m0.pmm->0.total_frames && is_used(m0.pmm->0.bitmap@, f) implies #[trigger] is_used(
        m5.pmm->0.bitmap@,
        f,
    ) by {
        assert(is_used(m1.pmm->0.bitmap@, f));
        assert(is_used(m4.pmm->0.bitmap@, f));
        assert(f != n);
    }
}

/// How the trial of a process's address space ended.
#[derive(Clone, Copy, Debug, PartialEq, Eq, Structural)]
pub enum SpaceTrial {
    NotActive,
    NotCreated,
    /// The user half is not empty at this place.
    UserHalfNotEmpty(usize),
    KernelHalfDiffers,
    /// The new address space disagrees with the kernel on a kernel address.
    Disagrees,
    NoFrame,
    /// A page of the process's did not hold what was written.
    NotReadBack,
    /// The number of free frames, before and after.
    Leaked(usize, usize),
    Passed(usize),
}

/// The first entry of the user half that is not empty.
fn first_user_entry(mem: &PhysicalMemory, root: u64) -> (r: Option<usize>)
    requires
        in_memory(mem.bytes@, root),
    ensures
        match r {
            Some(i) => i < 256 && entry(mem.bytes@, root, i as int) != 0,
            None => forall|i: int| 0 <= i < 256 ==> #[trigger] entry(mem.bytes@, root, i) == 0,
        },
{
    let mut i: usize = 0;
    while i < KERNEL_PML4_START
        invariant
            i <= 256,
            in_memory(mem.bytes@, root),
            forall|j: int| 0 <= j < i ==> #[trigger] entry(mem.bytes@, root, j) == 0,
        decreases 256 - i,
    {
        if read_entry(mem, root, i) != 0 {
            return Some(i);
        }
        i += 1;
    }
    None
}

/// Whether two top-level tables have the same kernel half.
fn has_same_kernel_half(mem: &PhysicalMemory, a: u64, b: u64) -> (r: bool)
    requires
        in_memory(mem.bytes@, a),
        in_memory(mem.bytes@, b),
    ensures
        r == forall|i: int|
            256 <= i < 512 ==> #[trigger] entry(mem.bytes@, a, i) == entry(mem.bytes@, b, i),
{
    let mut i: usize = KERNEL_PML4_START;
    while i < ENTRIES
        invariant
            256 <= i <= 512,
            in_memory(mem.bytes@, a),
            in_memory(mem.bytes@, b),
            forall|j: int|
                256 <= j < i ==> #[trigger] entry(mem.bytes@, a, j) == entry(mem.bytes@, b, j),
        decreases 512 - i,
    {
        if read_entry(mem, a, i) != read_entry(mem, b, i) {
            assert(entry(mem.bytes@, a, i as int) != entry(mem.bytes@, b, i as int));
            return false;
        }
        i += 1;
    }
    true
}

/// A new address space has an empty user half and the kernel's own kernel half; a
/// page of its own can be mapped, written and read; and when it goes, its frames come
/// back. `probe` is an address of the kernel's. The outer error tells that the page
/// could not be mapped.
pub fn address_space_self_test(mem: &mut PhysicalMemory, vmm: &Option<Vmm>, probe: u64) -> (r: Result<
    SpaceTrial,
    MapError,
>)
    requires
        is_kernel_space(*old(mem), *vmm),
        old(mem).wf(),
        !is_user_half(probe),
    ensures
        is_else_kept(*old(mem), *final(mem), *vmm),
        vmm is None ==> *final(mem) == *old(mem),
        vmm is None <==> r == Ok::<SpaceTrial, MapError>(SpaceTrial::NotActive),
        vmm matches Some(k) ==> {
            let free = old(mem).pmm->0.free_frames;
            &&& r == Ok::<SpaceTrial, MapError>(SpaceTrial::NotCreated) <==> free == 0
            &&& r == Ok::<SpaceTrial, MapError>(SpaceTrial::NoFrame) <==> free == 1
            &&& r is Err <==> 2 <= free < 5
            &&& match r {
                Ok(SpaceTrial::NotCreated) | Ok(SpaceTrial::NoFrame) => true,
                Ok(SpaceTrial::Passed(n)) => n == free,
                Ok(_) => false,
                Err(e) => e == MapError::OutOfMemory,
            }
            &&& r is Ok ==> final(mem).pmm->0.free_frames == free && is_as_before(
                *old(mem),
                *final(mem),
            )
        },
{
    let ghost m0 = *mem;
    let ghost kernel = vmm->0.pml4_phys;
    let kernel_root: u64 = match vmm {
        Some(k) => k.pml4_phys,
        None => {
            return Ok(SpaceTrial::NotActive);
        },
    };
    let before: usize = free_frame_count(mem);
    let aspace: AddressSpace = match create_address_space(mem, vmm) {
        Some(a) => a,
        None => {
            return Ok(SpaceTrial::NotCreated);
        },
    };
    let ghost m1 = *mem;
    let root: u64 = aspace.phys();
    proof {
        assert(table_at(m1.bytes@, root, 0, 0) == Some(root));
        assert(table_at(m1.bytes@, kernel, 0, 0) == Some(kernel));
        law_fresh_space_shares_kernel_half(m1.bytes@, root, kernel, probe);
        lemma_owns_created(m0, m1, root, kernel);
        lemma_inside_kept(m1, m1, root);
        lemma_inside_fresh(m0, m1, m1, root, kernel);
    }
    match first_user_entry(mem, root) {
        Some(i) => {
            return Ok(SpaceTrial::UserHalfNotEmpty(i));
        },
        None => {},
    }
    if !has_same_kernel_half(mem, root, kernel_root) {
        return Ok(SpaceTrial::KernelHalfDiffers);
    }
    if !same_place(aspace.translate(mem, probe), translate(mem, vmm, probe)) {
        return Ok(SpaceTrial::Disagrees);
    }
    let phys: u64 = match alloc_frame(mem) {
        Some(phys) => phys,
        None => {
            free_user_half(mem, aspace);
            proof {
                law_all_frames_come_back(m0.pmm->0, m1, *mem, root);
                lemma_freed_kept(m0, m1, *mem, kernel);
            }
            return Ok(SpaceTrial::NoFrame);
        },
    };
    let ghost m2 = *mem;
    proof {
        lemma_takes_only(m1.pmm->0, m2.pmm->0, phys);
        lemma_space_kept(m1, m2, root);
        lemma_fresh_plain(m1, root, phys);
        assert(is_plain(m2.bytes@, root, phys as int)) by {
            reveal(is_plain);
        }
        assert(is_used(m2.pmm->0.bitmap@, phys as int / 4096)) by {
            assert(0 <= phys as int / 4096 < m1.pmm->0.bitmap@.len() * 64);
        }
        assert(phys + 4096 <= m2.bytes@.len());
        lemma_fresh_user_map(m2, root, kernel, SELF_TEST_USER_VIRT);
        lemma_inside_kept(m1, m2, root);
        lemma_inside_fresh(m0, m1, m2, root, kernel);
        lemma_owns_taken(m0.pmm->0, m1, m2, root, Set::empty(), phys);
    }
    aspace.map(mem, SELF_TEST_USER_VIRT, phys, USER_RW)?;
    let ghost m3 = *mem;
    proof {
        let leaf = leaf_of(phys, USER_RW);
        let loose = Set::<u64>::empty().insert(phys);
        lemma_leaf_present(phys, USER_RW);
        lemma_uc_leaf(phys);
        lemma_frame_itself(phys);
        lemma_owns_mapped(m0.pmm->0, m2, m3, root, loose, SELF_TEST_USER_VIRT, leaf);
        lemma_inside_mapped(m2, m3, root, SELF_TEST_USER_VIRT, leaf);
        lemma_inside_twice(m1, m2, m3, root);
        assert(loose.remove(phys) =~= Set::empty());
        lemma_stays_plain(m2, m3, root, phys as int);
        lemma_uc_leaf(phys);
        lemma_frame_itself(phys);
        assert(same_way(SELF_TEST_USER_VIRT, SELF_TEST_USER_VIRT, 4));
    }
    let ok: bool = match aspace.translate(mem, SELF_TEST_USER_VIRT) {
        Some(p) => p == phys && write_and_read(mem, phys, 0xa11c_0a11_c0de_5a5a),
        None => false,
    };
    proof {
        lemma_write_plain(m3, *mem, root, phys);
        lemma_plain_tables(m3, *mem, root, phys);
        lemma_owns_written(m0.pmm->0, m3, *mem, root, Set::empty());
        lemma_inside_written(m1, m3, *mem, root, phys);
        lemma_inside_fresh(m0, m1, *mem, root, kernel);
    }
    if !ok {
        return Ok(SpaceTrial::NotReadBack);
    }
    let ghost m4 = *mem;
    free_user_half(mem, aspace);
    proof {
        law_all_frames_come_back(m0.pmm->0, m4, *mem, root);
        lemma_freed_kept(m0, m4, *mem, kernel);
    }
    let after: usize = free_frame_count(mem);
    if after != before {
        return Ok(SpaceTrial::Leaked(before, after));
    }
    Ok(SpaceTrial::Passed(after))
}

/// Whether two translations are the same.
fn same_place(a: Option<u64>, b: Option<u64>) -> (r: bool)
    ensures
        r == (a == b),
{
    match (a, b) {
        (Some(p), Some(q)) => p == q,
        (None, None) => true,
        _ => false,
    }
}

/// A page in the user half of a fresh address space takes three tables.
proof fn lemma_fresh_user_map(mem: PhysicalMemory, root: u64, kernel: u64, virt: u64)
    requires
        is_fresh_root(mem.bytes@, root, kernel),
        virt == SELF_TEST_USER_VIRT,
    ensures
        is_user_half(virt),
        walked(mem.bytes@, root, virt) is None,
        map_outcome(mem, root, virt) == if mem.pmm->0.free_frames < 3 {
            Err::<(), MapError>(MapError::OutOfMemory)
        } else {
            Ok(())
        },
{
    assert(index_of(virt, 0) == 0);
    assert(entry(mem.bytes@, root, 0) == 0);
    super::lemma_zero_entry();
    reveal_with_fuel(table_at, 4);
    super::lemma_walked(mem.bytes@, root, virt);
}

} // verus!
