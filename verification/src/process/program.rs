//! Making a process out of an executable.

use vstd::prelude::*;
use vstd::arithmetic::div_mod::{lemma_hoist_over_denominator, lemma_mod_multiples_vanish};
use super::stack::{
    build_stack, is_stack, is_stack_room, stack_byte, stack_page, stack_pointer, USER_STACK_TOP,
};
use super::{register, ProcessTable, SpawnError};
use crate::block::BlockDevice;
use crate::elf::accounts::is_room;
use crate::elf::install::{
    frames_for, is_loaded, is_way_clear, load_fault, page_flags, touched_pages,
};
use crate::elf::loader::{
    byte_of, is_page_executable, is_page_writable, is_placed, is_touched,
};
use crate::elf::{all_fit, load, parsed, Segment, LOAD_MAX};
use crate::pmm::{is_used, page_down, page_up, PhysicalMemory};
use crate::syscall::calls::is_process;
use crate::vfs::files::{may_fail, whole_result};
use crate::vfs::{read_all, Vfs};
use crate::vmm::closed::{
    is_closed, law_kernel_half_is_out_of_reach, lemma_closed_fresh, lemma_closed_same,
};
use crate::vmm::inside::{
    is_as_before, is_else_kept, lemma_freed_kept, lemma_inside_fresh, lemma_inside_twice,
    shares_kernel_half, stays_inside,
};
use crate::vmm::ledger::{
    law_all_frames_come_back, lemma_owns_created, lemma_used_tables, owns,
};
use crate::vmm::region::is_plain;
use crate::vmm::space::{
    create_address_space, free_user_half, is_fresh_root, is_user_half,
    law_fresh_space_shares_kernel_half, lemma_fresh_tables, lemma_fresh_user_frames,
    lemma_space_kept, took_back_all, user_frame, AddressSpace, USER_END,
};
use crate::vmm::tables::{adds_for, is_passed_by, lemma_all_missing, reach, tables_for};
use crate::vmm::user::{
    lemma_entry_bytes, lemma_user_walk_kept, lemma_user_walked, user_apart_from_tables, user_walked,
};
use crate::vmm::{
    entry, huge_at, in_memory, index_of, is_clear, is_kernel_space, is_space, leaf_at, leaf_of,
    lemma_takes_only, lemma_zero_entry, missing_tables, table_at, tables_in_memory, takes_only,
    walked, MapError, Vmm, NO_EXECUTE, USER_RO, USER_RW, USER_RX, WRITABLE,
};

verus! {

/// A program that is ready to run: what the thread that runs it needs.
pub struct Program {
    pub aspace: AddressSpace,
    /// Where it starts.
    pub entry: u64,
    /// Its stack pointer.
    pub rsp: u64,
}

/// Whether an address space was created: its top-level table is a frame that was
/// free, empty in the user half and shared with the kernel elsewhere.
pub open spec fn is_created(m0: PhysicalMemory, m1: PhysicalMemory, kernel: u64, root: u64) -> bool {
    &&& is_space(m1, kernel)
    &&& is_space(m1, root)
    &&& m1.hhdm == m0.hhdm
    &&& is_fresh_root(m1.bytes@, root, kernel)
    &&& m0.pmm->0.gave_one(m1.pmm->0, root)
}

/// An address space into which nothing was loaded gives back all that was taken.
#[verifier::spinoff_prover]
pub proof fn lemma_refused(
    m0: PhysicalMemory,
    m1: PhysicalMemory,
    m2: PhysicalMemory,
    m3: PhysicalMemory,
    kernel: u64,
    root: u64,
)
    requires
        m0.wf(),
        m0.pmm is Some,
        is_created(m0, m1, kernel, root),
        is_placed(m1, m2, Seq::empty()) || m2 == m1,
        took_back_all(m2, m3, |p: u64| user_frame(m2.bytes@, root, p)),
    ensures
        is_as_before(m0, m3),
{
    assert(m1.pmm->0.total_frames == m0.pmm->0.total_frames);
    let a = m1.bytes@;
    let b = m2.bytes@;
    assert(table_at(a, root, 0, 0) == Some(root));
    assert(table_at(a, kernel, 0, 0) == Some(kernel));
    assert(in_memory(a, root) && in_memory(a, kernel));
    assert(is_used(m1.pmm->0.bitmap@, root as int / 4096));
    assert(is_used(m1.pmm->0.bitmap@, kernel as int / 4096));
    assert forall|i: int| 0 <= i < 512 implies #[trigger] entry(b, root, i) == entry(a, root, i) && entry(
        b,
        kernel,
        i,
    ) == entry(a, kernel, i) by {
        assert forall|x: int| root <= x < root + 4096 implies #[trigger] b[x] == a[x] by {
            assert(x / 4096 == root as int / 4096);
        }
        assert forall|x: int| kernel <= x < kernel + 4096 implies #[trigger] b[x] == a[x] by {
            assert(x / 4096 == kernel as int / 4096);
        }
        lemma_entry_bytes(a, b, root, i);
        lemma_entry_bytes(a, b, kernel, i);
    }
    assert(is_fresh_root(b, root, kernel));
    assert forall|f: int| 0 <= f < m0.pmm->0.total_frames implies #[trigger] is_used(
        m3.pmm->0.bitmap@,
        f,
    ) == is_used(m0.pmm->0.bitmap@, f) by {
        let p = (f * 4096) as u64;
        assert(f * 4096 <= u64::MAX);
        lemma_fresh_user_frames(b, root, kernel, p);
        assert(0 <= f < m0.pmm->0.bitmap@.len() * 64);
        assert(is_used(m2.pmm->0.bitmap@, f) == is_used(m1.pmm->0.bitmap@, f)) by {
            if m2 != m1 {
                assert(!crate::elf::loader::has_frame(Seq::empty(), f * 4096));
            }
        }
        assert(p == root <==> f == root as int / 4096);
    }
}

/// Building the stack leaves the program that was loaded as it is.
pub proof fn law_stack_leaves_the_program_alone(
    m1: PhysicalMemory,
    m2: PhysicalMemory,
    m3: PhysicalMemory,
    root: u64,
    image: Seq<u8>,
    s: Seq<Segment>,
    name: Seq<u8>,
)
    requires
        m1.wf(),
        m1.pmm is Some,
        is_loaded(m1, m2, root, image, s),
        is_stack(m2, m3, root, name),
    ensures
        forall|v: u64|
            v < LOAD_MAX && is_touched(s, s.len() as int, page_down(v as int)) ==> {
                &&& (#[trigger] walked(m3.bytes@, root, v)) == walked(m2.bytes@, root, v)
                &&& m3.bytes@[walked(m2.bytes@, root, v)->0 as int]
                    == m2.bytes@[walked(m2.bytes@, root, v)->0 as int]
                &&& leaf_at(m3.bytes@, root, page_down(v as int) as u64) == leaf_at(
                    m2.bytes@,
                    root,
                    page_down(v as int) as u64,
                )
            },
{
    reveal(is_loaded);
    reveal(is_stack);
    let n = s.len() as int;
    assert forall|v: u64| v < LOAD_MAX && is_touched(s, n, page_down(v as int)) implies {
        &&& (#[trigger] walked(m3.bytes@, root, v)) == walked(m2.bytes@, root, v)
        &&& m3.bytes@[walked(m2.bytes@, root, v)->0 as int]
            == m2.bytes@[walked(m2.bytes@, root, v)->0 as int]
        &&& leaf_at(m3.bytes@, root, page_down(v as int) as u64) == leaf_at(
            m2.bytes@,
            root,
            page_down(v as int) as u64,
        )
    } by {
        assert(walked(m3.bytes@, root, v) == walked(m2.bytes@, root, v));
        let p = walked(m2.bytes@, root, v)->0;
        assert(is_plain(m2.bytes@, root, p as int));
        assert(is_used(m2.pmm->0.bitmap@, p as int / 4096));
    }
}

/// Whether a program is in an address space of its own, with its stack, and
/// nothing else is: every page that a segment touches holds the bytes of the file
/// and zeros elsewhere, with the permissions of the segments there, and the stack
/// is as the program expects it. None of its frames was in use before or holds a
/// page table, and every frame taken since is its own.
pub open spec fn is_ready(
    m0: PhysicalMemory,
    m: PhysicalMemory,
    p: Program,
    image: Seq<u8>,
    name: Seq<u8>,
) -> bool {
    let root = p.aspace.pml4_phys;
    let (start, s) = parsed(image)->Ok_0;
    let n = s.len() as int;
    let bottom = USER_STACK_TOP - 16 * 4096;
    &&& parsed(image) is Ok
    &&& p.entry == start
    &&& p.rsp == stack_pointer(name)
    &&& is_space(m, root)
    &&& m.hhdm == m0.hhdm
    &&& takes_only(m0.pmm->0, m.pmm->0)
    &&& owns(m0.pmm->0, m, root, Set::empty())
    &&& forall|v: u64|
        v < LOAD_MAX && is_touched(s, n, page_down(v as int)) ==> {
            &&& (#[trigger] walked(m.bytes@, root, v)) matches Some(x)
            &&& x < m.bytes@.len()
            &&& m.bytes@[x as int] == byte_of(image, s, n, v as int)
            &&& !is_used(m0.pmm->0.bitmap@, x as int / 4096)
            &&& is_used(m.pmm->0.bitmap@, x as int / 4096)
            &&& is_plain(m.bytes@, root, x as int)
            &&& leaf_at(m.bytes@, root, page_down(v as int) as u64) == Some(
                leaf_of(
                    page_down(x as int) as u64,
                    page_flags(
                        is_page_writable(s, n, page_down(v as int)),
                        is_page_executable(s, n, page_down(v as int)),
                    ),
                ),
            )
        }
    &&& forall|v: u64|
        bottom <= v < USER_STACK_TOP ==> {
            &&& (#[trigger] walked(m.bytes@, root, v)) matches Some(x)
            &&& x < m.bytes@.len()
            &&& m.bytes@[x as int] == stack_byte(name, v as int)
            &&& !is_used(m0.pmm->0.bitmap@, x as int / 4096)
            &&& is_used(m.pmm->0.bitmap@, x as int / 4096)
            &&& is_plain(m.bytes@, root, x as int)
            &&& leaf_at(m.bytes@, root, page_down(v as int) as u64) == Some(
                leaf_of(page_down(x as int) as u64, USER_RW),
            )
        }
    &&& forall|v: u64|
        v < USER_END && !is_touched(s, n, page_down(v as int)) && !(bottom <= v < USER_STACK_TOP)
            ==> #[trigger] walked(m.bytes@, root, v) is None
}

/// A program came to be in three steps: its address space was created, it was
/// loaded there, and its stack was built.
#[verifier::spinoff_prover]
proof fn lemma_ready(
    m0: PhysicalMemory,
    m1: PhysicalMemory,
    m2: PhysicalMemory,
    m: PhysicalMemory,
    kernel: u64,
    p: Program,
    image: Seq<u8>,
    name: Seq<u8>,
    s: Seq<Segment>,
)
    requires
        m0.wf(),
        m0.pmm is Some,
        parsed(image) == Ok::<(u64, Seq<Segment>), crate::elf::ElfError>((p.entry, s)),
        p.rsp == stack_pointer(name),
        is_created(m0, m1, kernel, p.aspace.pml4_phys),
        is_loaded(m1, m2, p.aspace.pml4_phys, image, s),
        is_stack(m2, m, p.aspace.pml4_phys, name),
        owns(m0.pmm->0, m, p.aspace.pml4_phys, Set::empty()),
    ensures
        is_ready(m0, m, p, image, name),
{
    let root = p.aspace.pml4_phys;
    let n = s.len() as int;
    law_stack_leaves_the_program_alone(m1, m2, m, root, image, s, name);
    reveal(is_loaded);
    reveal(is_stack);
    let bottom = USER_STACK_TOP - 16 * 4096;
    lemma_takes_only(m0.pmm->0, m1.pmm->0, root);
    assert forall|f: int|
        0 <= f < m0.pmm->0.total_frames && is_used(m0.pmm->0.bitmap@, f) implies #[trigger] is_used(
        m.pmm->0.bitmap@,
        f,
    ) && is_used(m1.pmm->0.bitmap@, f) && is_used(m2.pmm->0.bitmap@, f) by {
        assert(is_used(m1.pmm->0.bitmap@, f));
        assert(is_used(m2.pmm->0.bitmap@, f));
    }
    assert forall|v: u64| v < LOAD_MAX && is_touched(s, n, page_down(v as int)) implies {
        &&& (#[trigger] walked(m.bytes@, root, v)) matches Some(x)
        &&& walked(m2.bytes@, root, v) == Some(x)
        &&& !is_used(m0.pmm->0.bitmap@, x as int / 4096)
        &&& is_used(m.pmm->0.bitmap@, x as int / 4096)
        &&& is_plain(m.bytes@, root, x as int)
    } by {
        let x = walked(m2.bytes@, root, v)->0;
        assert(0 <= x as int / 4096 < m0.pmm->0.total_frames);
        assert(is_plain(m2.bytes@, root, x as int));
        assert(is_used(m2.pmm->0.bitmap@, x as int / 4096));
        assert(is_used(m.pmm->0.bitmap@, x as int / 4096));
    }
    assert forall|v: u64| bottom <= v < USER_STACK_TOP implies {
        &&& (#[trigger] walked(m.bytes@, root, v)) matches Some(x)
        &&& !is_used(m0.pmm->0.bitmap@, x as int / 4096)
    } by {
        let x = walked(m.bytes@, root, v)->0;
        assert(0 <= x as int / 4096 < m0.pmm->0.total_frames);
    }
    assert forall|v: u64|
        v < USER_END && !is_touched(s, n, page_down(v as int)) && !(bottom <= v < USER_STACK_TOP) implies #[trigger] walked(
        m.bytes@,
        root,
        v,
    ) is None by {
        assert(walked(m2.bytes@, root, v) == walked(m1.bytes@, root, v));
        law_fresh_space_shares_kernel_half(m1.bytes@, root, kernel, v);
        assert(is_user_half(v));
    }
}

/// In a new address space there is room for any executable that is accepted.
pub proof fn lemma_room(m: Seq<u8>, root: u64, kernel: u64, s: Seq<Segment>)
    requires
        is_fresh_root(m, root, kernel),
    ensures
        is_room(m, root, s),
{
    assert forall|v: u64|
        v < LOAD_MAX && is_touched(s, s.len() as int, page_down(v as int)) implies #[trigger] walked(
        m,
        root,
        v,
    ) is None by {
        law_fresh_space_shares_kernel_half(m, root, kernel, v);
        assert(is_user_half(v));
    }
}

/// An executable leaves room for the stack.
proof fn lemma_stack_room(
    m1: PhysicalMemory,
    m2: PhysicalMemory,
    root: u64,
    kernel: u64,
    image: Seq<u8>,
    s: Seq<Segment>,
)
    requires
        is_fresh_root(m1.bytes@, root, kernel),
        is_loaded(m1, m2, root, image, s),
        all_fit(image, s),
    ensures
        is_stack_room(m2.bytes@, root),
{
    reveal(is_loaded);
    let n = s.len() as int;
    assert forall|v: u64| USER_STACK_TOP - 16 * 4096 <= v < USER_STACK_TOP implies #[trigger] walked(
        m2.bytes@,
        root,
        v,
    ) is None by {
        let d = page_down(v as int);
        if is_touched(s, n, d) {
            let j = choose|j: int| 0 <= j < n && (#[trigger] s[j]).touches(d);
            assert(s[j].fault(image.len() as int) is None);
            assert(page_up(s[j].end()) <= LOAD_MAX);
        }
        assert(walked(m2.bytes@, root, v) == walked(m1.bytes@, root, v));
        law_fresh_space_shares_kernel_half(m1.bytes@, root, kernel, v);
        assert(is_user_half(v));
    }
}

/// All that a program has, from its page tables to its stack, comes back when its
/// address space is torn down: every frame is in use, or free, as it was before the
/// program was loaded.
pub proof fn law_program_memory_comes_back(
    m0: PhysicalMemory,
    m: PhysicalMemory,
    after: PhysicalMemory,
    p: Program,
    image: Seq<u8>,
    name: Seq<u8>,
)
    requires
        m0.wf(),
        m0.pmm is Some,
        is_ready(m0, m, p, image, name),
        took_back_all(m, after, |q: u64| user_frame(m.bytes@, p.aspace.pml4_phys, q)),
    ensures
        is_as_before(m0, after),
        after.pmm->0.free_frames == m0.pmm->0.free_frames,
{
    law_all_frames_come_back(m0.pmm->0, m, after, p.aspace.pml4_phys);
}

/// An address space that was made ready for a program can be served: all that the
/// program may read or write lies in memory and is no page table, where the kernel's
/// half, which it shares with all others, is closed to user mode.
pub proof fn law_ready_programs_can_be_served(
    m0: PhysicalMemory,
    m: PhysicalMemory,
    p: Program,
    image: Seq<u8>,
    name: Seq<u8>,
)
    requires
        is_ready(m0, m, p, image, name),
        is_closed(m.bytes@, p.aspace.pml4_phys),
    ensures
        is_process(m, p.aspace.pml4_phys),
{
    let root = p.aspace.pml4_phys;
    let b = m.bytes@;
    assert forall|v: u64, write: bool| (#[trigger] user_walked(b, root, v, write)) is Some implies {
        let q = user_walked(b, root, v, write)->0;
        q < b.len() && is_plain(b, root, q as int)
    } by {
        if !is_user_half(v) {
            law_kernel_half_is_out_of_reach(b, root, v, write);
        }
        lemma_user_place(m0, m, p, image, name, v, write);
    }
    lemma_plain_apart(b, root);
}

/// Where all that user mode may reach is no page table, no page table can be written.
proof fn lemma_plain_apart(b: Seq<u8>, root: u64)
    requires
        tables_in_memory(b, root),
        forall|v: u64, write: bool|
            (#[trigger] user_walked(b, root, v, write)) matches Some(q) ==> is_plain(
                b,
                root,
                q as int,
            ),
    ensures
        user_apart_from_tables(b, root),
{
    assert forall|v: u64, w: u64, l: int|
        #![trigger user_walked(b, root, v, true), table_at(b, root, w, l)]
        0 <= l <= 3 && user_walked(b, root, v, true) is Some && table_at(b, root, w, l) is Some
            implies !(table_at(b, root, w, l)->0 <= user_walked(b, root, v, true)->0 < table_at(
        b,
        root,
        w,
        l,
    )->0 + 4096) by {
        let q = user_walked(b, root, v, true)->0;
        let t = table_at(b, root, w, l)->0;
        assert(in_memory(b, t));
        reveal(is_plain);
        assert(t != page_down(q as int));
    }
}

/// Where a program may go there is memory, and no page table.
#[verifier::spinoff_prover]
proof fn lemma_user_place(
    m0: PhysicalMemory,
    m: PhysicalMemory,
    p: Program,
    image: Seq<u8>,
    name: Seq<u8>,
    v: u64,
    write: bool,
)
    requires
        is_ready(m0, m, p, image, name),
        is_user_half(v),
        user_walked(m.bytes@, p.aspace.pml4_phys, v, write) is Some,
    ensures
        ({
            let q = user_walked(m.bytes@, p.aspace.pml4_phys, v, write)->0;
            q < m.bytes@.len() && is_plain(m.bytes@, p.aspace.pml4_phys, q as int)
        }),
{
    let root = p.aspace.pml4_phys;
    let b = m.bytes@;
    let s = parsed(image)->Ok_0.1;
    let n = s.len() as int;
    let q = user_walked(b, root, v, write)->0;
    let u = (v % 0x1_0000_0000_0000) as u64;
    lemma_low_address(b, root, v, u, write);
    lemma_user_walked(b, root, u, write);
    assert(walked(b, root, u) == Some(q));
    crate::elf::lemma_parsed_fit(image);
    if is_touched(s, n, page_down(u as int)) {
        lemma_touched_low(image, s, u);
    }
}

proof fn lemma_low_indices(v: u64, u: u64)
    requires
        u == v % 0x1_0000_0000_0000,
    ensures
        index_of(v, 0) == index_of(u, 0),
        index_of(v, 1) == index_of(u, 1),
        index_of(v, 2) == index_of(u, 2),
        index_of(v, 3) == index_of(u, 3),
        v % 4096 == u % 4096,
        is_user_half(v) ==> u < USER_END,
{
    let x = v as int;
    let y = u as int;
    let h = x / 0x1_0000_0000_0000;
    assert(x == h * 0x1_0000_0000_0000 + y);
    lemma_low_index(x, y, h, 0x80_0000_0000);
    lemma_low_index(x, y, h * 512, 0x4000_0000);
    lemma_low_index(x, y, h * 0x4_0000, 0x20_0000);
    lemma_low_index(x, y, h * 0x800_0000, 0x1000);
    assert(v % 4096 == u % 4096) by {
        lemma_mod_multiples_vanish(h * 0x10_0000_0000, y, 4096);
    }
}

proof fn lemma_low_index(x: int, y: int, h: int, unit: int)
    requires
        unit > 0,
        x == y + (512 * h) * unit,
    ensures
        x / unit % 512 == y / unit % 512,
{
    lemma_hoist_over_denominator(y, 512 * h, unit as nat);
    lemma_mod_multiples_vanish(h, y / unit, 512);
}

/// Bits of an address that the page tables do not look at make no difference.
proof fn lemma_low_address(b: Seq<u8>, root: u64, v: u64, u: u64, write: bool)
    requires
        u == v % 0x1_0000_0000_0000,
    ensures
        user_walked(b, root, u, write) == user_walked(b, root, v, write),
        is_user_half(v) ==> u < USER_END,
{
    lemma_low_indices(v, u);
    reveal(user_walked);
}

/// Two programs share no memory: where one was made ready while the other was there, no
/// frame that it has is mapped for the other.
pub proof fn law_programs_share_no_memory(
    m0: PhysicalMemory,
    m1: PhysicalMemory,
    m2: PhysicalMemory,
    first: Program,
    image: Seq<u8>,
    name: Seq<u8>,
    second: Program,
    other_image: Seq<u8>,
    other_name: Seq<u8>,
    u: u64,
    v: u64,
)
    requires
        is_ready(m0, m1, first, image, name),
        is_ready(m1, m2, second, other_image, other_name),
        u < USER_END,
        v < USER_END,
        walked(m1.bytes@, first.aspace.pml4_phys, u) is Some,
        walked(m2.bytes@, second.aspace.pml4_phys, v) is Some,
    ensures
        walked(m1.bytes@, first.aspace.pml4_phys, u)->0 as int / 4096 != walked(
            m2.bytes@,
            second.aspace.pml4_phys,
            v,
        )->0 as int / 4096,
{
    lemma_program_place(m0, m1, first, image, name, u);
    lemma_program_place(m1, m2, second, other_image, other_name, v);
}

/// Making a program ready, whatever comes of it, leaves every other address space alone:
/// it is mapped as before, holds what it held, and can be served if it could.
pub proof fn law_other_processes_are_left_alone(
    m0: PhysicalMemory,
    m: PhysicalMemory,
    vmm: Option<Vmm>,
    other: u64,
)
    requires
        vmm is Some,
        is_else_kept(m0, m, vmm),
        is_space(m0, other),
    ensures
        is_space(m, other),
        forall|v: u64| #[trigger] walked(m.bytes@, other, v) == walked(m0.bytes@, other, v),
        forall|v: u64| #[trigger]
            walked(m0.bytes@, other, v) matches Some(p) ==> p < m0.bytes@.len() && is_used(
                m0.pmm->0.bitmap@,
                p as int / 4096,
            ) ==> m.bytes@[p as int] == m0.bytes@[p as int],
        is_process(m0, other) ==> is_process(m, other),
{
    let a = m0.bytes@;
    let b = m.bytes@;
    lemma_space_kept(m0, m, other);
    lemma_used_tables(m0, m, other);
    if is_process(m0, other) {
        assert forall|v: u64, l: int, i: int|
            #![trigger table_at(a, other, v, l), entry(b, table_at(a, other, v, l)->0, i)]
            0 <= l <= 3 && 0 <= i < 512 && table_at(a, other, v, l) is Some implies entry(
            b,
            table_at(a, other, v, l)->0,
            i,
        ) == entry(a, table_at(a, other, v, l)->0, i) by {}
        assert forall|v: u64, write: bool| #[trigger] user_walked(b, other, v, write)
            == user_walked(a, other, v, write) by {
            lemma_user_walk_kept(a, b, other, v, write);
        }
        assert forall|v: u64, w: u64, l: int|
            #![trigger user_walked(b, other, v, true), table_at(b, other, w, l)]
            0 <= l <= 3 && user_walked(b, other, v, true) is Some && table_at(b, other, w, l) is Some
                implies !(table_at(b, other, w, l)->0 <= user_walked(b, other, v, true)->0
            < table_at(b, other, w, l)->0 + 4096) by {
            assert(user_walked(a, other, v, true) == user_walked(b, other, v, true));
            assert(table_at(a, other, w, l) == table_at(b, other, w, l));
        }
    }
}

/// No page that is mapped for a program is both writable and executable.
pub proof fn law_no_page_is_writable_and_executable(
    m0: PhysicalMemory,
    m: PhysicalMemory,
    p: Program,
    image: Seq<u8>,
    name: Seq<u8>,
    v: u64,
)
    requires
        is_ready(m0, m, p, image, name),
        v < USER_END,
        walked(m.bytes@, p.aspace.pml4_phys, v) is Some,
    ensures
        leaf_at(m.bytes@, p.aspace.pml4_phys, page_down(v as int) as u64) matches Some(e) && (e
            & WRITABLE == 0 || e & NO_EXECUTE != 0),
{
    let s = parsed(image)->Ok_0.1;
    crate::elf::lemma_parsed_fit(image);
    let x = walked(m.bytes@, p.aspace.pml4_phys, v)->0;
    lemma_one_way(page_down(x as int) as u64);
    if is_touched(s, s.len() as int, page_down(v as int)) {
        lemma_touched_low(image, s, v);
    }
}

/// The flags of user pages allow writing or executing at most.
proof fn lemma_one_way(p: u64)
    ensures
        leaf_of(p, USER_RX) & WRITABLE == 0,
        leaf_of(p, USER_RW) & NO_EXECUTE != 0,
        leaf_of(p, USER_RO) & NO_EXECUTE != 0,
{
    assert(((p & 0x000f_ffff_ffff_f000) | (1u64 | 4) | 1) & 2 == 0 && ((p & 0x000f_ffff_ffff_f000) | (
    1u64 | 2 | 4 | 0x8000_0000_0000_0000) | 1) & 0x8000_0000_0000_0000 != 0 && ((p
        & 0x000f_ffff_ffff_f000) | (1u64 | 4 | 0x8000_0000_0000_0000) | 1) & 0x8000_0000_0000_0000
        != 0) by (bit_vector);
}

/// What segments touch lies below the limit of loading.
proof fn lemma_touched_low(image: Seq<u8>, s: Seq<Segment>, v: u64)
    requires
        all_fit(image, s),
        is_touched(s, s.len() as int, page_down(v as int)),
    ensures
        v < LOAD_MAX,
{
    let n = s.len() as int;
    let d = page_down(v as int);
    let j = choose|j: int| 0 <= j < n && (#[trigger] s[j]).touches(d);
    assert(s[j].fault(image.len() as int) is None);
    assert(page_up(s[j].end()) <= LOAD_MAX);
}

/// What is mapped for a program is its own.
#[verifier::spinoff_prover]
proof fn lemma_program_place(
    m0: PhysicalMemory,
    m: PhysicalMemory,
    p: Program,
    image: Seq<u8>,
    name: Seq<u8>,
    v: u64,
)
    requires
        is_ready(m0, m, p, image, name),
        v < USER_END,
        walked(m.bytes@, p.aspace.pml4_phys, v) is Some,
    ensures
        ({
            let x = walked(m.bytes@, p.aspace.pml4_phys, v)->0;
            &&& !is_used(m0.pmm->0.bitmap@, x as int / 4096)
            &&& is_used(m.pmm->0.bitmap@, x as int / 4096)
        }),
{
    let s = parsed(image)->Ok_0.1;
    crate::elf::lemma_parsed_fit(image);
    if is_touched(s, s.len() as int, page_down(v as int)) {
        lemma_touched_low(image, s, v);
    }
}

/// What making segments that can be loaded into a program comes to, with so many frames
/// free: whether there are frames for all of it, or why a page cannot be mapped. It takes
/// a frame for its top-level table, one for each page that the segments touch and the
/// tables of these, and for the stack one for each page and three tables.
pub open spec fn making(s: Seq<Segment>, free: int) -> Result<bool, MapError> {
    let left = free - 1 - touched_pages(s).len() - tables_for(touched_pages(s));
    if left < 0 {
        Err(MapError::OutOfMemory)
    } else if left == 0 {
        Ok(false)
    } else if left < 4 {
        Err(MapError::OutOfMemory)
    } else {
        Ok(left >= 19)
    }
}

/// In a fresh address space there is no table yet on the way to the stack, also once
/// segments were loaded.
proof fn lemma_stack_tables(m1: Seq<u8>, m2: Seq<u8>, root: u64, kernel: u64, image: Seq<u8>, s: Seq<Segment>)
    requires
        is_fresh_root(m1, root, kernel),
        adds_for(m1, m2, root, touched_pages(s)),
        all_fit(image, s),
    ensures
        missing_tables(m2, root, stack_page(0) as u64) == 3,
        is_clear(m2, root, stack_page(0) as u64),
{
    reveal(adds_for);
    let v = stack_page(0) as u64;
    lemma_fresh_tables(m1, root, kernel, v, 1);
    assert(is_user_half(v));
    assert(!is_passed_by(touched_pages(s), v, 1)) by {
        if is_passed_by(touched_pages(s), v, 1) {
            let p = choose|p: int| #[trigger]
                touched_pages(s).contains(p) && p * 4096 / reach(1) == v as int / reach(1);
            lemma_touched_page(image, s, p);
        }
    }
    assert(table_at(m2, root, v, 1) is None);
    lemma_zero_entry();
    assert(entry(m1, root, index_of(v, 0)) == 0);
    assert(table_at(m1, root, v, 0) == Some(root) && table_at(m2, root, v, 0) == Some(root));
    assert(!huge_at(m1, root, v, 0));
    assert(!huge_at(m2, root, v, 0));
}

/// A page that segments touch lies where segments may be.
proof fn lemma_touched_page(image: Seq<u8>, s: Seq<Segment>, p: int)
    requires
        all_fit(image, s),
        touched_pages(s).contains(p),
    ensures
        0 <= p * 4096 < LOAD_MAX,
{
    let j = choose|j: int| 0 <= j < s.len() && (#[trigger] s[j]).touches(p * 4096);
    assert(s[j].fault(image.len() as int) is None);
    assert(page_up(s[j].end()) <= LOAD_MAX);
}

/// What loading segments into a fresh address space takes.
pub proof fn lemma_fresh_needs(m1: Seq<u8>, root: u64, kernel: u64, image: Seq<u8>, s: Seq<Segment>)
    requires
        is_fresh_root(m1, root, kernel),
        all_fit(image, s),
    ensures
        frames_for(m1, root, s) == touched_pages(s).len() + tables_for(touched_pages(s)),
        is_way_clear(m1, root, s),
{
    assert forall|p: int| #[trigger] touched_pages(s).contains(p) implies 0 <= p * 4096
        < USER_END by {
        lemma_touched_page(image, s, p);
    }
    lemma_all_missing(m1, root, kernel, touched_pages(s));
}

/// What is owed of making an executable ready.
pub open spec fn is_prepared(
    m0: PhysicalMemory,
    m: PhysicalMemory,
    vmm: Option<Vmm>,
    image: Seq<u8>,
    name: Seq<u8>,
    r: Result<Result<Program, SpawnError>, MapError>,
) -> bool {
    let no_room = vmm is None || m0.pmm->0.free_frames == 0;
    let fault = match parsed(image) {
        Err(e) => Some(e),
        Ok((_, s)) => load_fault(s, m0.pmm->0.free_frames - 1),
    };
    &&& is_else_kept(m0, m, vmm)
    &&& match r {
        Err(e) => !no_room && fault is None && making(
            parsed(image)->Ok_0.1,
            m0.pmm->0.free_frames as int,
        ) == Err::<bool, MapError>(e),
        Ok(Err(SpawnError::Elf(e))) => !no_room && fault == Some(e) && is_as_before(m0, m),
        Ok(Err(SpawnError::NoMemory)) => if no_room {
            m == m0
        } else {
            fault is None && making(parsed(image)->Ok_0.1, m0.pmm->0.free_frames as int) == Ok::<
                bool,
                MapError,
            >(false) && is_as_before(m0, m)
        },
        Ok(Err(_)) => false,
        Ok(Ok(p)) => {
            &&& !no_room
            &&& fault is None
            &&& making(parsed(image)->Ok_0.1, m0.pmm->0.free_frames as int) == Ok::<bool, MapError>(
                true,
            )
            &&& is_ready(m0, m, p, image, name)
            &&& shares_kernel_half(m.bytes@, p.aspace.pml4_phys, vmm->0.pml4_phys)
            &&& is_closed(m0.bytes@, vmm->0.pml4_phys) ==> is_closed(
                m.bytes@,
                p.aspace.pml4_phys,
            )
        },
    }
}

/// Load an executable into a fresh address space and build its stack.
#[verifier::spinoff_prover]
fn prepare(mem: &mut PhysicalMemory, vmm: &Option<Vmm>, image: &[u8], name: &[u8]) -> (r: Result<
    Result<Program, SpawnError>,
    MapError,
>)
    requires
        is_kernel_space(*old(mem), *vmm),
        old(mem).wf(),
    ensures
        is_prepared(*old(mem), *final(mem), *vmm, image@, name@, r),
{
    let ghost m0 = *mem;
    let aspace: AddressSpace = match create_address_space(mem, vmm) {
        Some(aspace) => aspace,
        None => {
            return Ok(Err(SpawnError::NoMemory));
        },
    };
    let ghost m1 = *mem;
    let ghost root = aspace.pml4_phys;
    let ghost kernel = vmm->0.pml4_phys;
    assert(is_created(m0, m1, kernel, root));
    proof {
        lemma_owns_created(m0, m1, root, kernel);
        if is_closed(m0.bytes@, kernel) {
            lemma_closed_same(m0.bytes@, m1.bytes@, kernel);
            lemma_closed_fresh(m1.bytes@, root, kernel);
        }
        if parsed(image@) is Ok {
            lemma_room(m1.bytes@, root, kernel, parsed(image@)->Ok_0.1);
            crate::elf::lemma_parsed_fit(image@);
            lemma_fresh_needs(m1.bytes@, root, kernel, image@, parsed(image@)->Ok_0.1);
        }
    }
    let loaded = load(mem, image, &aspace);
    proof {
        reveal(stays_inside);
        lemma_inside_fresh(m0, m1, *mem, root, kernel);
    }
    let start: u64 = match loaded? {
        Ok(start) => start,
        Err(e) => {
            let ghost m2 = *mem;
            proof {
                if parsed(image@) is Ok {
                    lemma_still_space(m1, m2, root);
                }
            }
            free_user_half(mem, aspace);
            proof {
                lemma_refused(m0, m1, m2, *mem, kernel, root);
                lemma_freed_kept(m0, m2, *mem, kernel);
            }
            return Ok(Err(SpawnError::Elf(e)));
        },
    };
    let ghost m2 = *mem;
    let ghost s = parsed(image@)->Ok_0.1;
    assert(is_loaded(m1, m2, root, image@, s));
    assert(is_space(m2, root)) by {
        reveal(is_loaded);
    }
    proof {
        lemma_stack_room(m1, m2, root, kernel, image@, s);
        lemma_stack_tables(m1.bytes@, m2.bytes@, root, kernel, image@, s);
    }
    let built = build_stack(mem, &aspace, name);
    proof {
        lemma_inside_twice(m1, m2, *mem, root);
        lemma_inside_fresh(m0, m1, *mem, root, kernel);
    }
    match built? {
        Some(rsp) => {
            let p: Program = Program { aspace, entry: start, rsp };
            proof {
                lemma_ready(m0, m1, m2, *mem, kernel, p, image@, name@, s);
            }
            Ok(Ok(p))
        },
        None => {
            assert(is_space(*mem, root)) by {
                reveal(super::stack::are_stacked);
            }
            let ghost m3 = *mem;
            free_user_half(mem, aspace);
            proof {
                reveal(is_loaded);
                reveal(super::stack::are_stacked);
                law_all_frames_come_back(m0.pmm->0, m3, *mem, root);
                lemma_freed_kept(m0, m3, *mem, kernel);
            }
            Ok(Err(SpawnError::NoMemory))
        },
    }
}

/// Make the executable at `path` ready to run as a new process: load it into a
/// fresh address space and build its stack. A thread is to run it then. The outer
/// error tells that a page could not be mapped.
pub fn spawn<'a, D: BlockDevice>(
    mem: &mut PhysicalMemory,
    vmm: &Option<Vmm>,
    vfs: &Vfs<'a, D>,
    path: &str,
) -> (r: Result<Result<Program, SpawnError>, MapError>)
    requires
        vfs.wf(),
        is_kernel_space(*old(mem), *vmm),
        old(mem).wf(),
    ensures
        match whole_result(*vfs, path@) {
            Err(_) => r == Ok::<Result<Program, SpawnError>, MapError>(Err(SpawnError::NotFound))
                && *final(mem) == *old(mem),
            Ok(image) => {
                ||| is_prepared(
                    *old(mem),
                    *final(mem),
                    *vmm,
                    image,
                    vstd::utf8::encode_utf8(path@),
                    r,
                )
                ||| may_fail(*vfs, path@) && r == Ok::<Result<Program, SpawnError>, MapError>(
                    Err(SpawnError::NotFound),
                ) && *final(mem) == *old(mem)
            },
        },
{
    match read_all(vfs, path) {
        Ok(image) => prepare(mem, vmm, image.as_slice(), path.as_bytes()),
        Err(_) => Ok(Err(SpawnError::NotFound)),
    }
}

pub proof fn lemma_still_space(a: PhysicalMemory, b: PhysicalMemory, root: u64)
    requires
        is_space(a, root),
        is_placed(a, b, Seq::empty()),
    ensures
        is_space(b, root),
{
    assert(takes_only(a.pmm->0, b.pmm->0));
    crate::vmm::space::lemma_space_kept(a, b, root);
}

/// What becomes of a program once a thread was asked for: it has the pid of its
/// thread, or there is none and its memory goes back.
pub fn started(
    table: &mut ProcessTable,
    mem: &mut PhysicalMemory,
    program: Program,
    path: &str,
    thread: Option<u64>,
) -> (r: Result<u64, SpawnError>)
    requires
        old(table).wf(),
        is_space(*old(mem), program.aspace.pml4_phys),
    ensures
        final(table).wf(),
        match thread {
            Some(pid) => {
                &&& r == Ok::<u64, SpawnError>(pid)
                &&& final(table)@ == super::registered(old(table)@, pid, path@)
                &&& *final(mem) == *old(mem)
            },
            None => {
                &&& r == Err::<u64, SpawnError>(SpawnError::NoThread)
                &&& final(table)@ == old(table)@
                &&& took_back_all(
                    *old(mem),
                    *final(mem),
                    |p: u64| user_frame(old(mem).bytes@, program.aspace.pml4_phys, p),
                )
            },
        },
{
    match thread {
        Some(pid) => {
            register(table, pid, path);
            Ok(pid)
        },
        None => {
            free_user_half(mem, program.aspace);
            Err(SpawnError::NoThread)
        },
    }
}

} // verus!
