//! The kernel stacks of threads.
//!
//! Every thread has its own stack in a dedicated virtual region. Each stack slot
//! has an unmapped guard page at its bottom, so that an overflow is a page fault
//! instead of silent corruption.

use vstd::prelude::*;
use crate::bytes::lemma_le64_round_trip;
use crate::heap::growth::{are_others_kept, is_wired};
use crate::heap::{FreeList, HEAP_START};
use crate::pmm::{is_used, page_down, PhysicalMemory, PAGE_SIZE};
use crate::vmm::regions::{
    keeps_regions, keeps_regions_apart, lemma_no_new_frame, lemma_regions_written, share_no_frame,
};
use crate::vmm::data::{
    are_new_frames, gives_back, keeps_data, lemma_back_and_forth, lemma_data_same,
    lemma_data_written,
};
use crate::vmm::region::{
    back_pages, backing, frames_taken, is_data_page, is_in_one_table, is_plain, is_region,
    is_same_outside, unback_pages, KERNEL_HALF,
};
use crate::vmm::space::lemma_tables_kept;
use crate::vmm::{
    entry, in_memory, is_space, leaf_at, lemma_write_entry, table_at, translate, walked,
    write_entry, MapError, Vmm,
};
use super::{Scheduler, Thread, MAX_SLOTS};

verus! {

/// Virtual region for kernel stacks.
pub const STACK_REGION: u64 = 0xffff_ffff_a000_0000;

/// Virtual size of one slot: a guard page, the stack, and room never mapped.
pub const SLOT_SIZE: u64 = 0x2_0000;

/// Pages of usable stack per thread.
pub const STACK_PAGES: u64 = 16;

/// Bytes of usable stack per thread.
pub const STACK_BYTES: u64 = 0x1_0000;

/// Where a slot starts.
pub open spec fn base_of(slot: int) -> int {
    STACK_REGION + slot * SLOT_SIZE
}

pub fn slot_base(slot: usize) -> (r: u64)
    requires
        slot < MAX_SLOTS,
    ensures
        r == base_of(slot as int),
{
    STACK_REGION + slot as u64 * SLOT_SIZE
}

/// The lowest byte of the stack in a slot: above the guard page.
pub open spec fn stack_bottom(slot: int) -> int {
    base_of(slot) + PAGE_SIZE
}

/// One past the highest byte of the stack in a slot.
pub open spec fn stack_top(slot: int) -> int {
    stack_bottom(slot) + STACK_BYTES
}

/// The stacks of two slots are apart, with a page between them that belongs to
/// neither.
pub proof fn law_stacks_are_apart(a: int, b: int)
    requires
        a < b,
    ensures
        stack_top(a) <= base_of(b),
        base_of(b) + PAGE_SIZE <= stack_bottom(b),
{
    assert(a * SLOT_SIZE + SLOT_SIZE <= b * SLOT_SIZE) by (nonlinear_arith)
        requires
            a < b,
            SLOT_SIZE == 0x2_0000,
    ;
}

/// What a new thread finds on its stack, lowest address first: the registers
/// that a switch restores, with the entry point in the fourth, and the address
/// that the switch returns to.
pub open spec fn initial_word(k: int, entry: u64, trampoline: u64) -> u64 {
    if k == 3 {
        entry
    } else if k == 6 {
        trampoline
    } else {
        0
    }
}

/// Whether the stack of a slot is ready for a new thread: mapped, with the
/// initial words right below its top.
pub open spec fn is_stack_ready(
    mem: PhysicalMemory,
    root: u64,
    slot: int,
    start: u64,
    trampoline: u64,
) -> bool {
    &&& is_region(mem, root, stack_bottom(slot), stack_top(slot))
    &&& walked(mem.bytes@, root, (stack_top(slot) - PAGE_SIZE) as u64) matches Some(frame)
    &&& forall|k: int|
        0 <= k < 7 ==> #[trigger] entry(mem.bytes@, frame, 505 + k) == initial_word(
            k,
            start,
            trampoline,
        )
}

/// Writing into a frame that holds no page table keeps an address space and
/// its regions.
#[verifier::spinoff_prover]
proof fn lemma_frame_written(
    a: PhysicalMemory,
    b: PhysicalMemory,
    root: u64,
    frame: u64,
    from: int,
    to: int,
)
    requires
        is_space(a, root),
        is_plain(a.bytes@, root, frame as int),
        frame % 4096 == 0,
        b.pmm == a.pmm,
        b.bytes@.len() == a.bytes@.len(),
        forall|x: int|
            0 <= x < a.bytes@.len() && !(frame <= x < frame + 4096) ==> #[trigger] b.bytes@[x]
                == a.bytes@[x],
        is_region(a, root, from, to),
    ensures
        is_space(b, root),
        is_region(b, root, from, to),
        forall|v: u64| #[trigger] walked(b.bytes@, root, v) == walked(a.bytes@, root, v),
        forall|v: u64, k: int|
            0 <= k <= 3 ==> #[trigger] table_at(b.bytes@, root, v, k) == table_at(
                a.bytes@,
                root,
                v,
                k,
            ),
        forall|v: u64| #[trigger] leaf_at(b.bytes@, root, v) == leaf_at(a.bytes@, root, v),
{
    let m = a.bytes@;
    assert forall|v: u64, k: int, x: int|
        #![trigger table_at(m, root, v, k), b.bytes@[x]]
        0 <= k <= 3 && (table_at(m, root, v, k) matches Some(t) && t <= x < t + 4096) implies b.bytes@[x]
        == m[x] by {
        reveal(is_plain);
        let t = table_at(m, root, v, k)->0;
        assert(in_memory(m, t));
        assert(t != page_down(frame as int));
    }
    lemma_tables_kept(a, b, root);
    reveal(is_region);
    reveal(is_plain);
    assert forall|v: u64| from <= v < to implies {
        &&& (#[trigger] walked(b.bytes@, root, v)) matches Some(p)
        &&& p < b.bytes@.len()
        &&& p as int % 4096 == v as int % 4096
        &&& is_used(b.pmm->0.bitmap@, p as int / 4096)
        &&& is_plain(b.bytes@, root, p as int)
        &&& is_data_page(b.bytes@, root, v, p)
    } by {
        assert(walked(m, root, v) is Some);
        assert(is_plain(m, root, walked(m, root, v)->0 as int));
        assert(leaf_at(b.bytes@, root, v) == leaf_at(m, root, v));
        let p = walked(m, root, v)->0;
        assert forall|w: u64, k: int| 0 <= k <= 3 implies ((#[trigger] table_at(
            b.bytes@,
            root,
            w,
            k,
        )) matches Some(t) ==> t != page_down(p as int)) by {
            assert(table_at(b.bytes@, root, w, k) == table_at(m, root, w, k));
        }
    }
    assert forall|v: u64, w: u64|
        from <= v < to && from <= w < to && (#[trigger] walked(b.bytes@, root, v))->0 as int / 4096
            == (#[trigger] walked(b.bytes@, root, w))->0 as int / 4096 implies v as int / 4096
        == w as int / 4096 by {
        assert(walked(m, root, v)->0 as int / 4096 == walked(m, root, w)->0 as int / 4096);
    }
}

/// Write what a new thread finds on its stack.
fn write_frame(mem: &mut PhysicalMemory, frame: u64, start: u64, trampoline: u64)
    requires
        in_memory(old(mem).bytes@, frame),
    ensures
        final(mem).pmm == old(mem).pmm,
        final(mem).hhdm == old(mem).hhdm,
        final(mem).bytes@.len() == old(mem).bytes@.len(),
        forall|x: int|
            0 <= x < old(mem).bytes@.len() && !(frame <= x < frame + 4096) ==> #[trigger] final(mem).bytes@[x]
                == old(mem).bytes@[x],
        forall|k: int|
            0 <= k < 7 ==> #[trigger] entry(final(mem).bytes@, frame, 505 + k) == initial_word(
                k,
                start,
                trampoline,
            ),
{
    let mut k: usize = 0;
    while k < 7
        invariant
            k <= 7,
            in_memory(mem.bytes@, frame),
            mem.pmm == old(mem).pmm,
            mem.hhdm == old(mem).hhdm,
            mem.bytes@.len() == old(mem).bytes@.len(),
            forall|x: int|
                0 <= x < old(mem).bytes@.len() && !(frame <= x < frame + 4096)
                    ==> #[trigger] mem.bytes@[x] == old(mem).bytes@[x],
            forall|j: int|
                0 <= j < k ==> #[trigger] entry(mem.bytes@, frame, 505 + j) == initial_word(
                    j,
                    start,
                    trampoline,
                ),
        decreases 7 - k,
    {
        let word: u64 = if k == 3 {
            start
        } else if k == 6 {
            trampoline
        } else {
            0
        };
        let ghost m = mem.bytes@;
        write_entry(mem, frame, 505 + k, word);
        proof {
            lemma_write_entry(m, frame, 505 + k, word);
            lemma_le64_round_trip(word);
            assert forall|j: int| 0 <= j < k + 1 implies #[trigger] entry(
                mem.bytes@,
                frame,
                505 + j,
            ) == initial_word(j, start, trampoline) by {
                if j < k {
                    assert(entry(m, frame, 505 + j) == initial_word(j, start, trampoline));
                }
            }
        }
        k += 1;
    }
}

/// What building a thread comes to: whether there are a stack slot and frames for
/// the whole stack, or why its first page cannot be mapped.
pub open spec fn creation(s: Scheduler, mem: PhysicalMemory, root: u64) -> Result<bool, MapError> {
    match s.next_free_slot() {
        Some(slot) => match backing(mem, root, stack_bottom(slot as int) as u64, STACK_BYTES) {
            Ok(n) => Ok(n == STACK_BYTES),
            Err(e) => Err(e),
        },
        None => Ok(false),
    }
}

/// What stays of a thread that could not be built for want of memory: the tables
/// that were added on the way to its stack, no page of which is mapped.
pub open spec fn is_given_up(
    before: PhysicalMemory,
    after: PhysicalMemory,
    root: u64,
    slot: int,
) -> bool {
    let bottom = stack_bottom(slot);
    let n = backing(before, root, bottom as u64, STACK_BYTES)->Ok_0;
    &&& after.pmm->0.free_frames == before.pmm->0.free_frames - frames_taken(
        before,
        root,
        bottom as u64,
        n,
    ) + n / 4096
    &&& forall|v: u64| bottom <= v < bottom + n ==> #[trigger] walked(after.bytes@, root, v) is None
    &&& is_same_outside(before, after, root, bottom, bottom + n)
}

/// The pages of a stack share one page table.
proof fn lemma_one_table(slot: int)
    requires
        0 <= slot < MAX_SLOTS,
    ensures
        is_in_one_table(stack_bottom(slot), STACK_BYTES as int),
{
    let r = slot % 16;
    assert(stack_bottom(slot) == STACK_REGION + (slot / 16) * 0x20_0000 + r * 0x2_0000 + 4096);
}

/// Mapped as before twice over.
proof fn lemma_same_twice(
    a: PhysicalMemory,
    b: PhysicalMemory,
    c: PhysicalMemory,
    root: u64,
    from: int,
    to: int,
)
    requires
        is_same_outside(a, b, root, from, to),
        is_same_outside(b, c, root, from, to),
    ensures
        is_same_outside(a, c, root, from, to),
{
    reveal(is_same_outside);
    assert forall|v: u64| v >= KERNEL_HALF && !(from <= v < to) implies #[trigger] walked(
        c.bytes@,
        root,
        v,
    ) == walked(a.bytes@, root, v) by {
        assert(walked(b.bytes@, root, v) == walked(a.bytes@, root, v));
    }
}

/// A stack that was backed in part and given up leaves the regions beside it.
proof fn lemma_given_up(
    a: PhysicalMemory,
    b: PhysicalMemory,
    c: PhysicalMemory,
    root: u64,
    from: int,
    mid: int,
    to: int,
)
    requires
        mid <= to,
        keeps_regions(a, b, root, from, to),
        is_same_outside(a, b, root, from, mid),
        are_new_frames(a, b, root, from, mid),
        keeps_regions_apart(b, c, root, from, mid),
    ensures
        keeps_regions(a, c, root, from, to),
{
    reveal(keeps_regions);
    reveal(keeps_regions_apart);
    reveal(is_same_outside);
    reveal(are_new_frames);
    assert forall|x: int, y: int|
        KERNEL_HALF <= x && (y <= from || to <= x) && #[trigger] is_region(a, root, x, y) implies is_region(
        c,
        root,
        x,
        y,
    ) by {
        assert(is_region(b, root, x, y));
        lemma_no_new_frame(a, b, root, x, y, from, mid);
    }
}

/// Build a thread that will start at `start`. It is not queued anywhere.
///
/// Gives none where there is no stack slot or not enough memory for the stack;
/// nothing but page tables stays taken then. An error tells that a page could not
/// be mapped.
pub fn create_thread(
    s: &mut Scheduler,
    mem: &mut PhysicalMemory,
    vmm: &Vmm,
    name: &'static str,
    start: u64,
    trampoline: u64,
    is_idle: bool,
) -> (r: Result<Option<Thread>, MapError>)
    requires
        old(s).wf(),
        old(s).next_id < u64::MAX,
        is_space(*old(mem), vmm.pml4_phys),
    ensures
        final(s).wf(),
        final(s).same_threads(*old(s)),
        is_space(*final(mem), vmm.pml4_phys),
        keeps_data(*old(mem), *final(mem), vmm.pml4_phys),
        old(s).next_free_slot() matches Some(slot) ==> keeps_regions(
            *old(mem),
            *final(mem),
            vmm.pml4_phys,
            stack_bottom(slot as int),
            stack_top(slot as int),
        ),
        match creation(*old(s), *old(mem), vmm.pml4_phys) {
            Ok(made) => r matches Ok(t) && t is Some == made,
            Err(e) => r == Err::<Option<Thread>, MapError>(e),
        },
        old(s).next_free_slot() is None ==> {
            &&& *final(mem) == *old(mem)
            &&& final(s).next_id == old(s).next_id
            &&& final(s).free_slots@ == old(s).free_slots@
            &&& final(s).next_slot == old(s).next_slot
        },
        old(s).next_free_slot() matches Some(slot) ==> {
            &&& final(s).next_id == old(s).next_id + 1
            &&& forall|x: usize| #[trigger]
                final(s).has_slot(x) == (old(s).has_slot(x) || x == slot && !(r matches Ok(None)))
            &&& final(s).slots_in_use() == old(s).slots_in_use() + if r matches Ok(None) {
                0int
            } else {
                1
            }
            &&& r matches Ok(None) ==> {
                &&& is_given_up(*old(mem), *final(mem), vmm.pml4_phys, slot as int)
                &&& final(s).next_free_slot() == Some(slot)
            }
        },
        r matches Ok(Some(t)) ==> {
            &&& t.stack_slot matches Some(slot)
            &&& old(s).next_free_slot() == Some(slot)
            &&& slot < MAX_SLOTS
            &&& !old(s).has_slot(slot)
            &&& t.id == old(s).next_id
            &&& t.name == name
            &&& t.wake_at == 0
            &&& t.is_idle == is_idle
            &&& t.rsp == stack_top(slot as int) - 56
            &&& is_stack_ready(*final(mem), vmm.pml4_phys, slot as int, start, trampoline)
            &&& final(mem).pmm->0.free_frames == old(mem).pmm->0.free_frames - frames_taken(
                *old(mem),
                vmm.pml4_phys,
                stack_bottom(slot as int) as u64,
                STACK_BYTES as int,
            )
            &&& is_same_outside(
                *old(mem),
                *final(mem),
                vmm.pml4_phys,
                stack_bottom(slot as int),
                stack_top(slot as int),
            )
            &&& are_new_frames(
                *old(mem),
                *final(mem),
                vmm.pml4_phys,
                stack_bottom(slot as int),
                stack_top(slot as int),
            )
        },
{
    proof {
        lemma_data_same(*mem, *mem, vmm.pml4_phys);
    }
    let (slot, id) = match s.take_slot() {
        Some(p) => p,
        None => {
            return Ok(None);
        },
    };
    let base: u64 = slot_base(slot);
    let kernel: Option<Vmm> = Some(*vmm);
    let ghost root = vmm.pml4_phys;
    let bottom: u64 = base + PAGE_SIZE;
    let ghost m0 = *mem;
    proof {
        lemma_one_table(slot as int);
    }
    let backed: u64 = back_pages(mem, &kernel, bottom, STACK_BYTES)?;
    if backed < STACK_BYTES {
        let ghost m1 = *mem;
        unback_pages(mem, &kernel, bottom, backed);
        proof {
            lemma_same_twice(m0, m1, *mem, root, bottom as int, bottom + backed);
            lemma_back_and_forth(m0, m1, *mem, root, bottom as int, bottom + backed);
            lemma_given_up(m0, m1, *mem, root, bottom as int, bottom + backed, stack_top(slot as int));
        }
        s.give_slot(slot);
        return Ok(None);
    }
    let top: u64 = bottom + STACK_BYTES;
    let ghost m1 = *mem;
    proof {
        reveal(is_region);
        assert(walked(m1.bytes@, root, (top - PAGE_SIZE) as u64) is Some);
    }
    match translate(mem, &kernel, top - PAGE_SIZE) {
        Some(frame) => {
            write_frame(mem, frame, start, trampoline);
            proof {
                lemma_frame_written(
                    m1,
                    *mem,
                    root,
                    frame,
                    stack_bottom(slot as int),
                    stack_top(slot as int),
                );
                reveal(is_same_outside);
                reveal(are_new_frames);
                lemma_data_written(m0, m1, *mem, root, frame);
                lemma_regions_written(
                    m0,
                    m1,
                    *mem,
                    root,
                    stack_bottom(slot as int),
                    stack_top(slot as int),
                );
            }
        },
        None => {},
    }
    Ok(
        Some(
            Thread {
                id,
                name,
                rsp: top - 56,
                stack_slot: Some(slot),
                wake_at: 0,
                is_idle,
            },
        ),
    )
}

/// Release a dead thread's stack.
pub fn free_thread(s: &mut Scheduler, mem: &mut PhysicalMemory, vmm: &Vmm, t: Thread)
    requires
        old(s).wf(),
        is_space(*old(mem), vmm.pml4_phys),
        t.stack_slot matches Some(slot) ==> slot < MAX_SLOTS && old(s).has_slot(slot) && is_region(
            *old(mem),
            vmm.pml4_phys,
            stack_bottom(slot as int),
            stack_top(slot as int),
        ),
    ensures
        final(s).wf(),
        final(s).same_threads(*old(s)),
        is_space(*final(mem), vmm.pml4_phys),
        t.stack_slot is None ==> *final(s) == *old(s) && *final(mem) == *old(mem),
        t.stack_slot matches Some(slot) ==> {
            &&& final(s).next_id == old(s).next_id
            &&& forall|x: usize| #[trigger]
                final(s).has_slot(x) == (old(s).has_slot(x) && x != slot)
            &&& final(s).slots_in_use() == old(s).slots_in_use() - 1
            &&& final(mem).pmm->0.free_frames == old(mem).pmm->0.free_frames + STACK_PAGES
            &&& forall|v: u64|
                stack_bottom(slot as int) <= v < stack_top(slot as int) ==> #[trigger] walked(
                    final(mem).bytes@,
                    vmm.pml4_phys,
                    v,
                ) is None
            &&& is_same_outside(
                *old(mem),
                *final(mem),
                vmm.pml4_phys,
                stack_bottom(slot as int),
                stack_top(slot as int),
            )
            &&& gives_back(
                *old(mem),
                *final(mem),
                vmm.pml4_phys,
                stack_bottom(slot as int),
                stack_top(slot as int),
            )
            &&& keeps_regions_apart(
                *old(mem),
                *final(mem),
                vmm.pml4_phys,
                stack_bottom(slot as int),
                stack_top(slot as int),
            )
        },
{
    match t.stack_slot {
        Some(slot) => {
            let kernel: Option<Vmm> = Some(*vmm);
            unback_pages(mem, &kernel, slot_base(slot) + PAGE_SIZE, STACK_BYTES);
            s.give_slot(slot);
        },
        None => {},
    }
}

/// Turn the running code into thread 0, create the idle thread, and enable the
/// scheduler. Tells whether that worked.
pub fn init(
    s: &mut Scheduler,
    mem: &mut PhysicalMemory,
    vmm: &Vmm,
    idle_start: u64,
    trampoline: u64,
) -> (r: Result<bool, MapError>)
    requires
        old(s).wf(),
        !old(s).is_up,
        old(s).next_id < u64::MAX,
        is_space(*old(mem), vmm.pml4_phys),
    ensures
        final(s).wf(),
        is_space(*final(mem), vmm.pml4_phys),
        keeps_data(*old(mem), *final(mem), vmm.pml4_phys),
        old(s).next_free_slot() matches Some(slot) ==> keeps_regions(
            *old(mem),
            *final(mem),
            vmm.pml4_phys,
            stack_bottom(slot as int),
            stack_top(slot as int),
        ),
        r == creation(*old(s), *old(mem), vmm.pml4_phys),
        final(s).is_up == (r == Ok::<bool, MapError>(true)),
        !final(s).is_up ==> final(s).same_threads(*old(s)),
        old(s).next_free_slot() is None ==> {
            &&& *final(mem) == *old(mem)
            &&& final(s).next_id == old(s).next_id
            &&& final(s).free_slots@ == old(s).free_slots@
            &&& final(s).next_slot == old(s).next_slot
        },
        old(s).next_free_slot() matches Some(slot) ==> {
            &&& final(s).next_id == old(s).next_id + 1
            &&& forall|x: usize| #[trigger]
                final(s).has_slot(x) == (old(s).has_slot(x) || x == slot && r
                    != Ok::<bool, MapError>(false))
            &&& final(s).slots_in_use() == old(s).slots_in_use() + if r == Ok::<bool, MapError>(
                false,
            ) {
                0int
            } else {
                1
            }
            &&& r == Ok::<bool, MapError>(false) ==> {
                &&& is_given_up(*old(mem), *final(mem), vmm.pml4_phys, slot as int)
                &&& final(s).next_free_slot() == Some(slot)
            }
        },
        final(s).zombies == old(s).zombies,
        final(s).slice_ticks == old(s).slice_ticks,
        final(s).need_resched == old(s).need_resched,
        final(s).preemptions == old(s).preemptions,
        r == Ok::<bool, MapError>(true) ==> {
            &&& final(s).current matches Some(boot) && boot.id == 0 && boot.stack_slot is None
            &&& final(s).idle matches Some(idle) && idle.is_idle && idle.id == old(s).next_id
            &&& final(s).idle->0.name@ == "idle"@
            &&& final(s).idle->0.wake_at == 0
            &&& final(s).idle->0.stack_slot == old(s).next_free_slot()
            &&& final(s).idle->0.stack_slot matches Some(slot) && is_stack_ready(
                *final(mem),
                vmm.pml4_phys,
                slot as int,
                idle_start,
                trampoline,
            ) && final(s).idle->0.rsp == stack_top(slot as int) - 56 && is_same_outside(
                *old(mem),
                *final(mem),
                vmm.pml4_phys,
                stack_bottom(slot as int),
                stack_top(slot as int),
            ) && are_new_frames(
                *old(mem),
                *final(mem),
                vmm.pml4_phys,
                stack_bottom(slot as int),
                stack_top(slot as int),
            )
            &&& final(s).ready == old(s).ready
            &&& final(s).sleeping == old(s).sleeping
        },
{
    match create_thread(s, mem, vmm, "idle", idle_start, trampoline, true)? {
        Some(idle) => {
            let ghost s1 = *s;
            s.start(idle);
            assert forall|x: usize| #[trigger] s.has_slot(x) == s1.has_slot(x) by {}
            Ok(true)
        },
        None => Ok(false),
    }
}

/// Start a new kernel thread at `start`. Returns its id.
pub fn spawn(
    s: &mut Scheduler,
    mem: &mut PhysicalMemory,
    vmm: &Vmm,
    name: &'static str,
    start: u64,
    trampoline: u64,
) -> (r: Result<Option<u64>, MapError>)
    requires
        old(s).wf(),
        old(s).next_id < u64::MAX,
        is_space(*old(mem), vmm.pml4_phys),
    ensures
        final(s).wf(),
        is_space(*final(mem), vmm.pml4_phys),
        keeps_data(*old(mem), *final(mem), vmm.pml4_phys),
        old(s).next_free_slot() matches Some(slot) ==> keeps_regions(
            *old(mem),
            *final(mem),
            vmm.pml4_phys,
            stack_bottom(slot as int),
            stack_top(slot as int),
        ),
        match creation(*old(s), *old(mem), vmm.pml4_phys) {
            Ok(made) => r matches Ok(id) && id is Some == made,
            Err(e) => r == Err::<Option<u64>, MapError>(e),
        },
        old(s).next_free_slot() is None ==> {
            &&& *final(mem) == *old(mem)
            &&& final(s).next_id == old(s).next_id
            &&& final(s).free_slots@ == old(s).free_slots@
            &&& final(s).next_slot == old(s).next_slot
        },
        old(s).next_free_slot() matches Some(slot) ==> {
            &&& final(s).next_id == old(s).next_id + 1
            &&& forall|x: usize| #[trigger]
                final(s).has_slot(x) == (old(s).has_slot(x) || x == slot && !(r matches Ok(None)))
            &&& final(s).slots_in_use() == old(s).slots_in_use() + if r matches Ok(None) {
                0int
            } else {
                1
            }
            &&& r matches Ok(None) ==> {
                &&& is_given_up(*old(mem), *final(mem), vmm.pml4_phys, slot as int)
                &&& final(s).next_free_slot() == Some(slot)
            }
        },
        final(s).is_up == old(s).is_up,
        final(s).zombies == old(s).zombies,
        final(s).current == old(s).current,
        final(s).sleeping == old(s).sleeping,
        final(s).idle == old(s).idle,
        final(s).slice_ticks == old(s).slice_ticks,
        final(s).need_resched == old(s).need_resched,
        final(s).preemptions == old(s).preemptions,
        !(r matches Ok(Some(_))) ==> final(s).ready == old(s).ready,
        r matches Ok(Some(id)) ==> {
            &&& id == old(s).next_id
            &&& final(s).ready@.len() == old(s).ready@.len() + 1
            &&& final(s).ready@.drop_last() == old(s).ready@
            &&& final(s).ready@.last().id == id
            &&& final(s).ready@.last().name == name
            &&& final(s).ready@.last().wake_at == 0
            &&& !final(s).ready@.last().is_idle
            &&& final(s).ready@.last().stack_slot == old(s).next_free_slot()
            &&& final(s).ready@.last().stack_slot matches Some(slot) && !old(s).has_slot(slot)
                && is_stack_ready(*final(mem), vmm.pml4_phys, slot as int, start, trampoline)
                && final(s).ready@.last().rsp == stack_top(slot as int) - 56 && is_same_outside(
                *old(mem),
                *final(mem),
                vmm.pml4_phys,
                stack_bottom(slot as int),
                stack_top(slot as int),
            ) && are_new_frames(
                *old(mem),
                *final(mem),
                vmm.pml4_phys,
                stack_bottom(slot as int),
                stack_top(slot as int),
            )
            &&& final(s).threads() == old(s).threads().insert((id, old(s).next_free_slot()))
        },
{
    match create_thread(s, mem, vmm, name, start, trampoline, false)? {
        Some(t) => {
            let ghost s1 = *s;
            assert(s.threads() == old(s).threads());
            s.enqueue(t);
            assert(s.ready@.drop_last() =~= s1.ready@);
            assert forall|x: usize| #[trigger] s.has_slot(x) == s1.has_slot(x) by {}
            Ok(Some(t.id))
        },
        None => Ok(None),
    }
}

/// Threads have stacks of their own: making one leaves those of all others as they are, and
/// shares no frame with them.
pub proof fn law_new_stack_is_its_own(
    m0: PhysicalMemory,
    m: PhysicalMemory,
    root: u64,
    slot: int,
    other: int,
)
    requires
        0 <= slot < MAX_SLOTS,
        0 <= other < MAX_SLOTS,
        slot != other,
        keeps_regions(m0, m, root, stack_bottom(slot), stack_top(slot)),
        is_same_outside(m0, m, root, stack_bottom(slot), stack_top(slot)),
        are_new_frames(m0, m, root, stack_bottom(slot), stack_top(slot)),
        is_region(m0, root, stack_bottom(other), stack_top(other)),
    ensures
        is_region(m, root, stack_bottom(other), stack_top(other)),
        share_no_frame(
            m.bytes@,
            root,
            stack_bottom(other),
            stack_top(other),
            stack_bottom(slot),
            stack_top(slot),
        ),
{
    reveal(keeps_regions);
    if other < slot {
        law_stacks_are_apart(other, slot);
    } else {
        law_stacks_are_apart(slot, other);
    }
    lemma_no_new_frame(
        m0,
        m,
        root,
        stack_bottom(other),
        stack_top(other),
        stack_bottom(slot),
        stack_top(slot),
    );
}

/// Releasing the stack of a thread leaves that of any other, which shares no frame with it.
pub proof fn law_released_stack_leaves_others(
    m0: PhysicalMemory,
    m: PhysicalMemory,
    root: u64,
    slot: int,
    other: int,
)
    requires
        0 <= slot < MAX_SLOTS,
        0 <= other < MAX_SLOTS,
        slot != other,
        keeps_regions_apart(m0, m, root, stack_bottom(slot), stack_top(slot)),
        is_region(m0, root, stack_bottom(other), stack_top(other)),
        share_no_frame(
            m0.bytes@,
            root,
            stack_bottom(other),
            stack_top(other),
            stack_bottom(slot),
            stack_top(slot),
        ),
    ensures
        is_region(m, root, stack_bottom(other), stack_top(other)),
{
    reveal(keeps_regions_apart);
    if other < slot {
        law_stacks_are_apart(other, slot);
    } else {
        law_stacks_are_apart(slot, other);
    }
}

/// The heap and the stacks of threads leave each other alone.
pub proof fn law_heap_and_stacks_are_apart(
    list: FreeList,
    m0: PhysicalMemory,
    m: PhysicalMemory,
    k: Vmm,
    slot: int,
)
    requires
        list.wf(),
        0 <= slot < MAX_SLOTS,
    ensures
        is_wired(list, m0, Some(k)) && keeps_regions(
            m0,
            m,
            k.pml4_phys,
            stack_bottom(slot),
            stack_top(slot),
        ) ==> is_wired(list, m, Some(k)),
        is_region(m0, k.pml4_phys, stack_bottom(slot), stack_top(slot)) && are_others_kept(
            m0,
            m,
            Some(k),
            list.top(),
        ) ==> is_region(m, k.pml4_phys, stack_bottom(slot), stack_top(slot)),
{
    reveal(keeps_regions);
    assert(is_region(m0, k.pml4_phys, HEAP_START as int, list.top()) ==> is_wired(
        list,
        m0,
        Some(k),
    ));
}

/// A new thread finds seven words on its stack: what six registers are to hold, of which the
/// fourth has its entry point and the others are zero, and the address to return to.
pub proof fn law_new_stack_words(
    mem: PhysicalMemory,
    root: u64,
    slot: int,
    start: u64,
    trampoline: u64,
)
    requires
        is_stack_ready(mem, root, slot, start, trampoline),
    ensures
        ({
            let frame = walked(mem.bytes@, root, (stack_top(slot) - 4096) as u64)->0;
            &&& entry(mem.bytes@, frame, 511) == trampoline
            &&& entry(mem.bytes@, frame, 508) == start
            &&& entry(mem.bytes@, frame, 510) == 0
            &&& entry(mem.bytes@, frame, 509) == 0
            &&& entry(mem.bytes@, frame, 507) == 0
            &&& entry(mem.bytes@, frame, 506) == 0
            &&& entry(mem.bytes@, frame, 505) == 0
        }),
{
    let frame = walked(mem.bytes@, root, (stack_top(slot) - PAGE_SIZE) as u64)->0;
    assert(entry(mem.bytes@, frame, 505int + 0) == initial_word(0, start, trampoline));
    assert(entry(mem.bytes@, frame, 505int + 1) == initial_word(1, start, trampoline));
    assert(entry(mem.bytes@, frame, 505int + 2) == initial_word(2, start, trampoline));
    assert(entry(mem.bytes@, frame, 505int + 3) == initial_word(3, start, trampoline));
    assert(entry(mem.bytes@, frame, 505int + 4) == initial_word(4, start, trampoline));
    assert(entry(mem.bytes@, frame, 505int + 5) == initial_word(5, start, trampoline));
    assert(entry(mem.bytes@, frame, 505int + 6) == initial_word(6, start, trampoline));
}

} // verus!
