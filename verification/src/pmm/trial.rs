//! A trial of the frame allocator at start-up.

use vstd::prelude::*;
use super::{
    alloc_contiguous, alloc_frame, alloc_frame_zeroed, free_frame, free_frame_count, free_frames,
    is_used, keeps_used, PhysicalMemory, Pmm, MIN_ALLOC_ADDR, PAGE_SIZE,
};
use crate::bytes::{copy_into, lemma_le64_round_trip, u64_to_le, u64le};
use crate::text::{decimal, push_decimal, push_text};

use crate::text::forms::{law_decimal, number_of};

verus! {

/// How an amount of memory is written.
pub open spec fn size_text(bytes: u64) -> Seq<char> {
    if bytes >= 0x10_0000 {
        decimal((bytes / 0x10_0000) as nat) + " MiB"@
    } else {
        decimal((bytes / 0x400) as nat) + " KiB"@
    }
}

pub fn size_of_memory(bytes: u64) -> (r: String)
    ensures
        r@ == size_text(bytes),
{
    let mut r: String = String::new();
    if bytes >= 0x10_0000 {
        push_decimal(&mut r, bytes / 0x10_0000);
        push_text(&mut r, " MiB");
    } else {
        push_decimal(&mut r, bytes / 0x400);
        push_text(&mut r, " KiB");
    }
    assert(r@ =~= size_text(bytes));
    r
}

/// How the trial ended.
#[derive(Clone, Copy, Debug, PartialEq, Eq, Structural)]
pub enum FrameTrial {
    /// No free frames to test with.
    NoFrames,
    AllocationFailed,
    /// Two frames that are the same, not on a page boundary, or too low.
    BadFrames(u64, u64),
    /// What was written to one frame changed the other.
    NotIndependent(u64, u64),
    ZeroedFailed,
    NotZeroed(u64),
    ContiguousFailed,
    /// The number of free frames, before and after.
    Leaked(usize, usize),
    Passed { first: u64, second: u64, run: u64, free: usize },
}

/// Whether the same frames are free as before.
pub open spec fn same_frames(before: PhysicalMemory, after: PhysicalMemory) -> bool {
    &&& after.pmm is Some
    &&& after.pmm->0.same_memory(before.pmm->0)
    &&& after.pmm->0.free_frames == before.pmm->0.free_frames
    &&& forall|f: int|
        0 <= f < before.pmm->0.total_frames ==> #[trigger] is_used(after.pmm->0.bitmap@, f)
            == is_used(before.pmm->0.bitmap@, f)
}

/// Whether a frame that was handed out is too low to be one.
pub open spec fn is_too_low(phys: u64) -> bool {
    phys < MIN_ALLOC_ADDR
}

/// Whether two frames are those that are handed out next.
pub open spec fn are_next(p0: Pmm, p1: Pmm, p2: Pmm, first: u64, second: u64) -> bool {
    p0.gave_one(p1, first) && p1.gave_one(p2, second)
}

/// Whether the trial goes like this: two frames are handed out, the first goes back, and
/// the next one is handed out zeroed.
pub open spec fn is_run_of_trial(
    p0: Pmm,
    p1: Pmm,
    p2: Pmm,
    p3: Pmm,
    p4: Pmm,
    first: u64,
    second: u64,
    zeroed: u64,
) -> bool {
    &&& are_next(p0, p1, p2, first, second)
    &&& !is_too_low(first) && !is_too_low(second)
    &&& p2.took_back(p3, first, 1)
    &&& p3.gave_one(p4, zeroed)
}

/// Whether two frames are handed out next.
pub open spec fn is_pair(p0: Pmm, first: u64, second: u64) -> bool {
    exists|p1: Pmm, p2: Pmm| #[trigger] are_next(p0, p1, p2, first, second)
}

/// Whether in the end no four frames in a row are free.
pub open spec fn is_without_run(p0: Pmm) -> bool {
    exists|p1: Pmm, p2: Pmm, p3: Pmm, p4: Pmm, first: u64, second: u64, zeroed: u64| #[trigger]
        is_run_of_trial(p0, p1, p2, p3, p4, first, second, zeroed) && p4.has_no_run(4)
}

/// Whether in the end the first four frames in a row that are free start at `run`.
pub open spec fn is_with_run(p0: Pmm, first: u64, second: u64, run: u64) -> bool {
    exists|p1: Pmm, p2: Pmm, p3: Pmm, p4: Pmm, p5: Pmm, zeroed: u64|
        #![trigger is_run_of_trial(p0, p1, p2, p3, p4, first, second, zeroed), p4.gave_run(p5, run, 4)]
        is_run_of_trial(p0, p1, p2, p3, p4, first, second, zeroed) && p4.gave_run(p5, run, 4)
}

/// Take frames and give them back: they must be different, hold what is written to
/// them, and come zeroed where that is asked for.
#[verifier::rlimit(30)]
pub fn self_test(mem: &mut PhysicalMemory) -> (r: FrameTrial)
    requires
        old(mem).wf(),
    ensures
        final(mem).wf(),
        final(mem).hhdm == old(mem).hhdm,
        keeps_used(*old(mem), *final(mem)),
        r is NoFrames ==> *final(mem) == *old(mem),
        r is NoFrames <==> (old(mem).pmm is None || old(mem).pmm->0.free_frames == 0),
        r is AllocationFailed <==> (old(mem).pmm is Some && old(mem).pmm->0.free_frames == 1),
        r matches FrameTrial::BadFrames(a, b) ==> (is_too_low(a) || is_too_low(b)) && is_pair(
            old(mem).pmm->0,
            a,
            b,
        ),
        r is ContiguousFailed ==> is_without_run(old(mem).pmm->0),
        !(r is NotIndependent) && !(r is ZeroedFailed) && !(r is NotZeroed) && !(r is Leaked),
        r matches FrameTrial::Passed { first, second, run, free } ==> {
            &&& first != second
            &&& !is_too_low(first) && !is_too_low(second)
            &&& is_with_run(old(mem).pmm->0, first, second, run)
            &&& free == old(mem).pmm->0.free_frames
            &&& same_frames(*old(mem), *final(mem))
        },
{
    let ghost m0 = *mem;
    let before: usize = free_frame_count(mem);
    if before == 0 {
        return FrameTrial::NoFrames;
    }
    let a: u64 = match alloc_frame(mem) {
        Some(a) => a,
        None => {
            return FrameTrial::AllocationFailed;
        },
    };
    let ghost m1 = *mem;
    let b: u64 = match alloc_frame(mem) {
        Some(b) => b,
        None => {
            return FrameTrial::AllocationFailed;
        },
    };
    let ghost m2 = *mem;
    proof {
        lemma_taken(m0.pmm->0, m1.pmm->0, a);
        lemma_taken(m1.pmm->0, m2.pmm->0, b);
        assert(are_next(m0.pmm->0, m1.pmm->0, m2.pmm->0, a, b));
        assert(is_pair(m0.pmm->0, a, b));
    }
    if a == b || a % PAGE_SIZE != 0 || b % PAGE_SIZE != 0 || a < MIN_ALLOC_ADDR || b < MIN_ALLOC_ADDR {
        return FrameTrial::BadFrames(a, b);
    }
    let size: usize = mem.bytes.len();
    proof {
        assert(a + 4096 <= mem.bytes@.len() && b + 4096 <= mem.bytes@.len());
        lemma_le64_round_trip(0xdead_beef_cafe_f00d);
        lemma_le64_round_trip(0x0123_4567_89ab_cdef);
    }
    copy_into(mem.bytes.as_mut_slice(), a as usize, u64_to_le(0xdead_beef_cafe_f00d).as_slice());
    copy_into(mem.bytes.as_mut_slice(), b as usize, u64_to_le(0x0123_4567_89ab_cdef).as_slice());
    if u64le(mem.bytes.as_slice(), a as usize) != 0xdead_beef_cafe_f00d || u64le(
        mem.bytes.as_slice(),
        b as usize,
    ) != 0x0123_4567_89ab_cdef {
        return FrameTrial::NotIndependent(a, b);
    }
    fill_page(mem, a);
    let ghost m3 = *mem;
    assert(keeps_used(m0, m3)) by {
        assert forall|x: int|
            0 <= x < m0.bytes@.len() && is_used(m0.pmm->0.bitmap@, x / 4096) implies #[trigger] m3.bytes@[x]
            == m0.bytes@[x] by {
            assert(x / 4096 != a as int / 4096 && x / 4096 != b as int / 4096);
        }
    }
    let _given = free_frame(mem, a);
    let ghost m4 = *mem;
    proof {
        lemma_given(m3.pmm->0, m4.pmm->0, a, 1);
    }
    let z: u64 = match alloc_frame_zeroed(mem) {
        Some(z) => z,
        None => {
            return FrameTrial::ZeroedFailed;
        },
    };
    let ghost m5 = *mem;
    proof {
        lemma_taken(m4.pmm->0, m5.pmm->0, z);
        assert forall|x: int|
            0 <= x < m0.bytes@.len() && is_used(m0.pmm->0.bitmap@, x / 4096) implies #[trigger] m5.bytes@[x]
            == m0.bytes@[x] by {
            assert(m3.bytes@[x] == m0.bytes@[x]);
            let f = x / 4096;
            assert(is_used(m1.pmm->0.bitmap@, f) && is_used(m2.pmm->0.bitmap@, f));
            assert(f != a as int / 4096);
            assert(is_used(m4.pmm->0.bitmap@, f));
            assert(f != z as int / 4096);
        }
        assert(is_run_of_trial(m0.pmm->0, m1.pmm->0, m2.pmm->0, m4.pmm->0, m5.pmm->0, a, b, z));
    }
    if !is_page_zero(mem, z) {
        return FrameTrial::NotZeroed(z);
    }
    let run: u64 = match alloc_contiguous(mem, 4) {
        Some(run) => run,
        None => {
            return FrameTrial::ContiguousFailed;
        },
    };
    let ghost m6 = *mem;
    proof {
        lemma_taken_run(m5.pmm->0, m6.pmm->0, run, 4);
        assert(is_with_run(m0.pmm->0, a, b, run));
    }
    let _given = free_frame(mem, z);
    let ghost m7 = *mem;
    proof {
        lemma_given(m6.pmm->0, m7.pmm->0, z, 1);
    }
    let _given = free_frame(mem, b);
    let ghost m8 = *mem;
    proof {
        lemma_given(m7.pmm->0, m8.pmm->0, b, 1);
    }
    let _given = free_frames(mem, run, 4);
    proof {
        let first = run as int / 4096;
        assert forall|f: int| first <= f < first + 4 implies is_used(m8.pmm->0.bitmap@, f) by {
            assert(!is_used(m5.pmm->0.bitmap@, f));
            assert(is_used(m5.pmm->0.bitmap@, z as int / 4096));
            assert(is_used(m5.pmm->0.bitmap@, b as int / 4096));
            assert(is_used(m6.pmm->0.bitmap@, f));
            assert(is_used(m7.pmm->0.bitmap@, f));
        }
        lemma_given(m8.pmm->0, mem.pmm->0, run, 4);
        assert forall|f: int| 0 <= f < m0.pmm->0.total_frames implies #[trigger] is_used(
            mem.pmm->0.bitmap@,
            f,
        ) == is_used(m0.pmm->0.bitmap@, f) by {
            let g = m0.pmm->0.bitmap@;
            assert(!is_used(g, a as int / 4096) && !is_used(g, b as int / 4096));
            assert(is_used(m1.pmm->0.bitmap@, f) == (f == a as int / 4096 || is_used(g, f)));
            assert(is_used(m2.pmm->0.bitmap@, f) == (f == b as int / 4096 || is_used(
                m1.pmm->0.bitmap@,
                f,
            )));
            assert(is_used(m4.pmm->0.bitmap@, f) == (f == b as int / 4096 || is_used(g, f)));
            assert(is_used(m5.pmm->0.bitmap@, f) == (f == z as int / 4096 || is_used(
                m4.pmm->0.bitmap@,
                f,
            )));
            assert(!is_used(m4.pmm->0.bitmap@, z as int / 4096));
            assert(first <= f < first + 4 ==> !is_used(m5.pmm->0.bitmap@, f));
            assert(is_used(m6.pmm->0.bitmap@, f) == (first <= f < first + 4 || is_used(
                m5.pmm->0.bitmap@,
                f,
            )));
            assert(is_used(m7.pmm->0.bitmap@, f) == (is_used(m6.pmm->0.bitmap@, f) && f != z as int
                / 4096));
            assert(is_used(m8.pmm->0.bitmap@, f) == (is_used(m7.pmm->0.bitmap@, f) && f != b as int
                / 4096));
        }
    }
    let after: usize = free_frame_count(mem);
    if after != before {
        return FrameTrial::Leaked(before, after);
    }
    FrameTrial::Passed { first: a, second: b, run, free: after }
}

/// What handing out a frame does to the frames.
proof fn lemma_taken(before: Pmm, after: Pmm, phys: u64)
    requires
        before.wf(),
        before.gave_one(after, phys),
    ensures
        forall|f: int|
            0 <= f < before.total_frames ==> #[trigger] is_used(after.bitmap@, f) == (f == phys as int
                / 4096 || is_used(before.bitmap@, f)),
{
    assert forall|f: int| 0 <= f < before.total_frames implies #[trigger] is_used(after.bitmap@, f)
        == (f == phys as int / 4096 || is_used(before.bitmap@, f)) by {
        assert(0 <= f < before.bitmap@.len() * 64);
    }
}

/// What handing out a run of frames does to the frames.
proof fn lemma_taken_run(before: Pmm, after: Pmm, phys: u64, count: usize)
    requires
        before.wf(),
        before.gave_run(after, phys, count),
    ensures
        forall|f: int|
            0 <= f < before.total_frames ==> #[trigger] is_used(after.bitmap@, f) == (phys as int
                / 4096 <= f < phys as int / 4096 + count || is_used(before.bitmap@, f)),
        forall|f: int|
            phys as int / 4096 <= f < phys as int / 4096 + count ==> !#[trigger] is_used(
                before.bitmap@,
                f,
            ),
{
    assert forall|f: int| 0 <= f < before.total_frames implies #[trigger] is_used(after.bitmap@, f)
        == (phys as int / 4096 <= f < phys as int / 4096 + count || is_used(
        before.bitmap@,
        f,
    )) by {
        assert(0 <= f < before.bitmap@.len() * 64);
    }
}

/// What taking frames back does to the frames.
pub proof fn lemma_given(before: Pmm, after: Pmm, phys: u64, count: usize)
    requires
        before.wf(),
        before.took_back(after, phys, count),
        count > 0,
        phys % 4096 == 0,
        phys as int / 4096 + count <= before.total_frames,
        forall|f: int|
            phys as int / 4096 <= f < phys as int / 4096 + count ==> is_used(before.bitmap@, f),
    ensures
        after.free_frames == before.free_frames + count,
        after.same_memory(before),
        forall|f: int|
            0 <= f < before.total_frames ==> #[trigger] is_used(after.bitmap@, f) == (is_used(
                before.bitmap@,
                f,
            ) && !(phys as int / 4096 <= f < phys as int / 4096 + count)),
{
    assert(before.free_result(phys, count) is Ok);
    assert forall|f: int| 0 <= f < before.total_frames implies #[trigger] is_used(after.bitmap@, f)
        == (is_used(before.bitmap@, f) && !(phys as int / 4096 <= f < phys as int / 4096
        + count)) by {
        assert(0 <= f < before.bitmap@.len() * 64);
    }
}

/// Fill a page with ones and zeros in turn.
fn fill_page(mem: &mut PhysicalMemory, page: u64)
    requires
        page + 4096 <= old(mem).bytes@.len(),
    ensures
        final(mem).hhdm == old(mem).hhdm,
        final(mem).pmm == old(mem).pmm,
        final(mem).bytes@ == Seq::new(
            old(mem).bytes@.len(),
            |i: int|
                if page <= i < page + 4096 {
                    0xaau8
                } else {
                    old(mem).bytes@[i]
                },
        ),
{
    let ghost before = mem.bytes@;
    let size: usize = mem.bytes.len();
    let start: usize = page as usize;
    let mut i: usize = 0;
    while i < 4096
        invariant
            i <= 4096,
            start == page,
            size == mem.bytes@.len(),
            start + 4096 <= size,
            mem.bytes@.len() == before.len(),
            mem.hhdm == old(mem).hhdm,
            mem.pmm == old(mem).pmm,
            forall|k: int|
                0 <= k < before.len() ==> #[trigger] mem.bytes@[k] == if start <= k < start + i {
                    0xaau8
                } else {
                    before[k]
                },
        decreases 4096 - i,
    {
        let at: usize = start + i;
        mem.bytes[at] = 0xaa;
        i += 1;
    }
    assert(mem.bytes@ =~= Seq::new(
        before.len(),
        |i: int|
            if page <= i < page + 4096 {
                0xaau8
            } else {
                before[i]
            },
    ));
}

/// Whether a page holds nothing but zeros.
fn is_page_zero(mem: &PhysicalMemory, page: u64) -> (r: bool)
    requires
        page + 4096 <= mem.bytes@.len(),
    ensures
        r == forall|i: int| page <= i < page + 4096 ==> #[trigger] mem.bytes@[i] == 0,
{
    let size: usize = mem.bytes.len();
    let start: usize = page as usize;
    let mut i: usize = 0;
    while i < 4096
        invariant
            i <= 4096,
            start == page,
            size == mem.bytes@.len(),
            start + 4096 <= size,
            forall|k: int| start <= k < start + i ==> #[trigger] mem.bytes@[k] == 0,
        decreases 4096 - i,
    {
        if mem.bytes[start + i] != 0 {
            assert(mem.bytes@[start + i] != 0);
            return false;
        }
        i += 1;
    }
    true
}

/// A size is told in whole mebibytes, or in kibibytes where it is less than one.
pub proof fn law_size_text(bytes: u64)
    ensures
        ({
            let t = size_text(bytes);
            let n = number_of(t.take(t.len() - 4), 10);
            &&& t.len() > 4
            &&& t.skip(t.len() - 4) == if bytes >= 0x10_0000 {
                seq![' ', 'M', 'i', 'B']
            } else {
                seq![' ', 'K', 'i', 'B']
            }
            &&& bytes >= 0x10_0000 ==> n * 0x10_0000 <= bytes < (n + 1) * 0x10_0000
            &&& bytes < 0x10_0000 ==> n * 0x400 <= bytes < (n + 1) * 0x400
        }),
{
    reveal_strlit(" MiB");
    reveal_strlit(" KiB");
    let n = if bytes >= 0x10_0000 {
        (bytes / 0x10_0000) as nat
    } else {
        (bytes / 0x400) as nat
    };
    law_decimal(n);
    let t = size_text(bytes);
    assert(t.take(t.len() - 4) =~= decimal(n));
    if bytes >= 0x10_0000 {
        assert(t.skip(t.len() - 4) =~= seq![' ', 'M', 'i', 'B']);
    } else {
        assert(t.skip(t.len() - 4) =~= seq![' ', 'K', 'i', 'B']);
    }
}

} // verus!
