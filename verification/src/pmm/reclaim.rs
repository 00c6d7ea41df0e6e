//! Handing the bootloader's memory to the allocator.

use vstd::prelude::*;
use super::{
    fill_range, free_below, is_offered, is_used, lemma_fill_count, lemma_free_bound, Kind,
    PhysicalMemory, Pmm, Region,
};

verus! {

/// Whether a frame belongs to the bootloader in one of the first `n` entries of a
/// memory map.
pub open spec fn is_reclaimable(map: Seq<Region>, n: int, f: int) -> bool {
    exists|i: int|
        0 <= i < n && #[trigger] map[i].kind == Kind::BootloaderReclaimable && map[i].has_frame(f)
}

/// The number of frames that belong to the bootloader.
pub open spec fn reclaimable(map: Seq<Region>, n: int) -> int
    decreases n,
{
    if n <= 0 {
        0
    } else {
        reclaimable(map, n - 1) + if map[n - 1].kind == Kind::BootloaderReclaimable {
            map[n - 1].frame_count()
        } else {
            0
        }
    }
}

/// Whether the bootloader's memory is still its own: all of it lies in memory and is
/// marked used, and no frame of it is listed twice.
pub open spec fn is_bootloaders(p: Pmm) -> bool {
    let map = p.regions@;
    &&& forall|f: int| #[trigger]
        is_reclaimable(map, map.len() as int, f) ==> f < p.total_frames && is_used(p.bitmap@, f)
    &&& forall|i: int, j: int, f: int|
        #![trigger map[i].has_frame(f), map[j].has_frame(f)]
        0 <= i < j < map.len() && map[i].kind == Kind::BootloaderReclaimable && map[j].kind
            == Kind::BootloaderReclaimable ==> !(map[i].has_frame(f) && map[j].has_frame(f))
}

/// Whether the bootloader's frames have become free, and nothing else has changed.
pub open spec fn is_reclaimed(before: Pmm, after: Pmm) -> bool {
    let n = before.regions@.len() as int;
    &&& after.total_frames == before.total_frames
    &&& after.regions == before.regions
    &&& after.bitmap@.len() == before.bitmap@.len()
    &&& forall|f: int|
        0 <= f < before.bitmap@.len() * 64 ==> #[trigger] is_used(after.bitmap@, f) == (is_used(
            before.bitmap@,
            f,
        ) && !is_reclaimable(before.regions@, n, f))
    &&& after.free_frames == before.free_frames + reclaimable(before.regions@, n)
    &&& after.usable_frames == before.usable_frames + reclaimable(before.regions@, n)
    &&& after.next_hint == 0
}

/// Give the frames that the bootloader used to the allocator, once nothing of the
/// bootloader's is needed any more, and say how many they are.
pub fn reclaim_bootloader_memory(mem: &mut PhysicalMemory) -> (r: usize)
    requires
        old(mem).wf(),
        old(mem).pmm matches Some(p) ==> is_bootloaders(p) && p.usable_frames + p.total_frames
            <= usize::MAX,
    ensures
        final(mem).wf(),
        final(mem).same_bytes(*old(mem)),
        match old(mem).pmm {
            Some(p) => {
                &&& final(mem).pmm is Some
                &&& is_reclaimed(p, final(mem).pmm->0)
                &&& r == reclaimable(p.regions@, p.regions@.len() as int)
            },
            None => r == 0 && final(mem).pmm is None,
        },
{
    match &mut mem.pmm {
        Some(pmm) => reclaim(pmm),
        None => 0,
    }
}

fn reclaim(pmm: &mut Pmm) -> (r: usize)
    requires
        old(pmm).wf(),
        is_bootloaders(*old(pmm)),
        old(pmm).usable_frames + old(pmm).total_frames <= usize::MAX,
    ensures
        final(pmm).wf(),
        is_reclaimed(*old(pmm), *final(pmm)),
        r == reclaimable(old(pmm).regions@, old(pmm).regions@.len() as int),
{
    let ghost map = pmm.regions@;
    let ghost total = pmm.total_frames as int;
    let ghost before = pmm.bitmap@;
    let mut frames: usize = 0;
    let mut i: usize = 0;
    while i < pmm.regions.len()
        invariant
            i <= map.len(),
            map == pmm.regions@,
            old(pmm).wf(),
            is_bootloaders(*old(pmm)),
            before == old(pmm).bitmap@,
            total == old(pmm).total_frames,
            pmm.regions == old(pmm).regions,
            pmm.total_frames == old(pmm).total_frames,
            pmm.free_frames == old(pmm).free_frames,
            pmm.usable_frames == old(pmm).usable_frames,
            pmm.next_hint == old(pmm).next_hint,
            pmm.bitmap@.len() == before.len(),
            frames == reclaimable(map, i as int),
            free_below(pmm.bitmap@, total) == free_below(before, total) + frames,
            forall|f: int|
                0 <= f < before.len() * 64 ==> #[trigger] is_used(pmm.bitmap@, f) == (is_used(
                    before,
                    f,
                ) && !is_reclaimable(map, i as int, f)),
        decreases map.len() - i,
    {
        let region: Region = pmm.regions[i];
        let ghost mid = pmm.bitmap@;
        assert(map[i as int].wf());
        if region.kind == Kind::BootloaderReclaimable {
            let (first, count): (u64, u64) = region.frames();
            if count > 0 {
                proof {
                    assert forall|f: int| first <= f < first + count implies f < total && is_used(
                        mid,
                        f,
                    ) by {
                        assert(map[i as int].has_frame(f));
                        assert(is_reclaimable(map, map.len() as int, f));
                        assert(0 <= f < before.len() * 64);
                        if is_reclaimable(map, i as int, f) {
                            let j = choose|j: int|
                                0 <= j < i && #[trigger] map[j].kind == Kind::BootloaderReclaimable
                                    && map[j].has_frame(f);
                            assert(map[j].has_frame(f) && map[i as int].has_frame(f));
                        }
                    }
                    let last = first + count - 1;
                    assert(map[i as int].has_frame(last));
                    assert(is_reclaimable(map, map.len() as int, last));
                    assert(last < total);
                }
                fill_range(&mut pmm.bitmap, first as usize, count as usize, false);
                proof {
                    lemma_fill_count(mid, pmm.bitmap@, first as int, first + count, false, total);
                    lemma_free_bound(pmm.bitmap@, total);
                    lemma_free_bound(before, total);
                }
                frames += count as usize;
            }
        }
        i += 1;
        assert forall|f: int| 0 <= f < before.len() * 64 implies #[trigger] is_used(
            pmm.bitmap@,
            f,
        ) == (is_used(before, f) && !is_reclaimable(map, i as int, f)) by {
            assert(is_used(mid, f) == (is_used(before, f) && !is_reclaimable(map, i - 1, f)));
            if is_reclaimable(map, i - 1, f) {
                let j = choose|j: int|
                    0 <= j < i - 1 && #[trigger] map[j].kind == Kind::BootloaderReclaimable
                        && map[j].has_frame(f);
                assert(map[j].kind == Kind::BootloaderReclaimable && map[j].has_frame(f));
                assert(is_reclaimable(map, i as int, f));
            }
            if is_reclaimable(map, i as int, f) && !is_reclaimable(map, i - 1, f) {
                let j = choose|j: int|
                    0 <= j < i && #[trigger] map[j].kind == Kind::BootloaderReclaimable
                        && map[j].has_frame(f);
                assert(j == i - 1);
            }
            if map[i - 1].kind == Kind::BootloaderReclaimable && map[i - 1].has_frame(f) {
                assert(is_reclaimable(map, i as int, f));
            }
        }
    }
    proof {
        lemma_free_bound(pmm.bitmap@, total);
    }
    pmm.free_frames += frames;
    pmm.usable_frames += frames;
    pmm.next_hint = 0;
    assert forall|f: int| total <= f < pmm.bitmap@.len() * 64 implies is_used(pmm.bitmap@, f) by {
        assert(is_used(before, f));
        if is_reclaimable(map, map.len() as int, f) {
            assert(f < total);
        }
    }
    frames
}

/// The bootloader's memory can be had once: after that every frame of it is free, so
/// no frame of it is counted again.
pub proof fn law_reclaimed_frames_are_free(before: Pmm, after: Pmm, f: int)
    requires
        before.wf(),
        is_bootloaders(before),
        is_reclaimed(before, after),
        is_reclaimable(before.regions@, before.regions@.len() as int, f),
        0 <= f,
    ensures
        !is_used(after.bitmap@, f),
        f < after.total_frames,
{
    assert(0 <= f < before.bitmap@.len() * 64);
}

/// Whether the memory map lets a frame be handed out, now or once the bootloader is done
/// with it.
pub open spec fn is_for_use(map: Seq<Region>, f: int) -> bool {
    is_offered(map, map.len() as int, f) || is_reclaimable(map, map.len() as int, f)
}

/// Whether every frame that is not for use is kept from use.
pub open spec fn keeps_reserved(p: Pmm) -> bool {
    forall|f: int|
        0 <= f < p.total_frames && !is_for_use(p.regions@, f) ==> #[trigger] is_used(p.bitmap@, f)
}

/// Memory that is not for use, such as the kernel's own or a boot module's, is kept from
/// use from the start.
pub proof fn law_reserved_from_the_start(p: Pmm, first: int, end: int)
    requires
        forall|f: int|
            0 <= f < p.total_frames ==> #[trigger] is_used(p.bitmap@, f) == (!is_offered(
                p.regions@,
                p.regions@.len() as int,
                f,
            ) || first <= f < end),
    ensures
        keeps_reserved(p),
{
}

/// Memory that is not for use is never handed out.
pub proof fn law_reserved_memory_is_not_handed_out(a: Pmm, b: Pmm, p: u64, count: usize)
    requires
        a.wf(),
        keeps_reserved(a),
        a.gave_run(b, p, count) || (a.gave_one(b, p) && count == 1),
    ensures
        keeps_reserved(b),
        forall|f: int|
            p as int / 4096 <= f < p as int / 4096 + count ==> #[trigger] is_for_use(
                a.regions@,
                f,
            ),
{
    assert forall|f: int| p as int / 4096 <= f < p as int / 4096 + count implies #[trigger] is_for_use(
        a.regions@,
        f,
    ) by {
        assert(!is_used(a.bitmap@, f));
    }
    assert forall|f: int| 0 <= f < b.total_frames && !is_for_use(b.regions@, f) implies #[trigger] is_used(
        b.bitmap@,
        f,
    ) by {
        assert(is_used(a.bitmap@, f));
        assert(0 <= f < a.bitmap@.len() * 64);
    }
}

/// Nor does it become free when frames that were handed out are taken back, or when the
/// bootloader's memory is.
pub proof fn law_reserved_memory_stays_reserved(a: Pmm, b: Pmm, p: u64, count: usize)
    requires
        a.wf(),
        keeps_reserved(a),
        is_reclaimed(a, b) || (a.took_back(b, p, count) && forall|f: int|
            p as int / 4096 <= f < p as int / 4096 + count ==> #[trigger] is_for_use(
                a.regions@,
                f,
            )),
    ensures
        keeps_reserved(b),
{
    assert forall|f: int| 0 <= f < b.total_frames && !is_for_use(b.regions@, f) implies #[trigger] is_used(
        b.bitmap@,
        f,
    ) by {
        assert(is_used(a.bitmap@, f));
        assert(0 <= f < a.bitmap@.len() * 64);
    }
}

} // verus!
