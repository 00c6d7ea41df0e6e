//! What the kernel's own address space is to show.

use vstd::prelude::*;
use crate::pmm::{
    align_down, align_up, hhdm_ranges, mapped_ranges, page_down, page_up, PhysicalMemory,
};
use super::layout::{covers, is_sorted, last_mode, merge_ranges, Mapping, KERNEL_SPACE};
use super::{
    ADDR_MASK, KERNEL_RO, KERNEL_RW, KERNEL_RX, KERNEL_WC, NO_EXECUTE, PHYS_LIMIT, PRESENT,
    WRITABLE,
};

verus! {

/// A part of the kernel image: where it starts and ends, and how it is mapped.
#[derive(Clone, Copy, Debug, PartialEq, Eq, Structural)]
pub struct Section {
    pub start: u64,
    pub end: u64,
    pub flags: u64,
}

/// The parts of the kernel image and how each is mapped: code to be executed and not
/// written, constants only to be read, and data to be written and not executed.
pub open spec fn image_sections(
    text: (u64, u64),
    rodata: (u64, u64),
    data: (u64, u64),
) -> Seq<Section> {
    seq![
        Section { start: text.0, end: text.1, flags: KERNEL_RX },
        Section { start: rodata.0, end: rodata.1, flags: KERNEL_RO },
        Section { start: data.0, end: data.1, flags: KERNEL_RW },
    ]
}

/// The parts of the kernel image, from where each starts and ends.
pub fn kernel_sections(text: (u64, u64), rodata: (u64, u64), data: (u64, u64)) -> (r: Vec<Section>)
    ensures
        r@ == image_sections(text, rodata, data),
{
    let mut r: Vec<Section> = Vec::new();
    r.push(Section { start: text.0, end: text.1, flags: KERNEL_RX });
    r.push(Section { start: rodata.0, end: rodata.1, flags: KERNEL_RO });
    r.push(Section { start: data.0, end: data.1, flags: KERNEL_RW });
    assert(r@ =~= image_sections(text, rodata, data));
    r
}

/// The framebuffer: where the bootloader shows it, and its size.
#[derive(Clone, Copy, Debug, PartialEq, Eq, Structural)]
pub struct Picture {
    pub at: u64,
    pub size: u64,
}

/// Whether ranges are those of `all`, in order, with any that touch or overlap made
/// into one.
pub open spec fn is_merged(ranges: Seq<(u64, u64)>, all: Seq<(u64, u64)>) -> bool {
    &&& forall|x: int| covers(ranges, ranges.len() as int, x) == covers(all, all.len() as int, x)
    &&& is_sorted(ranges, ranges.len() as int)
    &&& forall|i: int, j: int|
        0 <= i < j < ranges.len() ==> (#[trigger] ranges[i]).1 < (#[trigger] ranges[j]).0
            || ranges[i].1 < ranges[i].0
}

/// Memory in the direct map.
pub open spec fn direct_piece(hhdm: u64, range: (u64, u64)) -> Mapping {
    Mapping { base: hhdm, start: range.0, end: range.1, flags: KERNEL_RW, huge: true }
}

/// The framebuffer, in the direct map but write-combining. One that the bootloader
/// shows elsewhere is left alone.
pub open spec fn picture_pieces(hhdm: u64, fb: Option<Picture>) -> Option<Seq<Mapping>> {
    match fb {
        Some(p) => if p.at < hhdm {
            Some(Seq::empty())
        } else if p.at - hhdm + p.size + 4095 > u64::MAX {
            None
        } else {
            Some(
                seq![
                    Mapping {
                        base: hhdm,
                        start: page_down(p.at - hhdm) as u64,
                        end: page_up(p.at - hhdm + p.size) as u64,
                        flags: KERNEL_WC,
                        huge: false,
                    },
                ],
            )
        },
        None => Some(Seq::empty()),
    }
}

/// A section of the image, which lies at `phys` and is shown at `virt`.
pub open spec fn section_piece(phys: u64, virt: u64, s: Section) -> Option<Mapping> {
    let base = virt - phys;
    if base < 0 || s.end + 4095 > u64::MAX || page_down(s.start as int) < base || page_up(
        s.end as int,
    ) < base {
        None
    } else {
        Some(
            Mapping {
                base: base as u64,
                start: (page_down(s.start as int) - base) as u64,
                end: (page_up(s.end as int) - base) as u64,
                flags: s.flags,
                huge: false,
            },
        )
    }
}

pub open spec fn section_pieces(phys: u64, virt: u64, s: Seq<Section>, n: int) -> Option<Seq<Mapping>>
    decreases n,
{
    if n <= 0 {
        Some(Seq::empty())
    } else {
        match (section_pieces(phys, virt, s, n - 1), section_piece(phys, virt, s[n - 1])) {
            (Some(before), Some(piece)) => Some(before.push(piece)),
            _ => None,
        }
    }
}

/// Everything that the kernel sees: memory, the framebuffer and its own image.
pub open spec fn all_pieces(
    hhdm: u64,
    ranges: Seq<(u64, u64)>,
    fb: Option<Picture>,
    image: (u64, u64),
    sections: Seq<Section>,
) -> Option<Seq<Mapping>> {
    match (
        picture_pieces(hhdm, fb),
        section_pieces(image.0, image.1, sections, sections.len() as int),
    ) {
        (Some(picture), Some(parts)) => Some(
            ranges.map_values(|r: (u64, u64)| direct_piece(hhdm, r)) + picture + parts,
        ),
        _ => None,
    }
}

/// Whether flags allow writing or executing at most.
pub open spec fn is_one_way(mode: u64) -> bool {
    mode & WRITABLE == 0 || mode & NO_EXECUTE != 0
}

proof fn lemma_one_way()
    ensures
        is_one_way(KERNEL_RX | PRESENT),
        is_one_way(KERNEL_RO | PRESENT),
        is_one_way(KERNEL_RW),
        is_one_way(KERNEL_RW | PRESENT),
        is_one_way(KERNEL_WC | PRESENT),
{
    assert((1u64 | 1) & 2 == 0 && ((1u64 | 0x8000_0000_0000_0000) | 1) & 2 == 0 && (1u64 | 2
        | 0x8000_0000_0000_0000) & 0x8000_0000_0000_0000 != 0 && ((1u64 | 2 | 0x8000_0000_0000_0000)
        | 1) & 0x8000_0000_0000_0000 != 0 && ((1u64 | 2 | 0x8000_0000_0000_0000 | 8) | 1)
        & 0x8000_0000_0000_0000 != 0) by (bit_vector);
}

proof fn lemma_last_one_way(maps: Seq<Mapping>, n: int, v: u64)
    requires
        0 <= n <= maps.len(),
        forall|i: int| 0 <= i < n ==> is_one_way((#[trigger] maps[i]).mode()),
    ensures
        last_mode(maps, n, v, None) matches Some(f) ==> is_one_way(f),
    decreases n,
{
    if n > 0 {
        lemma_last_one_way(maps, n - 1, v);
    }
}

/// In the address space that is planned for the kernel, nothing is both writable and
/// executable, and the code, constants and data of its image are mapped as they should
/// be: a page that parts share is mapped as the last of them is.
pub proof fn law_kernel_image_is_protected(
    hhdm: u64,
    ranges: Seq<(u64, u64)>,
    fb: Option<Picture>,
    image: (u64, u64),
    text: (u64, u64),
    rodata: (u64, u64),
    data: (u64, u64),
    v: u64,
)
    requires
        all_pieces(hhdm, ranges, fb, image, image_sections(text, rodata, data)) is Some,
    ensures
        ({
            let maps = all_pieces(
                hhdm,
                ranges,
                fb,
                image,
                image_sections(text, rodata, data),
            )->0;
            let mode = last_mode(maps, maps.len() as int, v, None);
            &&& mode matches Some(f) ==> is_one_way(f)
            &&& in_pages(data, v) ==> mode == Some(KERNEL_RW | PRESENT)
            &&& in_pages(rodata, v) && !in_pages(data, v) ==> mode == Some(KERNEL_RO | PRESENT)
            &&& in_pages(text, v) && !in_pages(rodata, v) && !in_pages(data, v) ==> mode == Some(
                KERNEL_RX | PRESENT,
            )
        }),
{
    let s = image_sections(text, rodata, data);
    let maps = all_pieces(hhdm, ranges, fb, image, s)->0;
    let n = maps.len() as int;
    reveal_with_fuel(section_pieces, 4);
    reveal_with_fuel(last_mode, 4);
    lemma_one_way();
    let parts = section_pieces(image.0, image.1, s, 3)->0;
    assert(parts.len() == 3);
    assert(maps[n - 1] == parts[2] && maps[n - 2] == parts[1] && maps[n - 3] == parts[0]);
    assert forall|i: int| 0 <= i < n implies is_one_way((#[trigger] maps[i]).mode()) by {}
    lemma_last_one_way(maps, n, v);
}

/// Whether an address lies in a page that a range touches.
pub open spec fn in_pages(range: (u64, u64), v: u64) -> bool {
    page_down(range.0 as int) <= v < page_up(range.1 as int)
}

/// Whether a mapping can be made.
fn can_be_made(k: &Mapping) -> (r: bool)
    ensures
        r == k.wf(),
{
    k.start <= k.end && k.end <= PHYS_LIMIT && k.start % 4096 == 0 && k.end % 4096 == 0 && k.base
        % (if k.huge {
        0x20_0000u64
    } else {
        4096u64
    }) == 0 && k.base <= u64::MAX - k.end && k.base + k.start >= KERNEL_SPACE && k.end - k.start
        <= 0xffff_ffe0_0000 && k.flags & ADDR_MASK == 0
}

/// What to map for the kernel: the memory that the memory map says is real, the
/// framebuffer, and the sections of the kernel image. Holes in between hold device
/// registers, which must not end up cacheable.
///
/// There is no plan where a piece does not fit into kernel space.
pub fn plan(
    mem: &PhysicalMemory,
    fb: Option<Picture>,
    image: (u64, u64),
    sections: &[Section],
) -> (r: Option<Vec<Mapping>>)
    requires
        mem.wf(),
    ensures
        exists|ranges: Seq<(u64, u64)>|
            is_merged(
                ranges,
                match mem.pmm {
                    Some(p) => mapped_ranges(p.regions@, p.regions@.len() as int),
                    None => Seq::empty(),
                },
            ) && match #[trigger] all_pieces(mem.hhdm, ranges, fb, image, sections@) {
                Some(all) => match r {
                    Some(maps) => maps@ == all && forall|i: int|
                        0 <= i < all.len() ==> (#[trigger] all[i]).wf(),
                    None => exists|i: int| 0 <= i < all.len() && !(#[trigger] all[i]).wf(),
                },
                None => r is None,
            },
{
    let mut ranges: Vec<(u64, u64)> = hhdm_ranges(mem);
    let ghost all = ranges@;
    let n: usize = merge_ranges(&mut ranges);
    let ghost merged = ranges@.take(n as int);
    proof {
        lemma_taken(ranges@, n as int, all);
    }
    let mut maps: Vec<Mapping> = Vec::new();
    let mut i: usize = 0;
    while i < n
        invariant
            i <= n <= ranges@.len(),
            merged == ranges@.take(n as int),
            maps@ == merged.take(i as int).map_values(|r: (u64, u64)| direct_piece(mem.hhdm, r)),
        decreases n - i,
    {
        let k: Mapping = Mapping {
            base: mem.hhdm,
            start: ranges[i].0,
            end: ranges[i].1,
            flags: KERNEL_RW,
            huge: true,
        };
        assert(k == direct_piece(mem.hhdm, merged[i as int]));
        maps.push(k);
        i += 1;
        assert(merged.take(i as int) =~= merged.take(i - 1).push(merged[i - 1]));
        assert(maps@ =~= merged.take(i as int).map_values(
            |r: (u64, u64)| direct_piece(mem.hhdm, r),
        ));
    }
    let ghost direct = maps@;
    assert(merged.take(n as int) =~= merged);
    assert(direct == merged.map_values(|r: (u64, u64)| direct_piece(mem.hhdm, r)));
    if let Some(p) = fb {
        if p.at >= mem.hhdm {
            let from: u64 = p.at - mem.hhdm;
            if p.size > u64::MAX - from || from + p.size > u64::MAX - 4095 {
                return None;
            }
            maps.push(
                Mapping {
                    base: mem.hhdm,
                    start: align_down(from),
                    end: align_up(from + p.size),
                    flags: KERNEL_WC,
                    huge: false,
                },
            );
        }
    }
    let ghost front = maps@;
    assert(front =~= direct + picture_pieces(mem.hhdm, fb)->0);
    let mut j: usize = 0;
    while j < sections.len()
        invariant
            j <= sections@.len(),
            is_merged(merged, all),
            all == match mem.pmm {
                Some(p) => mapped_ranges(p.regions@, p.regions@.len() as int),
                None => Seq::empty(),
            },
            section_pieces(image.0, image.1, sections@, j as int) matches Some(parts) && maps@
                == front + parts,
        decreases sections@.len() - j,
    {
        let s: Section = sections[j];
        let ghost parts = section_pieces(image.0, image.1, sections@, j as int)->0;
        if image.1 < image.0 || s.end > u64::MAX - 4095 || align_down(s.start) < image.1 - image.0
            || align_up(s.end) < image.1 - image.0 {
            proof {
                lemma_no_section(image.0, image.1, sections@, j as int, sections@.len() as int);
                assert(all_pieces(mem.hhdm, merged, fb, image, sections@) is None);
            }
            return None;
        }
        let base: u64 = image.1 - image.0;
        let k: Mapping = Mapping {
            base,
            start: align_down(s.start) - base,
            end: align_up(s.end) - base,
            flags: s.flags,
            huge: false,
        };
        assert(section_piece(image.0, image.1, sections@[j as int]) == Some(k));
        maps.push(k);
        j += 1;
        assert(maps@ =~= front + parts.push(k));
    }
    let ghost whole = all_pieces(mem.hhdm, merged, fb, image, sections@);
    assert(whole == Some(maps@));
    let mut m: usize = 0;
    while m < maps.len()
        invariant
            m <= maps@.len(),
            whole == Some(maps@),
            whole == all_pieces(mem.hhdm, merged, fb, image, sections@),
            is_merged(merged, all),
            all == match mem.pmm {
                Some(p) => mapped_ranges(p.regions@, p.regions@.len() as int),
                None => Seq::empty(),
            },
            forall|i: int| 0 <= i < m ==> (#[trigger] maps@[i]).wf(),
        decreases maps@.len() - m,
    {
        if !can_be_made(&maps[m]) {
            assert(!(all_pieces(mem.hhdm, merged, fb, image, sections@)->0)[m as int].wf());
            return None;
        }
        m += 1;
    }
    Some(maps)
}

/// The first of the merged ranges, by themselves.
proof fn lemma_taken(r: Seq<(u64, u64)>, n: int, all: Seq<(u64, u64)>)
    requires
        0 <= n <= r.len(),
        forall|x: int| covers(r, n, x) == covers(all, all.len() as int, x),
        is_sorted(r, n),
        forall|i: int, j: int|
            0 <= i < j < n ==> (#[trigger] r[i]).1 < (#[trigger] r[j]).0 || r[i].1 < r[i].0,
    ensures
        is_merged(r.take(n), all),
{
    let t = r.take(n);
    assert forall|x: int| covers(t, n, x) == covers(r, n, x) by {
        if covers(t, n, x) {
            let i = choose|i: int| 0 <= i < n && (#[trigger] t[i]).0 <= x < t[i].1;
            assert(r[i].0 <= x < r[i].1);
        }
        if covers(r, n, x) {
            let i = choose|i: int| 0 <= i < n && (#[trigger] r[i]).0 <= x < r[i].1;
            assert(t[i].0 <= x < t[i].1);
        }
    }
    assert forall|x: int| covers(t, t.len() as int, x) == covers(all, all.len() as int, x) by {
        assert(covers(t, n, x) == covers(r, n, x));
    }
}

/// A section that cannot be mapped leaves none.
proof fn lemma_no_section(phys: u64, virt: u64, s: Seq<Section>, j: int, n: int)
    requires
        0 <= j < n,
        section_piece(phys, virt, s[j]) is None,
    ensures
        section_pieces(phys, virt, s, n) is None,
    decreases n,
{
    if j < n - 1 {
        lemma_no_section(phys, virt, s, j, n - 1);
    }
}

} // verus!
