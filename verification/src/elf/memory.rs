//! What a program finds in its memory once it is loaded.

use vstd::prelude::*;
use crate::pmm::{page_down, PhysicalMemory};
use crate::vmm::{leaf_at, leaf_of, walked};
use super::install::{is_loaded, is_mixed, load_fault, page_flags};
use super::loader::{byte_of, is_page_executable, is_page_writable, is_touched};
use super::{law_accepted_images, parsed, ElfError, Segment};

verus! {

proof fn lemma_byte_of(image: Seq<u8>, s: Seq<Segment>, n: int, j: int, v: int)
    requires
        0 <= n <= s.len(),
        0 <= j < s.len(),
        s[j].vaddr <= v < s[j].vaddr + s[j].memsz,
        s[j].filesz <= s[j].memsz,
        forall|k: int|
            0 <= k < s.len() && k != j ==> !((#[trigger] s[k]).vaddr <= v < s[k].vaddr + s[k].filesz),
    ensures
        byte_of(image, s, n, v) == if j < n && v < s[j].vaddr + s[j].filesz {
            image[s[j].offset + (v - s[j].vaddr)]
        } else {
            0
        },
    decreases n,
{
    if n > 0 {
        lemma_byte_of(image, s, n - 1, j, v);
        assert(n - 1 != j ==> !(s[n - 1].vaddr <= v < s[n - 1].vaddr + s[n - 1].filesz));
    }
}

proof fn lemma_leaf_bits(phys: u64)
    by (bit_vector)
    ensures
        ((phys & 0x000f_ffff_ffff_f000) | (1u64 | 4) | 1) % 8 == 5,
        ((phys & 0x000f_ffff_ffff_f000) | (1u64 | 4) | 1) / 0x8000_0000_0000_0000 == 0,
        ((phys & 0x000f_ffff_ffff_f000) | (1u64 | 4 | 0x8000_0000_0000_0000) | 1) % 8 == 5,
        ((phys & 0x000f_ffff_ffff_f000) | (1u64 | 4 | 0x8000_0000_0000_0000) | 1)
            / 0x8000_0000_0000_0000 == 1,
        ((phys & 0x000f_ffff_ffff_f000) | (1u64 | 2 | 4 | 0x8000_0000_0000_0000) | 1) % 8 == 7,
        ((phys & 0x000f_ffff_ffff_f000) | (1u64 | 2 | 4 | 0x8000_0000_0000_0000) | 1)
            / 0x8000_0000_0000_0000 == 1,
{
}

/// Whether an entry of a page table lets a program use the page: for writing, and for
/// execution, as given.
pub open spec fn allows(entry: u64, write: bool, execute: bool) -> bool {
    &&& entry % 2 == 1
    &&& entry / 4 % 2 == 1
    &&& (entry / 2 % 2 == 1) == write
    &&& (entry / 0x8000_0000_0000_0000 == 0) == execute
}

proof fn lemma_at(
    before: PhysicalMemory,
    after: PhysicalMemory,
    root: u64,
    image: Seq<u8>,
    s: Seq<Segment>,
    v: u64,
)
    requires
        is_loaded(before, after, root, image, s),
        v < super::LOAD_MAX,
        is_touched(s, s.len() as int, page_down(v as int)),
    ensures
        walked(after.bytes@, root, v) matches Some(p) && after.bytes@[p as int] == byte_of(
            image,
            s,
            s.len() as int,
            v as int,
        ),
        walked(after.bytes@, root, v) matches Some(p) && leaf_at(
            after.bytes@,
            root,
            page_down(v as int) as u64,
        ) == Some(
            leaf_of(
                page_down(p as int) as u64,
                page_flags(
                    is_page_writable(s, s.len() as int, page_down(v as int)),
                    is_page_executable(s, s.len() as int, page_down(v as int)),
                ),
            ),
        ),
{
    reveal(is_loaded);
}

proof fn lemma_in_segment(image: Seq<u8>, entry: u64, s: Seq<Segment>, j: int, o: int)
    requires
        parsed(image) == Ok::<(u64, Seq<Segment>), ElfError>((entry, s)),
        0 <= j < s.len(),
        0 <= o < s[j].memsz,
    ensures
        s[j].vaddr + o < super::LOAD_MAX,
        s[j].filesz <= s[j].memsz,
        is_touched(s, s.len() as int, page_down(s[j].vaddr + o)),
        forall|k: int|
            0 <= k < s.len() && k != j ==> !((#[trigger] s[k]).vaddr <= s[j].vaddr + o < s[k].vaddr
                + s[k].filesz),
{
    law_accepted_images(image);
    let v = s[j].vaddr + o;
    assert(s[j].end() <= super::LOAD_MAX);
    assert(s[j].touches(page_down(v)));
    assert forall|k: int| 0 <= k < s.len() && k != j implies !((#[trigger] s[k]).vaddr <= v
        < s[k].vaddr + s[k].filesz) by {
        assert(s[k].filesz <= s[k].memsz);
        if k < j {
            assert(!super::overlap(s[k], s[j]));
        } else {
            assert(!super::overlap(s[j], s[k]));
        }
    }
}

/// Each byte of a segment is in the memory of the program: those that the file has are
/// those of the file, from the segment's offset on, and the rest are zeros.
pub proof fn law_segments_are_in_memory(
    before: PhysicalMemory,
    after: PhysicalMemory,
    root: u64,
    image: Seq<u8>,
    entry: u64,
    s: Seq<Segment>,
    j: int,
    o: int,
)
    requires
        parsed(image) == Ok::<(u64, Seq<Segment>), ElfError>((entry, s)),
        is_loaded(before, after, root, image, s),
        0 <= j < s.len(),
        0 <= o < s[j].memsz,
    ensures
        walked(after.bytes@, root, (s[j].vaddr + o) as u64) matches Some(p) && after.bytes@[p as int]
            == if o < s[j].filesz {
            image[s[j].offset + o]
        } else {
            0
        },
{
    lemma_in_segment(image, entry, s, j, o);
    lemma_at(before, after, root, image, s, (s[j].vaddr + o) as u64);
    lemma_byte_of(image, s, s.len() as int, j, s[j].vaddr + o);
}

/// Whether a segment reaches into a page.
pub open spec fn is_on_page(s: Segment, page: int) -> bool {
    s.vaddr < page + 4096 && page < s.vaddr + s.memsz
}

/// A page of a loaded program can be written if and only if a segment on it is writable,
/// and executed if and only if one is executable.
pub proof fn law_pages_allow_what_segments_ask(
    before: PhysicalMemory,
    after: PhysicalMemory,
    root: u64,
    image: Seq<u8>,
    entry: u64,
    s: Seq<Segment>,
    free: int,
    j: int,
    o: int,
)
    requires
        parsed(image) == Ok::<(u64, Seq<Segment>), ElfError>((entry, s)),
        load_fault(s, free) is None,
        is_loaded(before, after, root, image, s),
        0 <= j < s.len(),
        0 <= o < s[j].memsz,
    ensures
        ({
            let page = (s[j].vaddr + o) / 4096 * 4096;
            leaf_at(after.bytes@, root, page as u64) matches Some(e) && allows(
                e,
                exists|i: int|
                    0 <= i < s.len() && is_on_page(#[trigger] s[i], page) && s[i].flags / 2 % 2 == 1,
                exists|i: int|
                    0 <= i < s.len() && is_on_page(#[trigger] s[i], page) && s[i].flags % 2 == 1,
            )
        }),
{
    let n = s.len() as int;
    let v = (s[j].vaddr + o) as u64;
    lemma_in_segment(image, entry, s, j, o);
    lemma_at(before, after, root, image, s, v);
    let page = (s[j].vaddr + o) / 4096 * 4096;
    assert(page == page_down(v as int));
    lemma_all_sized(image, entry, s);
    lemma_page_modes(s, page);
    let p = walked(after.bytes@, root, v)->0;
    let (w, x) = (is_page_writable(s, n, page), is_page_executable(s, n, page));
    assert(!(w && x)) by {
        if w && x {
            assert(is_mixed(s));
        }
    }
    lemma_allows(page_down(p as int) as u64, w, x);
}

proof fn lemma_touches(s: Segment, page: int)
    requires
        s.memsz > 0,
        page % 4096 == 0,
    ensures
        s.touches(page) == is_on_page(s, page),
{
}

proof fn lemma_all_sized(image: Seq<u8>, entry: u64, s: Seq<Segment>)
    requires
        parsed(image) == Ok::<(u64, Seq<Segment>), ElfError>((entry, s)),
    ensures
        forall|i: int| 0 <= i < s.len() ==> (#[trigger] s[i]).memsz > 0,
{
    super::lemma_parsed_fit(image);
    assert(super::all_fit(image, s));
}

proof fn lemma_allows(phys: u64, w: bool, x: bool)
    requires
        !(w && x),
    ensures
        allows(leaf_of(phys, page_flags(w, x)), w, x),
{
    lemma_leaf_bits(phys);
}

proof fn lemma_page_modes(s: Seq<Segment>, page: int)
    requires
        forall|i: int| 0 <= i < s.len() ==> (#[trigger] s[i]).memsz > 0,
        page % 4096 == 0,
    ensures
        is_page_writable(s, s.len() as int, page) == exists|i: int|
            0 <= i < s.len() && is_on_page(#[trigger] s[i], page) && s[i].flags / 2 % 2 == 1,
        is_page_executable(s, s.len() as int, page) == exists|i: int|
            0 <= i < s.len() && is_on_page(#[trigger] s[i], page) && s[i].flags % 2 == 1,
{
    assert forall|i: int| 0 <= i < s.len() implies (#[trigger] s[i]).touches(page) == is_on_page(
        s[i],
        page,
    ) by {
        lemma_touches(s[i], page);
    }
    if is_page_writable(s, s.len() as int, page) {
        let i = choose|i: int| 0 <= i < s.len() && (#[trigger] s[i]).touches(page) && s[i].is_writable();
        assert(is_on_page(s[i], page));
    }
    if is_page_executable(s, s.len() as int, page) {
        let i = choose|i: int|
            0 <= i < s.len() && (#[trigger] s[i]).touches(page) && s[i].is_executable();
        assert(is_on_page(s[i], page));
    }
}

} // verus!
