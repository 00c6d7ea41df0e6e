//! Whose the frames of a program are.

use vstd::prelude::*;
use super::install::{are_mapped, page_flags};
use super::loader::{has_frame, has_page, is_placed, is_touched, Page};
use super::{Segment, LOAD_MAX};
use crate::pmm::{is_used, page_down, Pmm, PhysicalMemory};
use crate::vmm::layout::lemma_frame_itself;
use crate::vmm::ledger::{
    keeps_accounts, lemma_owns_mapped, lemma_same_frames, lemma_used_tables, owns,
};
use crate::vmm::space::{is_user_half, user_frame};
use crate::vmm::{
    is_mapped_page, is_space, leaf_of, lemma_leaf_present, lemma_uc_leaf, walked, ADDR_MASK,
    PHYS_LIMIT,
};

verus! {

/// The frames of the pages from the `i`th on.
pub open spec fn frames_from(pages: Seq<Page>, i: int) -> Set<u64> {
    Set::new(|p: u64| exists|j: int| i <= j < pages.len() && (#[trigger] pages[j]).phys == p)
}

/// Whether nothing is mapped where the pages are to go.
pub open spec fn are_bare(m: Seq<u8>, root: u64, pages: Seq<Page>) -> bool {
    forall|i: int| 0 <= i < pages.len() ==> walked(m, root, (#[trigger] pages[i]).va) is None
}

/// Whether nothing is mapped where the segments are to go.
pub open spec fn is_room(m: Seq<u8>, root: u64, s: Seq<Segment>) -> bool {
    forall|v: u64|
        v < LOAD_MAX && is_touched(s, s.len() as int, page_down(v as int)) ==> #[trigger] walked(
            m,
            root,
            v,
        ) is None
}

/// Whether the first `i` pages went from the loose frames to the address space.
pub open spec fn moved_in(
    m0: PhysicalMemory,
    m: PhysicalMemory,
    root: u64,
    pages: Seq<Page>,
    i: int,
) -> bool {
    are_bare(m0.bytes@, root, pages) ==> forall|base: Pmm| #[trigger]
        owns(base, m0, root, frames_from(pages, 0)) ==> owns(base, m, root, frames_from(pages, i))
}

/// The frames of pages that were assembled are loose.
pub proof fn lemma_owns_placed(
    base: Pmm,
    m0: PhysicalMemory,
    m: PhysicalMemory,
    root: u64,
    pages: Seq<Page>,
)
    requires
        is_space(m0, root),
        is_placed(m0, m, pages),
        owns(base, m0, root, Set::empty()),
    ensures
        owns(base, m, root, frames_from(pages, 0)),
{
    reveal(owns);
    lemma_used_tables(m0, m, root);
    lemma_same_frames(m0.bytes@, m.bytes@, root);
    let loose = frames_from(pages, 0);
    assert forall|f: int| 0 <= f < base.total_frames implies ({
        let p = (f * 4096) as u64;
        #[trigger] is_used(m.pmm->0.bitmap@, f) == (is_used(base.bitmap@, f) || user_frame(
            m.bytes@,
            root,
            p,
        ) || loose.contains(p))
    }) by {
        let p = (f * 4096) as u64;
        assert(f * 4096 <= u64::MAX);
        assert(is_used(m0.pmm->0.bitmap@, f) == (is_used(base.bitmap@, f) || user_frame(
            m0.bytes@,
            root,
            p,
        )));
        assert(has_frame(pages, f * 4096) == loose.contains(p));
    }
    assert forall|f: int|
        0 <= f < base.total_frames && #[trigger] is_used(base.bitmap@, f) implies ({
        let p = (f * 4096) as u64;
        !user_frame(m.bytes@, root, p) && !loose.contains(p)
    }) by {
        let p = (f * 4096) as u64;
        assert(f * 4096 <= u64::MAX);
        assert(is_used(m0.pmm->0.bitmap@, f));
        if loose.contains(p) {
            let j = choose|j: int| 0 <= j < pages.len() && (#[trigger] pages[j]).phys == p;
            assert(!is_used(m0.pmm->0.bitmap@, pages[j].phys as int / 4096));
        }
    }
}

/// A page that is mapped goes from the loose frames to the address space.
pub proof fn lemma_moved_in(
    m0: PhysicalMemory,
    a: PhysicalMemory,
    b: PhysicalMemory,
    root: u64,
    pages: Seq<Page>,
    i: int,
)
    requires
        0 <= i < pages.len(),
        moved_in(m0, a, root, pages, i),
        are_mapped(m0, a, root, pages, i),
        is_space(a, root),
        is_mapped_page(
            a,
            b,
            root,
            pages[i].va,
            leaf_of(pages[i].phys, page_flags(pages[i].writable, pages[i].executable)),
        ),
        forall|j: int, k: int|
            0 <= j < k < pages.len() ==> (#[trigger] pages[j]).va != (#[trigger] pages[k]).va
                && pages[j].phys != pages[k].phys,
        pages[i].va % 4096 == 0,
        pages[i].va < LOAD_MAX,
        pages[i].phys % 4096 == 0,
        pages[i].phys < PHYS_LIMIT,
    ensures
        moved_in(m0, b, root, pages, i + 1),
{
    let page = pages[i];
    let flags = page_flags(page.writable, page.executable);
    let leaf = leaf_of(page.phys, flags);
    lemma_leaf_present(page.phys, flags);
    lemma_uc_leaf(page.phys);
    lemma_frame_itself(page.phys);
    assert(leaf & ADDR_MASK == page.phys);
    assert(is_user_half(page.va));
    if are_bare(m0.bytes@, root, pages) {
        assert(page_down(page.va as int) == page.va);
        assert(!has_page(pages.take(i), page.va as int)) by {
            if has_page(pages.take(i), page.va as int) {
                let j = choose|j: int|
                    0 <= j < i && (#[trigger] pages.take(i)[j]).va == page.va as int;
                assert(pages[j].va == page.va);
            }
        }
        assert(walked(a.bytes@, root, page.va) == walked(m0.bytes@, root, page.va));
        assert forall|base: Pmm| #[trigger]
            owns(base, m0, root, frames_from(pages, 0)) implies owns(
            base,
            b,
            root,
            frames_from(pages, i + 1),
        ) by {
            let loose = frames_from(pages, i);
            assert(loose.contains(page.phys));
            lemma_owns_mapped(base, a, b, root, loose, page.va, leaf);
            assert(loose.remove(page.phys) =~= frames_from(pages, i + 1)) by {
                assert forall|p: u64| loose.remove(page.phys).contains(p) == frames_from(
                    pages,
                    i + 1,
                ).contains(p) by {
                    if loose.remove(page.phys).contains(p) {
                        let j = choose|j: int| i <= j < pages.len() && (#[trigger] pages[j]).phys == p;
                        assert(j != i);
                    }
                    if frames_from(pages, i + 1).contains(p) {
                        let j = choose|j: int|
                            i + 1 <= j < pages.len() && (#[trigger] pages[j]).phys == p;
                        assert(pages[i].phys != pages[j].phys);
                    }
                }
            }
        }
    }
}

/// A program that was loaded where nothing was mapped is the address space's.
pub proof fn lemma_loaded_accounts(
    m0: PhysicalMemory,
    m1: PhysicalMemory,
    m2: PhysicalMemory,
    root: u64,
    s: Seq<Segment>,
    pages: Seq<Page>,
)
    requires
        is_space(m0, root),
        is_placed(m0, m1, pages),
        moved_in(m1, m2, root, pages, pages.len() as int),
        is_room(m0.bytes@, root, s),
        forall|v: u64| #[trigger]
            walked(m1.bytes@, root, v) == walked(m0.bytes@, root, v),
        forall|va: int|
            va % 4096 == 0 ==> #[trigger] has_page(pages, va) == is_touched(s, s.len() as int, va),
        forall|i: int| 0 <= i < pages.len() ==> (#[trigger] pages[i]).va < LOAD_MAX,
    ensures
        keeps_accounts(m0, m2, root),
{
    assert forall|i: int| 0 <= i < pages.len() implies walked(
        m1.bytes@,
        root,
        (#[trigger] pages[i]).va,
    ) is None by {
        let va = pages[i].va;
        assert(has_page(pages, va as int));
        assert(page_down(va as int) == va);
        assert(walked(m0.bytes@, root, va) is None);
    }
    assert(are_bare(m1.bytes@, root, pages));
    assert forall|base: Pmm| #[trigger] owns(base, m0, root, Set::empty()) implies owns(
        base,
        m2,
        root,
        Set::empty(),
    ) by {
        lemma_owns_placed(base, m0, m1, root, pages);
        assert(frames_from(pages, pages.len() as int) =~= Set::empty());
    }
}

/// A program that was refused changes nothing about who has which frame.
pub proof fn lemma_refused_accounts(m0: PhysicalMemory, m1: PhysicalMemory, root: u64)
    requires
        is_space(m0, root),
        is_placed(m0, m1, Seq::empty()),
    ensures
        keeps_accounts(m0, m1, root),
{
    let none: Seq<Page> = Seq::empty();
    assert forall|base: Pmm| #[trigger] owns(base, m0, root, Set::empty()) implies owns(
        base,
        m1,
        root,
        Set::empty(),
    ) by {
        lemma_owns_placed(base, m0, m1, root, none);
        assert(frames_from(none, 0) =~= Set::empty());
    }
}

} // verus!
