//! Loading an executable: assembling its pages and handing them to an address
//! space.

use vstd::prelude::*;
use vstd::set_lib::{lemma_int_range, lemma_len_subset, set_int_range};
use crate::pmm::{free_frame, is_used, page_down, page_up, PhysicalMemory};
use crate::vmm::closed::{is_closed, lemma_closed_mapped, lemma_closed_same};
use crate::vmm::layout::lemma_frame_itself;
use crate::vmm::inside::{
    lemma_inside_kept, lemma_inside_mapped, lemma_inside_twice, stays_inside,
};
use crate::vmm::ledger::{keeps_accounts, lemma_used_tables, same_tables};
use crate::vmm::region::is_plain;
use crate::vmm::space::{lemma_space_kept, AddressSpace, USER_END};
use crate::vmm::tables::{
    adds_for, adds_just, count_for, lemma_adds_for, lemma_adds_none, lemma_adds_one,
    lemma_count_grows, lemma_counted_pages, lemma_one_counted, lemma_same_needs, lemma_stays_clear,
    new_tables,
};
use crate::vmm::{
    adds_tables, in_memory, index_of, is_clear, is_mapped_page, is_space, is_way_byte, leaf_at,
    leaf_of, lemma_apart, lemma_same_page_way, lemma_uc_leaf, missing_tables, table_at, takes_only,
    walked, MapError, ADDR_MASK, PHYS_LIMIT, USER_RO, USER_RW, USER_RX,
};
use super::accounts::{
    is_room, lemma_loaded_accounts, lemma_moved_in, lemma_refused_accounts, moved_in,
};
use super::loader::{
    copy_segment, has_frame, has_page, is_filled_in, is_laid_out, is_page_executable,
    is_page_writable, is_placed, is_touched, place_segment, byte_of, Page,
};
use super::{all_fit, parse, parsed, ElfError, Segment, LOAD_MAX};

verus! {

/// Whether some page would be both writable and executable.
pub open spec fn is_mixed(s: Seq<Segment>) -> bool {
    exists|va: int|
        va % 4096 == 0 && #[trigger] is_page_writable(s, s.len() as int, va) && is_page_executable(
            s,
            s.len() as int,
            va,
        )
}

/// The page numbers that segments touch.
pub open spec fn touched_pages(s: Seq<Segment>) -> Set<int> {
    Set::new(|p: int| is_touched(s, s.len() as int, p * 4096))
}

/// Why segments cannot be loaded into memory with `free` free frames, where
/// that is so.
pub open spec fn load_fault(s: Seq<Segment>, free: int) -> Option<ElfError> {
    if touched_pages(s).len() > free {
        Some(ElfError::NoMemory)
    } else if is_mixed(s) {
        Some(ElfError::WritableExecutable)
    } else {
        None
    }
}

/// The page numbers of pages.
spec fn numbers(pages: Seq<Page>) -> Seq<int> {
    Seq::new(pages.len(), |i: int| pages[i].va as int / 4096)
}

/// Pages are as many as the page numbers they have.
proof fn lemma_count(image: Seq<u8>, pages: Seq<Page>, s: Seq<Segment>)
    requires
        all_fit(image, s),
        forall|i: int, j: int|
            0 <= i < j < pages.len() ==> (#[trigger] pages[i]).va != (#[trigger] pages[j]).va,
        forall|i: int| 0 <= i < pages.len() ==> (#[trigger] pages[i]).va % 4096 == 0,
        forall|i: int|
            0 <= i < pages.len() ==> is_touched(s, s.len() as int, (#[trigger] pages[i]).va as int),
    ensures
        pages.len() <= touched_pages(s).len(),
        (exists|va: int|
            va % 4096 == 0 && is_touched(s, s.len() as int, va) && !(#[trigger] has_page(pages, va)))
            ==> pages.len() < touched_pages(s).len(),
        is_laid_out(pages, s, s.len() as int) ==> pages.len() == touched_pages(s).len(),
{
    let n = s.len() as int;
    let u = numbers(pages);
    let t = touched_pages(s);
    assert forall|i: int, j: int| 0 <= i < u.len() && 0 <= j < u.len() && i != j implies u[i]
        != u[j] by {
        if i < j {
            assert(pages[i].va != pages[j].va);
        } else {
            assert(pages[j].va != pages[i].va);
        }
    }
    u.unique_seq_to_set();
    let all = set_int_range(0, 0x4_0000_0001);
    lemma_int_range(0, 0x4_0000_0001);
    assert forall|p: int| t.contains(p) implies all.contains(p) by {
        let i = choose|i: int| 0 <= i < n && (#[trigger] s[i]).touches(p * 4096);
        assert(s[i].fault(image.len() as int) is None);
    }
    lemma_len_subset(t, all);
    assert forall|p: int| u.to_set().contains(p) implies t.contains(p) by {
        let i = choose|i: int| 0 <= i < u.len() && u[i] == p;
        assert(pages[i].va == p * 4096);
    }
    lemma_len_subset(u.to_set(), t);
    if exists|va: int|
        va % 4096 == 0 && is_touched(s, n, va) && !(#[trigger] has_page(pages, va)) {
        let va = choose|va: int|
            va % 4096 == 0 && is_touched(s, n, va) && !(#[trigger] has_page(pages, va));
        let p = va / 4096;
        assert(!u.to_set().contains(p)) by {
            if u.to_set().contains(p) {
                let i = choose|i: int| 0 <= i < u.len() && u[i] == p;
                assert(pages[i].va == va);
                assert(has_page(pages, va));
            }
        }
        let more = u.to_set().insert(p);
        assert(t.contains(p));
        assert(more.subset_of(t));
        lemma_len_subset(more, t);
        assert(more.len() == u.to_set().len() + 1);
    }
    if is_laid_out(pages, s, n) {
        assert forall|p: int| t.contains(p) implies u.to_set().contains(p) by {
            assert(has_page(pages, p * 4096) == is_touched(s, n, p * 4096));
            let i = choose|i: int| 0 <= i < pages.len() && (#[trigger] pages[i]).va == p * 4096;
            assert(u[i] == p);
        }
        assert(u.to_set() =~= t);
    }
}

/// Whether no page is both writable and executable.
pub open spec fn none_mixed(pages: Seq<Page>) -> bool {
    forall|i: int|
        0 <= i < pages.len() ==> !((#[trigger] pages[i]).writable && pages[i].executable)
}

/// Allocate a zeroed frame for every page the segments touch and copy the
/// file-backed bytes in. Frames are recorded in `pages` the moment they are
/// allocated, so that on error the caller can free exactly what was allocated.
fn populate(
    mem: &mut PhysicalMemory,
    image: &[u8],
    segments: &[Segment],
    pages: &mut Vec<Page>,
) -> (r: Result<(), ElfError>)
    requires
        old(mem).wf(),
        old(mem).pmm is Some,
        old(pages)@.len() == 0,
        all_fit(image@, segments@),
    ensures
        is_placed(*old(mem), *final(mem), final(pages)@),
        r == match load_fault(segments@, old(mem).pmm->0.free_frames as int) {
            Some(e) => Err::<(), ElfError>(e),
            None => Ok(()),
        },
        r is Ok ==> {
            &&& is_laid_out(final(pages)@, segments@, segments@.len() as int)
            &&& is_filled_in(
                final(mem).bytes@,
                final(pages)@,
                image@,
                segments@,
                segments@.len() as int,
            )
            &&& none_mixed(final(pages)@)
        },
{
    let ghost m0 = *mem;
    let ghost s = segments@;
    let count: usize = segments.len();
    let mut k: usize = 0;
    assert(is_placed(m0, *mem, pages@)) by {
        assert forall|f: int| !(#[trigger] has_frame(pages@, f)) by {}
    }
    assert(is_laid_out(pages@, s, 0)) by {
        assert forall|va: int| #[trigger] has_page(pages@, va) == is_touched(s, 0, va) by {}
    }
    while k < count
        invariant
            k <= count,
            count == s.len(),
            s == segments@,
            all_fit(image@, s),
            m0 == *old(mem),
            is_placed(m0, *mem, pages@),
            is_laid_out(pages@, s, k as int),
            is_filled_in(mem.bytes@, pages@, image@, s, k as int),
        decreases count - k,
    {
        match place_segment(mem, pages, segments, k, image, Ghost(m0)) {
            Ok(_) => {},
            Err(e) => {
                proof {
                    lemma_count(image@, pages@, s);
                }
                return Err(e);
            },
        }
        copy_segment(mem, pages, segments, k, image, Ghost(m0));
        k += 1;
    }
    proof {
        assert forall|i: int| 0 <= i < pages@.len() implies is_touched(
            s,
            s.len() as int,
            (#[trigger] pages@[i]).va as int,
        ) by {
            assert(has_page(pages@, pages@[i].va as int));
        }
        lemma_count(image@, pages@, s);
    }
    // Two segments sharing a page could add up to writable and executable even
    // though neither is on its own.
    let total: usize = pages.len();
    let mut i: usize = 0;
    while i < total
        invariant
            i <= total,
            total == pages@.len(),
            s == segments@,
            m0 == *old(mem),
            is_placed(m0, *mem, pages@),
            is_laid_out(pages@, s, s.len() as int),
            touched_pages(s).len() <= m0.pmm->0.free_frames,
            forall|j: int|
                0 <= j < i ==> !((#[trigger] pages@[j]).writable && pages@[j].executable),
        decreases total - i,
    {
        let page: Page = pages[i];
        if page.writable && page.executable {
            assert(pages@[i as int].va % 4096 == 0);
            assert(is_page_writable(s, s.len() as int, page.va as int));
            return Err(ElfError::WritableExecutable);
        }
        i += 1;
    }
    proof {
        if is_mixed(s) {
            let va = choose|va: int|
                va % 4096 == 0 && #[trigger] is_page_writable(s, s.len() as int, va)
                    && is_page_executable(s, s.len() as int, va);
            let j = choose|j: int|
                0 <= j < s.len() && (#[trigger] s[j]).touches(va) && s[j].is_writable();
            assert(is_touched(s, s.len() as int, va));
            assert(has_page(pages@, va));
            let p = choose|p: int| 0 <= p < pages@.len() && (#[trigger] pages@[p]).va == va;
            assert(!(pages@[p].writable && pages@[p].executable));
        }
    }
    Ok(())
}

/// Taking back the frame of the first of some pages.
#[verifier::spinoff_prover]
proof fn lemma_page_freed(
    m0: PhysicalMemory,
    a: PhysicalMemory,
    b: PhysicalMemory,
    pages: Seq<Page>,
)
    requires
        is_placed(m0, a, pages),
        pages.len() > 0,
        b.wf(),
        b.pmm is Some,
        b.same_bytes(a),
        a.pmm->0.took_back(b.pmm->0, pages[0].phys, 1),
    ensures
        is_placed(m0, b, pages.drop_first()),
{
    let rest = pages.drop_first();
    let p = pages[0].phys;
    let n = p as int / 4096;
    let bm = a.pmm->0.bitmap@;
    assert(has_frame(pages, n * 4096)) by {
        assert(pages[0].phys == n * 4096);
    }
    assert(is_used(bm, n));
    assert forall|f: int| n <= f < n + 1 implies is_used(bm, f) by {}
    assert(a.pmm->0.free_result(p, 1) is Ok);
    assert forall|i: int, j: int| 0 <= i < j < rest.len() implies (#[trigger] rest[i]).va != (
    #[trigger] rest[j]).va && rest[i].phys != rest[j].phys by {
        assert(pages[i + 1].va != pages[j + 1].va);
    }
    assert forall|i: int| 0 <= i < rest.len() implies {
        &&& (#[trigger] rest[i]).va % 4096 == 0
        &&& rest[i].phys % 4096 == 0
        &&& rest[i].phys + 4096 <= b.bytes@.len()
        &&& !is_used(m0.pmm->0.bitmap@, rest[i].phys as int / 4096)
    } by {
        assert(rest[i] == pages[i + 1]);
    }
    assert forall|f: int| 0 <= f < m0.pmm->0.total_frames implies #[trigger] is_used(
        b.pmm->0.bitmap@,
        f,
    ) == (is_used(m0.pmm->0.bitmap@, f) || has_frame(rest, f * 4096)) by {
        assert(is_used(bm, f) == (is_used(m0.pmm->0.bitmap@, f) || has_frame(pages, f * 4096)));
        if has_frame(rest, f * 4096) {
            let i = choose|i: int| 0 <= i < rest.len() && (#[trigger] rest[i]).phys == f * 4096;
            assert(pages[i + 1].phys == f * 4096);
            assert(pages[0].phys != pages[i + 1].phys);
        }
        if has_frame(pages, f * 4096) && f != n {
            let i = choose|i: int| 0 <= i < pages.len() && (#[trigger] pages[i]).phys == f * 4096;
            assert(i > 0);
            assert(rest[i - 1].phys == f * 4096);
        }
        assert(0 <= f < bm.len() * 64);
    }
}

/// Take back the frames of pages.
fn free_pages(mem: &mut PhysicalMemory, pages: &Vec<Page>, Ghost(m0): Ghost<PhysicalMemory>)
    requires
        is_placed(m0, *old(mem), pages@),
    ensures
        is_placed(m0, *final(mem), Seq::empty()),
{
    let total: usize = pages.len();
    let mut i: usize = 0;
    assert(pages@.skip(0) =~= pages@);
    while i < total
        invariant
            i <= total,
            total == pages@.len(),
            is_placed(m0, *mem, pages@.skip(i as int)),
        decreases total - i,
    {
        let ghost before = *mem;
        let page: Page = pages[i];
        let _ = free_frame(mem, page.phys);
        proof {
            assert(pages@.skip(i as int)[0] == page);
            lemma_page_freed(m0, before, *mem, pages@.skip(i as int));
            assert(pages@.skip(i as int).drop_first() =~= pages@.skip(i + 1));
        }
        i += 1;
    }
    assert(pages@.skip(i as int) =~= Seq::empty());
}

/// The flags that a page is mapped with.
pub open spec fn page_flags(writable: bool, executable: bool) -> u64 {
    if executable && !writable {
        USER_RX
    } else if writable && !executable {
        USER_RW
    } else {
        USER_RO
    }
}

/// Whether no page table stands in the frame of a page.
pub open spec fn are_apart(m: Seq<u8>, root: u64, pages: Seq<Page>) -> bool {
    forall|v: u64, k: int|
        0 <= k <= 3 ==> ((#[trigger] table_at(m, root, v, k)) matches Some(t) ==> !has_frame(
            pages,
            t as int,
        ))
}

/// Whether the first `n` pages are mapped and everything else is as in `a`.
pub open spec fn are_mapped(
    a: PhysicalMemory,
    b: PhysicalMemory,
    root: u64,
    pages: Seq<Page>,
    n: int,
) -> bool {
    &&& is_space(b, root)
    &&& b.hhdm == a.hhdm
    &&& b.bytes@.len() == a.bytes@.len()
    &&& takes_only(a.pmm->0, b.pmm->0)
    &&& are_apart(b.bytes@, root, pages)
    &&& forall|i: int, o: int|
        #![trigger b.bytes@[pages[i].phys + o]]
        0 <= i < pages.len() && 0 <= o < 4096 ==> b.bytes@[pages[i].phys + o]
            == a.bytes@[pages[i].phys + o]
    &&& forall|i: int|
        0 <= i < n ==> leaf_at(b.bytes@, root, (#[trigger] pages[i]).va) == Some(
            leaf_of(pages[i].phys, page_flags(pages[i].writable, pages[i].executable)),
        )
    &&& forall|i: int, v: u64|
        0 <= i < n && page_down(v as int) == (#[trigger] pages[i]).va ==> #[trigger] walked(
            b.bytes@,
            root,
            v,
        ) == Some((pages[i].phys + v % 4096) as u64)
    &&& forall|v: u64|
        v < USER_END && !has_page(pages.take(n), page_down(v as int)) ==> #[trigger] walked(
            b.bytes@,
            root,
            v,
        ) == walked(a.bytes@, root, v)
}

/// Mapping one more page.
#[verifier::spinoff_prover]
#[verifier::rlimit(60)]
proof fn lemma_one_mapped(
    a: PhysicalMemory,
    b: PhysicalMemory,
    c: PhysicalMemory,
    root: u64,
    pages: Seq<Page>,
    n: int,
)
    requires
        a.wf(),
        a.pmm is Some,
        are_mapped(a, b, root, pages, n),
        0 <= n < pages.len(),
        is_mapped_page(
            b,
            c,
            root,
            pages[n].va,
            leaf_of(pages[n].phys, page_flags(pages[n].writable, pages[n].executable)),
        ),
        forall|i: int, j: int|
            0 <= i < j < pages.len() ==> (#[trigger] pages[i]).va != (#[trigger] pages[j]).va,
        forall|i: int|
            0 <= i < pages.len() ==> {
                &&& (#[trigger] pages[i]).va % 4096 == 0
                &&& pages[i].va < LOAD_MAX
                &&& pages[i].phys % 4096 == 0
                &&& pages[i].phys + 4096 <= a.bytes@.len()
                &&& is_used(a.pmm->0.bitmap@, pages[i].phys as int / 4096)
            },
    ensures
        are_mapped(a, c, root, pages, n + 1),
{
    let page = pages[n];
    let leaf = leaf_of(page.phys, page_flags(page.writable, page.executable));
    let m = b.bytes@;
    let w = c.bytes@;
    lemma_uc_leaf(page.phys);
    assert(page.phys < PHYS_LIMIT);
    lemma_frame_itself(page.phys);
    assert(leaf & ADDR_MASK == page.phys);
    assert(are_apart(w, root, pages)) by {
        reveal(adds_tables);
        assert forall|v: u64, k: int| 0 <= k <= 3 implies ((#[trigger] table_at(
            w,
            root,
            v,
            k,
        )) matches Some(t) ==> !has_frame(pages, t as int)) by {
            if let Some(t) = table_at(w, root, v, k) {
                if table_at(m, root, v, k) != Some(t) && has_frame(pages, t as int) {
                    let i = choose|i: int| 0 <= i < pages.len() && (#[trigger] pages[i]).phys == t;
                    assert(is_used(a.pmm->0.bitmap@, t as int / 4096));
                    assert(is_used(b.pmm->0.bitmap@, t as int / 4096));
                }
            }
        }
    }
    assert(takes_only(a.pmm->0, c.pmm->0)) by {
        assert forall|f: int|
            0 <= f < a.pmm->0.total_frames && is_used(a.pmm->0.bitmap@, f) implies #[trigger] is_used(
            c.pmm->0.bitmap@,
            f,
        ) by {
            assert(is_used(b.pmm->0.bitmap@, f));
        }
    }
    assert forall|i: int, o: int|
        #![trigger w[pages[i].phys + o]]
        0 <= i < pages.len() && 0 <= o < 4096 implies w[pages[i].phys + o]
        == a.bytes@[pages[i].phys + o] by {
        let x = pages[i].phys + o;
        assert(x / 4096 == pages[i].phys as int / 4096);
        assert(is_used(a.pmm->0.bitmap@, x / 4096));
        assert(is_used(b.pmm->0.bitmap@, x / 4096));
        assert(!is_way_byte(m, root, page.va, x)) by {
            if is_way_byte(m, root, page.va, x) {
                let l = choose|l: int|
                    0 <= l <= 3 && ((#[trigger] table_at(m, root, page.va, l)) matches Some(t) && t
                        <= x < t + 4096);
                let t = table_at(m, root, page.va, l)->0;
                assert(in_memory(m, t));
                assert(t == pages[i].phys);
                assert(has_frame(pages, t as int));
            }
        }
        assert(m[x] == a.bytes@[x]);
    }
    assert forall|i: int| 0 <= i < n + 1 implies leaf_at(w, root, (#[trigger] pages[i]).va) == Some(
        leaf_of(pages[i].phys, page_flags(pages[i].writable, pages[i].executable)),
    ) by {
        if i < n {
            assert(pages[i].va != pages[n].va);
            lemma_apart(pages[i].va, page.va);
        }
    }
    assert forall|i: int, v: u64|
        0 <= i < n + 1 && page_down(v as int) == (#[trigger] pages[i]).va implies #[trigger] walked(
        w,
        root,
        v,
    ) == Some((pages[i].phys + v % 4096) as u64) by {
        if i < n {
            assert(pages[i].va != pages[n].va);
            lemma_apart(v, page.va);
            assert(walked(m, root, v) == Some((pages[i].phys + v % 4096) as u64));
        } else {
            lemma_same_page_way(v, page.va);
        }
    }
    assert forall|v: u64|
        v < USER_END && !has_page(pages.take(n + 1), page_down(v as int)) implies #[trigger] walked(
        w,
        root,
        v,
    ) == walked(a.bytes@, root, v) by {
        let d = page_down(v as int);
        assert(pages.take(n + 1)[n] == page);
        assert(d != page.va);
        assert(!has_page(pages.take(n), d)) by {
            if has_page(pages.take(n), d) {
                let i = choose|i: int| 0 <= i < n && (#[trigger] pages.take(n)[i]).va == d;
                assert(pages.take(n + 1)[i].va == d);
            }
        }
        lemma_apart(v, page.va);
        assert(walked(m, root, v) == walked(a.bytes@, root, v));
    }
}

/// Where pages go.
pub open spec fn addresses(pages: Seq<Page>) -> Seq<u64> {
    Seq::new(pages.len(), |i: int| pages[i].va)
}

/// What mapping one page more takes.
proof fn lemma_page_counted(
    m0: PhysicalMemory,
    a: PhysicalMemory,
    b: PhysicalMemory,
    root: u64,
    pages: Seq<Page>,
    i: int,
    leaf: u64,
)
    requires
        0 <= i < pages.len(),
        is_space(m0, root),
        is_space(a, root),
        adds_just(m0.bytes@, a.bytes@, root, addresses(pages).take(i)),
        stays_inside(m0, a, root),
        is_mapped_page(a, b, root, pages[i].va, leaf),
        forall|j: int| 0 <= j < pages.len() ==> (#[trigger] pages[j]).va < LOAD_MAX,
    ensures
        adds_just(m0.bytes@, b.bytes@, root, addresses(pages).take(i + 1)),
        stays_inside(m0, b, root),
{
    let vas = addresses(pages);
    let va = pages[i].va;
    assert(vas.take(i + 1) =~= vas.take(i).push(va));
    lemma_adds_one(m0.bytes@, a, b, root, vas.take(i), va, leaf);
    assert(index_of(va, 0) < 256);
    lemma_inside_mapped(a, b, root, va, leaf);
    lemma_inside_twice(m0, a, b, root);
}

/// What the next page needs.
proof fn lemma_next_counted(m0: PhysicalMemory, a: PhysicalMemory, root: u64, pages: Seq<Page>, i: int)
    requires
        0 <= i < pages.len(),
        adds_just(m0.bytes@, a.bytes@, root, addresses(pages).take(i)),
        forall|j: int| 0 <= j < pages.len() ==> (#[trigger] pages[j]).va < LOAD_MAX,
    ensures
        count_for(m0.bytes@, root, addresses(pages).take(i + 1)) == count_for(
            m0.bytes@,
            root,
            addresses(pages).take(i),
        ) + missing_tables(a.bytes@, root, pages[i].va),
        count_for(m0.bytes@, root, addresses(pages).take(i + 1)) <= count_for(
            m0.bytes@,
            root,
            addresses(pages),
        ),
        is_clear(m0.bytes@, root, pages[i].va) ==> is_clear(a.bytes@, root, pages[i].va),
{
    let vas = addresses(pages);
    let va = pages[i].va;
    assert(vas.take(i + 1) =~= vas.take(i).push(va));
    assert forall|j: int| 0 <= j < vas.take(i).len() implies (#[trigger] vas.take(i)[j])
        < crate::vmm::space::USER_END by {
        assert(vas.take(i)[j] == pages[j].va);
    }
    lemma_one_counted(m0.bytes@, a.bytes@, root, vas.take(i), va);
    lemma_count_grows(m0.bytes@, root, vas, i + 1);
    if is_clear(m0.bytes@, root, va) {
        lemma_stays_clear(m0.bytes@, a.bytes@, root, vas.take(i), va);
    }
}

/// Whether no larger page is in the way of pages.
pub open spec fn are_clear(m: Seq<u8>, root: u64, pages: Seq<Page>) -> bool {
    forall|i: int| 0 <= i < pages.len() ==> is_clear(m, root, (#[trigger] pages[i]).va)
}

/// Hand the pages to an address space.
fn map_pages(mem: &mut PhysicalMemory, pages: &Vec<Page>, aspace: &AddressSpace) -> (r: Result<
    (),
    MapError,
>)
    requires
        are_mapped(*old(mem), *old(mem), aspace.pml4_phys, pages@, 0),
        none_mixed(pages@),
        forall|i: int, j: int|
            0 <= i < j < pages@.len() ==> (#[trigger] pages@[i]).va != (#[trigger] pages@[j]).va
                && pages@[i].phys != pages@[j].phys,
        forall|i: int|
            0 <= i < pages@.len() ==> {
                &&& (#[trigger] pages@[i]).va % 4096 == 0
                &&& pages@[i].va < LOAD_MAX
                &&& pages@[i].phys % 4096 == 0
                &&& pages@[i].phys + 4096 <= old(mem).bytes@.len()
                &&& is_used(old(mem).pmm->0.bitmap@, pages@[i].phys as int / 4096)
            },
    ensures
        r is Ok ==> are_mapped(
            *old(mem),
            *final(mem),
            aspace.pml4_phys,
            pages@,
            pages@.len() as int,
        ),
        r is Ok ==> moved_in(
            *old(mem),
            *final(mem),
            aspace.pml4_phys,
            pages@,
            pages@.len() as int,
        ),
        is_closed(old(mem).bytes@, aspace.pml4_phys) ==> is_closed(
            final(mem).bytes@,
            aspace.pml4_phys,
        ),
        stays_inside(*old(mem), *final(mem), aspace.pml4_phys),
        r is Ok ==> final(mem).pmm->0.free_frames == old(mem).pmm->0.free_frames - count_for(
            old(mem).bytes@,
            aspace.pml4_phys,
            addresses(pages@),
        ),
        r is Ok ==> adds_just(
            old(mem).bytes@,
            final(mem).bytes@,
            aspace.pml4_phys,
            addresses(pages@),
        ),
        are_clear(old(mem).bytes@, aspace.pml4_phys, pages@) ==> r == if old(
            mem,
        ).pmm->0.free_frames >= count_for(
            old(mem).bytes@,
            aspace.pml4_phys,
            addresses(pages@),
        ) {
            Ok::<(), MapError>(())
        } else {
            Err(MapError::OutOfMemory)
        },
        r matches Err(e) ==> exists|i: int|
            0 <= i < pages@.len() && #[trigger] are_mapped(
                *old(mem),
                *final(mem),
                aspace.pml4_phys,
                pages@,
                i,
            ) && aspace.map_result(*final(mem), pages@[i].va) == Err::<(), MapError>(e),
{
    let ghost m0 = *mem;
    let ghost root = aspace.pml4_phys;
    let ghost vas = addresses(pages@);
    let total: usize = pages.len();
    let mut i: usize = 0;
    proof {
        lemma_adds_none(m0.bytes@, root);
        lemma_inside_kept(m0, m0, root);
        assert(vas.take(0) =~= Seq::empty());
    }
    while i < total
        invariant
            i <= total,
            total == pages@.len(),
            m0 == *old(mem),
            root == aspace.pml4_phys,
            vas == addresses(pages@),
            is_space(m0, root),
            adds_just(m0.bytes@, mem.bytes@, root, vas.take(i as int)),
            stays_inside(m0, *mem, root),
            mem.pmm->0.free_frames == m0.pmm->0.free_frames - count_for(
                m0.bytes@,
                root,
                vas.take(i as int),
            ),
            m0.wf(),
            m0.pmm is Some,
            are_mapped(m0, *mem, root, pages@, i as int),
            moved_in(m0, *mem, root, pages@, i as int),
            is_closed(m0.bytes@, root) ==> is_closed(mem.bytes@, root),
            none_mixed(pages@),
            forall|i: int, j: int|
                0 <= i < j < pages@.len() ==> (#[trigger] pages@[i]).va != (
                #[trigger] pages@[j]).va && pages@[i].phys != pages@[j].phys,
            forall|i: int|
                0 <= i < pages@.len() ==> {
                    &&& (#[trigger] pages@[i]).va % 4096 == 0
                    &&& pages@[i].va < LOAD_MAX
                    &&& pages@[i].phys % 4096 == 0
                    &&& pages@[i].phys + 4096 <= m0.bytes@.len()
                    &&& is_used(m0.pmm->0.bitmap@, pages@[i].phys as int / 4096)
                },
        decreases total - i,
    {
        let page: Page = pages[i];
        let flags: u64 = if page.executable {
            USER_RX
        } else if page.writable {
            USER_RW
        } else {
            USER_RO
        };
        let ghost before = *mem;
        assert(page == pages@[i as int]);
        assert(index_of(page.va, 0) < 256);
        proof {
            lemma_next_counted(m0, before, root, pages@, i as int);
        }
        aspace.map(mem, page.va, page.phys, flags)?;
        proof {
            lemma_page_counted(
                m0,
                before,
                *mem,
                root,
                pages@,
                i as int,
                leaf_of(page.phys, flags),
            );
            lemma_one_mapped(m0, before, *mem, root, pages@, i as int);
            lemma_moved_in(m0, before, *mem, root, pages@, i as int);
            if is_closed(before.bytes@, root) {
                lemma_closed_mapped(before, *mem, root, page.va, leaf_of(page.phys, flags));
            }
        }
        i += 1;
    }
    assert(vas.take(total as int) =~= vas);
    Ok(())
}

/// Whether an executable with segments `s` is in the address space below
/// `root`: every page that a segment touches is mapped with the permissions of
/// the segments there, and holds the bytes of the file and zeros elsewhere. No
/// other page is mapped otherwise than before.
#[verifier::opaque]
pub open spec fn is_loaded(
    before: PhysicalMemory,
    after: PhysicalMemory,
    root: u64,
    image: Seq<u8>,
    s: Seq<Segment>,
) -> bool {
    let n = s.len() as int;
    &&& is_space(after, root)
    &&& after.hhdm == before.hhdm
    &&& after.bytes@.len() == before.bytes@.len()
    &&& takes_only(before.pmm->0, after.pmm->0)
    &&& forall|v: u64|
        v < LOAD_MAX && is_touched(s, n, page_down(v as int)) ==> {
            &&& (#[trigger] walked(after.bytes@, root, v)) matches Some(p)
            &&& p < after.bytes@.len()
            &&& after.bytes@[p as int] == byte_of(image, s, n, v as int)
            &&& !is_used(before.pmm->0.bitmap@, p as int / 4096)
            &&& is_used(after.pmm->0.bitmap@, p as int / 4096)
            &&& is_plain(after.bytes@, root, p as int)
            &&& p as int % 4096 == v as int % 4096
            &&& leaf_at(after.bytes@, root, page_down(v as int) as u64) == Some(
                leaf_of(
                    page_down(p as int) as u64,
                    page_flags(
                        is_page_writable(s, n, page_down(v as int)),
                        is_page_executable(s, n, page_down(v as int)),
                    ),
                ),
            )
        }
    &&& forall|u: u64, v: u64|
        v < LOAD_MAX && is_touched(s, n, page_down(v as int)) && page_down(u as int) == page_down(
            v as int,
        ) ==> page_down((#[trigger] walked(after.bytes@, root, u))->0 as int) == page_down(
            (#[trigger] walked(after.bytes@, root, v))->0 as int,
        )
    &&& forall|v: u64|
        v < USER_END && !is_touched(s, n, page_down(v as int)) ==> #[trigger] walked(
            after.bytes@,
            root,
            v,
        ) == walked(before.bytes@, root, v)
}

#[verifier::spinoff_prover]
proof fn lemma_loaded(
    m0: PhysicalMemory,
    m1: PhysicalMemory,
    m2: PhysicalMemory,
    root: u64,
    image: Seq<u8>,
    s: Seq<Segment>,
    pages: Seq<Page>,
)
    requires
        is_placed(m0, m1, pages),
        is_laid_out(pages, s, s.len() as int),
        is_filled_in(m1.bytes@, pages, image, s, s.len() as int),
        are_mapped(m1, m2, root, pages, pages.len() as int),
        takes_only(m0.pmm->0, m1.pmm->0),
        forall|v: u64| #[trigger]
            walked(m1.bytes@, root, v) == walked(m0.bytes@, root, v),
    ensures
        is_loaded(m0, m2, root, image, s),
{
    reveal(is_loaded);
    let n = s.len() as int;
    let b = m2.bytes@;
    assert(pages.take(pages.len() as int) =~= pages);
    assert forall|f: int|
        0 <= f < m0.pmm->0.total_frames && is_used(m0.pmm->0.bitmap@, f) implies #[trigger] is_used(
        m2.pmm->0.bitmap@,
        f,
    ) by {
        assert(is_used(m1.pmm->0.bitmap@, f));
    }
    assert forall|v: u64| v < LOAD_MAX && is_touched(s, n, page_down(v as int)) implies {
        &&& (#[trigger] walked(b, root, v)) matches Some(p)
        &&& p < b.len()
        &&& b[p as int] == byte_of(image, s, n, v as int)
        &&& !is_used(m0.pmm->0.bitmap@, p as int / 4096)
        &&& is_used(m2.pmm->0.bitmap@, p as int / 4096)
        &&& is_plain(b, root, p as int)
        &&& p as int % 4096 == v as int % 4096
        &&& leaf_at(b, root, page_down(v as int) as u64) == Some(
            leaf_of(
                page_down(p as int) as u64,
                page_flags(
                    is_page_writable(s, n, page_down(v as int)),
                    is_page_executable(s, n, page_down(v as int)),
                ),
            ),
        )
    } by {
        let d = page_down(v as int);
        assert(has_page(pages, d) == is_touched(s, n, d));
        let i = choose|i: int| 0 <= i < pages.len() && (#[trigger] pages[i]).va == d;
        let o = v as int % 4096;
        let page = pages[i];
        assert(walked(b, root, v) == Some((page.phys + v % 4096) as u64));
        let x = page.phys + o;
        assert(page.phys + 4096 <= m1.bytes@.len());
        assert(b[page.phys + o] == m1.bytes@[page.phys + o]);
        assert(m1.bytes@[page.phys + o] == byte_of(image, s, n, page.va + o));
        assert(page.va + o == v);
        assert(x / 4096 == page.phys as int / 4096);
        assert(page_down(x) == page.phys);
        assert(is_used(m1.pmm->0.bitmap@, x / 4096)) by {
            assert(has_frame(pages, x / 4096 * 4096));
        }
        assert(is_plain(b, root, x)) by {
            reveal(is_plain);
            assert(has_frame(pages, page.phys as int));
        }
        assert(leaf_at(b, root, page.va) == Some(
            leaf_of(page.phys, page_flags(page.writable, page.executable)),
        ));
    }
    assert forall|u: u64, v: u64|
        v < LOAD_MAX && is_touched(s, n, page_down(v as int)) && page_down(u as int) == page_down(
            v as int,
        ) implies page_down((#[trigger] walked(b, root, u))->0 as int) == page_down(
        (#[trigger] walked(b, root, v))->0 as int,
    ) by {
        let d = page_down(v as int);
        assert(has_page(pages, d) == is_touched(s, n, d));
        let i = choose|i: int| 0 <= i < pages.len() && (#[trigger] pages[i]).va == d;
        let page = pages[i];
        assert(walked(b, root, u) == Some((page.phys + u % 4096) as u64));
        assert(walked(b, root, v) == Some((page.phys + v % 4096) as u64));
        assert(page.phys + 4096 <= m1.bytes@.len());
    }
    assert forall|v: u64| v < USER_END && !is_touched(s, n, page_down(v as int)) implies
        #[trigger] walked(b, root, v) == walked(m0.bytes@, root, v) by {
        let d = page_down(v as int);
        assert(has_page(pages, d) == is_touched(s, n, d));
        assert(walked(b, root, v) == walked(m1.bytes@, root, v));
    }
}

/// What holds when the pages of an executable are about to be mapped.
#[verifier::spinoff_prover]
proof fn lemma_ready(
    m0: PhysicalMemory,
    m1: PhysicalMemory,
    root: u64,
    image: Seq<u8>,
    s: Seq<Segment>,
    pages: Seq<Page>,
)
    requires
        is_space(m0, root),
        is_placed(m0, m1, pages),
        all_fit(image, s),
        is_laid_out(pages, s, s.len() as int),
    ensures
        takes_only(m0.pmm->0, m1.pmm->0),
        are_mapped(m1, m1, root, pages, 0),
        forall|v: u64| #[trigger]
            walked(m1.bytes@, root, v) == walked(m0.bytes@, root, v),
        forall|i: int|
            0 <= i < pages.len() ==> (#[trigger] pages[i]).va < LOAD_MAX && is_used(
                m1.pmm->0.bitmap@,
                pages[i].phys as int / 4096,
            ),
{
    let n = s.len() as int;
    lemma_space_kept(m0, m1, root);
    assert forall|v: u64, k: int| 0 <= k <= 3 implies ((#[trigger] table_at(
        m1.bytes@,
        root,
        v,
        k,
    )) matches Some(t) ==> !has_frame(pages, t as int)) by {
        if let Some(t) = table_at(m1.bytes@, root, v, k) {
            assert(table_at(m0.bytes@, root, v, k) == Some(t));
            assert(is_used(m0.pmm->0.bitmap@, t as int / 4096));
            if has_frame(pages, t as int) {
                let i = choose|i: int| 0 <= i < pages.len() && (#[trigger] pages[i]).phys == t;
                assert(!is_used(m0.pmm->0.bitmap@, pages[i].phys as int / 4096));
            }
        }
    }
    assert forall|i: int| 0 <= i < pages.len() implies (#[trigger] pages[i]).va < LOAD_MAX
        && is_used(m1.pmm->0.bitmap@, pages[i].phys as int / 4096) by {
        let va = pages[i].va as int;
        assert(has_page(pages, va));
        assert(is_touched(s, n, va));
        let j = choose|j: int| 0 <= j < n && (#[trigger] s[j]).touches(va);
        assert(s[j].fault(image.len() as int) is None);
        assert(page_up(s[j].end()) <= LOAD_MAX);
        let f = pages[i].phys as int / 4096;
        assert(has_frame(pages, f * 4096));
    }
}

/// The frames that loading segments takes: one for each page that they touch, and those
/// of the page tables that are missing.
pub open spec fn frames_for(m: Seq<u8>, root: u64, s: Seq<Segment>) -> int {
    touched_pages(s).len() + new_tables(m, root, touched_pages(s))
}

/// Whether no larger page is in the way of segments.
pub open spec fn is_way_clear(m: Seq<u8>, root: u64, s: Seq<Segment>) -> bool {
    forall|p: int| #[trigger] touched_pages(s).contains(p) ==> is_clear(m, root, (p * 4096) as u64)
}

/// What mapping the pages of segments takes is what the segments take.
proof fn lemma_pages_for(
    m0: PhysicalMemory,
    m1: PhysicalMemory,
    root: u64,
    image: Seq<u8>,
    s: Seq<Segment>,
    pages: Seq<Page>,
)
    requires
        is_space(m0, root),
        is_placed(m0, m1, pages),
        all_fit(image, s),
        is_laid_out(pages, s, s.len() as int),
        same_tables(m0.bytes@, m1.bytes@, root),
    ensures
        pages.len() == touched_pages(s).len(),
        count_for(m1.bytes@, root, addresses(pages)) == new_tables(
            m0.bytes@,
            root,
            touched_pages(s),
        ),
        is_way_clear(m0.bytes@, root, s) ==> are_clear(m1.bytes@, root, pages),
        forall|w: Seq<u8>| #[trigger]
            adds_just(m1.bytes@, w, root, addresses(pages)) ==> adds_for(
                m0.bytes@,
                w,
                root,
                touched_pages(s),
            ),
{
    let vas = addresses(pages);
    let t = touched_pages(s);
    let n = s.len() as int;
    assert forall|i: int| 0 <= i < pages.len() implies is_touched(
        s,
        n,
        (#[trigger] pages[i]).va as int,
    ) by {
        assert(has_page(pages, pages[i].va as int));
    }
    lemma_count(image, pages, s);
    assert forall|p: int| #[trigger]
        t.contains(p) <==> 0 <= p * 4096 <= u64::MAX && vas.contains((p * 4096) as u64) by {
        assert(has_page(pages, p * 4096) == is_touched(s, n, p * 4096));
        if has_page(pages, p * 4096) {
            let i = choose|i: int| 0 <= i < pages.len() && (#[trigger] pages[i]).va == p * 4096;
            assert(vas[i] == (p * 4096) as u64);
        }
        if 0 <= p * 4096 <= u64::MAX && vas.contains((p * 4096) as u64) {
            let i = choose|i: int| 0 <= i < vas.len() && vas[i] == (p * 4096) as u64;
            assert(pages[i].va == p * 4096);
        }
    }
    assert forall|j: int| 0 <= j < vas.len() implies (#[trigger] vas[j]) % 4096 == 0 by {
        assert(pages[j].va % 4096 == 0);
    }
    lemma_counted_pages(m1.bytes@, root, vas, t);
    assert forall|w: Seq<u8>| #[trigger] adds_just(m1.bytes@, w, root, vas) implies adds_for(
        m0.bytes@,
        w,
        root,
        t,
    ) by {
        lemma_adds_for(m0.bytes@, m1.bytes@, w, root, vas, t);
    }
    lemma_same_needs(m0.bytes@, m1.bytes@, root, t);
    if is_way_clear(m0.bytes@, root, s) {
        assert forall|i: int| 0 <= i < pages.len() implies is_clear(
            m1.bytes@,
            root,
            (#[trigger] pages[i]).va,
        ) by {
            let p = pages[i].va as int / 4096;
            assert(p * 4096 == pages[i].va);
            assert(t.contains(p));
            assert(is_clear(m0.bytes@, root, (p * 4096) as u64));
        }
    }
}

/// Load the executable in `image` into `aspace` and return its entry point.
///
/// An executable that is refused leaves nothing allocated and nothing mapped.
/// Where nothing was mapped in its place, all the frames that it takes are the
/// address space's in the end. Nothing but the user half of the address space is
/// changed. The outer error tells that a page could not be mapped: there was no frame
/// for a page table, or a larger page was in the way.
pub fn load(mem: &mut PhysicalMemory, image: &[u8], aspace: &AddressSpace) -> (r: Result<
    Result<u64, ElfError>,
    MapError,
>)
    requires
        is_space(*old(mem), aspace.pml4_phys),
    ensures
        match parsed(image@) {
            Err(e) => r == Ok::<Result<u64, ElfError>, MapError>(Err(e)) && *final(mem) == *old(mem),
            Ok((entry, s)) => match load_fault(s, old(mem).pmm->0.free_frames as int) {
                Some(e) => {
                    &&& r == Ok::<Result<u64, ElfError>, MapError>(Err(e))
                    &&& is_placed(*old(mem), *final(mem), Seq::empty())
                },
                None => match r {
                    Ok(v) => v == Ok::<u64, ElfError>(entry) && is_loaded(
                        *old(mem),
                        *final(mem),
                        aspace.pml4_phys,
                        image@,
                        s,
                    ),
                    Err(e) => exists|va: u64|
                        is_touched(s, s.len() as int, va as int) && #[trigger] aspace.map_result(
                            *final(mem),
                            va,
                        ) == Err::<(), MapError>(e),
                },
            },
        },
        stays_inside(*old(mem), *final(mem), aspace.pml4_phys),
        parsed(image@) matches Ok((_, s)) ==> load_fault(
            s,
            old(mem).pmm->0.free_frames as int,
        ) is None ==> {
            let left = old(mem).pmm->0.free_frames - frames_for(
                old(mem).bytes@,
                aspace.pml4_phys,
                s,
            );
            &&& r is Ok ==> final(mem).pmm->0.free_frames == left && adds_for(
                old(mem).bytes@,
                final(mem).bytes@,
                aspace.pml4_phys,
                touched_pages(s),
            )
            &&& is_way_clear(old(mem).bytes@, aspace.pml4_phys, s) ==> match r {
                Ok(_) => left >= 0,
                Err(e) => left < 0 && e == MapError::OutOfMemory,
            }
        },
        r is Ok && (parsed(image@) matches Ok((_, s)) ==> is_room(
            old(mem).bytes@,
            aspace.pml4_phys,
            s,
        )) ==> keeps_accounts(*old(mem), *final(mem), aspace.pml4_phys),
        is_closed(old(mem).bytes@, aspace.pml4_phys) ==> is_closed(
            final(mem).bytes@,
            aspace.pml4_phys,
        ),
{
    let ghost m0 = *mem;
    let ghost root = aspace.pml4_phys;
    let (entry, segments) = match parse(image) {
        Ok(p) => p,
        Err(e) => {
            proof {
                lemma_inside_kept(m0, *mem, root);
            }
            return Ok(Err(e));
        },
    };
    let ghost s = segments@;
    proof {
        super::lemma_parsed_fit(image@);
    }
    let mut pages: Vec<Page> = Vec::new();
    match populate(mem, image, segments.as_slice(), &mut pages) {
        Ok(_) => {},
        Err(e) => {
            free_pages(mem, &pages, Ghost(m0));
            proof {
                lemma_refused_accounts(m0, *mem, root);
                lemma_used_tables(m0, *mem, root);
                lemma_inside_kept(m0, *mem, root);
                if is_closed(m0.bytes@, root) {
                    lemma_closed_same(m0.bytes@, mem.bytes@, root);
                }
            }
            return Ok(Err(e));
        },
    }
    let ghost m1 = *mem;
    proof {
        lemma_ready(m0, m1, root, image@, s, pages@);
        lemma_used_tables(m0, m1, root);
        lemma_pages_for(m0, m1, root, image@, s, pages@);
        lemma_inside_kept(m0, m1, root);
        if is_closed(m0.bytes@, root) {
            lemma_closed_same(m0.bytes@, m1.bytes@, root);
        }
    }
    let mapped = map_pages(mem, &pages, aspace);
    proof {
        lemma_inside_twice(m0, m1, *mem, root);
    }
    match mapped {
        Ok(_) => {
            proof {
                lemma_loaded(m0, m1, *mem, root, image@, s, pages@);
                if is_room(m0.bytes@, root, s) {
                    lemma_loaded_accounts(m0, m1, *mem, root, s, pages@);
                }
            }
            Ok(Ok(entry))
        },
        Err(e) => {
            proof {
                let i = choose|i: int|
                    0 <= i < pages@.len() && #[trigger] are_mapped(m1, *mem, root, pages@, i)
                        && aspace.map_result(*mem, pages@[i].va) == Err::<(), MapError>(e);
                assert(has_page(pages@, pages@[i].va as int));
                assert(is_touched(s, s.len() as int, pages@[i].va as int));
            }
            Err(e)
        },
    }
}

} // verus!
