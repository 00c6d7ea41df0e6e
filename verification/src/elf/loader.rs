//! Putting the segments of an image into an address space.
//!
//! Every frame the loader allocates is either mapped into the address space or
//! freed again by the loader itself when loading fails.

use vstd::prelude::*;
use crate::pmm::{
    align_down, align_up, alloc_frame_zeroed, is_used, page_down, page_up, PhysicalMemory,
    PAGE_SIZE,
};
use super::{all_fit, ElfError, Segment};

verus! {

/// One page of the image while it is being assembled.
#[derive(Clone, Copy, Debug, PartialEq, Eq, Structural)]
pub struct Page {
    pub va: u64,
    pub phys: u64,
    pub writable: bool,
    pub executable: bool,
}

impl Segment {
    /// Whether the segment touches the page at `va`.
    pub open spec fn touches(self, va: int) -> bool {
        page_down(self.vaddr as int) <= va < page_up(self.end())
    }

    /// Whether the file gives the byte at an address.
    pub open spec fn file_holds(self, v: int) -> bool {
        self.vaddr <= v < self.vaddr + self.filesz
    }
}

/// The byte of the image at an address: from the file where one of the first
/// `n` segments has it there, zero elsewhere.
pub open spec fn byte_of(image: Seq<u8>, s: Seq<Segment>, n: int, v: int) -> u8
    decreases n,
{
    if n <= 0 {
        0
    } else if s[n - 1].file_holds(v) {
        image[s[n - 1].offset + v - s[n - 1].vaddr]
    } else {
        byte_of(image, s, n - 1, v)
    }
}

/// Whether one of the first `n` segments touches a page.
pub open spec fn is_touched(s: Seq<Segment>, n: int, va: int) -> bool {
    exists|i: int| 0 <= i < n && (#[trigger] s[i]).touches(va)
}

/// Whether one of the first `n` segments makes a page writable.
pub open spec fn is_page_writable(s: Seq<Segment>, n: int, va: int) -> bool {
    exists|i: int| 0 <= i < n && (#[trigger] s[i]).touches(va) && s[i].is_writable()
}

/// Whether one of the first `n` segments makes a page executable.
pub open spec fn is_page_executable(s: Seq<Segment>, n: int, va: int) -> bool {
    exists|i: int| 0 <= i < n && (#[trigger] s[i]).touches(va) && s[i].is_executable()
}

pub open spec fn has_page(pages: Seq<Page>, va: int) -> bool {
    exists|i: int| 0 <= i < pages.len() && (#[trigger] pages[i]).va == va
}

/// Whether the frames of the pages, and no other, were handed out since `m0`,
/// and nothing that was in use then has changed.
pub open spec fn is_placed(m0: PhysicalMemory, m: PhysicalMemory, pages: Seq<Page>) -> bool {
    &&& m0.wf()
    &&& m0.pmm is Some
    &&& m.wf()
    &&& m.pmm is Some
    &&& m.hhdm == m0.hhdm
    &&& m.pmm->0.same_memory(m0.pmm->0)
    &&& m.bytes@.len() == m0.bytes@.len()
    &&& m.pmm->0.free_frames == m0.pmm->0.free_frames - pages.len()
    &&& forall|i: int, j: int|
        0 <= i < j < pages.len() ==> (#[trigger] pages[i]).va != (#[trigger] pages[j]).va
            && pages[i].phys != pages[j].phys
    &&& forall|i: int|
        0 <= i < pages.len() ==> {
            &&& (#[trigger] pages[i]).va % 4096 == 0
            &&& pages[i].phys % 4096 == 0
            &&& pages[i].phys + 4096 <= m.bytes@.len()
            &&& !is_used(m0.pmm->0.bitmap@, pages[i].phys as int / 4096)
        }
    &&& forall|f: int|
        0 <= f < m0.pmm->0.total_frames ==> #[trigger] is_used(m.pmm->0.bitmap@, f) == (is_used(
            m0.pmm->0.bitmap@,
            f,
        ) || has_frame(pages, f * 4096))
    &&& forall|x: int|
        0 <= x < m0.bytes@.len() && is_used(m0.pmm->0.bitmap@, x / 4096) ==> #[trigger] m.bytes@[x]
            == m0.bytes@[x]
}

pub open spec fn has_frame(pages: Seq<Page>, phys: int) -> bool {
    exists|i: int| 0 <= i < pages.len() && (#[trigger] pages[i]).phys == phys
}

/// Whether the pages are those that the first `n` segments touch, with their
/// permissions.
pub open spec fn is_laid_out(pages: Seq<Page>, s: Seq<Segment>, n: int) -> bool {
    &&& forall|va: int|
        va % 4096 == 0 ==> #[trigger] has_page(pages, va) == is_touched(s, n, va)
    &&& forall|i: int|
        0 <= i < pages.len() ==> (#[trigger] pages[i]).writable == is_page_writable(
            s,
            n,
            pages[i].va as int,
        ) && pages[i].executable == is_page_executable(s, n, pages[i].va as int)
}

/// Whether the pages hold the bytes of the first `n` segments.
pub open spec fn is_filled_in(
    m: Seq<u8>,
    pages: Seq<Page>,
    image: Seq<u8>,
    s: Seq<Segment>,
    n: int,
) -> bool {
    forall|i: int, o: int|
        #![trigger m[pages[i].phys + o]]
        0 <= i < pages.len() && 0 <= o < 4096 ==> m[pages[i].phys + o] == byte_of(
            image,
            s,
            n,
            pages[i].va + o,
        )
}

fn find_page(pages: &Vec<Page>, va: u64) -> (r: Option<usize>)
    ensures
        match r {
            Some(i) => i < pages@.len() && pages@[i as int].va == va,
            None => !has_page(pages@, va as int),
        },
{
    let mut i: usize = pages.len();
    while i > 0
        invariant
            i <= pages@.len(),
            forall|k: int| i <= k < pages@.len() ==> (#[trigger] pages@[k]).va != va,
        decreases i,
    {
        i -= 1;
        if pages[i].va == va {
            return Some(i);
        }
    }
    None
}

/// A page that no segment touches holds no byte of the file.
proof fn lemma_untouched(image: Seq<u8>, s: Seq<Segment>, n: int, va: int, o: int)
    requires
        va % 4096 == 0,
        0 <= o < 4096,
        0 <= n <= s.len(),
        forall|i: int| 0 <= i < n ==> (#[trigger] s[i]).filesz <= s[i].memsz,
        !is_touched(s, n, va),
    ensures
        byte_of(image, s, n, va + o) == 0,
    decreases n,
{
    if n > 0 {
        let t = s[n - 1];
        assert(!t.touches(va));
        assert(t.filesz <= t.memsz);
        assert(!t.file_holds(va + o)) by {
            if t.file_holds(va + o) {
                assert(page_down(t.vaddr as int) <= va);
                assert(va < page_up(t.end()));
            }
        }
        assert(!is_touched(s, n - 1, va)) by {
            if is_touched(s, n - 1, va) {
                let i = choose|i: int| 0 <= i < n - 1 && (#[trigger] s[i]).touches(va);
                assert(s[i].touches(va));
            }
        }
        lemma_untouched(image, s, n - 1, va, o);
    }
}

/// Add a frame for a page that has none.
fn add_page(
    mem: &mut PhysicalMemory,
    pages: &mut Vec<Page>,
    va: u64,
    writable: bool,
    executable: bool,
    Ghost(m0): Ghost<PhysicalMemory>,
) -> (r: Result<(), ElfError>)
    requires
        is_placed(m0, *old(mem), old(pages)@),
        !has_page(old(pages)@, va as int),
        va % 4096 == 0,
    ensures
        is_placed(m0, *final(mem), final(pages)@),
        r is Err <==> old(mem).pmm->0.free_frames == 0,
        r matches Err(e) ==> e == ElfError::NoMemory && *final(mem) == *old(mem) && final(pages)@
            == old(pages)@,
        r is Ok ==> {
            &&& final(pages)@.len() == old(pages)@.len() + 1
            &&& final(pages)@.drop_last() == old(pages)@
            &&& final(pages)@.last().va == va
            &&& final(pages)@.last().writable == writable
            &&& final(pages)@.last().executable == executable
            &&& forall|o: int|
                0 <= o < 4096 ==> #[trigger] final(mem).bytes@[final(pages)@.last().phys + o] == 0
            &&& forall|i: int, o: int|
                #![trigger final(mem).bytes@[old(pages)@[i].phys + o]]
                0 <= i < old(pages)@.len() && 0 <= o < 4096 ==> final(mem).bytes@[old(pages)@[i].phys
                    + o] == old(mem).bytes@[old(pages)@[i].phys + o]
        },
{
    let ghost before = *mem;
    let ghost p0 = pages@;
    let phys: u64 = match alloc_frame_zeroed(mem) {
        Some(phys) => phys,
        None => {
            return Err(ElfError::NoMemory);
        },
    };
    let page: Page = Page { va, phys, writable, executable };
    pages.push(page);
    proof {
        lemma_page_added(m0, before, *mem, p0, page);
        assert(pages@.drop_last() =~= p0);
    }
    Ok(())
}

#[verifier::spinoff_prover]
proof fn lemma_page_added(
    m0: PhysicalMemory,
    before: PhysicalMemory,
    after: PhysicalMemory,
    pages: Seq<Page>,
    page: Page,
)
    requires
        is_placed(m0, before, pages),
        after.wf(),
        after.pmm is Some,
        after.hhdm == before.hhdm,
        before.pmm->0.gave_one(after.pmm->0, page.phys),
        after.bytes@ == Seq::new(
            before.bytes@.len(),
            |i: int|
                if page.phys <= i < page.phys + 4096 {
                    0u8
                } else {
                    before.bytes@[i]
                },
        ),
        !has_page(pages, page.va as int),
        page.va % 4096 == 0,
    ensures
        is_placed(m0, after, pages.push(page)),
        forall|o: int| 0 <= o < 4096 ==> #[trigger] after.bytes@[page.phys + o] == 0,
        forall|i: int, o: int|
            #![trigger after.bytes@[pages[i].phys + o]]
            0 <= i < pages.len() && 0 <= o < 4096 ==> after.bytes@[pages[i].phys + o]
                == before.bytes@[pages[i].phys + o],
{
    let all = pages.push(page);
    let g = page.phys as int / 4096;
    let total = m0.pmm->0.total_frames as int;
    assert(0 <= g < total);
    assert(page.phys == g * 4096);
    assert(is_used(before.pmm->0.bitmap@, g) == (is_used(m0.pmm->0.bitmap@, g) || has_frame(
        pages,
        g * 4096,
    )));
    assert(!is_used(before.pmm->0.bitmap@, g));
    assert forall|i: int| 0 <= i < pages.len() implies (#[trigger] pages[i]).phys != page.phys by {
        if pages[i].phys == page.phys {
            assert(has_frame(pages, g * 4096));
        }
    }
    assert forall|i: int, j: int| 0 <= i < j < all.len() implies (#[trigger] all[i]).va != (
    #[trigger] all[j]).va && all[i].phys != all[j].phys by {
        if j == pages.len() {
            assert(pages[i].va != page.va);
            assert(pages[i].phys != page.phys);
        } else {
            assert(pages[i].va != pages[j].va);
        }
    }
    assert forall|i: int| 0 <= i < all.len() implies {
        &&& (#[trigger] all[i]).va % 4096 == 0
        &&& all[i].phys % 4096 == 0
        &&& all[i].phys + 4096 <= after.bytes@.len()
        &&& !is_used(m0.pmm->0.bitmap@, all[i].phys as int / 4096)
    } by {
        if i < pages.len() {
            assert(pages[i].va % 4096 == 0);
        }
    }
    assert forall|f: int| 0 <= f < total implies #[trigger] is_used(after.pmm->0.bitmap@, f) == (
    is_used(m0.pmm->0.bitmap@, f) || has_frame(all, f * 4096)) by {
        assert(0 <= f < before.pmm->0.bitmap@.len() * 64);
        assert(is_used(before.pmm->0.bitmap@, f) == (is_used(m0.pmm->0.bitmap@, f) || has_frame(
            pages,
            f * 4096,
        )));
        if has_frame(pages, f * 4096) {
            let i = choose|i: int| 0 <= i < pages.len() && (#[trigger] pages[i]).phys == f * 4096;
            assert(all[i].phys == f * 4096);
        }
        if f == g {
            assert(all[pages.len() as int].phys == f * 4096);
        }
        if has_frame(all, f * 4096) && f != g {
            let i = choose|i: int| 0 <= i < all.len() && (#[trigger] all[i]).phys == f * 4096;
            assert(i < pages.len());
            assert(pages[i].phys == f * 4096);
        }
    }
    assert forall|x: int|
        0 <= x < m0.bytes@.len() && is_used(
            m0.pmm->0.bitmap@,
            x / 4096,
        ) implies #[trigger] after.bytes@[x] == m0.bytes@[x] by {
        assert(before.bytes@[x] == m0.bytes@[x]);
        if page.phys <= x < page.phys + 4096 {
            assert(x / 4096 == g);
        }
    }
    assert forall|i: int, o: int|
        #![trigger after.bytes@[pages[i].phys + o]]
        0 <= i < pages.len() && 0 <= o < 4096 implies after.bytes@[pages[i].phys + o]
        == before.bytes@[pages[i].phys + o] by {
        assert(pages[i].phys % 4096 == 0);
        assert(pages[i].phys != page.phys);
    }
}

/// Whether the pages are those that the first `k` segments touch, and those of
/// segment `k` below `limit`, with their permissions.
pub open spec fn is_laid_upto(pages: Seq<Page>, s: Seq<Segment>, k: int, limit: int) -> bool {
    let first = page_down(s[k].vaddr as int);
    &&& forall|va: int|
        va % 4096 == 0 ==> #[trigger] has_page(pages, va) == (is_touched(s, k, va) || first <= va
            < limit)
    &&& forall|i: int|
        0 <= i < pages.len() ==> (#[trigger] pages[i]).writable == (is_page_writable(
            s,
            k,
            pages[i].va as int,
        ) || (first <= pages[i].va < limit && s[k].is_writable())) && pages[i].executable == (
        is_page_executable(s, k, pages[i].va as int) || (first <= pages[i].va < limit
            && s[k].is_executable()))
}

proof fn lemma_laid_start(pages: Seq<Page>, s: Seq<Segment>, k: int)
    requires
        is_laid_out(pages, s, k),
    ensures
        is_laid_upto(pages, s, k, page_down(s[k].vaddr as int)),
{
}

proof fn lemma_laid_end(pages: Seq<Page>, s: Seq<Segment>, k: int)
    requires
        0 <= k < s.len(),
        is_laid_upto(pages, s, k, page_up(s[k].end())),
    ensures
        is_laid_out(pages, s, k + 1),
{
    assert forall|va: int| #[trigger] is_touched(s, k + 1, va) == (is_touched(s, k, va)
        || s[k].touches(va)) by {
        lemma_one_more(s, k, va);
    }
    assert forall|va: int|
        va % 4096 == 0 implies #[trigger] has_page(pages, va) == is_touched(s, k + 1, va) by {}
    assert forall|i: int| 0 <= i < pages.len() implies (#[trigger] pages[i]).writable
        == is_page_writable(s, k + 1, pages[i].va as int) && pages[i].executable
        == is_page_executable(s, k + 1, pages[i].va as int) by {
        lemma_one_more(s, k, pages[i].va as int);
    }
}

proof fn lemma_one_more(s: Seq<Segment>, k: int, va: int)
    requires
        0 <= k < s.len(),
    ensures
        is_touched(s, k + 1, va) == (is_touched(s, k, va) || s[k].touches(va)),
        is_page_writable(s, k + 1, va) == (is_page_writable(s, k, va) || (s[k].touches(va)
            && s[k].is_writable())),
        is_page_executable(s, k + 1, va) == (is_page_executable(s, k, va) || (s[k].touches(va)
            && s[k].is_executable())),
{
    if is_touched(s, k, va) {
        let i = choose|i: int| 0 <= i < k && (#[trigger] s[i]).touches(va);
        assert(s[i].touches(va));
    }
    if is_page_writable(s, k, va) {
        let i = choose|i: int| 0 <= i < k && (#[trigger] s[i]).touches(va) && s[i].is_writable();
        assert(s[i].touches(va));
    }
    if is_page_executable(s, k, va) {
        let i = choose|i: int|
            0 <= i < k && (#[trigger] s[i]).touches(va) && s[i].is_executable();
        assert(s[i].touches(va));
    }
    if s[k].touches(va) {
        assert(s[k].touches(va));
    }
}

/// Whether there is no frame left for some page that the segments touch.
pub open spec fn is_short(m: PhysicalMemory, pages: Seq<Page>, s: Seq<Segment>) -> bool {
    &&& m.pmm->0.free_frames == 0
    &&& forall|i: int|
        0 <= i < pages.len() ==> is_touched(s, s.len() as int, (#[trigger] pages[i]).va as int)
    &&& exists|va: int|
        va % 4096 == 0 && is_touched(s, s.len() as int, va) && !(#[trigger] has_page(pages, va))
}

proof fn lemma_more_touched(s: Seq<Segment>, k: int, va: int)
    requires
        0 <= k <= s.len(),
        is_touched(s, k, va),
    ensures
        is_touched(s, s.len() as int, va),
{
    let i = choose|i: int| 0 <= i < k && (#[trigger] s[i]).touches(va);
    assert(s[i].touches(va));
}

/// Where segment `k` needs a page and there is no frame.
proof fn lemma_short(m: PhysicalMemory, pages: Seq<Page>, s: Seq<Segment>, k: int, va: int)
    requires
        0 <= k < s.len(),
        is_laid_upto(pages, s, k, va),
        va % 4096 == 0,
        !has_page(pages, va),
        page_down(s[k].vaddr as int) <= va < page_up(s[k].end()),
        forall|i: int| 0 <= i < pages.len() ==> (#[trigger] pages[i]).va % 4096 == 0,
    ensures
        m.pmm->0.free_frames == 0 ==> is_short(m, pages, s),
{
    assert forall|i: int| 0 <= i < pages.len() implies is_touched(
        s,
        s.len() as int,
        (#[trigger] pages[i]).va as int,
    ) by {
        let x = pages[i].va as int;
        assert(has_page(pages, x));
        if is_touched(s, k, x) {
            lemma_more_touched(s, k, x);
        } else {
            assert(s[k].touches(x));
        }
    }
    assert(s[k].touches(va));
    assert(is_touched(s, s.len() as int, va));
}

/// Have a frame for every page that segment `k` touches.
pub(crate) fn place_segment(
    mem: &mut PhysicalMemory,
    pages: &mut Vec<Page>,
    segments: &[Segment],
    k: usize,
    image: &[u8],
    Ghost(m0): Ghost<PhysicalMemory>,
) -> (r: Result<(), ElfError>)
    requires
        is_placed(m0, *old(mem), old(pages)@),
        k < segments@.len(),
        all_fit(image@, segments@),
        is_laid_out(old(pages)@, segments@, k as int),
        is_filled_in(old(mem).bytes@, old(pages)@, image@, segments@, k as int),
    ensures
        is_placed(m0, *final(mem), final(pages)@),
        r matches Err(e) ==> e == ElfError::NoMemory && is_short(
            *final(mem),
            final(pages)@,
            segments@,
        ),
        r is Ok ==> is_laid_out(final(pages)@, segments@, k + 1) && is_filled_in(
            final(mem).bytes@,
            final(pages)@,
            image@,
            segments@,
            k as int,
        ),
{
    let seg: Segment = segments[k];
    let ghost s = segments@;
    assert(s[k as int].fault(image@.len() as int) is None);
    let writable: bool = seg.writable();
    let executable: bool = seg.executable();
    let first: u64 = align_down(seg.vaddr);
    let last: u64 = align_up(seg.vaddr + seg.memsz);
    let mut va: u64 = first;
    proof {
        lemma_laid_start(pages@, s, k as int);
        assert forall|i: int| 0 <= i < k implies (#[trigger] s[i]).filesz <= s[i].memsz by {
            assert(s[i].fault(image@.len() as int) is None);
        }
    }
    while va < last
        invariant
            s == segments@,
            k < s.len(),
            seg == s[k as int],
            writable == seg.is_writable(),
            executable == seg.is_executable(),
            first == page_down(seg.vaddr as int),
            last == page_up(seg.end()),
            last <= u64::MAX - 4096,
            first <= va <= last,
            va % 4096 == 0,
            last % 4096 == 0,
            is_placed(m0, *mem, pages@),
            is_laid_upto(pages@, s, k as int, va as int),
            is_filled_in(mem.bytes@, pages@, image@, s, k as int),
            forall|i: int| 0 <= i < k ==> (#[trigger] s[i]).filesz <= s[i].memsz,
        decreases last - va,
    {
        let ghost p0 = pages@;
        let ghost b0 = mem.bytes@;
        match find_page(pages, va) {
            Some(i) => {
                let page: Page = pages[i];
                let joined: Page = Page {
                    va: page.va,
                    phys: page.phys,
                    writable: page.writable || writable,
                    executable: page.executable || executable,
                };
                pages[i] = joined;
                proof {
                    lemma_page_joined(m0, *mem, p0, pages@, i as int, joined, image@, s, k as int);
                    lemma_laid_join(p0, pages@, s, k as int, va as int, i as int, joined);
                }
            },
            None => {
                proof {
                    lemma_short(*mem, pages@, s, k as int, va as int);
                }
                add_page(mem, pages, va, writable, executable, Ghost(m0))?;
                proof {
                    assert(pages@ =~= p0.push(pages@.last()));
                    assert(!is_touched(s, k as int, va as int)) by {
                        assert(has_page(p0, va as int) == (is_touched(s, k as int, va as int)
                            || first <= va < va));
                    }
                    lemma_laid_push(p0, pages@, s, k as int, va as int);
                    lemma_filled_push(b0, mem.bytes@, p0, pages@, image@, s, k as int);
                }
            },
        }
        va += PAGE_SIZE;
    }
    proof {
        lemma_laid_end(pages@, s, k as int);
    }
    Ok(())
}

proof fn lemma_filled_push(
    b0: Seq<u8>,
    b: Seq<u8>,
    p0: Seq<Page>,
    p: Seq<Page>,
    image: Seq<u8>,
    s: Seq<Segment>,
    k: int,
)
    requires
        p == p0.push(p.last()),
        is_filled_in(b0, p0, image, s, k),
        0 <= k <= s.len(),
        forall|i: int| 0 <= i < k ==> (#[trigger] s[i]).filesz <= s[i].memsz,
        p.last().va % 4096 == 0,
        !is_touched(s, k, p.last().va as int),
        forall|o: int| 0 <= o < 4096 ==> #[trigger] b[p.last().phys + o] == 0,
        forall|i: int, o: int|
            #![trigger b[p0[i].phys + o]]
            0 <= i < p0.len() && 0 <= o < 4096 ==> b[p0[i].phys + o] == b0[p0[i].phys + o],
    ensures
        is_filled_in(b, p, image, s, k),
{
    assert forall|i: int, o: int|
        #![trigger b[p[i].phys + o]]
        0 <= i < p.len() && 0 <= o < 4096 implies b[p[i].phys + o] == byte_of(
        image,
        s,
        k,
        p[i].va + o,
    ) by {
        if i < p0.len() {
            assert(p[i] == p0[i]);
            assert(b[p0[i].phys + o] == b0[p0[i].phys + o]);
        } else {
            lemma_untouched(image, s, k, p.last().va as int, o);
            assert(b[p.last().phys + o] == 0);
        }
    }
}

#[verifier::spinoff_prover]
proof fn lemma_laid_push(p0: Seq<Page>, p: Seq<Page>, s: Seq<Segment>, k: int, va: int)
    requires
        forall|i: int| 0 <= i < p0.len() ==> (#[trigger] p0[i]).va % 4096 == 0,
        0 <= k < s.len(),
        is_laid_upto(p0, s, k, va),
        p == p0.push(p.last()),
        p.last().va == va,
        p.last().writable == s[k].is_writable(),
        p.last().executable == s[k].is_executable(),
        va % 4096 == 0,
        page_down(s[k].vaddr as int) <= va,
        !is_touched(s, k, va),
        !has_page(p0, va),
    ensures
        is_laid_upto(p, s, k, va + 4096),
{
    let first = page_down(s[k].vaddr as int);
    assert forall|x: int| x % 4096 == 0 implies #[trigger] has_page(p, x) == (is_touched(s, k, x)
        || first <= x < va + 4096) by {
        assert(has_page(p0, x) == (is_touched(s, k, x) || first <= x < va));
        if has_page(p0, x) {
            let i = choose|i: int| 0 <= i < p0.len() && (#[trigger] p0[i]).va == x;
            assert(p[i].va == x);
        }
        if x == va {
            assert(p[p0.len() as int].va == x);
        }
        if has_page(p, x) && x != va {
            let i = choose|i: int| 0 <= i < p.len() && (#[trigger] p[i]).va == x;
            assert(i < p0.len());
            assert(p0[i].va == x);
        }
    }
    assert forall|i: int| 0 <= i < p.len() implies (#[trigger] p[i]).writable == (is_page_writable(
        s,
        k,
        p[i].va as int,
    ) || (first <= p[i].va < va + 4096 && s[k].is_writable())) && p[i].executable == (
    is_page_executable(s, k, p[i].va as int) || (first <= p[i].va < va + 4096
        && s[k].is_executable())) by {
        if i < p0.len() {
            assert(p[i] == p0[i]);
            assert(p0[i].va != va) by {
                if p0[i].va == va {
                    assert(has_page(p0, va));
                }
            }
            lemma_page_aligned(p0, s, k, va, i);
        } else {
            if is_page_writable(s, k, va) || is_page_executable(s, k, va) {
                let j = choose|j: int| 0 <= j < k && (#[trigger] s[j]).touches(va);
                assert(is_touched(s, k, va));
            }
        }
    }
}

/// A page below the next page, where pages are aligned, is below this one.
proof fn lemma_page_aligned(p0: Seq<Page>, s: Seq<Segment>, k: int, va: int, i: int)
    requires
        0 <= i < p0.len(),
        va % 4096 == 0,
        p0[i].va != va,
    ensures
        p0[i].va % 4096 == 0 ==> (p0[i].va < va + 4096 <==> p0[i].va < va),
{
}

proof fn lemma_laid_join(
    p0: Seq<Page>,
    p: Seq<Page>,
    s: Seq<Segment>,
    k: int,
    va: int,
    at: int,
    joined: Page,
)
    requires
        0 <= k < s.len(),
        0 <= at < p0.len(),
        is_laid_upto(p0, s, k, va),
        p == p0.update(at, joined),
        p0[at].va == va,
        joined.va == va,
        joined.writable == (p0[at].writable || s[k].is_writable()),
        joined.executable == (p0[at].executable || s[k].is_executable()),
        va % 4096 == 0,
        page_down(s[k].vaddr as int) <= va,
        forall|i: int| 0 <= i < p0.len() ==> (#[trigger] p0[i]).va % 4096 == 0,
        forall|i: int| 0 <= i < p0.len() && i != at ==> (#[trigger] p0[i]).va != va,
    ensures
        is_laid_upto(p, s, k, va + 4096),
{
    let first = page_down(s[k].vaddr as int);
    assert forall|x: int| x % 4096 == 0 implies #[trigger] has_page(p, x) == (is_touched(s, k, x)
        || first <= x < va + 4096) by {
        assert(has_page(p0, x) == (is_touched(s, k, x) || first <= x < va));
        if has_page(p0, x) {
            let i = choose|i: int| 0 <= i < p0.len() && (#[trigger] p0[i]).va == x;
            assert(p[i].va == x);
        }
        if x == va {
            assert(p[at].va == x);
        }
        if has_page(p, x) {
            let i = choose|i: int| 0 <= i < p.len() && (#[trigger] p[i]).va == x;
            assert(p0[i].va == x);
        }
    }
    assert forall|i: int| 0 <= i < p.len() implies (#[trigger] p[i]).writable == (is_page_writable(
        s,
        k,
        p[i].va as int,
    ) || (first <= p[i].va < va + 4096 && s[k].is_writable())) && p[i].executable == (
    is_page_executable(s, k, p[i].va as int) || (first <= p[i].va < va + 4096
        && s[k].is_executable())) by {
        if i != at {
            assert(p[i] == p0[i]);
            assert(p0[i].va != va);
            assert(p0[i].va % 4096 == 0);
        } else {
            assert(p0[at].va == va);
        }
    }
}

proof fn lemma_page_joined(
    m0: PhysicalMemory,
    m: PhysicalMemory,
    p0: Seq<Page>,
    p: Seq<Page>,
    at: int,
    joined: Page,
    image: Seq<u8>,
    s: Seq<Segment>,
    k: int,
)
    requires
        is_placed(m0, m, p0),
        is_filled_in(m.bytes@, p0, image, s, k),
        0 <= at < p0.len(),
        p == p0.update(at, joined),
        joined.va == p0[at].va,
        joined.phys == p0[at].phys,
    ensures
        is_placed(m0, m, p),
        is_filled_in(m.bytes@, p, image, s, k),
        forall|i: int| 0 <= i < p0.len() ==> (#[trigger] p0[i]).va % 4096 == 0,
        forall|i: int| 0 <= i < p0.len() && i != at ==> (#[trigger] p0[i]).va != p0[at].va,
{
    assert forall|i: int, j: int| 0 <= i < j < p.len() implies (#[trigger] p[i]).va != (
    #[trigger] p[j]).va && p[i].phys != p[j].phys by {
        assert(p0[i].va != p0[j].va);
    }
    assert forall|i: int| 0 <= i < p0.len() && i != at implies (#[trigger] p0[i]).va
        != p0[at].va by {
        if i < at {
            assert(p0[i].va != p0[at].va);
        } else {
            assert(p0[at].va != p0[i].va);
        }
    }
    assert forall|i: int| 0 <= i < p.len() implies {
        &&& (#[trigger] p[i]).va % 4096 == 0
        &&& p[i].phys % 4096 == 0
        &&& p[i].phys + 4096 <= m.bytes@.len()
        &&& !is_used(m0.pmm->0.bitmap@, p[i].phys as int / 4096)
    } by {
        assert(p0[i].va % 4096 == 0);
    }
    assert forall|f: int| #[trigger] has_frame(p, f) == has_frame(p0, f) by {
        if has_frame(p0, f) {
            let i = choose|i: int| 0 <= i < p0.len() && (#[trigger] p0[i]).phys == f;
            assert(p[i].phys == f);
        }
        if has_frame(p, f) {
            let i = choose|i: int| 0 <= i < p.len() && (#[trigger] p[i]).phys == f;
            assert(p0[i].phys == f);
        }
    }
    assert forall|f: int| 0 <= f < m0.pmm->0.total_frames implies #[trigger] is_used(
        m.pmm->0.bitmap@,
        f,
    ) == (is_used(m0.pmm->0.bitmap@, f) || has_frame(p, f * 4096)) by {
        assert(has_frame(p, f * 4096) == has_frame(p0, f * 4096));
    }
    assert forall|i: int, o: int|
        #![trigger m.bytes@[p[i].phys + o]]
        0 <= i < p.len() && 0 <= o < 4096 implies m.bytes@[p[i].phys + o] == byte_of(
        image,
        s,
        k,
        p[i].va + o,
    ) by {
        assert(m.bytes@[p0[i].phys + o] == byte_of(image, s, k, p0[i].va + o));
    }
}

/// Copy `n` bytes of the image into memory.
fn fill(mem: &mut PhysicalMemory, at: u64, image: &[u8], from: u64, n: u64)
    requires
        at + n <= old(mem).bytes@.len(),
        from + n <= image@.len(),
    ensures
        final(mem).pmm == old(mem).pmm,
        final(mem).hhdm == old(mem).hhdm,
        final(mem).bytes@.len() == old(mem).bytes@.len(),
        forall|x: int|
            0 <= x < old(mem).bytes@.len() ==> #[trigger] final(mem).bytes@[x] == if at <= x < at
                + n {
                image@[from + x - at]
            } else {
                old(mem).bytes@[x]
            },
{
    let len: usize = mem.bytes.len();
    let room: usize = image.len();
    let mut j: u64 = 0;
    while j < n
        invariant
            j <= n,
            at + n <= len,
            from + n <= room,
            len == mem.bytes@.len(),
            room == image@.len(),
            mem.pmm == old(mem).pmm,
            mem.hhdm == old(mem).hhdm,
            mem.bytes@.len() == old(mem).bytes@.len(),
            forall|x: int|
                0 <= x < old(mem).bytes@.len() ==> #[trigger] mem.bytes@[x] == if at <= x < at + j {
                    image@[from + x - at]
                } else {
                    old(mem).bytes@[x]
                },
        decreases n - j,
    {
        mem.bytes[(at + j) as usize] = image[(from + j) as usize];
        j += 1;
    }
}

/// Whether the pages hold the bytes of the first `k` segments, and the first
/// `done` bytes that segment `k` has in the file.
pub open spec fn is_filled_upto(
    m: Seq<u8>,
    pages: Seq<Page>,
    image: Seq<u8>,
    s: Seq<Segment>,
    k: int,
    done: int,
) -> bool {
    forall|i: int, o: int|
        #![trigger m[pages[i].phys + o]]
        0 <= i < pages.len() && 0 <= o < 4096 ==> m[pages[i].phys + o] == if s[k].vaddr
            <= pages[i].va + o < s[k].vaddr + done {
            image[s[k].offset + (pages[i].va + o) - s[k].vaddr]
        } else {
            byte_of(image, s, k, pages[i].va + o)
        }
}

#[verifier::spinoff_prover]
proof fn lemma_chunk(
    m0: PhysicalMemory,
    a: PhysicalMemory,
    b: PhysicalMemory,
    pages: Seq<Page>,
    image: Seq<u8>,
    s: Seq<Segment>,
    k: int,
    done: int,
    n: int,
    at: int,
)
    requires
        is_placed(m0, a, pages),
        is_filled_upto(a.bytes@, pages, image, s, k, done),
        0 <= at < pages.len(),
        0 <= n,
        0 <= done,
        b.pmm == a.pmm,
        b.hhdm == a.hhdm,
        b.bytes@.len() == a.bytes@.len(),
        pages[at].va <= s[k].vaddr + done,
        s[k].vaddr + done + n <= pages[at].va + 4096,
        forall|x: int|
            0 <= x < a.bytes@.len() ==> #[trigger] b.bytes@[x] == if pages[at].phys + (s[k].vaddr
                + done - pages[at].va) <= x < pages[at].phys + (s[k].vaddr + done - pages[at].va)
                + n {
                image[s[k].offset + done + x - (pages[at].phys + (s[k].vaddr + done
                    - pages[at].va))]
            } else {
                a.bytes@[x]
            },
    ensures
        is_placed(m0, b, pages),
        is_filled_upto(b.bytes@, pages, image, s, k, done + n),
{
    let p = pages[at].phys as int;
    assert forall|x: int|
        0 <= x < m0.bytes@.len() && is_used(m0.pmm->0.bitmap@, x / 4096) implies #[trigger] b.bytes@[x]
        == m0.bytes@[x] by {
        assert(a.bytes@[x] == m0.bytes@[x]);
        if p <= x < p + 4096 {
            assert(x / 4096 == p / 4096);
        }
    }
    assert forall|i: int, o: int|
        #![trigger b.bytes@[pages[i].phys + o]]
        0 <= i < pages.len() && 0 <= o < 4096 implies b.bytes@[pages[i].phys + o] == if s[k].vaddr
        <= pages[i].va + o < s[k].vaddr + done + n {
        image[s[k].offset + (pages[i].va + o) - s[k].vaddr]
    } else {
        byte_of(image, s, k, pages[i].va + o)
    } by {
        let x = pages[i].phys + o;
        assert(pages[i].phys + 4096 <= b.bytes@.len());
        assert(a.bytes@[x] == if s[k].vaddr <= pages[i].va + o < s[k].vaddr + done {
            image[s[k].offset + (pages[i].va + o) - s[k].vaddr]
        } else {
            byte_of(image, s, k, pages[i].va + o)
        });
        if i != at {
            if i < at {
                assert(pages[i].va != pages[at].va && pages[i].phys != pages[at].phys);
            } else {
                assert(pages[at].va != pages[i].va && pages[at].phys != pages[i].phys);
            }
            lemma_pages_apart(pages[i].phys as int, p, o);
            lemma_pages_apart(pages[i].va as int, pages[at].va as int, o);
            assert(b.bytes@[x] == a.bytes@[x]);
        } else {
            let start = p + (s[k].vaddr + done - pages[at].va);
            if start <= x < start + n {
                assert(b.bytes@[x] == image[s[k].offset + done + x - start]);
                assert(s[k].offset + done + x - start == s[k].offset + (pages[i].va + o)
                    - s[k].vaddr);
            } else {
                assert(b.bytes@[x] == a.bytes@[x]);
            }
        }
    }
}

/// Two different pages have no byte in common.
proof fn lemma_pages_apart(a: int, b: int, o: int)
    requires
        a % 4096 == 0,
        b % 4096 == 0,
        a != b,
        0 <= o < 4096,
    ensures
        !(b <= a + o < b + 4096),
{
}

/// Copy in what segment `k` has in the file. The rest of it stays zero.
pub(crate) fn copy_segment(
    mem: &mut PhysicalMemory,
    pages: &Vec<Page>,
    segments: &[Segment],
    k: usize,
    image: &[u8],
    Ghost(m0): Ghost<PhysicalMemory>,
)
    requires
        is_placed(m0, *old(mem), pages@),
        k < segments@.len(),
        all_fit(image@, segments@),
        is_laid_out(pages@, segments@, k + 1),
        is_filled_in(old(mem).bytes@, pages@, image@, segments@, k as int),
    ensures
        is_placed(m0, *final(mem), pages@),
        final(mem).pmm == old(mem).pmm,
        is_filled_in(final(mem).bytes@, pages@, image@, segments@, k + 1),
{
    let seg: Segment = segments[k];
    let ghost s = segments@;
    assert(s[k as int].fault(image@.len() as int) is None);
    let room: usize = image.len();
    let mut copied: u64 = 0;
    while copied < seg.filesz
        invariant
            room == image@.len(),
            s == segments@,
            k < s.len(),
            seg == s[k as int],
            seg.fault(image@.len() as int) is None,
            copied <= seg.filesz,
            is_placed(m0, *mem, pages@),
            mem.pmm == old(mem).pmm,
            is_laid_out(pages@, s, k + 1),
            is_filled_upto(mem.bytes@, pages@, image@, s, k as int, copied as int),
        decreases seg.filesz - copied,
    {
        let dst_va: u64 = seg.vaddr + copied;
        let page_va: u64 = align_down(dst_va);
        let in_page: u64 = dst_va - page_va;
        let rest: u64 = seg.filesz - copied;
        let n: u64 = if rest < PAGE_SIZE - in_page {
            rest
        } else {
            PAGE_SIZE - in_page
        };
        let ghost before = *mem;
        proof {
            assert(s[k as int].touches(page_va as int));
            assert(is_touched(s, k + 1, page_va as int));
            assert(has_page(pages@, page_va as int));
        }
        match find_page(pages, page_va) {
            Some(i) => {
                let page: Page = pages[i];
                fill(mem, page.phys + in_page, image, seg.offset + copied, n);
                proof {
                    lemma_chunk(
                        m0,
                        before,
                        *mem,
                        pages@,
                        image@,
                        s,
                        k as int,
                        copied as int,
                        n as int,
                        i as int,
                    );
                }
            },
            None => {},
        }
        copied += n;
    }
    proof {
        assert forall|i: int, o: int|
            #![trigger mem.bytes@[pages@[i].phys + o]]
            0 <= i < pages@.len() && 0 <= o < 4096 implies mem.bytes@[pages@[i].phys + o]
            == byte_of(image@, s, k + 1, pages@[i].va + o) by {}
    }
}

} // verus!
