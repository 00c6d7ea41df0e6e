//! Physical memory: a bitmap allocator of 4 KiB frames.

use vstd::prelude::*;
use crate::bits::{bit, lowest_clear};

pub use self::reclaim::reclaim_bootloader_memory;
pub use self::trial::self_test;

pub mod order;
pub mod reclaim;
pub mod trial;

verus! {

pub const PAGE_SIZE: u64 = 4096;

/// Nothing below this address is handed out.
pub const MIN_ALLOC_ADDR: u64 = 0x10_0000;

/// Entries of a memory map past this many are ignored.
pub const MAX_REGIONS: usize = 128;

/// What a piece of the memory map holds.
#[derive(Clone, Copy, Debug, PartialEq, Eq, Structural)]
pub enum Kind {
    Usable,
    Reserved,
    AcpiReclaimable,
    AcpiNvs,
    BadMemory,
    BootloaderReclaimable,
    KernelAndModules,
    Framebuffer,
    Unknown,
}

impl Kind {
    pub open spec fn label(self) -> Seq<char> {
        match self {
            Kind::Usable => "Usable"@,
            Kind::Reserved => "Reserved"@,
            Kind::AcpiReclaimable => "ACPI reclaimable"@,
            Kind::AcpiNvs => "ACPI NVS"@,
            Kind::BadMemory => "Bad memory"@,
            Kind::BootloaderReclaimable => "Bootloader reclaimable"@,
            Kind::KernelAndModules => "Kernel and modules"@,
            Kind::Framebuffer => "Framebuffer"@,
            Kind::Unknown => "Unknown"@,
        }
    }

    pub fn name(self) -> (s: &'static str)
        ensures
            s@ == self.label(),
    {
        match self {
            Kind::Usable => "Usable",
            Kind::Reserved => "Reserved",
            Kind::AcpiReclaimable => "ACPI reclaimable",
            Kind::AcpiNvs => "ACPI NVS",
            Kind::BadMemory => "Bad memory",
            Kind::BootloaderReclaimable => "Bootloader reclaimable",
            Kind::KernelAndModules => "Kernel and modules",
            Kind::Framebuffer => "Framebuffer",
            Kind::Unknown => "Unknown",
        }
    }

    /// Whether memory of this kind belongs in the direct map.
    pub open spec fn is_mapped(self) -> bool {
        self == Kind::Usable || self == Kind::BootloaderReclaimable || self
            == Kind::KernelAndModules || self == Kind::AcpiReclaimable || self == Kind::AcpiNvs
    }
}

/// An entry of the memory map.
#[derive(Clone, Copy, Debug, PartialEq, Eq, Structural)]
pub struct Region {
    pub base: u64,
    pub len: u64,
    pub kind: Kind,
}

/// `v` rounded down to a multiple of the page size.
pub open spec fn page_down(v: int) -> int {
    v - v % 4096
}

/// `v` rounded up to a multiple of the page size.
pub open spec fn page_up(v: int) -> int {
    page_down(v + 4095)
}

pub fn align_down(v: u64) -> (r: u64)
    ensures
        r == page_down(v as int),
        r <= v,
        r % 4096 == 0,
{
    v - v % PAGE_SIZE
}

pub fn align_up(v: u64) -> (r: u64)
    requires
        v + 4095 <= u64::MAX,
    ensures
        r == page_up(v as int),
        v <= r <= v + 4095,
        r % 4096 == 0,
{
    align_down(v + (PAGE_SIZE - 1))
}

impl Region {
    /// Whether the end of the region can be rounded up to a page.
    pub open spec fn wf(self) -> bool {
        self.base + self.len + 4095 <= u64::MAX
    }

    /// The first frame of the region that may be handed out.
    pub open spec fn first_frame(self) -> int {
        page_up(
            if self.base < MIN_ALLOC_ADDR {
                MIN_ALLOC_ADDR as int
            } else {
                self.base as int
            },
        ) / 4096
    }

    /// The first frame past the whole frames of the region.
    pub open spec fn end_frame(self) -> int {
        (self.base + self.len) / 4096
    }

    /// Whether the region holds a frame that may be handed out.
    pub open spec fn has_frame(self, f: int) -> bool {
        self.first_frame() <= f < self.end_frame()
    }

    pub open spec fn frame_count(self) -> int {
        if self.first_frame() < self.end_frame() {
            self.end_frame() - self.first_frame()
        } else {
            0
        }
    }

    /// The whole frames of the region that may be handed out: the first of them
    /// and their number.
    pub fn frames(&self) -> (r: (u64, u64))
        requires
            self.wf(),
        ensures
            r.0 == self.first_frame(),
            r.1 == self.frame_count(),
    {
        let base: u64 = if self.base < MIN_ALLOC_ADDR {
            MIN_ALLOC_ADDR
        } else {
            self.base
        };
        let start: u64 = align_up(base);
        let end: u64 = align_down(self.base + self.len);
        if end > start {
            (start / PAGE_SIZE, (end - start) / PAGE_SIZE)
        } else {
            (start / PAGE_SIZE, 0)
        }
    }
}

/// Whether a frame is marked used.
pub open spec fn is_used(bitmap: Seq<u64>, f: int) -> bool {
    bit(bitmap[f / 64], f % 64)
}

/// The number of free frames below `n`.
pub open spec fn free_below(bitmap: Seq<u64>, n: int) -> int
    decreases n,
{
    if n <= 0 {
        0
    } else {
        free_below(bitmap, n - 1) + if is_used(bitmap, n - 1) {
            0int
        } else {
            1
        }
    }
}

/// What setting or clearing a bit does to the bits of a word.
proof fn lemma_one_bit(w: u64, b: u64, j: u64)
    requires
        b < 64,
        j < 64,
    ensures
        bit(w | (1u64 << b), j as int) == (j == b || bit(w, j as int)),
        bit(w & !(1u64 << b), j as int) == (j != b && bit(w, j as int)),
        (w & (1u64 << b) != 0) == bit(w, b as int),
        bit(0xffff_ffff_ffff_ffffu64, j as int),
        !bit(0u64, j as int),
{
    assert(((w | (1u64 << b)) >> j) & 1 == 1 <==> (j == b || (w >> j) & 1 == 1)) by (bit_vector)
        requires
            b < 64,
            j < 64,
    ;
    assert(((w & !(1u64 << b)) >> j) & 1 == 1 <==> (j != b && (w >> j) & 1 == 1)) by (bit_vector)
        requires
            b < 64,
            j < 64,
    ;
    assert(w & (1u64 << b) != 0 <==> (w >> b) & 1 == 1) by (bit_vector)
        requires
            b < 64,
    ;
    assert((0xffff_ffff_ffff_ffffu64 >> j) & 1 == 1 && (0u64 >> j) & 1 == 0) by (bit_vector)
        requires
            j < 64,
    ;
}

/// `after` is `before` with the frames in `[first, end)` marked.
pub open spec fn is_filled(
    before: Seq<u64>,
    after: Seq<u64>,
    first: int,
    end: int,
    used: bool,
) -> bool {
    &&& after.len() == before.len()
    &&& forall|f: int|
        0 <= f < before.len() * 64 ==> #[trigger] is_used(after, f) == if first <= f < end {
            used
        } else {
            is_used(before, f)
        }
}

pub fn test_bit(bitmap: &Vec<u64>, i: usize) -> (r: bool)
    requires
        i < bitmap@.len() * 64,
    ensures
        r == is_used(bitmap@, i as int),
{
    proof {
        lemma_one_bit(bitmap@[i as int / 64], (i % 64) as u64, 0);
    }
    bitmap[i / 64] & (1u64 << (i % 64) as u64) != 0
}

pub fn set_bit(bitmap: &mut Vec<u64>, i: usize, used: bool)
    requires
        i < old(bitmap)@.len() * 64,
    ensures
        is_filled(old(bitmap)@, final(bitmap)@, i as int, i + 1, used),
{
    let word: u64 = bitmap[i / 64];
    let b: u64 = (i % 64) as u64;
    bitmap[i / 64] = if used {
        word | (1u64 << b)
    } else {
        word & !(1u64 << b)
    };
    assert forall|f: int| 0 <= f < old(bitmap)@.len() * 64 implies #[trigger] is_used(bitmap@, f)
        == if i <= f < i + 1 {
        used
    } else {
        is_used(old(bitmap)@, f)
    } by {
        lemma_one_bit(word, b, (f % 64) as u64);
    }
}

pub fn fill_range(bitmap: &mut Vec<u64>, first: usize, count: usize, used: bool)
    requires
        first + count <= old(bitmap)@.len() * 64,
        first + count <= usize::MAX,
    ensures
        is_filled(old(bitmap)@, final(bitmap)@, first as int, first + count, used),
{
    let end: usize = first + count;
    let mut at: usize = first;
    while at < end && at % 64 != 0
        invariant
            first <= at <= end,
            end == first + count,
            end <= bitmap@.len() * 64,
            is_filled(old(bitmap)@, bitmap@, first as int, at as int, used),
        decreases end - at,
    {
        set_bit(bitmap, at, used);
        at += 1;
    }
    while end - at >= 64
        invariant
            first <= at <= end,
            at == end || at % 64 == 0,
            end == first + count,
            end <= bitmap@.len() * 64,
            is_filled(old(bitmap)@, bitmap@, first as int, at as int, used),
        decreases end - at,
    {
        let ghost before = bitmap@;
        bitmap[at / 64] = if used {
            0xffff_ffff_ffff_ffffu64
        } else {
            0
        };
        assert forall|f: int| 0 <= f < old(bitmap)@.len() * 64 implies #[trigger] is_used(bitmap@, f)
            == if first <= f < at + 64 {
            used
        } else {
            is_used(old(bitmap)@, f)
        } by {
            assert(is_used(before, f) == if first <= f < at {
                used
            } else {
                is_used(old(bitmap)@, f)
            });
            lemma_one_bit(0, 0, (f % 64) as u64);
            if f / 64 == at as int / 64 {
                assert(at <= f < at + 64);
            }
        }
        at += 64;
    }
    while at < end
        invariant
            first <= at <= end,
            end == first + count,
            end <= bitmap@.len() * 64,
            is_filled(old(bitmap)@, bitmap@, first as int, at as int, used),
        decreases end - at,
    {
        set_bit(bitmap, at, used);
        at += 1;
    }
}

/// The number of free frames after a run of frames changed hands.
pub proof fn lemma_fill_count(
    before: Seq<u64>,
    after: Seq<u64>,
    first: int,
    end: int,
    used: bool,
    n: int,
)
    requires
        is_filled(before, after, first, end, used),
        0 <= first <= end,
        0 <= n <= before.len() * 64,
        forall|f: int| first <= f < end && f < n ==> is_used(before, f) == !used,
    ensures
        free_below(after, n) == free_below(before, n) + (if n <= first {
            0
        } else if n < end {
            n - first
        } else {
            end - first
        }) * (if used {
            -1int
        } else {
            1
        }),
    decreases n,
{
    if n > 0 {
        lemma_fill_count(before, after, first, end, used, n - 1);
        assert(is_used(after, n - 1) == if first <= n - 1 < end {
            used
        } else {
            is_used(before, n - 1)
        });
    }
}

/// With a free frame there is a frame to find.
proof fn lemma_some_free(bitmap: Seq<u64>, n: int) -> (f: int)
    requires
        free_below(bitmap, n) > 0,
    ensures
        0 <= f < n,
        !is_used(bitmap, f),
    decreases n,
{
    if is_used(bitmap, n - 1) {
        lemma_some_free(bitmap, n - 1)
    } else {
        n - 1
    }
}

pub proof fn lemma_free_bound(bitmap: Seq<u64>, n: int)
    requires
        0 <= n,
    ensures
        0 <= free_below(bitmap, n) <= n,
    decreases n,
{
    if n > 0 {
        lemma_free_bound(bitmap, n - 1);
    }
}

#[derive(Clone, Copy, Debug, PartialEq, Eq, Structural)]
pub enum FreeError {
    NotInitialized,
    Unaligned,
    OutOfRange,
    NotAllocated,
}

impl FreeError {
    pub open spec fn text(self) -> Seq<char> {
        match self {
            FreeError::NotInitialized => "PMM not initialized"@,
            FreeError::Unaligned => "address not page aligned"@,
            FreeError::OutOfRange => "address outside managed memory"@,
            FreeError::NotAllocated => "frame is not allocated (double free?)"@,
        }
    }

    pub fn as_str(&self) -> (s: &'static str)
        ensures
            s@ == self.text(),
    {
        match self {
            FreeError::NotInitialized => "PMM not initialized",
            FreeError::Unaligned => "address not page aligned",
            FreeError::OutOfRange => "address outside managed memory",
            FreeError::NotAllocated => "frame is not allocated (double free?)",
        }
    }
}

/// The frame allocator: one bit per frame, set where the frame is in use.
pub struct Pmm {
    pub bitmap: Vec<u64>,
    pub total_frames: usize,
    pub free_frames: usize,
    pub usable_frames: usize,
    pub next_hint: usize,
    pub regions: Vec<Region>,
}

/// The first word from `hint` on, going round, that has a clear bit.
pub open spec fn find_word(bitmap: Seq<u64>, hint: int, n: int) -> Option<int>
    decreases bitmap.len() - n,
{
    if n >= bitmap.len() {
        None
    } else {
        let w = (hint + n) % (bitmap.len() as int);
        if bitmap[w] != 0xffff_ffff_ffff_ffff {
            Some(w)
        } else {
            find_word(bitmap, hint, n + 1)
        }
    }
}

/// Whether the frames `[first, first + count)` are free.
pub open spec fn is_free_run(bitmap: Seq<u64>, first: int, count: int) -> bool {
    forall|f: int| first <= f < first + count ==> !is_used(bitmap, f)
}

impl Pmm {
    /// The count of free frames is right, and no frame past the end of memory is
    /// free.
    pub open spec fn wf(self) -> bool {
        &&& self.total_frames > 0
        &&& self.total_frames + 63 <= usize::MAX
        &&& self.total_frames * 4096 <= u64::MAX
        &&& self.bitmap@.len() == (self.total_frames + 63) / 64
        &&& self.next_hint < self.bitmap@.len()
        &&& self.free_frames == free_below(self.bitmap@, self.total_frames as int)
        &&& forall|f: int|
            self.total_frames <= f < self.bitmap@.len() * 64 ==> is_used(self.bitmap@, f)
        &&& forall|i: int| 0 <= i < self.regions@.len() ==> (#[trigger] self.regions@[i]).wf()
    }

    /// Whether the frame at a physical address is handed out, or never was to be.
    pub open spec fn is_taken(self, phys: int) -> bool {
        is_used(self.bitmap@, phys / 4096)
    }

    /// What stays the same while frames change hands.
    pub open spec fn same_memory(self, before: Pmm) -> bool {
        &&& self.total_frames == before.total_frames
        &&& self.usable_frames == before.usable_frames
        &&& self.regions == before.regions
    }

    /// Whether handing out the frame at `phys` leads to `after`: the frame was
    /// free, and is the one that the search finds first.
    pub open spec fn gave_one(self, after: Pmm, phys: u64) -> bool {
        let f = phys as int / 4096;
        &&& phys % 4096 == 0
        &&& f < self.total_frames
        &&& !is_used(self.bitmap@, f)
        &&& is_filled(self.bitmap@, after.bitmap@, f, f + 1, true)
        &&& find_word(self.bitmap@, self.next_hint as int, 0) == Some(f / 64)
        &&& forall|g: int| f / 64 * 64 <= g < f ==> is_used(self.bitmap@, g)
        &&& after.free_frames == self.free_frames - 1
        &&& after.next_hint == f / 64
        &&& after.same_memory(self)
    }

    /// Whether handing out the run of `count` frames at `phys` leads to `after`:
    /// the frames were free, and no lower run was.
    pub open spec fn gave_run(self, after: Pmm, phys: u64, count: usize) -> bool {
        let first = phys as int / 4096;
        &&& count > 0
        &&& phys % 4096 == 0
        &&& first + count <= self.total_frames
        &&& is_free_run(self.bitmap@, first, count as int)
        &&& forall|s: int| 0 <= s < first ==> !is_free_run(self.bitmap@, s, count as int)
        &&& is_filled(self.bitmap@, after.bitmap@, first, first + count, true)
        &&& after.free_frames == self.free_frames - count
        &&& after.next_hint == self.next_hint
        &&& after.same_memory(self)
    }

    /// Whether no run of `count` frames is free.
    pub open spec fn has_no_run(self, count: usize) -> bool {
        count == 0 || forall|s: int|
            0 <= s && s + count <= self.total_frames ==> !is_free_run(
                self.bitmap@,
                s,
                count as int,
            )
    }

    /// Whether taking back `count` frames at `phys` leads to `after`.
    pub open spec fn took_back(self, after: Pmm, phys: u64, count: usize) -> bool {
        let first = phys as int / 4096;
        if self.free_result(phys, count) is Err || count == 0 {
            after == self
        } else {
            &&& is_filled(self.bitmap@, after.bitmap@, first, first + count, false)
            &&& after.free_frames == self.free_frames + count
            &&& after.next_hint == if first / 64 < self.next_hint {
                first / 64
            } else {
                self.next_hint as int
            }
            &&& after.same_memory(self)
        }
    }

    /// Hand out one frame: the lowest free one of the first word with a free
    /// frame, from the last place of success on.
    pub fn alloc_one(&mut self) -> (r: Option<u64>)
        requires
            old(self).wf(),
        ensures
            final(self).wf(),
            final(self).same_memory(*old(self)),
            r is Some <==> old(self).free_frames > 0,
            r is None ==> *final(self) == *old(self),
            r matches Some(phys) ==> old(self).gave_one(*final(self), phys),
    {
        if self.free_frames == 0 {
            return None;
        }
        let words: usize = self.bitmap.len();
        let mut n: usize = 0;
        while n < words
            invariant
                *self == *old(self),
                self.wf(),
                self.free_frames > 0,
                words == self.bitmap@.len(),
                n <= words,
                find_word(self.bitmap@, self.next_hint as int, n as int) == find_word(
                    self.bitmap@,
                    self.next_hint as int,
                    0,
                ),
                forall|k: int|
                    #![trigger self.bitmap@[(self.next_hint + k) % (words as int)]]
                    0 <= k < n ==> self.bitmap@[(self.next_hint + k) % (words as int)]
                        == 0xffff_ffff_ffff_ffff,
            decreases words - n,
        {
            let w: usize = (self.next_hint + n) % words;
            let word: u64 = self.bitmap[w];
            if word != 0xffff_ffff_ffff_ffff {
                let b: usize = lowest_clear(word);
                let frame: usize = w * 64 + b;
                assert(frame as int / 64 == w && frame as int % 64 == b);
                assert(!is_used(self.bitmap@, frame as int));
                assert(frame < self.total_frames);
                assert forall|g: int| w * 64 <= g < frame implies is_used(self.bitmap@, g) by {
                    assert(bit(word, g % 64));
                }
                set_bit(&mut self.bitmap, frame, true);
                proof {
                    lemma_fill_count(
                        old(self).bitmap@,
                        self.bitmap@,
                        frame as int,
                        frame + 1,
                        true,
                        self.total_frames as int,
                    );
                }
                self.free_frames -= 1;
                self.next_hint = w;
                return Some(frame as u64 * PAGE_SIZE);
            }
            n += 1;
        }
        proof {
            // A free frame lies in some word, and every word was looked at.
            let f = lemma_some_free(self.bitmap@, self.total_frames as int);
            let w = f / 64;
            let h = self.next_hint as int;
            let m = words as int;
            let k = if w >= h {
                w - h
            } else {
                w - h + m
            };
            assert((h + k) % m == w) by {
                if w >= h {
                    vstd::arithmetic::div_mod::lemma_small_mod(w as nat, m as nat);
                } else {
                    vstd::arithmetic::div_mod::lemma_mod_add_multiples_vanish(w, m);
                    vstd::arithmetic::div_mod::lemma_small_mod(w as nat, m as nat);
                    assert(h + k == m + w);
                }
            }
            assert(self.bitmap@[(h + k) % m] == 0xffff_ffff_ffff_ffff);
            lemma_one_bit(0, 0, (f % 64) as u64);
            assert(false);
        }
        None
    }

    /// Hand out the lowest run of `count` free frames.
    pub fn alloc_run(&mut self, count: usize) -> (r: Option<u64>)
        requires
            old(self).wf(),
        ensures
            final(self).wf(),
            final(self).same_memory(*old(self)),
            r is None <==> old(self).has_no_run(count),
            r is None ==> *final(self) == *old(self),
            r matches Some(phys) ==> old(self).gave_run(*final(self), phys, count),
    {
        proof {
            assert forall|s: int|
                count > self.free_frames && 0 <= s && s + count
                    <= self.total_frames implies !is_free_run(self.bitmap@, s, count as int) by {
                if is_free_run(self.bitmap@, s, count as int) {
                    lemma_run_counts(self.bitmap@, s, count as int, self.total_frames as int);
                }
            }
        }
        if count == 0 || count > self.free_frames {
            return None;
        }
        let mut run: usize = 0;
        let mut start: usize = 0;
        let mut frame: usize = 0;
        while frame < self.total_frames
            invariant
                *self == *old(self),
                self.wf(),
                0 < count <= self.free_frames,
                frame < self.total_frames + 64,
                run < count,
                run <= frame,
                run > 0 ==> start == frame - run,
                forall|f: int| frame - run <= f < frame ==> !is_used(self.bitmap@, f),
                forall|s: int|
                    0 <= s < frame - run ==> !is_free_run(self.bitmap@, s, count as int),
            decreases self.total_frames + 64 - frame,
        {
            if frame % 64 == 0 && self.bitmap[frame / 64] == 0xffff_ffff_ffff_ffff {
                assert forall|s: int| 0 <= s < frame + 64 implies !is_free_run(
                    self.bitmap@,
                    s,
                    count as int,
                ) by {
                    if s >= frame - run {
                        let f = if s < frame {
                            frame as int
                        } else {
                            s
                        };
                        lemma_one_bit(0, 0, (f % 64) as u64);
                        assert(f / 64 == frame as int / 64);
                        assert(is_used(self.bitmap@, f));
                        assert(s <= f < s + count);
                    }
                }
                run = 0;
                frame += 64;
                continue ;
            }
            if test_bit(&self.bitmap, frame) {
                assert forall|s: int| 0 <= s < frame + 1 implies !is_free_run(
                    self.bitmap@,
                    s,
                    count as int,
                ) by {
                    if s >= frame - run {
                        assert(is_used(self.bitmap@, frame as int));
                        assert(s <= frame < s + count);
                    }
                }
                run = 0;
            } else {
                if run == 0 {
                    start = frame;
                }
                run += 1;
                if run == count {
                    proof {
                        lemma_used_is_free_run(self.bitmap@, start as int, count as int);
                    }
                    fill_range(&mut self.bitmap, start, count, true);
                    proof {
                        lemma_fill_count(
                            old(self).bitmap@,
                            self.bitmap@,
                            start as int,
                            start + count,
                            true,
                            self.total_frames as int,
                        );
                    }
                    self.free_frames -= count;
                    assert(is_free_run(old(self).bitmap@, start as int, count as int));
                    return Some(start as u64 * PAGE_SIZE);
                }
            }
            frame += 1;
        }
        assert forall|s: int|
            0 <= s && s + count <= self.total_frames implies !is_free_run(
            self.bitmap@,
            s,
            count as int,
        ) by {
            assert(s < frame - run);
        }
        None
    }

    /// Take back a run of frames that are all handed out.
    pub fn free(&mut self, phys: u64, count: usize) -> (r: Result<(), FreeError>)
        requires
            old(self).wf(),
        ensures
            final(self).wf(),
            final(self).same_memory(*old(self)),
            r == old(self).free_result(phys, count),
            old(self).took_back(*final(self), phys, count),
    {
        if count == 0 {
            return Ok(());
        }
        if phys % PAGE_SIZE != 0 {
            return Err(FreeError::Unaligned);
        }
        let frame: u64 = phys / PAGE_SIZE;
        if frame >= self.total_frames as u64 || count > self.total_frames - frame as usize {
            return Err(FreeError::OutOfRange);
        }
        let first: usize = frame as usize;
        let mut f: usize = first;
        while f < first + count
            invariant
                *self == *old(self),
                self.wf(),
                count > 0,
                phys % 4096 == 0,
                first == phys as int / 4096,
                first + count <= self.total_frames,
                first <= f <= first + count,
                forall|g: int| first <= g < f ==> is_used(self.bitmap@, g),
            decreases first + count - f,
        {
            if !test_bit(&self.bitmap, f) {
                return Err(FreeError::NotAllocated);
            }
            f += 1;
        }
        fill_range(&mut self.bitmap, first, count, false);
        proof {
            lemma_fill_count(
                old(self).bitmap@,
                self.bitmap@,
                first as int,
                first + count,
                false,
                self.total_frames as int,
            );
            lemma_free_bound(self.bitmap@, self.total_frames as int);
        }
        self.free_frames += count;
        if first / 64 < self.next_hint {
            self.next_hint = first / 64;
        }
        Ok(())
    }

    /// What taking back a run of frames comes to.
    pub open spec fn free_result(self, phys: u64, count: usize) -> Result<(), FreeError> {
        let first = phys as int / 4096;
        if count == 0 {
            Ok(())
        } else if phys % 4096 != 0 {
            Err(FreeError::Unaligned)
        } else if first + count > self.total_frames {
            Err(FreeError::OutOfRange)
        } else if forall|f: int| first <= f < first + count ==> is_used(self.bitmap@, f) {
            Ok(())
        } else {
            Err(FreeError::NotAllocated)
        }
    }
}

proof fn lemma_used_is_free_run(bitmap: Seq<u64>, first: int, count: int)
    requires
        is_free_run(bitmap, first, count),
    ensures
        forall|f: int| first <= f < first + count ==> is_used(bitmap, f) == !true,
{
}

/// A run of free frames is part of the free frames.
proof fn lemma_run_counts(bitmap: Seq<u64>, first: int, count: int, n: int)
    requires
        is_free_run(bitmap, first, count),
        0 <= first,
        0 <= count,
        first <= n,
    ensures
        free_below(bitmap, n) >= if n < first + count {
            n - first
        } else {
            count
        },
    decreases n,
{
    lemma_free_bound(bitmap, n);
    if n > first {
        lemma_run_counts(bitmap, first, count, n - 1);
    }
}

/// Why there is no frame allocator.
#[derive(Clone, Copy, Debug, PartialEq, Eq, Structural)]
pub enum InitError {
    NoUsableMemory,
    NoRoomForBitmap,
}

/// The highest end of memory that can ever be handed out, among the first `n`
/// entries of a memory map.
pub open spec fn highest_end(map: Seq<Region>, n: int) -> int
    decreases n,
{
    if n <= 0 {
        0
    } else {
        let r = map[n - 1];
        let end = r.base + r.len;
        let rest = highest_end(map, n - 1);
        if (r.kind == Kind::Usable || r.kind == Kind::BootloaderReclaimable) && end > rest {
            end
        } else {
            rest
        }
    }
}

/// Whether a frame is one of those that one of the first `n` entries of a
/// memory map offers.
pub open spec fn is_offered(map: Seq<Region>, n: int, f: int) -> bool {
    exists|i: int|
        0 <= i < n && #[trigger] map[i].kind == Kind::Usable && map[i].has_frame(f)
}

/// The number of frames that the first `n` entries of a memory map offer.
pub open spec fn offered(map: Seq<Region>, n: int) -> int
    decreases n,
{
    if n <= 0 {
        0
    } else {
        offered(map, n - 1) + if map[n - 1].kind == Kind::Usable {
            map[n - 1].frame_count()
        } else {
            0
        }
    }
}

/// The first entry with room for `frames` frames.
pub open spec fn first_room(map: Seq<Region>, i: int, frames: int) -> Option<int>
    decreases map.len() - i,
{
    if i >= map.len() {
        None
    } else if map[i].kind == Kind::Usable && map[i].frame_count() > 0 && map[i].frame_count()
        >= frames {
        Some(i)
    } else {
        first_room(map, i + 1, frames)
    }
}

/// Whether a memory map can be believed: its entries end within the address
/// space, and no frame is offered by two of them.
pub open spec fn is_sane(map: Seq<Region>) -> bool {
    &&& forall|i: int| 0 <= i < map.len() ==> (#[trigger] map[i]).wf()
    &&& forall|i: int, j: int, f: int|
        #![trigger map[i].has_frame(f), map[j].has_frame(f)]
        0 <= i < j < map.len() && map[i].kind == Kind::Usable && map[j].kind == Kind::Usable
            ==> !(map[i].has_frame(f) && map[j].has_frame(f))
}

/// Whether a memory map can be believed.
pub fn check_map(map: &[Region]) -> (r: bool)
    ensures
        r == is_sane(map@),
{
    let mut i: usize = 0;
    while i < map.len()
        invariant
            i <= map@.len(),
            forall|k: int| 0 <= k < i ==> (#[trigger] map@[k]).wf(),
            forall|k: int, j: int, f: int|
                #![trigger map@[k].has_frame(f), map@[j].has_frame(f)]
                0 <= k < j < i && map@[k].kind == Kind::Usable && map@[j].kind == Kind::Usable
                    ==> !(map@[k].has_frame(f) && map@[j].has_frame(f)),
        decreases map@.len() - i,
    {
        let r: Region = map[i];
        let fits: bool = match r.base.checked_add(r.len) {
            Some(end) => end <= 0xffff_ffff_ffff_ffff - 4095,
            None => false,
        };
        if !fits {
            assert(!map@[i as int].wf());
            return false;
        }
        if r.kind == Kind::Usable {
            let (first, count) = r.frames();
            let mut j: usize = 0;
            while j < i
                invariant
                    j <= i < map@.len(),
                    r == map@[i as int],
                    r.wf(),
                    r.kind == Kind::Usable,
                    first == r.first_frame(),
                    count == r.frame_count(),
                    forall|k: int| 0 <= k < i ==> (#[trigger] map@[k]).wf(),
                    forall|k: int, f: int|
                        #![trigger map@[k].has_frame(f)]
                        0 <= k < j && map@[k].kind == Kind::Usable ==> !(map@[k].has_frame(f)
                            && r.has_frame(f)),
                decreases i - j,
            {
                let o: Region = map[j];
                if o.kind == Kind::Usable {
                    let (ofirst, ocount) = o.frames();
                    if count > 0 && ocount > 0 && first < ofirst + ocount && ofirst < first
                        + count {
                        proof {
                            let f = if first > ofirst {
                                first as int
                            } else {
                                ofirst as int
                            };
                            assert(map@[j as int].has_frame(f) && map@[i as int].has_frame(f));
                        }
                        return false;
                    }
                }
                j += 1;
            }
        }
        i += 1;
    }
    true
}

impl Pmm {
    /// The memory that the bitmap of the allocator itself takes: in the first
    /// entry with room, at its start.
    pub open spec fn bitmap_frames(total_frames: int) -> int {
        page_up((total_frames + 63) / 64 * 8) / 4096
    }

    /// Set up the allocator for a memory map: every frame that the map offers is
    /// free, but for those of the bitmap itself.
    pub fn init(map: &[Region]) -> (r: Result<Pmm, InitError>)
        requires
            is_sane(map@),
            highest_end(map@, map@.len() as int) / 4096 + 4096 <= usize::MAX,
        ensures
            ({
                let n = if map@.len() > 128 {
                    128
                } else {
                    map@.len() as int
                };
                let m = map@.take(n);
                let total = highest_end(m, n) / 4096;
                let room = first_room(m, 0, Pmm::bitmap_frames(total));
                match r {
                    Err(InitError::NoUsableMemory) => highest_end(m, n) == 0,
                    Err(InitError::NoRoomForBitmap) => highest_end(m, n) != 0 && room is None,
                    Ok(pmm) => {
                        &&& highest_end(m, n) != 0
                        &&& room is Some
                        &&& pmm.wf()
                        &&& pmm.total_frames == total
                        &&& pmm.regions@ == m
                        &&& pmm.next_hint == 0
                        &&& pmm.usable_frames == pmm.free_frames
                        &&& pmm.free_frames == offered(m, n) - Pmm::bitmap_frames(total)
                        &&& forall|f: int|
                            0 <= f < total ==> #[trigger] is_used(pmm.bitmap@, f) == (!is_offered(
                                m,
                                n,
                                f,
                            ) || m[room->0].first_frame() <= f < m[room->0].first_frame()
                                + Pmm::bitmap_frames(total))
                    },
                }
            }),
    {
        let (regions, highest) = keep_regions(map);
        if highest == 0 {
            return Err(InitError::NoUsableMemory);
        }
        let total_frames: usize = (highest / PAGE_SIZE) as usize;
        let words: usize = (total_frames + 63) / 64;
        let bitmap_frames: u64 = align_up(words as u64 * 8) / PAGE_SIZE;
        let bitmap_first: u64 = match find_room(&regions, bitmap_frames) {
            Some(f) => f,
            None => {
                return Err(InitError::NoRoomForBitmap);
            },
        };
        let (mut bitmap, offered_frames) = offer_frames(&regions, total_frames);
        let ghost before = bitmap@;
        proof {
            lemma_room_is_offered(regions@, bitmap_frames as int, before, total_frames as int);
        }
        fill_range(&mut bitmap, bitmap_first as usize, bitmap_frames as usize, true);
        proof {
            lemma_fill_count(
                before,
                bitmap@,
                bitmap_first as int,
                bitmap_first + bitmap_frames,
                true,
                total_frames as int,
            );
            lemma_free_bound(bitmap@, total_frames as int);
        }
        let free_frames: usize = offered_frames - bitmap_frames as usize;
        Ok(
            Pmm {
                bitmap,
                total_frames,
                free_frames,
                usable_frames: free_frames,
                next_hint: 0,
                regions,
            },
        )
    }
}

/// As many entries of a memory map as are kept, and the end of the highest one with
/// memory in it.
fn keep_regions(map: &[Region]) -> (r: (Vec<Region>, u64))
    requires
        is_sane(map@),
    ensures
        ({
            let n = if map@.len() > 128 {
                128
            } else {
                map@.len() as int
            };
            &&& r.0@ == map@.take(n)
            &&& r.1 == highest_end(r.0@, n)
            &&& r.1 <= highest_end(map@, map@.len() as int)
            &&& is_sane(r.0@)
        }),
{
    let n: usize = if map.len() > MAX_REGIONS {
        MAX_REGIONS
    } else {
        map.len()
    };
    let mut regions: Vec<Region> = Vec::new();
    let mut highest: u64 = 0;
    let mut i: usize = 0;
    while i < n
        invariant
            i <= n <= map@.len(),
            is_sane(map@),
            regions@ == map@.take(i as int),
            highest == highest_end(map@, i as int),
        decreases n - i,
    {
        let r: Region = map[i];
        assert(map@[i as int].wf());
        if (r.kind == Kind::Usable || r.kind == Kind::BootloaderReclaimable) && r.base + r.len
            > highest {
            highest = r.base + r.len;
        }
        regions.push(r);
        i += 1;
        assert(regions@ =~= map@.take(i as int));
    }
    proof {
        lemma_highest_take(map@, regions@, n as int);
        lemma_highest_mono(map@, n as int, map@.len() as int);
        lemma_sane_take(map@, n as int);
    }
    (regions, highest)
}

proof fn lemma_sane_take(map: Seq<Region>, n: int)
    requires
        is_sane(map),
        0 <= n <= map.len(),
    ensures
        is_sane(map.take(n)),
{
    let m = map.take(n);
    assert forall|i: int| 0 <= i < m.len() implies (#[trigger] m[i]).wf() by {
        assert(map[i].wf());
    }
    assert forall|i: int, j: int, f: int|
        #![trigger m[i].has_frame(f), m[j].has_frame(f)]
        0 <= i < j < m.len() && m[i].kind == Kind::Usable && m[j].kind == Kind::Usable implies !(
    m[i].has_frame(f) && m[j].has_frame(f)) by {
        assert(!(map[i].has_frame(f) && map[j].has_frame(f)));
    }
}

/// The first frame of the first entry with room for the bitmap.
fn find_room(regions: &Vec<Region>, bitmap_frames: u64) -> (r: Option<u64>)
    requires
        is_sane(regions@),
    ensures
        match first_room(regions@, 0, bitmap_frames as int) {
            None => r is None,
            Some(k) => 0 <= k < regions@.len() && r == Some(regions@[k].first_frame() as u64)
                && regions@[k].first_frame() <= u64::MAX,
        },
{
    let mut at: usize = 0;
    while at < regions.len()
        invariant
            at <= regions@.len(),
            is_sane(regions@),
            first_room(regions@, 0, bitmap_frames as int) == first_room(
                regions@,
                at as int,
                bitmap_frames as int,
            ),
        decreases regions@.len() - at,
    {
        assert(regions@[at as int].wf());
        let (first, count) = regions[at].frames();
        if regions[at].kind == Kind::Usable && count > 0 && count >= bitmap_frames {
            return Some(first);
        }
        at += 1;
    }
    None
}

/// The bitmap in which the frames that a memory map offers are free and all others
/// are taken, and how many are free.
fn offer_frames(regions: &Vec<Region>, total_frames: usize) -> (r: (Vec<u64>, usize))
    requires
        is_sane(regions@),
        total_frames == highest_end(regions@, regions@.len() as int) / 4096,
        total_frames + 4096 <= usize::MAX,
    ensures
        r.0@.len() == (total_frames + 63) / 64,
        r.1 == offered(regions@, regions@.len() as int),
        r.1 == free_below(r.0@, total_frames as int),
        forall|f: int|
            0 <= f < r.0@.len() * 64 ==> #[trigger] is_used(r.0@, f) == !is_offered(
                regions@,
                regions@.len() as int,
                f,
            ),
        forall|f: int| total_frames <= f < r.0@.len() * 64 ==> #[trigger] is_used(r.0@, f),
{
    let words: usize = (total_frames + 63) / 64;
    let ghost total = total_frames as int;
    let ghost m = regions@;
    let n: usize = regions.len();
    let mut bitmap: Vec<u64> = vec![0xffff_ffff_ffff_ffffu64; words];
    proof {
        assert forall|f: int| 0 <= f < words * 64 implies is_used(bitmap@, f) by {
            lemma_one_bit(0, 0, (f % 64) as u64);
        }
        lemma_all_used(bitmap@, total);
    }
    let mut free_frames: usize = 0;
    let mut j: usize = 0;
    while j < n
        invariant
            j <= n,
            n == m.len(),
            m == regions@,
            is_sane(m),
            total == total_frames,
            words == (total + 63) / 64,
            bitmap@.len() == words,
            total_frames + 4096 <= usize::MAX,
            total == highest_end(m, n as int) / 4096,
            free_frames == offered(m, j as int),
            free_frames == free_below(bitmap@, total),
            forall|f: int|
                0 <= f < words * 64 ==> #[trigger] is_used(bitmap@, f) == !is_offered(
                    m,
                    j as int,
                    f,
                ),
            forall|f: int| total <= f < words * 64 ==> #[trigger] is_used(bitmap@, f),
        decreases n - j,
    {
        assert(m[j as int].wf());
        let (first, count) = regions[j].frames();
        let ghost before = bitmap@;
        proof {
            lemma_highest_bounds(m, n as int, j as int);
            lemma_free_bound(bitmap@, total);
            lemma_offered_step(m, j as int);
        }
        if regions[j].kind == Kind::Usable && count > 0 {
            assert(first + count == m[j as int].end_frame());
            assert(first + count <= total);
            proof {
                lemma_not_offered_before(m, j as int);
            }
            fill_range(&mut bitmap, first as usize, count as usize, false);
            proof {
                lemma_fill_count(before, bitmap@, first as int, first + count, false, total);
                lemma_free_bound(bitmap@, total);
            }
            free_frames += count as usize;
        }
        j += 1;
    }
    (bitmap, free_frames)
}

/// One more entry offers its own frames, if it offers any.
proof fn lemma_offered_step(m: Seq<Region>, j: int)
    requires
        0 <= j < m.len(),
    ensures
        forall|f: int| #[trigger]
            is_offered(m, j + 1, f) == (is_offered(m, j, f) || (m[j].kind == Kind::Usable
                && m[j].has_frame(f))),
{
    assert forall|f: int| #[trigger]
        is_offered(m, j + 1, f) == (is_offered(m, j, f) || (m[j].kind == Kind::Usable
            && m[j].has_frame(f))) by {
        if is_offered(m, j, f) {
            let k = choose|k: int|
                0 <= k < j && #[trigger] m[k].kind == Kind::Usable && m[k].has_frame(f);
            assert(m[k].kind == Kind::Usable);
        }
        if m[j].kind == Kind::Usable && m[j].has_frame(f) {
            assert(m[j].kind == Kind::Usable);
        }
    }
}

/// What an entry offers, none before it does.
proof fn lemma_not_offered_before(m: Seq<Region>, j: int)
    requires
        is_sane(m),
        0 <= j < m.len(),
        m[j].kind == Kind::Usable,
    ensures
        forall|f: int| m[j].has_frame(f) ==> !#[trigger] is_offered(m, j, f),
{
    assert forall|f: int| m[j].has_frame(f) implies !#[trigger] is_offered(m, j, f) by {
        if is_offered(m, j, f) {
            let k = choose|k: int|
                0 <= k < j && #[trigger] m[k].kind == Kind::Usable && m[k].has_frame(f);
            assert(m[k].has_frame(f) && m[j].has_frame(f));
        }
    }
}

proof fn lemma_first_room(m: Seq<Region>, i: int, frames: int)
    requires
        0 <= i,
    ensures
        first_room(m, i, frames) matches Some(k) ==> i <= k < m.len() && m[k].kind == Kind::Usable
            && m[k].frame_count() > 0 && m[k].frame_count() >= frames,
    decreases m.len() - i,
{
    if i < m.len() {
        lemma_first_room(m, i + 1, frames);
    }
}

/// The frames that the bitmap takes are free before it takes them.
proof fn lemma_room_is_offered(m: Seq<Region>, frames: int, bitmap: Seq<u64>, total: int)
    requires
        is_sane(m),
        first_room(m, 0, frames) is Some,
        total == highest_end(m, m.len() as int) / 4096,
        bitmap.len() == (total + 63) / 64,
        forall|f: int|
            0 <= f < bitmap.len() * 64 ==> #[trigger] is_used(bitmap, f) == !is_offered(
                m,
                m.len() as int,
                f,
            ),
    ensures
        ({
            let first = m[first_room(m, 0, frames)->0].first_frame();
            &&& 0 <= first
            &&& first + frames <= total
            &&& forall|f: int| first <= f < first + frames ==> !#[trigger] is_used(bitmap, f)
        }),
{
    lemma_first_room(m, 0, frames);
    let k = first_room(m, 0, frames)->0;
    let n = m.len() as int;
    lemma_highest_bounds(m, n, k);
    assert(m[k].wf());
    let first = m[k].first_frame();
    assert(first + m[k].frame_count() == m[k].end_frame());
    assert forall|f: int| first <= f < first + frames implies !#[trigger] is_used(bitmap, f) by {
        assert(m[k].kind == Kind::Usable && m[k].has_frame(f));
        assert(is_offered(m, n, f));
    }
}

proof fn lemma_highest_take(map: Seq<Region>, m: Seq<Region>, n: int)
    requires
        0 <= n <= map.len(),
        m == map.take(n),
    ensures
        forall|k: int| 0 <= k <= n ==> highest_end(m, k) == #[trigger] highest_end(map, k),
{
    assert forall|k: int| 0 <= k <= n implies highest_end(m, k) == #[trigger] highest_end(map, k) by {
        lemma_highest_take_at(map, m, n, k);
    }
}

proof fn lemma_highest_take_at(map: Seq<Region>, m: Seq<Region>, n: int, k: int)
    requires
        0 <= k <= n <= map.len(),
        m == map.take(n),
    ensures
        highest_end(m, k) == highest_end(map, k),
    decreases k,
{
    if k > 0 {
        lemma_highest_take_at(map, m, n, k - 1);
    }
}

proof fn lemma_highest_mono(map: Seq<Region>, a: int, b: int)
    requires
        0 <= a <= b,
    ensures
        highest_end(map, a) <= highest_end(map, b),
    decreases b,
{
    if a < b {
        lemma_highest_mono(map, a, b - 1);
    }
}

proof fn lemma_highest_bounds(map: Seq<Region>, n: int, k: int)
    requires
        0 <= k < n,
    ensures
        map[k].kind == Kind::Usable || map[k].kind == Kind::BootloaderReclaimable ==> map[k].base
            + map[k].len <= highest_end(map, n),
    decreases n,
{
    if k < n - 1 {
        lemma_highest_bounds(map, n - 1, k);
    }
}

proof fn lemma_all_used(bitmap: Seq<u64>, n: int)
    requires
        forall|f: int| 0 <= f < n ==> is_used(bitmap, f),
    ensures
        free_below(bitmap, n) == 0,
    decreases n,
{
    if n > 0 {
        lemma_all_used(bitmap, n - 1);
    }
}

/// Physical memory as the kernel sees it: where it is mapped, who has which
/// frame, and what it holds.
pub struct PhysicalMemory {
    /// Where the direct map of physical memory starts.
    pub hhdm: u64,
    pub pmm: Option<Pmm>,
    pub bytes: Vec<u8>,
}

impl PhysicalMemory {
    pub open spec fn wf(self) -> bool {
        self.pmm matches Some(p) ==> p.wf() && self.bytes@.len() == p.total_frames * 4096
    }

    /// What handing out and taking back frames does not change.
    pub open spec fn same_bytes(self, before: PhysicalMemory) -> bool {
        self.hhdm == before.hhdm && self.bytes == before.bytes
    }
}

pub fn hhdm_offset(mem: &PhysicalMemory) -> (r: u64)
    ensures
        r == mem.hhdm,
{
    mem.hhdm
}

/// The address at which the direct map shows a physical address.
pub fn phys_to_virt(mem: &PhysicalMemory, phys: u64) -> (r: u64)
    requires
        phys + mem.hhdm <= u64::MAX,
    ensures
        r == phys + mem.hhdm,
{
    phys + hhdm_offset(mem)
}

/// Whether every byte that was in use is what it was.
pub open spec fn keeps_used(before: PhysicalMemory, after: PhysicalMemory) -> bool {
    &&& after.bytes@.len() == before.bytes@.len()
    &&& forall|x: int|
        0 <= x < before.bytes@.len() && is_used(before.pmm->0.bitmap@, x / 4096)
            ==> #[trigger] after.bytes@[x] == before.bytes@[x]
}

pub fn alloc_frame(mem: &mut PhysicalMemory) -> (r: Option<u64>)
    requires
        old(mem).wf(),
    ensures
        final(mem).wf(),
        final(mem).same_bytes(*old(mem)),
        r is Some <==> (old(mem).pmm matches Some(p) && p.free_frames > 0),
        r is None ==> final(mem).pmm == old(mem).pmm,
        r matches Some(phys) ==> final(mem).pmm is Some && old(mem).pmm->0.gave_one(
            final(mem).pmm->0,
            phys,
        ),
{
    match &mut mem.pmm {
        Some(pmm) => pmm.alloc_one(),
        None => None,
    }
}

/// Hand out a frame and fill it with zeros.
pub fn alloc_frame_zeroed(mem: &mut PhysicalMemory) -> (r: Option<u64>)
    requires
        old(mem).wf(),
    ensures
        final(mem).wf(),
        final(mem).hhdm == old(mem).hhdm,
        r is Some <==> (old(mem).pmm matches Some(p) && p.free_frames > 0),
        r is None ==> *final(mem) == *old(mem),
        r matches Some(phys) ==> {
            &&& final(mem).pmm is Some
            &&& old(mem).pmm->0.gave_one(final(mem).pmm->0, phys)
            &&& final(mem).bytes@ == Seq::new(
                old(mem).bytes@.len(),
                |i: int|
                    if phys <= i < phys + 4096 {
                        0u8
                    } else {
                        old(mem).bytes@[i]
                    },
            )
        },
{
    let phys: u64 = alloc_frame(mem)?;
    let ghost p = mem.pmm->0;
    let ghost before = mem.bytes@;
    assert(phys + 4096 <= mem.bytes@.len()) by {
        assert(phys as int / 4096 < p.total_frames);
    }
    let size: usize = mem.bytes.len();
    let start: usize = phys as usize;
    let mut i: usize = 0;
    while i < 4096
        invariant
            i <= 4096,
            start == phys,
            size == mem.bytes@.len(),
            start + 4096 <= mem.bytes@.len(),
            mem.bytes@.len() == before.len(),
            mem.hhdm == old(mem).hhdm,
            mem.pmm == Some(p),
            forall|k: int|
                0 <= k < before.len() ==> #[trigger] mem.bytes@[k] == if start <= k < start + i {
                    0u8
                } else {
                    before[k]
                },
        decreases 4096 - i,
    {
        let at: usize = start + i;
        mem.bytes[at] = 0;
        i += 1;
    }
    assert(mem.bytes@ =~= Seq::new(
        before.len(),
        |i: int|
            if phys <= i < phys + 4096 {
                0u8
            } else {
                before[i]
            },
    ));
    Some(phys)
}

/// Hand out `count` frames in a row.
pub fn alloc_contiguous(mem: &mut PhysicalMemory, count: usize) -> (r: Option<u64>)
    requires
        old(mem).wf(),
    ensures
        final(mem).wf(),
        final(mem).same_bytes(*old(mem)),
        r is None ==> final(mem).pmm == old(mem).pmm && (old(mem).pmm matches Some(p)
            ==> p.has_no_run(count)),
        r matches Some(phys) ==> {
            &&& old(mem).pmm is Some
            &&& final(mem).pmm is Some
            &&& if count == 1 {
                old(mem).pmm->0.gave_one(final(mem).pmm->0, phys)
            } else {
                old(mem).pmm->0.gave_run(final(mem).pmm->0, phys, count)
            }
        },
{
    match &mut mem.pmm {
        Some(pmm) => if count == 1 {
            proof {
                if pmm.free_frames == 0 {
                    assert forall|s: int|
                        0 <= s && s + count <= pmm.total_frames implies !is_free_run(
                        pmm.bitmap@,
                        s,
                        count as int,
                    ) by {
                        if is_free_run(pmm.bitmap@, s, 1) {
                            lemma_run_counts(pmm.bitmap@, s, 1, pmm.total_frames as int);
                        }
                    }
                }
            }
            pmm.alloc_one()
        } else {
            pmm.alloc_run(count)
        },
        None => None,
    }
}

pub fn free_frame(mem: &mut PhysicalMemory, phys: u64) -> (r: Result<(), FreeError>)
    requires
        old(mem).wf(),
    ensures
        final(mem).wf(),
        final(mem).same_bytes(*old(mem)),
        r == free_outcome(*old(mem), phys, 1),
        final(mem).pmm is Some == old(mem).pmm is Some,
        old(mem).pmm matches Some(p) ==> p.took_back(final(mem).pmm->0, phys, 1),
{
    free_frames(mem, phys, 1)
}

/// What taking back frames comes to.
pub open spec fn free_outcome(mem: PhysicalMemory, phys: u64, count: usize) -> Result<
    (),
    FreeError,
> {
    match mem.pmm {
        Some(p) => p.free_result(phys, count),
        None => Err(FreeError::NotInitialized),
    }
}

/// Take back frames. What cannot be taken back is left alone, and the caller
/// is told why.
pub fn free_frames(mem: &mut PhysicalMemory, phys: u64, count: usize) -> (r: Result<(), FreeError>)
    requires
        old(mem).wf(),
    ensures
        final(mem).wf(),
        final(mem).same_bytes(*old(mem)),
        r == free_outcome(*old(mem), phys, count),
        final(mem).pmm is Some == old(mem).pmm is Some,
        old(mem).pmm matches Some(p) ==> p.took_back(final(mem).pmm->0, phys, count),
{
    match &mut mem.pmm {
        Some(pmm) => pmm.free(phys, count),
        None => Err(FreeError::NotInitialized),
    }
}

pub fn free_frame_count(mem: &PhysicalMemory) -> (r: usize)
    ensures
        r == match mem.pmm {
            Some(p) => p.free_frames as int,
            None => 0,
        },
{
    match &mem.pmm {
        Some(p) => p.free_frames,
        None => 0,
    }
}

pub fn usable_frame_count(mem: &PhysicalMemory) -> (r: usize)
    ensures
        r == match mem.pmm {
            Some(p) => p.usable_frames as int,
            None => 0,
        },
{
    match &mem.pmm {
        Some(p) => p.usable_frames,
        None => 0,
    }
}

/// The end of the memory that the allocator manages.
pub fn phys_top(mem: &PhysicalMemory) -> (r: u64)
    requires
        mem.wf(),
    ensures
        r == match mem.pmm {
            Some(p) => p.total_frames * 4096,
            None => 0,
        },
{
    match &mem.pmm {
        Some(p) => p.total_frames as u64 * PAGE_SIZE,
        None => 0,
    }
}

/// The pages of a region that belong in the direct map, if any.
pub open spec fn mapped_range(r: Region) -> Option<(u64, u64)> {
    let start = page_down(r.base as int);
    let end = page_up(r.base + r.len);
    if r.kind.is_mapped() && end > start {
        Some((start as u64, end as u64))
    } else {
        None
    }
}

/// The pages of the first `n` regions that belong in the direct map.
pub open spec fn mapped_ranges(regions: Seq<Region>, n: int) -> Seq<(u64, u64)>
    decreases n,
{
    if n <= 0 {
        Seq::empty()
    } else {
        match mapped_range(regions[n - 1]) {
            Some(range) => mapped_ranges(regions, n - 1).push(range),
            None => mapped_ranges(regions, n - 1),
        }
    }
}

/// Physical ranges (page-aligned, `[start, end)`) that belong in the
/// higher-half direct map: RAM, the kernel image/modules, and ACPI tables.
/// Holes, MMIO, reserved and bad memory are left out, and so is the
/// framebuffer.
pub fn hhdm_ranges(mem: &PhysicalMemory) -> (r: Vec<(u64, u64)>)
    requires
        mem.wf(),
    ensures
        r@ == match mem.pmm {
            Some(p) => mapped_ranges(p.regions@, p.regions@.len() as int),
            None => Seq::empty(),
        },
{
    let mut out: Vec<(u64, u64)> = Vec::new();
    match &mem.pmm {
        Some(pmm) => {
            let mut i: usize = 0;
            while i < pmm.regions.len()
                invariant
                    i <= pmm.regions@.len(),
                    pmm.wf(),
                    out@ == mapped_ranges(pmm.regions@, i as int),
                decreases pmm.regions@.len() - i,
            {
                let r: Region = pmm.regions[i];
                assert(pmm.regions@[i as int].wf());
                match r.kind {
                    Kind::Usable
                    | Kind::BootloaderReclaimable
                    | Kind::KernelAndModules
                    | Kind::AcpiReclaimable
                    | Kind::AcpiNvs => {
                        let start: u64 = align_down(r.base);
                        let end: u64 = align_up(r.base + r.len);
                        if end > start {
                            out.push((start, end));
                        }
                    },
                    _ => {},
                }
                i += 1;
            }
        },
        None => {},
    }
    out
}

/// A frame that is handed out is nobody else's: no two frames handed out one
/// after the other are the same.
pub proof fn law_frames_are_exclusive(a: Pmm, b: Pmm, c: Pmm, p: u64, q: u64)
    requires
        a.wf(),
        b.wf(),
        a.gave_one(b, p),
        b.gave_one(c, q),
    ensures
        p != q,
        c.free_frames == a.free_frames - 2,
{
    assert(is_used(b.bitmap@, p as int / 4096));
}

/// Handing a frame out and taking it back leaves every frame as it was.
pub proof fn law_free_undoes_alloc(a: Pmm, b: Pmm, c: Pmm, p: u64)
    requires
        a.wf(),
        b.wf(),
        a.gave_one(b, p),
        b.took_back(c, p, 1),
    ensures
        b.free_result(p, 1) is Ok,
        c.free_frames == a.free_frames,
        forall|f: int| 0 <= f < a.total_frames ==> is_used(c.bitmap@, f) == is_used(a.bitmap@, f),
{
    let g = p as int / 4096;
    assert(is_used(b.bitmap@, g));
    assert forall|f: int| 0 <= f < a.total_frames implies is_used(c.bitmap@, f) == is_used(
        a.bitmap@,
        f,
    ) by {
        assert(is_used(b.bitmap@, f) == if g <= f < g + 1 {
            true
        } else {
            is_used(a.bitmap@, f)
        });
    }
}

/// The same for a run of frames.
pub proof fn law_free_undoes_run(a: Pmm, b: Pmm, c: Pmm, p: u64, count: usize)
    requires
        a.wf(),
        b.wf(),
        a.gave_run(b, p, count),
        b.took_back(c, p, count),
    ensures
        b.free_result(p, count) is Ok,
        c.free_frames == a.free_frames,
        forall|f: int| 0 <= f < a.total_frames ==> is_used(c.bitmap@, f) == is_used(a.bitmap@, f),
{
    let g = p as int / 4096;
    assert forall|f: int| g <= f < g + count implies is_used(b.bitmap@, f) by {
        assert(0 <= f < a.bitmap@.len() * 64);
    }
    assert forall|f: int| 0 <= f < a.total_frames implies is_used(c.bitmap@, f) == is_used(
        a.bitmap@,
        f,
    ) by {
        assert(is_used(b.bitmap@, f) == if g <= f < g + count {
            true
        } else {
            is_used(a.bitmap@, f)
        });
    }
}

/// A frame that was taken back cannot be taken back again.
pub proof fn law_double_free_is_refused(a: Pmm, b: Pmm, p: u64, count: usize)
    requires
        a.wf(),
        b.wf(),
        count > 0,
        a.free_result(p, count) is Ok,
        a.took_back(b, p, count),
    ensures
        b.free_result(p, count) == Err::<(), FreeError>(FreeError::NotAllocated),
{
    let first = p as int / 4096;
    assert(!is_used(b.bitmap@, first));
}

/// Rounding to pages: down to the highest multiple of 4096 that is not above, and up to the
/// lowest that is not below.
pub proof fn law_page_rounding(v: int)
    ensures
        page_down(v) % 4096 == 0,
        page_down(v) <= v < page_down(v) + 4096,
        page_up(v) % 4096 == 0,
        page_up(v) - 4096 < v <= page_up(v),
{
}

/// The frames of a region are those that lie in it whole and not in the first megabyte.
pub proof fn law_frames_of_a_region(r: Region, f: int)
    requires
        r.wf(),
    ensures
        r.has_frame(f) <==> r.base <= 4096 * f && 4096 * (f + 1) <= r.base + r.len && 4096 * f
            >= 0x10_0000,
{
}

/// The memory that is managed ends where the last region of it does.
pub proof fn law_managed_memory_ends(map: Seq<Region>, n: int, i: int)
    requires
        0 <= n <= map.len(),
    ensures
        0 <= i < n && (map[i].kind == Kind::Usable || map[i].kind == Kind::BootloaderReclaimable)
            ==> map[i].base + map[i].len <= highest_end(map, n),
        highest_end(map, n) == 0 || exists|k: int|
            0 <= k < n && ((#[trigger] map[k]).kind == Kind::Usable || map[k].kind
                == Kind::BootloaderReclaimable) && highest_end(map, n) == map[k].base + map[k].len,
        highest_end(map, n) >= 0,
    decreases n,
{
    if n > 0 {
        law_managed_memory_ends(map, n - 1, i);
        assert(map[n - 1] == map[n - 1]);
        if highest_end(map, n) == highest_end(map, n - 1) && highest_end(map, n) != 0 {
            let k = choose|k: int|
                0 <= k < n - 1 && ((#[trigger] map[k]).kind == Kind::Usable || map[k].kind
                    == Kind::BootloaderReclaimable) && highest_end(map, n - 1) == map[k].base
                    + map[k].len;
            assert(0 <= k < n);
        }
    }
}

/// The direct map has each page that memory touches: that which is usable, or will be, or
/// holds the kernel or tables of the firmware. Of what is reserved or broken it has none.
pub proof fn law_direct_map_has_memory(map: Seq<Region>, n: int, i: int)
    requires
        0 <= i < n <= map.len(),
        map[i].wf(),
        map[i].len > 0,
    ensures
        ({
            let r = map[i];
            let has = exists|k: int|
                0 <= k < mapped_ranges(map, n).len() && {
                    let range = #[trigger] mapped_ranges(map, n)[k];
                    range.0 <= r.base && r.base + r.len <= range.1 && range.0 % 4096 == 0 && range.1
                        % 4096 == 0 && r.base - range.0 < 4096 && range.1 - (r.base + r.len) < 4096
                };
            r.kind is Usable || r.kind is BootloaderReclaimable || r.kind is KernelAndModules
                || r.kind is AcpiReclaimable || r.kind is AcpiNvs ==> has
        }),
        map[i].kind is Reserved || map[i].kind is BadMemory || map[i].kind is Framebuffer
            || map[i].kind is Unknown ==> mapped_range(map[i]) is None,
    decreases n,
{
    let m = mapped_ranges(map, n);
    if map[i].kind.is_mapped() {
        if i == n - 1 {
            assert(m[m.len() - 1] == mapped_range(map[i])->0);
        } else {
            law_direct_map_has_memory(map, n - 1, i);
            let q = mapped_ranges(map, n - 1);
            let r = map[i];
            let k = choose|k: int|
                0 <= k < q.len() && {
                    let range = #[trigger] q[k];
                    range.0 <= r.base && r.base + r.len <= range.1 && range.0 % 4096 == 0 && range.1
                        % 4096 == 0 && r.base - range.0 < 4096 && range.1 - (r.base + r.len) < 4096
                };
            assert(m[k] == q[k]);
        }
    }
}

/// The frames that the bitmap is kept in are in the first usable region with room for them.
pub proof fn law_first_room(map: Seq<Region>, i: int, frames: int)
    requires
        0 <= i <= map.len(),
    ensures
        match first_room(map, i, frames) {
            Some(k) => i <= k < map.len() && map[k].kind is Usable && map[k].frame_count() >= frames
                && map[k].frame_count() > 0 && forall|j: int|
                i <= j < k ==> !((#[trigger] map[j]).kind is Usable) || map[j].frame_count() < frames
                    || map[j].frame_count() <= 0,
            None => forall|j: int|
                i <= j < map.len() ==> !((#[trigger] map[j]).kind is Usable) || map[j].frame_count()
                    < frames || map[j].frame_count() <= 0,
        },
    decreases map.len() - i,
{
    if i < map.len() {
        law_first_room(map, i + 1, frames);
    }
}

} // verus!
