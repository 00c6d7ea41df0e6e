//! Trying the loader out on executables made for that.

use vstd::prelude::*;
use super::program::{lemma_fresh_needs, lemma_refused, lemma_room};
use crate::bytes::{
    copy_into, le16, le32, le64, lemma_le64_round_trip, lemma_le_round_trip, u16_to_le, u32_to_le,
    u64_to_le,
};
use crate::elf::install::{is_loaded, is_mixed, load_fault, touched_pages};
use crate::elf::loader::{byte_of, is_page_writable, is_touched};
use crate::elf::{
    is_code, load, parsed, segment_at, segments_from, some_overlap, type_at, ElfError, Segment,
    LOAD_MAX,
};
use crate::pmm::{free_below, free_frame_count, is_used, page_down, PhysicalMemory};
use crate::vmm::inside::{
    is_as_before, is_else_kept, lemma_freed_kept, lemma_inside_fresh, lemma_kept_twice,
    stays_inside,
};
use crate::vmm::ledger::{law_all_frames_come_back, lemma_owns_created};
use crate::vmm::space::{
    create_address_space, free_user_half, law_fresh_space_shares_kernel_half, AddressSpace,
    USER_END,
};
use crate::vmm::tables::{reach, tables_for};
use crate::vmm::{is_kernel_space, is_space, walked, MapError, Vmm};

verus! {

pub const TEST_CODE_VIRT: u64 = 0x0040_0000;

pub const TEST_MEMSZ: u64 = 8192;

/// The segment that a test image describes.
pub open spec fn test_segment(vaddr: u64, filesz: u64, memsz: u64, flags: u32) -> Segment {
    Segment { vaddr, offset: 120, filesz, memsz, flags }
}

/// Whether bytes are a minimal ELF64 image: a header, one program header, and
/// four bytes of segment data. What has no meaning to the loader is zero.
pub open spec fn is_test_elf(
    b: Seq<u8>,
    entry: u64,
    vaddr: u64,
    filesz: u64,
    memsz: u64,
    flags: u32,
) -> bool {
    &&& b.len() == 124
    &&& b[0] == 0x7f && b[1] == 0x45 && b[2] == 0x4c && b[3] == 0x46
    &&& b[4] == 2 && b[5] == 1 && b[6] == 1
    &&& le16(b, 16) == 2
    &&& le16(b, 18) == 62
    &&& le32(b, 20) == 1
    &&& le64(b, 24) == entry
    &&& le64(b, 32) == 64
    &&& le16(b, 52) == 64
    &&& le16(b, 54) == 56
    &&& le16(b, 56) == 1
    &&& le32(b, 64) == 1
    &&& le32(b, 68) == flags
    &&& le64(b, 72) == 120
    &&& le64(b, 80) == vaddr
    &&& le64(b, 88) == vaddr
    &&& le64(b, 96) == filesz
    &&& le64(b, 104) == memsz
    &&& le64(b, 112) == 4096
    &&& b[120] == 0xde && b[121] == 0xad && b[122] == 0xbe && b[123] == 0xef
    &&& forall|i: int| 7 <= i < 16 || 40 <= i < 52 || 58 <= i < 64 ==> #[trigger] b[i] == 0
}

/// Whether bytes are a test image that the loader accepts.
pub open spec fn is_good_image(b: Seq<u8>) -> bool {
    is_test_elf(b, TEST_CODE_VIRT, TEST_CODE_VIRT, 4, TEST_MEMSZ, 5)
}

fn put16(b: &mut Vec<u8>, at: usize, v: u16)
    requires
        at + 2 <= old(b)@.len(),
    ensures
        final(b)@.len() == old(b)@.len(),
        le16(final(b)@, at as int) == v,
        forall|i: int|
            0 <= i < old(b)@.len() && !(at <= i < at + 2) ==> #[trigger] final(b)@[i] == old(b)@[i],
{
    let d: [u8; 2] = u16_to_le(v);
    proof {
        lemma_le_round_trip(v, 0);
    }
    copy_into(b, at, d.as_slice());
    assert(b@[at as int] == d@[0] && b@[at + 1] == d@[1]);
}

fn put32(b: &mut Vec<u8>, at: usize, v: u32)
    requires
        at + 4 <= old(b)@.len(),
    ensures
        final(b)@.len() == old(b)@.len(),
        le32(final(b)@, at as int) == v,
        forall|i: int|
            0 <= i < old(b)@.len() && !(at <= i < at + 4) ==> #[trigger] final(b)@[i] == old(b)@[i],
{
    let d: [u8; 4] = u32_to_le(v);
    proof {
        lemma_le_round_trip(0, v);
    }
    copy_into(b, at, d.as_slice());
    assert(b@[at as int] == d@[0] && b@[at + 1] == d@[1] && b@[at + 2] == d@[2] && b@[at + 3]
        == d@[3]);
}

fn put64(b: &mut Vec<u8>, at: usize, v: u64)
    requires
        at + 8 <= old(b)@.len(),
    ensures
        final(b)@.len() == old(b)@.len(),
        le64(final(b)@, at as int) == v,
        forall|i: int|
            0 <= i < old(b)@.len() && !(at <= i < at + 8) ==> #[trigger] final(b)@[i] == old(b)@[i],
{
    let d: [u8; 8] = u64_to_le(v);
    proof {
        lemma_le64_round_trip(v);
    }
    copy_into(b, at, d.as_slice());
    assert(b@[at as int] == d@[0] && b@[at + 1] == d@[1] && b@[at + 2] == d@[2] && b@[at + 3]
        == d@[3] && b@[at + 4] == d@[4] && b@[at + 5] == d@[5] && b@[at + 6] == d@[6] && b@[at + 7]
        == d@[7]);
}

/// Make an image with knobs for the fields that the loader must validate.
pub fn make_test_elf(entry: u64, vaddr: u64, filesz: u64, memsz: u64, flags: u32) -> (b: Vec<u8>)
    ensures
        is_test_elf(b@, entry, vaddr, filesz, memsz, flags),
{
    let mut b: Vec<u8> = vec![0u8; 124];
    b.set(0, 0x7f);
    b.set(1, 0x45);
    b.set(2, 0x4c);
    b.set(3, 0x46);
    b.set(4, 2);
    b.set(5, 1);
    b.set(6, 1);
    put16(&mut b, 16, 2);
    put16(&mut b, 18, 62);
    put32(&mut b, 20, 1);
    put64(&mut b, 24, entry);
    put64(&mut b, 32, 64);
    put16(&mut b, 52, 64);
    put16(&mut b, 54, 56);
    put16(&mut b, 56, 1);
    put32(&mut b, 64, 1);
    put32(&mut b, 68, flags);
    put64(&mut b, 72, 120);
    put64(&mut b, 80, vaddr);
    put64(&mut b, 88, vaddr);
    put64(&mut b, 96, filesz);
    put64(&mut b, 104, memsz);
    put64(&mut b, 112, 4096);
    b.set(120, 0xde);
    b.set(121, 0xad);
    b.set(122, 0xbe);
    b.set(123, 0xef);
    b
}

/// What a test image comes to.
pub proof fn lemma_test_elf(
    b: Seq<u8>,
    entry: u64,
    vaddr: u64,
    filesz: u64,
    memsz: u64,
    flags: u32,
)
    requires
        is_test_elf(b, entry, vaddr, filesz, memsz, flags),
        memsz > 0,
        memsz <= 0x10000,
    ensures
        ({
            let s = test_segment(vaddr, filesz, memsz, flags);
            parsed(b) == match s.fault(124) {
                Some(e) => Err::<(u64, Seq<Segment>), ElfError>(e),
                None => if s.is_executable() && s.holds(entry as int) {
                    Ok((entry, seq![s]))
                } else {
                    Err(ElfError::BadEntry)
                },
            }
        }),
{
    let s = test_segment(vaddr, filesz, memsz, flags);
    assert(segment_at(b, 0) == s);
    assert(type_at(b, 0) == 1);
    let one = Seq::empty().push(s);
    assert(one =~= seq![s]);
    reveal_with_fuel(segments_from, 2);
    assert(s.pages() <= 18);
    assert(s.fault(124) is None ==> segments_from(b, 0, Seq::empty(), 0) == Ok::<
        Seq<Segment>,
        ElfError,
    >(one));
    assert(!some_overlap(one));
    assert(one[0] == s);
    assert(is_code(one, entry as int) == (s.is_executable() && s.holds(entry as int)));
}

/// Where the frames in use are the same, as many are free.
proof fn lemma_same_free(a: Seq<u64>, b: Seq<u64>, n: int)
    requires
        forall|f: int| 0 <= f < n ==> is_used(a, f) == is_used(b, f),
    ensures
        free_below(a, n) == free_below(b, n),
    decreases n,
{
    if n > 0 {
        lemma_same_free(a, b, n - 1);
    }
}

/// What trying the loader out came to.
#[derive(Clone, Copy, Debug)]
pub enum LoaderTrial {
    /// So many bad images were refused and a good one was mapped as it should be.
    Passed(usize),
    /// There was no memory for an address space.
    NoMemory,
    /// A bad image was not refused as it should be.
    Wrong { case: usize, got: Result<u64, ElfError> },
    /// The good image was refused, or with another entry point.
    GoodRefused(Result<u64, ElfError>),
    NotMapped,
    MappedOutside,
    WrongContents,
    /// Frames were not returned.
    Leaked { before: usize, after: usize },
}

/// Load an image into a scratch address space and drop that, with whatever got
/// mapped.
fn try_load(mem: &mut PhysicalMemory, vmm: &Option<Vmm>, image: &[u8]) -> (r: Result<
    Option<Result<u64, ElfError>>,
    MapError,
>)
    requires
        is_kernel_space(*old(mem), *vmm),
        old(mem).wf(),
    ensures
        (vmm is None || old(mem).pmm->0.free_frames == 0) ==> (r matches Ok(None)) && *final(mem)
            == *old(mem),
        !(vmm is None || old(mem).pmm->0.free_frames == 0) && parsed(image@) is Err ==> {
            &&& r == Ok::<Option<Result<u64, ElfError>>, MapError>(
                Some(Err(parsed(image@)->Err_0)),
            )
            &&& is_as_before(*old(mem), *final(mem))
            &&& is_else_kept(*old(mem), *final(mem), *vmm)
        },
{
    let ghost m0 = *mem;
    let aspace: AddressSpace = match create_address_space(mem, vmm) {
        Some(aspace) => aspace,
        None => {
            return Ok(None);
        },
    };
    let ghost m1 = *mem;
    let ghost root = aspace.pml4_phys;
    let ghost kernel = vmm->0.pml4_phys;
    let result: Result<u64, ElfError> = load(mem, image, &aspace)?;
    let ghost m2 = *mem;
    proof {
        if parsed(image@) is Ok {
            if load_fault(parsed(image@)->Ok_0.1, m1.pmm->0.free_frames as int) is None {
                reveal(is_loaded);
            } else {
                super::program::lemma_still_space(m1, m2, root);
            }
        }
    }
    free_user_half(mem, aspace);
    proof {
        if parsed(image@) is Err {
            lemma_refused(m0, m1, m2, *mem, kernel, root);
            lemma_freed_kept(m0, m2, *mem, kernel);
        }
    }
    Ok(Some(result))
}

/// Try one image that is to be refused.
fn check_case(
    mem: &mut PhysicalMemory,
    vmm: &Option<Vmm>,
    image: &[u8],
    expected: ElfError,
    case: usize,
) -> (r: Result<Option<LoaderTrial>, MapError>)
    requires
        is_kernel_space(*old(mem), *vmm),
        old(mem).wf(),
        parsed(image@) == Err::<(u64, Seq<Segment>), ElfError>(expected),
    ensures
        r matches Ok(t) && (t matches Some(fault) ==> fault is NoMemory && (vmm is None || old(
            mem,
        ).pmm->0.free_frames == 0)),
        r matches Ok(None) ==> {
            &&& vmm is Some
            &&& old(mem).pmm->0.free_frames > 0
            &&& final(mem).pmm is Some
            &&& old(mem).pmm is Some
            &&& final(mem).pmm->0.free_frames == old(mem).pmm->0.free_frames
            &&& is_as_before(*old(mem), *final(mem))
        },
        !(r matches Ok(None)) ==> *final(mem) == *old(mem),
        is_else_kept(*old(mem), *final(mem), *vmm),
{
    let ghost m0 = *mem;
    match try_load(mem, vmm, image)? {
        None => Ok(Some(LoaderTrial::NoMemory)),
        Some(result) => {
            proof {
                lemma_same_free(
                    m0.pmm->0.bitmap@,
                    mem.pmm->0.bitmap@,
                    m0.pmm->0.total_frames as int,
                );
            }
            match result {
                Err(e) => if e == expected {
                    Ok(None)
                } else {
                    Ok(Some(LoaderTrial::Wrong { case, got: result }))
                },
                Ok(_) => Ok(Some(LoaderTrial::Wrong { case, got: result })),
            }
        },
    }
}

/// Whether a page is all zeros from an offset on.
fn is_zero_from(mem: &PhysicalMemory, p: u64, from: usize) -> (r: bool)
    requires
        p + 4096 <= mem.bytes@.len(),
        from <= 4096,
    ensures
        r == forall|i: int| from <= i < 4096 ==> #[trigger] mem.bytes@[p + i] == 0,
{
    let size: usize = mem.bytes.len();
    let a: usize = p as usize;
    let mut i: usize = from;
    while i < 4096
        invariant
            from <= i <= 4096,
            a == p,
            size == mem.bytes@.len(),
            a + 4096 <= size,
            forall|k: int| from <= k < i ==> #[trigger] mem.bytes@[p + k] == 0,
        decreases 4096 - i,
    {
        if mem.bytes[a + i] != 0 {
            assert(mem.bytes@[p + i as int] != 0);
            return false;
        }
        i += 1;
    }
    true
}

/// Whether the loaded test image holds its four bytes and zeros after them.
fn holds_test_data(mem: &PhysicalMemory, p0: u64, p1: u64) -> (r: bool)
    requires
        p0 + 4096 <= mem.bytes@.len(),
        p1 + 4096 <= mem.bytes@.len(),
    ensures
        r == (mem.bytes@[p0 as int] == 0xde && mem.bytes@[p0 + 1] == 0xad && mem.bytes@[p0 + 2]
            == 0xbe && mem.bytes@[p0 + 3] == 0xef && (forall|i: int|
            4 <= i < 4096 ==> #[trigger] mem.bytes@[p0 + i] == 0) && (forall|i: int|
            0 <= i < 4096 ==> #[trigger] mem.bytes@[p1 + i] == 0)),
{
    let size: usize = mem.bytes.len();
    let a: usize = p0 as usize;
    assert(a + 4096 <= size);
    mem.bytes[a] == 0xde && mem.bytes[a + 1] == 0xad && mem.bytes[a + 2] == 0xbe && mem.bytes[a + 3]
        == 0xef && is_zero_from(mem, p0, 4) && is_zero_from(mem, p1, 0)
}

/// What a loaded test image looks like.
#[verifier::spinoff_prover]
proof fn lemma_good(
    m1: PhysicalMemory,
    m2: PhysicalMemory,
    root: u64,
    kernel: u64,
    b: Seq<u8>,
    s: Seq<Segment>,
)
    requires
        is_test_elf(b, TEST_CODE_VIRT, TEST_CODE_VIRT, 4, TEST_MEMSZ, 5),
        s == seq![test_segment(TEST_CODE_VIRT, 4, TEST_MEMSZ, 5)],
        is_loaded(m1, m2, root, b, s),
        crate::vmm::space::is_fresh_root(m1.bytes@, root, kernel),
    ensures
        is_space(m2, root),
        walked(m2.bytes@, root, 0x40_2000) is None,
        walked(m2.bytes@, root, 0x3f_f000) is None,
        ({
            let p0 = walked(m2.bytes@, root, 0x40_0000);
            let p1 = walked(m2.bytes@, root, 0x40_1000);
            &&& p0 is Some
            &&& p1 is Some
            &&& p0->0 + 4096 <= m2.bytes@.len()
            &&& p1->0 + 4096 <= m2.bytes@.len()
            &&& m2.bytes@[p0->0 as int] == 0xde
            &&& m2.bytes@[p0->0 + 1] == 0xad
            &&& m2.bytes@[p0->0 + 2] == 0xbe
            &&& m2.bytes@[p0->0 + 3] == 0xef
            &&& forall|i: int| 4 <= i < 4096 ==> #[trigger] m2.bytes@[p0->0 + i] == 0
            &&& forall|i: int| 0 <= i < 4096 ==> #[trigger] m2.bytes@[p1->0 + i] == 0
        }),
{
    let seg = s[0];
    let w = m2.bytes@;
    assert(seg.touches(0x40_0000) && seg.touches(0x40_1000));
    assert(is_touched(s, 1, 0x40_0000));
    assert(is_touched(s, 1, 0x40_1000));
    assert(!seg.touches(0x40_2000) && !seg.touches(0x3f_f000));
    assert(!is_touched(s, 1, 0x40_2000));
    assert(!is_touched(s, 1, 0x3f_f000));
    law_fresh_space_shares_kernel_half(m1.bytes@, root, kernel, 0x40_2000);
    law_fresh_space_shares_kernel_half(m1.bytes@, root, kernel, 0x3f_f000);
    lemma_not_loaded(m1, m2, root, b, s, 0x40_2000);
    lemma_not_loaded(m1, m2, root, b, s, 0x3f_f000);
    lemma_loaded_page(m1, m2, root, b, s, 0x40_0000);
    lemma_loaded_page(m1, m2, root, b, s, 0x40_1000);
    let p0 = walked(w, root, 0x40_0000)->0;
    let p1 = walked(w, root, 0x40_1000)->0;
    reveal_with_fuel(byte_of, 2);
    assert(w[p0 + 0] == b[120]);
    assert(w[p0 + 1] == b[121]);
    assert(w[p0 + 2] == b[122]);
    assert(w[p0 + 3] == b[123]);
}

/// A page that is not touched stays as it was.
proof fn lemma_not_loaded(
    m1: PhysicalMemory,
    m2: PhysicalMemory,
    root: u64,
    b: Seq<u8>,
    s: Seq<Segment>,
    v: u64,
)
    requires
        is_loaded(m1, m2, root, b, s),
        v < USER_END,
        !is_touched(s, s.len() as int, page_down(v as int)),
    ensures
        is_space(m2, root),
        walked(m2.bytes@, root, v) == walked(m1.bytes@, root, v),
{
    reveal(is_loaded);
}

/// A page that is touched holds its bytes.
#[verifier::spinoff_prover]
proof fn lemma_loaded_page(
    m1: PhysicalMemory,
    m2: PhysicalMemory,
    root: u64,
    b: Seq<u8>,
    s: Seq<Segment>,
    va: u64,
)
    requires
        is_loaded(m1, m2, root, b, s),
        va % 4096 == 0,
        va + 4096 <= LOAD_MAX,
        is_touched(s, s.len() as int, va as int),
    ensures
        walked(m2.bytes@, root, va) matches Some(p) && p + 4096 <= m2.bytes@.len() && forall|i: int|
            0 <= i < 4096 ==> #[trigger] m2.bytes@[p + i] == byte_of(
                b,
                s,
                s.len() as int,
                va + i,
            ),
{
    reveal(is_loaded);
    let w = m2.bytes@;
    let n = s.len() as int;
    assert(page_down(va as int) == va);
    let p0 = walked(w, root, va)->0;
    assert(w.len() == m2.pmm->0.total_frames * 4096);
    assert(p0 % 4096 == 0);
    assert forall|i: int| 0 <= i < 4096 implies #[trigger] w[p0 + i] == byte_of(b, s, n, va + i) by {
        let v = (va + i) as u64;
        assert(page_down(v as int) == va);
        let p = walked(w, root, v)->0;
        assert(page_down(p as int) == page_down(p0 as int));
        assert(p == p0 + i);
    }
}

/// What the good test image takes: two pages and three tables, beside the frame of the
/// top-level table.
proof fn lemma_good_needs(s: Seq<Segment>, free: int)
    requires
        s == seq![test_segment(TEST_CODE_VIRT, 4, TEST_MEMSZ, 5)],
    ensures
        load_fault(s, free) == if free < 2 {
            Some(ElfError::NoMemory)
        } else {
            None
        },
        touched_pages(s).len() == 2,
        tables_for(touched_pages(s)) == 3,
{
    assert(!is_mixed(s)) by {
        assert forall|va: int| !is_page_writable(s, 1, va) by {
            assert(!s[0].is_writable());
        }
    }
    let t = touched_pages(s);
    assert forall|p: int| t.contains(p) == set![0x400int, 0x401].contains(p) by {
        assert(is_touched(s, 1, p * 4096) == s[0].touches(p * 4096)) by {
            if s[0].touches(p * 4096) {
                assert(is_touched(s, 1, p * 4096));
            }
        }
    }
    assert(t =~= set![0x400int, 0x401]);
    assert(t.contains(0x400));
    assert(t.map(|p: int| p * 4096 / reach(1)) =~= set![0int]);
    assert(t.map(|p: int| p * 4096 / reach(2)) =~= set![0int]);
    assert(t.map(|p: int| p * 4096 / reach(3)) =~= set![2int]);
}

/// What trying the good image comes to with so many frames free: none where all is well.
pub open spec fn good_outcome(free: int) -> Result<Option<LoaderTrial>, MapError> {
    if free == 0 {
        Ok(Some(LoaderTrial::NoMemory))
    } else if free < 3 {
        Ok(Some(LoaderTrial::GoodRefused(Err(ElfError::NoMemory))))
    } else if free < 6 {
        Err(MapError::OutOfMemory)
    } else {
        Ok(None)
    }
}

/// Try the good image.
fn check_good(mem: &mut PhysicalMemory, vmm: &Option<Vmm>, good: &Vec<u8>) -> (r: Result<
    Option<LoaderTrial>,
    MapError,
>)
    requires
        is_kernel_space(*old(mem), *vmm),
        old(mem).wf(),
        is_test_elf(good@, TEST_CODE_VIRT, TEST_CODE_VIRT, 4, TEST_MEMSZ, 5),
    ensures
        r == if vmm is None {
            Ok::<Option<LoaderTrial>, MapError>(Some(LoaderTrial::NoMemory))
        } else {
            good_outcome(old(mem).pmm->0.free_frames as int)
        },
        is_else_kept(*old(mem), *final(mem), *vmm),
        r matches Ok(None) ==> is_as_before(*old(mem), *final(mem))
            && final(mem).pmm->0.free_frames == old(mem).pmm->0.free_frames,
        r matches Ok(Some(LoaderTrial::NoMemory)) ==> *final(mem) == *old(mem),
{
    let ghost m0 = *mem;
    let ghost s = seq![test_segment(TEST_CODE_VIRT, 4, TEST_MEMSZ, 5)];
    proof {
        lemma_test_elf(good@, TEST_CODE_VIRT, TEST_CODE_VIRT, 4, TEST_MEMSZ, 5);
    }
    let aspace: AddressSpace = match create_address_space(mem, vmm) {
        Some(aspace) => aspace,
        None => {
            return Ok(Some(LoaderTrial::NoMemory));
        },
    };
    let ghost m1 = *mem;
    let ghost root = aspace.pml4_phys;
    let ghost kernel = vmm->0.pml4_phys;
    proof {
        lemma_good_needs(s, m1.pmm->0.free_frames as int);
        lemma_owns_created(m0, m1, root, kernel);
        lemma_room(m1.bytes@, root, kernel, s);
        crate::elf::lemma_parsed_fit(good@);
        lemma_fresh_needs(m1.bytes@, root, kernel, good@, s);
    }
    let loaded = load(mem, good.as_slice(), &aspace);
    proof {
        reveal(stays_inside);
        lemma_inside_fresh(m0, m1, *mem, root, kernel);
    }
    let result: Result<u64, ElfError> = loaded?;
    match result {
        Ok(start) => {
            if start != TEST_CODE_VIRT {
                return Ok(Some(LoaderTrial::GoodRefused(result)));
            }
        },
        Err(_) => {
            return Ok(Some(LoaderTrial::GoodRefused(result)));
        },
    }
    proof {
        lemma_good(m1, *mem, aspace.pml4_phys, vmm->0.pml4_phys, good@, s);
    }
    let p0: u64 = match aspace.translate(mem, TEST_CODE_VIRT) {
        Some(p) => p,
        None => {
            return Ok(Some(LoaderTrial::NotMapped));
        },
    };
    let p1: u64 = match aspace.translate(mem, TEST_CODE_VIRT + 4096) {
        Some(p) => p,
        None => {
            return Ok(Some(LoaderTrial::NotMapped));
        },
    };
    if aspace.translate(mem, TEST_CODE_VIRT + 8192).is_some() || aspace.translate(
        mem,
        TEST_CODE_VIRT - 4096,
    ).is_some() {
        return Ok(Some(LoaderTrial::MappedOutside));
    }
    if !holds_test_data(mem, p0, p1) {
        return Ok(Some(LoaderTrial::WrongContents));
    }
    let ghost m2 = *mem;
    free_user_half(mem, aspace);
    proof {
        law_all_frames_come_back(m0.pmm->0, m2, *mem, root);
        lemma_freed_kept(m0, m2, *mem, kernel);
    }
    Ok(None)
}

/// Whether bytes are the bad image of a case: a good one cut off in its header
/// or with a byte changed, or one with a field that the loader must not accept.
pub open spec fn is_bad_image(case: int, b: Seq<u8>) -> bool {
    let v = TEST_CODE_VIRT;
    let high = 0xffff_ffff_8000_0000u64;
    if case == 0 {
        exists|good: Seq<u8>| #[trigger] is_good_image(good) && b == good.take(32)
    } else if case == 1 {
        b.len() > 0 && b[0] == 0 && is_good_image(b.update(0, 0x7f))
    } else if case == 2 {
        b.len() > 4 && b[4] == 1 && is_good_image(b.update(4, 2))
    } else if case == 3 {
        b.len() > 18 && b[18] == 3 && is_good_image(b.update(18, 62))
    } else if case == 4 {
        is_test_elf(b, high, high, 4, TEST_MEMSZ, 5)
    } else if case == 5 {
        is_test_elf(b, 0x10, 0x10, 4, TEST_MEMSZ, 5)
    } else if case == 6 {
        is_test_elf(b, v, v, 8, 4, 5)
    } else if case == 7 {
        is_test_elf(b, v, v, 4096, TEST_MEMSZ, 5)
    } else if case == 8 {
        is_test_elf(b, v, v, 4, TEST_MEMSZ, 7)
    } else {
        is_test_elf(b, (v + 0x10_0000) as u64, v, 4, TEST_MEMSZ, 5)
    }
}

/// What is wrong with the bad image of a case.
pub open spec fn bad_image_fault(case: int) -> ElfError {
    if case == 0 {
        ElfError::TooShort
    } else if case == 1 {
        ElfError::BadMagic
    } else if case == 2 {
        ElfError::NotElf64Le
    } else if case == 3 {
        ElfError::WrongArch
    } else if 4 <= case <= 6 {
        ElfError::BadSegment
    } else if case == 7 {
        ElfError::Truncated
    } else if case == 8 {
        ElfError::WritableExecutable
    } else {
        ElfError::BadEntry
    }
}

/// The bad images, with what is wrong with each.
pub fn bad_image(case: usize) -> (r: (Vec<u8>, ElfError))
    ensures
        is_bad_image(case as int, r.0@),
        r.1 == bad_image_fault(case as int),
        parsed(r.0@) == Err::<(u64, Seq<Segment>), ElfError>(r.1),
{
    let v: u64 = TEST_CODE_VIRT;
    if case == 0 {
        let mut short: Vec<u8> = make_test_elf(v, v, 4, TEST_MEMSZ, 5);
        let ghost good = short@;
        short.truncate(32);
        assert(is_good_image(good) && short@ =~= good.take(32));
        return (short, ElfError::TooShort);
    }
    if case == 1 {
        let mut bad_magic: Vec<u8> = make_test_elf(v, v, 4, TEST_MEMSZ, 5);
        let ghost good = bad_magic@;
        bad_magic.set(0, 0);
        assert(bad_magic@.update(0, 0x7f) =~= good);
        return (bad_magic, ElfError::BadMagic);
    }
    if case == 2 {
        let mut not_elf64: Vec<u8> = make_test_elf(v, v, 4, TEST_MEMSZ, 5);
        let ghost good = not_elf64@;
        not_elf64.set(4, 1);
        assert(not_elf64@.update(4, 2) =~= good);
        return (not_elf64, ElfError::NotElf64Le);
    }
    if case == 3 {
        // An executable for the i386.
        let mut wrong_arch: Vec<u8> = make_test_elf(v, v, 4, TEST_MEMSZ, 5);
        let ghost good = wrong_arch@;
        wrong_arch.set(18, 3);
        assert(wrong_arch@.update(18, 62) =~= good);
        assert(le16(wrong_arch@, 16) == 2);
        return (wrong_arch, ElfError::WrongArch);
    }
    if case == 4 {
        let high: u64 = 0xffff_ffff_8000_0000;
        let kernel_addr: Vec<u8> = make_test_elf(high, high, 4, TEST_MEMSZ, 5);
        proof {
            lemma_test_elf(kernel_addr@, high, high, 4, TEST_MEMSZ, 5);
        }
        return (kernel_addr, ElfError::BadSegment);
    }
    if case == 5 {
        let null_page: Vec<u8> = make_test_elf(0x10, 0x10, 4, TEST_MEMSZ, 5);
        proof {
            lemma_test_elf(null_page@, 0x10, 0x10, 4, TEST_MEMSZ, 5);
        }
        return (null_page, ElfError::BadSegment);
    }
    if case == 6 {
        let over: Vec<u8> = make_test_elf(v, v, 8, 4, 5);
        proof {
            lemma_test_elf(over@, v, v, 8, 4, 5);
        }
        return (over, ElfError::BadSegment);
    }
    if case == 7 {
        let too_long: Vec<u8> = make_test_elf(v, v, 4096, TEST_MEMSZ, 5);
        proof {
            lemma_test_elf(too_long@, v, v, 4096, TEST_MEMSZ, 5);
        }
        return (too_long, ElfError::Truncated);
    }
    if case == 8 {
        let wx: Vec<u8> = make_test_elf(v, v, 4, TEST_MEMSZ, 7);
        proof {
            lemma_test_elf(wx@, v, v, 4, TEST_MEMSZ, 7);
        }
        return (wx, ElfError::WritableExecutable);
    }
    let outside: u64 = v + 0x10_0000;
    let entry_outside: Vec<u8> = make_test_elf(outside, v, 4, TEST_MEMSZ, 5);
    proof {
        lemma_test_elf(entry_outside@, outside, v, 4, TEST_MEMSZ, 5);
    }
    (entry_outside, ElfError::BadEntry)
}

/// Try the loader out: malformed executables are refused, a valid one is mapped
/// with its data and zeros, and no frame is lost. Only for want of memory is
/// there another outcome. The outer error tells that a page could not be mapped.
pub fn self_test(mem: &mut PhysicalMemory, vmm: &Option<Vmm>) -> (r: Result<LoaderTrial, MapError>)
    requires
        is_kernel_space(*old(mem), *vmm),
        old(mem).wf(),
    ensures
        r == if vmm is None {
            Ok::<LoaderTrial, MapError>(LoaderTrial::NoMemory)
        } else {
            match good_outcome(old(mem).pmm->0.free_frames as int) {
                Ok(Some(t)) => Ok(t),
                Ok(None) => Ok(LoaderTrial::Passed(10)),
                Err(e) => Err(e),
            }
        },
        is_else_kept(*old(mem), *final(mem), *vmm),
        r == Ok::<LoaderTrial, MapError>(LoaderTrial::Passed(10)) ==> is_as_before(
            *old(mem),
            *final(mem),
        ) && final(mem).pmm->0.free_frames == old(mem).pmm->0.free_frames,
        r == Ok::<LoaderTrial, MapError>(LoaderTrial::NoMemory) ==> *final(mem) == *old(mem),
{
    let before: usize = free_frame_count(mem);
    let mut case: usize = 0;
    while case < 10
        invariant
            case <= 10,
            before == match old(mem).pmm {
                Some(p) => p.free_frames as int,
                None => 0,
            },
            case > 0 ==> vmm is Some && mem.pmm is Some && old(mem).pmm is Some && before > 0
                && is_as_before(*old(mem), *mem),
            is_kernel_space(*old(mem), *vmm),
            is_kernel_space(*mem, *vmm),
            mem.wf(),
            old(mem).wf(),
            mem.pmm is Some ==> mem.pmm->0.free_frames == old(mem).pmm->0.free_frames,
            case == 0 ==> *mem == *old(mem),
            is_else_kept(*old(mem), *mem, *vmm),
        decreases 10 - case,
    {
        let ghost m = *mem;
        let (image, expected): (Vec<u8>, ElfError) = bad_image(case);
        match check_case(mem, vmm, image.as_slice(), expected, case)? {
            Some(fault) => {
                return Ok(fault);
            },
            None => {},
        }
        proof {
            lemma_kept_twice(*old(mem), m, *mem, *vmm);
        }
        case += 1;
    }
    let good: Vec<u8> = make_test_elf(TEST_CODE_VIRT, TEST_CODE_VIRT, 4, TEST_MEMSZ, 5);
    let ghost m = *mem;
    let tried = check_good(mem, vmm, &good);
    proof {
        lemma_kept_twice(*old(mem), m, *mem, *vmm);
    }
    match tried? {
        Some(fault) => {
            return Ok(fault);
        },
        None => {},
    }
    let after: usize = free_frame_count(mem);
    if before != after {
        return Ok(LoaderTrial::Leaked { before, after });
    }
    Ok(LoaderTrial::Passed(10))
}

} // verus!
