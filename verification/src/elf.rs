//! ELF64 loader for static, non-PIE x86-64 executables.
//!
//! Policy:
//! - Only `ET_EXEC` for x86-64. Dynamically linked programs are rejected.
//! - Segments must lie entirely inside `[LOAD_MIN, LOAD_MAX)`.
//! - W^X: a segment (or a page shared by two segments) may be writable or
//!   executable, never both.
//! - Segments may not overlap each other. Two segments may share a page; the
//!   page then gets the union of their permissions.

use vstd::prelude::*;
use crate::bytes::{le16, le32, le64, u16le, u32le, u64le};
use crate::pmm::{page_down, page_up};

pub mod accounts;
pub mod headers;
pub mod install;
pub mod loader;
pub mod memory;

pub use install::load;



verus! {

/// Lowest address a segment may occupy.
pub const LOAD_MIN: u64 = 0x1000;
/// First address segments may not reach.
pub const LOAD_MAX: u64 = 0x0000_4000_0000_0000;

pub const MAX_SEGMENTS: usize = 16;
pub const MAX_PHDRS: u16 = 64;
/// Cap on the pages one image may ask for (64 MiB).
pub const MAX_PAGES: u64 = 16384;

pub const EHDR_SIZE: usize = 64;
pub const PHDR_SIZE: usize = 56;

pub const ET_EXEC: u16 = 2;
pub const EM_X86_64: u16 = 62;
pub const PT_LOAD: u32 = 1;
pub const PT_INTERP: u32 = 3;

#[derive(Clone, Copy, PartialEq, Eq, Debug, Structural)]
pub enum ElfError {
    /// Shorter than an ELF header.
    TooShort,
    /// Doesn't start with `\x7fELF`.
    BadMagic,
    /// Not a 64-bit little-endian ELF.
    NotElf64Le,
    /// Not `ET_EXEC` (e.g. a shared object or PIE).
    NotExecutable,
    /// Not built for x86-64.
    WrongArch,
    /// Program header table has a wrong entry size, no entries, or too many.
    BadHeader,
    /// Has a `PT_INTERP`: needs a dynamic linker.
    Dynamic,
    /// A header or segment points outside the file.
    Truncated,
    /// A segment has an impossible size or lies outside the allowed user
    /// address range.
    BadSegment,
    /// More than `MAX_SEGMENTS` loadable segments.
    TooManySegments,
    /// Two loadable segments overlap.
    Overlap,
    /// Asks for writable *and* executable memory.
    WritableExecutable,
    /// Asks for more than `MAX_PAGES` pages.
    TooLarge,
    /// No loadable segment at all.
    NoLoadable,
    /// The entry point isn't inside an executable segment.
    BadEntry,
    /// Out of physical memory.
    NoMemory,
}

impl ElfError {
    pub open spec fn text(self) -> Seq<char> {
        match self {
            ElfError::TooShort => "file too short for an ELF header"@,
            ElfError::BadMagic => "not an ELF file (bad magic)"@,
            ElfError::NotElf64Le => "not a 64-bit little-endian ELF"@,
            ElfError::NotExecutable => "not a static executable (ET_EXEC)"@,
            ElfError::WrongArch => "not an x86-64 executable"@,
            ElfError::BadHeader => "bad program header table"@,
            ElfError::Dynamic => "dynamically linked executables are not supported"@,
            ElfError::Truncated => "header or segment extends past the end of the file"@,
            ElfError::BadSegment => "segment size or address is invalid"@,
            ElfError::TooManySegments => "too many loadable segments"@,
            ElfError::Overlap => "loadable segments overlap"@,
            ElfError::WritableExecutable => "segment is both writable and executable"@,
            ElfError::TooLarge => "image is too large"@,
            ElfError::NoLoadable => "no loadable segments"@,
            ElfError::BadEntry => "entry point is not inside an executable segment"@,
            ElfError::NoMemory => "out of memory"@,
        }
    }

    pub fn as_str(self) -> (s: &'static str)
        ensures
            s@ == self.text(),
    {
        match self {
            ElfError::TooShort => "file too short for an ELF header",
            ElfError::BadMagic => "not an ELF file (bad magic)",
            ElfError::NotElf64Le => "not a 64-bit little-endian ELF",
            ElfError::NotExecutable => "not a static executable (ET_EXEC)",
            ElfError::WrongArch => "not an x86-64 executable",
            ElfError::BadHeader => "bad program header table",
            ElfError::Dynamic => "dynamically linked executables are not supported",
            ElfError::Truncated => "header or segment extends past the end of the file",
            ElfError::BadSegment => "segment size or address is invalid",
            ElfError::TooManySegments => "too many loadable segments",
            ElfError::Overlap => "loadable segments overlap",
            ElfError::WritableExecutable => "segment is both writable and executable",
            ElfError::TooLarge => "image is too large",
            ElfError::NoLoadable => "no loadable segments",
            ElfError::BadEntry => "entry point is not inside an executable segment",
            ElfError::NoMemory => "out of memory",
        }
    }
}

/// One `PT_LOAD` entry.
#[derive(Clone, Copy, Debug, PartialEq, Eq, Structural)]
pub struct Segment {
    pub vaddr: u64,
    pub offset: u64,
    pub filesz: u64,
    pub memsz: u64,
    pub flags: u32,
}

impl Segment {
    pub open spec fn is_executable(self) -> bool {
        self.flags % 2 == 1
    }

    pub open spec fn is_writable(self) -> bool {
        self.flags / 2 % 2 == 1
    }

    pub open spec fn end(self) -> int {
        self.vaddr + self.memsz
    }

    /// Whether an address lies in the segment.
    pub open spec fn holds(self, v: int) -> bool {
        self.vaddr <= v < self.end()
    }

    /// Pages that the segment touches.
    pub open spec fn pages(self) -> int {
        (page_up(self.end()) - page_down(self.vaddr as int)) / 4096
    }

    /// What is wrong with a segment by itself, in a file of `len` bytes.
    pub open spec fn fault(self, len: int) -> Option<ElfError> {
        if self.filesz > self.memsz {
            Some(ElfError::BadSegment)
        } else if self.vaddr < LOAD_MIN || self.end() > LOAD_MAX {
            Some(ElfError::BadSegment)
        } else if self.offset + self.filesz > len {
            Some(ElfError::Truncated)
        } else if self.is_writable() && self.is_executable() {
            Some(ElfError::WritableExecutable)
        } else {
            None
        }
    }

    pub fn executable(&self) -> (r: bool)
        ensures
            r == self.is_executable(),
    {
        self.flags % 2 == 1
    }

    pub fn writable(&self) -> (r: bool)
        ensures
            r == self.is_writable(),
    {
        self.flags / 2 % 2 == 1
    }
}

/// What is wrong with the header of an image, where something is.
pub open spec fn header_fault(b: Seq<u8>) -> Option<ElfError> {
    if b.len() < 64 {
        Some(ElfError::TooShort)
    } else if !(b[0] == 0x7f && b[1] == 0x45 && b[2] == 0x4c && b[3] == 0x46) {
        Some(ElfError::BadMagic)
    } else if b[4] != 2 || b[5] != 1 {
        Some(ElfError::NotElf64Le)
    } else if le16(b, 16) != ET_EXEC {
        Some(ElfError::NotExecutable)
    } else if le16(b, 18) != EM_X86_64 {
        Some(ElfError::WrongArch)
    } else if le16(b, 54) != 56 || le16(b, 56) == 0 || le16(b, 56) > MAX_PHDRS {
        Some(ElfError::BadHeader)
    } else if le64(b, 32) + le16(b, 56) * 56 > b.len() {
        Some(ElfError::Truncated)
    } else {
        None
    }
}

/// The segment that program header `i` of an image describes.
pub open spec fn segment_at(b: Seq<u8>, i: int) -> Segment {
    let o = le64(b, 32) + 56 * i;
    Segment {
        flags: le32(b, o + 4) as u32,
        offset: le64(b, o + 8) as u64,
        vaddr: le64(b, o + 16) as u64,
        filesz: le64(b, o + 32) as u64,
        memsz: le64(b, o + 40) as u64,
    }
}

pub open spec fn type_at(b: Seq<u8>, i: int) -> int {
    le32(b, le64(b, 32) + 56 * i)
}

/// The loadable segments of an image from program header `i` on, after those in
/// `found`, which take `pages` pages.
pub open spec fn segments_from(b: Seq<u8>, i: int, found: Seq<Segment>, pages: int) -> Result<
    Seq<Segment>,
    ElfError,
>
    decreases le16(b, 56) - i,
{
    if i >= le16(b, 56) {
        Ok(found)
    } else if type_at(b, i) == PT_INTERP {
        Err(ElfError::Dynamic)
    } else if type_at(b, i) != PT_LOAD || segment_at(b, i).memsz == 0 {
        segments_from(b, i + 1, found, pages)
    } else {
        let s = segment_at(b, i);
        match s.fault(b.len() as int) {
            Some(e) => Err(e),
            None => if found.len() == 16 {
                Err(ElfError::TooManySegments)
            } else if pages + s.pages() > MAX_PAGES {
                Err(ElfError::TooLarge)
            } else {
                segments_from(b, i + 1, found.push(s), pages + s.pages())
            },
        }
    }
}

/// Whether two segments share an address.
pub open spec fn overlap(a: Segment, b: Segment) -> bool {
    a.vaddr < b.end() && b.vaddr < a.end()
}

pub open spec fn some_overlap(s: Seq<Segment>) -> bool {
    exists|i: int, j: int| 0 <= i < j < s.len() && overlap(#[trigger] s[i], #[trigger] s[j])
}

/// Whether an address lies in an executable segment.
pub open spec fn is_code(s: Seq<Segment>, v: int) -> bool {
    exists|i: int| 0 <= i < s.len() && (#[trigger] s[i]).is_executable() && s[i].holds(v)
}

/// The entry point and the loadable segments of an image, or why it is refused.
pub open spec fn parsed(b: Seq<u8>) -> Result<(u64, Seq<Segment>), ElfError> {
    match header_fault(b) {
        Some(e) => Err(e),
        None => match segments_from(b, 0, Seq::empty(), 0) {
            Err(e) => Err(e),
            Ok(s) => if s.len() == 0 {
                Err(ElfError::NoLoadable)
            } else if some_overlap(s) {
                Err(ElfError::Overlap)
            } else if !is_code(s, le64(b, 24)) {
                Err(ElfError::BadEntry)
            } else {
                Ok((le64(b, 24) as u64, s))
            },
        },
    }
}

/// Whether each segment by itself is fit to be loaded.
pub open spec fn all_fit(b: Seq<u8>, s: Seq<Segment>) -> bool {
    forall|i: int|
        0 <= i < s.len() ==> (#[trigger] s[i]).fault(b.len() as int) is None && s[i].memsz > 0
}

proof fn lemma_segments_fit(b: Seq<u8>, i: int, found: Seq<Segment>, pages: int)
    requires
        all_fit(b, found),
        found.len() <= 16,
    ensures
        segments_from(b, i, found, pages) matches Ok(s) ==> all_fit(b, s) && s.len() <= 16,
    decreases le16(b, 56) - i,
{
    if i < le16(b, 56) && type_at(b, i) != PT_INTERP {
        let s = segment_at(b, i);
        if type_at(b, i) != PT_LOAD || s.memsz == 0 {
            lemma_segments_fit(b, i + 1, found, pages);
        } else if s.fault(b.len() as int) is None && found.len() < 16 && pages + s.pages()
            <= MAX_PAGES {
            lemma_segments_fit(b, i + 1, found.push(s), pages + s.pages());
        }
    }
}

/// The segments of an accepted image fit it.
pub proof fn lemma_parsed_fit(b: Seq<u8>)
    ensures
        parsed(b) matches Ok((entry, s)) ==> all_fit(b, s),
{
    lemma_segments_fit(b, 0, Seq::empty(), 0);
}

/// What is promised of every image that is not refused: its segments lie in the
/// allowed range and in the file, none is writable and executable, no two
/// overlap, and the entry point lies in an executable one.
pub proof fn law_accepted_images(b: Seq<u8>)
    ensures
        parsed(b) matches Ok((entry, s)) ==> {
            &&& 1 <= s.len() <= 16
            &&& forall|i: int|
                0 <= i < s.len() ==> {
                    &&& LOAD_MIN <= (#[trigger] s[i]).vaddr
                    &&& s[i].end() <= LOAD_MAX
                    &&& s[i].filesz <= s[i].memsz
                    &&& s[i].offset + s[i].filesz <= b.len()
                    &&& !(s[i].is_writable() && s[i].is_executable())
                }
            &&& forall|i: int, j: int|
                0 <= i < j < s.len() ==> !overlap(#[trigger] s[i], #[trigger] s[j])
            &&& is_code(s, entry as int)
        },
{
    lemma_segments_fit(b, 0, Seq::empty(), 0);
    if let Ok((entry, s)) = parsed(b) {
        lemma_le64_fits(b, 24);
        assert forall|i: int| 0 <= i < s.len() implies {
            &&& LOAD_MIN <= (#[trigger] s[i]).vaddr
            &&& s[i].end() <= LOAD_MAX
            &&& s[i].filesz <= s[i].memsz
            &&& s[i].offset + s[i].filesz <= b.len()
            &&& !(s[i].is_writable() && s[i].is_executable())
        } by {
            assert(s[i].fault(b.len() as int) is None);
        }
    }
}

proof fn lemma_le64_fits(b: Seq<u8>, at: int)
    ensures
        0 <= le64(b, at) <= u64::MAX,
{
}

/// Validate the headers and collect the loadable segments.
pub fn parse(image: &[u8]) -> (r: Result<(u64, Vec<Segment>), ElfError>)
    ensures
        match r {
            Ok((entry, s)) => parsed(image@) == Ok::<(u64, Seq<Segment>), ElfError>((entry, s@)),
            Err(e) => parsed(image@) == Err::<(u64, Seq<Segment>), ElfError>(e),
        },
        r matches Ok((entry, s)) ==> entry == le64(image@, 24) && exists|at: Seq<int>| #[trigger]
            headers::are_loadable(image@, s@, at, le16(image@, 56)),
{
    let len: usize = image.len();
    if len < EHDR_SIZE {
        return Err(ElfError::TooShort);
    }
    if !(image[0] == 0x7f && image[1] == 0x45 && image[2] == 0x4c && image[3] == 0x46) {
        return Err(ElfError::BadMagic);
    }
    if image[4] != 2 || image[5] != 1 {
        return Err(ElfError::NotElf64Le);
    }
    if u16le(image, 16) != ET_EXEC {
        return Err(ElfError::NotExecutable);
    }
    if u16le(image, 18) != EM_X86_64 {
        return Err(ElfError::WrongArch);
    }
    let entry: u64 = u64le(image, 24);
    let phoff: u64 = u64le(image, 32);
    let phentsize: usize = u16le(image, 54) as usize;
    let phnum: u16 = u16le(image, 56);
    if phentsize != PHDR_SIZE || phnum == 0 || phnum > MAX_PHDRS {
        return Err(ElfError::BadHeader);
    }
    let table: u64 = phnum as u64 * 56;
    if phoff > 0xffff_ffff_ffff_ffff - table || phoff + table > len as u64 {
        return Err(ElfError::Truncated);
    }
    let ghost b = image@;
    let mut segments: Vec<Segment> = Vec::new();
    let mut total_pages: u64 = 0;
    let mut i: usize = 0;
    while i < phnum as usize
        invariant
            b == image@,
            len == b.len(),
            header_fault(b) is None,
            phoff == le64(b, 32),
            phnum == le16(b, 56),
            phoff + phnum * 56 <= len,
            i <= phnum <= 64,
            total_pages <= MAX_PAGES,
            segments@.len() <= 16,
            all_fit(b, segments@),
            segments_from(b, i as int, segments@, total_pages as int) == segments_from(
                b,
                0,
                Seq::empty(),
                0,
            ),
        decreases phnum - i,
    {
        let o: usize = phoff as usize + 56 * i;
        let p_type: u32 = u32le(image, o);
        let s: Segment = Segment {
            flags: u32le(image, o + 4),
            offset: u64le(image, o + 8),
            vaddr: u64le(image, o + 16),
            filesz: u64le(image, o + 32),
            memsz: u64le(image, o + 40),
        };
        assert(s == segment_at(b, i as int));
        assert(p_type == type_at(b, i as int));
        i += 1;
        if p_type == PT_INTERP {
            return Err(ElfError::Dynamic);
        }
        if p_type != PT_LOAD || s.memsz == 0 {
            continue ;
        }
        if s.filesz > s.memsz {
            return Err(ElfError::BadSegment);
        }
        if s.vaddr < LOAD_MIN || s.vaddr > LOAD_MAX || s.memsz > LOAD_MAX - s.vaddr {
            return Err(ElfError::BadSegment);
        }
        let end: u64 = s.vaddr + s.memsz;
        if s.offset > len as u64 || s.filesz > len as u64 - s.offset {
            return Err(ElfError::Truncated);
        }
        if s.writable() && s.executable() {
            return Err(ElfError::WritableExecutable);
        }
        if segments.len() == MAX_SEGMENTS {
            return Err(ElfError::TooManySegments);
        }
        let pages: u64 = (crate::pmm::align_up(end) - crate::pmm::align_down(s.vaddr)) / 4096;
        assert(pages == s.pages());
        total_pages = total_pages + pages;
        if total_pages > MAX_PAGES {
            return Err(ElfError::TooLarge);
        }
        segments.push(s);
    }
    if segments.len() == 0 {
        return Err(ElfError::NoLoadable);
    }
    let n: usize = segments.len();
    let mut a: usize = 0;
    while a < n
        invariant
            n == segments@.len(),
            a <= n,
            b == image@,
            header_fault(b) is None,
            segments_from(b, 0, Seq::empty(), 0) == Ok::<Seq<Segment>, ElfError>(segments@),
            segments@.len() > 0,
            all_fit(b, segments@),
            forall|i: int, j: int|
                0 <= i < a && i < j < n ==> !overlap(
                    #[trigger] segments@[i],
                    #[trigger] segments@[j],
                ),
        decreases n - a,
    {
        let mut c: usize = a + 1;
        while c < n
            invariant
                n == segments@.len(),
                a < c <= n,
                b == image@,
                header_fault(b) is None,
                segments_from(b, 0, Seq::empty(), 0) == Ok::<Seq<Segment>, ElfError>(segments@),
                segments@.len() > 0,
                all_fit(b, segments@),
                forall|j: int|
                    a < j < c ==> !overlap(segments@[a as int], #[trigger] segments@[j]),
            decreases n - c,
        {
            let x: Segment = segments[a];
            let y: Segment = segments[c];
            assert(segments@[a as int].fault(b.len() as int) is None);
            assert(segments@[c as int].fault(b.len() as int) is None);
            if x.vaddr < y.vaddr + y.memsz && y.vaddr < x.vaddr + x.memsz {
                assert(overlap(segments@[a as int], segments@[c as int]));
                return Err(ElfError::Overlap);
            }
            c += 1;
        }
        a += 1;
    }
    assert(!some_overlap(segments@));
    let mut k: usize = 0;
    while k < n
        invariant
            n == segments@.len(),
            k <= n,
            b == image@,
            header_fault(b) is None,
            segments_from(b, 0, Seq::empty(), 0) == Ok::<Seq<Segment>, ElfError>(segments@),
            segments@.len() > 0,
            !some_overlap(segments@),
            entry == le64(b, 24),
            all_fit(b, segments@),
            forall|j: int|
                0 <= j < k ==> !((#[trigger] segments@[j]).is_executable() && segments@[j].holds(
                    entry as int,
                )),
        decreases n - k,
    {
        let s: Segment = segments[k];
        assert(segments@[k as int].fault(b.len() as int) is None);
        if s.executable() && entry >= s.vaddr && entry < s.vaddr + s.memsz {
            assert(segments@[k as int].is_executable() && segments@[k as int].holds(entry as int));
            proof {
                headers::law_segments_are_the_loadable_headers(b);
            }
            return Ok((entry, segments));
        }
        k += 1;
    }
    Err(ElfError::BadEntry)
}

} // verus!
