//! What parsing an image gives, in terms of its program headers.

use vstd::prelude::*;
use crate::bytes::{le16, le32, le64};
use super::{parsed, segment_at, segments_from, type_at, ElfError, Segment};

verus! {

/// Where program header `i` of an image starts.
pub open spec fn header_at(b: Seq<u8>, i: int) -> int {
    le64(b, 32) + 56 * i
}

/// Whether program header `i` asks for memory: it is of the type `PT_LOAD`, and its size
/// in memory is not zero.
#[verifier::opaque]
pub open spec fn is_loadable(b: Seq<u8>, i: int) -> bool {
    le32(b, header_at(b, i)) == 1 && le64(b, header_at(b, i) + 40) > 0
}

/// Whether program header `i` names a dynamic linker.
#[verifier::opaque]
pub open spec fn is_interpreter(b: Seq<u8>, i: int) -> bool {
    le32(b, header_at(b, i)) == 3
}

/// Whether a segment is the one that program header `i` describes.
#[verifier::opaque]
pub open spec fn is_described(s: Segment, b: Seq<u8>, i: int) -> bool {
    let o = header_at(b, i);
    &&& s.flags == le32(b, o + 4)
    &&& s.offset == le64(b, o + 8)
    &&& s.vaddr == le64(b, o + 16)
    &&& s.filesz == le64(b, o + 32)
    &&& s.memsz == le64(b, o + 40)
}

/// Whether segments are those of the loadable ones of the first `n` program headers, in
/// their order: segment `j` is the one of header `at[j]`.
#[verifier::opaque]
pub open spec fn are_loadable(b: Seq<u8>, s: Seq<Segment>, at: Seq<int>, n: int) -> bool {
    &&& at.len() == s.len()
    &&& forall|j: int|
        #![trigger at[j]]
        #![trigger s[j]]
        0 <= j < s.len() ==> 0 <= at[j] < n && is_loadable(b, at[j]) && is_described(s[j], b, at[j])
    &&& forall|j: int, k: int| 0 <= j < k < at.len() ==> (#[trigger] at[j]) < (#[trigger] at[k])
    &&& forall|i: int| 0 <= i < n && #[trigger] is_loadable(b, i) ==> at.contains(i)
}

/// The pages that segments touch, each by itself.
pub open spec fn pages_in(s: Seq<Segment>) -> int
    decreases s.len(),
{
    if s.len() == 0 {
        0
    } else {
        pages_in(s.drop_last()) + (s.last().vaddr + s.last().memsz + 4095) / 4096
            - s.last().vaddr as int / 4096
    }
}

/// Whether the loadable program headers ask for more than an image may have.
pub open spec fn asks_for_more(b: Seq<u8>, s: Seq<Segment>, at: Seq<int>, n: int, e: ElfError) -> bool {
    &&& 0 <= n <= le16(b, 56)
    &&& are_loadable(b, s, at, n)
    &&& e == ElfError::TooManySegments ==> s.len() == 17
    &&& e == ElfError::TooLarge ==> pages_in(s) > 16384
}

/// Whether a loadable program header has the fault that an error stands for, in a file of
/// some length: more bytes in the file than in memory, or an address out of range; bytes
/// beyond the end of the file; memory both writable and executable.
pub open spec fn has_fault(b: Seq<u8>, i: int, e: ElfError) -> bool {
    let o = header_at(b, i);
    let (flags, offset, vaddr) = (le32(b, o + 4), le64(b, o + 8), le64(b, o + 16));
    let (filesz, memsz) = (le64(b, o + 32), le64(b, o + 40));
    &&& is_loadable(b, i)
    &&& match e {
        ElfError::BadSegment => filesz > memsz || vaddr < 0x1000 || vaddr + memsz
            > 0x4000_0000_0000,
        ElfError::Truncated => offset + filesz > b.len(),
        ElfError::WritableExecutable => flags % 4 == 3,
        _ => false,
    }
}

/// Whether there is a reason in the program headers for refusing an image.
pub open spec fn is_reason(b: Seq<u8>, e: ElfError) -> bool {
    match e {
        ElfError::Dynamic => exists|i: int| 0 <= i < le16(b, 56) && #[trigger] is_interpreter(b, i),
        ElfError::BadSegment | ElfError::Truncated | ElfError::WritableExecutable => exists|i: int|
            0 <= i < le16(b, 56) && #[trigger] has_fault(b, i, e),
        ElfError::TooManySegments | ElfError::TooLarge => exists|
            s: Seq<Segment>,
            at: Seq<int>,
            n: int,
        | #[trigger]
            asks_for_more(b, s, at, n, e),
        _ => false,
    }
}

proof fn lemma_fields(b: Seq<u8>, i: int)
    ensures
        is_described(segment_at(b, i), b, i),
        type_at(b, i) == le32(b, header_at(b, i)),
        is_loadable(b, i) == (type_at(b, i) == 1 && segment_at(b, i).memsz > 0),
        is_interpreter(b, i) == (type_at(b, i) == 3),
{
    reveal(is_loadable);
    reveal(is_described);
    reveal(is_interpreter);
}

proof fn lemma_pushed(b: Seq<u8>, s: Seq<Segment>, at: Seq<int>, i: int)
    requires
        are_loadable(b, s, at, i),
        is_loadable(b, i),
        0 <= i,
    ensures
        are_loadable(b, s.push(segment_at(b, i)), at.push(i), i + 1),
        pages_in(s.push(segment_at(b, i))) == pages_in(s) + segment_at(b, i).pages(),
{
    reveal(are_loadable);
    lemma_fields(b, i);
    let t = s.push(segment_at(b, i));
    let to = at.push(i);
    assert(t.drop_last() =~= s);
    assert forall|j: int|
        #![trigger to[j]]
        #![trigger t[j]]
        0 <= j < t.len() implies 0 <= to[j] < i + 1 && is_loadable(b, to[j]) && is_described(
        t[j],
        b,
        to[j],
    ) by {
        if j < s.len() {
            assert(t[j] == s[j] && to[j] == at[j]);
        }
    }
    assert forall|j: int, k: int| 0 <= j < k < to.len() implies (#[trigger] to[j]) < (
    #[trigger] to[k]) by {
        assert(to[j] == at[j]);
        if k < at.len() {
            assert(to[k] == at[k]);
        }
    }
    assert forall|k: int| 0 <= k < i + 1 && #[trigger] is_loadable(b, k) implies to.contains(k) by {
        if k < i {
            let j = choose|j: int| 0 <= j < at.len() && at[j] == k;
            assert(to[j] == k);
        } else {
            assert(to[at.len() as int] == k);
        }
    }
}

proof fn lemma_skipped(b: Seq<u8>, s: Seq<Segment>, at: Seq<int>, i: int)
    requires
        are_loadable(b, s, at, i),
        !is_loadable(b, i),
    ensures
        are_loadable(b, s, at, i + 1),
{
    reveal(are_loadable);
}

proof fn lemma_fault(b: Seq<u8>, i: int)
    requires
        is_loadable(b, i),
        segment_at(b, i).fault(b.len() as int) is Some,
        0 <= i < le16(b, 56),
    ensures
        is_reason(b, segment_at(b, i).fault(b.len() as int)->0),
{
    lemma_fields(b, i);
    reveal(is_described);
    let e = segment_at(b, i).fault(b.len() as int)->0;
    assert(has_fault(b, i, e));
}

proof fn lemma_from(b: Seq<u8>, i: int, s: Seq<Segment>, at: Seq<int>) -> (to: Seq<int>)
    requires
        0 <= i <= le16(b, 56),
        are_loadable(b, s, at, i),
        s.len() <= 16,
        forall|k: int| 0 <= k < i ==> !#[trigger] is_interpreter(b, k),
    ensures
        match segments_from(b, i, s, pages_in(s)) {
            Ok(t) => are_loadable(b, t, to, le16(b, 56)) && forall|k: int|
                0 <= k < le16(b, 56) ==> !#[trigger] is_interpreter(b, k),
            Err(e) => is_reason(b, e),
        },
    decreases le16(b, 56) - i,
{
    if i >= le16(b, 56) {
        at
    } else {
        lemma_fields(b, i);
        let x = segment_at(b, i);
        if is_interpreter(b, i) {
            at
        } else if !is_loadable(b, i) {
            lemma_skipped(b, s, at, i);
            lemma_from(b, i + 1, s, at)
        } else {
            lemma_pushed(b, s, at, i);
            if x.fault(b.len() as int) is Some {
                lemma_fault(b, i);
                at
            } else if s.len() == 16 {
                assert(asks_for_more(b, s.push(x), at.push(i), i + 1, ElfError::TooManySegments));
                at
            } else if pages_in(s) + x.pages() > 16384 {
                assert(asks_for_more(b, s.push(x), at.push(i), i + 1, ElfError::TooLarge));
                at
            } else {
                lemma_from(b, i + 1, s.push(x), at.push(i))
            }
        }
    }
}

proof fn lemma_all(b: Seq<u8>) -> (to: Seq<int>)
    ensures
        match segments_from(b, 0, Seq::empty(), 0) {
            Ok(t) => are_loadable(b, t, to, le16(b, 56)) && forall|k: int|
                0 <= k < le16(b, 56) ==> !#[trigger] is_interpreter(b, k),
            Err(e) => is_reason(b, e),
        },
{
    assert(pages_in(Seq::empty()) == 0);
    assert(are_loadable(b, Seq::empty(), Seq::empty(), 0)) by {
        reveal(are_loadable);
    }
    lemma_from(b, 0, Seq::empty(), Seq::empty())
}

/// The segments of an image that is accepted are exactly those of its program headers of
/// the type `PT_LOAD` with a size above zero, in the order of the headers and each with
/// the address, the offset, the sizes and the flags of its header. The entry point is the
/// one of the ELF header. No header names a dynamic linker.
pub proof fn law_segments_are_the_loadable_headers(b: Seq<u8>)
    ensures
        parsed(b) matches Ok((entry, s)) ==> {
            &&& entry == le64(b, 24)
            &&& exists|at: Seq<int>| #[trigger] are_loadable(b, s, at, le16(b, 56))
            &&& forall|k: int| 0 <= k < le16(b, 56) ==> !#[trigger] is_interpreter(b, k)
        },
{
    let at = lemma_all(b);
    super::lemma_le64_fits(b, 24);
    if let Ok((entry, s)) = parsed(b) {
        assert(are_loadable(b, s, at, le16(b, 56)));
    }
}

/// Whether the ELF header of an image has no fault: it is a 64-bit little-endian one for a
/// static x86-64 program, and the program headers, of which there are between 1 and 64,
/// lie in the file.
pub open spec fn has_good_header(b: Seq<u8>) -> bool {
    &&& b.len() >= 64
    &&& b.take(6) == seq![0x7fu8, 0x45, 0x4c, 0x46, 2, 1]
    &&& le16(b, 16) == 2
    &&& le16(b, 18) == 62
    &&& le16(b, 54) == 56
    &&& 1 <= le16(b, 56) <= 64
    &&& header_at(b, le16(b, 56)) <= b.len()
}

/// Whether two of the loadable program headers share an address.
pub open spec fn is_shared(b: Seq<u8>, i: int, j: int, v: int) -> bool {
    &&& is_loadable(b, i)
    &&& is_loadable(b, j)
    &&& le64(b, header_at(b, i) + 16) <= v < le64(b, header_at(b, i) + 16) + le64(
        b,
        header_at(b, i) + 40,
    )
    &&& le64(b, header_at(b, j) + 16) <= v < le64(b, header_at(b, j) + 16) + le64(
        b,
        header_at(b, j) + 40,
    )
}

/// Whether the entry point lies in what program header `i` asks for, executable.
pub open spec fn holds_entry(b: Seq<u8>, i: int) -> bool {
    let o = header_at(b, i);
    &&& is_loadable(b, i)
    &&& le32(b, o + 4) % 2 == 1
    &&& le64(b, o + 16) <= le64(b, 24) < le64(b, o + 16) + le64(b, o + 40)
}

/// An image is refused for a reason only: its ELF header has a fault; a program header
/// names a dynamic linker or has a fault; there are more than 16 loadable segments, or they
/// take more than 16384 pages; there is none; two of them share an address; or the entry
/// point lies in none of the executable ones.
pub proof fn law_images_are_refused_for_a_reason(b: Seq<u8>)
    ensures
        parsed(b) matches Err(e) ==> {
            ||| !has_good_header(b)
            ||| is_reason(b, e)
            ||| e == ElfError::NoLoadable && forall|i: int|
                0 <= i < le16(b, 56) ==> !#[trigger] is_loadable(b, i)
            ||| e == ElfError::Overlap && exists|i: int, j: int, v: int|
                0 <= i < j < le16(b, 56) && #[trigger] is_shared(b, i, j, v)
            ||| e == ElfError::BadEntry && forall|i: int|
                0 <= i < le16(b, 56) ==> !#[trigger] holds_entry(b, i)
        },
{
    let at = lemma_all(b);
    let start = seq![0x7fu8, 0x45, 0x4c, 0x46, 2, 1];
    if super::header_fault(b) is None {
        assert(b.take(6) =~= start);
    } else if has_good_header(b) {
        assert forall|i: int| 0 <= i < 6 implies b[i] == start[i] by {
            assert(b.take(6)[i] == start[i]);
        }
    }
    if super::header_fault(b) is None {
        if let Ok(s) = segments_from(b, 0, Seq::empty(), 0) {
            lemma_refused(b, s, at);
        }
    }
}

proof fn lemma_refused(b: Seq<u8>, s: Seq<Segment>, at: Seq<int>)
    requires
        are_loadable(b, s, at, le16(b, 56)),
    ensures
        s.len() == 0 ==> forall|i: int| 0 <= i < le16(b, 56) ==> !#[trigger] is_loadable(b, i),
        super::some_overlap(s) ==> exists|i: int, j: int, v: int|
            0 <= i < j < le16(b, 56) && #[trigger] is_shared(b, i, j, v),
        !super::is_code(s, le64(b, 24)) ==> forall|i: int|
            0 <= i < le16(b, 56) ==> !#[trigger] holds_entry(b, i),
{
    reveal(are_loadable);
    if super::some_overlap(s) {
        let (i, j) = choose|i: int, j: int|
            0 <= i < j < s.len() && super::overlap(#[trigger] s[i], #[trigger] s[j]);
        let v = if s[i].vaddr > s[j].vaddr {
            s[i].vaddr as int
        } else {
            s[j].vaddr as int
        };
        assert(is_shared(b, at[i], at[j], v)) by {
            reveal(is_described);
            reveal(is_loadable);
        }
    }
    if !super::is_code(s, le64(b, 24)) {
        assert forall|i: int| 0 <= i < le16(b, 56) implies !#[trigger] holds_entry(b, i) by {
            if holds_entry(b, i) {
                let j = choose|j: int| 0 <= j < at.len() && at[j] == i;
                assert(s[j].is_executable() && s[j].holds(le64(b, 24))) by {
                    reveal(is_described);
                }
            }
        }
    }
}

/// What is refused on account of the ELF header: each error stands for one fault, and the
/// first one counts.
pub proof fn law_bad_headers_are_refused(b: Seq<u8>)
    requires
        !has_good_header(b),
    ensures
        parsed(b) == Err::<(u64, Seq<Segment>), ElfError>(
            if b.len() < 64 {
                ElfError::TooShort
            } else if b.take(4) != seq![0x7fu8, 0x45, 0x4c, 0x46] {
                ElfError::BadMagic
            } else if b.subrange(4, 6) != seq![2u8, 1] {
                ElfError::NotElf64Le
            } else if le16(b, 16) != 2 {
                ElfError::NotExecutable
            } else if le16(b, 18) != 62 {
                ElfError::WrongArch
            } else if !(le16(b, 54) == 56 && 1 <= le16(b, 56) <= 64) {
                ElfError::BadHeader
            } else {
                ElfError::Truncated
            },
        ),
{
    let magic = seq![0x7fu8, 0x45, 0x4c, 0x46];
    let class = seq![2u8, 1];
    if b.len() >= 64 {
        if b.take(4) == magic {
            assert(b.take(4)[0] == 0x7f && b.take(4)[1] == 0x45 && b.take(4)[2] == 0x4c && b.take(4)[3]
                == 0x46);
            if b.subrange(4, 6) == class {
                assert(b.subrange(4, 6)[0] == 2 && b.subrange(4, 6)[1] == 1);
                assert(b.take(6) =~= seq![0x7fu8, 0x45, 0x4c, 0x46, 2, 1]);
            } else if b[4] == 2 && b[5] == 1 {
                assert(b.subrange(4, 6) =~= class);
            }
        } else if b[0] == 0x7f && b[1] == 0x45 && b[2] == 0x4c && b[3] == 0x46 {
            assert(b.take(4) =~= magic);
        }
    }
}

} // verus!
