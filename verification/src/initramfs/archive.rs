//! What an archive is made of, and what is read from it.

use vstd::prelude::*;
use super::{
    file_named, files, files_from, header_at, header_sum, is_sound_header, next_header, normal,
    octal, octal_from, path_of, until_nul,
};
use crate::text::utf8_lossy;

verus! {

/// The number that octal digits stand for.
pub open spec fn octal_value(d: Seq<u8>) -> int
    decreases d.len(),
{
    if d.len() == 0 {
        0
    } else {
        8 * octal_value(d.drop_last()) + (d.last() - 0x30)
    }
}

/// Whether bytes are octal digits.
pub open spec fn are_digits(d: Seq<u8>) -> bool {
    forall|i: int| 0 <= i < d.len() ==> 0x30 <= #[trigger] d[i] <= 0x37
}

/// Whether a byte is padding in a number field.
pub open spec fn is_blank(b: u8) -> bool {
    b == 0x20 || b == 0
}

proof fn lemma_octal_digits(f: Seq<u8>, from: int, at: int, to: int)
    requires
        0 <= from <= at <= to <= f.len(),
        are_digits(f.subrange(from, to)),
        octal_value(f.subrange(from, to)) <= u64::MAX,
        to < f.len() ==> is_blank(f[to]),
        from < to,
    ensures
        octal_from(f, at, octal_value(f.subrange(from, at)), at > from) == Some(
            octal_value(f.subrange(from, to)),
        ),
    decreases to - at,
{
    if at < to {
        assert(f.subrange(from, to)[at - from] == f[at]);
        let next = f.subrange(from, at + 1);
        assert(next.drop_last() =~= f.subrange(from, at));
        lemma_value_grows(f, from, at + 1, to);
        lemma_octal_digits(f, from, at + 1, to);
    }
}

proof fn lemma_value_grows(f: Seq<u8>, from: int, a: int, b: int)
    requires
        0 <= from <= a <= b <= f.len(),
        are_digits(f.subrange(from, b)),
    ensures
        0 <= octal_value(f.subrange(from, a)) <= octal_value(f.subrange(from, b)),
    decreases b,
{
    let s = f.subrange(from, b);
    if a < b {
        assert(s.drop_last() =~= f.subrange(from, b - 1));
        assert forall|i: int| 0 <= i < b - 1 - from implies 0x30 <= #[trigger] f.subrange(
            from,
            b - 1,
        )[i] <= 0x37 by {
            assert(s[i] == f.subrange(from, b - 1)[i]);
        }
        lemma_value_grows(f, from, a, b - 1);
        assert(0x30 <= s[s.len() - 1] <= 0x37);
    } else if from < b {
        assert(s.drop_last() =~= f.subrange(from, b - 1));
        assert forall|i: int| 0 <= i < b - 1 - from implies 0x30 <= #[trigger] f.subrange(
            from,
            b - 1,
        )[i] <= 0x37 by {
            assert(s[i] == f.subrange(from, b - 1)[i]);
        }
        lemma_value_grows(f, from, b - 1, b - 1);
        assert(0x30 <= s[s.len() - 1] <= 0x37);
    }
}

proof fn lemma_octal_blanks(f: Seq<u8>, i: int, from: int)
    requires
        0 <= i <= from <= f.len(),
        forall|k: int| i <= k < from ==> is_blank(#[trigger] f[k]),
    ensures
        octal_from(f, i, 0, false) == octal_from(f, from, 0, false),
    decreases from - i,
{
    if i < from {
        assert(is_blank(f[i]));
        lemma_octal_blanks(f, i + 1, from);
    }
}

/// A field with octal digits, after spaces or zero bytes and up to such a byte or the end
/// of the field, holds the number that the digits stand for.
pub proof fn law_number_fields(f: Seq<u8>, from: int, to: int)
    requires
        0 <= from < to <= f.len(),
        forall|k: int| 0 <= k < from ==> is_blank(#[trigger] f[k]),
        are_digits(f.subrange(from, to)),
        to < f.len() ==> is_blank(f[to]),
        octal_value(f.subrange(from, to)) <= u64::MAX,
    ensures
        octal(f) == Some(octal_value(f.subrange(from, to))),
{
    lemma_octal_blanks(f, 0, from);
    assert(f.subrange(from, from) =~= Seq::<u8>::empty());
    assert(octal_value(f.subrange(from, from)) == 0);
    lemma_octal_digits(f, from, from, to);
}

/// A field without a digit holds no number.
pub proof fn law_blank_fields(f: Seq<u8>)
    requires
        forall|k: int| 0 <= k < f.len() ==> is_blank(#[trigger] f[k]),
    ensures
        octal(f) is None,
{
    lemma_octal_blanks(f, 0, f.len() as int);
}

/// The sum of bytes.
pub open spec fn sum_of(b: Seq<u8>) -> int
    decreases b.len(),
{
    if b.len() == 0 {
        0
    } else {
        sum_of(b.drop_last()) + b.last()
    }
}

/// A header with its checksum field blank.
pub open spec fn blanked(h: Seq<u8>) -> Seq<u8> {
    h.take(148) + seq![0x20u8, 0x20, 0x20, 0x20, 0x20, 0x20, 0x20, 0x20] + h.skip(156)
}

proof fn lemma_sum(h: Seq<u8>, n: int)
    requires
        h.len() == 512,
        0 <= n <= 512,
    ensures
        header_sum(h, n) == sum_of(blanked(h).take(n)),
    decreases n,
{
    if n > 0 {
        lemma_sum(h, n - 1);
        assert(blanked(h).take(n).drop_last() =~= blanked(h).take(n - 1));
    }
}

/// A header is sound if and only if its checksum field holds the sum of its bytes, with
/// eight spaces in place of the field.
pub proof fn law_header_checksum(h: Seq<u8>)
    requires
        h.len() == 512,
    ensures
        is_sound_header(h) <==> octal(h.subrange(148, 156)) == Some(sum_of(blanked(h))),
{
    lemma_sum(h, 512);
    assert(blanked(h).take(512) =~= blanked(h));
}

/// What is read from an offset on depends on what stands there only.
proof fn lemma_from_offset(a: Seq<u8>, b: Seq<u8>, skipped: int, off: int)
    requires
        0 <= skipped <= a.len(),
        0 <= off,
        b == a.skip(skipped),
    ensures
        files_from(a, skipped + off) == files_from(b, off),
    decreases b.len() + 512 - off,
{
    if off <= b.len() {
        let h = a.subrange(skipped + off, skipped + off + 512);
        if off + 512 <= b.len() {
            assert(b.subrange(off, off + 512) =~= h);
            assert(header_at(a, skipped + off) == header_at(b, off));
            if let Some((g, size)) = header_at(b, off) {
                if size >= 0 {
                    lemma_from_offset(a, b, skipped, next_header(off, size));
                    assert(a.subrange(skipped + off + 512, skipped + off + 512 + size) =~= b.subrange(
                        off + 512,
                        off + 512 + size,
                    ));
                }
            }
        }
    }
}

/// Whether a block is the header of something with `size` bytes.
pub open spec fn is_header(h: Seq<u8>, size: int) -> bool {
    &&& h.len() == 512
    &&& is_sound_header(h)
    &&& octal(h.subrange(124, 136)) == Some(size)
    &&& exists|i: int| 0 <= i < 512 && #[trigger] h[i] != 0
}

/// An archive that starts with a header and its data, filled up to whole blocks, holds what
/// the rest of it holds and, where the header is that of a regular file, in front of that
/// the file: with its path, and with exactly its data.
pub proof fn law_files_follow_each_other(h: Seq<u8>, data: Seq<u8>, pad: Seq<u8>, rest: Seq<u8>)
    requires
        is_header(h, data.len() as int),
        pad.len() < 512,
        (data.len() + pad.len()) % 512 == 0,
    ensures
        h[156] == 0x30 || h[156] == 0 ==> files(h + data + pad + rest) == seq![(path_of(h), data)]
            + files(rest),
        h[156] != 0x30 && h[156] != 0 ==> files(h + data + pad + rest) == files(rest),
{
    let a = h + data + pad + rest;
    let size = data.len() as int;
    assert(a.subrange(0, 512) =~= h);
    assert(a.subrange(512, 512 + size) =~= data);
    let next = next_header(0, size);
    assert(next == 512 + size + pad.len());
    assert(a.skip(next) =~= rest);
    lemma_from_offset(a, rest, next, 0);
    assert(header_at(a, 0) == Some((h, size)));
}

/// An archive ends at a block of zeros, at a block whose checksum is wrong, and where less
/// than a block is left.
pub proof fn law_archive_ends(block: Seq<u8>, rest: Seq<u8>)
    requires
        block.len() == 512,
        (forall|i: int| 0 <= i < 512 ==> block[i] == 0) || !is_sound_header(block),
    ensures
        files(block + rest).len() == 0,
        rest.len() < 512 ==> files(rest).len() == 0,
{
    assert((block + rest).subrange(0, 512) =~= block);
}

/// The path in a header is its name, up to the first zero byte, or, where a ustar header
/// has a prefix, the prefix, a slash and the name.
pub proof fn law_paths_in_headers(h: Seq<u8>, n: int, p: int)
    requires
        h.len() == 512,
        0 <= n <= 100,
        0 <= p <= 155,
        forall|i: int| 0 <= i < n ==> h[i] != 0,
        n < 100 ==> h[n] == 0,
        forall|i: int| 345 <= i < 345 + p ==> #[trigger] h[i] != 0,
        p < 155 ==> h[345 + p] == 0,
    ensures
        ({
            let name = utf8_lossy(h.take(n));
            let ustar = h.subrange(257, 262) == seq![0x75u8, 0x73, 0x74, 0x61, 0x72];
            path_of(h) == if ustar && p > 0 {
                normal(utf8_lossy(h.subrange(345, 345 + p)) + seq!['/'] + name)
            } else {
                normal(name)
            }
        }),
{
    let magic = seq![0x75u8, 0x73, 0x74, 0x61, 0x72];
    let found = h.subrange(257, 262);
    if super::is_ustar(h) {
        assert(found =~= magic);
    }
    if found == magic {
        assert(found[0] == 0x75 && found[1] == 0x73 && found[2] == 0x74 && found[3] == 0x61
            && found[4] == 0x72);
    }
    lemma_until_nul(h.subrange(0, 100), n);
    lemma_until_nul(h.subrange(345, 500), p);
    assert(h.subrange(0, 100).take(n) =~= h.take(n));
    assert(h.subrange(345, 500).take(p) =~= h.subrange(345, 345 + p));
    let (prefix, name) = (utf8_lossy(h.subrange(345, 345 + p)), utf8_lossy(h.take(n)));
    assert(prefix.push('/') + name =~= prefix + seq!['/'] + name);
}

proof fn lemma_until_nul(f: Seq<u8>, n: int)
    requires
        0 <= n <= f.len(),
        forall|i: int| 0 <= i < n ==> f[i] != 0,
        n < f.len() ==> f[n] == 0,
    ensures
        until_nul(f) == f.take(n),
{
    lemma_end(f, 0, n);
}

proof fn lemma_end(f: Seq<u8>, i: int, n: int)
    requires
        0 <= i <= n <= f.len(),
        forall|k: int| 0 <= k < n ==> f[k] != 0,
        n < f.len() ==> f[n] == 0,
    ensures
        super::field_end(f, i) == n,
    decreases n - i,
{
    if i < n {
        lemma_end(f, i + 1, n);
    }
}

/// The normal form of a path is what is left of it at its end once it starts neither with
/// `/` nor with `./`; nothing is taken away from a path that starts with neither.
pub proof fn law_normal_form(s: Seq<char>)
    ensures
        ({
            let t = normal(s);
            &&& t.len() <= s.len()
            &&& t == s.skip(s.len() - t.len())
            &&& t.len() >= 1 ==> t[0] != '/'
            &&& t.len() >= 2 ==> !(t[0] == '.' && t[1] == '/')
            &&& forall|i: int|
                0 <= i < s.len() - t.len() ==> #[trigger] s[i] == '/' || (s[i] == '.' && i + 1
                    < s.len() - t.len() && s[i + 1] == '/')
        }),
    decreases s.len(),
{
    let t = normal(s);
    if s.len() >= 2 && s[0] == '.' && s[1] == '/' {
        law_normal_form(s.skip(2));
        assert(s.skip(2).skip(s.len() - 2 - t.len()) =~= s.skip(s.len() - t.len()));
        assert forall|i: int| 0 <= i < s.len() - t.len() implies #[trigger] s[i] == '/' || (s[i]
            == '.' && i + 1 < s.len() - t.len() && s[i + 1] == '/') by {
            if i >= 2 {
                assert(s.skip(2)[i - 2] == s[i]);
                if i + 1 < s.len() {
                    assert(s.skip(2)[i - 2 + 1] == s[i + 1]);
                }
            }
        }
    } else if s.len() >= 1 && s[0] == '/' {
        law_normal_form(s.skip(1));
        assert(s.skip(1).skip(s.len() - 1 - t.len()) =~= s.skip(s.len() - t.len()));
        assert forall|i: int| 0 <= i < s.len() - t.len() implies #[trigger] s[i] == '/' || (s[i]
            == '.' && i + 1 < s.len() - t.len() && s[i + 1] == '/') by {
            if i >= 1 {
                assert(s.skip(1)[i - 1] == s[i]);
                if i + 1 < s.len() {
                    assert(s.skip(1)[i - 1 + 1] == s[i + 1]);
                }
            }
        }
    } else {
        assert(s.skip(0) =~= s);
    }
}

/// What is found under a path is the first file with that path; nothing is found where no
/// file has it.
pub proof fn law_first_file_is_found(f: Seq<(Seq<char>, Seq<u8>)>, name: Seq<char>)
    ensures
        match file_named(f, name) {
            Some(d) => exists|i: int|
                0 <= i < f.len() && #[trigger] f[i] == (name, d) && forall|k: int|
                    0 <= k < i ==> (#[trigger] f[k]).0 != name,
            None => forall|k: int| 0 <= k < f.len() ==> (#[trigger] f[k]).0 != name,
        },
    decreases f.len(),
{
    if f.len() > 0 {
        let rest = f.drop_first();
        if f[0].0 == name {
            assert(f[0] == (name, f[0].1));
        } else {
            law_first_file_is_found(rest, name);
            match file_named(rest, name) {
                Some(d) => {
                    let i = choose|i: int|
                        0 <= i < rest.len() && #[trigger] rest[i] == (name, d) && forall|k: int|
                            0 <= k < i ==> (#[trigger] rest[k]).0 != name;
                    assert(f[i + 1] == (name, d));
                    assert forall|k: int| 0 <= k < i + 1 implies (#[trigger] f[k]).0 != name by {
                        if k > 0 {
                            assert(rest[k - 1] == f[k]);
                        }
                    }
                },
                None => {
                    assert forall|k: int| 0 <= k < f.len() implies (#[trigger] f[k]).0 != name by {
                        if k > 0 {
                            assert(rest[k - 1] == f[k]);
                        }
                    }
                },
            }
        }
    }
}

} // verus!
