//! File names: UTF-16 units, 8.3 names and long-name records, and paths.

use vstd::prelude::*;
use crate::text::{
    after_last, ascii_upper, before_last, decimal, decimal_of, last_index, lemma_char_range,
    lemma_split_nonempty, split, split_at_char, to_ascii_upper, views,
};
use super::FatError;

verus! {

/// The UTF-16 units of one character.
pub open spec fn utf16_of(c: char) -> Seq<u16> {
    if (c as u32) < 0x1_0000 {
        seq![c as u16]
    } else {
        seq![
            (0xd800 + (c as u32 - 0x1_0000) / 0x400) as u16,
            (0xdc00 + (c as u32 - 0x1_0000) % 0x400) as u16,
        ]
    }
}

/// A string in UTF-16.
pub open spec fn utf16(s: Seq<char>) -> Seq<u16>
    decreases s.len(),
{
    if s.len() == 0 {
        Seq::empty()
    } else {
        utf16_of(s[0]) + utf16(s.skip(1))
    }
}

/// The string that UTF-16 units stand for, with U+FFFD for each unit that
/// stands for nothing.
pub open spec fn from_utf16(u: Seq<u16>) -> Seq<char>
    decreases u.len(),
{
    if u.len() == 0 {
        Seq::empty()
    } else if u[0] < 0xd800 || u[0] >= 0xe000 {
        seq![u[0] as char] + from_utf16(u.skip(1))
    } else if u[0] < 0xdc00 && u.len() >= 2 && 0xdc00 <= u[1] < 0xe000 {
        seq![(0x1_0000 + (u[0] - 0xd800) * 0x400 + (u[1] - 0xdc00)) as char] + from_utf16(u.skip(2))
    } else {
        seq!['\u{fffd}'] + from_utf16(u.skip(1))
    }
}

/// Decoding gives back the string that was encoded.
pub proof fn lemma_utf16_round_trip(s: Seq<char>)
    ensures
        from_utf16(utf16(s)) == s,
    decreases s.len(),
{
    if s.len() > 0 {
        let rest = utf16(s.skip(1));
        lemma_char_range(s[0]);
        lemma_utf16_round_trip(s.skip(1));
        let u = utf16(s);
        if (s[0] as u32) < 0x1_0000 {
            assert(u.skip(1) =~= rest);
        } else {
            assert(u.skip(2) =~= rest);
        }
        assert(seq![s[0]] + s.skip(1) =~= s);
    }
}

pub fn encode_utf16(s: &[char]) -> (units: Vec<u16>)
    ensures
        units@ == utf16(s@),
{
    let mut units: Vec<u16> = Vec::new();
    let mut i: usize = 0;
    assert(s@.skip(0) =~= s@);
    assert(units@ + utf16(s@) =~= utf16(s@));
    while i < s.len()
        invariant
            i <= s@.len(),
            units@ + utf16(s@.skip(i as int)) == utf16(s@),
        decreases s@.len() - i,
    {
        let ghost before = units@;
        proof {
            lemma_char_range(s@[i as int]);
        }
        let code: u32 = s[i] as u32;
        if code < 0x1_0000 {
            units.push(code as u16);
        } else {
            units.push((0xd800 + (code - 0x1_0000) / 0x400) as u16);
            units.push((0xdc00 + (code - 0x1_0000) % 0x400) as u16);
        }
        i += 1;
        proof {
            assert(s@.skip(i - 1).skip(1) =~= s@.skip(i as int));
            assert(units@ =~= before + utf16_of(s@[i - 1]));
            assert(units@ + utf16(s@.skip(i as int)) =~= before + utf16(s@.skip(i - 1)));
        }
    }
    assert(units@ + utf16(s@.skip(i as int)) =~= units@);
    units
}

pub fn decode_utf16(u: &[u16]) -> (s: Vec<char>)
    ensures
        s@ == from_utf16(u@),
{
    let mut s: Vec<char> = Vec::new();
    let mut i: usize = 0;
    assert(u@.skip(0) =~= u@);
    assert(s@ + from_utf16(u@) =~= from_utf16(u@));
    while i < u.len()
        invariant
            i <= u@.len(),
            s@ + from_utf16(u@.skip(i as int)) == from_utf16(u@),
        decreases u@.len() - i,
    {
        let ghost before = s@;
        let ghost start = i as int;
        let unit: u16 = u[i];
        if unit < 0xd800 || unit >= 0xe000 {
            s.push(char_of(unit as u32));
            i += 1;
        } else if unit < 0xdc00 && i + 1 < u.len() && 0xdc00 <= u[i + 1] && u[i + 1] < 0xe000 {
            s.push(
                char_of(0x1_0000 + (unit as u32 - 0xd800) * 0x400 + (u[i + 1] as u32 - 0xdc00)),
            );
            i += 2;
        } else {
            s.push('\u{fffd}');
            i += 1;
        }
        proof {
            assert(u@.skip(start).skip(i - start) =~= u@.skip(i as int));
            assert(s@ + from_utf16(u@.skip(i as int)) =~= before + from_utf16(u@.skip(start)));
        }
    }
    assert(s@ + from_utf16(u@.skip(i as int)) =~= s@);
    s
}

/// The character with a given code, where there is one.
fn char_of(code: u32) -> (c: char)
    requires
        code < 0xd800 || 0xe000 <= code <= 0x10ffff,
    ensures
        c == code as char,
{
    match char::from_u32(code) {
        Some(c) => c,
        None => '\u{fffd}',
    }
}

/// The part of `u` before its first terminator or filler unit.
pub open spec fn before_end(u: Seq<u16>) -> Seq<u16>
    decreases u.len(),
{
    if u.len() == 0 || u[0] == 0 || u[0] == 0xffff {
        Seq::empty()
    } else {
        seq![u[0]] + before_end(u.skip(1))
    }
}

pub fn cut_at_end(u: &[u16]) -> (v: Vec<u16>)
    ensures
        v@ == before_end(u@),
{
    let mut v: Vec<u16> = Vec::new();
    let mut i: usize = 0;
    assert(u@.skip(0) =~= u@);
    assert(v@ + before_end(u@) =~= before_end(u@));
    while i < u.len()
        invariant
            i <= u@.len(),
            v@ + before_end(u@.skip(i as int)) == before_end(u@),
        decreases u@.len() - i,
    {
        if u[i] == 0 || u[i] == 0xffff {
            assert(v@ + before_end(u@.skip(i as int)) =~= v@);
            return v;
        }
        let ghost before = v@;
        v.push(u[i]);
        i += 1;
        proof {
            assert(u@.skip(i - 1).skip(1) =~= u@.skip(i as int));
            assert(v@ + before_end(u@.skip(i as int)) =~= before + before_end(u@.skip(i - 1)));
        }
    }
    assert(v@ + before_end(u@.skip(i as int)) =~= v@);
    v
}

/// The bytes before the first space, as characters.
pub open spec fn before_space(b: Seq<u8>) -> Seq<char>
    decreases b.len(),
{
    if b.len() == 0 || b[0] == 0x20 {
        Seq::empty()
    } else {
        seq![b[0] as char] + before_space(b.skip(1))
    }
}

/// The name that eleven raw bytes stand for: base and extension, each up to
/// its padding, with a dot between them where there is an extension.
pub open spec fn short_text(raw: Seq<u8>) -> Seq<char> {
    let base = before_space(raw.subrange(0, 8));
    let ext = before_space(raw.subrange(8, 11));
    if ext.len() == 0 {
        base
    } else {
        base + seq!['.'] + ext
    }
}

fn push_before_space(out: &mut Vec<char>, raw: &[u8], from: usize, to: usize)
    requires
        from <= to <= raw@.len(),
    ensures
        final(out)@ == old(out)@ + before_space(raw@.subrange(from as int, to as int)),
{
    let mut i: usize = from;
    while i < to
        invariant
            from <= i <= to <= raw@.len(),
            out@ + before_space(raw@.subrange(i as int, to as int)) == old(out)@ + before_space(
                raw@.subrange(from as int, to as int),
            ),
        decreases to - i,
    {
        if raw[i] == 0x20 {
            assert(out@ + before_space(raw@.subrange(i as int, to as int)) =~= out@);
            return ;
        }
        let ghost before = out@;
        out.push(raw[i] as char);
        i += 1;
        proof {
            assert(raw@.subrange(i - 1, to as int).skip(1) =~= raw@.subrange(i as int, to as int));
            assert(out@ + before_space(raw@.subrange(i as int, to as int)) =~= before
                + before_space(raw@.subrange(i - 1, to as int)));
        }
    }
    assert(out@ + before_space(raw@.subrange(i as int, to as int)) =~= out@);
}

pub fn short_name(raw: &[u8]) -> (name: Vec<char>)
    requires
        raw@.len() >= 11,
    ensures
        name@ == short_text(raw@),
{
    let mut name: Vec<char> = Vec::new();
    push_before_space(&mut name, raw, 0, 8);
    let mut ext: Vec<char> = Vec::new();
    push_before_space(&mut ext, raw, 8, 11);
    assert(name@ =~= before_space(raw@.subrange(0, 8)));
    assert(ext@ =~= before_space(raw@.subrange(8, 11)));
    if ext.len() > 0 {
        name.push('.');
        name.append(&mut ext);
        assert(name@ =~= short_text(raw@));
    }
    name
}

/// Characters that an 8.3 name may hold besides letters and digits.
pub open spec fn is_short_mark(c: char) -> bool {
    c == '$' || c == '%' || c == '\'' || c == '-' || c == '_' || c == '@' || c == '~' || c == '`'
        || c == '!' || c == '(' || c == ')' || c == '{' || c == '}' || c == '^' || c == '#' || c
        == '&'
}

pub open spec fn is_alphanumeric(c: char) -> bool {
    'a' <= c <= 'z' || 'A' <= c <= 'Z' || '0' <= c <= '9'
}

pub open spec fn is_short_char(c: char) -> bool {
    is_alphanumeric(c) || is_short_mark(c)
}

fn short_char(c: char) -> (r: bool)
    ensures
        r == is_short_char(c),
{
    'a' <= c && c <= 'z' || 'A' <= c && c <= 'Z' || '0' <= c && c <= '9' || c == '$' || c == '%'
        || c == '\'' || c == '-' || c == '_' || c == '@' || c == '~' || c == '`' || c == '!' || c
        == '(' || c == ')' || c == '{' || c == '}' || c == '^' || c == '#' || c == '&'
}

/// Base and extension of a name with at most one dot.
pub open spec fn fits_short(parts: Seq<Seq<char>>) -> bool {
    &&& parts.len() <= 2
    &&& 1 <= parts[0].len() <= 8
    &&& forall|i: int| 0 <= i < parts[0].len() ==> is_short_char(#[trigger] parts[0][i])
    &&& parts.len() == 2 ==> {
        &&& parts[1].len() <= 3
        &&& forall|i: int| 0 <= i < parts[1].len() ==> is_short_char(#[trigger] parts[1][i])
    }
}

/// Base and extension in capitals, padded with spaces to eight and three bytes.
pub open spec fn padded_short(base: Seq<char>, ext: Seq<char>) -> Seq<u8> {
    Seq::new(
        11,
        |i: int|
            if i < 8 && i < base.len() {
                ascii_upper(base[i]) as u8
            } else if i >= 8 && i - 8 < ext.len() {
                ascii_upper(ext[i - 8]) as u8
            } else {
                0x20u8
            },
    )
}

/// The 8.3 form of a name that has one.
pub open spec fn short_of(name: Seq<char>) -> Result<Seq<u8>, FatError> {
    let parts = split(name, '.');
    if fits_short(parts) {
        Ok(
            padded_short(
                parts[0],
                if parts.len() == 2 {
                    parts[1]
                } else {
                    Seq::empty()
                },
            ),
        )
    } else {
        Err(FatError::InvalidName)
    }
}

fn all_short(part: &[char]) -> (r: bool)
    ensures
        r == forall|i: int| 0 <= i < part@.len() ==> is_short_char(#[trigger] part@[i]),
{
    let mut i: usize = 0;
    while i < part.len()
        invariant
            i <= part@.len(),
            forall|k: int| 0 <= k < i ==> is_short_char(#[trigger] part@[k]),
        decreases part@.len() - i,
    {
        if !short_char(part[i]) {
            return false;
        }
        i += 1;
    }
    true
}

pub fn to_short_name(name: &[char]) -> (r: Result<[u8; 11], FatError>)
    ensures
        match r {
            Ok(raw) => short_of(name@) == Ok::<Seq<u8>, FatError>(raw@),
            Err(e) => short_of(name@) == Err::<Seq<u8>, FatError>(e),
        },
{
    let parts: Vec<Vec<char>> = split_at_char(name, '.');
    proof {
        lemma_split_nonempty(name@, '.');
        assert(views(parts@).len() == parts@.len());
        assert(views(parts@)[0] == parts@[0]@);
        if parts@.len() >= 2 {
            assert(views(parts@)[1] == parts@[1]@);
        }
    }
    if parts.len() > 2 || parts[0].len() == 0 || parts[0].len() > 8 || !all_short(
        parts[0].as_slice(),
    ) {
        return Err(FatError::InvalidName);
    }
    if parts.len() == 2 && (parts[1].len() > 3 || !all_short(parts[1].as_slice())) {
        return Err(FatError::InvalidName);
    }
    let ghost base = parts@[0]@;
    let ghost ext = if parts@.len() == 2 {
        parts@[1]@
    } else {
        Seq::empty()
    };
    let mut raw: [u8; 11] = [0x20u8; 11];
    let mut i: usize = 0;
    while i < parts[0].len()
        invariant
            parts@.len() >= 1,
            base == parts@[0]@,
            base.len() <= 8,
            i <= base.len(),
            raw@.len() == 11,
            forall|k: int| 0 <= k < base.len() ==> is_short_char(#[trigger] base[k]),
            forall|k: int|
                0 <= k < 11 ==> #[trigger] raw@[k] == if k < i {
                    ascii_upper(base[k]) as u8
                } else {
                    0x20u8
                },
        decreases base.len() - i,
    {
        assert(is_short_char(base[i as int]));
        raw[i] = to_ascii_upper(parts[0][i]) as u8;
        i += 1;
    }
    if parts.len() == 2 {
        let mut j: usize = 0;
        while j < parts[1].len()
            invariant
                parts@.len() == 2,
                ext == parts@[1]@,
                ext.len() <= 3,
                base.len() <= 8,
                j <= ext.len(),
                raw@.len() == 11,
                forall|k: int| 0 <= k < ext.len() ==> is_short_char(#[trigger] ext[k]),
                forall|k: int|
                    0 <= k < 11 ==> #[trigger] raw@[k] == if k < base.len() {
                        ascii_upper(base[k]) as u8
                    } else if 8 <= k < 8 + j {
                        ascii_upper(ext[k - 8]) as u8
                    } else {
                        0x20u8
                    },
            decreases ext.len() - j,
        {
            assert(is_short_char(ext[j as int]));
            raw[8 + j] = to_ascii_upper(parts[1][j]) as u8;
            j += 1;
        }
    }
    assert(raw@ =~= padded_short(base, ext));
    Ok(raw)
}

/// The character that stands for `c` in a generated 8.3 name.
pub open spec fn alias_char(c: char) -> char {
    if is_short_char(c) {
        ascii_upper(c)
    } else {
        '_'
    }
}

/// A part of a name as a generated 8.3 name holds it: without dots.
pub open spec fn alias_part(s: Seq<char>) -> Seq<char>
    decreases s.len(),
{
    if s.len() == 0 {
        Seq::empty()
    } else if s.last() == '.' {
        alias_part(s.drop_last())
    } else {
        alias_part(s.drop_last()).push(alias_char(s.last()))
    }
}

pub proof fn lemma_alias_part(s: Seq<char>)
    ensures
        forall|i: int|
            0 <= i < alias_part(s).len() ==> is_short_char(#[trigger] alias_part(s)[i])
                && !('a' <= alias_part(s)[i] <= 'z'),
    decreases s.len(),
{
    if s.len() > 0 {
        lemma_alias_part(s.drop_last());
        let rest = alias_part(s.drop_last());
        lemma_alias_char(s.last());
        assert forall|i: int| 0 <= i < alias_part(s).len() implies is_short_char(
            #[trigger] alias_part(s)[i],
        ) && !('a' <= alias_part(s)[i] <= 'z') by {
            if i < rest.len() {
                assert(alias_part(s)[i] == rest[i]);
            }
        }
    }
}

proof fn lemma_alias_char(c: char)
    ensures
        is_short_char(alias_char(c)),
        !('a' <= alias_char(c) <= 'z'),
{
}

pub fn sanitize(s: &[char]) -> (v: Vec<char>)
    ensures
        v@ == alias_part(s@),
{
    let mut v: Vec<char> = Vec::new();
    let mut i: usize = 0;
    while i < s.len()
        invariant
            i <= s@.len(),
            v@ == alias_part(s@.take(i as int)),
        decreases s@.len() - i,
    {
        if s[i] != '.' {
            v.push(
                if short_char(s[i]) {
                    to_ascii_upper(s[i])
                } else {
                    '_'
                },
            );
        }
        i += 1;
        assert(s@.take(i as int).drop_last() =~= s@.take(i - 1));
    }
    assert(s@.take(i as int) =~= s@);
    v
}

/// The stem that generated 8.3 names of `name` start with.
pub open spec fn alias_stem(name: Seq<char>) -> Seq<char> {
    let stem = alias_part(
        if last_index(name, '.') < 0 {
            name
        } else {
            before_last(name, '.')
        },
    );
    if stem.len() == 0 {
        seq!['F', 'I', 'L', 'E']
    } else {
        stem
    }
}

/// The extension of generated 8.3 names of `name`.
pub open spec fn alias_ext(name: Seq<char>) -> Seq<char> {
    let ext = if last_index(name, '.') < 0 {
        Seq::empty()
    } else {
        alias_part(after_last(name, '.'))
    };
    if ext.len() > 3 {
        ext.take(3)
    } else {
        ext
    }
}

/// The generated 8.3 name with the given number: as much of the stem as fits
/// before a tilde and the number, then the extension.
pub open spec fn alias(stem: Seq<char>, ext: Seq<char>, serial: int) -> Seq<u8> {
    let suffix = seq!['~'] + decimal(serial as nat);
    let room = 8 - suffix.len();
    let prefix = if stem.len() < room {
        stem
    } else {
        stem.take(room)
    };
    let base = prefix + suffix;
    Seq::new(
        11,
        |i: int|
            if i < 8 && i < base.len() {
                base[i] as u8
            } else if i >= 8 && i - 8 < ext.len() {
                ext[i - 8] as u8
            } else {
                0x20u8
            },
    )
}

pub proof fn lemma_decimal_short(n: nat)
    requires
        n < 100_000,
    ensures
        1 <= decimal(n).len() <= 5,
        forall|i: int| 0 <= i < decimal(n).len() ==> '0' <= #[trigger] decimal(n)[i] <= '9',
{
    reveal_with_fuel(decimal, 5);
}

fn put_chars(raw: &mut [u8; 11], at: usize, chars: &[char], n: usize)
    requires
        n <= chars@.len(),
        at + n <= 11,
        forall|i: int| 0 <= i < n ==> #[trigger] chars@[i] <= '\u{7f}',
    ensures
        final(raw)@ == Seq::new(
            11,
            |i: int|
                if at <= i < at + n {
                    chars@[i - at] as u8
                } else {
                    old(raw)@[i]
                },
        ),
{
    let mut i: usize = 0;
    while i < n
        invariant
            i <= n <= chars@.len(),
            at + n <= 11,
            raw@.len() == 11,
            forall|k: int| 0 <= k < n ==> #[trigger] chars@[k] <= '\u{7f}',
            forall|k: int|
                0 <= k < 11 ==> #[trigger] raw@[k] == if at <= k < at + i {
                    chars@[k - at] as u8
                } else {
                    old(raw)@[k]
                },
        decreases n - i,
    {
        raw[at + i] = chars[i] as u8;
        i += 1;
    }
    assert(raw@ =~= Seq::new(
        11,
        |i: int|
            if at <= i < at + n {
                chars@[i - at] as u8
            } else {
                old(raw)@[i]
            },
    ));
}

/// The generated 8.3 name of the given number.
pub fn alias_of(stem: &[char], ext: &[char], serial: u32) -> (raw: [u8; 11])
    requires
        serial < 100_000,
        ext@.len() <= 3,
        forall|i: int| 0 <= i < stem@.len() ==> #[trigger] stem@[i] <= '\u{7f}',
        forall|i: int| 0 <= i < ext@.len() ==> #[trigger] ext@[i] <= '\u{7f}',
    ensures
        raw@ == alias(stem@, ext@, serial as int),
{
    let number: Vec<char> = decimal_of(serial as u64);
    proof {
        lemma_decimal_short(serial as nat);
    }
    let room: usize = 7 - number.len();
    let n: usize = if stem.len() < room {
        stem.len()
    } else {
        room
    };
    let mut raw: [u8; 11] = [0x20u8; 11];
    put_chars(&mut raw, 0, stem, n);
    raw[n] = 0x7e;
    put_chars(&mut raw, n + 1, number.as_slice(), number.len());
    put_chars(&mut raw, 8, ext, ext.len());
    assert(raw@ =~= alias(stem@, ext@, serial as int));
    raw
}

/// Units per long-name record.
pub const LFN_UNITS: usize = 13;

/// Where unit `i` of a long-name record stands in it.
pub open spec fn lfn_position(i: int) -> int {
    if i < 5 {
        1 + 2 * i
    } else if i < 11 {
        4 + 2 * i
    } else {
        6 + 2 * i
    }
}

pub(crate) fn lfn_offset(i: usize) -> (p: usize)
    requires
        i < LFN_UNITS,
    ensures
        p == lfn_position(i as int),
{
    if i < 5 {
        1 + 2 * i
    } else if i < 11 {
        4 + 2 * i
    } else {
        6 + 2 * i
    }
}

/// Unit `i` of a long name spread over records: its units, a terminator where
/// there is room, then filler.
pub open spec fn lfn_unit(units: Seq<u16>, i: int) -> u16 {
    if i < units.len() {
        units[i]
    } else if i == units.len() {
        0
    } else {
        0xffff
    }
}

/// The number of records that a long name of `n` units takes.
pub open spec fn lfn_count(n: int) -> int {
    (n + 13) / 13
}

/// The checksum of an 8.3 name that its long-name records carry.
pub open spec fn short_checksum(short: Seq<u8>) -> u8
    decreases short.len(),
{
    if short.len() == 0 {
        0
    } else {
        let c = short_checksum(short.drop_last());
        ((c % 2 * 0x80 + c / 2 + short.last()) % 0x100) as u8
    }
}

/// The unit that byte `b` of a long-name record belongs to.
pub open spec fn lfn_index(b: int) -> int {
    if b < 11 {
        (b - 1) / 2
    } else if b < 26 {
        (b - 4) / 2
    } else {
        (b - 6) / 2
    }
}

/// Byte `half` of unit `i` of a long name.
pub open spec fn lfn_byte(units: Seq<u16>, i: int, half: int) -> u8 {
    if half == 0 {
        (lfn_unit(units, i) % 0x100) as u8
    } else {
        (lfn_unit(units, i) / 0x100) as u8
    }
}

/// The long-name record number `order`.
pub open spec fn lfn_bytes(units: Seq<u16>, order: int, checksum: u8) -> Seq<u8> {
    Seq::new(
        32,
        |b: int|
            if b == 0 {
                (order + if order == lfn_count(units.len() as int) {
                    0x40int
                } else {
                    0
                }) as u8
            } else if b == 11 {
                0x0f
            } else if b == 13 {
                checksum
            } else if b == 12 || b == 26 || b == 27 {
                0
            } else {
                lfn_byte(
                    units,
                    13 * (order - 1) + lfn_index(b),
                    b - lfn_position(lfn_index(b)),
                )
            },
    )
}

/// Units that no long name may hold.
pub open spec fn is_refused_unit(u: u16) -> bool {
    u < 0x20 || u == 0x22 || u == 0x2a || u == 0x2f || u == 0x3a || u == 0x3c || u == 0x3e || u
        == 0x3f || u == 0x5c || u == 0x7c
}

/// Whether a long name can be written down.
pub open spec fn fits_long(units: Seq<u16>) -> bool {
    &&& 1 <= units.len() <= 255
    &&& forall|i: int| 0 <= i < units.len() ==> !is_refused_unit(#[trigger] units[i])
}

fn refused_unit(u: u16) -> (r: bool)
    ensures
        r == is_refused_unit(u),
{
    u < 0x20 || u == 0x22 || u == 0x2a || u == 0x2f || u == 0x3a || u == 0x3c || u == 0x3e || u
        == 0x3f || u == 0x5c || u == 0x7c
}

fn checksum_of(short: &[u8; 11]) -> (c: u8)
    ensures
        c == short_checksum(short@),
{
    let mut c: u8 = 0;
    let mut i: usize = 0;
    while i < 11
        invariant
            i <= 11,
            short@.len() == 11,
            c == short_checksum(short@.take(i as int)),
        decreases 11 - i,
    {
        let rotated: u8 = c % 2 * 0x80 + c / 2;
        c = rotated.wrapping_add(short[i]);
        i += 1;
        assert(short@.take(i as int).drop_last() =~= short@.take(i - 1));
    }
    assert(short@.take(11) =~= short@);
    c
}

fn lfn_record(units: &[u16], order: usize, checksum: u8) -> (e: [u8; 32])
    requires
        1 <= units@.len() <= 255,
        1 <= order <= lfn_count(units@.len() as int),
    ensures
        e@ == lfn_bytes(units@, order as int, checksum),
{
    let count: usize = (units.len() + 13) / 13;
    let mut e: [u8; 32] = [0u8; 32];
    e[0] = if order == count {
        order as u8 + 0x40
    } else {
        order as u8
    };
    e[11] = 0x0f;
    e[13] = checksum;
    let ghost want = lfn_bytes(units@, order as int, checksum);
    let mut i: usize = 0;
    while i < 13
        invariant
            i <= 13,
            1 <= units@.len() <= 255,
            1 <= order <= lfn_count(units@.len() as int),
            want == lfn_bytes(units@, order as int, checksum),
            e@.len() == 32,
            e@[0] == want[0],
            e@[11] == 0x0f,
            e@[12] == 0,
            e@[13] == checksum,
            e@[26] == 0,
            e@[27] == 0,
            forall|b: int|
                1 <= b < 32 && b != 11 && b != 12 && b != 13 && b != 26 && b != 27 && lfn_index(b)
                    < i ==> #[trigger] e@[b] == want[b],
        decreases 13 - i,
    {
        let index: usize = (order - 1) * 13 + i;
        let unit: u16 = if index < units.len() {
            units[index]
        } else if index == units.len() {
            0
        } else {
            0xffff
        };
        let at: usize = lfn_offset(i);
        e[at] = (unit % 0x100) as u8;
        e[at + 1] = (unit / 0x100) as u8;
        i += 1;
    }
    assert(e@ =~= want);
    e
}

/// The long-name records of `units`, last piece first.
pub open spec fn lfn_all(units: Seq<u16>, checksum: u8) -> Seq<Seq<u8>> {
    Seq::new(
        lfn_count(units.len() as int) as nat,
        |k: int| lfn_bytes(units, lfn_count(units.len() as int) - k, checksum),
    )
}

/// Records as mathematical values.
pub open spec fn record_views(records: Seq<[u8; 32]>) -> Seq<Seq<u8>> {
    Seq::new(records.len(), |i: int| records[i]@)
}

/// The records that carry a long name in front of its 8.3 entry.
pub fn lfn_records(name: &[char], short: &[u8; 11]) -> (r: Result<Vec<[u8; 32]>, FatError>)
    ensures
        match r {
            Ok(records) => fits_long(utf16(name@)) && record_views(records@) == lfn_all(
                utf16(name@),
                short_checksum(short@),
            ),
            Err(e) => !fits_long(utf16(name@)) && e == FatError::InvalidName,
        },
{
    let units: Vec<u16> = encode_utf16(name);
    if units.len() == 0 || units.len() > 255 {
        return Err(FatError::InvalidName);
    }
    let mut i: usize = 0;
    while i < units.len()
        invariant
            i <= units@.len(),
            units@ == utf16(name@),
            forall|k: int| 0 <= k < i ==> !is_refused_unit(#[trigger] units@[k]),
        decreases units@.len() - i,
    {
        if refused_unit(units[i]) {
            assert(is_refused_unit(units@[i as int]));
            return Err(FatError::InvalidName);
        }
        i += 1;
    }
    let count: usize = (units.len() + 13) / 13;
    let checksum: u8 = checksum_of(short);
    let mut records: Vec<[u8; 32]> = Vec::new();
    let mut order: usize = count;
    while order > 0
        invariant
            order <= count,
            1 <= units@.len() <= 255,
            count == lfn_count(units@.len() as int),
            records@.len() == count - order,
            forall|k: int|
                0 <= k < records@.len() ==> (#[trigger] records@[k])@ == lfn_bytes(
                    units@,
                    count - k,
                    checksum,
                ),
        decreases order,
    {
        records.push(lfn_record(units.as_slice(), order, checksum));
        order -= 1;
    }
    assert(record_views(records@) =~= lfn_all(units@, checksum));
    Ok(records)
}

} // verus!
