//! What 8.3 names stand for.

use vstd::prelude::*;
use crate::text::{ascii_upper, same_name, split};
use super::names::{before_space, short_of, short_text};
use super::FatError;

verus! {

/// Whether a character may stand in an 8.3 name: letters, digits and some marks.
pub open spec fn is_allowed(c: char) -> bool {
    ||| 'a' <= c <= 'z'
    ||| 'A' <= c <= 'Z'
    ||| '0' <= c <= '9'
    ||| seq![
        '$',
        '%',
        '\'',
        '-',
        '_',
        '@',
        '~',
        '`',
        '!',
        '(',
        ')',
        '{',
        '}',
        '^',
        '#',
        '&',
    ].contains(c)
}

/// Whether a base and an extension, which may be empty, make up an 8.3 name.
pub open spec fn is_short(base: Seq<char>, ext: Seq<char>) -> bool {
    &&& 1 <= base.len() <= 8
    &&& ext.len() <= 3
    &&& forall|i: int| 0 <= i < base.len() ==> is_allowed(#[trigger] base[i])
    &&& forall|i: int| 0 <= i < ext.len() ==> is_allowed(#[trigger] ext[i])
}

/// The name with a base and an extension: with a dot between them, where there is an
/// extension.
pub open spec fn dotted(base: Seq<char>, ext: Seq<char>) -> Seq<char> {
    if ext.len() == 0 {
        base
    } else {
        base.push('.') + ext
    }
}

/// A text in capitals.
pub open spec fn capitals(s: Seq<char>) -> Seq<char> {
    Seq::new(
        s.len(),
        |i: int|
            if 'a' <= s[i] <= 'z' {
                (s[i] as u32 - 0x20) as char
            } else {
                s[i]
            },
    )
}

/// Whether eleven bytes hold a base and an extension in capitals: the base in the first
/// eight, the extension in the last three, each followed by spaces.
pub open spec fn is_padded(raw: Seq<u8>, base: Seq<char>, ext: Seq<char>) -> bool {
    &&& raw.len() == 11
    &&& forall|i: int|
        0 <= i < 8 ==> #[trigger] raw[i] as char == if i < base.len() {
            capitals(base)[i]
        } else {
            ' '
        }
    &&& forall|i: int|
        8 <= i < 11 ==> #[trigger] raw[i] as char == if i - 8 < ext.len() {
            capitals(ext)[i - 8]
        } else {
            ' '
        }
}

pub proof fn lemma_allowed(c: char)
    requires
        is_allowed(c),
    ensures
        0x20 < (c as u32) < 0x7f,
        c != '.',
        c != ' ',
        c != '/',
        0x20 < (ascii_upper(c) as u32) < 0x7f,
        super::names::is_short_char(c),
{
    let marks = seq![
        '$',
        '%',
        '\'',
        '-',
        '_',
        '@',
        '~',
        '`',
        '!',
        '(',
        ')',
        '{',
        '}',
        '^',
        '#',
        '&',
    ];
    if marks.contains(c) {
        let i = choose|i: int| 0 <= i < marks.len() && marks[i] == c;
        assert(i == 0 || i == 1 || i == 2 || i == 3 || i == 4 || i == 5 || i == 6 || i == 7 || i == 8
            || i == 9 || i == 10 || i == 11 || i == 12 || i == 13 || i == 14 || i == 15);
    }
}

proof fn lemma_short_char(c: char)
    requires
        super::names::is_short_char(c),
    ensures
        is_allowed(c),
{
    let marks = seq![
        '$',
        '%',
        '\'',
        '-',
        '_',
        '@',
        '~',
        '`',
        '!',
        '(',
        ')',
        '{',
        '}',
        '^',
        '#',
        '&',
    ];
    assert(marks[0] == '$' && marks[1] == '%' && marks[2] == '\'' && marks[3] == '-' && marks[4]
        == '_' && marks[5] == '@' && marks[6] == '~' && marks[7] == '`' && marks[8] == '!' && marks[9]
        == '(' && marks[10] == ')' && marks[11] == '{' && marks[12] == '}' && marks[13] == '^'
        && marks[14] == '#' && marks[15] == '&');
}

proof fn lemma_before_space(b: Seq<u8>, n: int)
    requires
        0 <= n <= b.len(),
        forall|i: int| 0 <= i < n ==> #[trigger] b[i] != 0x20,
        n < b.len() ==> b[n] == 0x20,
    ensures
        before_space(b) == Seq::new(n as nat, |i: int| b[i] as char),
    decreases b.len(),
{
    if n > 0 {
        assert forall|i: int| 0 <= i < n - 1 implies #[trigger] b.skip(1)[i] != 0x20 by {
            assert(b[i + 1] != 0x20);
        }
        lemma_before_space(b.skip(1), n - 1);
        assert(before_space(b) =~= Seq::new(n as nat, |i: int| b[i] as char));
    } else {
        assert(before_space(b) =~= Seq::new(n as nat, |i: int| b[i] as char));
    }
}

proof fn lemma_part(raw: Seq<u8>, from: int, to: int, part: Seq<char>)
    requires
        0 <= from <= to <= raw.len(),
        part.len() <= to - from,
        forall|i: int| 0 <= i < part.len() ==> is_allowed(#[trigger] part[i]),
        forall|i: int|
            from <= i < to ==> #[trigger] raw[i] as char == if i - from < part.len() {
                capitals(part)[i - from]
            } else {
                ' '
            },
    ensures
        before_space(raw.subrange(from, to)) == capitals(part),
{
    let b = raw.subrange(from, to);
    let n = part.len() as int;
    assert forall|i: int| 0 <= i < n implies #[trigger] b[i] != 0x20 by {
        lemma_allowed(part[i]);
        assert(raw[from + i] as char == capitals(part)[i]);
    }
    if n < b.len() {
        assert(raw[from + n] as char == ' ');
    }
    lemma_before_space(b, n);
    assert forall|i: int| 0 <= i < n implies b[i] as char == capitals(part)[i] by {
        assert(raw[from + i] as char == capitals(part)[i]);
    }
    assert(before_space(b) =~= capitals(part));
}

/// Eleven bytes that hold a base and an extension, each followed by spaces, are read as
/// base, dot and extension; as the base alone where there is no extension.
pub proof fn law_padded_name_is_read(raw: Seq<u8>, base: Seq<char>, ext: Seq<char>)
    requires
        is_short(base, ext),
        is_padded(raw, base, ext),
    ensures
        short_text(raw) == dotted(capitals(base), capitals(ext)),
        short_text(raw) == capitals(dotted(base, ext)),
        same_name(short_text(raw), dotted(base, ext)),
{
    lemma_part(raw, 0, 8, base);
    lemma_part(raw, 8, 11, ext);
    assert(short_text(raw) =~= dotted(capitals(base), capitals(ext)));
    assert(short_text(raw) =~= capitals(dotted(base, ext)));
}

/// Different 8.3 names are read as different texts: two that are read as the same text are
/// the same eleven bytes.
pub proof fn law_padded_names_differ(
    a: Seq<u8>,
    base_a: Seq<char>,
    ext_a: Seq<char>,
    b: Seq<u8>,
    base_b: Seq<char>,
    ext_b: Seq<char>,
)
    requires
        is_short(base_a, ext_a),
        is_padded(a, base_a, ext_a),
        is_short(base_b, ext_b),
        is_padded(b, base_b, ext_b),
        short_text(a) == short_text(b),
    ensures
        a == b,
{
    law_padded_name_is_read(a, base_a, ext_a);
    law_padded_name_is_read(b, base_b, ext_b);
    let t = short_text(a);
    lemma_dot_place(base_a, ext_a);
    lemma_dot_place(base_b, ext_b);
    let (ca, cb) = (capitals(base_a), capitals(base_b));
    let (xa, xb) = (capitals(ext_a), capitals(ext_b));
    if ca.len() < cb.len() {
        assert(ca.len() == t.len() || t[ca.len() as int] == '.');
        assert(t[ca.len() as int] == cb[ca.len() as int]);
        lemma_allowed(base_b[ca.len() as int]);
    }
    if cb.len() < ca.len() {
        assert(cb.len() == t.len() || t[cb.len() as int] == '.');
        assert(t[cb.len() as int] == ca[cb.len() as int]);
        lemma_allowed(base_a[cb.len() as int]);
    }
    assert(ca =~= t.take(ca.len() as int));
    assert(cb =~= t.take(cb.len() as int));
    assert(xa.len() == xb.len());
    if xa.len() > 0 {
        assert(xa =~= t.skip(ca.len() as int + 1));
        assert(xb =~= t.skip(cb.len() as int + 1));
    } else {
        assert(xa =~= xb);
    }
    assert forall|i: int| 0 <= i < 11 implies a[i] == b[i] by {
        assert(a[i] as char == b[i] as char);
        assert(a[i] as char as u32 == a[i] && b[i] as char as u32 == b[i]);
    }
    assert(a =~= b);
}

/// The dot of a name stands behind its base.
proof fn lemma_dot_place(base: Seq<char>, ext: Seq<char>)
    requires
        is_short(base, ext),
    ensures
        forall|i: int| 0 <= i < base.len() ==> #[trigger] capitals(base)[i] != '.',
        forall|i: int| 0 <= i < ext.len() ==> #[trigger] capitals(ext)[i] != '.',
{
    assert forall|i: int| 0 <= i < base.len() implies #[trigger] capitals(base)[i] != '.' by {
        lemma_allowed(base[i]);
    }
    assert forall|i: int| 0 <= i < ext.len() implies #[trigger] capitals(ext)[i] != '.' by {
        lemma_allowed(ext[i]);
    }
}

proof fn lemma_split_one(s: Seq<char>, c: char)
    requires
        forall|i: int| 0 <= i < s.len() ==> s[i] != c,
    ensures
        split(s, c) == seq![s],
    decreases s.len(),
{
    if s.len() == 0 {
        assert(s =~= Seq::<char>::empty());
    } else {
        lemma_split_one(s.drop_last(), c);
        assert(s.drop_last().push(s.last()) =~= s);
        assert(split(s, c) =~= seq![s]);
    }
}

proof fn lemma_split_two(a: Seq<char>, b: Seq<char>, c: char)
    requires
        forall|i: int| 0 <= i < a.len() ==> a[i] != c,
        forall|i: int| 0 <= i < b.len() ==> b[i] != c,
    ensures
        split(a.push(c) + b, c) == seq![a, b],
    decreases b.len(),
{
    let s = a.push(c) + b;
    if b.len() == 0 {
        lemma_split_one(a, c);
        assert(s.drop_last() =~= a);
        assert(b =~= Seq::<char>::empty());
        assert(split(s, c) =~= seq![a, b]);
    } else {
        lemma_split_two(a, b.drop_last(), c);
        assert(s.drop_last() =~= a.push(c) + b.drop_last());
        assert(b.drop_last().push(b.last()) =~= b);
        assert(split(s, c) =~= seq![a, b]);
    }
}

/// A name of a base and an extension that are not too long and hold allowed characters
/// only has an 8.3 form: the two in capitals, each followed by spaces.
pub proof fn law_short_name_is_padded(base: Seq<char>, ext: Seq<char>)
    requires
        is_short(base, ext),
    ensures
        short_of(dotted(base, ext)) matches Ok(raw) && is_padded(raw, base, ext),
{
    assert forall|i: int| 0 <= i < base.len() implies base[i] != '.' && super::names::is_short_char(
        base[i],
    ) by {
        lemma_allowed(base[i]);
    }
    assert forall|i: int| 0 <= i < ext.len() implies ext[i] != '.' && super::names::is_short_char(
        ext[i],
    ) by {
        lemma_allowed(ext[i]);
    }
    let name = dotted(base, ext);
    if ext.len() == 0 {
        lemma_split_one(base, '.');
    } else {
        lemma_split_two(base, ext, '.');
    }
    let raw = short_of(name)->Ok_0;
    assert forall|i: int| 0 <= i < 8 implies #[trigger] raw[i] as char == if i < base.len() {
        capitals(base)[i]
    } else {
        ' '
    } by {
        if i < base.len() {
            lemma_allowed(base[i]);
        }
    }
    assert forall|i: int| 8 <= i < 11 implies #[trigger] raw[i] as char == if i - 8 < ext.len() {
        capitals(ext)[i - 8]
    } else {
        ' '
    } by {
        if i - 8 < ext.len() {
            lemma_allowed(ext[i - 8]);
        }
    }
}

/// The 8.3 form of a name stands for that name: it is read as the name, up to the case of
/// letters, and in capitals.
pub proof fn law_short_form_stands_for_the_name(base: Seq<char>, ext: Seq<char>)
    requires
        is_short(base, ext),
    ensures
        short_of(dotted(base, ext)) matches Ok(raw) && short_text(raw) == capitals(dotted(base, ext))
            && same_name(short_text(raw), dotted(base, ext)),
{
    law_short_name_is_padded(base, ext);
    law_padded_name_is_read(short_of(dotted(base, ext))->Ok_0, base, ext);
}

proof fn lemma_split_joined(s: Seq<char>, c: char)
    ensures
        split(s, c).len() >= 1,
        split(s, c).len() == 1 ==> s == split(s, c)[0],
        split(s, c).len() == 2 ==> s == split(s, c)[0].push(c) + split(s, c)[1],
    decreases s.len(),
{
    if s.len() > 0 {
        let t = s.drop_last();
        lemma_split_joined(t, c);
        assert(t.push(s.last()) =~= s);
        if split(s, c).len() == 2 {
            assert(s =~= split(s, c)[0].push(c) + split(s, c)[1]);
        }
    }
}

/// No other name has an 8.3 form: a name that has one is a base, or a base, a dot and an
/// extension, of allowed characters and not too long.
pub proof fn law_only_short_names_have_a_short_form(name: Seq<char>)
    ensures
        match short_of(name) {
            Ok(raw) => exists|base: Seq<char>, ext: Seq<char>| #[trigger]
                is_short(base, ext) && is_padded(raw, base, ext) && (name == dotted(base, ext) || (
                ext.len() == 0 && name == base.push('.'))),
            Err(e) => e == FatError::InvalidName && forall|base: Seq<char>, ext: Seq<char>| #[trigger]
                is_short(base, ext) ==> name != dotted(base, ext),
        },
{
    let parts = split(name, '.');
    lemma_split_joined(name, '.');
    if short_of(name) is Ok {
        let base = parts[0];
        let ext = if parts.len() == 2 {
            parts[1]
        } else {
            Seq::empty()
        };
        assert forall|i: int| 0 <= i < base.len() implies is_allowed(#[trigger] base[i]) by {
            lemma_short_char(base[i]);
        }
        assert forall|i: int| 0 <= i < ext.len() implies is_allowed(#[trigger] ext[i]) by {
            lemma_short_char(ext[i]);
        }
        assert(is_short(base, ext));
        law_short_name_is_padded(base, ext);
        if parts.len() == 2 && ext.len() == 0 {
            assert(name =~= base.push('.'));
            lemma_allowed_base(base);
            assert(short_of(name)->Ok_0 =~= short_of(base)->Ok_0);
        }
    } else {
        assert forall|base: Seq<char>, ext: Seq<char>| #[trigger]
            is_short(base, ext) implies name != dotted(base, ext) by {
            law_short_name_is_padded(base, ext);
        }
    }
}

proof fn lemma_allowed_base(base: Seq<char>)
    requires
        is_short(base, Seq::empty()),
    ensures
        split(base, '.') == seq![base],
{
    assert forall|i: int| 0 <= i < base.len() implies base[i] != '.' by {
        lemma_allowed(base[i]);
    }
    lemma_split_one(base, '.');
}

} // verus!
