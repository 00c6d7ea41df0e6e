//! Characters, strings and number formatting.

use vstd::prelude::*;
use vstd::utf8::{decode_utf8, valid_utf8};

pub mod forms;

verus! {

/// `String::push` appends one character at the end of the string.
pub assume_specification[ String::push ](s: &mut String, c: char)
    ensures
        final(s)@ == old(s)@.push(c),
;

/// `char::from_u32` gives the character with the code `i`, which there is
/// outside the surrogate range and up to U+10FFFF.
pub assume_specification[ char::from_u32 ](i: u32) -> (c: Option<char>)
    ensures
        c is Some <==> i < 0xd800 || 0xe000 <= i <= 0x10ffff,
        c is Some ==> c->0 == i as char,
;

/// A character is a Unicode scalar value.
pub proof fn lemma_char_range(c: char)
    ensures
        c as int == c as u32,
        c as u32 <= 0x10ffff,
        (c as u32) < 0xd800 || 0xe000 <= c as u32,
{
}

/// The characters of a string.
pub fn chars_of(s: &str) -> (v: Vec<char>)
    ensures
        v@ == s@,
{
    let mut v: Vec<char> = Vec::new();
    for c in it: s.chars()
        invariant
            v@ == it.seq().take(it.index() as int),
            it.seq() == s@,
    {
        v.push(c);
    }
    v
}

/// Append characters to a string.
pub fn push_chars(s: &mut String, chars: &[char])
    ensures
        final(s)@ == old(s)@ + chars@,
{
    let mut i: usize = 0;
    while i < chars.len()
        invariant
            i <= chars@.len(),
            s@ == old(s)@ + chars@.take(i as int),
        decreases chars@.len() - i,
    {
        s.push(chars[i]);
        i += 1;
        assert(chars@.take(i as int) =~= chars@.take(i - 1).push(chars@[i - 1]));
    }
    assert(chars@.take(i as int) =~= chars@);
}

/// Append a string to a string.
pub fn push_text(s: &mut String, t: &str)
    ensures
        final(s)@ == old(s)@ + t@,
{
    let chars: Vec<char> = chars_of(t);
    push_chars(s, chars.as_slice());
}

/// The string made of the given characters.
pub fn string_of(chars: &[char]) -> (s: String)
    ensures
        s@ == chars@,
{
    let mut s: String = String::new();
    push_chars(&mut s, chars);
    assert(s@ =~= chars@);
    s
}

/// Whether two character strings are equal.
pub fn same_chars(a: &[char], b: &[char]) -> (r: bool)
    ensures
        r == (a@ == b@),
{
    if a.len() != b.len() {
        return false;
    }
    let mut i: usize = 0;
    while i < a.len()
        invariant
            i <= a@.len(),
            a@.len() == b@.len(),
            forall|k: int| 0 <= k < i ==> a@[k] == b@[k],
        decreases a@.len() - i,
    {
        if a[i] != b[i] {
            return false;
        }
        i += 1;
    }
    assert(a@ =~= b@);
    true
}

/// Whether two strings are equal.
pub fn same_str(a: &str, b: &str) -> (r: bool)
    ensures
        r == (a@ == b@),
{
    let x: Vec<char> = chars_of(a);
    let y: Vec<char> = chars_of(b);
    same_chars(x.as_slice(), y.as_slice())
}

/// An ASCII capital letter made small, any other character as it is.
pub open spec fn ascii_lower(c: char) -> char {
    if 'A' <= c <= 'Z' {
        (c as u32 + 32) as char
    } else {
        c
    }
}

/// An ASCII small letter made capital, any other character as it is.
pub open spec fn ascii_upper(c: char) -> char {
    if 'a' <= c <= 'z' {
        (c as u32 - 32) as char
    } else {
        c
    }
}

/// Equality up to the case of ASCII letters.
pub open spec fn same_name(a: Seq<char>, b: Seq<char>) -> bool {
    a.len() == b.len() && forall|i: int|
        0 <= i < a.len() ==> ascii_lower(#[trigger] a[i]) == ascii_lower(b[i])
}

pub fn to_ascii_lower(c: char) -> (r: char)
    ensures
        r == ascii_lower(c),
{
    if 'A' <= c && c <= 'Z' {
        ((c as u8) + 32) as char
    } else {
        c
    }
}

pub fn to_ascii_upper(c: char) -> (r: char)
    ensures
        r == ascii_upper(c),
{
    if 'a' <= c && c <= 'z' {
        ((c as u8) - 32) as char
    } else {
        c
    }
}

pub fn eq_ignore_ascii_case(a: &[char], b: &[char]) -> (r: bool)
    ensures
        r == same_name(a@, b@),
{
    if a.len() != b.len() {
        return false;
    }
    let mut i: usize = 0;
    while i < a.len()
        invariant
            i <= a@.len(),
            a@.len() == b@.len(),
            forall|k: int| 0 <= k < i ==> ascii_lower(#[trigger] a@[k]) == ascii_lower(b@[k]),
        decreases a@.len() - i,
    {
        if to_ascii_lower(a[i]) != to_ascii_lower(b[i]) {
            assert(ascii_lower(a@[i as int]) != ascii_lower(b@[i as int]));
            return false;
        }
        i += 1;
    }
    true
}

/// The decimal digit `d`.
pub open spec fn digit(d: int) -> char {
    (48 + d) as char
}

/// A number in decimal.
pub open spec fn decimal(n: nat) -> Seq<char>
    decreases n,
{
    if n < 10 {
        seq![digit(n as int)]
    } else {
        decimal(n / 10).push(digit((n % 10) as int))
    }
}

pub fn decimal_of(n: u64) -> (s: Vec<char>)
    ensures
        s@ == decimal(n as nat),
    decreases n,
{
    let mut s: Vec<char> = if n < 10 {
        Vec::new()
    } else {
        decimal_of(n / 10)
    };
    s.push((48 + (n % 10) as u8) as char);
    assert(s@ =~= decimal(n as nat));
    s
}

/// A number in hexadecimal, with zeros in front where it has fewer digits than
/// asked for.
pub open spec fn hex(n: nat, digits: nat) -> Seq<char>
    decreases n, digits,
{
    if n < 16 && digits <= 1 {
        seq![hex_digit(n as int, false)]
    } else {
        let fewer: nat = if digits <= 1 {
            1
        } else {
            (digits - 1) as nat
        };
        hex(n / 16, fewer).push(hex_digit((n % 16) as int, false))
    }
}

/// A number in hexadecimal, with the prefix that says so.
pub open spec fn hex0x(n: nat, digits: nat) -> Seq<char> {
    "0x"@ + hex(n, digits)
}

/// Append a number in hexadecimal to a string.
pub fn push_hex(s: &mut String, n: u64, digits: u64)
    requires
        digits >= 1,
    ensures
        final(s)@ == old(s)@ + hex(n as nat, digits as nat),
    decreases n, digits,
{
    if n >= 16 || digits > 1 {
        let fewer: u64 = if digits > 1 {
            digits - 1
        } else {
            1
        };
        push_hex(s, n / 16, fewer);
    }
    s.push(hex_digit_of((n % 16) as u8, false));
    assert(s@ =~= old(s)@ + hex(n as nat, digits as nat));
}

/// Append a number in hexadecimal to a string, with its prefix.
pub fn push_hex0x(s: &mut String, n: u64, digits: u64)
    requires
        digits >= 1,
    ensures
        final(s)@ == old(s)@ + hex0x(n as nat, digits as nat),
{
    push_text(s, "0x");
    push_hex(s, n, digits);
    assert(s@ =~= old(s)@ + hex0x(n as nat, digits as nat));
}

/// Append a number in decimal to a string.
pub fn push_decimal(s: &mut String, n: u64)
    ensures
        final(s)@ == old(s)@ + decimal(n as nat),
{
    let d: Vec<char> = decimal_of(n);
    push_chars(s, d.as_slice());
}

/// Where `c` last stands in `s`, or -1.
pub open spec fn last_index(s: Seq<char>, c: char) -> int
    decreases s.len(),
{
    if s.len() == 0 {
        -1
    } else if s.last() == c {
        s.len() - 1
    } else {
        last_index(s.drop_last(), c)
    }
}

pub proof fn lemma_last_index(s: Seq<char>, c: char)
    ensures
        -1 <= last_index(s, c) < s.len(),
        last_index(s, c) >= 0 ==> s[last_index(s, c)] == c,
        forall|k: int| last_index(s, c) < k < s.len() ==> s[k] != c,
    decreases s.len(),
{
    if s.len() > 0 && s.last() != c {
        lemma_last_index(s.drop_last(), c);
        assert forall|k: int| last_index(s, c) < k < s.len() implies s[k] != c by {
            if k < s.len() - 1 {
                assert(s.drop_last()[k] != c);
            }
        }
    }
}

/// What stands before and after the last `c` of `s`.
pub open spec fn before_last(s: Seq<char>, c: char) -> Seq<char> {
    s.take(last_index(s, c))
}

pub open spec fn after_last(s: Seq<char>, c: char) -> Seq<char> {
    s.skip(last_index(s, c) + 1)
}

/// Where `c` last stands in `s`.
pub fn rfind(s: &[char], c: char) -> (r: Option<usize>)
    ensures
        r matches Some(i) ==> i == last_index(s@, c) && i < s@.len(),
        r is None ==> last_index(s@, c) == -1,
{
    let mut i: usize = s.len();
    assert(s@.take(i as int) =~= s@);
    while i > 0
        invariant
            i <= s@.len(),
            last_index(s@, c) == last_index(s@.take(i as int), c),
        decreases i,
    {
        if s[i - 1] == c {
            return Some(i - 1);
        }
        i -= 1;
        assert(s@.take(i + 1).drop_last() =~= s@.take(i as int));
    }
    None
}

/// A copy of a piece of a character string.
pub fn piece(s: &[char], from: usize, to: usize) -> (v: Vec<char>)
    requires
        from <= to <= s@.len(),
    ensures
        v@ == s@.subrange(from as int, to as int),
{
    let mut v: Vec<char> = Vec::new();
    let mut i: usize = from;
    while i < to
        invariant
            from <= i <= to <= s@.len(),
            v@ == s@.subrange(from as int, i as int),
        decreases to - i,
    {
        v.push(s[i]);
        i += 1;
        assert(v@ =~= s@.subrange(from as int, i as int));
    }
    v
}

/// The pieces of `s` between occurrences of `c`.
pub open spec fn split(s: Seq<char>, c: char) -> Seq<Seq<char>>
    decreases s.len(),
{
    if s.len() == 0 {
        seq![Seq::<char>::empty()]
    } else if s.last() == c {
        split(s.drop_last(), c).push(Seq::<char>::empty())
    } else {
        let r = split(s.drop_last(), c);
        r.update(r.len() - 1, r.last().push(s.last()))
    }
}

pub proof fn lemma_split_nonempty(s: Seq<char>, c: char)
    ensures
        split(s, c).len() >= 1,
    decreases s.len(),
{
    if s.len() > 0 {
        lemma_split_nonempty(s.drop_last(), c);
    }
}

/// The views of a list of character strings.
pub open spec fn views(v: Seq<Vec<char>>) -> Seq<Seq<char>> {
    Seq::new(v.len(), |i: int| v[i]@)
}

pub fn split_at_char(s: &[char], c: char) -> (parts: Vec<Vec<char>>)
    ensures
        views(parts@) == split(s@, c),
{
    let mut parts: Vec<Vec<char>> = Vec::new();
    let mut last: Vec<char> = Vec::new();
    let mut i: usize = 0;
    assert(views(parts@).push(last@) =~= split(s@.take(0), c)) by {
        assert(last@ =~= Seq::<char>::empty());
    }
    while i < s.len()
        invariant
            i <= s@.len(),
            views(parts@).push(last@) == split(s@.take(i as int), c),
        decreases s@.len() - i,
    {
        let ghost old_parts = parts@;
        let ghost old_last = last@;
        if s[i] == c {
            parts.push(last);
            last = Vec::new();
        } else {
            last.push(s[i]);
        }
        i += 1;
        proof {
            assert(s@.take(i as int).drop_last() =~= s@.take(i - 1));
            assert(last@.len() == 0 ==> last@ =~= Seq::<char>::empty());
            assert(views(parts@).push(last@) =~= split(s@.take(i as int), c));
        }
    }
    let ghost before = parts@;
    let ghost tail = last@;
    parts.push(last);
    assert(views(parts@) =~= views(before).push(tail));
    assert(s@.take(i as int) =~= s@);
    parts
}

/// `s` without the `c`s it starts with.
pub open spec fn trim_front(s: Seq<char>, c: char) -> Seq<char>
    decreases s.len(),
{
    if s.len() > 0 && s[0] == c {
        trim_front(s.skip(1), c)
    } else {
        s
    }
}

/// `s` without the `c`s it ends with.
pub open spec fn trim_back(s: Seq<char>, c: char) -> Seq<char>
    decreases s.len(),
{
    if s.len() > 0 && s.last() == c {
        trim_back(s.drop_last(), c)
    } else {
        s
    }
}

/// `s` without the `c`s at either end.
pub open spec fn trim(s: Seq<char>, c: char) -> Seq<char> {
    trim_back(trim_front(s, c), c)
}

pub fn trim_matches(s: &[char], c: char) -> (v: Vec<char>)
    ensures
        v@ == trim(s@, c),
{
    let mut from: usize = 0;
    assert(s@.skip(0) =~= s@);
    while from < s.len() && s[from] == c
        invariant
            from <= s@.len(),
            trim_front(s@.skip(from as int), c) == trim_front(s@, c),
        decreases s@.len() - from,
    {
        from += 1;
        assert(s@.skip(from - 1).skip(1) =~= s@.skip(from as int));
    }
    let mut to: usize = s.len();
    assert(s@.subrange(from as int, to as int) =~= s@.skip(from as int));
    while to > from && s[to - 1] == c
        invariant
            from <= to <= s@.len(),
            trim_back(s@.subrange(from as int, to as int), c) == trim(s@, c),
        decreases to,
    {
        to -= 1;
        assert(s@.subrange(from as int, to + 1).drop_last() =~= s@.subrange(
            from as int,
            to as int,
        ));
    }
    piece(s, from, to)
}

/// What `String::from_utf8_lossy` makes of bytes.
pub uninterp spec fn utf8_lossy(bytes: Seq<u8>) -> Seq<char>;

/// `String::from_utf8_lossy`: the text that bytes encode; where they encode none
/// it puts replacement characters, in ways that are not stated here.
#[verifier::external_body]
pub(crate) fn lossy(bytes: &[u8]) -> (s: String)
    ensures
        s@ == utf8_lossy(bytes@),
        valid_utf8(bytes@) ==> s@ == decode_utf8(bytes@),
{
    String::from_utf8_lossy(bytes).into_owned()
}

/// `core::str::from_utf8`: the text that bytes encode, which there is exactly
/// when they are valid UTF-8.
#[verifier::external_body]
pub(crate) fn strict(bytes: &[u8]) -> (s: Option<String>)
    ensures
        s is Some <==> valid_utf8(bytes@),
        s matches Some(t) ==> t@ == decode_utf8(bytes@),
{
    match core::str::from_utf8(bytes) {
        Ok(t) => Some(String::from(t)),
        Err(_) => None,
    }
}

/// Whether a character is white space.
pub open spec fn is_white(c: char) -> bool {
    let n = c as int;
    ||| 0x09 <= n <= 0x0d
    ||| n == 0x20
    ||| n == 0x85
    ||| n == 0xa0
    ||| n == 0x1680
    ||| 0x2000 <= n <= 0x200a
    ||| n == 0x2028
    ||| n == 0x2029
    ||| n == 0x202f
    ||| n == 0x205f
    ||| n == 0x3000
}

pub fn is_whitespace(c: char) -> (r: bool)
    ensures
        r == is_white(c),
{
    let n: u32 = c as u32;
    (0x09 <= n && n <= 0x0d) || n == 0x20 || n == 0x85 || n == 0xa0 || n == 0x1680 || (0x2000 <= n
        && n <= 0x200a) || n == 0x2028 || n == 0x2029 || n == 0x202f || n == 0x205f || n == 0x3000
}

/// Text without white space at its start.
pub open spec fn white_front(s: Seq<char>) -> Seq<char>
    decreases s.len(),
{
    if s.len() > 0 && is_white(s[0]) {
        white_front(s.drop_first())
    } else {
        s
    }
}

/// Text without white space at its end.
pub open spec fn white_back(s: Seq<char>) -> Seq<char>
    decreases s.len(),
{
    if s.len() > 0 && is_white(s.last()) {
        white_back(s.drop_last())
    } else {
        s
    }
}

/// Text without white space around it.
pub fn trim_white(s: &[char]) -> (v: Vec<char>)
    ensures
        v@ == white_back(white_front(s@)),
{
    let n: usize = s.len();
    let mut from: usize = 0;
    assert(s@.skip(0) =~= s@);
    while from < n && is_whitespace(s[from])
        invariant
            from <= n,
            n == s@.len(),
            white_front(s@.skip(from as int)) == white_front(s@),
        decreases n - from,
    {
        proof {
            assert(s@.skip(from as int).drop_first() =~= s@.skip(from + 1));
        }
        from += 1;
    }
    proof {
        let t = s@.skip(from as int);
        if t.len() > 0 {
            assert(t[0] == s@[from as int]);
        }
        assert(white_front(s@) == t);
    }
    let mut to: usize = n;
    assert(s@.subrange(from as int, n as int) =~= s@.skip(from as int));
    while from < to && is_whitespace(s[to - 1])
        invariant
            from <= to <= n,
            n == s@.len(),
            white_back(s@.subrange(from as int, to as int)) == white_back(white_front(s@)),
        decreases to - from,
    {
        proof {
            let t = s@.subrange(from as int, to as int);
            assert(t.last() == s@[to - 1]);
            assert(t.drop_last() =~= s@.subrange(from as int, to - 1));
        }
        to -= 1;
    }
    proof {
        let t = s@.subrange(from as int, to as int);
        if t.len() > 0 {
            assert(t.last() == s@[to - 1]);
        }
    }
    piece(s, from, to)
}

/// A hexadecimal digit.
pub open spec fn hex_digit(d: int, upper: bool) -> char {
    if d < 10 {
        (0x30 + d) as char
    } else if upper {
        (0x41 + (d - 10)) as char
    } else {
        (0x61 + (d - 10)) as char
    }
}

pub fn hex_digit_of(d: u8, upper: bool) -> (c: char)
    requires
        d < 16,
    ensures
        c == hex_digit(d as int, upper),
{
    if d < 10 {
        (0x30 + d) as char
    } else if upper {
        (0x41 + (d - 10)) as char
    } else {
        (0x61 + (d - 10)) as char
    }
}

/// The last `width` hexadecimal digits of a number.
pub open spec fn hex_fixed(v: nat, width: nat, upper: bool) -> Seq<char>
    decreases width,
{
    if width == 0 {
        Seq::empty()
    } else {
        hex_fixed(v / 16, (width - 1) as nat, upper).push(hex_digit(v as int % 16, upper))
    }
}

/// Format a number with a fixed number of hexadecimal digits.
pub fn hex_of(v: u64, width: usize, upper: bool) -> (s: Vec<char>)
    ensures
        s@ == hex_fixed(v as nat, width as nat, upper),
    decreases width,
{
    if width == 0 {
        return Vec::new();
    }
    let mut s: Vec<char> = hex_of(v / 16, width - 1, upper);
    s.push(hex_digit_of((v % 16) as u8, upper));
    s
}

} // verus!
