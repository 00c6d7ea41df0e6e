//! What numbers and pieces of text stand for once they are written down.

use vstd::prelude::*;
use super::{decimal, hex, hex_digit, hex_fixed, split, trim, trim_back, trim_front};
use super::{is_white, white_back, white_front};
use crate::syscall::line::digits;

verus! {

/// The value of a digit, in either case.
pub open spec fn value_of(c: char) -> int {
    if '0' <= c <= '9' {
        c as int - '0' as int
    } else if 'a' <= c <= 'f' {
        c as int - 'a' as int + 10
    } else if 'A' <= c <= 'F' {
        c as int - 'A' as int + 10
    } else {
        -1
    }
}

/// The number that digits stand for, the most significant one first.
pub open spec fn number_of(s: Seq<char>, base: int) -> int
    decreases s.len(),
{
    if s.len() == 0 {
        0
    } else {
        number_of(s.drop_last(), base) * base + value_of(s.last())
    }
}

/// A number in decimal stands for itself, in digits below ten, without zeros in front.
pub proof fn law_decimal(n: nat)
    ensures
        number_of(decimal(n), 10) == n,
        forall|i: int| 0 <= i < decimal(n).len() ==> '0' <= #[trigger] decimal(n)[i] <= '9',
        decimal(n).len() >= 1,
        decimal(n).len() > 1 ==> decimal(n)[0] != '0',
        decimal(n)[0] == '0' ==> n == 0,
    decreases n,
{
    let s = decimal(n);
    if n < 10 {
        assert(s.drop_last() =~= Seq::<char>::empty());
        assert(number_of(s.drop_last(), 10) == 0);
    } else {
        law_decimal(n / 10);
        let t = decimal(n / 10);
        assert(s.drop_last() =~= t);
        assert(s[0] == t[0]);
        assert forall|i: int| 0 <= i < s.len() implies '0' <= #[trigger] s[i] <= '9' by {
            if i < t.len() {
                assert(s[i] == t[i]);
            }
        }
    }
}

/// The digits that are sent to a terminal are those of the number in decimal.
pub proof fn law_digits(n: nat)
    ensures
        digits(n).len() == decimal(n).len(),
        forall|i: int| 0 <= i < digits(n).len() ==> #[trigger] digits(n)[i] as char == decimal(n)[i],
    decreases n,
{
    if n >= 10 {
        law_digits(n / 10);
        let (a, b) = (digits(n), decimal(n));
        let (c, d) = (digits(n / 10), decimal(n / 10));
        assert forall|i: int| 0 <= i < a.len() implies #[trigger] a[i] as char == b[i] by {
            if i < c.len() {
                assert(a[i] == c[i] && b[i] == d[i]);
            }
        }
    }
}

proof fn lemma_hex_digit(d: int, upper: bool)
    requires
        0 <= d < 16,
    ensures
        value_of(hex_digit(d, upper)) == d,
        d > 0 <==> hex_digit(d, upper) != '0',
{
}

/// A number in hexadecimal stands for itself; it has at least as many digits as were asked
/// for, and more only where it needs them.
pub proof fn law_hex(n: nat, least: nat)
    ensures
        number_of(hex(n, least), 16) == n,
        hex(n, least).len() >= least,
        hex(n, least).len() >= 1,
        hex(n, least).len() > least && least >= 1 ==> hex(n, least)[0] != '0',
        forall|i: int| 0 <= i < hex(n, least).len() ==> 0 <= value_of(#[trigger] hex(n, least)[i]) < 16,
    decreases n, least,
{
    let s = hex(n, least);
    lemma_hex_digit((n % 16) as int, false);
    if n < 16 && least <= 1 {
        assert(s.drop_last() =~= Seq::<char>::empty());
        assert(number_of(s.drop_last(), 16) == 0);
    } else {
        let fewer: nat = if least <= 1 {
            1
        } else {
            (least - 1) as nat
        };
        law_hex(n / 16, fewer);
        let t = hex(n / 16, fewer);
        assert(s.drop_last() =~= t);
        assert(s[0] == t[0]);
        assert forall|i: int| 0 <= i < s.len() implies 0 <= value_of(#[trigger] s[i]) < 16 by {
            if i < t.len() {
                assert(s[i] == t[i]);
            }
        }
        if s.len() > least && least >= 1 && t.len() == 1 {
            // One digit is left in front of the last, of a number of 16 or more.
            assert(t.drop_last() =~= Seq::<char>::empty());
            assert(number_of(t.drop_last(), 16) == 0);
            assert(number_of(t, 16) == value_of(t[0]));
        }
    }
}

/// How many numbers there are with so many hexadecimal digits.
pub open spec fn sixteens(width: nat) -> int
    decreases width,
{
    if width == 0 {
        1
    } else {
        16 * sixteens((width - 1) as nat)
    }
}

/// A number in a fixed number of hexadecimal digits has that many, and they stand for it
/// where it fits.
pub proof fn law_hex_fixed(v: nat, width: nat, upper: bool)
    ensures
        hex_fixed(v, width, upper).len() == width,
        v < sixteens(width) ==> number_of(hex_fixed(v, width, upper), 16) == v,
        forall|i: int|
            0 <= i < width ==> ('0' <= #[trigger] hex_fixed(v, width, upper)[i] <= '9') || (if upper {
                'A' <= hex_fixed(v, width, upper)[i] <= 'F'
            } else {
                'a' <= hex_fixed(v, width, upper)[i] <= 'f'
            }),
    decreases width,
{
    if width > 0 {
        let w = (width - 1) as nat;
        law_hex_fixed(v / 16, w, upper);
        lemma_hex_digit(v as int % 16, upper);
        let s = hex_fixed(v, width, upper);
        let t = hex_fixed(v / 16, w, upper);
        assert(s.drop_last() =~= t);
        assert forall|i: int| 0 <= i < width implies ('0' <= #[trigger] s[i] <= '9') || (if upper {
            'A' <= s[i] <= 'F'
        } else {
            'a' <= s[i] <= 'f'
        }) by {
            if i < w {
                assert(s[i] == t[i]);
            }
        }
    }
}

/// Pieces put together, with a character between each two.
pub open spec fn joined_with(parts: Seq<Seq<char>>, c: char) -> Seq<char>
    decreases parts.len(),
{
    if parts.len() == 0 {
        Seq::empty()
    } else if parts.len() == 1 {
        parts[0]
    } else {
        joined_with(parts.drop_last(), c).push(c) + parts.last()
    }
}

/// The pieces of a text between occurrences of a character hold none of it, and put
/// together again they are the text.
pub proof fn law_split(s: Seq<char>, c: char)
    ensures
        split(s, c).len() >= 1,
        joined_with(split(s, c), c) == s,
        forall|i: int, k: int|
            0 <= i < split(s, c).len() && 0 <= k < split(s, c)[i].len() ==> #[trigger] split(
                s,
                c,
            )[i][k] != c,
    decreases s.len(),
{
    let p = split(s, c);
    if s.len() == 0 {
        assert(p[0] =~= s);
    } else {
        let t = s.drop_last();
        law_split(t, c);
        let q = split(t, c);
        assert(t.push(s.last()) =~= s);
        if s.last() == c {
            assert(p.drop_last() =~= q);
            assert(joined_with(p, c) =~= s);
        } else {
            assert(p.drop_last() =~= q.drop_last());
            if q.len() == 1 {
                assert(p[0] =~= s);
            } else {
                assert(joined_with(p, c) =~= joined_with(q, c).push(s.last()));
            }
            assert forall|i: int, k: int| 0 <= i < p.len() && 0 <= k < p[i].len() implies #[trigger] p[i][k]
                != c by {
                if i < q.len() - 1 {
                    assert(p[i] == q[i]);
                } else if k < q[i].len() {
                    assert(p[i][k] == q[i][k]);
                }
            }
        }
    }
}

/// A trimmed text is a piece of the text that neither starts nor ends with the character,
/// and what was left out on either side is nothing but that character.
pub proof fn law_trim(s: Seq<char>, c: char) -> (at: int)
    ensures
        0 <= at,
        at + trim(s, c).len() <= s.len(),
        trim(s, c) == s.subrange(at, at + trim(s, c).len()),
        trim(s, c).len() > 0 ==> trim(s, c)[0] != c && trim(s, c).last() != c,
        forall|i: int|
            0 <= i < s.len() && !(at <= i < at + trim(s, c).len()) ==> #[trigger] s[i] == c,
{
    let f = trim_front(s, c);
    lemma_front(s, c);
    lemma_back(f, c);
    let at = s.len() - f.len();
    let t = trim(s, c);
    assert(t =~= s.subrange(at, at + t.len()));
    assert forall|i: int| 0 <= i < s.len() && !(at <= i < at + t.len()) implies #[trigger] s[i] == c by {
        if i >= at {
            assert(f[i - at] == s[i]);
        }
    }
    if t.len() > 0 {
        assert(t[0] == f[0]);
    }
    at
}

proof fn lemma_front(s: Seq<char>, c: char)
    ensures
        trim_front(s, c).len() <= s.len(),
        trim_front(s, c) == s.skip(s.len() - trim_front(s, c).len()),
        trim_front(s, c).len() > 0 ==> trim_front(s, c)[0] != c,
        forall|i: int| 0 <= i < s.len() - trim_front(s, c).len() ==> #[trigger] s[i] == c,
    decreases s.len(),
{
    if s.len() > 0 && s[0] == c {
        let t = s.skip(1);
        lemma_front(t, c);
        let f = trim_front(s, c);
        assert(t.skip(t.len() - f.len()) =~= s.skip(s.len() - f.len()));
        assert forall|i: int| 0 <= i < s.len() - f.len() implies #[trigger] s[i] == c by {
            if i > 0 {
                assert(t[i - 1] == s[i]);
            }
        }
    } else {
        assert(s.skip(0) =~= s);
    }
}

proof fn lemma_back(s: Seq<char>, c: char)
    ensures
        trim_back(s, c).len() <= s.len(),
        trim_back(s, c) == s.take(trim_back(s, c).len() as int),
        trim_back(s, c).len() > 0 ==> trim_back(s, c).last() != c,
        forall|i: int| trim_back(s, c).len() <= i < s.len() ==> #[trigger] s[i] == c,
    decreases s.len(),
{
    if s.len() > 0 && s.last() == c {
        let t = s.drop_last();
        lemma_back(t, c);
        let b = trim_back(s, c);
        assert(t.take(b.len() as int) =~= s.take(b.len() as int));
        assert forall|i: int| b.len() <= i < s.len() implies #[trigger] s[i] == c by {
            if i < t.len() {
                assert(t[i] == s[i]);
            }
        }
    } else {
        assert(s.take(s.len() as int) =~= s);
    }
}

/// A text without white space around it is a piece of the text that neither starts nor
/// ends with white space, and what was left out on either side is nothing but that.
pub proof fn law_white_space(s: Seq<char>) -> (at: int)
    ensures
        ({
            let t = white_back(white_front(s));
            &&& 0 <= at
            &&& at + t.len() <= s.len()
            &&& t == s.subrange(at, at + t.len())
            &&& t.len() > 0 ==> !is_white(t[0]) && !is_white(t.last())
            &&& forall|i: int|
                0 <= i < s.len() && !(at <= i < at + t.len()) ==> is_white(#[trigger] s[i])
        }),
{
    let f = white_front(s);
    lemma_white_front(s);
    lemma_white_back(f);
    let at = s.len() - f.len();
    let t = white_back(f);
    assert(t =~= s.subrange(at, at + t.len()));
    assert forall|i: int| 0 <= i < s.len() && !(at <= i < at + t.len()) implies is_white(
        #[trigger] s[i],
    ) by {
        if i >= at {
            assert(f[i - at] == s[i]);
        }
    }
    if t.len() > 0 {
        assert(t[0] == f[0]);
    }
    at
}

proof fn lemma_white_front(s: Seq<char>)
    ensures
        white_front(s).len() <= s.len(),
        white_front(s) == s.skip(s.len() - white_front(s).len()),
        white_front(s).len() > 0 ==> !is_white(white_front(s)[0]),
        forall|i: int| 0 <= i < s.len() - white_front(s).len() ==> is_white(#[trigger] s[i]),
    decreases s.len(),
{
    if s.len() > 0 && is_white(s[0]) {
        let t = s.drop_first();
        lemma_white_front(t);
        let f = white_front(s);
        assert(t.skip(t.len() - f.len()) =~= s.skip(s.len() - f.len()));
        assert forall|i: int| 0 <= i < s.len() - f.len() implies is_white(#[trigger] s[i]) by {
            if i > 0 {
                assert(t[i - 1] == s[i]);
            }
        }
    } else {
        assert(s.skip(0) =~= s);
    }
}

proof fn lemma_white_back(s: Seq<char>)
    ensures
        white_back(s).len() <= s.len(),
        white_back(s) == s.take(white_back(s).len() as int),
        white_back(s).len() > 0 ==> !is_white(white_back(s).last()),
        forall|i: int| white_back(s).len() <= i < s.len() ==> is_white(#[trigger] s[i]),
    decreases s.len(),
{
    if s.len() > 0 && is_white(s.last()) {
        let t = s.drop_last();
        lemma_white_back(t);
        let b = white_back(s);
        assert(t.take(b.len() as int) =~= s.take(b.len() as int));
        assert forall|i: int| b.len() <= i < s.len() implies is_white(#[trigger] s[i]) by {
            if i < t.len() {
                assert(t[i] == s[i]);
            }
        }
    } else {
        assert(s.take(s.len() as int) =~= s);
    }
}

} // verus!
