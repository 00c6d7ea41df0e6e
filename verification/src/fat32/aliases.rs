//! Names in UTF-16, and the 8.3 names that are made for long ones.

use vstd::prelude::*;
use crate::text::{after_last, before_last, decimal, last_index, lemma_char_range};
use super::model::Volume;
use super::names::{alias, alias_ext, alias_part, alias_stem, short_of, utf16, utf16_of};
use super::FatError;

verus! {

/// A character is one unit, its own number, or two that make up its number above the first
/// 65,536.
pub proof fn law_units_of_a_character(c: char)
    ensures
        (c as u32) < 0x1_0000 ==> utf16(seq![c]).len() == 1 && utf16(seq![c])[0] == c as u32,
        (c as u32) >= 0x1_0000 ==> utf16(seq![c]).len() == 2 && 0xd800 <= utf16(seq![c])[0] < 0xdc00
            && 0xdc00 <= utf16(seq![c])[1] < 0xe000 && c as u32 == 0x1_0000 + (utf16(seq![c])[0]
            - 0xd800) * 0x400 + (utf16(seq![c])[1] - 0xdc00),
{
    assert(seq![c].skip(1) =~= Seq::<char>::empty());
    reveal_with_fuel(utf16, 2);
    assert(utf16(seq![c]) =~= utf16_of(c));
    lemma_char_range(c);
}

/// The units of a text are those of its characters, in their order.
pub proof fn law_units_follow_each_other(s: Seq<char>, t: Seq<char>)
    ensures
        utf16(Seq::empty()).len() == 0,
        utf16(s + t) == utf16(s) + utf16(t),
    decreases s.len(),
{
    if s.len() == 0 {
        assert(s + t =~= t);
        assert(utf16(s) + utf16(t) =~= utf16(t));
    } else {
        law_units_follow_each_other(s.skip(1), t);
        assert((s + t).skip(1) =~= s.skip(1) + t);
        assert(utf16(s + t) =~= utf16(s) + utf16(t));
    }
}

/// What a character becomes in a name that is made: a letter its capital; a digit and the
/// marks that an 8.3 name may hold stay; a dot goes; anything else becomes an underscore.
pub proof fn law_characters_of_made_names(c: char)
    ensures
        c == '.' ==> alias_part(seq![c]).len() == 0,
        c != '.' ==> alias_part(seq![c]).len() == 1,
        'a' <= c <= 'z' ==> alias_part(seq![c])[0] as u32 + 32 == c as u32,
        'A' <= c <= 'Z' || '0' <= c <= '9' || c == '_' || c == '-' || c == '~' ==> alias_part(
            seq![c],
        )[0] == c,
        c == ' ' || c == '+' || c == ',' || c == ';' || c == '=' || c == '[' || c == ']' || c as u32
            >= 0x7f ==> alias_part(seq![c])[0] == '_',
{
    assert(seq![c].drop_last() =~= Seq::<char>::empty());
    reveal_with_fuel(alias_part, 2);
}

/// A name that is made goes character by character.
pub proof fn law_made_names_follow_the_name(s: Seq<char>, t: Seq<char>)
    ensures
        alias_part(Seq::empty()).len() == 0,
        alias_part(s + t) == alias_part(s) + alias_part(t),
    decreases t.len(),
{
    if t.len() == 0 {
        assert(s + t =~= s);
        assert(alias_part(s) + alias_part(t) =~= alias_part(s));
    } else {
        law_made_names_follow_the_name(s, t.drop_last());
        assert((s + t).drop_last() =~= s + t.drop_last());
        assert(alias_part(s + t) =~= alias_part(s) + alias_part(t));
    }
}

proof fn lemma_last_dot(base: Seq<char>, ext: Seq<char>)
    requires
        forall|k: int| 0 <= k < ext.len() ==> ext[k] != '.',
    ensures
        last_index(base + seq!['.'] + ext, '.') == base.len(),
    decreases ext.len(),
{
    let name = base + seq!['.'] + ext;
    if ext.len() > 0 {
        let short = ext.drop_last();
        assert forall|k: int| 0 <= k < short.len() implies short[k] != '.' by {
            assert(short[k] == ext[k]);
        }
        lemma_last_dot(base, short);
        assert(name.drop_last() =~= base + seq!['.'] + short);
        assert(name.last() == ext[ext.len() - 1]);
    } else {
        assert(name.last() == '.');
    }
}

proof fn lemma_no_dot(name: Seq<char>)
    requires
        forall|k: int| 0 <= k < name.len() ==> name[k] != '.',
    ensures
        last_index(name, '.') < 0,
    decreases name.len(),
{
    if name.len() > 0 {
        let short = name.drop_last();
        assert forall|k: int| 0 <= k < short.len() implies short[k] != '.' by {
            assert(short[k] == name[k]);
        }
        lemma_no_dot(short);
        assert(name.last() == name[name.len() - 1]);
    }
}

/// The last dot of a name parts it: what is before it is the base of a name that is made,
/// or `FILE` where nothing of it can be kept, and the first three characters behind it are
/// the extension.
pub proof fn law_parts_of_made_names(base: Seq<char>, ext: Seq<char>)
    requires
        forall|k: int| 0 <= k < ext.len() ==> ext[k] != '.',
    ensures
        ({
            let name = base + seq!['.'] + ext;
            &&& alias_part(base).len() > 0 ==> alias_stem(name) == alias_part(base)
            &&& alias_part(base).len() == 0 ==> alias_stem(name) == seq!['F', 'I', 'L', 'E']
            &&& alias_ext(name).is_prefix_of(alias_part(ext))
            &&& alias_part(ext).len() <= 3 ==> alias_ext(name) == alias_part(ext)
            &&& alias_part(ext).len() > 3 ==> alias_ext(name).len() == 3
        }),
        alias_part(ext).len() > 0 ==> alias_stem(ext) == alias_part(ext),
        alias_ext(ext).len() == 0,
{
    let name = base + seq!['.'] + ext;
    lemma_last_dot(base, ext);
    lemma_no_dot(ext);
    assert(before_last(name, '.') =~= base);
    assert(after_last(name, '.') =~= ext);
}

/// Where each character of a name that is made stands: as much of the base as leaves room,
/// a tilde, the number, blanks; then the extension and blanks.
pub proof fn law_made_name(stem: Seq<char>, ext: Seq<char>, serial: int, n: int, i: int)
    requires
        1 <= serial,
        decimal(serial as nat).len() <= 7,
        n == if stem.len() + decimal(serial as nat).len() < 7 {
            stem.len() as int
        } else {
            7 - decimal(serial as nat).len()
        },
    ensures
        ({
            let raw = alias(stem, ext, serial);
            let d = decimal(serial as nat);
            &&& raw.len() == 11
            &&& 0 <= i < n ==> raw[i] == stem[i] as u8
            &&& raw[n] == 0x7e
            &&& 0 <= i < d.len() ==> raw[n + 1 + i] == d[i] as u8
            &&& n + 1 + d.len() <= i < 8 ==> raw[i] == 0x20
            &&& 0 <= i < 3 && i < ext.len() ==> raw[8 + i] == ext[i] as u8
            &&& ext.len() <= i < 3 ==> raw[8 + i] == 0x20
        }),
{
}

/// Whether all the names that are made with lower numbers are in a directory.
pub open spec fn are_lower_taken(
    v: Volume,
    dir: u32,
    stem: Seq<char>,
    ext: Seq<char>,
    from: int,
    to: int,
) -> bool {
    forall|k: int|
        from <= k < to ==> v.has_short(dir, #[trigger] alias(stem, ext, k)) == Ok::<bool, FatError>(
            true,
        )
}

impl Volume {
    proof fn lemma_free_alias(self, dir: u32, stem: Seq<char>, ext: Seq<char>, serial: int) -> (n: int)
        ensures
            self.free_alias(dir, stem, ext, serial) matches Ok(raw) ==> serial <= n < 100_000 && raw
                == alias(stem, ext, n) && self.has_short(dir, raw) == Ok::<bool, FatError>(false)
                && are_lower_taken(self, dir, stem, ext, serial, n),
        decreases 100_000 - serial,
    {
        if serial >= 100_000 {
            serial
        } else if self.has_short(dir, alias(stem, ext, serial)) == Ok::<bool, FatError>(true) {
            self.lemma_free_alias(dir, stem, ext, serial + 1)
        } else {
            serial
        }
    }

    /// A new entry gets an 8.3 name that is not in its directory: its own where it is one and
    /// is free, and else the one with the lowest number that is.
    pub proof fn law_short_name_is_new(self, dir: u32, name: Seq<char>, raw: Seq<u8>)
        requires
            self.choose_short(dir, name) == Ok::<Seq<u8>, FatError>(raw),
        ensures
            self.has_short(dir, raw) == Ok::<bool, FatError>(false),
            short_of(name) == Ok::<Seq<u8>, FatError>(raw) || exists|n: int|
                1 <= n < 100_000 && raw == #[trigger] alias(alias_stem(name), alias_ext(name), n)
                    && are_lower_taken(self, dir, alias_stem(name), alias_ext(name), 1, n),
            short_of(name) matches Ok(own) ==> self.has_short(dir, own) == Ok::<bool, FatError>(
                false,
            ) ==> raw == own,
    {
        let n = self.lemma_free_alias(dir, alias_stem(name), alias_ext(name), 1);
        if short_of(name) != Ok::<Seq<u8>, FatError>(raw) {
            assert(raw == alias(alias_stem(name), alias_ext(name), n));
        }
    }
}

} // verus!
