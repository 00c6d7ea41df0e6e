//! The records of a new entry say its name.

use vstd::prelude::*;
use crate::bytes::{le16, le32, spliced, zeros};
use crate::text::ascii_upper;
use super::directory::{
    after_record, entry_name, is_entry, no_long_name, record_first, store_units, LongName,
};
use super::model::Volume;
use super::names::{
    alias, alias_ext, alias_stem, before_end, fits_long, fits_short, is_short_char,
    lemma_alias_part, lemma_decimal_short, lemma_utf16_round_trip, lfn_all, lfn_bytes, lfn_count,
    lfn_position, lfn_unit, short_of, utf16,
};
use super::update::new_record;

verus! {

/// Whether an 8.3 name does not look like the end of a directory or a deleted record.
pub open spec fn is_shown(short: Seq<u8>) -> bool {
    short.len() == 11 && short[0] != 0 && short[0] != 0xe5
}

proof fn lemma_short_of(name: Seq<char>)
    ensures
        short_of(name) matches Ok(raw) ==> is_shown(raw),
{
    let parts = crate::text::split(name, '.');
    if fits_short(parts) {
        let c = parts[0][0];
        assert(is_short_char(c));
        assert(0x20 < (ascii_upper(c) as u32) < 0x80);
    }
}

proof fn lemma_alias_shown(name: Seq<char>, serial: int)
    requires
        1 <= serial < 100_000,
    ensures
        is_shown(alias(alias_stem(name), alias_ext(name), serial)),
{
    let stem = alias_stem(name);
    lemma_decimal_short(serial as nat);
    lemma_alias_part(
        if crate::text::last_index(name, '.') < 0 {
            name
        } else {
            crate::text::before_last(name, '.')
        },
    );
    let suffix = seq!['~'] + crate::text::decimal(serial as nat);
    let room = 8 - suffix.len();
    let prefix = if stem.len() < room {
        stem
    } else {
        stem.take(room)
    };
    assert(is_short_char(stem[0]));
    assert(prefix[0] == stem[0]);
    assert((prefix + suffix)[0] == stem[0]);
    assert(0x20 < (stem[0] as u32) < 0x80);
}

impl Volume {
    proof fn lemma_free_alias_shown(self, dir: u32, name: Seq<char>, serial: int)
        requires
            1 <= serial,
        ensures
            self.free_alias(dir, alias_stem(name), alias_ext(name), serial) matches Ok(raw)
                ==> is_shown(raw),
        decreases 100_000 - serial,
    {
        if serial < 100_000 {
            lemma_alias_shown(name, serial);
            self.lemma_free_alias_shown(dir, name, serial + 1);
        }
    }

    /// The 8.3 name that a new entry gets is one that is shown.
    pub proof fn lemma_choose_short(self, dir: u32, name: Seq<char>)
        ensures
            self.choose_short(dir, name) matches Ok(raw) ==> is_shown(raw),
    {
        lemma_short_of(name);
        self.lemma_free_alias_shown(dir, name, 1);
    }
}

/// What the record of a new entry says.
pub proof fn lemma_new_record(raw: Seq<u8>, attr: u8, first: u32)
    requires
        is_shown(raw),
        attr == 0x20 || attr == 0x10,
    ensures
        ({
            let e = new_record(raw, attr, first);
            &&& e.len() == 32
            &&& e[0] == raw[0]
            &&& e[0] != 0
            &&& is_entry(e)
            &&& e.subrange(0, 11) == raw
            &&& e[11] == attr
            &&& le32(e, 28) == 0
            &&& record_first(e) == first
        }),
{
    let base = spliced(zeros(32), 0, raw.push(attr));
    super::walks::lemma_with_meta(base, first, 0);
    let e = new_record(raw, attr, first);
    assert(e.len() == 32);
    assert(e.subrange(0, 11) =~= raw);
    assert(e[11] == attr);
    assert(attr / 8 % 2 == 0);
}

/// The long name that records add up to.
pub open spec fn gathered(rs: Seq<Seq<u8>>, from: int, to: int, st: LongName) -> LongName
    decreases to - from,
{
    if from >= to {
        st
    } else {
        gathered(rs, from + 1, to, after_record(st, rs[from]))
    }
}

/// Gathering one record more.
proof fn lemma_gathered_last(rs: Seq<Seq<u8>>, from: int, to: int, st: LongName)
    requires
        from <= to,
    ensures
        gathered(rs, from, to + 1, st) == after_record(gathered(rs, from, to, st), rs[to]),
    decreases to - from,
{
    if from < to {
        lemma_gathered_last(rs, from + 1, to, after_record(st, rs[from]));
    } else {
        assert(gathered(rs, from + 1, to + 1, after_record(st, rs[from])) == after_record(
            st,
            rs[from],
        ));
    }
}

/// The units that a long-name record holds.
proof fn lemma_lfn_units(units: Seq<u16>, order: int, checksum: u8, i: int)
    requires
        0 <= i < 13,
        1 <= order,
    ensures
        le16(lfn_bytes(units, order, checksum), lfn_position(i)) == lfn_unit(
            units,
            13 * (order - 1) + i,
        ),
{
    let e = lfn_bytes(units, order, checksum);
    let p = lfn_position(i);
    let u = lfn_unit(units, 13 * (order - 1) + i);
    assert(e[p] == (u % 0x100) as u8);
    assert(e[p + 1] == (u / 0x100) as u8);
}

/// The units after some of a name's records: those from the last ones on.
pub open spec fn units_from(units: Seq<u16>, start: int) -> Seq<u16> {
    Seq::new(
        260,
        |i: int|
            if start <= i < 13 * lfn_count(units.len() as int) {
                lfn_unit(units, i)
            } else {
                0xffffu16
            },
    )
}

/// The records of a long name add up to its units.
pub proof fn lemma_lfn_gathered(units: Seq<u16>, checksum: u8, n: int, st: LongName)
    requires
        fits_long(units),
        1 <= n <= lfn_count(units.len() as int),
    ensures
        gathered(lfn_all(units, checksum), 0, n, st) == (LongName {
            have: true,
            units: units_from(units, 13 * (lfn_count(units.len() as int) - n)),
        }),
    decreases n,
{
    let count = lfn_count(units.len() as int);
    let rs = lfn_all(units, checksum);
    assert(count <= 20);
    lemma_gathered_last(rs, 0, n - 1, st);
    let order = count - (n - 1);
    let e = rs[n - 1];
    assert(e == lfn_bytes(units, order, checksum));
    assert(e[11] == 0x0f);
    assert(e[0] as int == order + if n == 1 {
        0x40int
    } else {
        0
    });
    assert(e[0] as int % 32 == order);
    let before = if n == 1 {
        no_long_name().units
    } else {
        units_from(units, 13 * order)
    };
    if n > 1 {
        lemma_lfn_gathered(units, checksum, n - 1, st);
        assert(e[0] / 64 % 2 == 0);
    } else {
        assert(gathered(rs, 0, 0, st) == st);
        assert(e[0] / 64 % 2 == 1);
    }
    let now = store_units(before, order, e);
    assert forall|i: int| 0 <= i < 260 implies now[i] == units_from(units, 13 * (order - 1))[i] by {
        if 13 * (order - 1) <= i < 13 * order {
            lemma_lfn_units(units, order, checksum, i - 13 * (order - 1));
        }
    }
    assert(now =~= units_from(units, 13 * (order - 1)));
}

/// What is before the first terminator.
proof fn lemma_before_end(u: Seq<u16>, n: int)
    requires
        0 <= n < u.len(),
        u[n] == 0,
        forall|i: int| 0 <= i < n ==> #[trigger] u[i] != 0 && u[i] != 0xffff,
    ensures
        before_end(u) == u.take(n),
    decreases n,
{
    if n == 0 {
        assert(u.take(0) =~= Seq::empty());
    } else {
        let rest = u.skip(1);
        assert forall|i: int| 0 <= i < n - 1 implies #[trigger] rest[i] != 0 && rest[i] != 0xffff by {
            assert(rest[i] == u[i + 1]);
        }
        assert(rest[n - 1] == u[n]);
        lemma_before_end(rest, n - 1);
        assert(u[0] != 0 && u[0] != 0xffff);
        assert(seq![u[0]] + rest.take(n - 1) =~= u.take(n));
    }
}

/// Whether the units of a name can be told from the filler behind them.
pub open spec fn is_plain_name(name: Seq<char>) -> bool {
    forall|i: int| 0 <= i < utf16(name).len() ==> #[trigger] utf16(name)[i] != 0xffff
}

/// The records of a long name say the name.
pub proof fn lemma_long_name(name: Seq<char>, checksum: u8, st: LongName, e: Seq<u8>)
    requires
        fits_long(utf16(name)),
        is_plain_name(name),
    ensures
        ({
            let rs = lfn_all(utf16(name), checksum);
            entry_name(gathered(rs, 0, rs.len() as int, st), e) == name
        }),
{
    let units = utf16(name);
    let n = units.len() as int;
    let count = lfn_count(n);
    lemma_lfn_gathered(units, checksum, count, st);
    let u = units_from(units, 0);
    assert(n < 13 * count && 13 * count <= 260);
    assert(u[n] == 0);
    assert forall|i: int| 0 <= i < n implies #[trigger] u[i] != 0 && u[i] != 0xffff by {
        assert(u[i] == units[i]);
        assert(!super::names::is_refused_unit(units[i]));
    }
    lemma_before_end(u, n);
    assert(u.take(n) =~= units);
    lemma_utf16_round_trip(name);
    if name.len() == 0 {
        assert(utf16(name).len() == 0);
    }
}

} // verus!
