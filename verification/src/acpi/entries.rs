//! What is read from the tables of the firmware, entry by entry.

use vstd::prelude::*;
use crate::bytes::{le16, le32, le64};
use super::{
    entries_from, first_override, is_sound, madt_from, madt_of, root_of, sum_of, table_at, window,
    with_entry, Contents, IoApicInfo, IsaOverride, Madt, MAX_IOAPICS, MAX_OVERRIDES,
};

verus! {

/// The sum of bytes.
pub open spec fn total(b: Seq<u8>) -> int
    decreases b.len(),
{
    if b.len() == 0 {
        0
    } else {
        total(b.drop_last()) + b.last()
    }
}

proof fn lemma_total(b: Seq<u8>, n: int)
    requires
        0 <= n <= b.len(),
    ensures
        sum_of(b, n) == total(b.take(n)),
    decreases n,
{
    if n > 0 {
        lemma_total(b, n - 1);
        assert(b.take(n).drop_last() =~= b.take(n - 1));
    }
}

/// A table is sound if and only if its bytes add up to a multiple of 256.
pub proof fn law_checksum(b: Seq<u8>)
    ensures
        is_sound(b) <==> total(b) % 256 == 0,
{
    lemma_total(b, b.len() as int);
    assert(b.take(b.len() as int) =~= b);
}

/// Whether the entries of a MADT stand at these places, up to its end.
pub open spec fn are_places(b: Seq<u8>, at: int, p: Seq<int>) -> bool
    decreases p.len(),
{
    if p.len() == 0 {
        b.len() < at + 2
    } else {
        &&& p[0] == at
        &&& 0 <= at
        &&& at + 2 <= b.len()
        &&& b[at + 1] >= 2
        &&& at + b[at + 1] <= b.len()
        &&& are_places(b, at + b[at + 1], p.skip(1))
    }
}

/// Whether an entry is that of an I/O APIC.
pub open spec fn is_controller(b: Seq<u8>, at: int) -> bool {
    b[at] == 1 && b[at + 1] >= 12
}

/// Whether an entry moves an interrupt of the ISA bus.
pub open spec fn is_override(b: Seq<u8>, at: int) -> bool {
    b[at] == 2 && b[at + 1] >= 10
}

/// The I/O APICs of the entries at some places: number, address and first input.
pub open spec fn controllers_at(b: Seq<u8>, p: Seq<int>) -> Seq<IoApicInfo> {
    p.filter(|at: int| is_controller(b, at)).map_values(
        |at: int|
            IoApicInfo {
                id: b[at + 2],
                mmio_base: le32(b, at + 4) as u32,
                gsi_base: le32(b, at + 8) as u32,
            },
    )
}

/// The overrides of the entries at some places: interrupt, input and mode.
pub open spec fn overrides_at(b: Seq<u8>, p: Seq<int>) -> Seq<IsaOverride> {
    p.filter(|at: int| is_override(b, at)).map_values(
        |at: int|
            IsaOverride {
                isa_irq: b[at + 3],
                gsi: le32(b, at + 4) as u32,
                flags: le16(b, at + 8) as u16,
            },
    )
}

proof fn lemma_first(b: Seq<u8>, p: Seq<int>)
    requires
        p.len() > 0,
    ensures
        controllers_at(b, p) == controllers_at(b, seq![p[0]]) + controllers_at(b, p.skip(1)),
        overrides_at(b, p) == overrides_at(b, seq![p[0]]) + overrides_at(b, p.skip(1)),
{
    let one = seq![p[0]];
    let rest = p.skip(1);
    assert(p =~= one + rest);
    Seq::filter_distributes_over_add(one, rest, |at: int| is_controller(b, at));
    Seq::filter_distributes_over_add(one, rest, |at: int| is_override(b, at));
    assert(controllers_at(b, p) =~= controllers_at(b, one) + controllers_at(b, rest));
    assert(overrides_at(b, p) =~= overrides_at(b, one) + overrides_at(b, rest));
}

proof fn lemma_one(b: Seq<u8>, at: int)
    ensures
        controllers_at(b, seq![at]) == if is_controller(b, at) {
            seq![
                IoApicInfo {
                    id: b[at + 2],
                    mmio_base: le32(b, at + 4) as u32,
                    gsi_base: le32(b, at + 8) as u32,
                },
            ]
        } else {
            Seq::empty()
        },
        overrides_at(b, seq![at]) == if is_override(b, at) {
            seq![
                IsaOverride {
                    isa_irq: b[at + 3],
                    gsi: le32(b, at + 4) as u32,
                    flags: le16(b, at + 8) as u16,
                },
            ]
        } else {
            Seq::empty()
        },
{
    let s = seq![at];
    reveal_with_fuel(Seq::filter, 2);
    assert(s.drop_last() =~= Seq::<int>::empty());
    assert(s.drop_last().filter(|x: int| is_controller(b, x)) =~= Seq::<int>::empty());
    assert(s.drop_last().filter(|x: int| is_override(b, x)) =~= Seq::<int>::empty());
    if is_controller(b, at) {
        assert(s.filter(|x: int| is_controller(b, x)) =~= seq![at]);
    } else {
        assert(s.filter(|x: int| is_controller(b, x)) =~= Seq::<int>::empty());
    }
    if is_override(b, at) {
        assert(s.filter(|x: int| is_override(b, x)) =~= seq![at]);
    } else {
        assert(s.filter(|x: int| is_override(b, x)) =~= Seq::<int>::empty());
    }
    assert(controllers_at(b, s) =~= if is_controller(b, at) {
        seq![
            IoApicInfo {
                id: b[at + 2],
                mmio_base: le32(b, at + 4) as u32,
                gsi_base: le32(b, at + 8) as u32,
            },
        ]
    } else {
        Seq::empty()
    });
    assert(overrides_at(b, s) =~= if is_override(b, at) {
        seq![
            IsaOverride {
                isa_irq: b[at + 3],
                gsi: le32(b, at + 4) as u32,
                flags: le16(b, at + 8) as u16,
            },
        ]
    } else {
        Seq::empty()
    });
}

proof fn lemma_entries(b: Seq<u8>, at: int, p: Seq<int>, i: Madt)
    requires
        0 <= at,
        are_places(b, at, p),
        i.ioapics.len() + controllers_at(b, p).len() <= MAX_IOAPICS,
        i.overrides.len() + overrides_at(b, p).len() <= MAX_OVERRIDES,
    ensures
        entries_from(b, at, i) matches Some(m) && m.ioapics == i.ioapics + controllers_at(b, p)
            && m.overrides == i.overrides + overrides_at(b, p),
    decreases p.len(),
{
    if p.len() == 0 {
        reveal(Seq::filter);
        assert(controllers_at(b, p) =~= Seq::<IoApicInfo>::empty());
        assert(overrides_at(b, p) =~= Seq::<IsaOverride>::empty());
        assert(i.ioapics + controllers_at(b, p) =~= i.ioapics);
        assert(i.overrides + overrides_at(b, p) =~= i.overrides);
    } else {
        let len = b[at + 1] as int;
        let rest = p.skip(1);
        lemma_first(b, p);
        lemma_one(b, at);
        let j = with_entry(b, at, len, i);
        assert(j.ioapics =~= i.ioapics + controllers_at(b, seq![at]));
        assert(j.overrides =~= i.overrides + overrides_at(b, seq![at]));
        lemma_entries(b, at + len, rest, j);
        let m = entries_from(b, at, i)->0;
        assert(m.ioapics =~= i.ioapics + controllers_at(b, p));
        assert(m.overrides =~= i.overrides + overrides_at(b, p));
    }
}

/// What a MADT says: its I/O APICs and overrides are those of its entries, in their order,
/// where there are no more than are kept. One without an I/O APIC is of no use.
pub proof fn law_madt_entries(b: Seq<u8>, p: Seq<int>)
    requires
        are_places(b, 44, p),
        controllers_at(b, p).len() <= MAX_IOAPICS,
        overrides_at(b, p).len() <= MAX_OVERRIDES,
    ensures
        match madt_of(b) {
            Some(m) => m.ioapics == controllers_at(b, p) && m.ioapics.len() > 0 && m.overrides
                == overrides_at(b, p),
            None => controllers_at(b, p).len() == 0,
        },
{
    let i = Madt { local_apic: le32(b, 36), ioapics: Seq::empty(), overrides: Seq::empty() };
    lemma_entries(b, 44, p, i);
    assert(i.ioapics + controllers_at(b, p) =~= controllers_at(b, p));
    assert(i.overrides + overrides_at(b, p) =~= overrides_at(b, p));
}

/// The Local APIC is where the MADT says; an entry of type 5 gives a wider address in its
/// place, and other entries leave it alone.
pub proof fn law_local_apic_address(b: Seq<u8>, at: int, len: int, i: Madt)
    requires
        i.ioapics.len() < MAX_IOAPICS,
        i.overrides.len() < MAX_OVERRIDES,
    ensures
        b[at] == 5 && len >= 12 && le64(b, at + 4) > 0 ==> with_entry(b, at, len, i).local_apic
            == le64(b, at + 4),
        b[at] != 5 ==> with_entry(b, at, len, i).local_apic == i.local_apic,
        b.len() < 46 && b.len() >= 44 ==> entries_from(b, 44, i) == Some(i),
{
}

/// An interrupt of the ISA bus goes where its first override says, if it has one.
pub proof fn law_first_override(o: Seq<IsaOverride>, irq: u8)
    ensures
        match first_override(o, irq) {
            Some((gsi, flags)) => exists|k: int|
                0 <= k < o.len() && #[trigger] o[k] == (IsaOverride { isa_irq: irq, gsi, flags })
                    && forall|j: int| 0 <= j < k ==> (#[trigger] o[j]).isa_irq != irq,
            None => forall|j: int| 0 <= j < o.len() ==> (#[trigger] o[j]).isa_irq != irq,
        },
    decreases o.len(),
{
    if o.len() > 0 {
        if o[0].isa_irq == irq {
            assert(o[0] == (IsaOverride { isa_irq: irq, gsi: o[0].gsi, flags: o[0].flags }));
        } else {
            let rest = o.skip(1);
            law_first_override(rest, irq);
            match first_override(rest, irq) {
                Some((gsi, flags)) => {
                    let k = choose|k: int|
                        0 <= k < rest.len() && #[trigger] rest[k] == (IsaOverride {
                            isa_irq: irq,
                            gsi,
                            flags,
                        }) && forall|j: int| 0 <= j < k ==> (#[trigger] rest[j]).isa_irq != irq;
                    assert(o[k + 1] == rest[k]);
                    assert forall|j: int| 0 <= j < k + 1 implies (#[trigger] o[j]).isa_irq != irq by {
                        if j > 0 {
                            assert(rest[j - 1] == o[j]);
                        }
                    }
                },
                None => {
                    assert forall|j: int| 0 <= j < o.len() implies (#[trigger] o[j]).isa_irq != irq by {
                        if j > 0 {
                            assert(rest[j - 1] == o[j]);
                        }
                    }
                },
            }
        }
    }
}

/// The root table: the one with wide pointers where the descriptor is of revision 2 or later,
/// sound over its whole length and has one; else the one with narrow pointers where its
/// first twenty bytes are sound.
pub proof fn law_root_table(m: Contents, rsdp: int)
    ensures
        ({
            let b = window(m, rsdp, 36);
            let named = b.take(8) == seq![0x52u8, 0x53, 0x44, 0x20, 0x50, 0x54, 0x52, 0x20];
            let wide = b[15] >= 2 && 36 <= le32(b, 20) <= 4096 && is_sound(
                window(m, rsdp, le32(b, 20)),
            ) && le64(b, 24) > 0;
            let narrow = is_sound(window(m, rsdp, 20)) && le32(b, 16) > 0;
            root_of(m, rsdp) == if named && wide {
                Some((le64(b, 24), true))
            } else if named && narrow {
                Some((le32(b, 16), false))
            } else {
                None
            }
        }),
{
    let b = window(m, rsdp, 36);
    let name = seq![0x52u8, 0x53, 0x44, 0x20, 0x50, 0x54, 0x52, 0x20];
    if super::is_rsdp(b) {
        assert(b.take(8) =~= name);
    }
    if b.take(8) == name {
        assert(b.take(8)[0] == 0x52 && b.take(8)[1] == 0x53 && b.take(8)[2] == 0x44 && b.take(8)[3]
            == 0x20 && b.take(8)[4] == 0x50 && b.take(8)[5] == 0x54 && b.take(8)[6] == 0x52 && b.take(
            8,
        )[7] == 0x20);
    }
}

/// The table of the interrupt controllers is the first with the signature `APIC` that the
/// root table points at, four or eight bytes for each pointer.
pub proof fn law_table_is_searched_in_order(m: Contents, t: Seq<u8>, at: int, wide: bool)
    requires
        0 <= at,
        at + 8 <= t.len(),
    ensures
        ({
            let p = if wide {
                le64(t, at)
            } else {
                le32(t, at)
            };
            let step = if wide {
                8
            } else {
                4int
            };
            madt_from(m, t, at, wide) == if p != 0 && window(m, p, 4) == seq![
                0x41u8,
                0x50,
                0x49,
                0x43,
            ] {
                Some(p)
            } else {
                madt_from(m, t, at + step, wide)
            }
        }),
{
    let p = if wide {
        le64(t, at)
    } else {
        le32(t, at)
    };
    let w = window(m, p, 36);
    let four = window(m, p, 4);
    let name = seq![0x41u8, 0x50, 0x49, 0x43];
    if super::has_signature(w, super::apic()) {
        assert(four =~= name);
    }
    if four == name {
        assert(four[0] == 0x41 && four[1] == 0x50 && four[2] == 0x49 && four[3] == 0x43);
        assert(w[0] == four[0] && w[1] == four[1] && w[2] == four[2] && w[3] == four[3]);
    }
}

/// A table is read over the length that its header gives, if it has its signature and is
/// sound.
pub proof fn law_tables_are_checked(m: Contents, at: int, sig: Seq<u8>, least: int)
    requires
        sig.len() == 4,
    ensures
        match table_at(m, at, sig, least) {
            Some(t) => {
                &&& t == window(m, at, le32(window(m, at, 8), 4))
                &&& window(m, at, 4) == sig
                &&& is_sound(t)
                &&& least <= le32(window(m, at, 8), 4) <= 0x1_0000
            },
            None => {
                ||| window(m, at, 4) != sig
                ||| le32(window(m, at, 8), 4) < least
                ||| le32(window(m, at, 8), 4) > 0x1_0000
                ||| !is_sound(window(m, at, le32(window(m, at, 8), 4)))
            },
        },
{
    let h = window(m, at, 36);
    let e = window(m, at, 8);
    assert(le32(h, 4) == le32(e, 4));
    let four = window(m, at, 4);
    if super::has_signature(h, sig) {
        assert(four =~= sig);
    }
    if four == sig {
        assert(four[0] == sig[0] && four[1] == sig[1] && four[2] == sig[2] && four[3] == sig[3]);
    }
}

} // verus!
