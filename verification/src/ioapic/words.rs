//! What is written for an interrupt line.

use vstd::arithmetic::div_mod::lemma_fundamental_div_mod_converse;
use vstd::prelude::*;
use super::{
    entry_count, entry_writes, gsi_of, low_masked, low_word, mode_bits, route_of, taker, Config,
    IoApic, RegWrite,
};
use crate::acpi::IsaOverride;

verus! {

/// The low word of a redirection entry has the vector in its lowest byte, which is 32 and
/// the number of the line, fixed delivery to a processor by its number, the mode, and the
/// mask; its other bits stay as they were.
pub proof fn law_low_word(low: u32, irq: u8, active_low: bool, level: bool, masked: bool)
    requires
        irq < 16,
    ensures
        ({
            let bits = (if active_low {
                0x2000int
            } else {
                0
            }) + (if level {
                0x8000int
            } else {
                0
            });
            let w = low_word(low, irq, bits, masked);
            &&& 0 <= w < 0x1_0000_0000
            &&& w % 0x100 == 32 + irq
            &&& w / 0x100 % 16 == 0
            &&& w / 0x1000 % 2 == low / 0x1000 % 2
            &&& (w / 0x2000 % 2 == 1) == active_low
            &&& w / 0x4000 % 2 == low / 0x4000 % 2
            &&& (w / 0x8000 % 2 == 1) == level
            &&& (w / 0x1_0000 % 2 == 1) == masked
            &&& w / 0x2_0000 == low / 0x2_0000
        }),
{
    let (a, l, m) = (
        if active_low {
            1int
        } else {
            0
        },
        if level {
            1int
        } else {
            0
        },
        if masked {
            1int
        } else {
            0
        },
    );
    lemma_fields(
        low as int / 0x2_0000,
        m,
        l,
        low as int / 0x4000 % 2,
        a,
        low as int / 0x1000 % 2,
        32 + irq,
    );
}

proof fn lemma_fields(top: int, m: int, l: int, d: int, a: int, c: int, v: int)
    requires
        0 <= top < 0x8000,
        0 <= m < 2,
        0 <= l < 2,
        0 <= d < 2,
        0 <= a < 2,
        0 <= c < 2,
        0 <= v < 0x100,
    ensures
        ({
            let w = top * 0x2_0000 + d * 0x4000 + c * 0x1000 + v + a * 0x2000 + l * 0x8000 + m
                * 0x1_0000;
            &&& 0 <= w < 0x1_0000_0000
            &&& w % 0x100 == v
            &&& w / 0x100 % 16 == 0
            &&& w / 0x1000 % 2 == c
            &&& w / 0x2000 % 2 == a
            &&& w / 0x4000 % 2 == d
            &&& w / 0x8000 % 2 == l
            &&& w / 0x1_0000 % 2 == m
            &&& w / 0x2_0000 == top
        }),
{
    let w = top * 0x2_0000 + d * 0x4000 + c * 0x1000 + v + a * 0x2000 + l * 0x8000 + m * 0x1_0000;
    let q13 = top * 16 + m * 8 + l * 4 + d * 2 + a;
    let q12 = q13 * 2 + c;
    let q14 = top * 8 + m * 4 + l * 2 + d;
    let q15 = top * 4 + m * 2 + l;
    let q16 = top * 2 + m;
    lemma_fundamental_div_mod_converse(w, 0x100, q12 * 16, v);
    lemma_fundamental_div_mod_converse(w, 0x1000, q12, v);
    lemma_fundamental_div_mod_converse(w, 0x2000, q13, c * 0x1000 + v);
    lemma_fundamental_div_mod_converse(w, 0x4000, q14, a * 0x2000 + c * 0x1000 + v);
    lemma_fundamental_div_mod_converse(w, 0x8000, q15, d * 0x4000 + a * 0x2000 + c * 0x1000 + v);
    lemma_fundamental_div_mod_converse(
        w,
        0x1_0000,
        q16,
        l * 0x8000 + d * 0x4000 + a * 0x2000 + c * 0x1000 + v,
    );
    lemma_fundamental_div_mod_converse(
        w,
        0x2_0000,
        top,
        m * 0x1_0000 + l * 0x8000 + d * 0x4000 + a * 0x2000 + c * 0x1000 + v,
    );
    lemma_fundamental_div_mod_converse(q12, 2, q13, c);
    lemma_fundamental_div_mod_converse(q13, 2, q14, a);
    lemma_fundamental_div_mod_converse(q14, 2, q15, d);
    lemma_fundamental_div_mod_converse(q15, 2, q16, l);
    lemma_fundamental_div_mod_converse(q16, 2, top, m);
    lemma_fundamental_div_mod_converse(q12 * 16, 16, q12, 0);
}

/// The flags of an override: polarity in the lowest two bits and trigger in the next two;
/// 3 is active low and level, 0 and 1 are active high and edge, as the ISA bus has it, and 2
/// is reserved.
pub proof fn law_modes(flags: u16)
    ensures
        match mode_bits(flags) {
            Some(bits) => {
                &&& flags % 4 != 2
                &&& flags / 4 % 4 != 2
                &&& bits / 0x2000 % 2 == 1 <==> flags % 4 == 3
                &&& bits / 0x8000 % 2 == 1 <==> flags / 4 % 4 == 3
                &&& 0 <= bits < 0x1_0000 && bits % 0x2000 == 0 && bits / 0x4000 % 2 == 0
            },
            None => flags % 4 == 2 || flags / 4 % 4 == 2,
        },
{
}

/// The words of an entry are at registers 0x10 and up, two for each input. The entry is
/// masked by the first write, and by none but the last is it what it is to be.
pub proof fn law_entry_is_masked_while_it_changes(io: IoApic, index: u32, low: u32, high: u32)
    requires
        index < 256,
    ensures
        ({
            let w = entry_writes(io, index, low as int, high as int);
            &&& w.len() == 3
            &&& w[0].reg == 0x10 + 2 * index && w[0].value / 0x1_0000 % 2 == 1
            &&& w[0].value == low || w[0].value == low + 0x1_0000
            &&& w[1] == (RegWrite { base: io.base, reg: (0x11 + 2 * index) as u32, value: high })
            &&& w[2] == (RegWrite { base: io.base, reg: (0x10 + 2 * index) as u32, value: low })
        }),
        low_masked(low) / 0x1_0000 % 2 == 1,
        low_masked(low) % 0x1_0000 == low % 0x1_0000,
        low_masked(low) / 0x2_0000 == low / 0x2_0000,
{
}

/// The inputs that a version register tells: one more than the number in its third byte.
pub proof fn law_input_count(version: u32)
    ensures
        1 <= entry_count(version) <= 256,
        (version / 0x1_0000 - (entry_count(version) - 1)) % 256 == 0,
{
}

/// An ISA line comes in at the I/O APIC that takes its input: that of its first override, or
/// else the one with its own number and the modes of the bus; and there at its distance from
/// the first.
pub proof fn law_route(c: Config, irq: u8)
    ensures
        match route_of(c, irq) {
            Some((io, index, flags)) => {
                &&& c.controllers@.contains(io)
                &&& io.gsi_start + index < io.gsi_end
                &&& ((io.gsi_start + index) as u32, flags) == gsi_of(c.madt.view().overrides, irq)
            },
            None => forall|k: int|
                0 <= k < c.controllers@.len() ==> !((#[trigger] c.controllers@[k]).gsi_start
                    <= gsi_of(c.madt.view().overrides, irq).0 < c.controllers@[k].gsi_end),
        },
{
    lemma_taker(c.controllers@, gsi_of(c.madt.view().overrides, irq).0, 0);
}

proof fn lemma_taker(c: Seq<IoApic>, gsi: u32, i: int)
    requires
        0 <= i,
    ensures
        match taker(c, gsi, i) {
            Some(io) => c.contains(io) && io.gsi_start <= gsi < io.gsi_end,
            None => forall|k: int|
                i <= k < c.len() ==> !((#[trigger] c[k]).gsi_start <= gsi < c[k].gsi_end),
        },
    decreases c.len() - i,
{
    if i < c.len() && !(c[i].gsi_start <= gsi < c[i].gsi_end) {
        lemma_taker(c, gsi, i + 1);
    }
}

/// A line without an override keeps its number and the modes of the bus.
pub proof fn law_lines_keep_their_number(o: Seq<IsaOverride>, irq: u8)
    requires
        forall|j: int| 0 <= j < o.len() ==> (#[trigger] o[j]).isa_irq != irq,
    ensures
        gsi_of(o, irq) == (irq as u32, 0u16),
{
    crate::acpi::entries::law_first_override(o, irq);
}

} // verus!
