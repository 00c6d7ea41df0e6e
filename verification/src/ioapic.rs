//! ACPI-configured I/O APICs for routing legacy ISA IRQs to this processor.

use vstd::prelude::*;
use crate::acpi::{first_override, IoApicInfo, IsaOverride, MadtInfo, MAX_IOAPICS};
use crate::pic::IRQ_BASE;

pub mod masking;
pub mod words;

verus! {

pub const REG_ID: u32 = 0x00;

pub const REG_VERSION: u32 = 0x01;

pub const REG_REDIRECTION_BASE: u32 = 0x10;

pub const REDIR_ACTIVE_LOW: u32 = 0x2000;

pub const REDIR_LEVEL_TRIGGERED: u32 = 0x8000;

pub const REDIR_MASKED: u32 = 0x1_0000;

/// One I/O APIC: where its registers are and which GSIs it takes.
#[derive(Clone, Copy, Debug, PartialEq, Eq, Structural)]
pub struct IoApic {
    pub base: u64,
    pub gsi_start: u32,
    pub gsi_end: u32,
}

impl IoApic {
    /// Whether an I/O APIC has as many inputs as one can have.
    pub open spec fn is_sound(self) -> bool {
        self.gsi_start < self.gsi_end <= self.gsi_start + 256
    }
}

/// The I/O APICs and the overrides of ISA IRQs.
pub struct Config {
    pub controllers: Vec<IoApic>,
    pub madt: MadtInfo,
}

/// What is known of an I/O APIC once its registers are mapped: their address and
/// its version register.
#[derive(Clone, Copy, Debug, PartialEq, Eq, Structural)]
pub struct Mapped {
    pub base: u64,
    pub version: u32,
}

#[derive(Clone, Copy, Debug, PartialEq, Eq, Structural)]
pub enum IoApicFault {
    /// The MADT has no usable entries.
    NoEntries,
    ZeroBase { id: u8 },
    RangeOverflow,
    Overlap,
}

/// The number of redirection entries that a version register tells.
pub open spec fn entry_count(version: u32) -> int {
    version as int / 0x1_0000 % 256 + 1
}

/// Whether two ranges of GSIs have one in common.
pub open spec fn is_overlap(a: IoApic, b: IoApic) -> bool {
    a.gsi_start < b.gsi_end && b.gsi_start < a.gsi_end
}

/// The first `n` I/O APICs, or what is wrong with one.
pub open spec fn controllers(info: Seq<IoApicInfo>, m: Seq<Mapped>, n: int) -> Result<
    Seq<IoApic>,
    IoApicFault,
>
    decreases n,
{
    if n <= 0 {
        Ok(Seq::empty())
    } else {
        match controllers(info, m, n - 1) {
            Err(e) => Err(e),
            Ok(found) => {
                let i = info[n - 1];
                let end = i.gsi_base + entry_count(m[n - 1].version);
                let io = IoApic {
                    base: m[n - 1].base,
                    gsi_start: i.gsi_base,
                    gsi_end: end as u32,
                };
                if i.mmio_base == 0 {
                    Err(IoApicFault::ZeroBase { id: i.id })
                } else if end > u32::MAX {
                    Err(IoApicFault::RangeOverflow)
                } else if exists|k: int|
                    0 <= k < found.len() && #[trigger] is_overlap(io, found[k]) {
                    Err(IoApicFault::Overlap)
                } else {
                    Ok(found.push(io))
                }
            },
        }
    }
}

/// What a set of I/O APICs comes to.
pub open spec fn config_of(madt: MadtInfo, m: Seq<Mapped>) -> Result<Seq<IoApic>, IoApicFault> {
    if madt.ioapic_count == 0 {
        Err(IoApicFault::NoEntries)
    } else {
        controllers(madt.view().ioapics, m, madt.ioapic_count as int)
    }
}

fn overlaps_one(io: IoApic, found: &Vec<IoApic>) -> (r: bool)
    ensures
        r == exists|k: int| 0 <= k < found@.len() && #[trigger] is_overlap(io, found@[k]),
{
    let n: usize = found.len();
    let mut i: usize = 0;
    while i < n
        invariant
            i <= n,
            n == found@.len(),
            forall|k: int| 0 <= k < i ==> !#[trigger] is_overlap(io, found@[k]),
        decreases n - i,
    {
        if io.gsi_start < found[i].gsi_end && found[i].gsi_start < io.gsi_end {
            assert(is_overlap(io, found@[i as int]));
            return true;
        }
        i += 1;
    }
    false
}

/// Work out which I/O APIC takes which GSIs, their registers being mapped. Their
/// inputs are all to be masked then; ISA lines are let through later, after drivers
/// register their handlers.
pub fn init(madt: MadtInfo, mapped: &[Mapped]) -> (r: Result<Config, IoApicFault>)
    requires
        madt.wf(),
        mapped@.len() >= madt.ioapic_count,
    ensures
        match r {
            Ok(c) => {
                &&& config_of(madt, mapped@) == Ok::<Seq<IoApic>, IoApicFault>(c.controllers@)
                &&& c.madt == madt
                &&& c.wf()
            },
            Err(e) => config_of(madt, mapped@) == Err::<Seq<IoApic>, IoApicFault>(e),
        },
{
    let count: usize = madt.ioapic_count;
    if count == 0 {
        return Err(IoApicFault::NoEntries);
    }
    let ghost infos = madt.view().ioapics;
    let mut found: Vec<IoApic> = Vec::new();
    let mut i: usize = 0;
    while i < count
        invariant
            i <= count,
            count == madt.ioapic_count,
            count <= MAX_IOAPICS,
            count > 0,
            mapped@.len() >= count,
            infos == madt.view().ioapics,
            controllers(infos, mapped@, i as int) == Ok::<Seq<IoApic>, IoApicFault>(found@),
            are_apart(found@),
            forall|k: int| 0 <= k < found@.len() ==> (#[trigger] found@[k]).is_sound(),
        decreases count - i,
    {
        let info: IoApicInfo = madt.ioapics[i];
        assert(infos[i as int] == info);
        if info.mmio_base == 0 {
            proof {
                lemma_fails(infos, mapped@, i + 1, count as int);
            }
            return Err(IoApicFault::ZeroBase { id: info.id });
        }
        let entries: u32 = mapped[i].version / 0x1_0000 % 256 + 1;
        let end: u32 = match info.gsi_base.checked_add(entries) {
            Some(end) => end,
            None => {
                proof {
                    lemma_fails(infos, mapped@, i + 1, count as int);
                }
                return Err(IoApicFault::RangeOverflow);
            },
        };
        let io: IoApic = IoApic { base: mapped[i].base, gsi_start: info.gsi_base, gsi_end: end };
        if overlaps_one(io, &found) {
            proof {
                lemma_fails(infos, mapped@, i + 1, count as int);
            }
            return Err(IoApicFault::Overlap);
        }
        found.push(io);
        i += 1;
    }
    Ok(Config { controllers: found, madt })
}

proof fn lemma_fails(info: Seq<IoApicInfo>, m: Seq<Mapped>, i: int, n: int)
    requires
        0 <= i <= n,
        controllers(info, m, i) is Err,
    ensures
        controllers(info, m, n) == controllers(info, m, i),
    decreases n - i,
{
    if i < n {
        lemma_fails(info, m, i, n - 1);
    }
}

/// Whether no two I/O APICs take the same GSI.
pub open spec fn are_apart(c: Seq<IoApic>) -> bool {
    forall|i: int, j: int|
        0 <= i < j < c.len() ==> !is_overlap(#[trigger] c[j], #[trigger] c[i])
}

impl Config {
    pub open spec fn wf(self) -> bool {
        &&& self.madt.wf()
        &&& are_apart(self.controllers@)
        &&& forall|k: int|
            0 <= k < self.controllers@.len() ==> (#[trigger] self.controllers@[k]).is_sound()
    }
}

/// The GSI of an ISA IRQ and the flags of its override: its own number where there
/// is none.
pub open spec fn gsi_of(o: Seq<IsaOverride>, irq: u8) -> (u32, u16) {
    match first_override(o, irq) {
        Some(g) => g,
        None => (irq as u32, 0),
    }
}

/// The I/O APIC, from place `i` on, that takes a GSI.
pub open spec fn taker(c: Seq<IoApic>, gsi: u32, i: int) -> Option<IoApic>
    decreases c.len() - i,
{
    if i < 0 || i >= c.len() {
        None
    } else if c[i].gsi_start <= gsi < c[i].gsi_end {
        Some(c[i])
    } else {
        taker(c, gsi, i + 1)
    }
}

/// Where an ISA IRQ comes in: the I/O APIC, its input and the flags.
pub open spec fn route_of(c: Config, irq: u8) -> Option<(IoApic, u32, u16)> {
    let (gsi, flags) = gsi_of(c.madt.view().overrides, irq);
    match taker(c.controllers@, gsi, 0) {
        Some(io) => Some((io, (gsi - io.gsi_start) as u32, flags)),
        None => None,
    }
}

pub fn isa_route(c: &Config, irq: u8) -> (r: Option<(IoApic, u32, u16)>)
    requires
        c.wf(),
    ensures
        r == route_of(*c, irq),
        r matches Some((_, index, _)) ==> index < 256,
{
    let (gsi, flags): (u32, u16) = match c.madt.override_for(irq) {
        Some(g) => g,
        None => (irq as u32, 0),
    };
    let n: usize = c.controllers.len();
    let mut i: usize = 0;
    while i < n
        invariant
            i <= n,
            n == c.controllers@.len(),
            c.wf(),
            taker(c.controllers@, gsi, 0) == taker(c.controllers@, gsi, i as int),
            (gsi, flags) == gsi_of(c.madt.view().overrides, irq),
        decreases n - i,
    {
        let io: IoApic = c.controllers[i];
        if gsi >= io.gsi_start && gsi < io.gsi_end {
            assert(c.controllers@[i as int].is_sound());
            return Some((io, gsi - io.gsi_start, flags));
        }
        i += 1;
    }
    None
}

/// A GSI comes in at no more than one I/O APIC.
pub proof fn law_one_taker(c: Seq<IoApic>, gsi: u32, i: int, j: int)
    requires
        are_apart(c),
        0 <= i < j < c.len(),
        c[i].gsi_start <= gsi < c[i].gsi_end,
    ensures
        !(c[j].gsi_start <= gsi < c[j].gsi_end),
{
    assert(!is_overlap(c[j], c[i]));
}

/// The polarity and trigger bits for the flags of an override, which has reserved
/// values.
pub open spec fn mode_bits(flags: u16) -> Option<int> {
    let polarity = flags % 4;
    let trigger = flags / 4 % 4;
    if polarity == 2 || trigger == 2 {
        None
    } else {
        Some(
            (if polarity == 3 {
                0x2000int
            } else {
                0
            }) + if trigger == 3 {
                0x8000int
            } else {
                0
            },
        )
    }
}

pub fn polarity_trigger(flags: u16) -> (r: Option<u32>)
    ensures
        match r {
            Some(b) => mode_bits(flags) == Some(b as int),
            None => mode_bits(flags) is None,
        },
{
    let polarity: u16 = flags % 4;
    let trigger: u16 = flags / 4 % 4;
    if polarity == 2 || trigger == 2 {
        return None;
    }
    let mut bits: u32 = 0;
    if polarity == 3 {
        bits = bits + REDIR_ACTIVE_LOW;
    }
    if trigger == 3 {
        bits = bits + REDIR_LEVEL_TRIGGERED;
    }
    Some(bits)
}

/// Whether an ISA line can be used.
pub open spec fn is_supported(c: Option<Config>, irq: u8) -> bool {
    c matches Some(c) && route_of(c, irq) matches Some((_, _, flags)) && mode_bits(flags) is Some
}

/// Check that an ISA line maps to a present I/O APIC input and has valid
/// polarity and trigger flags before enabling APIC mode.
pub fn supports_isa_irq(config: &Option<Config>, irq: u8) -> (r: bool)
    requires
        config matches Some(c) ==> c.wf(),
    ensures
        r == is_supported(*config, irq),
{
    match config {
        None => false,
        Some(c) => match isa_route(c, irq) {
            None => false,
            Some((_, _, flags)) => polarity_trigger(flags).is_some(),
        },
    }
}

/// A write to a register of an I/O APIC.
#[derive(Clone, Copy, Debug, PartialEq, Eq, Structural)]
pub struct RegWrite {
    pub base: u64,
    pub reg: u32,
    pub value: u32,
}

/// The low word of a redirection entry: fixed delivery of the IRQ's vector to one
/// processor, in a mode. Bits with other meanings stay as they were.
pub open spec fn low_word(low: u32, irq: u8, bits: int, masked: bool) -> int {
    low / 0x2_0000 * 0x2_0000 + low / 0x4000 % 2 * 0x4000 + low / 0x1000 % 2 * 0x1000 + 32 + irq
        + bits + if masked {
        0x1_0000int
    } else {
        0
    }
}

/// What is to be written for a redirection entry: it is masked before its
/// destination changes, and its low word is committed last, so that a partially
/// updated entry cannot deliver IRQs.
pub open spec fn entry_writes(io: IoApic, index: u32, low: int, high: int) -> Seq<RegWrite> {
    let reg = 0x10 + index * 2;
    let masked = if low / 0x1_0000 % 2 == 1 {
        low
    } else {
        low + 0x1_0000
    };
    seq![
        RegWrite { base: io.base, reg: reg as u32, value: masked as u32 },
        RegWrite { base: io.base, reg: (reg + 1) as u32, value: high as u32 },
        RegWrite { base: io.base, reg: reg as u32, value: low as u32 },
    ]
}

pub fn redirection_write(io: IoApic, index: u32, low: u32, high: u32) -> (r: [RegWrite; 3])
    requires
        index < 0x7fff_fff0,
    ensures
        r@ == entry_writes(io, index, low as int, high as int),
{
    let reg: u32 = REG_REDIRECTION_BASE + index * 2;
    let masked: u32 = if low / 0x1_0000 % 2 == 1 {
        low
    } else {
        low + REDIR_MASKED
    };
    let r: [RegWrite; 3] = [
        RegWrite { base: io.base, reg, value: masked },
        RegWrite { base: io.base, reg: reg + 1, value: high },
        RegWrite { base: io.base, reg, value: low },
    ];
    assert(r@ =~= entry_writes(io, index, low as int, high as int));
    r
}

/// The low word of an entry, masked.
pub open spec fn low_masked(low: u32) -> int {
    if low / 0x1_0000 % 2 == 1 {
        low as int
    } else {
        low + 0x1_0000
    }
}

/// What masks an input, given what its entry holds.
pub fn mask_input(io: IoApic, index: u32, low: u32, high: u32) -> (r: [RegWrite; 3])
    requires
        index < 0x7fff_fff0,
    ensures
        r@ == entry_writes(io, index, low_masked(low), high as int),
{
    let masked: u32 = if low / 0x1_0000 % 2 == 1 {
        low
    } else {
        low + REDIR_MASKED
    };
    redirection_write(io, index, masked, high)
}

#[derive(Clone, Copy, Debug, PartialEq, Eq, Structural)]
pub enum RouteFault {
    NotInitialized,
    NoController,
    ReservedFlags,
}

/// Where the entry of an ISA line is, and its mode, or why there is none.
pub open spec fn line_of(c: Option<Config>, irq: u8) -> Result<(IoApic, u32, int), RouteFault> {
    match c {
        None => Err(RouteFault::NotInitialized),
        Some(c) => match route_of(c, irq) {
            None => Err(RouteFault::NoController),
            Some((io, index, flags)) => match mode_bits(flags) {
                None => Err(RouteFault::ReservedFlags),
                Some(bits) => Ok((io, index, bits)),
            },
        },
    }
}

/// Find the entry of an ISA line, whose low word is to be read.
pub fn find_line(config: &Option<Config>, irq: u8) -> (r: Result<(IoApic, u32, u32), RouteFault>)
    requires
        config matches Some(c) ==> c.wf(),
    ensures
        match r {
            Ok((io, index, bits)) => line_of(*config, irq) == Ok::<(IoApic, u32, int), RouteFault>(
                (io, index, bits as int),
            ) && index < 256 && (bits == 0 || bits == 0x2000 || bits == 0x8000 || bits == 0xa000),
            Err(e) => line_of(*config, irq) == Err::<(IoApic, u32, int), RouteFault>(e),
        },
{
    match config {
        None => Err(RouteFault::NotInitialized),
        Some(c) => match isa_route(c, irq) {
            None => Err(RouteFault::NoController),
            Some((io, index, flags)) => match polarity_trigger(flags) {
                None => Err(RouteFault::ReservedFlags),
                Some(bits) => Ok((io, index, bits)),
            },
        },
    }
}

fn set_isa_irq(line: (IoApic, u32, u32), irq: u8, low: u32, lapic_id: u8, masked: bool) -> (r: [RegWrite; 3])
    requires
        irq < 16,
        line.1 < 0x7fff_fff0,
        line.2 == 0 || line.2 == 0x2000 || line.2 == 0x8000 || line.2 == 0xa000,
    ensures
        r@ == entry_writes(
            line.0,
            line.1,
            low_word(low, irq, line.2 as int, masked),
            lapic_id * 0x100_0000,
        ),
{
    let kept: u32 = low / 0x2_0000 * 0x2_0000 + low / 0x4000 % 2 * 0x4000 + low / 0x1000 % 2 * 0x1000;
    let routed: u32 = kept + IRQ_BASE as u32 + irq as u32 + line.2;
    let value: u32 = if masked {
        routed + REDIR_MASKED
    } else {
        routed
    };
    redirection_write(line.0, line.1, value, lapic_id as u32 * 0x100_0000)
}

/// What lets an ISA line through to the processor with an APIC ID, given the low
/// word of its entry.
pub fn unmask_isa_irq(line: (IoApic, u32, u32), irq: u8, low: u32, lapic_id: u8) -> (r: [RegWrite; 3])
    requires
        irq < 16,
        line.1 < 0x7fff_fff0,
        line.2 == 0 || line.2 == 0x2000 || line.2 == 0x8000 || line.2 == 0xa000,
    ensures
        r@ == entry_writes(
            line.0,
            line.1,
            low_word(low, irq, line.2 as int, false),
            lapic_id * 0x100_0000,
        ),
{
    set_isa_irq(line, irq, low, lapic_id, false)
}

/// What stops an ISA line, given the low word of its entry.
pub fn mask_isa_irq(line: (IoApic, u32, u32), irq: u8, low: u32, lapic_id: u8) -> (r: [RegWrite; 3])
    requires
        irq < 16,
        line.1 < 0x7fff_fff0,
        line.2 == 0 || line.2 == 0x2000 || line.2 == 0x8000 || line.2 == 0xa000,
    ensures
        r@ == entry_writes(
            line.0,
            line.1,
            low_word(low, irq, line.2 as int, true),
            lapic_id * 0x100_0000,
        ),
{
    set_isa_irq(line, irq, low, lapic_id, true)
}

} // verus!
