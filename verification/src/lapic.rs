//! Local APIC (xAPIC/MMIO mode only).
//!
//! It is what actually delivers an interrupt to the processor, and the place to
//! acknowledge one. A processor that already runs in x2APIC mode is refused rather
//! than misprogrammed.

use vstd::prelude::*;

verus! {

pub const REG_ID: u32 = 0x020;

pub const REG_VERSION: u32 = 0x030;

pub const REG_EOI: u32 = 0x0b0;

pub const REG_SPURIOUS: u32 = 0x0f0;

pub const REG_LVT_TIMER: u32 = 0x320;

pub const REG_LVT_THERMAL: u32 = 0x330;

pub const REG_LVT_PERFORMANCE: u32 = 0x340;

pub const REG_LVT_LINT0: u32 = 0x350;

pub const REG_LVT_LINT1: u32 = 0x360;

pub const REG_LVT_ERROR: u32 = 0x370;

pub const LVT_MASKED: u32 = 0x1_0000;

pub const SPURIOUS_APIC_ENABLE: u32 = 0x100;

/// Vector for the spurious-interrupt handler itself.
pub const SPURIOUS_VECTOR: u8 = 0xff;

/// The Local APIC, once it is enabled.
#[derive(Clone, Copy, Debug, PartialEq, Eq, Structural)]
pub struct LocalApic {
    pub enabled: bool,
    pub apic_id: u8,
}

#[derive(Clone, Copy, Debug, PartialEq, Eq, Structural)]
pub enum LapicFault {
    /// The processor has no Local APIC.
    Missing,
    /// The processor is already in x2APIC mode.
    X2Apic,
    NoAddress,
}

/// Where the Local APIC is, and what to write to its base register, if anything.
#[derive(Clone, Copy, Debug, PartialEq, Eq, Structural)]
pub struct Plan {
    pub phys_base: u64,
    pub base_msr: Option<u64>,
}

/// The address in the base register.
pub open spec fn msr_address(msr: u64) -> int {
    msr as int / 4096 % 0x100_0000 * 4096
}

/// How to bring up the Local APIC: the base register is authoritative for where it
/// is, the MADT's copy only a fallback.
pub open spec fn plan_of(edx: u32, msr: u64, madt_addr: u64) -> Result<Plan, LapicFault> {
    let at = if msr_address(msr) != 0 {
        msr_address(msr)
    } else {
        madt_addr as int
    };
    if edx / 512 % 2 == 0 {
        Err(LapicFault::Missing)
    } else if msr / 1024 % 2 == 1 {
        Err(LapicFault::X2Apic)
    } else if at == 0 {
        Err(LapicFault::NoAddress)
    } else {
        Ok(
            Plan {
                phys_base: at as u64,
                base_msr: if msr / 2048 % 2 == 1 {
                    None
                } else {
                    Some((msr + 2048) as u64)
                },
            },
        )
    }
}

/// Work out how to bring up the Local APIC, from the features that the processor
/// reports, its base register and the MADT.
pub fn plan(edx: u32, msr: u64, madt_addr: u64) -> (r: Result<Plan, LapicFault>)
    ensures
        r == plan_of(edx, msr, madt_addr),
{
    if edx / 512 % 2 == 0 {
        return Err(LapicFault::Missing);
    }
    if msr / 1024 % 2 == 1 {
        return Err(LapicFault::X2Apic);
    }
    let from_msr: u64 = msr / 4096 % 0x100_0000 * 4096;
    let at: u64 = if from_msr != 0 {
        from_msr
    } else {
        madt_addr
    };
    if at == 0 {
        return Err(LapicFault::NoAddress);
    }
    let base_msr: Option<u64> = if msr / 2048 % 2 == 1 {
        None
    } else {
        Some(msr + 2048)
    };
    Ok(Plan { phys_base: at, base_msr })
}

/// A write to a register of the Local APIC.
#[derive(Clone, Copy, Debug, PartialEq, Eq, Structural)]
pub struct LapicWrite {
    pub reg: u32,
    pub value: u32,
}

/// The registers of the local sources, in order; which there are, the version
/// register tells.
pub open spec fn sources() -> Seq<u32> {
    seq![
        REG_LVT_TIMER,
        REG_LVT_THERMAL,
        REG_LVT_PERFORMANCE,
        REG_LVT_LINT0,
        REG_LVT_LINT1,
        REG_LVT_ERROR,
    ]
}

/// How many local sources there are to mask.
pub open spec fn source_count(version: u32) -> int {
    let last = version as int / 0x1_0000 % 256;
    if last >= 5 {
        6
    } else {
        last + 1
    }
}

/// What enables the Local APIC, given its version register: firmware may have left
/// local sources on with vectors that are not installed, so these are masked; then
/// it is enabled with its spurious vector.
pub fn init(version: u32) -> (out: Vec<LapicWrite>)
    ensures
        out@.len() == source_count(version) + 1,
        forall|i: int|
            0 <= i < source_count(version) ==> #[trigger] out@[i] == (LapicWrite {
                reg: sources()[i],
                value: LVT_MASKED,
            }),
        out@.last() == (LapicWrite { reg: REG_SPURIOUS, value: 0x1ff }),
{
    let last: u32 = version / 0x1_0000 % 256;
    let mut out: Vec<LapicWrite> = Vec::new();
    out.push(LapicWrite { reg: REG_LVT_TIMER, value: LVT_MASKED });
    if last >= 1 {
        out.push(LapicWrite { reg: REG_LVT_THERMAL, value: LVT_MASKED });
    }
    if last >= 2 {
        out.push(LapicWrite { reg: REG_LVT_PERFORMANCE, value: LVT_MASKED });
    }
    if last >= 3 {
        out.push(LapicWrite { reg: REG_LVT_LINT0, value: LVT_MASKED });
    }
    if last >= 4 {
        out.push(LapicWrite { reg: REG_LVT_LINT1, value: LVT_MASKED });
    }
    if last >= 5 {
        out.push(LapicWrite { reg: REG_LVT_ERROR, value: LVT_MASKED });
    }
    out.push(
        LapicWrite { reg: REG_SPURIOUS, value: SPURIOUS_VECTOR as u32 + SPURIOUS_APIC_ENABLE },
    );
    out
}

/// The Local APIC is enabled; its ID register holds `id_reg`.
pub fn enabled(id_reg: u32) -> (r: LocalApic)
    ensures
        r == (LocalApic { enabled: true, apic_id: (id_reg / 0x100_0000) as u8 }),
{
    LocalApic { enabled: true, apic_id: (id_reg / 0x100_0000) as u8 }
}

/// Whether the Local APIC was enabled.
pub fn is_enabled(lapic: &LocalApic) -> (r: bool)
    ensures
        r == lapic.enabled,
{
    lapic.enabled
}

/// Hardware destination ID used in I/O APIC redirection entries.
pub fn id(lapic: &LocalApic) -> (r: u8)
    ensures
        r == lapic.apic_id,
{
    lapic.apic_id
}

/// What acknowledges the current interrupt: one write always acknowledges whatever
/// is being serviced.
pub fn end_of_interrupt() -> (r: LapicWrite)
    ensures
        r == (LapicWrite { reg: REG_EOI, value: 0 }),
{
    LapicWrite { reg: REG_EOI, value: 0 }
}

/// How the Local APIC is brought up, by the bits that tell: one that is there, by bit 9 of
/// the features; not in x2APIC mode, by bit 10 of its base register; at the address in bits
/// 12 to 35 of that register, or else in the MADT. Where it is off, its base register is to
/// have bit 11 set and all else as it was.
pub proof fn law_plan(edx: u32, msr: u64, madt_addr: u64)
    ensures
        match plan_of(edx, msr, madt_addr) {
            Ok(p) => {
                &&& edx / 0x200 % 2 == 1
                &&& msr / 0x400 % 2 == 0
                &&& p.phys_base > 0
                &&& p.phys_base == madt_addr && msr / 0x1000 % 0x100_0000 == 0 || p.phys_base / 0x1000
                    == msr / 0x1000 % 0x100_0000 && p.phys_base % 0x1000 == 0
                &&& p.base_msr is None <==> msr / 0x800 % 2 == 1
                &&& p.base_msr matches Some(v) ==> v / 0x800 == msr / 0x800 + 1 && v % 0x800 == msr
                    % 0x800
            },
            Err(LapicFault::Missing) => edx / 0x200 % 2 == 0,
            Err(LapicFault::X2Apic) => edx / 0x200 % 2 == 1 && msr / 0x400 % 2 == 1,
            Err(LapicFault::NoAddress) => madt_addr == 0 && msr / 0x1000 % 0x100_0000 == 0,
        },
{
}

} // verus!
