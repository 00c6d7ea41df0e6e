//! 8259 Programmable Interrupt Controller (legacy dual-PIC).
//!
//! Firmware leaves the PIC mapped to vectors that collide with those of CPU
//! exceptions. `init` remaps it out of the way (IRQ0-7 to 32-39, IRQ8-15 to 40-47)
//! and masks every line; drivers unmask only the lines they handle.

use vstd::prelude::*;

verus! {

pub const PIC1_COMMAND: u16 = 0x20;

pub const PIC1_DATA: u16 = 0x21;

pub const PIC2_COMMAND: u16 = 0xa0;

pub const PIC2_DATA: u16 = 0xa1;

pub const PIC_EOI: u8 = 0x20;

/// A write to this unused port is a delay, which the silicon needs between its
/// command words on some hardware.
pub const DELAY_PORT: u16 = 0x80;

/// Vector the first PIC line (IRQ0) is remapped to. IRQ N lands on vector
/// `IRQ_BASE + N`.
pub const IRQ_BASE: u8 = 32;

/// A byte for a port.
#[derive(Clone, Copy, Debug, PartialEq, Eq, Structural)]
pub struct PortWrite {
    pub port: u16,
    pub value: u8,
}

/// The start-up sequence: each command word with a delay after it, then all lines
/// masked.
pub open spec fn start_up() -> Seq<PortWrite> {
    let wait = PortWrite { port: DELAY_PORT, value: 0 };
    seq![
        // Start initialization, with a fourth word to come.
        PortWrite { port: PIC1_COMMAND, value: 0x11 },
        wait,
        PortWrite { port: PIC2_COMMAND, value: 0x11 },
        wait,
        // Vector offsets.
        PortWrite { port: PIC1_DATA, value: 32 },
        wait,
        PortWrite { port: PIC2_DATA, value: 40 },
        wait,
        // The second PIC is on IRQ2 of the first.
        PortWrite { port: PIC1_DATA, value: 4 },
        wait,
        PortWrite { port: PIC2_DATA, value: 2 },
        wait,
        // 8086 mode.
        PortWrite { port: PIC1_DATA, value: 1 },
        wait,
        PortWrite { port: PIC2_DATA, value: 1 },
        wait,
        PortWrite { port: PIC1_DATA, value: 0xff },
        PortWrite { port: PIC2_DATA, value: 0xff },
    ]
}

fn put(out: &mut Vec<PortWrite>, port: u16, value: u8)
    ensures
        final(out)@ == old(out)@.push(PortWrite { port, value }),
{
    out.push(PortWrite { port, value });
}

/// What is to be written to the ports, in order, to start the PICs.
pub fn init() -> (out: Vec<PortWrite>)
    ensures
        out@ == start_up(),
{
    let mut out: Vec<PortWrite> = Vec::new();
    put(&mut out, PIC1_COMMAND, 0x11);
    put(&mut out, DELAY_PORT, 0);
    put(&mut out, PIC2_COMMAND, 0x11);
    put(&mut out, DELAY_PORT, 0);
    put(&mut out, PIC1_DATA, IRQ_BASE);
    put(&mut out, DELAY_PORT, 0);
    put(&mut out, PIC2_DATA, IRQ_BASE + 8);
    put(&mut out, DELAY_PORT, 0);
    put(&mut out, PIC1_DATA, 4);
    put(&mut out, DELAY_PORT, 0);
    put(&mut out, PIC2_DATA, 2);
    put(&mut out, DELAY_PORT, 0);
    put(&mut out, PIC1_DATA, 1);
    put(&mut out, DELAY_PORT, 0);
    put(&mut out, PIC2_DATA, 1);
    put(&mut out, DELAY_PORT, 0);
    put(&mut out, PIC1_DATA, 0xff);
    put(&mut out, PIC2_DATA, 0xff);
    assert(out@ =~= start_up());
    out
}

/// Whether a mask stops a line.
pub open spec fn is_masked(mask: u8, line: int) -> bool {
    (mask >> (line as u8)) & 1 == 1
}

/// Whether two masks agree on every line but one.
pub open spec fn same_but(a: u8, b: u8, line: int) -> bool {
    forall|k: int| 0 <= k < 8 && k != line ==> #[trigger] is_masked(a, k) == is_masked(b, k)
}

/// A mask that lets a line through.
fn cleared(mask: u8, line: u8) -> (r: u8)
    requires
        line < 8,
    ensures
        !is_masked(r, line as int),
        same_but(r, mask, line as int),
{
    let r: u8 = mask & !(1u8 << line);
    assert forall|k: int| 0 <= k < 8 implies #[trigger] is_masked(r, k) == (k != line && is_masked(
        mask,
        k,
    )) by {
        let j = k as u8;
        assert(((mask & !(1u8 << line)) >> j) & 1 == 1 <==> (j != line && (mask >> j) & 1 == 1))
            by (bit_vector)
            requires
                line < 8,
                j < 8,
        ;
    }
    r
}

/// A mask that stops a line.
fn set(mask: u8, line: u8) -> (r: u8)
    requires
        line < 8,
    ensures
        is_masked(r, line as int),
        same_but(r, mask, line as int),
{
    let r: u8 = mask | (1u8 << line);
    assert forall|k: int| 0 <= k < 8 implies #[trigger] is_masked(r, k) == (k == line || is_masked(
        mask,
        k,
    )) by {
        let j = k as u8;
        assert(((mask | (1u8 << line)) >> j) & 1 == 1 <==> (j == line || (mask >> j) & 1 == 1))
            by (bit_vector)
            requires
                line < 8,
                j < 8,
        ;
    }
    r
}

/// The masks of the two PICs, as their data ports show them.
#[derive(Clone, Copy, Debug, PartialEq, Eq, Structural)]
pub struct Masks {
    pub master: u8,
    pub slave: u8,
}

impl Masks {
    /// Whether an IRQ reaches the processor.
    pub open spec fn lets(self, irq: int) -> bool {
        if irq < 8 {
            !is_masked(self.master, irq)
        } else {
            !is_masked(self.slave, irq - 8) && !is_masked(self.master, 2)
        }
    }
}

/// The masks with which IRQ `irq` (0-15) reaches the processor. For a line of the
/// second PIC the cascade line has to be open too.
pub fn unmask(masks: Masks, irq: u8) -> (r: Masks)
    requires
        irq < 16,
    ensures
        r.lets(irq as int),
        irq < 8 ==> r.slave == masks.slave && same_but(r.master, masks.master, irq as int),
        irq >= 8 ==> same_but(r.slave, masks.slave, irq - 8) && same_but(
            r.master,
            masks.master,
            2,
        ),
{
    if irq < 8 {
        Masks { master: cleared(masks.master, irq), slave: masks.slave }
    } else {
        Masks { master: cleared(masks.master, 2), slave: cleared(masks.slave, irq - 8) }
    }
}

/// The masks with which IRQ `irq` (0-15) does not reach the processor.
pub fn mask(masks: Masks, irq: u8) -> (r: Masks)
    requires
        irq < 16,
    ensures
        !r.lets(irq as int),
        irq < 8 ==> r.slave == masks.slave && same_but(r.master, masks.master, irq as int),
        irq >= 8 ==> r.master == masks.master && same_but(r.slave, masks.slave, irq - 8),
{
    if irq < 8 {
        Masks { master: set(masks.master, irq), slave: masks.slave }
    } else {
        Masks { master: masks.master, slave: set(masks.slave, irq - 8) }
    }
}

/// What acknowledges IRQ `irq` (0-15): a line of the second PIC at both.
pub fn end_of_interrupt(irq: u8) -> (out: Vec<PortWrite>)
    ensures
        out@ == if irq >= 8 {
            seq![
                PortWrite { port: PIC2_COMMAND, value: PIC_EOI },
                PortWrite { port: PIC1_COMMAND, value: PIC_EOI },
            ]
        } else {
            seq![PortWrite { port: PIC1_COMMAND, value: PIC_EOI }]
        },
{
    let mut out: Vec<PortWrite> = Vec::new();
    if irq >= 8 {
        put(&mut out, PIC2_COMMAND, PIC_EOI);
    }
    put(&mut out, PIC1_COMMAND, PIC_EOI);
    assert(irq >= 8 ==> out@ =~= seq![
        PortWrite { port: PIC2_COMMAND, value: PIC_EOI },
        PortWrite { port: PIC1_COMMAND, value: PIC_EOI },
    ]);
    assert(irq < 8 ==> out@ =~= seq![PortWrite { port: PIC1_COMMAND, value: PIC_EOI }]);
    out
}

} // verus!
