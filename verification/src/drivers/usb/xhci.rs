//! xHCI (Extensible Host Controller Interface) driver, keyboards only.
//!
//! The driver polls: every wait is bounded and made by the caller. What is to be
//! done with the controller's registers and with memory that it shares is given
//! as a list of operations, followed by a question whose answer decides what
//! comes next.

use vstd::prelude::*;

pub mod keyboard;
pub mod probe;
pub mod setup;
pub mod words;

pub use keyboard::{poll, try_read_byte};
pub use probe::probe;



verus! {

pub const USBCMD_RUN: u32 = 1;

pub const USBCMD_HCRST: u32 = 2;

/// Host controller halted.
pub const USBSTS_HCH: u32 = 1;

/// Controller not ready.
pub const USBSTS_CNR: u32 = 0x800;

/// Current connect status.
pub const PORTSC_CCS: u32 = 1;

/// Port enabled.
pub const PORTSC_PED: u32 = 2;

/// Port reset.
pub const PORTSC_PR: u32 = 0x10;

/// Warm port reset.
pub const PORTSC_WPR: u32 = 0x8000_0000;

/// Connect status change.
pub const PORTSC_CSC: u32 = 0x2_0000;

/// Warm reset change.
pub const PORTSC_WRC: u32 = 0x8_0000;

/// Port reset change.
pub const PORTSC_PRC: u32 = 0x20_0000;

/// Bits with write-one side effects: bit 1 disables the port, bits 17 to 23
/// acknowledge latched changes.
pub const PORTSC_WRITE_ONE_MASK: u32 = 0xfe_0002;

/// Event handler busy.
pub const ERDP_BUSY: u64 = 8;

pub const TRB_CYCLE: u32 = 1;

pub const TRB_TOGGLE_CYCLE: u32 = 2;

pub const TRB_CHAIN: u32 = 0x10;

/// Interrupt on completion.
pub const TRB_IOC: u32 = 0x20;

pub const TRB_TYPE_NORMAL: u32 = 1;

pub const TRB_TYPE_SETUP_STAGE: u32 = 2;

pub const TRB_TYPE_DATA_STAGE: u32 = 3;

pub const TRB_TYPE_STATUS_STAGE: u32 = 4;

pub const TRB_TYPE_LINK: u32 = 6;

pub const TRB_TYPE_ENABLE_SLOT: u32 = 9;

pub const TRB_TYPE_DISABLE_SLOT: u32 = 10;

pub const TRB_TYPE_ADDRESS_DEVICE: u32 = 11;

pub const TRB_TYPE_CONFIGURE_ENDPOINT: u32 = 12;

pub const TRB_TYPE_EVALUATE_CONTEXT: u32 = 13;

pub const TRB_TYPE_TRANSFER_EVENT: u32 = 32;

pub const TRB_TYPE_COMMAND_COMPLETION: u32 = 33;

pub const COMPLETION_SUCCESS: u32 = 1;

pub const COMPLETION_SHORT_PACKET: u32 = 13;

/// Entries per ring; the last one links back to the first.
pub const RING_SIZE: usize = 16;

/// The block that every ring is built from.
#[derive(Clone, Copy, Debug, PartialEq, Eq, Structural)]
pub struct Trb {
    pub parameter: u64,
    pub status: u32,
    pub control: u32,
}

/// A register of the controller.
#[derive(Clone, Copy, Debug, PartialEq, Eq, Structural)]
pub enum Reg {
    UsbCmd,
    UsbSts,
    Config,
    /// Device context base address array pointer.
    Dcbaap,
    /// Command ring control.
    Crcr,
    /// Event ring segment table size, base address, and dequeue pointer.
    ErstSize,
    ErstBase,
    Erdp,
    PortSc(u8),
    /// One per slot; zero is the command ring's.
    Doorbell(u8),
    /// A word of the extended capabilities, by its offset in words.
    Capability(u32),
}

/// Something to be done, in order.
#[derive(Clone, Copy, Debug, PartialEq, Eq, Structural)]
pub enum Op {
    Write32(Reg, u32),
    Write64(Reg, u64),
    /// Zero the frame at a physical address.
    ZeroFrame(u64),
    /// Zero a number of bytes.
    Zero(u64, u64),
    Store32(u64, u32),
    Store64(u64, u64),
    StoreTrb(u64, Trb),
    /// Give a frame back.
    FreeFrame(u64),
}

/// What the driver needs to know next.
#[derive(Clone, Copy, Debug, PartialEq, Eq, Structural)]
pub enum Ask {
    Read(Reg),
    /// Wait until some bit of `mask` is set, or none is.
    Await { reg: Reg, mask: u32, set: bool, ms: u64 },
    /// Wait for the completion of the command at a physical address.
    Command(u64),
    /// Wait for the completion of the transfer whose last block is at a physical
    /// address.
    Transfer(u64),
    /// A zeroed frame.
    Frame,
    /// Bytes that the controller has stored.
    Load { phys: u64, len: u32 },
    /// Memory decoding and bus mastering enabled on the bus.
    BusMaster,
    /// The controller's registers mapped, and its capability registers.
    Registers,
    Nothing,
}

/// The answer to a question.
#[derive(Debug)]
pub enum Answer {
    Value(u32),
    /// A wait ended well, or a thing was done.
    Done,
    TimedOut,
    /// A command or transfer completed.
    Completed { code: u32, slot: u8 },
    Frame(Option<u64>),
    Bytes(Vec<u8>),
    Caps(Capabilities),
}

/// What the capability registers say.
#[derive(Clone, Copy, Debug, PartialEq, Eq, Structural)]
pub struct Capabilities {
    /// Register length and interface version.
    pub length_version: u32,
    pub hcs_params1: u32,
    pub hcc_params1: u32,
    pub doorbells: u32,
    pub runtime: u32,
}

pub open spec fn trb_type(control: u32) -> u32 {
    (control >> 10) & 0x3f
}

pub open spec fn type_bits(t: u32) -> u32 {
    (t & 0x3f) << 10
}

pub fn type_of(control: u32) -> (r: u32)
    ensures
        r == trb_type(control),
{
    (control >> 10) & 0x3f
}

pub fn make_type(t: u32) -> (r: u32)
    ensures
        r == type_bits(t),
{
    (t & 0x3f) << 10
}

/// A ring of blocks with the place where the next one goes and the cycle bit
/// that marks a block as valid. The bit flips every time the ring wraps.
#[derive(Clone, Copy, Debug, PartialEq, Eq, Structural)]
pub struct Ring {
    pub phys: u64,
    pub enqueue: usize,
    pub cycle: u32,
}

impl Ring {
    pub open spec fn wf(self) -> bool {
        &&& self.enqueue < 15
        &&& self.cycle <= 1
        &&& self.phys <= u64::MAX - 4096
    }

    /// The block that links back to the start of the ring.
    pub open spec fn link(self, cycle: u32) -> Trb {
        Trb {
            parameter: self.phys,
            status: 0,
            control: ((type_bits(TRB_TYPE_LINK) | TRB_TOGGLE_CYCLE | TRB_CYCLE) & !TRB_CYCLE)
                | cycle,
        }
    }

    /// A block with the ring's cycle bit.
    pub open spec fn stamped(self, trb: Trb) -> Trb {
        Trb { control: (trb.control & !TRB_CYCLE) | self.cycle, ..trb }
    }

    /// Where the next block goes.
    pub open spec fn slot(self) -> u64 {
        (self.phys + self.enqueue * 16) as u64
    }

    /// What putting a block on the ring stores: the block, and at the end of the
    /// ring the link too, for this round.
    pub open spec fn push_ops(self, trb: Trb) -> Seq<Op> {
        let store = Op::StoreTrb(self.slot(), self.stamped(trb));
        if self.enqueue == 14 {
            seq![store, Op::StoreTrb((self.phys + 240) as u64, self.link(self.cycle))]
        } else {
            seq![store]
        }
    }

    /// The ring after a block was put on it.
    pub open spec fn pushed(self) -> Ring {
        if self.enqueue == 14 {
            Ring { enqueue: 0, cycle: (1 - self.cycle) as u32, ..self }
        } else {
            Ring { enqueue: (self.enqueue + 1) as usize, ..self }
        }
    }

    /// A fresh ring in a zeroed frame, and the link it starts with.
    pub fn new(phys: u64) -> (r: (Ring, Op))
        requires
            phys <= u64::MAX - 4096,
        ensures
            r.0 == (Ring { phys, enqueue: 0, cycle: 1 }),
            r.0.wf(),
            r.1 == Op::StoreTrb(
                (phys + 240) as u64,
                Trb {
                    parameter: phys,
                    status: 0,
                    control: type_bits(TRB_TYPE_LINK) | TRB_TOGGLE_CYCLE | TRB_CYCLE,
                },
            ),
    {
        let link: Trb = Trb {
            parameter: phys,
            status: 0,
            control: make_type(TRB_TYPE_LINK) | TRB_TOGGLE_CYCLE | TRB_CYCLE,
        };
        (Ring { phys, enqueue: 0, cycle: 1 }, Op::StoreTrb(phys + 240, link))
    }

    /// Put a block on the ring. Gives the physical address it went to.
    pub fn push(&mut self, trb: Trb, ops: &mut Vec<Op>) -> (r: u64)
        requires
            old(self).wf(),
        ensures
            final(self).wf(),
            *final(self) == old(self).pushed(),
            r == old(self).slot(),
            final(ops)@ == old(ops)@ + old(self).push_ops(trb),
    {
        let slot: u64 = self.phys + self.enqueue as u64 * 16;
        let stamped: Trb = Trb {
            parameter: trb.parameter,
            status: trb.status,
            control: (trb.control & !TRB_CYCLE) | self.cycle,
        };
        let ghost o = ops@;
        ops.push(Op::StoreTrb(slot, stamped));
        if self.enqueue == RING_SIZE - 2 {
            let link: Trb = Trb {
                parameter: self.phys,
                status: 0,
                control: ((make_type(TRB_TYPE_LINK) | TRB_TOGGLE_CYCLE | TRB_CYCLE) & !TRB_CYCLE)
                    | self.cycle,
            };
            ops.push(Op::StoreTrb(self.phys + 240, link));
            self.enqueue = 0;
            self.cycle = 1 - self.cycle;
        } else {
            self.enqueue = self.enqueue + 1;
        }
        assert(ops@ =~= o + old(self).push_ops(trb));
        slot
    }
}

/// A ring uses each of its fifteen places once per round, and marks the blocks
/// of one round by the other cycle bit than those of the round before.
pub proof fn law_cycle_bit_flips_once_per_round(r: Ring, n: nat)
    requires
        r.wf(),
        r.enqueue == 0,
        n <= 15,
    ensures
        n < 15 ==> after_pushes(r, n).enqueue == n && after_pushes(r, n).cycle == r.cycle,
        n == 15 ==> after_pushes(r, n).enqueue == 0 && after_pushes(r, n).cycle == 1 - r.cycle,
        after_pushes(r, n).phys == r.phys,
    decreases n,
{
    if n > 0 {
        law_cycle_bit_flips_once_per_round(r, (n - 1) as nat);
    }
}

/// A ring after a number of blocks were put on it.
pub open spec fn after_pushes(r: Ring, n: nat) -> Ring
    decreases n,
{
    if n == 0 {
        r
    } else {
        after_pushes(r, (n - 1) as nat).pushed()
    }
}

/// The event ring as the driver reads it.
#[derive(Clone, Copy, Debug, PartialEq, Eq, Structural)]
pub struct EventRing {
    pub phys: u64,
    pub dequeue: usize,
    /// The cycle bit that marks an event as not yet taken.
    pub cycle: u32,
}

impl EventRing {
    pub open spec fn wf(self) -> bool {
        &&& self.dequeue < 16
        &&& self.cycle <= 1
        &&& self.phys <= u64::MAX - 4096
    }

    /// The event ring after an event was taken. It wraps without a link.
    pub open spec fn advanced(self) -> EventRing {
        if self.dequeue == 15 {
            EventRing { dequeue: 0, cycle: (1 - self.cycle) as u32, ..self }
        } else {
            EventRing { dequeue: (self.dequeue + 1) as usize, ..self }
        }
    }

    /// Where the next event stands.
    pub fn next_at(&self) -> (r: u64)
        requires
            self.wf(),
        ensures
            r == self.phys + self.dequeue * 16,
    {
        self.phys + self.dequeue as u64 * 16
    }

    /// Take the event that stands at the dequeue pointer, if it is a new one,
    /// and tell the controller how far the ring has been read.
    pub fn poll(&mut self, trb: Trb) -> (r: Option<(Trb, Op)>)
        requires
            old(self).wf(),
        ensures
            final(self).wf(),
            trb.control & TRB_CYCLE != old(self).cycle ==> r is None && *final(self) == *old(self),
            trb.control & TRB_CYCLE == old(self).cycle ==> {
                &&& *final(self) == old(self).advanced()
                &&& r == Some(
                    (
                        trb,
                        Op::Write64(
                            Reg::Erdp,
                            ((final(self).phys + final(self).dequeue * 16) as u64) | ERDP_BUSY,
                        ),
                    ),
                )
            },
    {
        if trb.control & TRB_CYCLE != self.cycle {
            return None;
        }
        if self.dequeue + 1 == RING_SIZE {
            self.dequeue = 0;
            self.cycle = 1 - self.cycle;
        } else {
            self.dequeue = self.dequeue + 1;
        }
        let at: u64 = self.next_at();
        Some((trb, Op::Write64(Reg::Erdp, at | ERDP_BUSY)))
    }
}

/// A control request, as the parameter of its first block.
pub open spec fn packet(kind: u8, request: u8, value: u16, index: u16, length: u16) -> int {
    kind + request * 0x100 + value * 0x1_0000 + index * 0x1_0000_0000 + length * 0x1_0000_0000_0000
}

/// A control request, as the parameter of its first block.
pub fn setup_packet(kind: u8, request: u8, value: u16, index: u16, length: u16) -> (r: u64)
    ensures
        r == packet(kind, request, value, index, length),
{
    kind as u64 + request as u64 * 0x100 + value as u64 * 0x1_0000 + index as u64 * 0x1_0000_0000
        + length as u64 * 0x1_0000_0000_0000
}

} // verus!
