//! Bringing up an xHCI controller and scanning its ports for keyboards.

use vstd::prelude::*;
use super::keyboard::Controller;
use super::setup::{
    carried, carried_ring, command_ops, do_command, is_new_keyboard, link_op, next_turn, Setup,
    Stage as PortStage,
};
use super::{
    make_type, type_bits, Answer, Ask, Capabilities, EventRing, Op, Reg, Ring, Trb, PORTSC_CCS,
    TRB_TYPE_DISABLE_SLOT, USBCMD_HCRST, USBCMD_RUN, USBSTS_CNR, USBSTS_HCH,
};

verus! {

/// The capability that tells who owns the controller.
pub const XECP_ID_USB_LEGACY: u32 = 1;

pub const USBLEGSUP_BIOS_OWNED: u32 = 0x1_0000;

pub const USBLEGSUP_OS_OWNED: u32 = 0x100_0000;

/// The bits to keep in the legacy control register: not the enables of
/// management interrupts.
pub const USBLEGCTLSTS_DISABLE_SMI: u32 = 0xe_1fee;

/// Pending management interrupts, acknowledged by writing ones.
pub const USBLEGCTLSTS_SMI_EVENTS: u32 = 0xe000_0000;

/// What the capability registers come to.
#[derive(Clone, Copy, Debug, PartialEq, Eq, Structural)]
pub struct Found {
    pub slots: u8,
    pub ports: u8,
    pub context_size: u64,
    /// Offsets of the operational registers, the doorbells and the runtime
    /// registers.
    pub operational: u32,
    pub doorbells: u32,
    pub runtime: u32,
    /// Offset of the first extended capability in words; zero for none.
    pub extended: u32,
}

/// Reading the capability registers.
pub open spec fn found_in(c: Capabilities) -> Found {
    Found {
        slots: (c.hcs_params1 % 0x100) as u8,
        ports: (c.hcs_params1 / 0x100_0000) as u8,
        context_size: if c.hcc_params1 / 4 % 2 == 1 {
            64
        } else {
            32
        },
        operational: (c.length_version % 0x100) as u32,
        doorbells: (c.doorbells / 4 * 4) as u32,
        runtime: (c.runtime / 32 * 32) as u32,
        extended: (c.hcc_params1 / 0x1_0000) as u32,
    }
}

pub fn read_capabilities(c: Capabilities) -> (r: Found)
    ensures
        r == found_in(c),
{
    Found {
        slots: (c.hcs_params1 % 0x100) as u8,
        ports: (c.hcs_params1 / 0x100_0000) as u8,
        context_size: if c.hcc_params1 / 4 % 2 == 1 {
            64
        } else {
            32
        },
        operational: c.length_version % 0x100,
        doorbells: c.doorbells / 4 * 4,
        runtime: c.runtime / 32 * 32,
        extended: c.hcc_params1 / 0x1_0000,
    }
}

/// Why a controller could not be brought up.
#[derive(Clone, Copy, Debug, PartialEq, Eq, Structural)]
pub enum Fault {
    NoBar,
    NoBusMaster,
    NoRegisters,
    NoSlotsOrPorts,
    ResetTimedOut,
    OutOfMemory,
    DidNotRun,
    /// An answer that does not fit the question.
    Confused,
}

/// How far bringing up the controller has got.
#[derive(Clone, Copy, Debug, PartialEq, Eq, Structural)]
pub enum Stage {
    BusMaster,
    Registers,
    /// Looking at an extended capability; so many may still follow.
    Capability { offset: u32, left: u32 },
    Handoff { offset: u32 },
    LegacyControl { offset: u32 },
    Command,
    Halting,
    Resetting,
    NotReady,
    Frames,
    Running,
    /// Looking at a port; so many were connected so far.
    Port { port: u8, connected: u8 },
    PortWork { port: u8, connected: u8 },
    Disabling { port: u8, connected: u8 },
    Failed(Fault),
    Finished { connected: u8 },
}

/// How many extended capabilities are looked at.
pub const MAX_CAPABILITIES: u32 = 256;

/// The questions before the first frame: firmware is asked to let go of the
/// controller, which is then halted and reset.
pub open spec fn next_reset(s: Stage, a: Answer) -> (Stage, Seq<Op>, Ask) {
    let none = Seq::<Op>::empty();
    match s {
        Stage::BusMaster => match a {
            Answer::Done => (Stage::Registers, none, Ask::Registers),
            _ => (Stage::Failed(Fault::NoBusMaster), none, Ask::Nothing),
        },
        Stage::Registers => match a {
            Answer::Caps(c) => if found_in(c).slots == 0 || found_in(c).ports == 0 {
                (Stage::Failed(Fault::NoSlotsOrPorts), none, Ask::Nothing)
            } else if found_in(c).extended != 0 {
                (
                    Stage::Capability { offset: found_in(c).extended, left: MAX_CAPABILITIES },
                    none,
                    Ask::Read(Reg::Capability(found_in(c).extended)),
                )
            } else {
                (Stage::Command, none, Ask::Read(Reg::UsbCmd))
            },
            _ => (Stage::Failed(Fault::NoRegisters), none, Ask::Nothing),
        },
        Stage::Capability { offset, left } => match a {
            Answer::Value(v) => {
                let next = v / 0x100 % 0x100;
                if v % 0x100 == XECP_ID_USB_LEGACY {
                    if v & USBLEGSUP_BIOS_OWNED != 0 {
                        (
                            Stage::Handoff { offset },
                            seq![Op::Write32(Reg::Capability(offset), v | USBLEGSUP_OS_OWNED)],
                            Ask::Await {
                                reg: Reg::Capability(offset),
                                mask: USBLEGSUP_BIOS_OWNED,
                                set: false,
                                ms: 5000,
                            },
                        )
                    } else {
                        (
                            Stage::LegacyControl { offset },
                            none,
                            Ask::Read(Reg::Capability((offset + 1) as u32)),
                        )
                    }
                } else if next == 0 || left <= 1 {
                    (Stage::Command, none, Ask::Read(Reg::UsbCmd))
                } else {
                    (
                        Stage::Capability {
                            offset: (offset + next) as u32,
                            left: (left - 1) as u32,
                        },
                        none,
                        Ask::Read(Reg::Capability((offset + next) as u32)),
                    )
                }
            },
            _ => (Stage::Failed(Fault::Confused), none, Ask::Nothing),
        },
        // Firmware that does not let go in time is not waited for.
        Stage::Handoff { offset } => (
            Stage::LegacyControl { offset },
            none,
            Ask::Read(Reg::Capability((offset + 1) as u32)),
        ),
        Stage::LegacyControl { offset } => match a {
            Answer::Value(v) => (
                Stage::Command,
                seq![
                    Op::Write32(
                        Reg::Capability((offset + 1) as u32),
                        (v & USBLEGCTLSTS_DISABLE_SMI) | USBLEGCTLSTS_SMI_EVENTS,
                    ),
                ],
                Ask::Read(Reg::UsbCmd),
            ),
            _ => (Stage::Failed(Fault::Confused), none, Ask::Nothing),
        },
        Stage::Command => match a {
            Answer::Value(v) => if v & USBCMD_RUN != 0 {
                (
                    Stage::Halting,
                    seq![Op::Write32(Reg::UsbCmd, 0)],
                    Ask::Await { reg: Reg::UsbSts, mask: USBSTS_HCH, set: true, ms: 1000 },
                )
            } else {
                reset_turn()
            },
            _ => (Stage::Failed(Fault::Confused), none, Ask::Nothing),
        },
        Stage::Halting => match a {
            Answer::Done => reset_turn(),
            _ => (Stage::Failed(Fault::ResetTimedOut), none, Ask::Nothing),
        },
        Stage::Resetting => match a {
            Answer::Done => (
                Stage::NotReady,
                none,
                Ask::Await { reg: Reg::UsbSts, mask: USBSTS_CNR, set: false, ms: 1000 },
            ),
            _ => (Stage::Failed(Fault::ResetTimedOut), none, Ask::Nothing),
        },
        Stage::NotReady => match a {
            Answer::Done => (Stage::Frames, none, Ask::Frame),
            _ => (Stage::Failed(Fault::ResetTimedOut), none, Ask::Nothing),
        },
        _ => (Stage::Failed(Fault::Confused), none, Ask::Nothing),
    }
}

pub open spec fn reset_turn() -> (Stage, Seq<Op>, Ask) {
    (
        Stage::Resetting,
        seq![Op::Write32(Reg::UsbCmd, USBCMD_HCRST)],
        Ask::Await { reg: Reg::UsbCmd, mask: USBCMD_HCRST, set: false, ms: 1000 },
    )
}

/// Whether the frame with a number holds a ring: the command ring, the event
/// ring, and endpoint 0's.
pub open spec fn is_ring_frame(n: int) -> bool {
    n == 0 || n == 1 || n == 6
}

/// What tells the controller where everything is, and lets it run. The frames
/// are those of the command ring, the event ring, the device contexts, the input
/// context, the output context, the segment table and endpoint 0.
pub open spec fn program_ops(f: Seq<u64>, slots: u8) -> Seq<Op> {
    seq![
        Op::Store64(f[5], f[1]),
        Op::Store32((f[5] + 8) as u64, 16),
        Op::Store32((f[5] + 12) as u64, 0),
        Op::Write64(Reg::Dcbaap, f[2]),
        Op::Write64(Reg::Crcr, f[0] | 1),
        Op::Write32(Reg::ErstSize, 1),
        Op::Write64(Reg::ErstBase, f[5]),
        Op::Write64(Reg::Erdp, f[1]),
        Op::Write32(Reg::Config, slots as u32),
        Op::Write32(Reg::UsbCmd, USBCMD_RUN),
    ]
}

/// The questions about frames, with those that were given so far.
pub open spec fn next_frame(frames: Seq<u64>, f: Found, a: Answer) -> (
    Stage,
    Seq<u64>,
    Seq<Op>,
    Ask,
) {
    match super::setup::frame_of(a) {
        None => (Stage::Failed(Fault::OutOfMemory), frames, Seq::empty(), Ask::Nothing),
        Some(p) => {
            let all = frames.push(p);
            let link = if is_ring_frame(frames.len() as int) {
                seq![link_op(p)]
            } else {
                Seq::empty()
            };
            if all.len() < 7 {
                (Stage::Frames, all, link, Ask::Frame)
            } else {
                (
                    Stage::Running,
                    all,
                    link + program_ops(all, f.slots),
                    Ask::Await { reg: Reg::UsbSts, mask: USBSTS_HCH, set: false, ms: 1000 },
                )
            }
        },
    }
}

/// The running controller, in its frames.
pub open spec fn is_started(c: Controller, frames: Seq<u64>, f: Found) -> bool {
    &&& c.wf()
    &&& c.max_ports == f.ports
    &&& c.context_size == f.context_size
    &&& c.cmd_ring == (Ring { phys: frames[0], enqueue: 0, cycle: 1 })
    &&& c.events == (EventRing { phys: frames[1], dequeue: 0, cycle: 1 })
    &&& c.dcbaa_phys == frames[2]
    &&& c.input_ctx_phys == frames[3]
    &&& c.output_ctx_phys == frames[4]
    &&& c.ep0 == (Ring { phys: frames[6], enqueue: 0, cycle: 1 })
    &&& c.slot_id == 0
    &&& c.keyboards@.len() == 0
}

/// A controller being brought up.
#[derive(Debug)]
pub struct Probe {
    pub stage: Stage,
    pub found: Found,
    pub frames: Vec<u64>,
    pub controller: Option<Controller>,
    pub setup: Setup,
}

/// The stage and the question that come after a port.
pub open spec fn after_port(port: u8, connected: u8, ports: u8) -> (Stage, Ask) {
    if port < ports {
        (
            Stage::Port { port: (port + 1) as u8, connected },
            Ask::Read(Reg::PortSc((port + 1) as u8)),
        )
    } else {
        (Stage::Finished { connected }, Ask::Nothing)
    }
}

pub fn next_port(port: u8, connected: u8, ports: u8) -> (r: (Stage, Ask))
    ensures
        r == after_port(port, connected, ports),
{
    if port < ports {
        (Stage::Port { port: port + 1, connected }, Ask::Read(Reg::PortSc(port + 1)))
    } else {
        (Stage::Finished { connected }, Ask::Nothing)
    }
}

/// Whether a stage comes before the first frame.
pub open spec fn is_early(s: Stage) -> bool {
    match s {
        Stage::BusMaster => true,
        Stage::Registers => true,
        Stage::Capability { .. } => true,
        Stage::Handoff { .. } => true,
        Stage::LegacyControl { .. } => true,
        Stage::Command => true,
        Stage::Halting => true,
        Stage::Resetting => true,
        Stage::NotReady => true,
        _ => false,
    }
}

/// Whether a stage is about a port.
pub open spec fn port_of(s: Stage) -> Option<(u8, u8)> {
    match s {
        Stage::Port { port, connected } => Some((port, connected)),
        Stage::PortWork { port, connected } => Some((port, connected)),
        Stage::Disabling { port, connected } => Some((port, connected)),
        _ => None,
    }
}

/// How far into the extended capabilities a stage has got.
pub open spec fn offset_of(s: Stage) -> int {
    match s {
        Stage::Capability { offset, left } => offset + left * 0x100,
        Stage::Handoff { offset } => offset as int,
        Stage::LegacyControl { offset } => offset as int,
        _ => 0,
    }
}

impl Probe {
    pub open spec fn wf(self) -> bool {
        &&& is_early(self.stage) ==> self.frames@.len() == 0
        &&& !(self.stage is BusMaster || self.stage is Registers || self.stage is Failed)
            ==> self.found.ports > 0
        &&& self.stage is Frames ==> self.frames@.len() < 7
        &&& self.stage is Running ==> self.frames@.len() == 7
        &&& forall|i: int|
            0 <= i < self.frames@.len() ==> (#[trigger] self.frames@[i]) <= u64::MAX - 4096
        &&& self.found.context_size == 32 || self.found.context_size == 64
        &&& offset_of(self.stage) <= 0x2_ffff
        &&& self.controller matches Some(c) ==> c.wf()
        &&& (self.controller is None) == (is_early(self.stage) || self.stage is Frames
            || self.stage is Running || self.stage is Failed)
        &&& port_of(self.stage) matches Some((port, connected)) ==> 1 <= port
            <= self.controller->0.max_ports && connected <= port && (self.stage is Port ==> connected
            < port)
        &&& self.stage matches Stage::PortWork { port, .. } ==> self.setup.wf() && !(
        self.setup.stage is Finished) && self.setup.port == port
    }

    /// Start with the base address that the bus gives the controller.
    pub fn new(mmio_base: u64) -> (r: (Probe, Ask))
        ensures
            r.0.wf(),
            mmio_base == 0 ==> r.0.stage == Stage::Failed(Fault::NoBar) && r.1 == Ask::Nothing,
            mmio_base != 0 ==> r.0.stage == Stage::BusMaster && r.1 == Ask::BusMaster,
    {
        let found: Found = Found {
            slots: 0,
            ports: 0,
            context_size: 32,
            operational: 0,
            doorbells: 0,
            runtime: 0,
            extended: 0,
        };
        let (setup, _ask) = Setup::new(0);
        let (stage, ask): (Stage, Ask) = if mmio_base == 0 {
            (Stage::Failed(Fault::NoBar), Ask::Nothing)
        } else {
            (Stage::BusMaster, Ask::BusMaster)
        };
        (Probe { stage, found, frames: Vec::new(), controller: None, setup }, ask)
    }
}

/// The questions before the first frame.
fn advance_reset(stage: Stage, a: &Answer, ops: &mut Vec<Op>) -> (r: (Stage, Ask))
    requires
        is_early(stage),
        offset_of(stage) <= 0x2_ffff,
    ensures
        (r.0, final(ops)@, r.1) == ({
            let (s, o, q) = next_reset(stage, *a);
            (s, old(ops)@ + o, q)
        }),
        offset_of(r.0) <= 0x2_ffff,
        is_early(r.0) || r.0 is Frames || r.0 is Failed,
{
    let ghost o = ops@;
    assert(o + Seq::<Op>::empty() =~= o);
    let confused: (Stage, Ask) = (Stage::Failed(Fault::Confused), Ask::Nothing);
    let timed_out: (Stage, Ask) = (Stage::Failed(Fault::ResetTimedOut), Ask::Nothing);
    let done: bool = match a {
        Answer::Done => true,
        _ => false,
    };
    match stage {
        Stage::BusMaster => if done {
            (Stage::Registers, Ask::Registers)
        } else {
            (Stage::Failed(Fault::NoBusMaster), Ask::Nothing)
        },
        Stage::Registers => match a {
            Answer::Caps(c) => {
                let found: Found = read_capabilities(*c);
                if found.slots == 0 || found.ports == 0 {
                    (Stage::Failed(Fault::NoSlotsOrPorts), Ask::Nothing)
                } else if found.extended != 0 {
                    (
                        Stage::Capability { offset: found.extended, left: MAX_CAPABILITIES },
                        Ask::Read(Reg::Capability(found.extended)),
                    )
                } else {
                    (Stage::Command, Ask::Read(Reg::UsbCmd))
                }
            },
            _ => (Stage::Failed(Fault::NoRegisters), Ask::Nothing),
        },
        Stage::Capability { offset, left } => match a {
            Answer::Value(v) => {
                let next: u32 = *v / 0x100 % 0x100;
                if *v % 0x100 == XECP_ID_USB_LEGACY {
                    if *v & USBLEGSUP_BIOS_OWNED != 0 {
                        ops.push(Op::Write32(Reg::Capability(offset), *v | USBLEGSUP_OS_OWNED));
                        assert(ops@ =~= o + next_reset(stage, *a).1);
                        (
                            Stage::Handoff { offset },
                            Ask::Await {
                                reg: Reg::Capability(offset),
                                mask: USBLEGSUP_BIOS_OWNED,
                                set: false,
                                ms: 5000,
                            },
                        )
                    } else {
                        (
                            Stage::LegacyControl { offset },
                            Ask::Read(Reg::Capability(offset + 1)),
                        )
                    }
                } else if next == 0 || left <= 1 {
                    (Stage::Command, Ask::Read(Reg::UsbCmd))
                } else {
                    (
                        Stage::Capability { offset: offset + next, left: left - 1 },
                        Ask::Read(Reg::Capability(offset + next)),
                    )
                }
            },
            _ => confused,
        },
        Stage::Handoff { offset } => (
            Stage::LegacyControl { offset },
            Ask::Read(Reg::Capability(offset + 1)),
        ),
        Stage::LegacyControl { offset } => match a {
            Answer::Value(v) => {
                ops.push(
                    Op::Write32(
                        Reg::Capability(offset + 1),
                        (*v & USBLEGCTLSTS_DISABLE_SMI) | USBLEGCTLSTS_SMI_EVENTS,
                    ),
                );
                assert(ops@ =~= o + next_reset(stage, *a).1);
                (Stage::Command, Ask::Read(Reg::UsbCmd))
            },
            _ => confused,
        },
        Stage::Command => match a {
            Answer::Value(v) => {
                if *v & USBCMD_RUN != 0 {
                    ops.push(Op::Write32(Reg::UsbCmd, 0));
                    assert(ops@ =~= o + next_reset(stage, *a).1);
                    (
                        Stage::Halting,
                        Ask::Await { reg: Reg::UsbSts, mask: USBSTS_HCH, set: true, ms: 1000 },
                    )
                } else {
                    ops.push(Op::Write32(Reg::UsbCmd, USBCMD_HCRST));
                    assert(ops@ =~= o + next_reset(stage, *a).1);
                    (
                        Stage::Resetting,
                        Ask::Await { reg: Reg::UsbCmd, mask: USBCMD_HCRST, set: false, ms: 1000 },
                    )
                }
            },
            _ => confused,
        },
        Stage::Halting => if done {
            ops.push(Op::Write32(Reg::UsbCmd, USBCMD_HCRST));
            assert(ops@ =~= o + next_reset(stage, *a).1);
            (
                Stage::Resetting,
                Ask::Await { reg: Reg::UsbCmd, mask: USBCMD_HCRST, set: false, ms: 1000 },
            )
        } else {
            timed_out
        },
        Stage::Resetting => if done {
            (
                Stage::NotReady,
                Ask::Await { reg: Reg::UsbSts, mask: USBSTS_CNR, set: false, ms: 1000 },
            )
        } else {
            timed_out
        },
        Stage::NotReady => if done {
            (Stage::Frames, Ask::Frame)
        } else {
            timed_out
        },
        _ => confused,
    }
}

fn push_program(f: &Vec<u64>, slots: u8, ops: &mut Vec<Op>)
    requires
        f@.len() == 7,
        f@[5] <= u64::MAX - 4096,
    ensures
        final(ops)@ == old(ops)@ + program_ops(f@, slots),
{
    let ghost o = ops@;
    ops.push(Op::Store64(f[5], f[1]));
    ops.push(Op::Store32(f[5] + 8, 16));
    ops.push(Op::Store32(f[5] + 12, 0));
    ops.push(Op::Write64(Reg::Dcbaap, f[2]));
    ops.push(Op::Write64(Reg::Crcr, f[0] | 1));
    ops.push(Op::Write32(Reg::ErstSize, 1));
    ops.push(Op::Write64(Reg::ErstBase, f[5]));
    ops.push(Op::Write64(Reg::Erdp, f[1]));
    ops.push(Op::Write32(Reg::Config, slots as u32));
    ops.push(Op::Write32(Reg::UsbCmd, USBCMD_RUN));
    assert(ops@ =~= o + program_ops(f@, slots));
}

/// A controller whose slot is free for the next device.
pub open spec fn is_fresh_slot(before: Controller, after: Controller) -> bool {
    &&& after.wf()
    &&& after.slot_id == 0
    &&& after.ep0 == (Ring { phys: before.ep0.phys, enqueue: 0, cycle: 1 })
    &&& after.max_ports == before.max_ports
    &&& after.context_size == before.context_size
    &&& after.cmd_ring == before.cmd_ring
    &&& after.events == before.events
    &&& after.dcbaa_phys == before.dcbaa_phys
    &&& after.input_ctx_phys == before.input_ctx_phys
    &&& after.output_ctx_phys == before.output_ctx_phys
    &&& after.keyboards == before.keyboards
}

fn free_slot(c: &mut Controller)
    requires
        old(c).wf(),
    ensures
        is_fresh_slot(*old(c), *final(c)),
{
    c.slot_id = 0;
    c.ep0 = Ring { phys: c.ep0.phys, enqueue: 0, cycle: 1 };
}

/// What forgetting a slot that could not be used stores.
pub open spec fn forget_ops(c: Controller) -> Seq<Op> {
    seq![
        Op::Store64((c.dcbaa_phys + 8 * c.slot_id) as u64, 0),
        Op::ZeroFrame(c.input_ctx_phys),
        Op::ZeroFrame(c.output_ctx_phys),
    ]
}

/// The command that disables a slot.
pub open spec fn disable_trb(slot: u8) -> Trb {
    Trb {
        parameter: 0,
        status: 0,
        control: type_bits(TRB_TYPE_DISABLE_SLOT) | ((slot as u32) << 24),
    }
}

/// What one answer about a port leads to: its setup goes one step further, and
/// when it is through the slot is kept for the keyboard, or disabled if it was
/// taken in vain.
pub open spec fn is_worked(
    before: Probe,
    after: Probe,
    port: u8,
    connected: u8,
    a: Answer,
    ops0: Seq<Op>,
    ops: Seq<Op>,
    ask: Ask,
) -> bool {
    let c0 = before.controller->0;
    let t = next_turn(
        before.setup.stage,
        before.setup.port,
        before.setup.reports@,
        c0,
        a,
    );
    let c = after.controller->0;
    &&& after.controller is Some
    &&& after.found == before.found
    &&& after.frames == before.frames
    &&& after.setup.port == before.setup.port
    &&& c.dcbaa_phys == c0.dcbaa_phys
    &&& c.input_ctx_phys == c0.input_ctx_phys
    &&& c.output_ctx_phys == t.output
    &&& c.max_ports == c0.max_ports
    &&& c.context_size == c0.context_size
    &&& c.events == c0.events
    &&& c.keyboards@.len() == c0.keyboards@.len() + if t.added {
        1int
    } else {
        0
    }
    &&& !t.added ==> c.keyboards@ == c0.keyboards@
    &&& t.added ==> c.keyboards@.drop_last() == c0.keyboards@ && is_new_keyboard(
        c.keyboards@.last(),
        before.setup.port,
        c0.slot_id,
        carried(before.setup.stage)->0.dci,
        carried_ring(before.setup.stage),
        t.reports,
    )
    &&& match t.stage {
        PortStage::Finished { ok } => if !ok && t.slot_id != 0 {
            &&& after.stage == (Stage::Disabling { port, connected })
            &&& ops == ops0 + t.ops + command_ops(
                t.cmd_ring,
                disable_trb(t.slot_id),
            )
            &&& ask == Ask::Command(t.cmd_ring.slot())
            &&& c.cmd_ring == t.cmd_ring.pushed()
            &&& c.slot_id == t.slot_id
            &&& c.ep0 == t.ep0
        } else {
            &&& (after.stage, ask) == after_port(port, connected, c0.max_ports)
            &&& ops == ops0 + t.ops
            &&& c.slot_id == 0
            &&& c.cmd_ring == t.cmd_ring
            &&& ok ==> c.ep0 == (Ring { phys: t.ep0.phys, enqueue: 0, cycle: 1 })
            &&& !ok ==> c.ep0 == t.ep0
        },
        _ => {
            &&& after.stage == before.stage
            &&& after.setup.stage == t.stage
            &&& after.setup.reports@ == t.reports
            &&& ops == ops0 + t.ops
            &&& ask == t.ask
            &&& c.slot_id == t.slot_id
            &&& c.cmd_ring == t.cmd_ring
            &&& c.ep0 == t.ep0
        },
    }
}

impl Probe {
    /// Collect a frame; with the last one the controller is programmed.
    fn advance_frames(&mut self, a: &Answer, ops: &mut Vec<Op>) -> (r: Ask)
        requires
            old(self).wf(),
            old(self).stage is Frames,
        ensures
            final(self).wf(),
            (final(self).stage, final(self).frames@, final(ops)@, r) == ({
                let (s, f, o, q) = next_frame(old(self).frames@, old(self).found, *a);
                (s, f, old(ops)@ + o, q)
            }),
            final(self).found == old(self).found,
            final(self).controller == old(self).controller,
            final(self).setup == old(self).setup,
    {
        let ghost o = ops@;
        assert(o + Seq::<Op>::empty() =~= o);
        let phys: u64 = match a {
            Answer::Frame(Some(p)) => if *p <= u64::MAX - 4096 {
                *p
            } else {
                self.stage = Stage::Failed(Fault::OutOfMemory);
                return Ask::Nothing;
            },
            _ => {
                self.stage = Stage::Failed(Fault::OutOfMemory);
                return Ask::Nothing;
            },
        };
        let n: usize = self.frames.len();
        if n == 0 || n == 1 || n == 6 {
            let (_ring, link) = Ring::new(phys);
            ops.push(link);
        }
        self.frames.push(phys);
        if self.frames.len() < 7 {
            assert(ops@ =~= o + next_frame(old(self).frames@, old(self).found, *a).2);
            return Ask::Frame;
        }
        push_program(&self.frames, self.found.slots, ops);
        assert(ops@ =~= o + next_frame(old(self).frames@, old(self).found, *a).2);
        self.stage = Stage::Running;
        Ask::Await { reg: Reg::UsbSts, mask: USBSTS_HCH, set: false, ms: 1000 }
    }

    /// The controller runs, or does not: scan its ports.
    fn advance_running(&mut self, a: &Answer) -> (r: Ask)
        requires
            old(self).wf(),
            old(self).stage is Running,
        ensures
            final(self).wf(),
            final(self).found == old(self).found,
            final(self).frames == old(self).frames,
            final(self).setup == old(self).setup,
            a is Done ==> {
                &&& final(self).stage == (Stage::Port { port: 1, connected: 0 })
                &&& r == Ask::Read(Reg::PortSc(1))
                &&& final(self).controller matches Some(c) && is_started(
                    c,
                    old(self).frames@,
                    old(self).found,
                )
            },
            !(a is Done) ==> final(self).stage == Stage::Failed(Fault::DidNotRun) && r
                == Ask::Nothing && final(self).controller == old(self).controller,
    {
        match a {
            Answer::Done => {
                let f: &Vec<u64> = &self.frames;
                assert(f@[0] <= u64::MAX - 4096 && f@[1] <= u64::MAX - 4096 && f@[2] <= u64::MAX
                    - 4096 && f@[3] <= u64::MAX - 4096 && f@[4] <= u64::MAX - 4096 && f@[6]
                    <= u64::MAX - 4096);
                let c: Controller = Controller {
                    max_ports: self.found.ports,
                    context_size: self.found.context_size,
                    cmd_ring: Ring { phys: f[0], enqueue: 0, cycle: 1 },
                    events: EventRing { phys: f[1], dequeue: 0, cycle: 1 },
                    dcbaa_phys: f[2],
                    input_ctx_phys: f[3],
                    output_ctx_phys: f[4],
                    ep0: Ring { phys: f[6], enqueue: 0, cycle: 1 },
                    slot_id: 0,
                    keyboards: Vec::new(),
                };
                self.controller = Some(c);
                self.stage = Stage::Port { port: 1, connected: 0 };
                Ask::Read(Reg::PortSc(1))
            },
            _ => {
                self.stage = Stage::Failed(Fault::DidNotRun);
                Ask::Nothing
            },
        }
    }

    /// Look whether something is connected to a port, and try it.
    fn advance_port(&mut self, port: u8, connected: u8, a: &Answer) -> (r: Ask)
        requires
            old(self).wf(),
            old(self).stage == (Stage::Port { port, connected }),
        ensures
            final(self).wf(),
            final(self).controller == old(self).controller,
            final(self).found == old(self).found,
            final(self).frames == old(self).frames,
            final(self).setup.reports@.len() == 0,
            final(self).setup.port == port,
            final(self).setup.stage == PortStage::PortStatus,
            r == Ask::Read(Reg::PortSc(port)),
            final(self).stage == (Stage::PortWork {
                port,
                connected: if a matches Answer::Value(v) && v & PORTSC_CCS != 0 {
                    (connected + 1) as u8
                } else {
                    connected
                },
            }),
    {
        let now: u8 = match a {
            Answer::Value(v) => if *v & PORTSC_CCS != 0 {
                connected + 1
            } else {
                connected
            },
            _ => connected,
        };
        let (setup, ask) = Setup::new(port);
        self.setup = setup;
        self.stage = Stage::PortWork { port, connected: now };
        ask
    }

    /// One step of bringing up a port. When it is through, the slot is kept for
    /// the keyboard, or disabled if it was taken in vain, and the next port is
    /// up.
    fn advance_port_work(&mut self, port: u8, connected: u8, a: &Answer, ops: &mut Vec<Op>) -> (r:
        Ask)
        requires
            old(self).wf(),
            old(self).stage == (Stage::PortWork { port, connected }),
        ensures
            final(self).wf(),
            final(self).found == old(self).found,
            is_worked(
                *old(self),
                *final(self),
                port,
                connected,
                *a,
                old(ops)@,
                final(ops)@,
                r,
            ),
    {
        match &mut self.controller {
            Some(c) => {
                let ask: Ask = self.setup.try_setup_keyboard(c, a, ops);
                match self.setup.stage {
                    PortStage::Finished { ok } => {
                        if ok {
                            free_slot(c);
                        } else if c.slot_id != 0 {
                            let trb: Trb = Trb {
                                parameter: 0,
                                status: 0,
                                control: make_type(TRB_TYPE_DISABLE_SLOT) | ((c.slot_id as u32)
                                    << 24),
                            };
                            let q: Ask = do_command(c, trb, ops);
                            self.stage = Stage::Disabling { port, connected };
                            return q;
                        }
                        let (stage, q) = next_port(port, connected, c.max_ports);
                        self.stage = stage;
                        q
                    },
                    _ => ask,
                }
            },
            None => Ask::Nothing,
        }
    }

    /// A slot that was taken in vain is disabled, whether the controller said so
    /// in time or not: forget it.
    fn advance_disabling(&mut self, port: u8, connected: u8, ops: &mut Vec<Op>) -> (r: Ask)
        requires
            old(self).wf(),
            old(self).stage == (Stage::Disabling { port, connected }),
        ensures
            final(self).wf(),
            final(self).found == old(self).found,
            final(self).frames == old(self).frames,
            final(self).setup == old(self).setup,
            final(self).controller is Some,
            is_fresh_slot(old(self).controller->0, final(self).controller->0),
            final(ops)@ == old(ops)@ + forget_ops(old(self).controller->0),
            (final(self).stage, r) == after_port(
                port,
                connected,
                old(self).controller->0.max_ports,
            ),
    {
        let ghost o = ops@;
        match &mut self.controller {
            Some(c) => {
                ops.push(Op::Store64(c.dcbaa_phys + 8 * c.slot_id as u64, 0));
                ops.push(Op::ZeroFrame(c.input_ctx_phys));
                ops.push(Op::ZeroFrame(c.output_ctx_phys));
                assert(ops@ =~= o + forget_ops(*c));
                free_slot(c);
                let (stage, q) = next_port(port, connected, c.max_ports);
                self.stage = stage;
                q
            },
            None => Ask::Nothing,
        }
    }
}

/// What one answer leads to, whatever the stage.
pub open spec fn is_advanced(
    before: Probe,
    after: Probe,
    a: Answer,
    ops0: Seq<Op>,
    ops: Seq<Op>,
    ask: Ask,
) -> bool {
    match before.stage {
        Stage::Frames => (after.stage, after.frames@, ops, ask) == ({
            let (s, f, o, q) = next_frame(before.frames@, before.found, a);
            (s, f, ops0 + o, q)
        }) && after.found == before.found && after.controller == before.controller && after.setup
            == before.setup,
        Stage::Running => {
            &&& ops == ops0
            &&& after.found == before.found
            &&& after.frames == before.frames
            &&& after.setup == before.setup
            &&& a is Done ==> {
                &&& after.stage == (Stage::Port { port: 1, connected: 0 })
                &&& ask == Ask::Read(Reg::PortSc(1))
                &&& after.controller matches Some(c) && is_started(c, before.frames@, before.found)
            }
            &&& !(a is Done) ==> after.stage == Stage::Failed(Fault::DidNotRun) && ask
                == Ask::Nothing && after.controller == before.controller
        },
        Stage::Port { port, connected } => {
            &&& ops == ops0
            &&& after.controller == before.controller
            &&& after.found == before.found
            &&& after.frames == before.frames
            &&& after.setup.reports@.len() == 0
            &&& after.setup.port == port
            &&& after.setup.stage == PortStage::PortStatus
            &&& ask == Ask::Read(Reg::PortSc(port))
            &&& after.stage == (Stage::PortWork {
                port,
                connected: if a matches Answer::Value(v) && v & PORTSC_CCS != 0 {
                    (connected + 1) as u8
                } else {
                    connected
                },
            })
        },
        Stage::PortWork { port, connected } => is_worked(
            before,
            after,
            port,
            connected,
            a,
            ops0,
            ops,
            ask,
        ),
        Stage::Disabling { port, connected } => {
            &&& after.found == before.found
            &&& after.frames == before.frames
            &&& after.setup == before.setup
            &&& after.controller is Some
            &&& is_fresh_slot(before.controller->0, after.controller->0)
            &&& ops == ops0 + forget_ops(before.controller->0)
            &&& (after.stage, ask) == after_port(port, connected, before.controller->0.max_ports)
        },
        _ => {
            &&& (after.stage, ops, ask) == ({
                let (s, o, q) = next_reset(before.stage, a);
                (s, ops0 + o, q)
            })
            &&& after.found == match (before.stage, a) {
                (Stage::Registers, Answer::Caps(c)) => found_in(c),
                _ => before.found,
            }
            &&& after.frames == before.frames
            &&& after.controller == before.controller
            &&& after.setup == before.setup
        },
    }
}

/// Take the answer to the last question one step further: do these operations,
/// then answer this.
///
/// Absent, non-compliant or already-owned hardware is expected on some machines,
/// so every failure just ends the probe.
pub fn probe(p: &mut Probe, a: &Answer, ops: &mut Vec<Op>) -> (r: Ask)
    requires
        old(p).wf(),
        !(old(p).stage is Failed),
        !(old(p).stage is Finished),
    ensures
        final(p).wf(),
        is_advanced(*old(p), *final(p), *a, old(ops)@, final(ops)@, r),
{
    match p.stage {
        Stage::Frames => p.advance_frames(a, ops),
        Stage::Running => p.advance_running(a),
        Stage::Port { port, connected } => p.advance_port(port, connected, a),
        Stage::PortWork { port, connected } => p.advance_port_work(port, connected, a, ops),
        Stage::Disabling { port, connected } => p.advance_disabling(port, connected, ops),
        _ => {
            let at_registers: bool = match p.stage {
                Stage::Registers => true,
                _ => false,
            };
            let (stage, ask) = advance_reset(p.stage, a, ops);
            if at_registers {
                match a {
                    Answer::Caps(c) => {
                        p.found = read_capabilities(*c);
                    },
                    _ => {},
                }
            }
            p.stage = stage;
            ask
        },
    }
}

/// How many steps are left at most, before the ports.
pub open spec fn steps_left(s: Stage) -> int {
    match s {
        Stage::BusMaster => 500,
        Stage::Registers => 499,
        Stage::Capability { left, .. } => 200 + left,
        Stage::Handoff { .. } => 199,
        Stage::LegacyControl { .. } => 198,
        Stage::Command => 197,
        Stage::Halting => 196,
        Stage::Resetting => 195,
        Stage::NotReady => 194,
        Stage::Failed(_) => 0,
        _ => 193,
    }
}

/// A corrupt list of capabilities does not hang the probe: every answer before
/// the ports leaves fewer questions.
pub proof fn law_probe_gets_to_the_ports(s: Stage, a: Answer)
    requires
        is_early(s),
        s matches Stage::Capability { left, .. } ==> 1 <= left <= 256,
    ensures
        0 <= steps_left(next_reset(s, a).0) < steps_left(s),
        next_reset(s, a).0 matches Stage::Capability { left, .. } ==> 1 <= left <= 256,
{
}

} // verus!
