//! Bringing up whatever is on a port as a boot keyboard.

use vstd::prelude::*;
use crate::bytes::{le16, le32, u16le, u32le};
use super::keyboard::{
    find_boot_keyboard, has_interval, is_good, is_interval, keyboard_in, queue_report_read,
    xhci_interval, BootKeyboardEndpoint, Controller, UsbKeyboard,
};
use super::{
    after_pushes, make_type, packet, setup_packet, type_bits, Answer, Ask, Op, Reg, Ring, Trb,
    COMPLETION_SUCCESS, PORTSC_CCS, PORTSC_CSC, PORTSC_PED, PORTSC_PR, PORTSC_PRC, PORTSC_WPR,
    PORTSC_WRC, PORTSC_WRITE_ONE_MASK, TRB_CHAIN, TRB_CYCLE, TRB_IOC, TRB_TOGGLE_CYCLE,
    TRB_TYPE_ADDRESS_DEVICE, TRB_TYPE_CONFIGURE_ENDPOINT, TRB_TYPE_DATA_STAGE, TRB_TYPE_ENABLE_SLOT,
    TRB_TYPE_EVALUATE_CONTEXT, TRB_TYPE_LINK, TRB_TYPE_NORMAL, TRB_TYPE_SETUP_STAGE,
    TRB_TYPE_STATUS_STAGE,
};

verus! {

pub const REQ_TYPE_STD_DEVICE_IN: u8 = 0x80;

pub const REQ_TYPE_STD_DEVICE_OUT: u8 = 0;

pub const REQ_TYPE_CLASS_IFACE_OUT: u8 = 0x21;

pub const REQ_GET_DESCRIPTOR: u8 = 6;

pub const REQ_SET_CONFIGURATION: u8 = 9;

pub const HID_REQ_SET_PROTOCOL: u8 = 0x0b;

pub const HID_REQ_SET_IDLE: u8 = 0x0a;

pub const DESC_TYPE_DEVICE: u16 = 0x100;

pub const DESC_TYPE_CONFIGURATION: u16 = 0x200;

/// What putting a command on the ring takes: the block, and the doorbell.
pub open spec fn command_ops(ring: Ring, trb: Trb) -> Seq<Op> {
    ring.push_ops(trb).push(Op::Write32(Reg::Doorbell(0), 0))
}

/// Put a command on the command ring and ring the doorbell.
pub fn do_command(c: &mut Controller, trb: Trb, ops: &mut Vec<Op>) -> (r: Ask)
    requires
        old(c).wf(),
    ensures
        final(c).wf(),
        final(c).cmd_ring == old(c).cmd_ring.pushed(),
        final(ops)@ == old(ops)@ + command_ops(old(c).cmd_ring, trb),
        r == Ask::Command(old(c).cmd_ring.slot()),
        final(c).max_ports == old(c).max_ports,
        final(c).context_size == old(c).context_size,
        final(c).events == old(c).events,
        final(c).dcbaa_phys == old(c).dcbaa_phys,
        final(c).input_ctx_phys == old(c).input_ctx_phys,
        final(c).output_ctx_phys == old(c).output_ctx_phys,
        final(c).ep0 == old(c).ep0,
        final(c).slot_id == old(c).slot_id,
        final(c).keyboards == old(c).keyboards,
{
    let ghost o = ops@;
    let slot: u64 = c.cmd_ring.push(trb, ops);
    ops.push(Op::Write32(Reg::Doorbell(0), 0));
    assert(ops@ =~= o + command_ops(old(c).cmd_ring, trb));
    Ask::Command(slot)
}

/// The first block of a control transfer: eight bytes of request in the block
/// itself, and whether data comes, goes, or neither.
pub open spec fn setup_trb(request: u64, has_data: bool) -> Trb {
    Trb {
        parameter: request,
        status: 8,
        control: type_bits(TRB_TYPE_SETUP_STAGE) | TRB_CHAIN | ((if has_data {
            3u32
        } else {
            0u32
        }) << 16) | 0x40,
    }
}

/// The block for data that comes in.
pub open spec fn data_trb(phys: u64, len: u32) -> Trb {
    Trb {
        parameter: phys,
        status: len,
        control: type_bits(TRB_TYPE_DATA_STAGE) | TRB_CHAIN | 0x1_0000,
    }
}

/// The last block, in the other direction than the data; in where there is none.
pub open spec fn status_trb(has_data: bool) -> Trb {
    Trb {
        parameter: 0,
        status: 0,
        control: type_bits(TRB_TYPE_STATUS_STAGE) | TRB_IOC | if has_data {
            0u32
        } else {
            0x1_0000u32
        },
    }
}

/// What a control transfer takes: its blocks, and the doorbell of endpoint 0.
pub open spec fn control_ops(ep0: Ring, slot_id: u8, request: u64, data: Option<(u64, u32)>) -> Seq<
    Op,
> {
    let ops = ep0.push_ops(setup_trb(request, data is Some));
    let ops = match data {
        Some((phys, len)) => ops + ep0.pushed().push_ops(data_trb(phys, len)),
        None => ops,
    };
    let ring = before_status(ep0, data);
    (ops + ring.push_ops(status_trb(data is Some))).push(Op::Write32(Reg::Doorbell(slot_id), 1))
}

/// Endpoint 0's ring when the last block of a control transfer goes on it.
pub open spec fn before_status(ep0: Ring, data: Option<(u64, u32)>) -> Ring {
    match data {
        Some(_) => ep0.pushed().pushed(),
        None => ep0.pushed(),
    }
}

/// Put a control transfer on endpoint 0's ring and ring its doorbell.
pub fn control_transfer(
    c: &mut Controller,
    request: u64,
    data: Option<(u64, u32)>,
    ops: &mut Vec<Op>,
) -> (r: Ask)
    requires
        old(c).wf(),
    ensures
        final(c).wf(),
        final(ops)@ == old(ops)@ + control_ops(old(c).ep0, old(c).slot_id, request, data),
        final(c).ep0 == before_status(old(c).ep0, data).pushed(),
        r == Ask::Transfer(before_status(old(c).ep0, data).slot()),
        final(c).max_ports == old(c).max_ports,
        final(c).context_size == old(c).context_size,
        final(c).events == old(c).events,
        final(c).dcbaa_phys == old(c).dcbaa_phys,
        final(c).input_ctx_phys == old(c).input_ctx_phys,
        final(c).output_ctx_phys == old(c).output_ctx_phys,
        final(c).cmd_ring == old(c).cmd_ring,
        final(c).slot_id == old(c).slot_id,
        final(c).keyboards == old(c).keyboards,
{
    let ghost o = ops@;
    let has_data: bool = data.is_some();
    let direction: u32 = if has_data {
        3
    } else {
        0
    };
    let _ = c.ep0.push(
        Trb {
            parameter: request,
            status: 8,
            control: make_type(TRB_TYPE_SETUP_STAGE) | TRB_CHAIN | (direction << 16) | 0x40,
        },
        ops,
    );
    match data {
        Some((phys, len)) => {
            let _ = c.ep0.push(
                Trb {
                    parameter: phys,
                    status: len,
                    control: make_type(TRB_TYPE_DATA_STAGE) | TRB_CHAIN | 0x1_0000,
                },
                ops,
            );
        },
        None => {},
    }
    let status_in: u32 = if has_data {
        0
    } else {
        0x1_0000
    };
    let last: u64 = c.ep0.push(
        Trb {
            parameter: 0,
            status: 0,
            control: make_type(TRB_TYPE_STATUS_STAGE) | TRB_IOC | status_in,
        },
        ops,
    );
    ops.push(Op::Write32(Reg::Doorbell(c.slot_id), 1));
    assert(ops@ =~= o + control_ops(old(c).ep0, c.slot_id, request, data));
    Ask::Transfer(last)
}

/// Where an entry of the input context stands: control is entry 0, slot entry 1,
/// and the endpoint with index `n` entry `n + 1`.
pub open spec fn ctx(c: Controller, index: int) -> int {
    c.input_ctx_phys + index * c.context_size
}

fn input_context_entry(c: &Controller, index: u64) -> (r: u64)
    requires
        c.wf(),
        index <= 32,
    ensures
        r == ctx(*c, index as int),
        r + 20 <= u64::MAX,
{
    assert(index * c.context_size <= 32 * 64) by (nonlinear_arith)
        requires
            index <= 32,
            c.context_size <= 64,
    ;
    assert(index * c.context_size >= 0) by (nonlinear_arith);
    c.input_ctx_phys + index * c.context_size
}

/// The packet size of endpoint 0 to start with, by speed.
pub open spec fn first_packet(speed: u32) -> Option<u32> {
    if speed == 1 || speed == 2 {
        Some(8)
    } else if speed == 3 {
        Some(64)
    } else if speed == 4 {
        Some(512)
    } else {
        None
    }
}

pub open spec fn low(v: u64) -> u32 {
    (v | 1) as u32
}

pub open spec fn high(v: u64) -> u32 {
    (v >> 32) as u32
}

/// The context of endpoint 0: control, with its packet size and its ring.
pub open spec fn ep0_ops(c: Controller, max_packet: u32) -> Seq<Op> {
    seq![
        Op::Store32((ctx(c, 2) + 4) as u64, (4u32 << 3) | (max_packet << 16) | (3u32 << 1)),
        Op::Store32((ctx(c, 2) + 8) as u64, low(c.ep0.phys)),
        Op::Store32((ctx(c, 2) + 12) as u64, high(c.ep0.phys)),
    ]
}

fn push_ep0(c: &Controller, max_packet: u32, ops: &mut Vec<Op>)
    requires
        c.wf(),
    ensures
        final(ops)@ == old(ops)@ + ep0_ops(*c, max_packet),
{
    let ghost o = ops@;
    let at: u64 = input_context_entry(c, 2);
    ops.push(Op::Store32(at + 4, (4u32 << 3) | (max_packet << 16) | (3u32 << 1)));
    ops.push(Op::Store32(at + 8, (c.ep0.phys | 1) as u32));
    ops.push(Op::Store32(at + 12, (c.ep0.phys >> 32) as u32));
    assert(ops@ =~= o + ep0_ops(*c, max_packet));
}

/// What describes a device to the controller before it has an address: fresh
/// contexts, the slot with its speed and port.
pub open spec fn slot_ops(c: Controller, port: u8, speed: u32) -> Seq<Op> {
    seq![
        Op::ZeroFrame(c.input_ctx_phys),
        Op::ZeroFrame(c.output_ctx_phys),
        Op::Store32((ctx(c, 0) + 4) as u64, 3),
        Op::Store32(ctx(c, 1) as u64, (speed << 20) | (1u32 << 27)),
        Op::Store32((ctx(c, 1) + 4) as u64, (port as u32) << 16),
    ]
}

fn push_slot(c: &Controller, port: u8, speed: u32, ops: &mut Vec<Op>)
    requires
        c.wf(),
    ensures
        final(ops)@ == old(ops)@ + slot_ops(*c, port, speed),
{
    let ghost o = ops@;
    ops.push(Op::ZeroFrame(c.input_ctx_phys));
    ops.push(Op::ZeroFrame(c.output_ctx_phys));
    let control: u64 = input_context_entry(c, 0);
    ops.push(Op::Store32(control + 4, 3));
    let slot: u64 = input_context_entry(c, 1);
    ops.push(Op::Store32(slot, (speed << 20) | (1u32 << 27)));
    ops.push(Op::Store32(slot + 4, (port as u32) << 16));
    assert(ops@ =~= o + slot_ops(*c, port, speed));
}

/// Copying the slot context that the controller has filled in, word by word.
pub open spec fn copy_ops(c: Controller, b: Seq<u8>, n: int) -> Seq<Op>
    decreases n,
{
    if n <= 0 {
        Seq::empty()
    } else {
        copy_ops(c, b, n - 1).push(
            Op::Store32((ctx(c, 1) + 4 * (n - 1)) as u64, le32(b, 4 * (n - 1)) as u32),
        )
    }
}

/// The slot context with the highest endpoint, and the keyboard's endpoint:
/// interrupt, inward, with its packet size, interval and ring.
pub open spec fn endpoint_ops(
    c: Controller,
    b: Seq<u8>,
    k: BootKeyboardEndpoint,
    interval: u32,
    ring: u64,
) -> Seq<Op> {
    let ep = ctx(c, k.dci + 1);
    copy_ops(c, b, c.context_size as int / 4) + seq![
        Op::Store32(
            ctx(c, 1) as u64,
            ((le32(b, 0) as u32) & !(0x1fu32 << 27)) | ((k.dci as u32) << 27),
        ),
        Op::Store32((ep + 4) as u64, (7u32 << 3) | ((k.max_packet as u32) << 16) | (3u32 << 1)),
        Op::Store32(ep as u64, interval << 16),
        Op::Store32((ep + 8) as u64, low(ring)),
        Op::Store32((ep + 12) as u64, high(ring)),
        Op::Store32((ep + 16) as u64, 8),
    ]
}

fn push_endpoint(
    c: &Controller,
    b: &Vec<u8>,
    k: BootKeyboardEndpoint,
    interval: u32,
    ring: u64,
    ops: &mut Vec<Op>,
)
    requires
        c.wf(),
        b@.len() == c.context_size,
        k.dci <= 31,
    ensures
        final(ops)@ == old(ops)@ + endpoint_ops(*c, b@, k, interval, ring),
{
    let ghost o = ops@;
    let slot: u64 = input_context_entry(c, 1);
    let words: usize = b.len() / 4;
    let mut i: usize = 0;
    assert(ops@ =~= o + copy_ops(*c, b@, 0));
    while i < words
        invariant
            i <= words,
            words == b@.len() / 4,
            b@.len() == c.context_size,
            c.wf(),
            slot == ctx(*c, 1),
            slot <= u64::MAX - 2048,
            ops@ == o + copy_ops(*c, b@, i as int),
        decreases words - i,
    {
        ops.push(Op::Store32(slot + 4 * i as u64, u32le(b.as_slice(), 4 * i)));
        i += 1;
        assert(ops@ =~= o + copy_ops(*c, b@, i as int));
    }
    let first: u32 = u32le(b.as_slice(), 0);
    ops.push(Op::Store32(slot, (first & !(0x1fu32 << 27)) | ((k.dci as u32) << 27)));
    let ep: u64 = input_context_entry(c, k.dci as u64 + 1);
    ops.push(
        Op::Store32(ep + 4, (7u32 << 3) | ((k.max_packet as u32) << 16) | (3u32 << 1)),
    );
    ops.push(Op::Store32(ep, interval << 16));
    ops.push(Op::Store32(ep + 8, (ring | 1) as u32));
    ops.push(Op::Store32(ep + 12, (ring >> 32) as u32));
    ops.push(Op::Store32(ep + 16, 8));
    assert(ops@ =~= o + endpoint_ops(*c, b@, k, interval, ring));
}

/// How far bringing up a port has got, with what is needed later.
#[derive(Clone, Copy, Debug, PartialEq, Eq, Structural)]
pub enum Stage {
    PortStatus,
    OutputFrame { portsc: u32 },
    Ep0Frame { portsc: u32, output: u64 },
    BeforeReset { bit: u32, change: u32 },
    Resetting { change: u32 },
    AfterReset { change: u32 },
    EnableSlot { speed: u32 },
    AddressDevice { speed: u32 },
    DeviceFrame { speed: u32 },
    DeviceRead { speed: u32, desc: u64 },
    DeviceLoaded { speed: u32 },
    Evaluate { speed: u32 },
    ConfigFrame { speed: u32 },
    HeaderRead { speed: u32, desc: u64 },
    HeaderLoaded { speed: u32, desc: u64 },
    ConfigRead { speed: u32, desc: u64, total: u16 },
    ConfigLoaded { speed: u32, total: u16 },
    SetConfiguration { keyboard: BootKeyboardEndpoint, interval: u32 },
    SetProtocol { keyboard: BootKeyboardEndpoint, interval: u32 },
    SetIdle { keyboard: BootKeyboardEndpoint, interval: u32 },
    RingFrame { keyboard: BootKeyboardEndpoint, interval: u32 },
    SlotLoaded { keyboard: BootKeyboardEndpoint, interval: u32, ring: u64 },
    Configure { keyboard: BootKeyboardEndpoint, ring: u64 },
    Reports { keyboard: BootKeyboardEndpoint, ring: u64 },
    Finished { ok: bool },
}

/// How many questions are left at most.
pub open spec fn rank(s: Stage, reports: Seq<u64>) -> int {
    match s {
        Stage::PortStatus => 40,
        Stage::OutputFrame { .. } => 39,
        Stage::Ep0Frame { .. } => 38,
        Stage::BeforeReset { .. } => 37,
        Stage::Resetting { .. } => 36,
        Stage::AfterReset { .. } => 35,
        Stage::EnableSlot { .. } => 34,
        Stage::AddressDevice { .. } => 33,
        Stage::DeviceFrame { .. } => 32,
        Stage::DeviceRead { .. } => 31,
        Stage::DeviceLoaded { .. } => 30,
        Stage::Evaluate { .. } => 29,
        Stage::ConfigFrame { .. } => 28,
        Stage::HeaderRead { .. } => 27,
        Stage::HeaderLoaded { .. } => 26,
        Stage::ConfigRead { .. } => 25,
        Stage::ConfigLoaded { .. } => 24,
        Stage::SetConfiguration { .. } => 23,
        Stage::SetProtocol { .. } => 22,
        Stage::SetIdle { .. } => 21,
        Stage::RingFrame { .. } => 20,
        Stage::SlotLoaded { .. } => 19,
        Stage::Configure { .. } => 18,
        Stage::Reports { .. } => 17 - reports.len(),
        Stage::Finished { .. } => 0,
    }
}

/// The keyboard endpoint that a stage carries along.
pub open spec fn carried(s: Stage) -> Option<BootKeyboardEndpoint> {
    match s {
        Stage::SetConfiguration { keyboard, .. } => Some(keyboard),
        Stage::SetProtocol { keyboard, .. } => Some(keyboard),
        Stage::SetIdle { keyboard, .. } => Some(keyboard),
        Stage::RingFrame { keyboard, .. } => Some(keyboard),
        Stage::SlotLoaded { keyboard, .. } => Some(keyboard),
        Stage::Configure { keyboard, .. } => Some(keyboard),
        Stage::Reports { keyboard, .. } => Some(keyboard),
        _ => None,
    }
}

/// The frame of a keyboard's ring that a stage carries along.
pub open spec fn carried_ring(s: Stage) -> u64 {
    match s {
        Stage::SlotLoaded { ring, .. } => ring,
        Stage::Configure { ring, .. } => ring,
        Stage::Reports { ring, .. } => ring,
        _ => 0,
    }
}

/// Whether a stage is one that bringing up a port goes through.
pub open spec fn is_stage(s: Stage) -> bool {
    &&& carried(s) matches Some(k) ==> 3 <= k.dci <= 31
    &&& carried_ring(s) <= u64::MAX - 4096
    &&& s matches Stage::ConfigRead { total, .. } ==> 9 <= total <= 4096
    &&& s matches Stage::ConfigLoaded { total, .. } ==> 9 <= total <= 4096
    &&& s matches Stage::Ep0Frame { output, .. } ==> output <= u64::MAX - 4096
}

/// What one answer leads to.
pub struct Turn {
    pub stage: Stage,
    pub ops: Seq<Op>,
    pub ask: Ask,
    pub cmd_ring: Ring,
    pub ep0: Ring,
    pub slot_id: u8,
    pub output: u64,
    pub reports: Seq<u64>,
    pub added: bool,
}

/// A turn that changes nothing about the controller.
pub open spec fn go(c: Controller, stage: Stage, ops: Seq<Op>, ask: Ask) -> Turn {
    Turn {
        stage,
        ops,
        ask,
        cmd_ring: c.cmd_ring,
        ep0: c.ep0,
        slot_id: c.slot_id,
        output: c.output_ctx_phys,
        reports: Seq::empty(),
        added: false,
    }
}

/// Giving up, after some last operations.
pub open spec fn give_up(c: Controller, ops: Seq<Op>) -> Turn {
    go(c, Stage::Finished { ok: false }, ops, Ask::Nothing)
}

/// A command after other operations.
pub open spec fn with_command(c: Controller, stage: Stage, ops: Seq<Op>, trb: Trb) -> Turn {
    Turn {
        cmd_ring: c.cmd_ring.pushed(),
        ..go(
            c,
            stage,
            ops + command_ops(c.cmd_ring, trb),
            Ask::Command(c.cmd_ring.slot()),
        )
    }
}

/// A control transfer.
pub open spec fn with_control(
    c: Controller,
    stage: Stage,
    request: int,
    data: Option<(u64, u32)>,
) -> Turn {
    Turn {
        ep0: before_status(c.ep0, data).pushed(),
        ..go(
            c,
            stage,
            control_ops(c.ep0, c.slot_id, request as u64, data),
            Ask::Transfer(before_status(c.ep0, data).slot()),
        )
    }
}

/// A command on the device's slot.
pub open spec fn slot_command(c: Controller, kind: u32, slot_id: u8) -> Trb {
    Trb {
        parameter: c.input_ctx_phys,
        status: 0,
        control: type_bits(kind) | ((slot_id as u32) << 24),
    }
}

pub open spec fn is_ok(a: Answer) -> bool {
    a matches Answer::Completed { code, .. } && code == COMPLETION_SUCCESS
}

pub open spec fn is_transferred(a: Answer) -> bool {
    a matches Answer::Completed { code, .. } && is_good(code)
}

/// The frames among the first `n` that are to be given back.
pub open spec fn free_ops(phys: Seq<u64>, n: int) -> Seq<Op>
    decreases n,
{
    if n <= 0 {
        Seq::empty()
    } else if phys[n - 1] != 0 {
        free_ops(phys, n - 1).push(Op::FreeFrame(phys[n - 1]))
    } else {
        free_ops(phys, n - 1)
    }
}

/// The link that a fresh ring starts with.
pub open spec fn link_op(phys: u64) -> Op {
    Op::StoreTrb(
        (phys + 240) as u64,
        Trb {
            parameter: phys,
            status: 0,
            control: type_bits(TRB_TYPE_LINK) | TRB_TOGGLE_CYCLE | TRB_CYCLE,
        },
    )
}

/// A frame that was given, where the driver can use it.
pub open spec fn frame_of(a: Answer) -> Option<u64> {
    match a {
        Answer::Frame(Some(p)) => if p <= u64::MAX - 4096 {
            Some(p)
        } else {
            None
        },
        _ => None,
    }
}

/// The bit that resets a port and the one that tells it is done: super speed
/// ports take a warm reset.
pub open spec fn reset_bits(portsc: u32) -> (u32, u32) {
    if (portsc & 0x3c00) >> 10 == 4 {
        (PORTSC_WPR, PORTSC_WRC)
    } else {
        (PORTSC_PR, PORTSC_PRC)
    }
}

/// The first half: up to a device that has an address.
pub open spec fn next_address(s: Stage, port: u8, c: Controller, a: Answer) -> Turn {
    match s {
        Stage::PortStatus => match a {
            Answer::Value(v) if v & PORTSC_CCS != 0 => go(
                c,
                Stage::OutputFrame { portsc: v },
                Seq::empty(),
                Ask::Frame,
            ),
            _ => give_up(c, Seq::empty()),
        },
        Stage::OutputFrame { portsc } => match frame_of(a) {
            Some(output) => go(c, Stage::Ep0Frame { portsc, output }, Seq::empty(), Ask::Frame),
            None => give_up(c, Seq::empty()),
        },
        Stage::Ep0Frame { portsc, output } => match frame_of(a) {
            Some(phys) => Turn {
                output,
                ep0: Ring { phys, enqueue: 0, cycle: 1 },
                ..go(
                    c,
                    Stage::BeforeReset { bit: reset_bits(portsc).0, change: reset_bits(portsc).1 },
                    seq![
                        link_op(phys),
                        Op::Write32(
                            Reg::PortSc(port),
                            (portsc & !PORTSC_WRITE_ONE_MASK) | reset_bits(portsc).1,
                        ),
                    ],
                    Ask::Read(Reg::PortSc(port)),
                )
            },
            None => give_up(c, Seq::empty()),
        },
        Stage::BeforeReset { bit, change } => match a {
            Answer::Value(v) => go(
                c,
                Stage::Resetting { change },
                seq![Op::Write32(Reg::PortSc(port), (v & !PORTSC_WRITE_ONE_MASK) | bit)],
                Ask::Await { reg: Reg::PortSc(port), mask: change, set: true, ms: 1000 },
            ),
            _ => give_up(c, Seq::empty()),
        },
        Stage::Resetting { change } => match a {
            Answer::Done => go(
                c,
                Stage::AfterReset { change },
                Seq::empty(),
                Ask::Read(Reg::PortSc(port)),
            ),
            _ => give_up(c, Seq::empty()),
        },
        Stage::AfterReset { change } => match a {
            Answer::Value(v) => {
                let ops = seq![
                    Op::Write32(
                        Reg::PortSc(port),
                        (v & !PORTSC_WRITE_ONE_MASK) | change | PORTSC_CSC,
                    ),
                ];
                if v & PORTSC_PED == 0 {
                    give_up(c, ops)
                } else {
                    with_command(
                        c,
                        Stage::EnableSlot { speed: (v & 0x3c00) >> 10 },
                        ops,
                        Trb { parameter: 0, status: 0, control: type_bits(TRB_TYPE_ENABLE_SLOT) },
                    )
                }
            },
            _ => give_up(c, Seq::empty()),
        },
        Stage::EnableSlot { speed } => match a {
            Answer::Completed { code, slot } if code == COMPLETION_SUCCESS && slot != 0 => {
                let d = Controller { slot_id: slot, ..c };
                let ops = slot_ops(d, port, speed);
                match first_packet(speed) {
                    Some(max_packet) => with_command(
                        d,
                        Stage::AddressDevice { speed },
                        (ops + ep0_ops(d, max_packet)).push(
                            Op::Store64((c.dcbaa_phys + 8 * slot) as u64, c.output_ctx_phys),
                        ),
                        slot_command(d, TRB_TYPE_ADDRESS_DEVICE, slot),
                    ),
                    None => give_up(d, ops),
                }
            },
            _ => give_up(c, Seq::empty()),
        },
        _ => give_up(c, Seq::empty()),
    }
}

/// The second half up to the keyboard's endpoint: reading descriptors. A full
/// speed device tells the packet size of its endpoint 0 first.
pub open spec fn next_descriptor(s: Stage, port: u8, c: Controller, a: Answer) -> Turn {
    match s {
        Stage::AddressDevice { speed } => if !is_ok(a) {
            give_up(c, Seq::empty())
        } else if speed == 1 {
            go(c, Stage::DeviceFrame { speed }, Seq::empty(), Ask::Frame)
        } else {
            go(c, Stage::ConfigFrame { speed }, Seq::empty(), Ask::Frame)
        },
        Stage::DeviceFrame { speed } => match frame_of(a) {
            Some(desc) => with_control(
                c,
                Stage::DeviceRead { speed, desc },
                packet(REQ_TYPE_STD_DEVICE_IN, REQ_GET_DESCRIPTOR, DESC_TYPE_DEVICE, 0, 8),
                Some((desc, 8)),
            ),
            None => give_up(c, Seq::empty()),
        },
        Stage::DeviceRead { speed, desc } => if is_transferred(a) {
            go(c, Stage::DeviceLoaded { speed }, Seq::empty(), Ask::Load { phys: desc, len: 8 })
        } else {
            give_up(c, Seq::empty())
        },
        Stage::DeviceLoaded { speed } => match a {
            Answer::Bytes(b) if b@.len() == 8 && (b@[7] == 8 || b@[7] == 16 || b@[7] == 32 || b@[7]
                == 64) => with_command(
                c,
                Stage::Evaluate { speed },
                seq![
                    Op::Zero(ctx(c, 0) as u64, c.context_size),
                    Op::Store32((ctx(c, 0) + 4) as u64, 2),
                ] + ep0_ops(c, b@[7] as u32),
                slot_command(c, TRB_TYPE_EVALUATE_CONTEXT, c.slot_id),
            ),
            _ => give_up(c, Seq::empty()),
        },
        Stage::Evaluate { speed } => if is_ok(a) {
            go(c, Stage::ConfigFrame { speed }, Seq::empty(), Ask::Frame)
        } else {
            give_up(c, Seq::empty())
        },
        Stage::ConfigFrame { speed } => match frame_of(a) {
            Some(desc) => with_control(
                c,
                Stage::HeaderRead { speed, desc },
                packet(REQ_TYPE_STD_DEVICE_IN, REQ_GET_DESCRIPTOR, DESC_TYPE_CONFIGURATION, 0, 9),
                Some((desc, 9)),
            ),
            None => give_up(c, Seq::empty()),
        },
        Stage::HeaderRead { speed, desc } => if is_transferred(a) {
            go(c, Stage::HeaderLoaded { speed, desc }, Seq::empty(), Ask::Load { phys: desc, len: 9 })
        } else {
            give_up(c, Seq::empty())
        },
        Stage::HeaderLoaded { speed, desc } => match a {
            Answer::Bytes(b) if b@.len() == 9 && 9 <= le16(b@, 2) <= 4096 => with_control(
                c,
                Stage::ConfigRead { speed, desc, total: le16(b@, 2) as u16 },
                packet(
                    REQ_TYPE_STD_DEVICE_IN,
                    REQ_GET_DESCRIPTOR,
                    DESC_TYPE_CONFIGURATION,
                    0,
                    le16(b@, 2) as u16,
                ),
                Some((desc, le16(b@, 2) as u32)),
            ),
            _ => give_up(c, Seq::empty()),
        },
        Stage::ConfigRead { speed, desc, total } => if is_transferred(a) {
            go(
                c,
                Stage::ConfigLoaded { speed, total },
                Seq::empty(),
                Ask::Load { phys: desc, len: total as u32 },
            )
        } else {
            give_up(c, Seq::empty())
        },
        _ => give_up(c, Seq::empty()),
    }
}

/// The rest: the keyboard configured and its reads posted. That a keyboard does
/// not take the idle request does no harm.
pub open spec fn next_keyboard(s: Stage, port: u8, c: Controller, a: Answer) -> Turn {
    match s {
        Stage::SetConfiguration { keyboard, interval } => if is_transferred(a) {
            with_control(
                c,
                Stage::SetProtocol { keyboard, interval },
                packet(
                    REQ_TYPE_CLASS_IFACE_OUT,
                    HID_REQ_SET_PROTOCOL,
                    0,
                    keyboard.interface as u16,
                    0,
                ),
                None,
            )
        } else {
            give_up(c, Seq::empty())
        },
        Stage::SetProtocol { keyboard, interval } => if is_transferred(a) {
            with_control(
                c,
                Stage::SetIdle { keyboard, interval },
                packet(REQ_TYPE_CLASS_IFACE_OUT, HID_REQ_SET_IDLE, 0, keyboard.interface as u16, 0),
                None,
            )
        } else {
            give_up(c, Seq::empty())
        },
        Stage::SetIdle { keyboard, interval } => go(
            c,
            Stage::RingFrame { keyboard, interval },
            Seq::empty(),
            Ask::Frame,
        ),
        Stage::RingFrame { keyboard, interval } => match frame_of(a) {
            Some(ring) => go(
                c,
                Stage::SlotLoaded { keyboard, interval, ring },
                seq![
                    link_op(ring),
                    Op::Zero(ctx(c, 0) as u64, c.context_size),
                    Op::Store32((ctx(c, 0) + 4) as u64, 1u32 | (1u32 << (keyboard.dci as u32))),
                ],
                Ask::Load { phys: c.output_ctx_phys, len: c.context_size as u32 },
            ),
            None => give_up(c, Seq::empty()),
        },
        Stage::SlotLoaded { keyboard, interval, ring } => match a {
            Answer::Bytes(b) if b@.len() == c.context_size => with_command(
                c,
                Stage::Configure { keyboard, ring },
                endpoint_ops(c, b@, keyboard, interval, ring),
                slot_command(c, TRB_TYPE_CONFIGURE_ENDPOINT, c.slot_id),
            ),
            _ => give_up(c, Seq::empty()),
        },
        Stage::Configure { keyboard, ring } => if is_ok(a) {
            go(
                c,
                Stage::Reports { keyboard, ring },
                Seq::empty(),
                Ask::Frame,
            )
        } else {
            give_up(c, Seq::empty())
        },
        _ => give_up(c, Seq::empty()),
    }
}

/// The last steps: choosing the keyboard in the configuration, and collecting
/// the report buffers.
pub open spec fn next_choice(s: Stage, port: u8, reports: Seq<u64>, c: Controller, a: Answer) -> Turn {
    match s {
        Stage::ConfigLoaded { speed, total } => match a {
            Answer::Bytes(b) if b@.len() == total && keyboard_in(b@) is Some && interval_of(
                speed,
                keyboard_in(b@)->0.interval,
            ) is Some => with_control(
                c,
                Stage::SetConfiguration {
                    keyboard: keyboard_in(b@)->0,
                    interval: interval_of(speed, keyboard_in(b@)->0.interval)->0,
                },
                packet(
                    REQ_TYPE_STD_DEVICE_OUT,
                    REQ_SET_CONFIGURATION,
                    keyboard_in(b@)->0.configuration as u16,
                    0,
                    0,
                ),
                None,
            ),
            _ => give_up(c, Seq::empty()),
        },
        Stage::Reports { keyboard, ring } => match frame_of(a) {
            Some(phys) => {
                let all = reports.push(phys);
                if all.len() < 8 {
                    Turn { reports: all, ..go(c, s, Seq::empty(), Ask::Frame) }
                } else {
                    Turn {
                        reports: all,
                        added: true,
                        ..go(
                            c,
                            Stage::Finished { ok: true },
                            posted_ops(Ring { phys: ring, enqueue: 0, cycle: 1 }, all, 8).push(
                                Op::Write32(Reg::Doorbell(c.slot_id), keyboard.dci as u32),
                            ),
                            Ask::Nothing,
                        )
                    }
                }
            },
            None => give_up(c, free_ops(reports, reports.len() as int)),
        },
        _ => give_up(c, Seq::empty()),
    }
}

/// The interval that the controller takes, where there is one.
pub open spec fn interval_of(speed: u32, interval: u8) -> Option<u32> {
    if has_interval(speed, interval as int) {
        Some(choose|e: u32| is_interval(speed, interval as int, e as int))
    } else {
        None
    }
}

/// What posting a read into each of the first `n` buffers stores.
pub open spec fn posted_ops(ring: Ring, reports: Seq<u64>, n: int) -> Seq<Op>
    decreases n,
{
    if n <= 0 {
        Seq::empty()
    } else {
        posted_ops(ring, reports, n - 1) + after_pushes(ring, (n - 1) as nat).push_ops(
            Trb {
                parameter: reports[n - 1],
                status: 8,
                control: type_bits(TRB_TYPE_NORMAL) | TRB_IOC,
            },
        )
    }
}

/// What one answer leads to.
pub open spec fn next_turn(s: Stage, port: u8, reports: Seq<u64>, c: Controller, a: Answer) -> Turn {
    let r = rank(s, reports);
    if r >= 34 {
        next_address(s, port, c, a)
    } else if r >= 25 {
        next_descriptor(s, port, c, a)
    } else if s is ConfigLoaded || s is Reports {
        next_choice(s, port, reports, c, a)
    } else {
        next_keyboard(s, port, c, a)
    }
}

/// Whether a step did what a turn says, short of keyboards being added.
pub open spec fn did(
    t: Turn,
    before: Controller,
    after: Controller,
    ops0: Seq<Op>,
    ops: Seq<Op>,
    stage: Stage,
    ask: Ask,
) -> bool {
    &&& stage == t.stage
    &&& ask == t.ask
    &&& ops == ops0 + t.ops
    &&& after.wf()
    &&& after.cmd_ring == t.cmd_ring
    &&& after.ep0 == t.ep0
    &&& after.slot_id == t.slot_id
    &&& after.output_ctx_phys == t.output
    &&& after.max_ports == before.max_ports
    &&& after.context_size == before.context_size
    &&& after.events == before.events
    &&& after.dcbaa_phys == before.dcbaa_phys
    &&& after.input_ctx_phys == before.input_ctx_phys
}

fn given_frame(a: &Answer) -> (r: Option<u64>)
    ensures
        r == frame_of(*a),
        r matches Some(p) ==> p <= u64::MAX - 4096,
{
    match a {
        Answer::Frame(Some(p)) => if *p <= u64::MAX - 4096 {
            Some(*p)
        } else {
            None
        },
        _ => None,
    }
}

/// The first half: up to a device that has an address.
fn advance_address(stage: Stage, port: u8, c: &mut Controller, a: &Answer, ops: &mut Vec<Op>) -> (r:
    (Stage, Ask))
    requires
        old(c).wf(),
        is_stage(stage),
        rank(stage, Seq::empty()) >= 34,
    ensures
        did(
            next_address(stage, port, *old(c), *a),
            *old(c),
            *final(c),
            old(ops)@,
            final(ops)@,
            r.0,
            r.1,
        ),
        is_stage(r.0),
        final(c).keyboards == old(c).keyboards,
{
    let ghost o = ops@;
    let failed: (Stage, Ask) = (Stage::Finished { ok: false }, Ask::Nothing);
    assert(o + Seq::<Op>::empty() =~= o);
    match stage {
        Stage::PortStatus => match a {
            Answer::Value(v) => if *v & PORTSC_CCS != 0 {
                (Stage::OutputFrame { portsc: *v }, Ask::Frame)
            } else {
                failed
            },
            _ => failed,
        },
        Stage::OutputFrame { portsc } => match given_frame(a) {
            Some(output) => (Stage::Ep0Frame { portsc, output }, Ask::Frame),
            None => failed,
        },
        Stage::Ep0Frame { portsc, output } => match given_frame(a) {
            Some(phys) => {
                let (ring, link) = Ring::new(phys);
                c.output_ctx_phys = output;
                c.ep0 = ring;
                let (bit, change): (u32, u32) = if (portsc & 0x3c00) >> 10 == 4 {
                    (PORTSC_WPR, PORTSC_WRC)
                } else {
                    (PORTSC_PR, PORTSC_PRC)
                };
                ops.push(link);
                ops.push(
                    Op::Write32(
                        Reg::PortSc(port),
                        (portsc & !PORTSC_WRITE_ONE_MASK) | change,
                    ),
                );
                assert(ops@ =~= o + next_address(stage, port, *old(c), *a).ops);
                (Stage::BeforeReset { bit, change }, Ask::Read(Reg::PortSc(port)))
            },
            None => failed,
        },
        Stage::BeforeReset { bit, change } => match a {
            Answer::Value(v) => {
                ops.push(
                    Op::Write32(Reg::PortSc(port), (*v & !PORTSC_WRITE_ONE_MASK) | bit),
                );
                assert(ops@ =~= o + next_address(stage, port, *old(c), *a).ops);
                (
                    Stage::Resetting { change },
                    Ask::Await { reg: Reg::PortSc(port), mask: change, set: true, ms: 1000 },
                )
            },
            _ => failed,
        },
        Stage::Resetting { change } => match a {
            Answer::Done => (Stage::AfterReset { change }, Ask::Read(Reg::PortSc(port))),
            _ => failed,
        },
        Stage::AfterReset { change } => match a {
            Answer::Value(v) => {
                ops.push(
                    Op::Write32(
                        Reg::PortSc(port),
                        (*v & !PORTSC_WRITE_ONE_MASK) | change | PORTSC_CSC,
                    ),
                );
                if *v & PORTSC_PED == 0 {
                    assert(ops@ =~= o + next_address(stage, port, *old(c), *a).ops);
                    return failed;
                }
                let trb: Trb = Trb {
                    parameter: 0,
                    status: 0,
                    control: make_type(TRB_TYPE_ENABLE_SLOT),
                };
                let ask: Ask = do_command(c, trb, ops);
                assert(ops@ =~= o + next_address(stage, port, *old(c), *a).ops);
                (Stage::EnableSlot { speed: (*v & 0x3c00) >> 10 }, ask)
            },
            _ => failed,
        },
        Stage::EnableSlot { speed } => match a {
            Answer::Completed { code, slot } => {
                if *code != COMPLETION_SUCCESS || *slot == 0 {
                    return failed;
                }
                c.slot_id = *slot;
                push_slot(c, port, speed, ops);
                let max_packet: u32 = if speed == 1 || speed == 2 {
                    8
                } else if speed == 3 {
                    64
                } else if speed == 4 {
                    512
                } else {
                    assert(ops@ =~= o + next_address(stage, port, *old(c), *a).ops);
                    return failed;
                };
                push_ep0(c, max_packet, ops);
                ops.push(Op::Store64(c.dcbaa_phys + 8 * *slot as u64, c.output_ctx_phys));
                let trb: Trb = Trb {
                    parameter: c.input_ctx_phys,
                    status: 0,
                    control: make_type(TRB_TYPE_ADDRESS_DEVICE) | ((*slot as u32) << 24),
                };
                let ask: Ask = do_command(c, trb, ops);
                assert(ops@ =~= o + next_address(stage, port, *old(c), *a).ops);
                (Stage::AddressDevice { speed }, ask)
            },
            _ => failed,
        },
        _ => failed,
    }
}

fn is_done(a: &Answer) -> (r: bool)
    ensures
        r == is_ok(*a),
{
    match a {
        Answer::Completed { code, .. } => *code == COMPLETION_SUCCESS,
        _ => false,
    }
}

fn transfer_done(a: &Answer) -> (r: bool)
    ensures
        r == is_transferred(*a),
{
    match a {
        Answer::Completed { code, .. } => *code == COMPLETION_SUCCESS || *code
            == super::COMPLETION_SHORT_PACKET,
        _ => false,
    }
}

/// Reading descriptors.
fn advance_descriptor(stage: Stage, port: u8, c: &mut Controller, a: &Answer, ops: &mut Vec<Op>) -> (r:
    (Stage, Ask))
    requires
        old(c).wf(),
        is_stage(stage),
        25 <= rank(stage, Seq::empty()) < 34,
    ensures
        did(
            next_descriptor(stage, port, *old(c), *a),
            *old(c),
            *final(c),
            old(ops)@,
            final(ops)@,
            r.0,
            r.1,
        ),
        is_stage(r.0),
        final(c).keyboards == old(c).keyboards,
{
    let ghost o = ops@;
    let failed: (Stage, Ask) = (Stage::Finished { ok: false }, Ask::Nothing);
    assert(o + Seq::<Op>::empty() =~= o);
    match stage {
        Stage::AddressDevice { speed } => if !is_done(a) {
            failed
        } else if speed == 1 {
            (Stage::DeviceFrame { speed }, Ask::Frame)
        } else {
            (Stage::ConfigFrame { speed }, Ask::Frame)
        },
        Stage::DeviceFrame { speed } => match given_frame(a) {
            Some(desc) => {
                let request: u64 = setup_packet(
                    REQ_TYPE_STD_DEVICE_IN,
                    REQ_GET_DESCRIPTOR,
                    DESC_TYPE_DEVICE,
                    0,
                    8,
                );
                let ask: Ask = control_transfer(c, request, Some((desc, 8)), ops);
                (Stage::DeviceRead { speed, desc }, ask)
            },
            None => failed,
        },
        Stage::DeviceRead { speed, desc } => if transfer_done(a) {
            (Stage::DeviceLoaded { speed }, Ask::Load { phys: desc, len: 8 })
        } else {
            failed
        },
        Stage::DeviceLoaded { speed } => match a {
            Answer::Bytes(b) => {
                if b.len() != 8 || !(b[7] == 8 || b[7] == 16 || b[7] == 32 || b[7] == 64) {
                    return failed;
                }
                let control: u64 = input_context_entry(c, 0);
                ops.push(Op::Zero(control, c.context_size));
                ops.push(Op::Store32(control + 4, 2));
                push_ep0(c, b[7] as u32, ops);
                let trb: Trb = Trb {
                    parameter: c.input_ctx_phys,
                    status: 0,
                    control: make_type(TRB_TYPE_EVALUATE_CONTEXT) | ((c.slot_id as u32) << 24),
                };
                let ask: Ask = do_command(c, trb, ops);
                assert(ops@ =~= o + next_descriptor(stage, port, *old(c), *a).ops);
                (Stage::Evaluate { speed }, ask)
            },
            _ => failed,
        },
        Stage::Evaluate { speed } => if is_done(a) {
            (Stage::ConfigFrame { speed }, Ask::Frame)
        } else {
            failed
        },
        Stage::ConfigFrame { speed } => match given_frame(a) {
            Some(desc) => {
                let request: u64 = setup_packet(
                    REQ_TYPE_STD_DEVICE_IN,
                    REQ_GET_DESCRIPTOR,
                    DESC_TYPE_CONFIGURATION,
                    0,
                    9,
                );
                let ask: Ask = control_transfer(c, request, Some((desc, 9)), ops);
                (Stage::HeaderRead { speed, desc }, ask)
            },
            None => failed,
        },
        Stage::HeaderRead { speed, desc } => if transfer_done(a) {
            (Stage::HeaderLoaded { speed, desc }, Ask::Load { phys: desc, len: 9 })
        } else {
            failed
        },
        Stage::HeaderLoaded { speed, desc } => match a {
            Answer::Bytes(b) => {
                if b.len() != 9 {
                    return failed;
                }
                let total: u16 = u16le(b.as_slice(), 2);
                if total < 9 || total > 4096 {
                    return failed;
                }
                let request: u64 = setup_packet(
                    REQ_TYPE_STD_DEVICE_IN,
                    REQ_GET_DESCRIPTOR,
                    DESC_TYPE_CONFIGURATION,
                    0,
                    total,
                );
                let ask: Ask = control_transfer(c, request, Some((desc, total as u32)), ops);
                (Stage::ConfigRead { speed, desc, total }, ask)
            },
            _ => failed,
        },
        Stage::ConfigRead { speed, desc, total } => if transfer_done(a) {
            (Stage::ConfigLoaded { speed, total }, Ask::Load { phys: desc, len: total as u32 })
        } else {
            failed
        },
        _ => failed,
    }
}

/// Configuring the keyboard.
fn advance_keyboard(stage: Stage, port: u8, c: &mut Controller, a: &Answer, ops: &mut Vec<Op>) -> (r:
    (Stage, Ask))
    requires
        old(c).wf(),
        is_stage(stage),
    ensures
        did(
            next_keyboard(stage, port, *old(c), *a),
            *old(c),
            *final(c),
            old(ops)@,
            final(ops)@,
            r.0,
            r.1,
        ),
        is_stage(r.0),
        final(c).keyboards == old(c).keyboards,
{
    let ghost o = ops@;
    let failed: (Stage, Ask) = (Stage::Finished { ok: false }, Ask::Nothing);
    assert(o + Seq::<Op>::empty() =~= o);
    match stage {
        Stage::SetConfiguration { keyboard, interval } => if transfer_done(a) {
            let request: u64 = setup_packet(
                REQ_TYPE_CLASS_IFACE_OUT,
                HID_REQ_SET_PROTOCOL,
                0,
                keyboard.interface as u16,
                0,
            );
            let ask: Ask = control_transfer(c, request, None, ops);
            (Stage::SetProtocol { keyboard, interval }, ask)
        } else {
            failed
        },
        Stage::SetProtocol { keyboard, interval } => if transfer_done(a) {
            let request: u64 = setup_packet(
                REQ_TYPE_CLASS_IFACE_OUT,
                HID_REQ_SET_IDLE,
                0,
                keyboard.interface as u16,
                0,
            );
            let ask: Ask = control_transfer(c, request, None, ops);
            (Stage::SetIdle { keyboard, interval }, ask)
        } else {
            failed
        },
        Stage::SetIdle { keyboard, interval } => (
            Stage::RingFrame { keyboard, interval },
            Ask::Frame,
        ),
        Stage::RingFrame { keyboard, interval } => match given_frame(a) {
            Some(ring) => {
                let (_ring, link) = Ring::new(ring);
                ops.push(link);
                let control: u64 = input_context_entry(c, 0);
                ops.push(Op::Zero(control, c.context_size));
                ops.push(Op::Store32(control + 4, 1u32 | (1u32 << (keyboard.dci as u32))));
                assert(ops@ =~= o + next_keyboard(stage, port, *old(c), *a).ops);
                (
                    Stage::SlotLoaded { keyboard, interval, ring },
                    Ask::Load { phys: c.output_ctx_phys, len: c.context_size as u32 },
                )
            },
            None => failed,
        },
        Stage::SlotLoaded { keyboard, interval, ring } => match a {
            Answer::Bytes(b) => {
                if b.len() as u64 != c.context_size {
                    return failed;
                }
                push_endpoint(c, b, keyboard, interval, ring, ops);
                let trb: Trb = Trb {
                    parameter: c.input_ctx_phys,
                    status: 0,
                    control: make_type(TRB_TYPE_CONFIGURE_ENDPOINT) | ((c.slot_id as u32) << 24),
                };
                let ask: Ask = do_command(c, trb, ops);
                assert(ops@ =~= o + next_keyboard(stage, port, *old(c), *a).ops);
                (Stage::Configure { keyboard, ring }, ask)
            },
            _ => failed,
        },
        Stage::Configure { keyboard, ring } => if is_done(a) {
            (Stage::Reports { keyboard, ring }, Ask::Frame)
        } else {
            failed
        },
        _ => failed,
    }
}

/// There is only one interval that the controller takes.
proof fn lemma_interval(speed: u32, interval: u8, e: u32)
    requires
        interval >= 1,
        has_interval(speed, interval as int),
        is_interval(speed, interval as int, e as int),
    ensures
        interval_of(speed, interval) == Some(e),
{
    let f = choose|f: u32| is_interval(speed, interval as int, f as int);
    assert(is_interval(speed, interval as int, f as int));
    if e < f {
        if e + 1 < f {
            vstd::arithmetic::power2::lemma_pow2_strictly_increases((e + 1) as nat, f as nat);
        }
    } else if f < e {
        if f + 1 < e {
            vstd::arithmetic::power2::lemma_pow2_strictly_increases((f + 1) as nat, e as nat);
        }
    }
}

/// Choose the keyboard in a configuration.
fn choose_keyboard(stage: Stage, port: u8, c: &mut Controller, a: &Answer, ops: &mut Vec<Op>) -> (r:
    (Stage, Ask))
    requires
        old(c).wf(),
        is_stage(stage),
        stage is ConfigLoaded,
    ensures
        did(
            next_choice(stage, port, Seq::empty(), *old(c), *a),
            *old(c),
            *final(c),
            old(ops)@,
            final(ops)@,
            r.0,
            r.1,
        ),
        is_stage(r.0),
        final(c).keyboards == old(c).keyboards,
{
    let ghost o = ops@;
    let failed: (Stage, Ask) = (Stage::Finished { ok: false }, Ask::Nothing);
    assert(o + Seq::<Op>::empty() =~= o);
    match stage {
        Stage::ConfigLoaded { speed, total } => match a {
            Answer::Bytes(b) => {
                if b.len() != total as usize {
                    return failed;
                }
                match find_boot_keyboard(b.as_slice()) {
                    Some(keyboard) => match xhci_interval(speed, keyboard.interval) {
                        Some(interval) => {
                            proof {
                                lemma_interval(speed, keyboard.interval, interval);
                            }
                            let request: u64 = setup_packet(
                                REQ_TYPE_STD_DEVICE_OUT,
                                REQ_SET_CONFIGURATION,
                                keyboard.configuration as u16,
                                0,
                                0,
                            );
                            let ask: Ask = control_transfer(c, request, None, ops);
                            (Stage::SetConfiguration { keyboard, interval }, ask)
                        },
                        None => failed,
                    },
                    None => failed,
                }
            },
            _ => failed,
        },
        _ => failed,
    }
}

/// A port being brought up.
#[derive(Debug)]
pub struct Setup {
    pub port: u8,
    pub stage: Stage,
    /// Report buffers so far.
    pub reports: Vec<u64>,
}

/// The keyboard that a port turned out to be.
pub open spec fn is_new_keyboard(
    k: UsbKeyboard,
    port: u8,
    slot_id: u8,
    dci: u8,
    ring: u64,
    reports: Seq<u64>,
) -> bool {
    &&& k.port == port
    &&& k.slot_id == slot_id
    &&& k.dci == dci
    &&& k.ring == after_pushes(Ring { phys: ring, enqueue: 0, cycle: 1 }, 8)
    &&& k.report_phys@ == reports
    &&& k.report_enqueue == 0
    &&& k.report_dequeue == 0
    &&& k.prev_keys@ == seq![0u8, 0, 0, 0, 0, 0]
}

impl Setup {
    pub open spec fn wf(self) -> bool {
        &&& is_stage(self.stage)
        &&& self.stage is Reports ==> self.reports@.len() < 8
        &&& !(self.stage is Reports) && !(self.stage is Finished) ==> self.reports@.len() == 0
    }

    /// Start with a port, and what to ask first.
    pub fn new(port: u8) -> (r: (Setup, Ask))
        ensures
            r.0.wf(),
            r.0.port == port,
            r.0.reports@.len() == 0,
            r.0.stage == Stage::PortStatus,
            r.1 == Ask::Read(Reg::PortSc(port)),
    {
        (
            Setup { port, stage: Stage::PortStatus, reports: Vec::new() },
            Ask::Read(Reg::PortSc(port)),
        )
    }

    /// Post all reads of a new keyboard.
    fn start_keyboard(
        &self,
        c: &mut Controller,
        keyboard: BootKeyboardEndpoint,
        ring: u64,
        ops: &mut Vec<Op>,
    )
        requires
            old(c).wf(),
            self.reports@.len() == 8,
            ring <= u64::MAX - 4096,
        ensures
            final(c).wf(),
            final(c).same_setup(*old(c)),
            final(c).events == old(c).events,
            final(c).keyboards@.len() == old(c).keyboards@.len() + 1,
            final(c).keyboards@.drop_last() == old(c).keyboards@,
            is_new_keyboard(
                final(c).keyboards@.last(),
                self.port,
                old(c).slot_id,
                keyboard.dci,
                ring,
                self.reports@,
            ),
            final(ops)@ == old(ops)@ + posted_ops(
                Ring { phys: ring, enqueue: 0, cycle: 1 },
                self.reports@,
                8,
            ).push(Op::Write32(Reg::Doorbell(old(c).slot_id), keyboard.dci as u32)),
    {
        let ghost o = ops@;
        let fresh: Ring = Ring { phys: ring, enqueue: 0, cycle: 1 };
        let p: [u64; 8] = [
            self.reports[0],
            self.reports[1],
            self.reports[2],
            self.reports[3],
            self.reports[4],
            self.reports[5],
            self.reports[6],
            self.reports[7],
        ];
        assert(p@ =~= self.reports@);
        let mut k: UsbKeyboard = UsbKeyboard {
            port: self.port,
            slot_id: c.slot_id,
            dci: keyboard.dci,
            ring: fresh,
            report_phys: p,
            report_enqueue: 0,
            report_dequeue: 0,
            prev_keys: [0, 0, 0, 0, 0, 0],
        };
        let mut i: usize = 0;
        assert(ops@ =~= o + posted_ops(fresh, self.reports@, 0));
        while i < 8
            invariant
                i <= 8,
                k.wf(),
                self.reports@.len() == 8,
                k.port == self.port,
                k.slot_id == c.slot_id,
                k.dci == keyboard.dci,
                k.ring == after_pushes(fresh, i as nat),
                k.report_phys@ == self.reports@,
                k.report_enqueue == i % 8,
                k.report_dequeue == 0,
                k.prev_keys@ == seq![0u8, 0, 0, 0, 0, 0],
                ops@ == o + posted_ops(fresh, self.reports@, i as int),
            decreases 8 - i,
        {
            let ghost before = ops@;
            queue_report_read(&mut k, ops);
            i += 1;
            assert(ops@ =~= o + posted_ops(fresh, self.reports@, i as int));
        }
        ops.push(Op::Write32(Reg::Doorbell(k.slot_id), k.dci as u32));
        let ghost l = c.keyboards@;
        c.keyboards.push(k);
        assert(c.keyboards@.drop_last() =~= l);
        assert(ops@ =~= o + posted_ops(fresh, self.reports@, 8).push(
            Op::Write32(Reg::Doorbell(old(c).slot_id), keyboard.dci as u32),
        ));
        assert forall|i: int| 0 <= i < c.keyboards@.len() implies (
        #[trigger] c.keyboards@[i]).wf() by {
            if i < l.len() {
                assert(c.keyboards@[i] == l[i]);
                assert(l[i].wf());
            }
        }
    }

    /// Collect a report buffer; with the last one the keyboard is ready.
    fn advance_reports(
        &mut self,
        c: &mut Controller,
        keyboard: BootKeyboardEndpoint,
        ring: u64,
        a: &Answer,
        ops: &mut Vec<Op>,
    ) -> (r: Ask)
        requires
            old(c).wf(),
            old(self).wf(),
            old(self).stage == (Stage::Reports { keyboard, ring }),
        ensures
            final(self).wf(),
            final(self).port == old(self).port,
            ({
                let t = next_choice(
                    old(self).stage,
                    old(self).port,
                    old(self).reports@,
                    *old(c),
                    *a,
                );
                &&& did(
                    t,
                    *old(c),
                    *final(c),
                    old(ops)@,
                    final(ops)@,
                    final(self).stage,
                    r,
                )
                &&& final(self).reports@ == t.reports
                &&& !t.added ==> final(c).keyboards@ == old(c).keyboards@
                &&& t.added ==> {
                    &&& final(c).keyboards@.len() == old(c).keyboards@.len() + 1
                    &&& final(c).keyboards@.drop_last() == old(c).keyboards@
                    &&& is_new_keyboard(
                        final(c).keyboards@.last(),
                        old(self).port,
                        old(c).slot_id,
                        keyboard.dci,
                        ring,
                        t.reports,
                    )
                }
            }),
    {
        let ghost o = ops@;
        assert(o + Seq::<Op>::empty() =~= o);
        match given_frame(a) {
            Some(phys) => {
                self.reports.push(phys);
                if self.reports.len() < 8 {
                    Ask::Frame
                } else {
                    self.start_keyboard(c, keyboard, ring, ops);
                    self.stage = Stage::Finished { ok: true };
                    Ask::Nothing
                }
            },
            None => {
                let n: usize = self.reports.len();
                let mut i: usize = 0;
                assert(ops@ =~= o + free_ops(self.reports@, 0));
                while i < n
                    invariant
                        i <= n,
                        n == self.reports@.len(),
                        ops@ == o + free_ops(self.reports@, i as int),
                        self.port == old(self).port,
                        self.reports@ == old(self).reports@,
                    decreases n - i,
                {
                    let p: u64 = self.reports[i];
                    if p != 0 {
                        ops.push(Op::FreeFrame(p));
                    }
                    i += 1;
                    assert(ops@ =~= o + free_ops(self.reports@, i as int));
                }
                self.reports = Vec::new();
                self.stage = Stage::Finished { ok: false };
                Ask::Nothing
            },
        }
    }

    /// Take the answer to the last question one step further: do these
    /// operations, then answer this.
    ///
    /// Whatever goes wrong (nothing plugged in, not a keyboard, a step the
    /// device did not respond to) ends in a failure, after which the caller moves
    /// on to the next port.
    pub fn try_setup_keyboard(&mut self, c: &mut Controller, a: &Answer, ops: &mut Vec<Op>) -> (r:
        Ask)
        requires
            old(c).wf(),
            old(self).wf(),
            !(old(self).stage is Finished),
        ensures
            final(self).wf(),
            final(self).port == old(self).port,
            ({
                let t = next_turn(
                    old(self).stage,
                    old(self).port,
                    old(self).reports@,
                    *old(c),
                    *a,
                );
                &&& did(
                    t,
                    *old(c),
                    *final(c),
                    old(ops)@,
                    final(ops)@,
                    final(self).stage,
                    r,
                )
                &&& final(self).reports@ == t.reports
                &&& !t.added ==> final(c).keyboards@ == old(c).keyboards@
                &&& t.added ==> {
                    &&& final(c).keyboards@.len() == old(c).keyboards@.len() + 1
                    &&& final(c).keyboards@.drop_last() == old(c).keyboards@
                    &&& is_new_keyboard(
                        final(c).keyboards@.last(),
                        old(self).port,
                        old(c).slot_id,
                        carried(old(self).stage)->0.dci,
                        carried_ring(old(self).stage),
                        t.reports,
                    )
                }
            }),
    {
        let stage: Stage = self.stage;
        proof {
            assert(self.reports@.len() == 0 ==> self.reports@ =~= Seq::empty());
        }
        let (next, ask): (Stage, Ask) = match stage {
            Stage::Reports { keyboard, ring } => {
                return self.advance_reports(c, keyboard, ring, a, ops);
            },
            Stage::ConfigLoaded { .. } => choose_keyboard(stage, self.port, c, a, ops),
            Stage::PortStatus
            | Stage::OutputFrame { .. }
            | Stage::Ep0Frame { .. }
            | Stage::BeforeReset { .. }
            | Stage::Resetting { .. }
            | Stage::AfterReset { .. }
            | Stage::EnableSlot { .. } => advance_address(stage, self.port, c, a, ops),
            Stage::AddressDevice { .. }
            | Stage::DeviceFrame { .. }
            | Stage::DeviceRead { .. }
            | Stage::DeviceLoaded { .. }
            | Stage::Evaluate { .. }
            | Stage::ConfigFrame { .. }
            | Stage::HeaderRead { .. }
            | Stage::HeaderLoaded { .. }
            | Stage::ConfigRead { .. } => advance_descriptor(stage, self.port, c, a, ops),
            _ => advance_keyboard(stage, self.port, c, a, ops),
        };
        self.stage = next;
        ask
    }
}

/// Bringing up a port ends: every answer leaves fewer questions.
pub proof fn law_setup_ends(s: Stage, port: u8, reports: Seq<u64>, c: Controller, a: Answer)
    requires
        is_stage(s),
        !(s is Finished),
        s is Reports ==> reports.len() < 8,
        !(s is Reports) ==> reports.len() == 0,
    ensures
        ({
            let t = next_turn(s, port, reports, c, a);
            0 <= rank(t.stage, t.reports) < rank(s, reports)
        }),
{
}

/// A keyboard is added exactly when bringing up its port succeeds, and a wait
/// that times out ends it without one, except where the idle request is not
/// answered.
pub proof fn law_no_keyboard_without_success(
    s: Stage,
    port: u8,
    reports: Seq<u64>,
    c: Controller,
    a: Answer,
)
    requires
        is_stage(s),
        !(s is Finished),
    ensures
        ({
            let t = next_turn(s, port, reports, c, a);
            &&& t.added <==> t.stage == (Stage::Finished { ok: true })
            &&& a is TimedOut && !(s is SetIdle) ==> t.stage == (Stage::Finished { ok: false })
            &&& t.stage is Finished <==> t.ask == Ask::Nothing
        }),
{
}

} // verus!
