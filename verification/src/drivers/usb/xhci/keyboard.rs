//! USB boot keyboards: finding one in a configuration, and reading its reports.

use vstd::prelude::*;
use vstd::arithmetic::power2::{lemma2_to64, lemma_pow2_unfold, pow2};
use crate::bytes::{le16, u16le};
use crate::drivers::ps2::{apply_caps, with_caps};
use crate::drivers::queue::{pushed_all, RingBuffer};
use super::{
    make_type, trb_type, type_bits, type_of, Ask, EventRing, Op, Reg, Ring, Trb,
    COMPLETION_SHORT_PACKET, COMPLETION_SUCCESS, TRB_CYCLE, TRB_IOC, TRB_TYPE_COMMAND_COMPLETION,
    TRB_TYPE_NORMAL, TRB_TYPE_TRANSFER_EVENT,
};

verus! {

/// How many reads are posted at a time, each with a buffer of its own.
pub const KEYBOARD_REPORT_QUEUE_DEPTH: usize = 8;

/// The interrupt endpoint of a boot keyboard.
#[derive(Clone, Copy, Debug, PartialEq, Eq, Structural)]
pub struct BootKeyboardEndpoint {
    pub configuration: u8,
    pub interface: u8,
    /// Device context index.
    pub dci: u8,
    pub max_packet: u16,
    pub interval: u8,
}

/// Whether an interface descriptor is that of a boot keyboard: HID class, boot
/// subclass, keyboard protocol, first alternate.
pub open spec fn is_keyboard_interface(b: Seq<u8>, at: int) -> bool {
    b[at + 3] == 0 && b[at + 5] == 3 && b[at + 6] == 1 && b[at + 7] == 1
}

/// The largest packet that an endpoint descriptor gives.
pub open spec fn packet_size(b: Seq<u8>, at: int) -> int {
    le16(b, at + 4) % 0x800
}

/// Whether an endpoint descriptor is of use: interrupt, inward, with a number,
/// and room for a report.
pub open spec fn is_report_endpoint(b: Seq<u8>, at: int) -> bool {
    b[at + 2] >= 0x80 && b[at + 2] % 16 != 0 && b[at + 3] % 4 == 3 && packet_size(b, at) >= 8
}

/// The endpoint of the first boot keyboard, from the descriptor at `at` on, with
/// the keyboard interface that was read last.
pub open spec fn keyboard_from(b: Seq<u8>, total: int, at: int, iface: Option<u8>) -> Option<
    BootKeyboardEndpoint,
>
    decreases total - at,
{
    if at < 0 || at + 2 > total {
        None
    } else {
        let len = b[at] as int;
        let kind = b[at + 1];
        if len < 2 || at + len > total {
            None
        } else if kind == 4 && len >= 9 {
            keyboard_from(
                b,
                total,
                at + len,
                if is_keyboard_interface(b, at) {
                    Some(b[at + 2])
                } else {
                    None
                },
            )
        } else if kind == 5 && len >= 7 && iface is Some && is_report_endpoint(b, at) {
            Some(
                BootKeyboardEndpoint {
                    configuration: b[5],
                    interface: iface->0,
                    dci: (b[at + 2] % 16 * 2 + 1) as u8,
                    max_packet: packet_size(b, at) as u16,
                    interval: if b[at + 6] == 0 {
                        1
                    } else {
                        b[at + 6]
                    },
                },
            )
        } else {
            keyboard_from(b, total, at + len, iface)
        }
    }
}

/// The boot keyboard in a configuration, if there is one.
pub open spec fn keyboard_in(b: Seq<u8>) -> Option<BootKeyboardEndpoint> {
    if b.len() < 9 || b[1] != 2 || le16(b, 2) < 9 || le16(b, 2) > b.len() {
        None
    } else {
        keyboard_from(b, le16(b, 2), 9, None)
    }
}

/// Find the boot keyboard in a configuration descriptor.
pub fn find_boot_keyboard(config: &[u8]) -> (r: Option<BootKeyboardEndpoint>)
    ensures
        r == keyboard_in(config@),
        r matches Some(k) ==> 3 <= k.dci <= 31 && 8 <= k.max_packet < 0x800 && k.interval >= 1,
{
    let size: usize = config.len();
    if size < 9 || config[1] != 2 {
        return None;
    }
    let total: usize = u16le(config, 2) as usize;
    if total < 9 || total > size {
        return None;
    }
    let configuration: u8 = config[5];
    let mut iface: Option<u8> = None;
    let mut at: usize = 9;
    while at + 2 <= total
        invariant
            9 <= at <= total,
            total <= size,
            size == config@.len(),
            total == le16(config@, 2),
            total >= 9,
            config@[1] == 2,
            configuration == config@[5],
            keyboard_in(config@) == keyboard_from(config@, total as int, at as int, iface),
        decreases total - at,
    {
        let len: usize = config[at] as usize;
        let kind: u8 = config[at + 1];
        if len < 2 || at + len > total {
            return None;
        }
        if kind == 4 && len >= 9 {
            iface = if config[at + 3] == 0 && config[at + 5] == 3 && config[at + 6] == 1 && config[at
                + 7] == 1 {
                Some(config[at + 2])
            } else {
                None
            };
        } else if kind == 5 && len >= 7 {
            match iface {
                Some(interface) => {
                    let address: u8 = config[at + 2];
                    let max_packet: u16 = u16le(config, at + 4) % 0x800;
                    if address >= 0x80 && address % 16 != 0 && config[at + 3] % 4 == 3
                        && max_packet >= 8 {
                        let interval: u8 = if config[at + 6] == 0 {
                            1
                        } else {
                            config[at + 6]
                        };
                        return Some(
                            BootKeyboardEndpoint {
                                configuration,
                                interface,
                                dci: address % 16 * 2 + 1,
                                max_packet,
                                interval,
                            },
                        );
                    }
                },
                None => {},
            }
        }
        at += len;
    }
    None
}

/// Whether `e` is what the controller takes for an endpoint's polling interval:
/// an exponent of 125 us.
///
/// Low and full speed give 1 ms frames, which are rounded down to a power of
/// two. High and super speed give an exponent already, counted from 1.
pub open spec fn is_interval(speed: u32, interval: int, e: int) -> bool {
    if speed == 1 || speed == 2 {
        pow2(e as nat) <= interval * 8 < pow2((e + 1) as nat) && e >= 0
    } else {
        e == interval - 1
    }
}

/// Whether a polling interval can be had at a speed.
pub open spec fn has_interval(speed: u32, interval: int) -> bool {
    speed == 1 || speed == 2 || ((speed == 3 || speed == 4) && interval <= 16)
}

/// The polling interval as the controller takes it. A zero interval counts as
/// one.
pub fn xhci_interval(speed: u32, descriptor_interval: u8) -> (r: Option<u32>)
    ensures
        ({
            let interval = if descriptor_interval == 0 {
                1
            } else {
                descriptor_interval as int
            };
            &&& r is Some <==> has_interval(speed, interval)
            &&& r matches Some(e) ==> is_interval(speed, interval, e as int) && e <= 15
        }),
{
    let interval: u32 = if descriptor_interval == 0 {
        1
    } else {
        descriptor_interval as u32
    };
    if speed == 1 || speed == 2 {
        let frames: u32 = interval * 8;
        let mut e: u32 = 3;
        let mut power: u32 = 8;
        proof {
            lemma2_to64();
        }
        while power * 2 <= frames
            invariant
                3 <= e <= 10,
                8 <= power <= frames,
                frames <= 2040,
                power == pow2(e as nat),
            decreases frames - power,
        {
            proof {
                lemma_pow2_unfold((e + 1) as nat);
                lemma2_to64();
                if e == 10 {
                    assert(power == 1024);
                }
            }
            power = power * 2;
            e = e + 1;
        }
        proof {
            lemma_pow2_unfold((e + 1) as nat);
        }
        Some(e)
    } else if (speed == 3 || speed == 4) && interval <= 16 {
        Some(interval - 1)
    } else {
        None
    }
}

/// The ASCII meaning of a HID key without Shift; zero for keys that have none.
pub open spec fn hid_unshifted(code: u8) -> u8 {
    if 0x04 <= code <= 0x1d {
        (0x61 + (code - 0x04)) as u8
    } else if 0x1e <= code <= 0x26 {
        (0x31 + (code - 0x1e)) as u8
    } else if code == 0x27 {
        0x30
    } else if code == 0x2d {
        0x2d
    } else if code == 0x2e {
        0x3d
    } else if code == 0x2f {
        0x5b
    } else if code == 0x30 {
        0x5d
    } else if code == 0x31 {
        0x5c
    } else if code == 0x33 {
        0x3b
    } else if code == 0x34 {
        0x27
    } else if code == 0x35 {
        0x60
    } else if code == 0x36 {
        0x2c
    } else if code == 0x37 {
        0x2e
    } else if code == 0x38 {
        0x2f
    } else {
        hid_either(code)
    }
}

/// The ASCII meaning of a HID key with Shift.
pub open spec fn hid_shifted(code: u8) -> u8 {
    if 0x04 <= code <= 0x1d {
        (0x41 + (code - 0x04)) as u8
    } else if code == 0x1e {
        0x21
    } else if code == 0x1f {
        0x40
    } else if 0x20 <= code <= 0x22 {
        (0x23 + (code - 0x20)) as u8
    } else if code == 0x23 {
        0x5e
    } else if code == 0x24 {
        0x26
    } else if code == 0x25 {
        0x2a
    } else if code == 0x26 {
        0x28
    } else if code == 0x27 {
        0x29
    } else if code == 0x2d {
        0x5f
    } else if code == 0x2e {
        0x2b
    } else if code == 0x2f {
        0x7b
    } else if code == 0x30 {
        0x7d
    } else if code == 0x31 {
        0x7c
    } else if code == 0x33 {
        0x3a
    } else if code == 0x34 {
        0x22
    } else if code == 0x35 {
        0x7e
    } else if code == 0x36 {
        0x3c
    } else if code == 0x37 {
        0x3e
    } else if code == 0x38 {
        0x3f
    } else {
        hid_either(code)
    }
}

/// The meaning of a HID key that Shift does not change.
pub open spec fn hid_either(code: u8) -> u8 {
    if code == 0x28 {
        0x0a
    } else if code == 0x29 {
        0x1b
    } else if code == 0x2a {
        0x08
    } else if code == 0x2b {
        0x09
    } else if code == 0x2c {
        0x20
    } else {
        0
    }
}

fn hid_ascii(code: u8, shift: bool) -> (r: u8)
    ensures
        r == if shift {
            hid_shifted(code)
        } else {
            hid_unshifted(code)
        },
{
    if 0x04 <= code && code <= 0x1d {
        return if shift {
            0x41 + (code - 0x04)
        } else {
            0x61 + (code - 0x04)
        };
    }
    let pair: (u8, u8) = match code {
        0x1e => (0x31, 0x21),
        0x1f => (0x32, 0x40),
        0x20 => (0x33, 0x23),
        0x21 => (0x34, 0x24),
        0x22 => (0x35, 0x25),
        0x23 => (0x36, 0x5e),
        0x24 => (0x37, 0x26),
        0x25 => (0x38, 0x2a),
        0x26 => (0x39, 0x28),
        0x27 => (0x30, 0x29),
        0x28 => (0x0a, 0x0a),
        0x29 => (0x1b, 0x1b),
        0x2a => (0x08, 0x08),
        0x2b => (0x09, 0x09),
        0x2c => (0x20, 0x20),
        0x2d => (0x2d, 0x5f),
        0x2e => (0x3d, 0x2b),
        0x2f => (0x5b, 0x7b),
        0x30 => (0x5d, 0x7d),
        0x31 => (0x5c, 0x7c),
        0x33 => (0x3b, 0x3a),
        0x34 => (0x27, 0x22),
        0x35 => (0x60, 0x7e),
        0x36 => (0x2c, 0x3c),
        0x37 => (0x2e, 0x3e),
        0x38 => (0x2f, 0x3f),
        _ => (0, 0),
    };
    if shift {
        pair.1
    } else {
        pair.0
    }
}

/// Keystrokes from all USB keyboards.
#[derive(Debug)]
pub struct UsbInput {
    pub queue: RingBuffer,
    pub caps_lock: bool,
}

impl UsbInput {
    pub open spec fn wf(self) -> bool {
        self.queue.wf()
    }

    pub fn new() -> (r: Self)
        ensures
            r.wf(),
            r.queue@.len() == 0,
            !r.caps_lock,
    {
        UsbInput { queue: RingBuffer::new(), caps_lock: false }
    }
}

/// A keyboard that is being polled.
#[derive(Debug)]
pub struct UsbKeyboard {
    pub port: u8,
    pub slot_id: u8,
    pub dci: u8,
    pub ring: Ring,
    pub report_phys: [u64; 8],
    pub report_enqueue: usize,
    pub report_dequeue: usize,
    /// The keys that were down in the report before.
    pub prev_keys: [u8; 6],
}

impl UsbKeyboard {
    pub open spec fn wf(self) -> bool {
        &&& self.ring.wf()
        &&& self.report_enqueue < 8
        &&& self.report_dequeue < 8
    }
}

/// Whether Caps Lock is on, and what was typed, after the first `n` keys of a
/// report: keys that were not down before, in order. Caps Lock itself toggles.
pub open spec fn reported(keys: Seq<u8>, prev: Seq<u8>, shift: bool, caps: bool, n: int) -> (
    bool,
    Seq<u8>,
)
    decreases n,
{
    if n <= 0 {
        (caps, Seq::empty())
    } else {
        let (on, typed) = reported(keys, prev, shift, caps, n - 1);
        let code = keys[n - 1];
        let ascii = if shift {
            hid_shifted(code)
        } else {
            hid_unshifted(code)
        };
        if code == 0 || prev.contains(code) {
            (on, typed)
        } else if code == 0x39 {
            (!on, typed)
        } else if ascii == 0 {
            (on, typed)
        } else {
            (on, typed.push(with_caps(ascii, shift, on)))
        }
    }
}

/// The keys of a report.
pub open spec fn keys_of(report: Seq<u8>) -> Seq<u8> {
    report.subrange(2, 8)
}

/// Whether Shift is held in a report.
pub open spec fn is_shift(report: Seq<u8>) -> bool {
    report[0] / 2 % 2 == 1 || report[0] / 32 % 2 == 1
}

fn was_down(prev: &[u8; 6], code: u8) -> (r: bool)
    ensures
        r == prev@.contains(code),
{
    let mut i: usize = 0;
    while i < 6
        invariant
            i <= 6,
            forall|k: int| 0 <= k < i ==> prev@[k] != code,
        decreases 6 - i,
    {
        if prev[i] == code {
            assert(prev@[i as int] == code);
            return true;
        }
        i += 1;
    }
    false
}

/// Turn a report into keystrokes: one for every key that was not down in the
/// report before.
pub fn handle_report(k: &mut UsbKeyboard, report: &[u8; 8], input: &mut UsbInput)
    requires
        old(k).wf(),
        old(input).wf(),
    ensures
        final(k).wf(),
        final(input).wf(),
        ({
            let (caps, typed) = reported(
                keys_of(report@),
                old(k).prev_keys@,
                is_shift(report@),
                old(input).caps_lock,
                6,
            );
            &&& final(input).caps_lock == caps
            &&& final(input).queue@ == pushed_all(old(input).queue@, typed)
        }),
        final(k).prev_keys@ == keys_of(report@),
        final(k).port == old(k).port,
        final(k).slot_id == old(k).slot_id,
        final(k).dci == old(k).dci,
        final(k).ring == old(k).ring,
        final(k).report_phys == old(k).report_phys,
        final(k).report_enqueue == old(k).report_enqueue,
        final(k).report_dequeue == old(k).report_dequeue,
{
    let shift: bool = report[0] / 2 % 2 == 1 || report[0] / 32 % 2 == 1;
    let keys: [u8; 6] = [report[2], report[3], report[4], report[5], report[6], report[7]];
    assert(keys@ =~= keys_of(report@));
    let ghost q = input.queue@;
    let ghost caps = input.caps_lock;
    let prev: [u8; 6] = k.prev_keys;
    let mut i: usize = 0;
    while i < 6
        invariant
            i <= 6,
            input.wf(),
            input.caps_lock == reported(keys@, prev@, shift, caps, i as int).0,
            input.queue@ == pushed_all(q, reported(keys@, prev@, shift, caps, i as int).1),
        decreases 6 - i,
    {
        let code: u8 = keys[i];
        if code != 0 && !was_down(&prev, code) {
            if code == 0x39 {
                input.caps_lock = !input.caps_lock;
            } else {
                let ascii: u8 = hid_ascii(code, shift);
                if ascii != 0 {
                    let b: u8 = apply_caps(ascii, shift, input.caps_lock);
                    let ghost t = reported(keys@, prev@, shift, caps, i as int).1;
                    input.queue.push(b);
                    proof {
                        assert(t.push(b).drop_last() =~= t);
                    }
                }
            }
        }
        i += 1;
    }
    k.prev_keys = keys;
}

/// The read that asks for the next report.
pub open spec fn read_trb(k: UsbKeyboard) -> Trb {
    Trb {
        parameter: k.report_phys@[k.report_enqueue as int],
        status: 8,
        control: type_bits(TRB_TYPE_NORMAL) | TRB_IOC,
    }
}

/// Post a read for the next free report buffer.
pub fn queue_report_read(k: &mut UsbKeyboard, ops: &mut Vec<Op>)
    requires
        old(k).wf(),
    ensures
        final(k).wf(),
        final(ops)@ == old(ops)@ + old(k).ring.push_ops(read_trb(*old(k))),
        final(k).ring == old(k).ring.pushed(),
        final(k).report_enqueue == (old(k).report_enqueue + 1) % 8,
        final(k).report_dequeue == old(k).report_dequeue,
        final(k).report_phys == old(k).report_phys,
        final(k).prev_keys == old(k).prev_keys,
        final(k).port == old(k).port,
        final(k).slot_id == old(k).slot_id,
        final(k).dci == old(k).dci,
{
    let at: usize = k.report_enqueue;
    let trb: Trb = Trb {
        parameter: k.report_phys[at],
        status: 8,
        control: make_type(TRB_TYPE_NORMAL) | TRB_IOC,
    };
    let _ = k.ring.push(trb, ops);
    k.report_enqueue = (at + 1) % KEYBOARD_REPORT_QUEUE_DEPTH;
}

/// A report that a keyboard has sent: which keyboard, and where the report
/// stands unless it could not be read.
#[derive(Clone, Copy, Debug, PartialEq, Eq, Structural)]
pub struct Pending {
    pub keyboard: usize,
    pub report: Option<u64>,
}

pub open spec fn slot_of(ev: Trb) -> u8 {
    (ev.control >> 24) as u8
}

pub open spec fn dci_of(ev: Trb) -> u8 {
    ((ev.control >> 16) & 0x1f) as u8
}

/// How a command or a transfer ended.
pub open spec fn code_of(ev: Trb) -> u32 {
    (ev.status >> 24) & 0xff
}

/// The keyboard, from place `i` on, that an event belongs to.
pub open spec fn keyboard_of(k: Seq<UsbKeyboard>, ev: Trb, i: int) -> Option<int>
    decreases k.len() - i,
{
    if i < 0 || i >= k.len() {
        None
    } else if k[i].slot_id == slot_of(ev) && k[i].dci == dci_of(ev) {
        Some(i)
    } else {
        keyboard_of(k, ev, i + 1)
    }
}

/// Whether a transfer ended well.
pub open spec fn is_good(code: u32) -> bool {
    code == COMPLETION_SUCCESS || code == COMPLETION_SHORT_PACKET
}

/// What an event means for the keyboards.
pub open spec fn pending_of(k: Seq<UsbKeyboard>, ev: Trb) -> Option<Pending> {
    if trb_type(ev.control) != TRB_TYPE_TRANSFER_EVENT {
        None
    } else {
        match keyboard_of(k, ev, 0) {
            None => None,
            Some(i) => Some(
                Pending {
                    keyboard: i as usize,
                    report: if is_good(code_of(ev)) {
                        Some(k[i].report_phys@[k[i].report_dequeue as int])
                    } else {
                        None
                    },
                },
            ),
        }
    }
}

/// Find out what an event means for the keyboards. Other events are of no
/// interest.
pub fn dispatch_keyboard_event(k: &Vec<UsbKeyboard>, ev: Trb) -> (r: Option<Pending>)
    requires
        forall|i: int| 0 <= i < k@.len() ==> (#[trigger] k@[i]).wf(),
    ensures
        r == pending_of(k@, ev),
        r matches Some(p) ==> p.keyboard < k@.len(),
{
    if type_of(ev.control) != TRB_TYPE_TRANSFER_EVENT {
        return None;
    }
    let slot: u8 = (ev.control >> 24) as u8;
    let dci: u8 = ((ev.control >> 16) & 0x1f) as u8;
    let code: u32 = (ev.status >> 24) & 0xff;
    let n: usize = k.len();
    let mut i: usize = 0;
    while i < n
        invariant
            i <= n,
            n == k@.len(),
            slot == slot_of(ev),
            dci == dci_of(ev),
            code == code_of(ev),
            trb_type(ev.control) == TRB_TYPE_TRANSFER_EVENT,
            forall|i: int| 0 <= i < k@.len() ==> (#[trigger] k@[i]).wf(),
            keyboard_of(k@, ev, 0) == keyboard_of(k@, ev, i as int),
        decreases n - i,
    {
        let kb: &UsbKeyboard = &k[i];
        if kb.slot_id == slot && kb.dci == dci {
            assert(k@[i as int].wf());
            let report: Option<u64> = if code == COMPLETION_SUCCESS || code
                == COMPLETION_SHORT_PACKET {
                Some(kb.report_phys[kb.report_dequeue])
            } else {
                None
            };
            return Some(Pending { keyboard: i, report });
        }
        i += 1;
    }
    None
}

/// A running controller and its keyboards.
#[derive(Debug)]
pub struct Controller {
    pub max_ports: u8,
    pub context_size: u64,
    pub cmd_ring: Ring,
    pub events: EventRing,
    pub dcbaa_phys: u64,
    pub input_ctx_phys: u64,
    pub output_ctx_phys: u64,
    pub ep0: Ring,
    pub slot_id: u8,
    pub keyboards: Vec<UsbKeyboard>,
}

impl Controller {
    pub open spec fn wf(self) -> bool {
        &&& self.cmd_ring.wf()
        &&& self.events.wf()
        &&& self.ep0.wf()
        &&& self.context_size == 32 || self.context_size == 64
        &&& self.dcbaa_phys <= u64::MAX - 4096
        &&& self.input_ctx_phys <= u64::MAX - 4096
        &&& self.output_ctx_phys <= u64::MAX - 4096
        &&& forall|i: int| 0 <= i < self.keyboards@.len() ==> (#[trigger] self.keyboards@[i]).wf()
    }

    /// What polling does not touch.
    pub open spec fn same_setup(self, before: Controller) -> bool {
        &&& self.max_ports == before.max_ports
        &&& self.context_size == before.context_size
        &&& self.cmd_ring == before.cmd_ring
        &&& self.dcbaa_phys == before.dcbaa_phys
        &&& self.input_ctx_phys == before.input_ctx_phys
        &&& self.output_ctx_phys == before.output_ctx_phys
        &&& self.ep0 == before.ep0
        &&& self.slot_id == before.slot_id
    }
}

/// Look at the block at the event ring's dequeue pointer. A new event is taken
/// off the ring; what it means for a keyboard comes back.
pub fn poll(c: &mut Controller, trb: Trb, ops: &mut Vec<Op>) -> (r: Option<Pending>)
    requires
        old(c).wf(),
    ensures
        final(c).wf(),
        final(c).same_setup(*old(c)),
        final(c).keyboards@ == old(c).keyboards@,
        trb.control & TRB_CYCLE != old(c).events.cycle ==> r is None && final(c).events == old(
            c,
        ).events && final(ops)@ == old(ops)@,
        trb.control & TRB_CYCLE == old(c).events.cycle ==> {
            &&& final(c).events == old(c).events.advanced()
            &&& final(ops)@ == old(ops)@.push(
                Op::Write64(
                    Reg::Erdp,
                    ((final(c).events.phys + final(c).events.dequeue * 16) as u64)
                        | super::ERDP_BUSY,
                ),
            )
            &&& r == pending_of(old(c).keyboards@, trb)
        },
        r matches Some(p) ==> p.keyboard < final(c).keyboards@.len(),
{
    match c.events.poll(trb) {
        Some((ev, op)) => {
            ops.push(op);
            dispatch_keyboard_event(&c.keyboards, ev)
        },
        None => None,
    }
}

/// Deal with a report that a keyboard has sent, or failed to, and post the next
/// read. A failed read does not stop the ones after it.
pub fn finish_report(
    c: &mut Controller,
    p: Pending,
    report: Option<[u8; 8]>,
    input: &mut UsbInput,
    ops: &mut Vec<Op>,
)
    requires
        old(c).wf(),
        old(input).wf(),
        p.keyboard < old(c).keyboards@.len(),
    ensures
        final(c).wf(),
        final(input).wf(),
        final(c).same_setup(*old(c)),
        final(c).events == old(c).events,
        final(c).keyboards@.len() == old(c).keyboards@.len(),
        forall|i: int|
            0 <= i < old(c).keyboards@.len() && i != p.keyboard ==> #[trigger] final(c).keyboards@[i]
                == old(c).keyboards@[i],
        ({
            let k = old(c).keyboards@[p.keyboard as int];
            let n = final(c).keyboards@[p.keyboard as int];
            &&& n.report_dequeue == (k.report_dequeue + 1) % 8
            &&& n.report_enqueue == (k.report_enqueue + 1) % 8
            &&& n.ring == k.ring.pushed()
            &&& n.slot_id == k.slot_id && n.dci == k.dci && n.port == k.port
            &&& n.report_phys == k.report_phys
            &&& final(ops)@ == (old(ops)@ + k.ring.push_ops(read_trb(k))).push(
                Op::Write32(Reg::Doorbell(k.slot_id), k.dci as u32),
            )
            &&& match report {
                Some(b) => {
                    let (caps, typed) = reported(
                        keys_of(b@),
                        k.prev_keys@,
                        is_shift(b@),
                        old(input).caps_lock,
                        6,
                    );
                    &&& n.prev_keys@ == keys_of(b@)
                    &&& final(input).caps_lock == caps
                    &&& final(input).queue@ == pushed_all(old(input).queue@, typed)
                },
                None => n.prev_keys == k.prev_keys && final(input).caps_lock == old(
                    input,
                ).caps_lock && final(input).queue@ == old(input).queue@,
            }
        }),
{
    assert(c.keyboards@[p.keyboard as int].wf());
    let k: &mut UsbKeyboard = &mut c.keyboards[p.keyboard];
    match &report {
        Some(b) => {
            handle_report(k, b, input);
        },
        None => {},
    }
    k.report_dequeue = (k.report_dequeue + 1) % KEYBOARD_REPORT_QUEUE_DEPTH;
    queue_report_read(k, ops);
    ops.push(Op::Write32(Reg::Doorbell(k.slot_id), k.dci as u32));
}

/// The oldest keystroke that waits, if any.
pub fn try_read_byte(input: &mut UsbInput) -> (r: Option<u8>)
    requires
        old(input).wf(),
    ensures
        final(input).wf(),
        match r {
            None => old(input).queue@.len() == 0 && final(input).queue@ == old(input).queue@,
            Some(b) => old(input).queue@.len() > 0 && b == old(input).queue@[0] && final(input).queue@ == old(input).queue@.drop_first(),
        },
        final(input).caps_lock == old(input).caps_lock,
{
    input.queue.pop()
}

/// What an event is to someone who waits for a completion.
#[derive(Clone, Copy, Debug, PartialEq, Eq, Structural)]
pub enum Arrival {
    /// There is no new event.
    Nothing,
    /// What was waited for, with how it ended and the slot it is about.
    Completed { code: u32, slot: u8 },
    /// Something else; it may be a report of a keyboard, which is served meanwhile.
    Other(Option<Pending>),
}

/// Whether an event completes what a question waits for.
pub open spec fn completes(ev: Trb, ask: Ask) -> bool {
    match ask {
        Ask::Command(token) => trb_type(ev.control) == TRB_TYPE_COMMAND_COMPLETION && ev.parameter
            == token,
        Ask::Transfer(token) => trb_type(ev.control) == TRB_TYPE_TRANSFER_EVENT && ev.parameter
            == token,
        _ => false,
    }
}

/// Look at the event ring once while waiting for a completion.
pub fn await_completion(c: &mut Controller, trb: Trb, ask: Ask, ops: &mut Vec<Op>) -> (r: Arrival)
    requires
        old(c).wf(),
    ensures
        final(c).wf(),
        final(c).same_setup(*old(c)),
        final(c).keyboards@ == old(c).keyboards@,
        trb.control & TRB_CYCLE != old(c).events.cycle ==> r == Arrival::Nothing && final(c).events
            == old(c).events && final(ops)@ == old(ops)@,
        trb.control & TRB_CYCLE == old(c).events.cycle ==> {
            &&& final(c).events == old(c).events.advanced()
            &&& final(ops)@ == old(ops)@.push(
                Op::Write64(
                    Reg::Erdp,
                    ((final(c).events.phys + final(c).events.dequeue * 16) as u64)
                        | super::ERDP_BUSY,
                ),
            )
            &&& r == if completes(trb, ask) {
                Arrival::Completed { code: code_of(trb), slot: slot_of(trb) }
            } else {
                Arrival::Other(pending_of(old(c).keyboards@, trb))
            }
        },
{
    match c.events.poll(trb) {
        Some((ev, op)) => {
            ops.push(op);
            let hit: bool = match ask {
                Ask::Command(token) => type_of(ev.control) == TRB_TYPE_COMMAND_COMPLETION
                    && ev.parameter == token,
                Ask::Transfer(token) => type_of(ev.control) == TRB_TYPE_TRANSFER_EVENT
                    && ev.parameter == token,
                _ => false,
            };
            if hit {
                Arrival::Completed {
                    code: (ev.status >> 24) & 0xff,
                    slot: (ev.control >> 24) as u8,
                }
            } else {
                Arrival::Other(dispatch_keyboard_event(&c.keyboards, ev))
            }
        },
        None => Arrival::Nothing,
    }
}

} // verus!
