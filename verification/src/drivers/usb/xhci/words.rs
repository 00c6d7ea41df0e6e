//! What the controller reads of its blocks, and what a configuration says of a keyboard.

use vstd::prelude::*;
use vstd::arithmetic::power2::lemma2_to64;
use vstd::bits::{
    lemma_low_bits_mask_values, lemma_u32_low_bits_mask_is_mod, lemma_u32_shr_is_div,
};
use crate::bytes::le16;
use super::keyboard::{
    code_of, completes, dci_of, keyboard_from, keyboard_in, keyboard_of, pending_of, read_trb, slot_of,
    BootKeyboardEndpoint, UsbKeyboard,
};
use super::probe::found_in;
use super::setup::{control_ops, data_trb, setup_trb, status_trb};
use super::{type_bits, Ask, Capabilities, EventRing, Op, Reg, Ring, Trb};

verus! {

proof fn lemma_words(c: u32, k: u32)
    by (bit_vector)
    requires
        k <= 1,
    ensures
        (c & !1u32) | k == c - c % 2 + k,
        ((2u32 & 0x3f) << 10) | 0x10 | (3u32 << 16) | 0x40 == 0x3_0850,
        ((2u32 & 0x3f) << 10) | 0x10 | (0u32 << 16) | 0x40 == 0x850,
        ((3u32 & 0x3f) << 10) | 0x10 | 0x1_0000 == 0x1_0c10,
        ((4u32 & 0x3f) << 10) | 0x20 | 0u32 == 0x1020,
        ((4u32 & 0x3f) << 10) | 0x20 | 0x1_0000 == 0x1_1020,
        ((1u32 & 0x3f) << 10) | 0x20 == 0x420,
        ((6u32 & 0x3f) << 10) | 2 | 1 == 0x1803,
{
}

/// The blocks of a control transfer: the request itself, eight bytes of it; the data, which
/// comes in; and the end, of which an event tells. Then the doorbell of the device is rung
/// for its endpoint 0. Each block carries the ring's cycle bit.
pub proof fn law_control_transfer(ep0: Ring, slot: u8, request: u64, phys: u64, len: u32)
    requires
        ep0.wf(),
        ep0.enqueue < 12,
    ensures
        ({
            let at = ep0.phys + 16 * ep0.enqueue;
            &&& control_ops(ep0, slot, request, Some((phys, len))) == seq![
                Op::StoreTrb(
                    at as u64,
                    Trb { parameter: request, status: 8, control: (0x3_0850 + ep0.cycle) as u32 },
                ),
                Op::StoreTrb(
                    (at + 16) as u64,
                    Trb { parameter: phys, status: len, control: (0x1_0c10 + ep0.cycle) as u32 },
                ),
                Op::StoreTrb(
                    (at + 32) as u64,
                    Trb { parameter: 0, status: 0, control: (0x1020 + ep0.cycle) as u32 },
                ),
                Op::Write32(Reg::Doorbell(slot), 1),
            ]
            &&& control_ops(ep0, slot, request, None) == seq![
                Op::StoreTrb(
                    at as u64,
                    Trb { parameter: request, status: 8, control: (0x850 + ep0.cycle) as u32 },
                ),
                Op::StoreTrb(
                    (at + 16) as u64,
                    Trb { parameter: 0, status: 0, control: (0x1_1020 + ep0.cycle) as u32 },
                ),
                Op::Write32(Reg::Doorbell(slot), 1),
            ]
        }),
{
    lemma_words(setup_trb(request, true).control, ep0.cycle);
    lemma_words(setup_trb(request, false).control, ep0.cycle);
    lemma_words(data_trb(phys, len).control, ep0.cycle);
    lemma_words(status_trb(true).control, ep0.cycle);
    lemma_words(status_trb(false).control, ep0.cycle);
    let at = ep0.phys + 16 * ep0.enqueue;
    let with = seq![
        Op::StoreTrb(
            at as u64,
            Trb { parameter: request, status: 8, control: (0x3_0850 + ep0.cycle) as u32 },
        ),
        Op::StoreTrb(
            (at + 16) as u64,
            Trb { parameter: phys, status: len, control: (0x1_0c10 + ep0.cycle) as u32 },
        ),
        Op::StoreTrb(
            (at + 32) as u64,
            Trb { parameter: 0, status: 0, control: (0x1020 + ep0.cycle) as u32 },
        ),
        Op::Write32(Reg::Doorbell(slot), 1),
    ];
    let without = seq![
        Op::StoreTrb(
            at as u64,
            Trb { parameter: request, status: 8, control: (0x850 + ep0.cycle) as u32 },
        ),
        Op::StoreTrb(
            (at + 16) as u64,
            Trb { parameter: 0, status: 0, control: (0x1_1020 + ep0.cycle) as u32 },
        ),
        Op::Write32(Reg::Doorbell(slot), 1),
    ];
    assert(control_ops(ep0, slot, request, Some((phys, len))) =~= with);
    assert(control_ops(ep0, slot, request, None) =~= without);
}

/// A read of a report: eight bytes into the next buffer, with an event when it is done. In
/// the last place but one of a ring it is followed by the link to the ring's start, which
/// tells the controller to expect the other cycle bit from there on.
pub proof fn law_report_read(k: UsbKeyboard)
    requires
        k.wf(),
    ensures
        ({
            let store = Op::StoreTrb(
                (k.ring.phys + 16 * k.ring.enqueue) as u64,
                Trb {
                    parameter: k.report_phys@[k.report_enqueue as int],
                    status: 8,
                    control: (0x420 + k.ring.cycle) as u32,
                },
            );
            let ops = k.ring.push_ops(read_trb(k));
            &&& k.ring.enqueue < 14 ==> ops == seq![store]
            &&& k.ring.enqueue == 14 ==> ops == seq![
                store,
                Op::StoreTrb(
                    (k.ring.phys + 240) as u64,
                    Trb {
                        parameter: k.ring.phys,
                        status: 0,
                        control: (0x1802 + k.ring.cycle) as u32,
                    },
                ),
            ]
        }),
{
    lemma_words(read_trb(k).control, k.ring.cycle);
    lemma_words(type_bits(6) | 2 | 1, k.ring.cycle);
}

/// Whether a descriptor starts where the one before it ends.
pub open spec fn is_next(b: Seq<u8>, at: Seq<int>, k: int) -> bool {
    at[k] == at[k - 1] + b[at[k - 1]]
}

/// Whether places are those of the descriptors of a configuration, one behind the other from
/// the ninth byte on, the last of them whole too.
pub open spec fn are_descriptors(b: Seq<u8>, total: int, at: Seq<int>) -> bool {
    &&& at.len() > 0
    &&& at[0] == 9
    &&& forall|k: int|
        0 <= k < at.len() ==> b[#[trigger] at[k]] >= 2 && at[k] + b[at[k]] <= total
    &&& forall|k: int| 0 < k < at.len() ==> #[trigger] is_next(b, at, k)
}

/// Whether a descriptor is that of an interface.
pub open spec fn is_interface(b: Seq<u8>, at: int) -> bool {
    b[at + 1] == 4 && b[at] >= 9
}

/// Whether a descriptor is that of the first alternate of an interface of class 3, subclass 1
/// and protocol 1: a keyboard that speaks the boot protocol.
pub open spec fn is_boot_keyboard(b: Seq<u8>, at: int) -> bool {
    is_interface(b, at) && b[at + 3] == 0 && b[at + 5] == 3 && b[at + 6] == 1 && b[at + 7] == 1
}

/// Whether a descriptor is that of an endpoint that sends in reports of eight bytes or more
/// by interrupts.
pub open spec fn sends_reports(b: Seq<u8>, at: int) -> bool {
    b[at + 1] == 5 && b[at] >= 7 && b[at + 2] / 128 == 1 && b[at + 2] % 16 != 0 && b[at + 3] % 4
        == 3 && le16(b, at + 4) % 2048 >= 8
}

/// Whether no interface is described between two descriptors.
pub open spec fn is_same_interface(b: Seq<u8>, at: Seq<int>, i: int, n: int) -> bool {
    forall|k: int| i < k < n ==> !is_interface(b, #[trigger] at[k])
}

/// What a keyboard's interface and endpoint descriptors say of it.
pub open spec fn is_described(b: Seq<u8>, k: BootKeyboardEndpoint, interface: int, endpoint: int) -> bool {
    &&& k.configuration == b[5]
    &&& k.interface == b[interface + 2]
    &&& k.dci == 2 * (b[endpoint + 2] % 16) + 1
    &&& k.max_packet == le16(b, endpoint + 4) % 2048
    &&& k.interval == if b[endpoint + 6] == 0 {
        1
    } else {
        b[endpoint + 6]
    }
}

proof fn lemma_reached(b: Seq<u8>, total: int, at: Seq<int>, n: int)
    requires
        are_descriptors(b, total, at),
        0 <= n < at.len(),
    ensures
        keyboard_from(b, total, 9, None) is Some || exists|iface: Option<u8>|
            keyboard_from(b, total, 9, None) == #[trigger] keyboard_from(b, total, at[n], iface),
    decreases n,
{
    if n == 0 {
        assert(keyboard_from(b, total, 9, None) == keyboard_from(b, total, at[0], None));
    } else {
        lemma_reached(b, total, at, n - 1);
        if keyboard_from(b, total, 9, None) is None {
            let iface = choose|iface: Option<u8>|
                keyboard_from(b, total, 9, None) == #[trigger] keyboard_from(
                    b,
                    total,
                    at[n - 1],
                    iface,
                );
            lemma_places(b, total, at, n - 1);
            assert(is_next(b, at, n));
            let next = if is_interface(b, at[n - 1]) {
                if is_boot_keyboard(b, at[n - 1]) {
                    Some(b[at[n - 1] + 2])
                } else {
                    None
                }
            } else {
                iface
            };
            assert(keyboard_from(b, total, 9, None) == keyboard_from(b, total, at[n], next));
        }
    }
}

proof fn lemma_places(b: Seq<u8>, total: int, at: Seq<int>, n: int)
    requires
        are_descriptors(b, total, at),
        0 <= n < at.len(),
    ensures
        at[n] >= 9,
        at[n] + 2 <= total,
    decreases n,
{
    assert(b[at[n]] >= 2);
    if n > 0 {
        lemma_places(b, total, at, n - 1);
        assert(b[at[n - 1]] >= 2);
        assert(is_next(b, at, n));
    }
}

proof fn lemma_stays(b: Seq<u8>, total: int, at: Seq<int>, i: int, n: int)
    requires
        are_descriptors(b, total, at),
        0 <= i < n < at.len(),
        is_boot_keyboard(b, at[i]),
        is_same_interface(b, at, i, n),
    ensures
        keyboard_from(b, total, 9, None) is Some || keyboard_from(b, total, 9, None)
            == keyboard_from(b, total, at[n], Some(b[at[i] + 2])),
    decreases n,
{
    lemma_places(b, total, at, n - 1);
    assert(is_next(b, at, n));
    if n == i + 1 {
        lemma_reached(b, total, at, i);
        if keyboard_from(b, total, 9, None) is None {
            let iface = choose|iface: Option<u8>|
                keyboard_from(b, total, 9, None) == #[trigger] keyboard_from(b, total, at[i], iface);
            assert(keyboard_from(b, total, at[i], iface) == keyboard_from(
                b,
                total,
                at[n],
                Some(b[at[i] + 2]),
            ));
        }
    } else {
        lemma_stays(b, total, at, i, n - 1);
        assert(!is_interface(b, at[n - 1]));
    }
}

/// A configuration that describes a boot keyboard, and in the same interface an endpoint
/// that sends its reports, has one that is found.
pub proof fn law_keyboard_is_found(b: Seq<u8>, at: Seq<int>, i: int)
    requires
        b.len() >= 9,
        b[1] == 2,
        9 <= le16(b, 2) <= b.len(),
        are_descriptors(b, le16(b, 2), at),
        0 <= i < at.len() - 1,
        is_boot_keyboard(b, at[i]),
        is_same_interface(b, at, i, at.len() as int),
        sends_reports(b, at.last()),
    ensures
        keyboard_in(b) is Some,
{
    let n = at.len() - 1;
    let total = le16(b, 2);
    lemma_places(b, total, at, n);
    lemma_stays(b, total, at, i, n);
    assert(b[at[n]] >= 2);
}

proof fn lemma_found(b: Seq<u8>, total: int, at: Seq<int>, i: int, iface: Option<u8>) -> (r: (
    Seq<int>,
    int,
))
    requires
        at.len() > 0,
        at[0] == 9,
        9 <= at.last(),
        forall|k: int|
            0 <= k < at.len() - 1 ==> b[#[trigger] at[k]] >= 2 && at[k] + b[at[k]] <= total,
        forall|k: int| 0 < k < at.len() ==> #[trigger] is_next(b, at, k),
        iface is Some ==> 0 <= i < at.len() - 1 && is_boot_keyboard(b, at[i]) && iface == Some(
            b[at[i] + 2],
        ) && is_same_interface(b, at, i, at.len() - 1),
        keyboard_from(b, total, at.last(), iface) is Some,
    ensures
        are_descriptors(b, total, r.0),
        0 <= r.1 < r.0.len() - 1,
        is_boot_keyboard(b, r.0[r.1]),
        is_same_interface(b, r.0, r.1, r.0.len() as int),
        sends_reports(b, r.0.last()),
        is_described(b, keyboard_from(b, total, at.last(), iface)->0, r.0[r.1], r.0.last()),
    decreases total - at.last(),
{
    let here = at.last();
    let n = at.len() - 1;
    assert(at[n] == here);
    if b[here + 1] == 5 && b[here] >= 7 && iface is Some && sends_reports(b, here) {
        (at, i)
    } else {
        let more = at.push(here + b[here]);
        assert forall|k: int| 0 <= k < more.len() - 1 implies b[#[trigger] more[k]] >= 2 && more[k]
            + b[more[k]] <= total by {
            assert(more[k] == at[k]);
        }
        assert forall|k: int| 0 < k < more.len() implies #[trigger] is_next(b, more, k) by {
            assert(more[k - 1] == at[k - 1]);
            if k < at.len() {
                assert(is_next(b, at, k));
                assert(more[k] == at[k]);
            }
        }
        if is_interface(b, here) {
            if is_boot_keyboard(b, here) {
                lemma_found(b, total, more, n, Some(b[here + 2]))
            } else {
                lemma_found(b, total, more, n, None)
            }
        } else {
            if iface is Some {
                assert forall|k: int| i < k < more.len() - 1 implies !is_interface(
                    b,
                    #[trigger] more[k],
                ) by {
                    assert(more[k] == at[k]);
                }
                assert(more[i] == at[i]);
            }
            lemma_found(b, total, more, i, iface)
        }
    }
}

/// What is found in a configuration is what the descriptors of a boot keyboard's interface
/// and of an endpoint in it say.
pub proof fn law_keyboard_is_described(b: Seq<u8>) -> (r: (Seq<int>, int))
    requires
        keyboard_in(b) is Some,
    ensures
        b.len() >= 9,
        b[1] == 2,
        9 <= le16(b, 2) <= b.len(),
        are_descriptors(b, le16(b, 2), r.0),
        0 <= r.1 < r.0.len() - 1,
        is_boot_keyboard(b, r.0[r.1]),
        is_same_interface(b, r.0, r.1, r.0.len() as int),
        sends_reports(b, r.0.last()),
        is_described(b, keyboard_in(b)->0, r.0[r.1], r.0.last()),
{
    lemma_found(b, le16(b, 2), seq![9], 0, None)
}

proof fn lemma_fields(w: u32)
    ensures
        (w >> 10) & 0x3f == w / 0x400 % 64,
        (w >> 24) == w / 0x100_0000,
        (w >> 24) & 0xff == w / 0x100_0000,
        (w >> 16) & 0x1f == w / 0x1_0000 % 32,
{
    lemma2_to64();
    lemma_low_bits_mask_values();
    lemma_u32_shr_is_div(w, 10);
    lemma_u32_shr_is_div(w, 16);
    lemma_u32_shr_is_div(w, 24);
    lemma_u32_low_bits_mask_is_mod(w >> 10, 6);
    lemma_u32_low_bits_mask_is_mod(w >> 24, 8);
    lemma_u32_low_bits_mask_is_mod(w >> 16, 5);
}

/// What an event answers: a command where its type is 33, a transfer where it is 32, and in
/// either case the one whose last block it points at.
pub proof fn law_completions(ev: Trb, token: u64)
    ensures
        completes(ev, Ask::Command(token)) <==> ev.control / 0x400 % 64 == 33 && ev.parameter == token,
        completes(ev, Ask::Transfer(token)) <==> ev.control / 0x400 % 64 == 32 && ev.parameter
            == token,
        code_of(ev) == ev.status / 0x100_0000,
        slot_of(ev) == ev.control / 0x100_0000,
        dci_of(ev) == ev.control / 0x1_0000 % 32,
{
    lemma_fields(ev.control);
    lemma_fields(ev.status);
}

proof fn lemma_keyboard_of(k: Seq<UsbKeyboard>, ev: Trb, i: int)
    requires
        0 <= i <= k.len(),
    ensures
        match keyboard_of(k, ev, i) {
            Some(j) => i <= j < k.len() && k[j].slot_id == slot_of(ev) && k[j].dci == dci_of(ev),
            None => forall|j: int|
                i <= j < k.len() ==> (#[trigger] k[j]).slot_id != slot_of(ev) || k[j].dci != dci_of(ev),
        },
    decreases k.len() - i,
{
    if i < k.len() && !(k[i].slot_id == slot_of(ev) && k[i].dci == dci_of(ev)) {
        lemma_keyboard_of(k, ev, i + 1);
    }
}

/// An event is of a keyboard where it tells of a transfer on the keyboard's slot and
/// endpoint; its report is in the buffer that was posted first, and is good where the
/// transfer succeeded or was merely short.
pub proof fn law_keyboard_events(k: Seq<UsbKeyboard>, ev: Trb, i: int)
    requires
        k.len() <= usize::MAX,
    ensures
        match pending_of(k, ev) {
            Some(p) => {
                let x = k[p.keyboard as int];
                let code = ev.status / 0x100_0000;
                &&& ev.control / 0x400 % 64 == 32
                &&& p.keyboard < k.len()
                &&& x.slot_id == ev.control / 0x100_0000
                &&& x.dci == ev.control / 0x1_0000 % 32
                &&& code == 1 || code == 13 ==> p.report == Some(
                    x.report_phys@[x.report_dequeue as int],
                )
                &&& code != 1 && code != 13 ==> p.report is None
            },
            None => ev.control / 0x400 % 64 != 32 || (0 <= i < k.len() ==> k[i].slot_id != ev.control
                / 0x100_0000 || k[i].dci != ev.control / 0x1_0000 % 32),
        },
{
    law_completions(ev, 0);
    lemma_fields(ev.control);
    lemma_keyboard_of(k, ev, 0);
    if let Some(j) = keyboard_of(k, ev, 0) {
        assert((j as usize) as int == j);
    }
    if 0 <= i < k.len() {
        assert(k[i] == k[i]);
    }
}

/// Events are taken from sixteen places in turn, and the cycle bit that marks a new one
/// changes with each round.
pub proof fn law_event_ring(r: EventRing)
    requires
        r.wf(),
    ensures
        r.advanced().phys == r.phys,
        r.dequeue < 15 ==> r.advanced().dequeue == r.dequeue + 1 && r.advanced().cycle == r.cycle,
        r.dequeue == 15 ==> r.advanced().dequeue == 0 && r.advanced().cycle + r.cycle == 1,
{
}

/// What the capability registers of a controller say of it.
pub proof fn law_capabilities(c: Capabilities)
    ensures
        found_in(c).slots == c.hcs_params1 % 0x100,
        found_in(c).ports == c.hcs_params1 / 0x100_0000,
        found_in(c).operational == c.length_version % 0x100,
        found_in(c).extended == c.hcc_params1 / 0x1_0000,
        c.hcc_params1 / 4 % 2 == 1 ==> found_in(c).context_size == 64,
        c.hcc_params1 / 4 % 2 == 0 ==> found_in(c).context_size == 32,
        found_in(c).doorbells % 4 == 0 && found_in(c).doorbells <= c.doorbells < found_in(c).doorbells
            + 4,
        found_in(c).runtime % 32 == 0 && found_in(c).runtime <= c.runtime < found_in(c).runtime + 32,
{
}

} // verus!
