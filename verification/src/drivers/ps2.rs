//! 8042 PS/2 controller and keyboard.
//!
//! Only scancode set 1 is handled, translated to ASCII for a US layout. There is
//! one interrupt per scancode byte; arrows and the like are queued as ANSI
//! escape sequences.

use vstd::prelude::*;
use super::queue::{pushed_all, RingBuffer};

verus! {

pub const STATUS_OUTPUT_FULL: u8 = 1;

pub const STATUS_INPUT_FULL: u8 = 2;

pub const CMD_READ_CONFIG: u8 = 0x20;

pub const CMD_WRITE_CONFIG: u8 = 0x60;

pub const CMD_DISABLE_PORT1: u8 = 0xad;

pub const CMD_ENABLE_PORT1: u8 = 0xae;

pub const CMD_DISABLE_PORT2: u8 = 0xa7;

pub const CMD_SELF_TEST: u8 = 0xaa;

pub const CMD_TEST_PORT1: u8 = 0xab;

pub const SELF_TEST_OK: u8 = 0x55;

pub const PORT_TEST_OK: u8 = 0;

pub const KB_CMD_RESET: u8 = 0xff;

pub const KB_RESET_ACK: u8 = 0xfa;

pub const KB_RESET_PASS: u8 = 0xaa;

pub const EXTENDED_PREFIX: u8 = 0xe0;

/// The ASCII meaning of a key without Shift, by its set-1 make code; zero for
/// keys that have none.
pub open spec fn unshifted(code: u8) -> u8 {
    if code == 0x01 {
        0x1b
    } else if 0x02 <= code <= 0x0a {
        (0x31 + (code - 0x02)) as u8
    } else if code == 0x0b {
        0x30
    } else if code == 0x0c {
        0x2d
    } else if code == 0x0d {
        0x3d
    } else if code == 0x0e {
        0x08
    } else if code == 0x0f {
        0x09
    } else if code == 0x1a {
        0x5b
    } else if code == 0x1b {
        0x5d
    } else if code == 0x1c {
        0x0a
    } else if code == 0x27 {
        0x3b
    } else if code == 0x28 {
        0x27
    } else if code == 0x29 {
        0x60
    } else if code == 0x2b {
        0x5c
    } else if code == 0x33 {
        0x2c
    } else if code == 0x34 {
        0x2e
    } else if code == 0x35 {
        0x2f
    } else {
        either(code)
    }
}

/// The ASCII meaning of a key with Shift.
pub open spec fn shifted(code: u8) -> u8 {
    if code == 0x01 {
        0x1b
    } else if code == 0x02 {
        0x21
    } else if code == 0x03 {
        0x40
    } else if 0x04 <= code <= 0x06 {
        (0x23 + (code - 0x04)) as u8
    } else if code == 0x07 {
        0x5e
    } else if code == 0x08 {
        0x26
    } else if code == 0x09 {
        0x2a
    } else if code == 0x0a {
        0x28
    } else if code == 0x0b {
        0x29
    } else if code == 0x0c {
        0x5f
    } else if code == 0x0d {
        0x2b
    } else if code == 0x0e {
        0x08
    } else if code == 0x0f {
        0x09
    } else if code == 0x1a {
        0x7b
    } else if code == 0x1b {
        0x7d
    } else if code == 0x1c {
        0x0a
    } else if code == 0x27 {
        0x3a
    } else if code == 0x28 {
        0x22
    } else if code == 0x29 {
        0x7e
    } else if code == 0x2b {
        0x7c
    } else if code == 0x33 {
        0x3c
    } else if code == 0x34 {
        0x3e
    } else if code == 0x35 {
        0x3f
    } else if letter(code) != 0 {
        (letter(code) - 0x20) as u8
    } else {
        either(code)
    }
}

/// The lower-case letter on a key; zero for other keys.
pub open spec fn letter(code: u8) -> u8 {
    if code == 0x10 {
        0x71
    } else if code == 0x11 {
        0x77
    } else if code == 0x12 {
        0x65
    } else if code == 0x13 {
        0x72
    } else if code == 0x14 {
        0x74
    } else if code == 0x15 {
        0x79
    } else if code == 0x16 {
        0x75
    } else if code == 0x17 {
        0x69
    } else if code == 0x18 {
        0x6f
    } else if code == 0x19 {
        0x70
    } else if code == 0x1e {
        0x61
    } else if code == 0x1f {
        0x73
    } else if code == 0x20 {
        0x64
    } else if 0x21 <= code <= 0x23 {
        (0x66 + (code - 0x21)) as u8
    } else if 0x24 <= code <= 0x26 {
        (0x6a + (code - 0x24)) as u8
    } else if code == 0x2c {
        0x7a
    } else if code == 0x2d {
        0x78
    } else if code == 0x2e {
        0x63
    } else if code == 0x2f {
        0x76
    } else if code == 0x30 {
        0x62
    } else if code == 0x31 {
        0x6e
    } else if code == 0x32 {
        0x6d
    } else {
        0
    }
}

/// The meaning of a key that Shift does not change, or a letter.
pub open spec fn either(code: u8) -> u8 {
    if code == 0x37 {
        0x2a
    } else if code == 0x39 {
        0x20
    } else if 0x47 <= code <= 0x49 {
        (0x37 + (code - 0x47)) as u8
    } else if code == 0x4a {
        0x2d
    } else if 0x4b <= code <= 0x4d {
        (0x34 + (code - 0x4b)) as u8
    } else if code == 0x4e {
        0x2b
    } else if 0x4f <= code <= 0x51 {
        (0x31 + (code - 0x4f)) as u8
    } else if code == 0x52 {
        0x30
    } else if code == 0x53 {
        0x2e
    } else {
        letter(code)
    }
}

pub open spec fn is_lower(b: u8) -> bool {
    0x61 <= b <= 0x7a
}

pub open spec fn is_upper(b: u8) -> bool {
    0x41 <= b <= 0x5a
}

/// A character as Caps Lock leaves it: it turns lower case into upper case, and
/// with Shift upper case into lower case.
pub open spec fn with_caps(ascii: u8, shift: bool, caps: bool) -> u8 {
    if caps && is_lower(ascii) {
        (ascii - 0x20) as u8
    } else if caps && is_upper(ascii) && shift {
        (ascii + 0x20) as u8
    } else {
        ascii
    }
}

/// Apply Caps Lock to a character.
pub fn apply_caps(ascii: u8, shift: bool, caps: bool) -> (r: u8)
    ensures
        r == with_caps(ascii, shift, caps),
{
    if caps && 0x61 <= ascii && ascii <= 0x7a {
        ascii - 0x20
    } else if caps && 0x41 <= ascii && ascii <= 0x5a && shift {
        ascii + 0x20
    } else {
        ascii
    }
}

fn letter_of(code: u8) -> (r: u8)
    ensures
        r == letter(code),
{
    match code {
        0x10 => 0x71,
        0x11 => 0x77,
        0x12 => 0x65,
        0x13 => 0x72,
        0x14 => 0x74,
        0x15 => 0x79,
        0x16 => 0x75,
        0x17 => 0x69,
        0x18 => 0x6f,
        0x19 => 0x70,
        0x1e => 0x61,
        0x1f => 0x73,
        0x20 => 0x64,
        0x21 => 0x66,
        0x22 => 0x67,
        0x23 => 0x68,
        0x24 => 0x6a,
        0x25 => 0x6b,
        0x26 => 0x6c,
        0x2c => 0x7a,
        0x2d => 0x78,
        0x2e => 0x63,
        0x2f => 0x76,
        0x30 => 0x62,
        0x31 => 0x6e,
        0x32 => 0x6d,
        _ => 0,
    }
}

fn either_of(code: u8) -> (r: u8)
    ensures
        r == either(code),
{
    match code {
        0x37 => 0x2a,
        0x39 => 0x20,
        0x47 => 0x37,
        0x48 => 0x38,
        0x49 => 0x39,
        0x4a => 0x2d,
        0x4b => 0x34,
        0x4c => 0x35,
        0x4d => 0x36,
        0x4e => 0x2b,
        0x4f => 0x31,
        0x50 => 0x32,
        0x51 => 0x33,
        0x52 => 0x30,
        0x53 => 0x2e,
        _ => letter_of(code),
    }
}

fn unshifted_of(code: u8) -> (r: u8)
    ensures
        r == unshifted(code),
{
    match code {
        0x01 => 0x1b,
        0x02 => 0x31,
        0x03 => 0x32,
        0x04 => 0x33,
        0x05 => 0x34,
        0x06 => 0x35,
        0x07 => 0x36,
        0x08 => 0x37,
        0x09 => 0x38,
        0x0a => 0x39,
        0x0b => 0x30,
        0x0c => 0x2d,
        0x0d => 0x3d,
        0x0e => 0x08,
        0x0f => 0x09,
        0x1a => 0x5b,
        0x1b => 0x5d,
        0x1c => 0x0a,
        0x27 => 0x3b,
        0x28 => 0x27,
        0x29 => 0x60,
        0x2b => 0x5c,
        0x33 => 0x2c,
        0x34 => 0x2e,
        0x35 => 0x2f,
        _ => either_of(code),
    }
}

fn shifted_of(code: u8) -> (r: u8)
    ensures
        r == shifted(code),
{
    match code {
        0x01 => 0x1b,
        0x02 => 0x21,
        0x03 => 0x40,
        0x04 => 0x23,
        0x05 => 0x24,
        0x06 => 0x25,
        0x07 => 0x5e,
        0x08 => 0x26,
        0x09 => 0x2a,
        0x0a => 0x28,
        0x0b => 0x29,
        0x0c => 0x5f,
        0x0d => 0x2b,
        0x0e => 0x08,
        0x0f => 0x09,
        0x1a => 0x7b,
        0x1b => 0x7d,
        0x1c => 0x0a,
        0x27 => 0x3a,
        0x28 => 0x22,
        0x29 => 0x7e,
        0x2b => 0x7c,
        0x33 => 0x3c,
        0x34 => 0x3e,
        0x35 => 0x3f,
        _ => {
            let l: u8 = letter_of(code);
            if l != 0 {
                l - 0x20
            } else {
                either_of(code)
            }
        },
    }
}

/// The final part of the escape sequence of an extended key, after `ESC [`.
pub open spec fn extended(code: u8) -> Seq<u8> {
    if code == 0x48 {
        seq![0x41u8]
    } else if code == 0x50 {
        seq![0x42u8]
    } else if code == 0x4d {
        seq![0x43u8]
    } else if code == 0x4b {
        seq![0x44u8]
    } else if code == 0x47 {
        seq![0x48u8]
    } else if code == 0x4f {
        seq![0x46u8]
    } else if code == 0x53 {
        seq![0x33u8, 0x7eu8]
    } else {
        Seq::empty()
    }
}

/// What an extended key queues.
pub open spec fn escape(code: u8) -> Seq<u8> {
    if extended(code).len() == 0 {
        Seq::empty()
    } else {
        seq![0x1bu8, 0x5bu8] + extended(code)
    }
}

/// The state of the keyboard.
#[derive(Debug)]
pub struct Keyboard {
    pub queue: RingBuffer,
    pub shift_held: bool,
    pub caps_lock: bool,
    /// Whether the next byte belongs to an extended key. The prefix and the byte
    /// after it come with two interrupts.
    pub expect_extended: bool,
    pub ready: bool,
}

/// The characters that a scancode queues, in a state of the keyboard.
pub open spec fn typed(code: u8, extended_next: bool, shift: bool, caps: bool) -> Seq<u8> {
    if code == EXTENDED_PREFIX || code >= 0x80 {
        Seq::empty()
    } else if extended_next {
        escape(code)
    } else if code == 0x2a || code == 0x36 || code == 0x3a || code >= 0x60 {
        Seq::empty()
    } else {
        let ascii = if shift {
            shifted(code)
        } else {
            unshifted(code)
        };
        if ascii == 0 {
            Seq::empty()
        } else {
            seq![with_caps(ascii, shift, caps)]
        }
    }
}

impl Keyboard {
    pub open spec fn wf(self) -> bool {
        self.queue.wf()
    }

    pub fn new() -> (r: Self)
        ensures
            r.wf(),
            r.queue@.len() == 0,
            !r.shift_held,
            !r.caps_lock,
            !r.expect_extended,
            !r.ready,
    {
        Keyboard {
            queue: RingBuffer::new(),
            shift_held: false,
            caps_lock: false,
            expect_extended: false,
            ready: false,
        }
    }

    /// Queue the escape sequence of an extended key.
    fn push_escape(&mut self, code: u8)
        requires
            old(self).wf(),
        ensures
            final(self).wf(),
            final(self).queue@ == pushed_all(old(self).queue@, escape(code)),
            final(self).shift_held == old(self).shift_held,
            final(self).caps_lock == old(self).caps_lock,
            final(self).expect_extended == old(self).expect_extended,
            final(self).ready == old(self).ready,
    {
        let last: u8 = match code {
            0x48 => 0x41,
            0x50 => 0x42,
            0x4d => 0x43,
            0x4b => 0x44,
            0x47 => 0x48,
            0x4f => 0x46,
            _ => 0,
        };
        if last != 0 {
            let seq: [u8; 3] = [0x1b, 0x5b, last];
            assert(seq@ =~= escape(code));
            self.queue.push_all(seq.as_slice());
        } else if code == 0x53 {
            let seq: [u8; 4] = [0x1b, 0x5b, 0x33, 0x7e];
            assert(seq@ =~= escape(code));
            self.queue.push_all(seq.as_slice());
        }
    }

    /// Take in one scancode byte.
    pub fn handle_scancode(&mut self, code: u8)
        requires
            old(self).wf(),
        ensures
            final(self).wf(),
            final(self).queue@ == pushed_all(
                old(self).queue@,
                typed(code, old(self).expect_extended, old(self).shift_held, old(self).caps_lock),
            ),
            final(self).expect_extended == (code == EXTENDED_PREFIX),
            final(self).shift_held == if code != EXTENDED_PREFIX && !old(self).expect_extended && (
            code % 0x80 == 0x2a || code % 0x80 == 0x36) {
                code < 0x80
            } else {
                old(self).shift_held
            },
            final(self).caps_lock == if !old(self).expect_extended && code == 0x3a {
                !old(self).caps_lock
            } else {
                old(self).caps_lock
            },
            final(self).ready == old(self).ready,
    {
        if code == EXTENDED_PREFIX {
            self.expect_extended = true;
            return;
        }
        let is_break: bool = code >= 0x80;
        let make: u8 = code % 0x80;
        let was_extended: bool = self.expect_extended;
        self.expect_extended = false;
        if was_extended {
            if !is_break {
                self.push_escape(make);
            }
            return;
        }
        if make == 0x2a || make == 0x36 {
            self.shift_held = !is_break;
            return;
        }
        if make == 0x3a {
            if !is_break {
                self.caps_lock = !self.caps_lock;
            }
            return;
        }
        if is_break || make >= 0x60 {
            return;
        }
        let ascii: u8 = if self.shift_held {
            shifted_of(make)
        } else {
            unshifted_of(make)
        };
        if ascii == 0 {
            return;
        }
        let ghost q = self.queue@;
        let b: u8 = apply_caps(ascii, self.shift_held, self.caps_lock);
        self.queue.push(b);
        proof {
            assert(seq![b].drop_last() =~= Seq::empty());
            reveal_with_fuel(pushed_all, 2);
        }
    }
}

/// Whether the keyboard is usable.
pub fn is_ready(k: &Keyboard) -> (r: bool)
    ensures
        r == k.ready,
{
    k.ready
}

/// The oldest keystroke that waits, if any.
pub fn try_read_byte(k: &mut Keyboard) -> (r: Option<u8>)
    requires
        old(k).wf(),
    ensures
        final(k).wf(),
        match r {
            None => old(k).queue@.len() == 0 && final(k).queue@ == old(k).queue@,
            Some(b) => old(k).queue@.len() > 0 && b == old(k).queue@[0] && final(k).queue@ == old(
                k,
            ).queue@.drop_first(),
        },
        final(k).shift_held == old(k).shift_held,
        final(k).caps_lock == old(k).caps_lock,
        final(k).expect_extended == old(k).expect_extended,
        final(k).ready == old(k).ready,
{
    k.queue.pop()
}

/// Where bringing the controller up has got to.
#[derive(Clone, Copy, Debug, PartialEq, Eq, Structural)]
pub enum Stage {
    Start,
    DisablePort1,
    DisablePort2,
    Flush,
    SelfTest,
    SelfTestReply,
    TestPort,
    TestPortReply,
    ReadConfig,
    Config,
    WriteConfig(u8),
    WriteConfigData,
    EnablePort,
    Reset,
    ResetReply { left: u8, answered: bool },
    Finished,
}

/// What is to be done with the controller next.
#[derive(Clone, Copy, Debug, PartialEq, Eq, Structural)]
pub enum Request {
    /// Read the status port.
    Status,
    /// Write a command once the input buffer is empty.
    Command(u8),
    /// Write a data byte once the input buffer is empty.
    Data(u8),
    /// Read a data byte once there is one.
    Read,
    /// Read data bytes until there are none.
    Flush,
    /// There is no controller; go on without it.
    Absent,
    Failed(Fault),
    /// Register the interrupt handler and unmask the line.
    Ready,
}

/// What the controller did.
#[derive(Clone, Copy, Debug, PartialEq, Eq, Structural)]
pub enum Reply {
    Byte(u8),
    Done,
    TimedOut,
}

/// Why the controller or the keyboard could not be brought up.
#[derive(Clone, Copy, Debug, PartialEq, Eq, Structural)]
pub enum Fault {
    SelfTestRefused,
    SelfTestFailed(u8),
    SelfTestTimedOut,
    PortTestRefused,
    PortTestFailed(u8),
    PortTestTimedOut,
    ReadConfigRefused,
    ConfigTimedOut,
    WriteConfigFailed,
    EnableFailed,
    ResetFailed,
    NoKeyboard,
}

/// How many steps are left at most.
pub open spec fn steps_left(s: Stage) -> int {
    match s {
        Stage::Start => 17,
        Stage::DisablePort1 => 16,
        Stage::DisablePort2 => 15,
        Stage::Flush => 14,
        Stage::SelfTest => 13,
        Stage::SelfTestReply => 12,
        Stage::TestPort => 11,
        Stage::TestPortReply => 10,
        Stage::ReadConfig => 9,
        Stage::Config => 8,
        Stage::WriteConfig(_) => 7,
        Stage::WriteConfigData => 6,
        Stage::EnablePort => 5,
        Stage::Reset => 4,
        Stage::ResetReply { left, .. } => 1 + left,
        Stage::Finished => 0,
    }
}

/// Whether a stage is one that bringing up goes through.
pub open spec fn is_stage(s: Stage) -> bool {
    s matches Stage::ResetReply { left, .. } ==> 1 <= left <= 2
}

/// What comes after a reply: a step was accepted, or it failed.
pub open spec fn after_write(reply: Reply, next: Stage, then: Request, fault: Fault) -> (
    Stage,
    Request,
) {
    if reply == Reply::TimedOut {
        (Stage::Finished, Request::Failed(fault))
    } else {
        (next, then)
    }
}

/// The next stage and request after a reply.
pub open spec fn next_step(s: Stage, reply: Reply) -> (Stage, Request) {
    match s {
        Stage::Start => if reply == Reply::Byte(0xff) {
            (Stage::Finished, Request::Absent)
        } else {
            (Stage::DisablePort1, Request::Command(CMD_DISABLE_PORT1))
        },
        // Whether the ports were disabled is not looked at.
        Stage::DisablePort1 => (Stage::DisablePort2, Request::Command(CMD_DISABLE_PORT2)),
        Stage::DisablePort2 => (Stage::Flush, Request::Flush),
        Stage::Flush => (Stage::SelfTest, Request::Command(CMD_SELF_TEST)),
        Stage::SelfTest => after_write(
            reply,
            Stage::SelfTestReply,
            Request::Read,
            Fault::SelfTestRefused,
        ),
        Stage::SelfTestReply => match reply {
            Reply::Byte(b) => if b == SELF_TEST_OK {
                (Stage::TestPort, Request::Command(CMD_TEST_PORT1))
            } else {
                (Stage::Finished, Request::Failed(Fault::SelfTestFailed(b)))
            },
            _ => (Stage::Finished, Request::Failed(Fault::SelfTestTimedOut)),
        },
        Stage::TestPort => after_write(
            reply,
            Stage::TestPortReply,
            Request::Read,
            Fault::PortTestRefused,
        ),
        Stage::TestPortReply => match reply {
            Reply::Byte(b) => if b == PORT_TEST_OK {
                (Stage::ReadConfig, Request::Command(CMD_READ_CONFIG))
            } else {
                (Stage::Finished, Request::Failed(Fault::PortTestFailed(b)))
            },
            _ => (Stage::Finished, Request::Failed(Fault::PortTestTimedOut)),
        },
        Stage::ReadConfig => after_write(
            reply,
            Stage::Config,
            Request::Read,
            Fault::ReadConfigRefused,
        ),
        Stage::Config => match reply {
            Reply::Byte(b) => (
                Stage::WriteConfig(configured(b)),
                Request::Command(CMD_WRITE_CONFIG),
            ),
            _ => (Stage::Finished, Request::Failed(Fault::ConfigTimedOut)),
        },
        Stage::WriteConfig(b) => after_write(
            reply,
            Stage::WriteConfigData,
            Request::Data(b),
            Fault::WriteConfigFailed,
        ),
        Stage::WriteConfigData => after_write(
            reply,
            Stage::EnablePort,
            Request::Command(CMD_ENABLE_PORT1),
            Fault::WriteConfigFailed,
        ),
        Stage::EnablePort => after_write(
            reply,
            Stage::Reset,
            Request::Data(KB_CMD_RESET),
            Fault::EnableFailed,
        ),
        Stage::Reset => after_write(
            reply,
            Stage::ResetReply { left: 2, answered: false },
            Request::Read,
            Fault::ResetFailed,
        ),
        // An acknowledgement and a pass code, in either order; stray bytes are
        // ignored.
        Stage::ResetReply { left, answered } => {
            let now = answered || reply == Reply::Byte(KB_RESET_ACK) || reply == Reply::Byte(
                KB_RESET_PASS,
            );
            if left > 1 && reply is Byte {
                (Stage::ResetReply { left: (left - 1) as u8, answered: now }, Request::Read)
            } else if now {
                (Stage::Finished, Request::Ready)
            } else {
                (Stage::Finished, Request::Failed(Fault::NoKeyboard))
            }
        },
        Stage::Finished => (Stage::Finished, Request::Absent),
    }
}

/// A controller configuration with the interrupt and the scancode translation
/// of port 1 enabled.
pub open spec fn configured(b: u8) -> u8 {
    b | 0x41
}

/// Bringing up ends: every step leaves fewer to go.
pub proof fn law_bring_up_ends(s: Stage, reply: Reply)
    requires
        is_stage(s),
        s != Stage::Finished,
    ensures
        is_stage(next_step(s, reply).0),
        0 <= steps_left(next_step(s, reply).0) < steps_left(s),
{
}

/// The keyboard is ready only if it has answered its reset.
pub proof fn law_ready_needs_an_answer(s: Stage, reply: Reply)
    ensures
        next_step(s, reply).1 == Request::Ready ==> (s matches Stage::ResetReply { answered, .. }
            && (answered || reply == Reply::Byte(KB_RESET_ACK) || reply == Reply::Byte(
            KB_RESET_PASS,
        ))),
{
}

/// One step of bringing up the controller and the keyboard.
pub fn init(k: &mut Keyboard, stage: Stage, reply: Reply) -> (r: (Stage, Request))
    requires
        is_stage(stage),
        old(k).wf(),
    ensures
        final(k).wf(),
        r == next_step(stage, reply),
        final(k).ready == (old(k).ready || r.1 == Request::Ready),
        final(k).queue@ == old(k).queue@,
        final(k).shift_held == old(k).shift_held,
        final(k).caps_lock == old(k).caps_lock,
        final(k).expect_extended == old(k).expect_extended,
{
    let timed_out: bool = match reply {
        Reply::TimedOut => true,
        _ => false,
    };
    let byte: Option<u8> = match reply {
        Reply::Byte(b) => Some(b),
        _ => None,
    };
    match stage {
        Stage::Start => if byte == Some(0xff) {
            (Stage::Finished, Request::Absent)
        } else {
            (Stage::DisablePort1, Request::Command(CMD_DISABLE_PORT1))
        },
        Stage::DisablePort1 => (Stage::DisablePort2, Request::Command(CMD_DISABLE_PORT2)),
        Stage::DisablePort2 => (Stage::Flush, Request::Flush),
        Stage::Flush => (Stage::SelfTest, Request::Command(CMD_SELF_TEST)),
        Stage::SelfTest => if timed_out {
            (Stage::Finished, Request::Failed(Fault::SelfTestRefused))
        } else {
            (Stage::SelfTestReply, Request::Read)
        },
        Stage::SelfTestReply => match byte {
            Some(b) => if b == SELF_TEST_OK {
                (Stage::TestPort, Request::Command(CMD_TEST_PORT1))
            } else {
                (Stage::Finished, Request::Failed(Fault::SelfTestFailed(b)))
            },
            None => (Stage::Finished, Request::Failed(Fault::SelfTestTimedOut)),
        },
        Stage::TestPort => if timed_out {
            (Stage::Finished, Request::Failed(Fault::PortTestRefused))
        } else {
            (Stage::TestPortReply, Request::Read)
        },
        Stage::TestPortReply => match byte {
            Some(b) => if b == PORT_TEST_OK {
                (Stage::ReadConfig, Request::Command(CMD_READ_CONFIG))
            } else {
                (Stage::Finished, Request::Failed(Fault::PortTestFailed(b)))
            },
            None => (Stage::Finished, Request::Failed(Fault::PortTestTimedOut)),
        },
        Stage::ReadConfig => if timed_out {
            (Stage::Finished, Request::Failed(Fault::ReadConfigRefused))
        } else {
            (Stage::Config, Request::Read)
        },
        Stage::Config => match byte {
            Some(b) => (Stage::WriteConfig(b | 0x41), Request::Command(CMD_WRITE_CONFIG)),
            None => (Stage::Finished, Request::Failed(Fault::ConfigTimedOut)),
        },
        Stage::WriteConfig(b) => if timed_out {
            (Stage::Finished, Request::Failed(Fault::WriteConfigFailed))
        } else {
            (Stage::WriteConfigData, Request::Data(b))
        },
        Stage::WriteConfigData => if timed_out {
            (Stage::Finished, Request::Failed(Fault::WriteConfigFailed))
        } else {
            (Stage::EnablePort, Request::Command(CMD_ENABLE_PORT1))
        },
        Stage::EnablePort => if timed_out {
            (Stage::Finished, Request::Failed(Fault::EnableFailed))
        } else {
            (Stage::Reset, Request::Data(KB_CMD_RESET))
        },
        Stage::Reset => if timed_out {
            (Stage::Finished, Request::Failed(Fault::ResetFailed))
        } else {
            (Stage::ResetReply { left: 2, answered: false }, Request::Read)
        },
        Stage::ResetReply { left, answered } => {
            let now: bool = answered || byte == Some(KB_RESET_ACK) || byte == Some(KB_RESET_PASS);
            if left > 1 && byte.is_some() {
                (Stage::ResetReply { left: left - 1, answered: now }, Request::Read)
            } else if now {
                k.ready = true;
                (Stage::Finished, Request::Ready)
            } else {
                (Stage::Finished, Request::Failed(Fault::NoKeyboard))
            }
        },
        Stage::Finished => (Stage::Finished, Request::Absent),
    }
}

/// Bounded waiting for the controller: whether to look at its status again.
pub fn keep_waiting(status: u8, for_input: bool, tries: u32) -> (r: Option<bool>)
    ensures
        r == if for_input && status & STATUS_INPUT_FULL == 0 {
            Some(true)
        } else if !for_input && status & STATUS_OUTPUT_FULL != 0 {
            Some(true)
        } else if tries >= 100_000 {
            Some(false)
        } else {
            None
        },
{
    if for_input && status & STATUS_INPUT_FULL == 0 {
        Some(true)
    } else if !for_input && status & STATUS_OUTPUT_FULL != 0 {
        Some(true)
    } else if tries >= 100_000 {
        Some(false)
    } else {
        None
    }
}

} // verus!
