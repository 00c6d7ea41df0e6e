//! Intel 8253/8254 Programmable Interval Timer, driven off IRQ0.

use vstd::prelude::*;
use crate::pic::PortWrite;

verus! {

pub const CHANNEL0_DATA: u16 = 0x40;

pub const COMMAND: u16 = 0x43;

/// The PIT's crystal frequency. Every programmable rate is this divided by a
/// 16-bit divisor.
pub const BASE_FREQUENCY: u32 = 1_193_182;

pub const IRQ_LINE: u8 = 0;

/// The timer: its rate and the ticks so far.
#[derive(Clone, Copy, Debug, PartialEq, Eq, Structural)]
pub struct Timer {
    pub ticks: u64,
    /// 0 before it is started.
    pub hz: u64,
}

/// The rate that is programmed: the PIT can't go slower than about 18.2 Hz, and
/// there's no reason for a kernel tick to run faster than 1 kHz.
pub open spec fn rate(hz: u32) -> int {
    if hz < 19 {
        19
    } else if hz > 1000 {
        1000
    } else {
        hz as int
    }
}

/// Start the timer at approximately `hz`: channel 0, square wave, low byte of the
/// divisor first.
pub fn init(hz: u32) -> (r: (Timer, [PortWrite; 3]))
    ensures
        r.0 == (Timer { ticks: 0, hz: rate(hz) as u64 }),
        r.1@ == seq![
            PortWrite { port: COMMAND, value: 0x36 },
            PortWrite { port: CHANNEL0_DATA, value: (1_193_182int / rate(hz) % 256) as u8 },
            PortWrite { port: CHANNEL0_DATA, value: (1_193_182int / rate(hz) / 256) as u8 },
        ],
        1_193_182int / rate(hz) < 0x1_0000,
{
    let hz: u32 = if hz < 19 {
        19
    } else if hz > 1000 {
        1000
    } else {
        hz
    };
    proof {
        let d = 1_193_182int / (hz as int);
        assert(d <= 62_799) by (nonlinear_arith)
            requires
                d == 1_193_182int / (hz as int),
                hz >= 19,
        ;
    }
    let divisor: u32 = BASE_FREQUENCY / hz;
    let writes: [PortWrite; 3] = [
        PortWrite { port: COMMAND, value: 0x36 },
        PortWrite { port: CHANNEL0_DATA, value: (divisor % 256) as u8 },
        PortWrite { port: CHANNEL0_DATA, value: (divisor / 256) as u8 },
    ];
    assert(writes@ =~= seq![writes[0], writes[1], writes[2]]);
    (Timer { ticks: 0, hz: hz as u64 }, writes)
}

/// A tick has arrived.
pub fn on_tick(timer: &mut Timer)
    requires
        old(timer).ticks < u64::MAX,
    ensures
        final(timer).ticks == old(timer).ticks + 1,
        final(timer).hz == old(timer).hz,
{
    timer.ticks = timer.ticks + 1;
}

/// Ticks observed since the timer was started.
pub fn ticks(timer: &Timer) -> (r: u64)
    ensures
        r == timer.ticks,
{
    timer.ticks
}

/// The programmed tick rate, or 0 if the timer was not started.
pub fn frequency_hz(timer: &Timer) -> (r: u64)
    ensures
        r == timer.hz,
{
    timer.hz
}

/// Milliseconds elapsed since the timer was started.
pub open spec fn uptime(timer: Timer) -> int {
    if timer.hz == 0 {
        0
    } else {
        timer.ticks * 1000 / (timer.hz as int)
    }
}

/// Milliseconds elapsed since the timer was started, derived from the tick count.
pub fn uptime_ms(timer: &Timer) -> (r: u64)
    requires
        timer.ticks <= u64::MAX / 1000,
    ensures
        r == uptime(*timer),
{
    if timer.hz == 0 {
        return 0;
    }
    timer.ticks * 1000 / timer.hz
}

/// Time never goes backwards: a tick later it is no earlier.
pub proof fn law_time_goes_forward(before: Timer, after: Timer)
    requires
        after.hz == before.hz,
        after.ticks >= before.ticks,
    ensures
        uptime(before) <= uptime(after),
{
    if before.hz > 0 {
        let a = before.ticks * 1000;
        let b = after.ticks * 1000;
        let h = before.hz as int;
        assert(a / h <= b / h) by (nonlinear_arith)
            requires
                0 <= a <= b,
                h > 0,
        ;
    }
}

/// The uptime is the time that the ticks make up, to the millisecond below: `hz` ticks are
/// a second.
pub proof fn law_uptime_counts_milliseconds(timer: Timer, seconds: int)
    requires
        timer.hz > 0,
    ensures
        uptime(timer) * timer.hz <= timer.ticks * 1000 < (uptime(timer) + 1) * timer.hz,
        timer.ticks == seconds * timer.hz ==> uptime(timer) == 1000 * seconds,
{
    let (t, h, u) = (timer.ticks * 1000, timer.hz as int, uptime(timer));
    assert(u * h <= t < (u + 1) * h) by (nonlinear_arith)
        requires
            u == t / h,
            h > 0,
    ;
    if timer.ticks == seconds * timer.hz {
        assert(u == 1000 * seconds) by (nonlinear_arith)
            requires
                u * h <= t < (u + 1) * h,
                t == seconds * h * 1000,
                h > 0,
        ;
    }
}

/// The rate is the one that was asked for where the timer can have it, and else the
/// nearest: the divisor must fit in sixteen bits, and a thousand ticks a second are enough.
pub proof fn law_rate_is_as_asked(hz: u32)
    ensures
        19 <= hz <= 1000 ==> rate(hz) == hz,
        hz < 19 ==> rate(hz) == 19,
        hz > 1000 ==> rate(hz) == 1000,
{
}

/// How long the trial waits, in cycles of the processor: several seconds even on a
/// slow one.
pub const TSC_TIMEOUT: u64 = 0x2_0000_0000;

/// What a look at the timer comes to while it is tried out.
#[derive(Clone, Copy, Debug, PartialEq, Eq, Structural)]
pub enum TimerTrial {
    NotStarted,
    /// Not enough ticks yet; look again.
    Again,
    /// No ticks for too long.
    TimedOut,
    /// So many ticks in so many milliseconds.
    Passed { count: u64, ms: u64 },
}

/// Look at the timer, `cycles` after the trial was begun with `start` ticks: about
/// fifty milliseconds worth of ticks are to arrive.
pub fn self_test(timer: &Timer, start: u64, cycles: u64) -> (r: TimerTrial)
    requires
        start <= timer.ticks,
        timer.ticks <= u64::MAX / 1000,
        timer.hz <= 1000,
    ensures
        ({
            let want = if timer.hz < 20 {
                1
            } else {
                timer.hz as int / 20
            };
            r == if timer.hz == 0 {
                TimerTrial::NotStarted
            } else if timer.ticks >= start + want {
                TimerTrial::Passed {
                    count: (timer.ticks - start) as u64,
                    ms: ((timer.ticks - start) * 1000 / (timer.hz as int)) as u64,
                }
            } else if cycles > TSC_TIMEOUT {
                TimerTrial::TimedOut
            } else {
                TimerTrial::Again
            }
        }),
{
    if timer.hz == 0 {
        return TimerTrial::NotStarted;
    }
    let want: u64 = if timer.hz < 20 {
        1
    } else {
        timer.hz / 20
    };
    let count: u64 = timer.ticks - start;
    if count >= want {
        TimerTrial::Passed { count, ms: count * 1000 / timer.hz }
    } else if cycles > TSC_TIMEOUT {
        TimerTrial::TimedOut
    } else {
        TimerTrial::Again
    }
}

} // verus!
