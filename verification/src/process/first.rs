//! The first user program.

use vstd::prelude::*;
use super::SpawnError;

verus! {

/// The first program the kernel starts.
pub const INIT_PATH: &'static str = "/init";

/// Whether boot waits for the first program to exit and reports how it went.
/// Right for one that prints something and quits, not for a long-running one.
pub const WAIT_FOR_INIT: bool = false;

pub const INIT_TIMEOUT_MS: u64 = 5000;

/// What was noted when the first program was started.
#[derive(Clone, Copy, Debug, PartialEq, Eq, Structural)]
pub struct InitWait {
    pub pid: u64,
    /// When to give up, in milliseconds of uptime.
    pub deadline: u64,
    pub frames_before: usize,
    pub heap_before: usize,
}

/// What comes after the attempt to start the first program.
#[derive(Clone, Copy, Debug, PartialEq, Eq, Structural)]
pub enum InitStep {
    Failed(SpawnError),
    /// It runs, and nobody waits for it.
    Running(u64),
    Wait(InitWait),
}

/// What comes after a look at the first program while waiting for it.
#[derive(Clone, Copy, Debug, PartialEq, Eq, Structural)]
pub enum InitPoll {
    Exited(i64),
    TimedOut,
    /// Let other threads run and look again.
    Again,
}

/// How the first program went.
#[derive(Clone, Copy, Debug, PartialEq, Eq, Structural)]
pub enum InitReport {
    Status(i64),
    /// It exited cleanly, but so many frames were not returned.
    Leaked(i128),
    Clean,
}

/// Frames that are gone, but for those that the heap has grown by.
pub open spec fn frames_lost(
    frames_before: int,
    frames_after: int,
    heap_before: int,
    heap_after: int,
) -> int {
    frames_before - frames_after - if heap_after > heap_before {
        (heap_after - heap_before) / 4096
    } else {
        0
    }
}

/// Count the frames that are gone.
pub fn lost(frames_before: usize, frames_after: usize, heap_before: usize, heap_after: usize) -> (r:
    i128)
    ensures
        r == frames_lost(
            frames_before as int,
            frames_after as int,
            heap_before as int,
            heap_after as int,
        ),
{
    let growth: usize = if heap_after > heap_before {
        (heap_after - heap_before) / 4096
    } else {
        0
    };
    frames_before as i128 - frames_after as i128 - growth as i128
}

/// Boot the first user program: what to do once its start was tried.
pub fn start_init(
    spawned: Result<u64, SpawnError>,
    wait: bool,
    now_ms: u64,
    frames_before: usize,
    heap_before: usize,
) -> (r: InitStep)
    requires
        now_ms <= u64::MAX - INIT_TIMEOUT_MS,
    ensures
        r == match spawned {
            Err(e) => InitStep::Failed(e),
            Ok(pid) => if wait {
                InitStep::Wait(
                    InitWait {
                        pid,
                        deadline: (now_ms + 5000) as u64,
                        frames_before,
                        heap_before,
                    },
                )
            } else {
                InitStep::Running(pid)
            },
        },
{
    match spawned {
        Err(e) => InitStep::Failed(e),
        Ok(pid) => if wait {
            InitStep::Wait(
                InitWait { pid, deadline: now_ms + INIT_TIMEOUT_MS, frames_before, heap_before },
            )
        } else {
            InitStep::Running(pid)
        },
    }
}

impl InitWait {
    /// Look at the status that was collected, if there was one.
    pub fn poll(&self, status: Option<i64>, now_ms: u64) -> (r: InitPoll)
        ensures
            r == match status {
                Some(s) => InitPoll::Exited(s),
                None => if now_ms > self.deadline {
                    InitPoll::TimedOut
                } else {
                    InitPoll::Again
                },
            },
    {
        match status {
            Some(s) => InitPoll::Exited(s),
            None => if now_ms > self.deadline {
                InitPoll::TimedOut
            } else {
                InitPoll::Again
            },
        }
    }

    /// Judge a program that has exited and whose thread is gone.
    pub fn finish(&self, status: i64, frames_after: usize, heap_after: usize) -> (r: InitReport)
        ensures
            ({
                let n = frames_lost(
                    self.frames_before as int,
                    frames_after as int,
                    self.heap_before as int,
                    heap_after as int,
                );
                r == if status != 0 {
                    InitReport::Status(status)
                } else if n != 0 {
                    InitReport::Leaked(n as i128)
                } else {
                    InitReport::Clean
                }
            }),
    {
        if status != 0 {
            return InitReport::Status(status);
        }
        let n: i128 = lost(self.frames_before, frames_after, self.heap_before, heap_after);
        if n != 0 {
            InitReport::Leaked(n)
        } else {
            InitReport::Clean
        }
    }
}

} // verus!
