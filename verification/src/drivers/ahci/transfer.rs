//! Sending one command to a disk and fetching the sector that it asks for.

use vstd::prelude::*;
use super::{command_fis, command_words, has_succeeded, is_over, may_issue, waited, TIMEOUT_MS};
use crate::block::SECTOR_SIZE;

verus! {

/// How far a transfer has come.
#[derive(Clone, Copy, Debug, PartialEq, Eq, Structural)]
pub enum Stage {
    /// The task file is being read.
    Asking,
    /// The command is being issued.
    Issuing,
    /// The command runs.
    Watching,
    /// It ended, or the time is up; its status is read once more.
    Checking { completed: bool },
    /// The sector is being fetched.
    Fetching,
    Over,
}

/// What is to be done next.
#[derive(Debug)]
pub enum TransferAsk {
    /// Read the task file register.
    ReadTaskFile,
    /// Clear the data page, put these words into the command table, clear the error
    /// register, and issue the command in slot 0.
    Issue(Vec<u8>),
    /// Read the registers that tell of the end of a command, and the clock.
    Watch,
    /// Read the interrupt status register.
    ReadStatus,
    /// Take the first sector of the data page.
    Fetch,
    /// The sector, if all went well.
    Finished(Option<[u8; SECTOR_SIZE]>),
}

/// What came of it.
#[derive(Clone, Copy, Debug)]
pub enum TransferAnswer {
    Register(u32),
    Issued,
    Seen { command_issue: u32, interrupt_status: u32, waited_ms: u64 },
    Sector([u8; SECTOR_SIZE]),
}

/// A transfer.
#[derive(Clone, Copy, Debug, PartialEq, Eq, Structural)]
pub struct Transfer {
    pub stage: Stage,
    pub command: u8,
    pub lba: u64,
    pub count: u16,
}

/// Whether a device is neither busy nor asking for data.
pub open spec fn is_idle(task_file: u32) -> bool {
    task_file / 8 % 2 == 0 && task_file / 128 % 2 == 0
}

/// Whether the registers tell that a command has come to an end.
pub open spec fn has_ended(command_issue: u32, interrupt_status: u32) -> bool {
    command_issue % 2 == 0 || interrupt_status % 2 == 1
}

/// Where an answer leads; one that was not asked for ends the transfer.
pub open spec fn stage_after(stage: Stage, a: TransferAnswer) -> Stage {
    match (stage, a) {
        (Stage::Asking, TransferAnswer::Register(task_file)) => if is_idle(task_file) {
            Stage::Issuing
        } else {
            Stage::Over
        },
        (Stage::Issuing, TransferAnswer::Issued) => Stage::Watching,
        (
            Stage::Watching,
            TransferAnswer::Seen { command_issue, interrupt_status, waited_ms },
        ) => if has_ended(command_issue, interrupt_status) {
            Stage::Checking { completed: true }
        } else if waited_ms >= TIMEOUT_MS {
            Stage::Checking { completed: false }
        } else {
            Stage::Watching
        },
        (
            Stage::Checking { completed },
            TransferAnswer::Register(interrupt_status),
        ) => if completed && interrupt_status % 2 == 0 {
            Stage::Fetching
        } else {
            Stage::Over
        },
        _ => Stage::Over,
    }
}

impl Transfer {
    /// Whether `r` is what is to be done at this stage.
    pub open spec fn asks(self, r: TransferAsk) -> bool {
        match self.stage {
            Stage::Asking => r is ReadTaskFile,
            Stage::Issuing => r matches TransferAsk::Issue(w) && w@ == command_fis(
                self.command,
                self.lba,
                self.count,
            ),
            Stage::Watching => r is Watch,
            Stage::Checking { .. } => r is ReadStatus,
            Stage::Fetching => r is Fetch,
            Stage::Over => r is Finished,
        }
    }

    /// Begin to send a command.
    pub fn new(command: u8, lba: u64, count: u16) -> (r: (Transfer, TransferAsk))
        ensures
            r.0 == (Transfer { stage: Stage::Asking, command, lba, count }),
            r.0.asks(r.1),
    {
        (Transfer { stage: Stage::Asking, command, lba, count }, TransferAsk::ReadTaskFile)
    }

    fn fail(&mut self) -> (r: TransferAsk)
        ensures
            *final(self) == (Transfer { stage: Stage::Over, ..*old(self) }),
            r == TransferAsk::Finished(None),
    {
        self.stage = Stage::Over;
        TransferAsk::Finished(None)
    }

    /// Go on with what came of the last request.
    pub fn step(&mut self, a: &TransferAnswer) -> (r: TransferAsk)
        ensures
            *final(self) == (Transfer { stage: stage_after(old(self).stage, *a), ..*old(self) }),
            final(self).asks(r),
            r matches TransferAsk::Finished(sector) ==> sector == match (old(self).stage, *a) {
                (Stage::Fetching, TransferAnswer::Sector(d)) => Some(d),
                _ => None,
            },
    {
        match (self.stage, a) {
            (Stage::Asking, TransferAnswer::Register(task_file)) => if may_issue(*task_file) {
                self.stage = Stage::Issuing;
                TransferAsk::Issue(command_words(self.command, self.lba, self.count))
            } else {
                self.fail()
            },
            (Stage::Issuing, TransferAnswer::Issued) => {
                self.stage = Stage::Watching;
                TransferAsk::Watch
            },
            (
                Stage::Watching,
                TransferAnswer::Seen { command_issue, interrupt_status, waited_ms },
            ) => match waited(is_over(*command_issue, *interrupt_status), *waited_ms) {
                Some(completed) => {
                    self.stage = Stage::Checking { completed };
                    TransferAsk::ReadStatus
                },
                None => TransferAsk::Watch,
            },
            (Stage::Checking { completed }, TransferAnswer::Register(interrupt_status)) => {
                if has_succeeded(completed, *interrupt_status) {
                    self.stage = Stage::Fetching;
                    TransferAsk::Fetch
                } else {
                    self.fail()
                }
            },
            (Stage::Fetching, TransferAnswer::Sector(d)) => {
                self.stage = Stage::Over;
                TransferAsk::Finished(Some(*d))
            },
            _ => self.fail(),
        }
    }
}

/// Where a transfer is after these answers.
pub open spec fn stage_of(answers: Seq<TransferAnswer>) -> Stage
    decreases answers.len(),
{
    if answers.len() == 0 {
        Stage::Asking
    } else {
        stage_after(stage_of(answers.drop_last()), answers.last())
    }
}

/// A sector is fetched only where the device was idle, the command came to an end in
/// time, and its status then told of no fault.
pub proof fn law_only_good_sectors_are_fetched(answers: Seq<TransferAnswer>)
    requires
        stage_of(answers) is Fetching,
    ensures
        answers.len() >= 4,
        answers[0] matches TransferAnswer::Register(task_file) && is_idle(task_file),
        answers[answers.len() - 2] matches TransferAnswer::Seen {
            command_issue,
            interrupt_status,
            ..
        } && has_ended(command_issue, interrupt_status),
        answers.last() matches TransferAnswer::Register(interrupt_status) && interrupt_status % 2
            == 0,
{
    let a = answers.drop_last();
    lemma_stage(a);
    lemma_stage(a.drop_last());
    assert(a.last() == answers[answers.len() - 2]);
    assert(a.drop_last()[0] == answers[0]);
}

/// What the answers were on the way to a stage.
proof fn lemma_stage(answers: Seq<TransferAnswer>)
    ensures
        stage_of(answers) is Issuing ==> answers.len() == 1,
        stage_of(answers) is Watching ==> answers.len() >= 2,
        (stage_of(answers) is Issuing || stage_of(answers) is Watching) ==> (
        answers[0] matches TransferAnswer::Register(task_file) && is_idle(task_file)),
        stage_of(answers) == (Stage::Checking { completed: true }) ==> answers.len() >= 3 && (
        answers.last() matches TransferAnswer::Seen { command_issue, interrupt_status, .. }
            && has_ended(command_issue, interrupt_status)) && stage_of(answers.drop_last()) is Watching,
        stage_of(answers) is Asking ==> answers.len() == 0,
    decreases answers.len(),
{
    if answers.len() > 0 {
        lemma_stage(answers.drop_last());
        if answers.len() > 1 {
            assert(answers.drop_last()[0] == answers[0]);
        }
    }
}

/// How many stages are left.
pub open spec fn stages_left(stage: Stage) -> int {
    match stage {
        Stage::Asking => 5,
        Stage::Issuing => 4,
        Stage::Watching => 3,
        Stage::Checking { .. } => 2,
        Stage::Fetching => 1,
        Stage::Over => 0,
    }
}

/// Every answer brings a transfer nearer to its end, but one that tells of a command
/// that still runs, with its time not yet up.
pub proof fn law_transfer_ends(stage: Stage, a: TransferAnswer)
    requires
        !(stage is Over),
        !(stage is Watching && (a matches TransferAnswer::Seen { waited_ms, .. } && waited_ms
            < TIMEOUT_MS)),
    ensures
        stages_left(stage_after(stage, a)) < stages_left(stage),
{
}

} // verus!
