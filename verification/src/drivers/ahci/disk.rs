//! Bringing a port up and finding out about the disk on it.

use vstd::prelude::*;
use super::{
    bring_up, command_header, header_bytes, identified_sectors, is_reachable, port_ops, region,
    region_bytes, PortOp,
};
use crate::block::SECTOR_SIZE;
use crate::bytes::le64;

verus! {

/// How many steps it takes to bring a port up.
pub const STEPS: usize = 15;

/// How far it has come.
#[derive(Clone, Copy, Debug, PartialEq, Eq, Structural)]
pub enum DiskStage {
    /// So many of the four pages are there.
    Paging { have: usize },
    /// The pages are being filled in.
    Preparing,
    /// So many of the steps are done.
    Starting { done: usize },
    /// The disk is asked what it is.
    Identifying,
    Over,
}

/// What is to be done next.
#[derive(Debug)]
pub enum DiskAsk {
    /// Take a page and clear it.
    Page,
    /// Put bytes at the start of the command list, and others behind the first 128
    /// bytes of the command table.
    Prepare { list: u64, header: Vec<u8>, table: u64, region: Vec<u8> },
    /// Do this to a register of the port.
    Step(PortOp),
    /// Send the command that asks a disk what it is.
    Identify,
    /// The number of sectors, if there is a usable disk.
    Finished(Option<u64>),
}

/// What came of it.
#[derive(Clone, Copy, Debug)]
pub enum DiskAnswer {
    Page(Option<u64>),
    /// Whether it was done; waiting in vain is not.
    Done(bool),
    Sector(Option<[u8; SECTOR_SIZE]>),
}

/// A port and the memory that it works with.
#[derive(Clone, Copy, Debug, PartialEq, Eq, Structural)]
pub struct NewDisk {
    pub stage: DiskStage,
    /// Whether the controller knows 64 address bits.
    pub wide: bool,
    pub list: u64,
    pub fis: u64,
    pub table: u64,
    pub data: u64,
}

impl NewDisk {
    pub open spec fn wf(self) -> bool {
        match self.stage {
            DiskStage::Paging { have } => have < 4,
            DiskStage::Starting { done } => done < STEPS,
            _ => true,
        }
    }

    /// Whether the controller reaches all four pages.
    pub open spec fn reaches(self) -> bool {
        self.wide || (self.list < 0x1_0000_0000 && self.fis < 0x1_0000_0000 && self.table
            < 0x1_0000_0000 && self.data < 0x1_0000_0000)
    }

    /// With a page more.
    pub open spec fn with_page(self, have: usize, page: u64) -> NewDisk {
        if have == 0 {
            NewDisk { list: page, stage: DiskStage::Paging { have: 1 }, ..self }
        } else if have == 1 {
            NewDisk { fis: page, stage: DiskStage::Paging { have: 2 }, ..self }
        } else if have == 2 {
            NewDisk { table: page, stage: DiskStage::Paging { have: 3 }, ..self }
        } else {
            let all = NewDisk { data: page, ..self };
            if all.reaches() {
                NewDisk { stage: DiskStage::Preparing, ..all }
            } else {
                NewDisk { stage: DiskStage::Over, ..all }
            }
        }
    }

    /// Where an answer leads; one that was not asked for ends it.
    pub open spec fn after(self, a: DiskAnswer) -> NewDisk {
        match (self.stage, a) {
            (DiskStage::Paging { have }, DiskAnswer::Page(Some(page))) => self.with_page(
                have,
                page,
            ),
            (DiskStage::Preparing, DiskAnswer::Done(true)) => NewDisk {
                stage: DiskStage::Starting { done: 0 },
                ..self
            },
            (DiskStage::Starting { done }, DiskAnswer::Done(true)) => if done + 1 < STEPS {
                NewDisk { stage: DiskStage::Starting { done: (done + 1) as usize }, ..self }
            } else {
                NewDisk { stage: DiskStage::Identifying, ..self }
            },
            _ => NewDisk { stage: DiskStage::Over, ..self },
        }
    }

    /// Whether `r` is what is to be done at this stage.
    pub open spec fn asks(self, r: DiskAsk) -> bool {
        match self.stage {
            DiskStage::Paging { .. } => r is Page,
            DiskStage::Preparing => r matches DiskAsk::Prepare { list, header, table, region }
                && list == self.list && table == self.table && header@ == header_bytes(self.table)
                && region@ == region_bytes(self.data),
            DiskStage::Starting { done } => r matches DiskAsk::Step(op) && op == bring_up(
                self.list,
                self.fis,
            )[done as int],
            DiskStage::Identifying => r is Identify,
            DiskStage::Over => r is Finished,
        }
    }

    /// Begin with a port.
    pub fn new(wide: bool) -> (r: (NewDisk, DiskAsk))
        ensures
            r.0 == (NewDisk {
                stage: DiskStage::Paging { have: 0 },
                wide,
                list: 0,
                fis: 0,
                table: 0,
                data: 0,
            }),
            r.0.asks(r.1),
            r.0.wf(),
    {
        (
            NewDisk {
                stage: DiskStage::Paging { have: 0 },
                wide,
                list: 0,
                fis: 0,
                table: 0,
                data: 0,
            },
            DiskAsk::Page,
        )
    }

    fn fail(&mut self) -> (r: DiskAsk)
        ensures
            *final(self) == (NewDisk { stage: DiskStage::Over, ..*old(self) }),
            r == DiskAsk::Finished(None),
    {
        self.stage = DiskStage::Over;
        DiskAsk::Finished(None)
    }

    fn take_page(&mut self, have: usize, page: u64) -> (r: DiskAsk)
        requires
            old(self).stage == (DiskStage::Paging { have }),
            have < 4,
        ensures
            *final(self) == old(self).with_page(have, page),
            final(self).asks(r),
            r matches DiskAsk::Finished(n) ==> n is None,
    {
        if have == 0 {
            self.list = page;
        } else if have == 1 {
            self.fis = page;
        } else if have == 2 {
            self.table = page;
        } else {
            self.data = page;
            let pages: [u64; 4] = [self.list, self.fis, self.table, self.data];
            let reached: bool = is_reachable(self.wide, pages.as_slice());
            assert(reached == self.reaches()) by {
                assert(pages@[0] == self.list && pages@[1] == self.fis && pages@[2] == self.table
                    && pages@[3] == self.data);
            }
            if !reached {
                return self.fail();
            }
            self.stage = DiskStage::Preparing;
            return DiskAsk::Prepare {
                list: self.list,
                header: command_header(self.table),
                table: self.table,
                region: region(self.data),
            };
        }
        self.stage = DiskStage::Paging { have: have + 1 };
        DiskAsk::Page
    }

    fn take_step(&mut self, done: usize) -> (r: DiskAsk)
        requires
            done < STEPS,
        ensures
            *final(self) == (NewDisk { stage: DiskStage::Starting { done }, ..*old(self) }),
            final(self).asks(r),
    {
        self.stage = DiskStage::Starting { done };
        let steps: Vec<PortOp> = port_ops(self.list, self.fis);
        DiskAsk::Step(steps[done])
    }

    /// Go on with what came of the last request.
    pub fn step(&mut self, a: &DiskAnswer) -> (r: DiskAsk)
        requires
            old(self).wf(),
        ensures
            final(self).wf(),
            *final(self) == old(self).after(*a),
            final(self).asks(r),
            r matches DiskAsk::Finished(sectors) ==> sectors == match (old(self).stage, *a) {
                (DiskStage::Identifying, DiskAnswer::Sector(Some(d))) => if le64(d@, 200) == 0 {
                    None
                } else {
                    Some(le64(d@, 200) as u64)
                },
                _ => None,
            },
    {
        match (self.stage, a) {
            (DiskStage::Paging { have }, DiskAnswer::Page(Some(page))) => {
                self.take_page(have, *page)
            },
            (DiskStage::Preparing, DiskAnswer::Done(true)) => self.take_step(0),
            (DiskStage::Starting { done }, DiskAnswer::Done(true)) => {
                if done + 1 < STEPS {
                    self.take_step(done + 1)
                } else {
                    self.stage = DiskStage::Identifying;
                    DiskAsk::Identify
                }
            },
            (DiskStage::Identifying, DiskAnswer::Sector(Some(d))) => {
                self.stage = DiskStage::Over;
                DiskAsk::Finished(identified_sectors(d))
            },
            _ => self.fail(),
        }
    }
}

/// How many answers are left at most.
pub open spec fn answers_left(stage: DiskStage) -> int {
    match stage {
        DiskStage::Paging { have } => 4 - have + STEPS + 2,
        DiskStage::Preparing => STEPS + 2,
        DiskStage::Starting { done } => STEPS - done + 1,
        DiskStage::Identifying => 1,
        DiskStage::Over => 0,
    }
}

/// Every answer brings a new disk nearer to its end.
pub proof fn law_new_disk_ends(d: NewDisk, a: DiskAnswer)
    requires
        d.wf(),
        !(d.stage is Over),
    ensures
        answers_left(d.after(a).stage) < answers_left(d.stage),
{
}

/// A port whose memory the controller cannot reach is never started: what is written
/// to its registers speaks of pages that the controller reaches.
pub proof fn law_only_reachable_memory_is_used(d: NewDisk, a: DiskAnswer)
    requires
        d.wf(),
        d.stage is Paging || d.reaches(),
    ensures
        d.after(a).stage is Paging || d.after(a).stage is Over || d.after(a).reaches(),
{
}

} // verus!
