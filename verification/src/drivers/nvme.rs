//! Minimal polling NVMe driver, restricted to 512-byte logical blocks: the commands,
//! the queues, and the order in which a controller is brought up. Writes are
//! intentionally not exposed.

use vstd::prelude::*;
use super::pci::{present, reads, Config, PciLocation};
use super::storage::{find_controllers, storage_among, StorageController, StorageKind};
use crate::block::{BlockError, SECTOR_SIZE};
use crate::bytes::{
    copy_into, le16, le32, le32_bytes, le64, le64_bytes, spliced, u16le, u32_to_le, u32le,
    u64_to_le, u64le, zeros,
};
use crate::text::{decimal, push_decimal, push_text};

verus! {

/// Entries in a queue.
pub const QSIZE: u16 = 16;

/// How long a controller may take, in milliseconds.
pub const TIMEOUT_MS: u64 = 5000;

/// Namespaces that are looked at.
pub const MAX_NAMESPACES: u32 = 32;

/// All NVMe controllers on the bus.
pub fn controllers<F: Fn(PciLocation, u8) -> u32>(read: &F) -> (r: Vec<StorageController>)
    requires
        exists|c: Config| reads(*read, c),
    ensures
        forall|c: Config| #[trigger]
            reads(*read, c) ==> r@ == storage_among(c, StorageKind::Nvme, present(c, 8192)),
{
    find_controllers(read, StorageKind::Nvme)
}

/// A command: what to do, on which namespace, with which memory, and two words more.
#[derive(Clone, Copy, Debug, PartialEq, Eq, Structural)]
pub struct Entry {
    pub opcode: u8,
    pub nsid: u32,
    pub prp1: u64,
    pub cdw10: u32,
    pub cdw11: u32,
}

impl Entry {
    /// The command as the controller reads it.
    pub open spec fn image(self) -> Seq<u8> {
        spliced(
            spliced(
                spliced(
                    spliced(zeros(64).update(0, self.opcode), 4, le32_bytes(self.nsid)),
                    24,
                    le64_bytes(self.prp1),
                ),
                40,
                le32_bytes(self.cdw10),
            ),
            44,
            le32_bytes(self.cdw11),
        )
    }

    pub fn bytes(&self) -> (r: Vec<u8>)
        ensures
            r@ == self.image(),
    {
        let mut r: Vec<u8> = vec![0u8; 64];
        assert(r@ =~= zeros(64));
        r[0] = self.opcode;
        copy_into(r.as_mut_slice(), 4, u32_to_le(self.nsid).as_slice());
        copy_into(r.as_mut_slice(), 24, u64_to_le(self.prp1).as_slice());
        copy_into(r.as_mut_slice(), 40, u32_to_le(self.cdw10).as_slice());
        copy_into(r.as_mut_slice(), 44, u32_to_le(self.cdw11).as_slice());
        r
    }
}

/// Where the driver is in a pair of queues. The controller tells a new completion from
/// an old one by a bit that changes each time the queue comes round.
#[derive(Clone, Copy, Debug, PartialEq, Eq, Structural)]
pub struct Queue {
    pub tail: u16,
    pub head: u16,
    pub phase: u16,
}

/// What a look at the next completion says.
#[derive(Clone, Copy, Debug, PartialEq, Eq, Structural)]
pub enum Look {
    /// It is not there yet.
    Waiting,
    TimedOut,
    /// It is there, and says whether the command succeeded.
    Arrived(bool),
}

impl Queue {
    pub open spec fn wf(self) -> bool {
        self.tail < QSIZE && self.head < QSIZE && self.phase < 2
    }

    /// A queue that the controller has just been given.
    pub open spec fn fresh() -> Queue {
        Queue { tail: 0, head: 0, phase: 1 }
    }

    pub fn new() -> (r: Queue)
        ensures
            r == Queue::fresh(),
            r.wf(),
    {
        Queue { tail: 0, head: 0, phase: 1 }
    }

    /// The place of the next command; what the doorbell is told is the tail.
    pub fn submit(&mut self) -> (at: usize)
        requires
            old(self).wf(),
        ensures
            final(self).wf(),
            *final(self) == (Queue { tail: ((old(self).tail + 1) % 16) as u16, ..*old(self) }),
            at == old(self).tail * 64,
    {
        let at: usize = self.tail as usize * 64;
        self.tail = (self.tail + 1) % QSIZE;
        at
    }

    /// Where the next completion's status is.
    pub fn status_at(&self) -> (at: usize)
        requires
            self.wf(),
        ensures
            at == self.head * 16 + 14,
    {
        self.head as usize * 16 + 14
    }

    /// The queue behind the next completion.
    pub open spec fn behind(self) -> Queue {
        Queue {
            head: ((self.head + 1) % 16) as u16,
            phase: if self.head + 1 == QSIZE {
                (1 - self.phase) as u16
            } else {
                self.phase
            },
            ..self
        }
    }

    /// Look at the next completion's status.
    pub fn look(&mut self, status: u16, waited_ms: u64) -> (r: Look)
        requires
            old(self).wf(),
        ensures
            final(self).wf(),
            r == if status % 2 == old(self).phase {
                Look::Arrived(status / 2 == 0)
            } else if waited_ms > TIMEOUT_MS {
                Look::TimedOut
            } else {
                Look::Waiting
            },
            *final(self) == if r is Arrived {
                old(self).behind()
            } else {
                *old(self)
            },
    {
        if status % 2 == self.phase {
            self.head = (self.head + 1) % QSIZE;
            if self.head == 0 {
                self.phase = 1 - self.phase;
            }
            Look::Arrived(status / 2 == 0)
        } else if waited_ms > TIMEOUT_MS {
            Look::TimedOut
        } else {
            Look::Waiting
        }
    }
}

/// A queue after so many completions.
pub open spec fn behind_all(q: Queue, n: nat) -> Queue
    decreases n,
{
    if n == 0 {
        q
    } else {
        behind_all(q, (n - 1) as nat).behind()
    }
}

/// The head and the bit, from how far the queue has come.
proof fn lemma_behind(q: Queue, n: nat)
    requires
        q.wf(),
    ensures
        behind_all(q, n).wf(),
        behind_all(q, n).head == (q.head + n) % 16,
        behind_all(q, n).phase == (q.phase + (q.head + n) / 16) % 2,
    decreases n,
{
    if n > 0 {
        lemma_behind(q, (n - 1) as nat);
    }
}

/// An old completion is never taken for a new one: when the queue has come round, a
/// status that was new before is not new, since the bit is the other.
pub proof fn law_completions_are_seen_once(q: Queue)
    requires
        q.wf(),
    ensures
        behind_all(q, 16).head == q.head,
        behind_all(q, 16).phase != q.phase,
{
    lemma_behind(q, 16);
}

/// Why a controller cannot be used.
#[derive(Clone, Copy, Debug, PartialEq, Eq, Structural)]
pub enum Fault {
    /// Its queues are too short.
    ShortQueues,
    NotDisabled,
    NoMemory,
    NotReady,
    IdentifyFailed,
    NoNamespaces,
    QueueCountFailed,
    CompletionQueueFailed,
    SubmissionQueueFailed,
    /// No active namespace has 512-byte blocks without metadata.
    NoUsableNamespace,
}

/// How far apart the doorbells are, from what a controller says of itself. The number
/// of entries it has room for is one less than the queue may have.
pub fn doorbell_stride(cap: u64) -> (r: Result<usize, Fault>)
    requires
        cap % 0x1_0000 != 0xffff,
    ensures
        r == if cap % 0x1_0000 + 1 < QSIZE {
            Err::<usize, Fault>(Fault::ShortQueues)
        } else {
            Ok(
                (4 * vstd::arithmetic::power2::pow2(
                    (cap / 0x1_0000_0000 % 16) as nat,
                )) as usize,
            )
        },
{
    if cap % 0x1_0000 + 1 < QSIZE as u64 {
        return Err(Fault::ShortQueues);
    }
    let n: u64 = cap / 0x1_0000_0000 % 16;
    let mut stride: usize = 4;
    let mut i: u64 = 0;
    proof {
        vstd::arithmetic::power2::lemma2_to64();
    }
    while i < n
        invariant
            i <= n < 16,
            stride == 4 * vstd::arithmetic::power2::pow2(i as nat),
            stride <= 4 * 0x1_0000,
        decreases n - i,
    {
        proof {
            vstd::arithmetic::power2::lemma_pow2_unfold((i + 1) as nat);
            vstd::arithmetic::power2::lemma2_to64();
            vstd::arithmetic::power2::lemma_pow2_strictly_increases((i + 1) as nat, 16);
        }
        stride = stride * 2;
        i += 1;
    }
    Ok(stride)
}

/// The number of 512-byte blocks of a namespace, if it has any and its blocks are of
/// that size and without metadata.
pub open spec fn capacity_of(raw: Seq<u8>) -> Option<u64> {
    let format = 128 + raw[26] % 16 * 4;
    if le64(raw, 0) > 0 && raw[format + 2] == 9 && le16(raw, format) == 0 {
        Some(le64(raw, 0) as u64)
    } else {
        None
    }
}

pub fn usable_capacity(raw: &[u8]) -> (r: Option<u64>)
    requires
        raw@.len() == 4096,
    ensures
        r == capacity_of(raw@),
{
    let capacity: u64 = u64le(raw, 0);
    let format: usize = 128 + (raw[26] % 16) as usize * 4;
    if capacity > 0 && raw[format + 2] == 9 && u16le(raw, format) == 0 {
        Some(capacity)
    } else {
        None
    }
}

/// What is wanted next.
#[derive(Clone, Copy, Debug, PartialEq, Eq, Structural)]
pub enum Ask {
    /// Clear the enable bit and wait until the controller is not ready.
    Disable,
    /// A page of memory, all zero.
    Page,
    /// Tell the controller of its admin queues, enable it, and wait until it is ready.
    Enable { queue_sizes: u32, submission: u64, completion: u64, configuration: u32 },
    /// A command for the admin queue.
    Submit(Entry),
    /// The controller is in use, with its I/O queues and the memory for a block.
    Finished { submission: u64, completion: u64, data: u64 },
    Failed(Fault),
}

/// What came of it.
pub enum Answer {
    /// Whether the controller came to be so.
    Ready(bool),
    /// The page, if there was one.
    Page(Option<u64>),
    /// Whether the command succeeded, and what its page then held.
    Completed(Option<Vec<u8>>),
}

impl Answer {
    pub open spec fn page(self) -> Option<u64> {
        match self {
            Answer::Page(p) => p,
            _ => None,
        }
    }

    pub open spec fn is_ready(self) -> bool {
        self == Answer::Ready(true)
    }

    pub open spec fn is_done(self) -> bool {
        self matches Answer::Completed(r) && r is Some
    }

    /// What a whole page held when the command had succeeded.
    pub open spec fn data(self) -> Option<Seq<u8>> {
        match self {
            Answer::Completed(Some(v)) => if v@.len() == 4096 {
                Some(v@)
            } else {
                None
            },
            _ => None,
        }
    }

    fn get_page(&self) -> (r: Option<u64>)
        ensures
            r == self.page(),
    {
        match self {
            Answer::Page(p) => *p,
            _ => None,
        }
    }

    fn get_ready(&self) -> (r: bool)
        ensures
            r == self.is_ready(),
    {
        match self {
            Answer::Ready(b) => *b,
            _ => false,
        }
    }

    fn get_done(&self) -> (r: bool)
        ensures
            r == self.is_done(),
    {
        match self {
            Answer::Completed(Some(_)) => true,
            _ => false,
        }
    }

    fn get_data(&self) -> (r: Option<&Vec<u8>>)
        ensures
            match r {
                Some(v) => self.data() == Some(v@),
                None => self.data() is None,
            },
    {
        match self {
            Answer::Completed(Some(v)) => if v.len() == 4096 {
                Some(v)
            } else {
                None
            },
            _ => None,
        }
    }
}

/// What is being waited for, with what is known by then.
#[derive(Clone, Copy, Debug, PartialEq, Eq, Structural)]
pub enum Stage {
    Disabling,
    AdminSubmission,
    AdminCompletion { submission: u64 },
    AdminData { submission: u64, completion: u64 },
    Enabling { data: u64 },
    Identifying,
    Counting { namespaces: u32 },
    IoSubmission { namespaces: u32 },
    IoCompletion { namespaces: u32, submission: u64 },
    MakingCompletion { namespaces: u32, submission: u64, completion: u64 },
    MakingSubmission { namespaces: u32, submission: u64, completion: u64 },
    NamespacePage { namespaces: u32, submission: u64, completion: u64 },
    Namespace { namespaces: u32, submission: u64, completion: u64, page: u64, nsid: u32 },
    BlockPage { submission: u64, completion: u64 },
    Over,
}

/// Identify the controller, or a namespace of it.
pub open spec fn identify(nsid: u32, page: u64) -> Entry {
    Entry {
        opcode: 6,
        nsid,
        prp1: page,
        cdw10: if nsid == 0 {
            1
        } else {
            0
        },
        cdw11: 0,
    }
}

/// Ask for one pair of I/O queues.
pub open spec fn set_queue_count() -> Entry {
    Entry { opcode: 9, nsid: 0, prp1: 0, cdw10: 7, cdw11: 0 }
}

/// Make an I/O queue: its number and its size, one less, in one word.
pub open spec fn create_queue(opcode: u8, page: u64) -> Entry {
    Entry {
        opcode,
        nsid: 0,
        prp1: page,
        cdw10: 0x000f_0001,
        cdw11: if opcode == 1 {
            0x0001_0001
        } else {
            1
        },
    }
}

/// Read one block.
pub open spec fn read_block(nsid: u32, lba: u64, page: u64) -> Entry {
    Entry {
        opcode: 2,
        nsid,
        prp1: page,
        cdw10: (lba % 0x1_0000_0000) as u32,
        cdw11: (lba / 0x1_0000_0000) as u32,
    }
}

pub fn read_entry(nsid: u32, lba: u64, page: u64) -> (r: Entry)
    ensures
        r == read_block(nsid, lba, page),
{
    Entry {
        opcode: 2,
        nsid,
        prp1: page,
        cdw10: (lba % 0x1_0000_0000) as u32,
        cdw11: (lba / 0x1_0000_0000) as u32,
    }
}

/// What a read of a sector comes to; `submit` sends a command and hands back the sector
/// that it fetched, if that went well.
pub fn read_sector<F: FnOnce(Entry) -> Option<[u8; SECTOR_SIZE]>>(
    submit: F,
    nsid: u32,
    sectors: u64,
    page: u64,
    lba: u64,
    out: &mut [u8; SECTOR_SIZE],
) -> (r: Result<(), BlockError>)
    requires
        submit.requires((read_block(nsid, lba, page),)),
    ensures
        lba >= sectors ==> r == Err::<(), BlockError>(BlockError::OutOfRange),
        lba < sectors ==> exists|a: Option<[u8; SECTOR_SIZE]>|
            {
                &&& #[trigger] submit.ensures((read_block(nsid, lba, page),), a)
                &&& match a {
                    Some(data) => r is Ok && final(out)@ == data@,
                    None => r == Err::<(), BlockError>(BlockError::BadBuffer),
                }
            },
        r is Err ==> *final(out) == *old(out),
{
    if lba >= sectors {
        return Err(BlockError::OutOfRange);
    }
    let entry: Entry = read_entry(nsid, lba, page);
    let fetched: Option<[u8; SECTOR_SIZE]> = submit(entry);
    assert(submit.ensures((read_block(nsid, lba, page),), fetched));
    match fetched {
        Some(data) => {
            *out = data;
            Ok(())
        },
        None => Err(BlockError::BadBuffer),
    }
}

/// Where waiting for a controller to be ready, or not to be any more, stands: over,
/// because it is so or because the time is up, or not.
pub fn wait_ready(status: u32, want: bool, waited_ms: u64) -> (r: Option<bool>)
    ensures
        r == if (status % 2 == 1) == want {
            Some(true)
        } else if waited_ms > TIMEOUT_MS {
            Some(false)
        } else {
            None
        },
{
    if (status % 2 == 1) == want {
        Some(true)
    } else if waited_ms > TIMEOUT_MS {
        Some(false)
    } else {
        None
    }
}

/// Giving up.
pub open spec fn failed(found: Seq<(u32, u64)>, f: Fault) -> (Stage, Seq<(u32, u64)>, Ask) {
    (Stage::Over, found, Ask::Failed(f))
}

/// The namespaces that are looked at.
pub open spec fn looked_at(namespaces: u32) -> u32 {
    if namespaces < MAX_NAMESPACES {
        namespaces
    } else {
        MAX_NAMESPACES
    }
}

/// The steps up to the point where the controller has said how many namespaces it has.
pub open spec fn next_admin(s: Stage, found: Seq<(u32, u64)>, a: Answer) -> (
    Stage,
    Seq<(u32, u64)>,
    Ask,
) {
    match s {
        Stage::Disabling => if a.is_ready() {
            (Stage::AdminSubmission, found, Ask::Page)
        } else {
            failed(found, Fault::NotDisabled)
        },
        Stage::AdminSubmission => match a.page() {
            Some(submission) => (Stage::AdminCompletion { submission }, found, Ask::Page),
            None => failed(found, Fault::NoMemory),
        },
        Stage::AdminCompletion { submission } => match a.page() {
            Some(completion) => (Stage::AdminData { submission, completion }, found, Ask::Page),
            None => failed(found, Fault::NoMemory),
        },
        Stage::AdminData { submission, completion } => match a.page() {
            Some(data) => (
                Stage::Enabling { data },
                found,
                Ask::Enable {
                    queue_sizes: 0x000f_000f,
                    submission,
                    completion,
                    configuration: 0x0046_0001,
                },
            ),
            None => failed(found, Fault::NoMemory),
        },
        Stage::Enabling { data } => if a.is_ready() {
            (Stage::Identifying, found, Ask::Submit(identify(0, data)))
        } else {
            failed(found, Fault::NotReady)
        },
        _ => match a.data() {
            Some(d) => if le32(d, 516) == 0 {
                failed(found, Fault::NoNamespaces)
            } else {
                (
                    Stage::Counting { namespaces: le32(d, 516) as u32 },
                    found,
                    Ask::Submit(set_queue_count()),
                )
            },
            None => failed(found, Fault::IdentifyFailed),
        },
    }
}

/// The steps that make the I/O queues.
pub open spec fn next_queue(s: Stage, found: Seq<(u32, u64)>, a: Answer) -> (
    Stage,
    Seq<(u32, u64)>,
    Ask,
) {
    match s {
        Stage::Counting { namespaces } => if a.is_done() {
            (Stage::IoSubmission { namespaces }, found, Ask::Page)
        } else {
            failed(found, Fault::QueueCountFailed)
        },
        Stage::IoSubmission { namespaces } => match a.page() {
            Some(submission) => (
                Stage::IoCompletion { namespaces, submission },
                found,
                Ask::Page,
            ),
            None => failed(found, Fault::NoMemory),
        },
        Stage::IoCompletion { namespaces, submission } => match a.page() {
            Some(completion) => (
                Stage::MakingCompletion { namespaces, submission, completion },
                found,
                Ask::Submit(create_queue(5, completion)),
            ),
            None => failed(found, Fault::NoMemory),
        },
        Stage::MakingCompletion { namespaces, submission, completion } => if a.is_done() {
            (
                Stage::MakingSubmission { namespaces, submission, completion },
                found,
                Ask::Submit(create_queue(1, submission)),
            )
        } else {
            failed(found, Fault::CompletionQueueFailed)
        },
        Stage::MakingSubmission { namespaces, submission, completion } => if a.is_done() {
            (Stage::NamespacePage { namespaces, submission, completion }, found, Ask::Page)
        } else {
            failed(found, Fault::SubmissionQueueFailed)
        },
        _ => failed(found, Fault::NoMemory),
    }
}

/// The namespaces with one more, where its blocks can be used.
pub open spec fn with_namespace(found: Seq<(u32, u64)>, nsid: u32, a: Answer) -> Seq<(u32, u64)> {
    match a.data() {
        Some(d) => match capacity_of(d) {
            Some(capacity) => found.push((nsid, capacity)),
            None => found,
        },
        None => found,
    }
}

/// The steps that look for namespaces.
pub open spec fn next_namespace(s: Stage, found: Seq<(u32, u64)>, a: Answer) -> (
    Stage,
    Seq<(u32, u64)>,
    Ask,
) {
    match s {
        Stage::NamespacePage { namespaces, submission, completion } => match a.page() {
            Some(page) => (
                Stage::Namespace { namespaces, submission, completion, page, nsid: 1 },
                found,
                Ask::Submit(identify(1, page)),
            ),
            None => failed(found, Fault::NoMemory),
        },
        Stage::Namespace { namespaces, submission, completion, page, nsid } => {
            let all = with_namespace(found, nsid, a);
            if nsid < looked_at(namespaces) {
                (
                    Stage::Namespace {
                        namespaces,
                        submission,
                        completion,
                        page,
                        nsid: (nsid + 1) as u32,
                    },
                    all,
                    Ask::Submit(identify((nsid + 1) as u32, page)),
                )
            } else if all.len() == 0 {
                failed(all, Fault::NoUsableNamespace)
            } else {
                (Stage::BlockPage { submission, completion }, all, Ask::Page)
            }
        },
        Stage::BlockPage { submission, completion } => match a.page() {
            Some(data) => (Stage::Over, found, Ask::Finished { submission, completion, data }),
            None => failed(found, Fault::NoMemory),
        },
        _ => failed(found, Fault::NoMemory),
    }
}

/// What comes next.
pub open spec fn next(s: Stage, found: Seq<(u32, u64)>, a: Answer) -> (Stage, Seq<(u32, u64)>, Ask) {
    match s {
        Stage::Disabling
        | Stage::AdminSubmission
        | Stage::AdminCompletion { .. }
        | Stage::AdminData { .. }
        | Stage::Enabling { .. }
        | Stage::Identifying => next_admin(s, found, a),
        Stage::Counting { .. }
        | Stage::IoSubmission { .. }
        | Stage::IoCompletion { .. }
        | Stage::MakingCompletion { .. }
        | Stage::MakingSubmission { .. } => next_queue(s, found, a),
        _ => next_namespace(s, found, a),
    }
}

/// A controller on its way up.
pub struct Setup {
    pub stage: Stage,
    /// Each usable namespace so far, with its number of blocks.
    pub found: Vec<(u32, u64)>,
}

impl Setup {
    pub fn new() -> (r: (Setup, Ask))
        ensures
            r.0.stage == Stage::Disabling,
            r.0.found@.len() == 0,
            r.1 == Ask::Disable,
    {
        (Setup { stage: Stage::Disabling, found: Vec::new() }, Ask::Disable)
    }

    fn fail(&mut self, f: Fault) -> (r: Ask)
        ensures
            (final(self).stage, final(self).found@, r) == failed(old(self).found@, f),
    {
        self.stage = Stage::Over;
        Ask::Failed(f)
    }

    fn go(&mut self, stage: Stage, ask: Ask) -> (r: Ask)
        ensures
            (final(self).stage, final(self).found@, r) == (stage, old(self).found@, ask),
    {
        self.stage = stage;
        ask
    }

    fn step_admin(&mut self, a: &Answer) -> (r: Ask)
        ensures
            (final(self).stage, final(self).found@, r) == next_admin(
                old(self).stage,
                old(self).found@,
                *a,
            ),
    {
        match self.stage {
            Stage::Disabling => if a.get_ready() {
                self.go(Stage::AdminSubmission, Ask::Page)
            } else {
                self.fail(Fault::NotDisabled)
            },
            Stage::AdminSubmission => match a.get_page() {
                Some(submission) => self.go(Stage::AdminCompletion { submission }, Ask::Page),
                None => self.fail(Fault::NoMemory),
            },
            Stage::AdminCompletion { submission } => match a.get_page() {
                Some(completion) => self.go(
                    Stage::AdminData { submission, completion },
                    Ask::Page,
                ),
                None => self.fail(Fault::NoMemory),
            },
            Stage::AdminData { submission, completion } => match a.get_page() {
                Some(data) => self.go(
                    Stage::Enabling { data },
                    Ask::Enable {
                        queue_sizes: 0x000f_000f,
                        submission,
                        completion,
                        configuration: 0x0046_0001,
                    },
                ),
                None => self.fail(Fault::NoMemory),
            },
            Stage::Enabling { data } => if a.get_ready() {
                self.go(
                    Stage::Identifying,
                    Ask::Submit(Entry { opcode: 6, nsid: 0, prp1: data, cdw10: 1, cdw11: 0 }),
                )
            } else {
                self.fail(Fault::NotReady)
            },
            _ => match a.get_data() {
                Some(d) => {
                    let namespaces: u32 = u32le(d.as_slice(), 516);
                    if namespaces == 0 {
                        self.fail(Fault::NoNamespaces)
                    } else {
                        self.go(
                            Stage::Counting { namespaces },
                            Ask::Submit(
                                Entry { opcode: 9, nsid: 0, prp1: 0, cdw10: 7, cdw11: 0 },
                            ),
                        )
                    }
                },
                None => self.fail(Fault::IdentifyFailed),
            },
        }
    }

    fn step_queue(&mut self, a: &Answer) -> (r: Ask)
        ensures
            (final(self).stage, final(self).found@, r) == next_queue(
                old(self).stage,
                old(self).found@,
                *a,
            ),
    {
        match self.stage {
            Stage::Counting { namespaces } => if a.get_done() {
                self.go(Stage::IoSubmission { namespaces }, Ask::Page)
            } else {
                self.fail(Fault::QueueCountFailed)
            },
            Stage::IoSubmission { namespaces } => match a.get_page() {
                Some(submission) => self.go(
                    Stage::IoCompletion { namespaces, submission },
                    Ask::Page,
                ),
                None => self.fail(Fault::NoMemory),
            },
            Stage::IoCompletion { namespaces, submission } => match a.get_page() {
                Some(completion) => self.go(
                    Stage::MakingCompletion { namespaces, submission, completion },
                    Ask::Submit(
                        Entry {
                            opcode: 5,
                            nsid: 0,
                            prp1: completion,
                            cdw10: 0x000f_0001,
                            cdw11: 1,
                        },
                    ),
                ),
                None => self.fail(Fault::NoMemory),
            },
            Stage::MakingCompletion { namespaces, submission, completion } => if a.get_done() {
                self.go(
                    Stage::MakingSubmission { namespaces, submission, completion },
                    Ask::Submit(
                        Entry {
                            opcode: 1,
                            nsid: 0,
                            prp1: submission,
                            cdw10: 0x000f_0001,
                            cdw11: 0x0001_0001,
                        },
                    ),
                )
            } else {
                self.fail(Fault::CompletionQueueFailed)
            },
            Stage::MakingSubmission { namespaces, submission, completion } => if a.get_done() {
                self.go(Stage::NamespacePage { namespaces, submission, completion }, Ask::Page)
            } else {
                self.fail(Fault::SubmissionQueueFailed)
            },
            _ => self.fail(Fault::NoMemory),
        }
    }

    fn step_namespace(&mut self, a: &Answer) -> (r: Ask)
        ensures
            (final(self).stage, final(self).found@, r) == next_namespace(
                old(self).stage,
                old(self).found@,
                *a,
            ),
    {
        match self.stage {
            Stage::NamespacePage { namespaces, submission, completion } => match a.get_page() {
                Some(page) => self.go(
                    Stage::Namespace { namespaces, submission, completion, page, nsid: 1 },
                    Ask::Submit(Entry { opcode: 6, nsid: 1, prp1: page, cdw10: 0, cdw11: 0 }),
                ),
                None => self.fail(Fault::NoMemory),
            },
            Stage::Namespace { namespaces, submission, completion, page, nsid } => {
                match a.get_data() {
                    Some(d) => {
                        match usable_capacity(d.as_slice()) {
                            Some(capacity) => {
                                self.found.push((nsid, capacity));
                            },
                            None => {},
                        }
                    },
                    None => {},
                }
                let last: u32 = if namespaces < MAX_NAMESPACES {
                    namespaces
                } else {
                    MAX_NAMESPACES
                };
                if nsid < last {
                    self.go(
                        Stage::Namespace {
                            namespaces,
                            submission,
                            completion,
                            page,
                            nsid: nsid + 1,
                        },
                        Ask::Submit(
                            Entry { opcode: 6, nsid: nsid + 1, prp1: page, cdw10: 0, cdw11: 0 },
                        ),
                    )
                } else if self.found.len() == 0 {
                    self.fail(Fault::NoUsableNamespace)
                } else {
                    self.go(Stage::BlockPage { submission, completion }, Ask::Page)
                }
            },
            Stage::BlockPage { submission, completion } => match a.get_page() {
                Some(data) => self.go(
                    Stage::Over,
                    Ask::Finished { submission, completion, data },
                ),
                None => self.fail(Fault::NoMemory),
            },
            _ => self.fail(Fault::NoMemory),
        }
    }

    /// Take what came of what was asked, and ask for the next thing.
    pub fn controller(&mut self, a: &Answer) -> (r: Ask)
        ensures
            (final(self).stage, final(self).found@, r) == next(
                old(self).stage,
                old(self).found@,
                *a,
            ),
    {
        match self.stage {
            Stage::Disabling
            | Stage::AdminSubmission
            | Stage::AdminCompletion { .. }
            | Stage::AdminData { .. }
            | Stage::Enabling { .. }
            | Stage::Identifying => self.step_admin(a),
            Stage::Counting { .. }
            | Stage::IoSubmission { .. }
            | Stage::IoCompletion { .. }
            | Stage::MakingCompletion { .. }
            | Stage::MakingSubmission { .. } => self.step_queue(a),
            _ => self.step_namespace(a),
        }
    }
}

/// How many steps are left at most.
pub open spec fn steps_left(s: Stage) -> int {
    match s {
        Stage::Disabling => 46,
        Stage::AdminSubmission => 45,
        Stage::AdminCompletion { .. } => 44,
        Stage::AdminData { .. } => 43,
        Stage::Enabling { .. } => 42,
        Stage::Identifying => 41,
        Stage::Counting { .. } => 40,
        Stage::IoSubmission { .. } => 39,
        Stage::IoCompletion { .. } => 38,
        Stage::MakingCompletion { .. } => 37,
        Stage::MakingSubmission { .. } => 36,
        Stage::NamespacePage { .. } => 35,
        Stage::Namespace { nsid, .. } => if nsid < 33 {
            35 - nsid
        } else {
            2
        },
        Stage::BlockPage { .. } => 1,
        Stage::Over => 0,
    }
}

/// Bringing a controller up comes to an end, whatever it answers, and it is not said
/// to be in use without a usable namespace.
pub proof fn law_setup_ends(s: Stage, found: Seq<(u32, u64)>, a: Answer)
    requires
        s is BlockPage ==> found.len() > 0,
    ensures
        s is Over || steps_left(next(s, found, a).0) < steps_left(s),
        next(s, found, a).0 is Over <==> (next(s, found, a).2 is Failed || next(
            s,
            found,
            a,
        ).2 is Finished),
        next(s, found, a).2 is Finished ==> next(s, found, a).1.len() > 0,
        next(s, found, a).0 is BlockPage ==> next(s, found, a).1.len() > 0,
{
}

/// A disk: its name, which controller it is on, which namespace it is, and its size.
pub struct Disk {
    pub name: String,
    pub controller: usize,
    pub nsid: u32,
    pub sectors: u64,
}

/// The name of a namespace of a controller.
pub open spec fn disk_name(id: nat, nsid: u32) -> Seq<char> {
    "nvme"@ + decimal(id) + "n"@ + decimal(nsid as nat)
}

/// What a disk is, in plain values.
pub open spec fn disk_views(d: Seq<Disk>) -> Seq<(Seq<char>, usize, u32, u64)> {
    d.map_values(|x: Disk| (x.name@, x.controller, x.nsid, x.sectors))
}

/// The disks on one controller.
pub open spec fn disks_on(id: nat, controller: usize, found: Seq<(u32, u64)>) -> Seq<
    (Seq<char>, usize, u32, u64),
> {
    found.map_values(|n: (u32, u64)| (disk_name(id, n.0), controller, n.0, n.1))
}

/// How many of the first controllers came up.
pub open spec fn usable(up: Seq<Option<Vec<(u32, u64)>>>, n: int) -> nat
    decreases n,
{
    if n <= 0 {
        0
    } else {
        usable(up, n - 1) + if up[n - 1] is Some {
            1nat
        } else {
            0
        }
    }
}

/// The disks on the first controllers; those that did not come up get no number.
pub open spec fn all_disks(up: Seq<Option<Vec<(u32, u64)>>>, n: int) -> Seq<
    (Seq<char>, usize, u32, u64),
>
    decreases n,
{
    if n <= 0 {
        Seq::empty()
    } else {
        match up[n - 1] {
            Some(found) => all_disks(up, n - 1) + disks_on(
                usable(up, n - 1),
                (n - 1) as usize,
                found@,
            ),
            None => all_disks(up, n - 1),
        }
    }
}

/// Name the disks: for each controller the namespaces that it came up with, if it did.
pub fn init(up: &Vec<Option<Vec<(u32, u64)>>>) -> (r: Vec<Disk>)
    ensures
        disk_views(r@) == all_disks(up@, up@.len() as int),
{
    let mut r: Vec<Disk> = Vec::new();
    let mut id: u64 = 0;
    let mut i: usize = 0;
    assert(disk_views(r@) =~= all_disks(up@, 0));
    while i < up.len()
        invariant
            i <= up@.len(),
            id <= i,
            id == usable(up@, i as int),
            disk_views(r@) == all_disks(up@, i as int),
        decreases up@.len() - i,
    {
        match &up[i] {
            Some(found) => {
                let ghost before = disk_views(r@);
                let mut k: usize = 0;
                assert(before =~= before + disks_on(id as nat, i, found@.take(0)));
                while k < found.len()
                    invariant
                        k <= found@.len(),
                        disk_views(r@) == before + disks_on(id as nat, i, found@.take(k as int)),
                    decreases found@.len() - k,
                {
                    let (nsid, sectors): (u32, u64) = found[k];
                    let mut name: String = String::new();
                    push_text(&mut name, "nvme");
                    push_decimal(&mut name, id);
                    push_text(&mut name, "n");
                    push_decimal(&mut name, nsid as u64);
                    assert(name@ =~= disk_name(id as nat, nsid));
                    let ghost start = r@;
                    r.push(Disk { name, controller: i, nsid, sectors });
                    k += 1;
                    assert(found@.take(k as int) =~= found@.take(k - 1).push(found@[k - 1]));
                    let ghost one = (disk_name(id as nat, nsid), i, nsid, sectors);
                    assert(disk_views(r@) =~= disk_views(start).push(one));
                    assert(disks_on(id as nat, i, found@.take(k as int)) =~= disks_on(
                        id as nat,
                        i,
                        found@.take(k - 1),
                    ).push(one));
                    assert(disk_views(r@) =~= before + disks_on(
                        id as nat,
                        i,
                        found@.take(k as int),
                    ));
                }
                assert(found@.take(k as int) =~= found@);
                id += 1;
            },
            None => {},
        }
        i += 1;
    }
    r
}

} // verus!
