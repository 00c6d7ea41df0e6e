//! User processes.
//!
//! A process is one user address space plus one thread running in it. Its pid is
//! the id of its thread. Exit statuses are kept in a small table until somebody
//! collects them with `take_exit_status`.

use vstd::prelude::*;
use crate::elf::ElfError;
use crate::syscall::files::{close_process_files, OpenFiles};
use crate::text::{chars_of, push_text, string_of};

pub mod entry;
pub mod first;
pub mod program;
pub mod records;
pub mod stack;
pub mod trial;

pub use first::start_init;
pub use program::spawn;
pub use trial::self_test;

verus! {

pub struct Record {
    pub pid: u64,
    pub name: String,
    /// `None` while running, `Some(status)` once it has exited.
    pub status: Option<i64>,
}

/// Stable copy of one process record for user-facing inspection.
pub struct ProcessInfo {
    pub pid: u64,
    pub name: String,
    pub exit_status: Option<i64>,
}

pub struct ProcessTable {
    pub records: Vec<Record>,
}

/// What is known of a process.
pub struct Process {
    pub pid: u64,
    pub name: Seq<char>,
    pub status: Option<i64>,
}

#[derive(Clone, Copy, Debug, PartialEq, Eq, Structural)]
pub enum SpawnError {
    /// No such file in the initramfs.
    NotFound,
    /// The file isn't a loadable executable.
    Elf(ElfError),
    NoMemory,
    /// The scheduler had no thread (or kernel stack) to give.
    NoThread,
}

impl SpawnError {
    pub open spec fn text(self) -> Seq<char> {
        match self {
            SpawnError::NotFound => "file not found in the initramfs"@,
            SpawnError::Elf(e) => "cannot load executable: "@ + e.text(),
            SpawnError::NoMemory => "out of memory"@,
            SpawnError::NoThread => "no free thread slot"@,
        }
    }

    /// What an error reads as.
    pub fn message(self) -> (s: String)
        ensures
            s@ == self.text(),
    {
        let mut s: String = String::new();
        match self {
            SpawnError::NotFound => push_text(&mut s, "file not found in the initramfs"),
            SpawnError::Elf(e) => {
                push_text(&mut s, "cannot load executable: ");
                push_text(&mut s, e.as_str());
            },
            SpawnError::NoMemory => push_text(&mut s, "out of memory"),
            SpawnError::NoThread => push_text(&mut s, "no free thread slot"),
        }
        assert(s@ =~= self.text());
        s
    }
}

pub open spec fn process_of(r: Record) -> Process {
    Process { pid: r.pid, name: r.name@, status: r.status }
}

/// Where a process stands in a table, from place `i` on.
pub open spec fn place_of(t: Seq<Process>, pid: u64, i: int) -> Option<int>
    decreases t.len() - i,
{
    if i < 0 || i >= t.len() {
        None
    } else if t[i].pid == pid {
        Some(i)
    } else {
        place_of(t, pid, i + 1)
    }
}

/// Whether no process is in a table twice.
pub open spec fn are_distinct(t: Seq<Process>) -> bool {
    forall|i: int, j: int| 0 <= i < j < t.len() ==> (#[trigger] t[i]).pid != (#[trigger] t[j]).pid
}

/// The table after it is noted that a process runs a program. One that has run
/// and exited already only gets its name.
pub open spec fn registered(t: Seq<Process>, pid: u64, name: Seq<char>) -> Seq<Process> {
    match place_of(t, pid, 0) {
        Some(i) => t.update(i, Process { name, ..t[i] }),
        None => t.push(Process { pid, name, status: None }),
    }
}

/// The table after a process has ended.
pub open spec fn exited(t: Seq<Process>, pid: u64, code: i64) -> Seq<Process> {
    match place_of(t, pid, 0) {
        Some(i) => t.update(i, Process { status: Some(code), ..t[i] }),
        None => t.push(Process { pid, name: Seq::empty(), status: Some(code) }),
    }
}

/// The table after the status of a process has been collected, and that status.
pub open spec fn taken(t: Seq<Process>, pid: u64) -> (Seq<Process>, Option<i64>) {
    match place_of(t, pid, 0) {
        Some(i) => if t[i].status is Some {
            (t.update(i, t.last()).drop_last(), t[i].status)
        } else {
            (t, None)
        },
        None => (t, None),
    }
}

proof fn lemma_place(t: Seq<Process>, pid: u64, i: int)
    requires
        0 <= i <= t.len(),
    ensures
        match place_of(t, pid, i) {
            Some(k) => i <= k < t.len() && t[k].pid == pid,
            None => forall|k: int| i <= k < t.len() ==> (#[trigger] t[k]).pid != pid,
        },
    decreases t.len() - i,
{
    if i < t.len() && t[i].pid != pid {
        lemma_place(t, pid, i + 1);
    }
}

/// The status that a process ends with is the one that is collected, and it is
/// collected once.
pub proof fn law_status_is_collected_once(t: Seq<Process>, pid: u64, code: i64)
    requires
        are_distinct(t),
    ensures
        are_distinct(exited(t, pid, code)),
        taken(exited(t, pid, code), pid).1 == Some(code),
        are_distinct(taken(exited(t, pid, code), pid).0),
        taken(taken(exited(t, pid, code), pid).0, pid).1 is None,
{
    lemma_place(t, pid, 0);
    let u = exited(t, pid, code);
    assert(are_distinct(u)) by {
        assert forall|i: int, j: int| 0 <= i < j < u.len() implies (#[trigger] u[i]).pid != (
        #[trigger] u[j]).pid by {
            if i < t.len() && j < t.len() {
                assert(t[i].pid != t[j].pid);
            }
        }
    }
    lemma_place(u, pid, 0);
    match place_of(t, pid, 0) {
        Some(i) => {
            assert(u[i].pid == pid);
        },
        None => {
            assert(u[t.len() as int].pid == pid);
        },
    }
    let k = place_of(u, pid, 0)->0;
    let w = taken(u, pid).0;
    assert(u[k].status == Some(code));
    assert forall|i: int, j: int| 0 <= i < j < w.len() implies (#[trigger] w[i]).pid != (
    #[trigger] w[j]).pid by {
        assert(u[i].pid != u[j].pid);
        assert(u[i].pid != u.last().pid);
        assert(u[j].pid != u.last().pid);
    }
    assert forall|i: int| 0 <= i < w.len() implies (#[trigger] w[i]).pid != pid by {
        if i == k {
            assert(u[k].pid != u.last().pid);
        } else {
            if i < k {
                assert(u[i].pid != u[k].pid);
            } else {
                assert(u[k].pid != u[i].pid);
            }
        }
    }
    lemma_place(w, pid, 0);
}

impl ProcessTable {
    pub open spec fn view(self) -> Seq<Process> {
        Seq::new(self.records@.len(), |i: int| process_of(self.records@[i]))
    }

    pub open spec fn wf(self) -> bool {
        are_distinct(self@)
    }

    pub fn new() -> (r: Self)
        ensures
            r@ == Seq::<Process>::empty(),
            r.wf(),
    {
        let r: ProcessTable = ProcessTable { records: Vec::new() };
        assert(r@ =~= Seq::<Process>::empty());
        r
    }

    fn find(&self, pid: u64) -> (r: Option<usize>)
        ensures
            match r {
                Some(i) => i < self.records@.len() && place_of(self@, pid, 0) == Some(i as int),
                None => place_of(self@, pid, 0) is None,
            },
    {
        let n: usize = self.records.len();
        let mut i: usize = 0;
        while i < n
            invariant
                i <= n,
                n == self.records@.len(),
                place_of(self@, pid, 0) == place_of(self@, pid, i as int),
            decreases n - i,
        {
            if self.records[i].pid == pid {
                return Some(i);
            }
            i += 1;
        }
        None
    }
}

/// Note that `pid` is running `name`.
pub fn register(table: &mut ProcessTable, pid: u64, name: &str)
    requires
        old(table).wf(),
    ensures
        final(table).wf(),
        final(table)@ == registered(old(table)@, pid, name@),
{
    let ghost t = table@;
    proof {
        lemma_place(t, pid, 0);
    }
    let copy: String = string_of(chars_of(name).as_slice());
    match table.find(pid) {
        Some(i) => {
            let r: &mut Record = &mut table.records[i];
            r.name = copy;
        },
        None => {
            table.records.push(Record { pid, name: copy, status: None });
        },
    }
    proof {
        let u = registered(t, pid, name@);
        assert(table@ =~= u);
        assert forall|i: int, j: int| 0 <= i < j < u.len() implies (#[trigger] u[i]).pid != (
        #[trigger] u[j]).pid by {
            if i < t.len() && j < t.len() {
                assert(t[i].pid != t[j].pid);
            }
        }
    }
}

/// End the process `pid` with `code`: its files are closed and its status is
/// kept. The scheduler frees its address space once its thread is off the
/// processor for good. Returns the name of its program.
pub fn exit_current(table: &mut ProcessTable, files: &mut OpenFiles, pid: u64, code: i64) -> (r: String)
    requires
        old(table).wf(),
    ensures
        final(table).wf(),
        final(table)@ == exited(old(table)@, pid, code),
        final(files)@ == old(files)@.filter(|f: crate::syscall::files::Open| f.pid != pid),
        old(files).wf() ==> final(files).wf(),
        r@ == match place_of(old(table)@, pid, 0) {
            Some(i) => old(table)@[i].name,
            None => Seq::empty(),
        },
{
    let ghost t = table@;
    proof {
        lemma_place(t, pid, 0);
        law_status_is_collected_once(t, pid, code);
    }
    close_process_files(files, pid);
    match table.find(pid) {
        Some(i) => {
            let name: String = string_of(chars_of(table.records[i].name.as_str()).as_slice());
            let r: &mut Record = &mut table.records[i];
            r.status = Some(code);
            assert(table@ =~= exited(t, pid, code));
            name
        },
        None => {
            table.records.push(Record { pid, name: String::new(), status: Some(code) });
            assert(table@.last().name =~= Seq::empty());
            assert(table@ =~= exited(t, pid, code));
            let none: String = String::new();
            assert(none@ =~= Seq::empty());
            none
        },
    }
}

/// If `pid` has exited, forget it and return its exit status.
pub fn take_exit_status(table: &mut ProcessTable, pid: u64) -> (r: Option<i64>)
    requires
        old(table).wf(),
    ensures
        final(table).wf(),
        (final(table)@, r) == taken(old(table)@, pid),
{
    let ghost t = table@;
    proof {
        lemma_place(t, pid, 0);
    }
    match table.find(pid) {
        Some(i) => {
            let status: Option<i64> = table.records[i].status;
            if status.is_some() {
                let _gone: Record = table.records.swap_remove(i);
                proof {
                    let w = taken(t, pid).0;
                    assert(table@ =~= w);
                    assert forall|i: int, j: int| 0 <= i < j < w.len() implies (#[trigger] w[i]).pid
                        != (#[trigger] w[j]).pid by {
                        assert(t[i].pid != t[j].pid);
                        assert(t[i].pid != t.last().pid);
                        assert(t[j].pid != t.last().pid);
                    }
                }
            }
            status
        },
        None => None,
    }
}

/// Return a snapshot of the processes.
pub fn list(table: &ProcessTable) -> (r: Vec<ProcessInfo>)
    ensures
        r@.len() == table@.len(),
        forall|i: int|
            0 <= i < r@.len() ==> (#[trigger] r@[i]).pid == table@[i].pid && r@[i].name@
                == table@[i].name && r@[i].exit_status == table@[i].status,
{
    let n: usize = table.records.len();
    let mut out: Vec<ProcessInfo> = Vec::new();
    let mut i: usize = 0;
    while i < n
        invariant
            i <= n,
            n == table.records@.len(),
            out@.len() == i,
            forall|k: int|
                0 <= k < i ==> (#[trigger] out@[k]).pid == table@[k].pid && out@[k].name@
                    == table@[k].name && out@[k].exit_status == table@[k].status,
        decreases n - i,
    {
        let r: &Record = &table.records[i];
        out.push(
            ProcessInfo {
                pid: r.pid,
                name: string_of(chars_of(r.name.as_str()).as_slice()),
                exit_status: r.status,
            },
        );
        i += 1;
    }
    out
}

} // verus!
