//! The open files of processes.

use vstd::prelude::*;

verus! {

pub struct OpenFile {
    pub pid: u64,
    pub fd: u64,
    pub path: String,
    pub offset: usize,
}

/// The open files of all processes.
pub struct OpenFiles {
    pub files: Vec<OpenFile>,
}

/// An open file, as a mathematical value.
pub struct Open {
    pub pid: u64,
    pub fd: u64,
    pub path: Seq<char>,
    pub offset: int,
}

pub open spec fn open_of(f: OpenFile) -> Open {
    Open { pid: f.pid, fd: f.fd, path: f.path@, offset: f.offset as int }
}

/// The lowest number for a file of a process: those below it are its input and
/// outputs.
pub const FIRST_FD: u64 = 3;

/// Whether a process has a number in use.
pub open spec fn is_open(f: Seq<Open>, pid: u64, fd: u64) -> bool {
    exists|i: int| 0 <= i < f.len() && (#[trigger] f[i]).pid == pid && f[i].fd == fd
}

/// Where an open file stands, from place `i` on.
pub open spec fn place_of(f: Seq<Open>, pid: u64, fd: u64, i: int) -> Option<int>
    decreases f.len() - i,
{
    if i < 0 || i >= f.len() {
        None
    } else if f[i].pid == pid && f[i].fd == fd {
        Some(i)
    } else {
        place_of(f, pid, fd, i + 1)
    }
}

proof fn lemma_place(f: Seq<Open>, pid: u64, fd: u64, i: int)
    requires
        0 <= i <= f.len(),
    ensures
        match place_of(f, pid, fd, i) {
            Some(k) => i <= k < f.len() && f[k].pid == pid && f[k].fd == fd,
            None => forall|k: int|
                i <= k < f.len() ==> !((#[trigger] f[k]).pid == pid && f[k].fd == fd),
        },
    decreases f.len() - i,
{
    if i < f.len() && !(f[i].pid == pid && f[i].fd == fd) {
        lemma_place(f, pid, fd, i + 1);
    }
}

impl OpenFiles {
    pub open spec fn view(self) -> Seq<Open> {
        Seq::new(self.files@.len(), |i: int| open_of(self.files@[i]))
    }

    /// No process has a number in use twice, nor one below the first.
    pub open spec fn wf(self) -> bool {
        &&& forall|i: int, j: int|
            0 <= i < j < self@.len() ==> !((#[trigger] self@[i]).pid == (#[trigger] self@[j]).pid
                && self@[i].fd == self@[j].fd)
        &&& forall|i: int| 0 <= i < self@.len() ==> (#[trigger] self@[i]).fd >= FIRST_FD
    }

    pub fn new() -> (r: Self)
        ensures
            r@ == Seq::<Open>::empty(),
            r.wf(),
    {
        let r: OpenFiles = OpenFiles { files: Vec::new() };
        assert(r@ =~= Seq::<Open>::empty());
        r
    }

    /// Find an open file.
    pub fn find(&self, pid: u64, fd: u64) -> (r: Option<usize>)
        ensures
            match r {
                Some(i) => {
                    &&& i < self.files@.len()
                    &&& self@[i as int].pid == pid
                    &&& self@[i as int].fd == fd
                    &&& place_of(self@, pid, fd, 0) == Some(i as int)
                    &&& is_open(self@, pid, fd)
                },
                None => !is_open(self@, pid, fd) && place_of(self@, pid, fd, 0) is None,
            },
    {
        let n: usize = self.files.len();
        let mut i: usize = 0;
        proof {
            lemma_place(self@, pid, fd, 0);
        }
        while i < n
            invariant
                i <= n,
                n == self.files@.len(),
                place_of(self@, pid, fd, 0) == place_of(self@, pid, fd, i as int),
                forall|k: int|
                    0 <= k < i ==> !((#[trigger] self@[k]).pid == pid && self@[k].fd == fd),
            decreases n - i,
        {
            if self.files[i].pid == pid && self.files[i].fd == fd {
                assert(self@[i as int].pid == pid);
                return Some(i);
            }
            i += 1;
        }
        None
    }
}

/// Drop a process's file descriptors as part of process teardown.
pub fn close_process_files(files: &mut OpenFiles, pid: u64)
    ensures
        final(files)@ == old(files)@.filter(|f: Open| f.pid != pid),
        old(files).wf() ==> final(files).wf(),
{
    let ghost keep = |f: Open| f.pid != pid;
    let ghost all = files@;
    let mut i: usize = 0;
    while i < files.files.len()
        invariant
            keep == (|f: Open| f.pid != pid),
            i <= files.files@.len(),
            files@.filter(keep) == all.filter(keep),
            forall|k: int| 0 <= k < i ==> (#[trigger] files@[k]).pid != pid,
            old(files).wf() ==> files.wf(),
        decreases files.files@.len() - i,
    {
        if files.files[i].pid == pid {
            let ghost before = files@;
            let _gone: OpenFile = files.files.remove(i);
            proof {
                lemma_filter_without(before, keep, i as int);
                assert(files@ =~= before.remove(i as int));
                assert forall|k: int| 0 <= k < i implies (#[trigger] files@[k]).pid != pid by {
                    assert(before[k].pid != pid);
                }
            }
        } else {
            i += 1;
        }
    }
    proof {
        lemma_filter_all(files@, keep);
    }
}

/// What is not kept may as well not be there.
proof fn lemma_filter_without(s: Seq<Open>, keep: spec_fn(Open) -> bool, i: int)
    requires
        0 <= i < s.len(),
        !keep(s[i]),
    ensures
        s.filter(keep) == s.remove(i).filter(keep),
{
    let a = s.take(i);
    let one = seq![s[i]];
    let b = s.skip(i + 1);
    assert(s =~= a + one + b);
    assert(s.remove(i) =~= a + b);
    Seq::filter_distributes_over_add(a + one, b, keep);
    Seq::filter_distributes_over_add(a, one, keep);
    Seq::filter_distributes_over_add(a, b, keep);
    reveal_with_fuel(Seq::filter, 2);
    assert(one.drop_last() =~= Seq::empty());
    assert(one.filter(keep) =~= Seq::empty());
    assert(a.filter(keep) + one.filter(keep) =~= a.filter(keep));
}

proof fn lemma_filter_all(s: Seq<Open>, keep: spec_fn(Open) -> bool)
    requires
        forall|i: int| 0 <= i < s.len() ==> keep(#[trigger] s[i]),
    ensures
        s.filter(keep) == s,
    decreases s.len(),
{
    reveal(Seq::filter);
    if s.len() > 0 {
        let front = s.drop_last();
        assert forall|i: int| 0 <= i < front.len() implies keep(#[trigger] front[i]) by {
            assert(front[i] == s[i]);
        }
        lemma_filter_all(front, keep);
        assert(keep(s[s.len() - 1]));
        assert(front.push(s.last()) =~= s);
    } else {
        assert(s.filter(keep) =~= s);
    }
}

} // verus!
