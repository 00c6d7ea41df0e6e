//! The system calls that touch files and user memory.

use vstd::prelude::*;
use vstd::set_lib::{lemma_int_range, lemma_len_subset, set_int_range};
use vstd::utf8::{decode_utf8, encode_utf8, valid_utf8};
use super::files::{is_open, place_of, Open, OpenFile, OpenFiles, FIRST_FD};
use crate::block::BlockDevice;
use crate::bytes::{le32_bytes, u32_to_le};
use crate::pmm::PhysicalMemory;
use crate::process::{take_exit_status, taken, ProcessTable, SpawnError};
use crate::text::strict;
use crate::vfs::files::{may_fail, read_result, size_result, whole_result};
use crate::vfs::listing::{all_reliable, texts, walked};
use crate::vfs::{file_size, list_files, read_all, read_at, Vfs};
use crate::vmm::tables_in_memory;
use crate::vmm::user::{
    copy_from_user, copy_to_user, is_user_range, law_user_writes_leave_the_tables_alone,
    stays_in_user_memory, user_apart_from_tables, user_in_ram, user_walked, user_written,
};

verus! {

pub const EBADF: u64 = 9;

pub const EFAULT: u64 = 14;

pub const ENOENT: u64 = 2;

pub const ENOSYS: u64 = 38;

pub const ENAMETOOLONG: u64 = 36;

pub const ERANGE: u64 = 34;

pub const ESRCH: u64 = 3;

/// Longest run of bytes a single call will take; longer requests are cut short
/// (callers loop, exactly as with Linux).
pub const MAX_WRITE: usize = 4096;

/// Longest path or file name that calls accept.
pub const MAX_NAME: usize = 255;

/// A positive errno as the negative value a system call returns.
pub open spec fn error(e: u64) -> u64 {
    (0x1_0000_0000_0000_0000 - e) as u64
}

pub fn errno(e: u64) -> (r: u64)
    requires
        0 < e,
    ensures
        r == error(e),
{
    u64::MAX - e + 1
}

/// Whether a process's memory can be copied from and to.
pub open spec fn is_process(m: PhysicalMemory, root: u64) -> bool {
    &&& tables_in_memory(m.bytes@, root)
    &&& user_in_ram(m.bytes@, root)
    &&& user_apart_from_tables(m.bytes@, root)
}

/// The bytes that a process has at an address, where it may read them.
pub open spec fn user_bytes(m: Seq<u8>, root: u64, at: u64, n: int) -> Option<Seq<u8>> {
    if n == 0 {
        Some(Seq::empty())
    } else if is_user_range(m, root, at, n, false) {
        Some(
            Seq::new(
                n as nat,
                |i: int| m[user_walked(m, root, (at + i) as u64, false)->0 as int],
            ),
        )
    } else {
        None
    }
}

/// Whether a process may be given `n` bytes at an address.
pub open spec fn can_take(m: Seq<u8>, root: u64, at: u64, n: int) -> bool {
    n == 0 || is_user_range(m, root, at, n, true)
}

/// Whether memory is as it was but for bytes that a process was given.
pub open spec fn is_given(
    before: PhysicalMemory,
    after: PhysicalMemory,
    root: u64,
    at: u64,
    data: Seq<u8>,
) -> bool {
    &&& after.pmm == before.pmm
    &&& after.hhdm == before.hhdm
    &&& after.bytes@ == user_written(before.bytes@, root, at, data, data.len() as int)
}

/// The smaller of a length and the longest that a call takes.
pub open spec fn cut(len: u64) -> int {
    if len < MAX_WRITE {
        len as int
    } else {
        MAX_WRITE as int
    }
}

fn cut_len(len: u64) -> (r: usize)
    ensures
        r == cut(len),
{
    if len < MAX_WRITE as u64 {
        len as usize
    } else {
        MAX_WRITE
    }
}

/// Take bytes from a process.
fn take_in(mem: &PhysicalMemory, root: u64, at: u64, n: usize) -> (r: Option<Vec<u8>>)
    requires
        is_process(*mem, root),
    ensures
        match r {
            Some(v) => user_bytes(mem.bytes@, root, at, n as int) == Some(v@) && v@.len() == n,
            None => user_bytes(mem.bytes@, root, at, n as int) is None,
        },
{
    let mut data: Vec<u8> = vec![0u8; n];
    if !copy_from_user(mem, root, &mut data, at) {
        return None;
    }
    proof {
        if n == 0 {
            assert(data@ =~= Seq::empty());
        } else {
            assert(data@ =~= user_bytes(mem.bytes@, root, at, n as int)->0);
        }
    }
    Some(data)
}

/// The path that a process names, or the error for it.
pub open spec fn path_result(m: Seq<u8>, root: u64, at: u64, len: u64) -> Result<Seq<char>, u64> {
    if len > MAX_NAME {
        Err(ENAMETOOLONG)
    } else {
        match user_bytes(m, root, at, len as int) {
            None => Err(EFAULT),
            Some(b) => if valid_utf8(b) {
                Ok(decode_utf8(b))
            } else {
                Err(ENOENT)
            },
        }
    }
}

/// Take a path from a process.
pub fn take_path(mem: &PhysicalMemory, root: u64, at: u64, len: u64) -> (r: Result<String, u64>)
    requires
        is_process(*mem, root),
    ensures
        match r {
            Ok(p) => path_result(mem.bytes@, root, at, len) == Ok::<Seq<char>, u64>(p@),
            Err(e) => path_result(mem.bytes@, root, at, len) == Err::<Seq<char>, u64>(e) && e > 0,
        },
{
    if len > MAX_NAME as u64 {
        return Err(ENAMETOOLONG);
    }
    let bytes: Vec<u8> = match take_in(mem, root, at, len as usize) {
        Some(bytes) => bytes,
        None => {
            return Err(EFAULT);
        },
    };
    match strict(bytes.as_slice()) {
        Some(path) => Ok(path),
        None => Err(ENOENT),
    }
}

/// The lowest number, from `fd` on, that a process has not in use.
pub open spec fn is_lowest(f: Seq<Open>, pid: u64, fd: u64) -> bool {
    &&& fd >= FIRST_FD
    &&& !is_open(f, pid, fd)
    &&& forall|k: u64| FIRST_FD <= k < fd ==> #[trigger] is_open(f, pid, k)
}

/// A process has no more numbers in use than there are open files.
proof fn lemma_few_open(f: Seq<Open>, pid: u64, fd: u64)
    requires
        fd >= FIRST_FD,
        forall|k: u64| FIRST_FD <= k < fd ==> #[trigger] is_open(f, pid, k),
    ensures
        fd - FIRST_FD <= f.len(),
{
    let numbers = Seq::new(f.len(), |i: int| f[i].fd as int);
    let wanted = set_int_range(3, fd as int);
    lemma_int_range(3, fd as int);
    numbers.lemma_cardinality_of_set();
    assert(wanted.subset_of(numbers.to_set())) by {
        assert forall|x: int| wanted.contains(x) implies numbers.to_set().contains(x) by {
            assert(is_open(f, pid, x as u64));
            let i = choose|i: int| 0 <= i < f.len() && (#[trigger] f[i]).pid == pid && f[i].fd == x;
            assert(numbers[i] == x);
        }
    }
    vstd::seq_lib::seq_to_set_is_finite(numbers);
    lemma_len_subset(wanted, numbers.to_set());
}

fn lowest_fd(files: &OpenFiles, pid: u64) -> (fd: u64)
    requires
        files@.len() < u64::MAX - FIRST_FD,
    ensures
        is_lowest(files@, pid, fd),
{
    let n: usize = files.files.len();
    let mut fd: u64 = FIRST_FD;
    proof {
        lemma_few_open(files@, pid, fd);
    }
    while files.find(pid, fd).is_some()
        invariant
            n == files@.len(),
            n < u64::MAX - FIRST_FD,
            FIRST_FD <= fd,
            fd - FIRST_FD <= n,
            forall|k: u64| FIRST_FD <= k < fd ==> #[trigger] is_open(files@, pid, k),
        decreases n + 3 - fd,
    {
        proof {
            assert forall|k: u64| FIRST_FD <= k < fd + 1 implies #[trigger] is_open(files@, pid, k) by {}
            lemma_few_open(files@, pid, (fd + 1) as u64);
        }
        fd += 1;
    }
    fd
}

/// Whether opening the file at a path came to this.
pub open spec fn is_opened<D: BlockDevice>(
    before: Seq<Open>,
    after: Seq<Open>,
    v: Vfs<D>,
    pid: u64,
    path: Result<Seq<char>, u64>,
    r: u64,
) -> bool {
    match path {
        Err(e) => r == error(e) && after == before,
        Ok(path) => {
            ||| size_result(v, path) is Ok && is_lowest(before, pid, r) && after == before.push(
                Open { pid, fd: r, path, offset: 0 },
            )
            ||| (size_result(v, path) is Err || may_fail(v, path)) && r == error(ENOENT) && after
                == before
        },
    }
}

/// Open a file: its number, or an error.
pub fn sys_open<'a, D: BlockDevice>(
    files: &mut OpenFiles,
    vfs: &Vfs<'a, D>,
    mem: &PhysicalMemory,
    root: u64,
    pid: u64,
    path_ptr: u64,
    path_len: u64,
) -> (r: u64)
    requires
        is_process(*mem, root),
        vfs.wf(),
        old(files).wf(),
        old(files)@.len() < u64::MAX - FIRST_FD,
    ensures
        final(files).wf(),
        is_opened(
            old(files)@,
            final(files)@,
            *vfs,
            pid,
            path_result(mem.bytes@, root, path_ptr, path_len),
            r,
        ),
{
    let path: String = match take_path(mem, root, path_ptr, path_len) {
        Ok(path) => path,
        Err(e) => {
            return errno(e);
        },
    };
    if file_size(vfs, path.as_str()).is_err() {
        return errno(ENOENT);
    }
    let fd: u64 = lowest_fd(files, pid);
    let ghost before = files@;
    files.files.push(OpenFile { pid, fd, path, offset: 0 });
    proof {
        let after = before.push(Open { pid, fd, path: path@, offset: 0 });
        assert(files@ =~= after);
        assert forall|i: int, j: int| 0 <= i < j < after.len() implies !((#[trigger] after[i]).pid == (
        #[trigger] after[j]).pid && after[i].fd == after[j].fd) by {
            if j == before.len() {
                assert(after[i] == before[i]);
                if before[i].pid == pid && before[i].fd == fd {
                    assert(is_open(before, pid, fd));
                }
            } else {
                assert(after[i] == before[i] && after[j] == before[j]);
            }
        }
    }
    fd
}

/// Close a file.
pub fn sys_close(files: &mut OpenFiles, pid: u64, fd: u64) -> (r: u64)
    requires
        old(files).wf(),
    ensures
        final(files).wf(),
        match place_of(old(files)@, pid, fd, 0) {
            Some(i) => r == 0 && final(files)@ == old(files)@.update(
                i,
                old(files)@.last(),
            ).drop_last(),
            None => r == error(EBADF) && final(files)@ == old(files)@,
        },
{
    match files.find(pid, fd) {
        Some(i) => {
            let ghost before = files@;
            let _gone: OpenFile = files.files.swap_remove(i);
            proof {
                let after = before.update(i as int, before.last()).drop_last();
                assert(files@ =~= after);
                assert forall|a: int, b: int| 0 <= a < b < after.len() implies !((
                #[trigger] after[a]).pid == (#[trigger] after[b]).pid && after[a].fd == after[b].fd) by {
                    assert(!(before[a].pid == before[b].pid && before[a].fd == before[b].fd));
                    let l = before.len() - 1;
                    assert(!(before[a].pid == before[l].pid && before[a].fd == before[l].fd));
                    assert(!(before[b].pid == before[l].pid && before[b].fd == before[l].fd));
                }
                assert forall|a: int| 0 <= a < after.len() implies (#[trigger] after[a]).fd
                    >= FIRST_FD by {
                    assert(before[a].fd >= FIRST_FD);
                    assert(before[before.len() - 1].fd >= FIRST_FD);
                }
            }
            0
        },
        None => errno(EBADF),
    }
}

/// Whether reading from an open file, the files and memory before and after being
/// these, came to this.
pub open spec fn is_read<D: BlockDevice>(
    f: (Seq<Open>, Seq<Open>),
    m: (PhysicalMemory, PhysicalMemory),
    v: Vfs<D>,
    root: u64,
    file: (u64, u64),
    to: (u64, u64),
    r: u64,
) -> bool {
    match place_of(f.0, file.0, file.1, 0) {
        None => r == error(EBADF) && f.1 == f.0 && m.1 == m.0,
        Some(i) => {
            let o = f.0[i];
            match read_result(v, o.path, o.offset, cut(to.1)) {
                Err(_) => r == error(ENOENT) && f.1 == f.0 && m.1 == m.0,
                Ok(data) => {
                    let fits = can_take(m.0.bytes@, root, to.0, data.len() as int);
                    ||| may_fail(v, o.path) && r == error(ENOENT) && f.1 == f.0 && m.1 == m.0
                    ||| !fits && r == error(EFAULT) && f.1 == f.0
                    ||| fits && r == data.len() && is_given(m.0, m.1, root, to.0, data) && f.1
                        == f.0.update(i, Open { offset: o.offset + data.len(), ..o })
                },
            }
        },
    }
}

/// Read from an open file into a process's memory.
pub fn sys_read_fd<'a, D: BlockDevice>(
    files: &mut OpenFiles,
    vfs: &Vfs<'a, D>,
    mem: &mut PhysicalMemory,
    root: u64,
    pid: u64,
    fd: u64,
    buf: u64,
    len: u64,
) -> (r: u64)
    requires
        is_process(*old(mem), root),
        vfs.wf(),
        old(files).wf(),
    ensures
        final(files).wf(),
        is_read(
            (old(files)@, final(files)@),
            (*old(mem), *final(mem)),
            *vfs,
            root,
            (pid, fd),
            (buf, len),
            r,
        ),
        stays_in_user_memory(*old(mem), *final(mem), root),
        is_process(*final(mem), root),
{
    let i: usize = match files.find(pid, fd) {
        Some(i) => i,
        None => {
            return errno(EBADF);
        },
    };
    let n: usize = cut_len(len);
    let mut data: Vec<u8> = vec![0u8; n];
    let offset: usize = files.files[i].offset;
    let ghost f = files@[i as int];
    let read: usize = match read_at(vfs, files.files[i].path.as_str(), offset, &mut data) {
        Ok(read) => read,
        Err(_) => {
            return errno(ENOENT);
        },
    };
    let got: &[u8] = vstd::slice::slice_subrange(data.as_slice(), 0, read);
    assert(got@ =~= data@.take(read as int));
    let copied: bool = copy_to_user(mem, root, buf, got);
    proof {
        law_user_writes_leave_the_tables_alone(*old(mem), *mem, root);
    }
    if !copied {
        return errno(EFAULT);
    }
    let ghost before = files@;
    let file: &mut OpenFile = &mut files.files[i];
    file.offset = offset + read;
    proof {
        let after = before.update(i as int, Open { offset: offset + read, ..f });
        assert(files@ =~= after);
        assert forall|a: int, b: int| 0 <= a < b < after.len() implies !((#[trigger] after[a]).pid == (
        #[trigger] after[b]).pid && after[a].fd == after[b].fd) by {
            assert(!(before[a].pid == before[b].pid && before[a].fd == before[b].fd));
        }
        assert forall|a: int| 0 <= a < after.len() implies (#[trigger] after[a]).fd >= FIRST_FD by {
            assert(before[a].fd >= FIRST_FD);
        }
    }
    read as u64
}

/// Hand a line of input to a process: its length, or an error.
pub fn give_line(mem: &mut PhysicalMemory, root: u64, buf: u64, line: &[u8]) -> (r: u64)
    requires
        is_process(*old(mem), root),
        line@.len() <= MAX_WRITE,
    ensures
        can_take(old(mem).bytes@, root, buf, line@.len() as int) ==> r == line@.len() && is_given(
            *old(mem),
            *final(mem),
            root,
            buf,
            line@,
        ),
        !can_take(old(mem).bytes@, root, buf, line@.len() as int) ==> r == error(EFAULT),
        stays_in_user_memory(*old(mem), *final(mem), root),
        is_process(*final(mem), root),
{
    let copied: bool = copy_to_user(mem, root, buf, line);
    proof {
        law_user_writes_leave_the_tables_alone(*old(mem), *mem, root);
    }
    if !copied {
        return errno(EFAULT);
    }
    line.len() as u64
}

/// What a write comes to.
pub enum Written {
    /// These bytes are to go on the console; so many is what the call returns.
    Show(Vec<u8>),
    Return(u64),
}

/// Write from a process's memory to the console.
pub fn sys_write(mem: &PhysicalMemory, root: u64, fd: u64, buf: u64, len: u64) -> (r: Written)
    requires
        is_process(*mem, root),
    ensures
        if fd != 1 && fd != 2 {
            r == Written::Return(error(EBADF))
        } else if len == 0 {
            r == Written::Return(0)
        } else {
            match user_bytes(mem.bytes@, root, buf, cut(len)) {
                None => r == Written::Return(error(EFAULT)),
                Some(b) => r matches Written::Show(v) && v@ == b && v@.len() == cut(len),
            }
        },
{
    if fd != 1 && fd != 2 {
        return Written::Return(errno(EBADF));
    }
    let n: usize = cut_len(len);
    if n == 0 {
        return Written::Return(0);
    }
    match take_in(mem, root, buf, n) {
        Some(data) => Written::Show(data),
        None => Written::Return(errno(EFAULT)),
    }
}

/// What a signal comes to.
#[derive(Clone, Copy, Debug, PartialEq, Eq, Structural)]
pub enum Signalled {
    /// The process ends with this status.
    Exit(i64),
    Return(u64),
}

/// Send a signal. A process can only send one to itself, and only those that end
/// it, or none.
pub fn sys_kill(current: u64, pid: u64, signal: u64) -> (r: Signalled)
    ensures
        r == if pid != current {
            Signalled::Return(error(ESRCH))
        } else if signal == 0 {
            Signalled::Return(0)
        } else if signal == 9 || signal == 15 {
            Signalled::Exit((128 + signal) as i64)
        } else {
            Signalled::Return(error(ENOSYS))
        },
{
    if pid != current {
        return Signalled::Return(errno(ESRCH));
    }
    if signal == 0 {
        Signalled::Return(0)
    } else if signal == 9 || signal == 15 {
        Signalled::Exit(128 + signal as i64)
    } else {
        Signalled::Return(errno(ENOSYS))
    }
}

/// The low half of an exit status, as a process is given it.
pub open spec fn status_word(status: i64) -> u32 {
    (status as int % 0x1_0000_0000) as u32
}

fn low_word(status: i64) -> (r: u32)
    ensures
        r == status_word(status),
{
    if status >= 0 {
        (status as u64 % 0x1_0000_0000) as u32
    } else {
        let rest: u64 = (-(status + 1)) as u64;
        (0xffff_ffff - rest % 0x1_0000_0000) as u32
    }
}

/// Hand the status of a process that has exited to the one that waited for it.
pub fn give_status(mem: &mut PhysicalMemory, root: u64, status_ptr: u64, pid: u64, status: i64) -> (r:
    u64)
    requires
        is_process(*old(mem), root),
    ensures
        if status_ptr == 0 {
            r == pid && *final(mem) == *old(mem)
        } else if can_take(old(mem).bytes@, root, status_ptr, 4) {
            r == pid && is_given(
                *old(mem),
                *final(mem),
                root,
                status_ptr,
                le32_bytes(status_word(status)),
            )
        } else {
            r == error(EFAULT)
        },
        stays_in_user_memory(*old(mem), *final(mem), root),
        is_process(*final(mem), root),
{
    if status_ptr != 0 {
        let word: [u8; 4] = u32_to_le(low_word(status));
        let copied: bool = copy_to_user(mem, root, status_ptr, word.as_slice());
        proof {
            law_user_writes_leave_the_tables_alone(*old(mem), *mem, root);
        }
        if !copied {
            return errno(EFAULT);
        }
    }
    pid
}

/// What waiting for a process comes to: nothing yet while it runs; its status is
/// collected once it has exited.
pub fn sys_waitpid(
    table: &mut ProcessTable,
    mem: &mut PhysicalMemory,
    root: u64,
    pid: u64,
    status_ptr: u64,
) -> (r: Option<u64>)
    requires
        old(table).wf(),
        is_process(*old(mem), root),
    ensures
        final(table).wf(),
        final(table)@ == taken(old(table)@, pid).0,
        match taken(old(table)@, pid).1 {
            None => r is None && *final(mem) == *old(mem),
            Some(status) => if status_ptr == 0 {
                r == Some(pid) && *final(mem) == *old(mem)
            } else if can_take(old(mem).bytes@, root, status_ptr, 4) {
                r == Some(pid) && is_given(
                    *old(mem),
                    *final(mem),
                    root,
                    status_ptr,
                    le32_bytes(status_word(status)),
                )
            } else {
                r == Some(error(EFAULT))
            },
        },
        stays_in_user_memory(*old(mem), *final(mem), root),
        is_process(*final(mem), root),
{
    match take_exit_status(table, pid) {
        Some(status) => Some(give_status(mem, root, status_ptr, pid, status)),
        None => None,
    }
}

/// What starting a program comes to for the process that asked for it.
pub fn sys_exec(spawned: Result<u64, SpawnError>) -> (r: u64)
    ensures
        r == match spawned {
            Ok(pid) => pid,
            Err(_) => error(ENOENT),
        },
{
    match spawned {
        Ok(pid) => pid,
        Err(_) => errno(ENOENT),
    }
}

/// Paths one after the other, with a line feed between them.
pub open spec fn path_lines(paths: Seq<Seq<char>>, n: int) -> Seq<u8>
    decreases n,
{
    if n <= 0 {
        Seq::empty()
    } else {
        let before = path_lines(paths, n - 1);
        if before.len() == 0 {
            encode_utf8(paths[n - 1])
        } else {
            before.push(0x0a) + encode_utf8(paths[n - 1])
        }
    }
}

fn append_bytes(out: &mut Vec<u8>, b: &[u8])
    ensures
        final(out)@ == old(out)@ + b@,
{
    let n: usize = b.len();
    let mut i: usize = 0;
    assert(out@ =~= old(out)@ + b@.take(0));
    while i < n
        invariant
            i <= n,
            n == b@.len(),
            out@ == old(out)@ + b@.take(i as int),
        decreases n - i,
    {
        out.push(b[i]);
        i += 1;
        assert(out@ =~= old(out)@ + b@.take(i as int));
    }
    assert(b@.take(n as int) =~= b@);
}

fn join_paths(paths: &Vec<String>) -> (out: Vec<u8>)
    ensures
        out@ == path_lines(texts(paths@), paths@.len() as int),
{
    let n: usize = paths.len();
    let mut out: Vec<u8> = Vec::new();
    let mut i: usize = 0;
    while i < n
        invariant
            i <= n,
            n == paths@.len(),
            out@ == path_lines(texts(paths@), i as int),
        decreases n - i,
    {
        let ghost before = out@;
        let bytes: &[u8] = paths[i].as_str().as_bytes();
        if out.len() > 0 {
            out.push(0x0a);
        }
        append_bytes(&mut out, bytes);
        assert(before.len() == 0 ==> out@ =~= bytes@);
        i += 1;
    }
    out
}

/// Whether a call gave a process data: its length, or an error where there is too
/// much of it or the process may not be given it.
pub open spec fn is_handed_over(
    before: PhysicalMemory,
    after: PhysicalMemory,
    root: u64,
    buf: u64,
    len: u64,
    data: Seq<u8>,
    r: u64,
) -> bool {
    if data.len() > cut(len) {
        r == error(ERANGE) && after == before
    } else if can_take(before.bytes@, root, buf, data.len() as int) {
        r == data.len() && is_given(before, after, root, buf, data)
    } else {
        r == error(EFAULT)
    }
}

fn hand_over(mem: &mut PhysicalMemory, root: u64, buf: u64, len: u64, data: &[u8]) -> (r: u64)
    requires
        is_process(*old(mem), root),
    ensures
        is_handed_over(*old(mem), *final(mem), root, buf, len, data@, r),
        stays_in_user_memory(*old(mem), *final(mem), root),
        is_process(*final(mem), root),
{
    if data.len() > cut_len(len) {
        return errno(ERANGE);
    }
    let copied: bool = copy_to_user(mem, root, buf, data);
    proof {
        law_user_writes_leave_the_tables_alone(*old(mem), *mem, root);
    }
    if !copied {
        return errno(EFAULT);
    }
    data.len() as u64
}

/// Whether giving a process the paths of all files came to this.
pub open spec fn is_listed<D: BlockDevice>(
    m: (PhysicalMemory, PhysicalMemory),
    v: Vfs<D>,
    root: u64,
    to: (u64, u64),
    r: u64,
) -> bool {
    let paths = walked(v, seq!['/'], Seq::empty(), 0);
    all_reliable(v) ==> is_handed_over(
        m.0,
        m.1,
        root,
        to.0,
        to.1,
        path_lines(paths, paths.len() as int),
        r,
    )
}

/// Give a process the paths of all files. Where a device fails reads, which paths
/// are left out is not said.
pub fn sys_list_files<'a, D: BlockDevice>(
    vfs: &Vfs<'a, D>,
    mem: &mut PhysicalMemory,
    root: u64,
    buf: u64,
    len: u64,
) -> (r: u64)
    requires
        is_process(*old(mem), root),
        vfs.wf(),
    ensures
        is_listed((*old(mem), *final(mem)), *vfs, root, (buf, len), r),
        stays_in_user_memory(*old(mem), *final(mem), root),
        is_process(*final(mem), root),
{
    let paths: Vec<String> = list_files(vfs);
    let out: Vec<u8> = join_paths(&paths);
    hand_over(mem, root, buf, len, out.as_slice())
}

/// Whether giving a process the whole contents of the file at a path came to this.
pub open spec fn is_file_given<D: BlockDevice>(
    m: (PhysicalMemory, PhysicalMemory),
    v: Vfs<D>,
    root: u64,
    path: Result<Seq<char>, u64>,
    to: (u64, u64),
    r: u64,
) -> bool {
    match path {
        Err(e) => r == error(e) && m.1 == m.0,
        Ok(path) => {
            ||| may_fail(v, path) && r == error(ENOENT) && m.1 == m.0
            ||| match size_result(v, path) {
                Err(_) => r == error(ENOENT) && m.1 == m.0,
                Ok(size) => if size > cut(to.1) {
                    r == error(ERANGE) && m.1 == m.0
                } else {
                    match whole_result(v, path) {
                        Err(_) => r == error(ENOENT) && m.1 == m.0,
                        Ok(data) => is_handed_over(m.0, m.1, root, to.0, to.1, data, r),
                    }
                },
            }
        },
    }
}

/// Give a process the whole contents of a file.
pub fn sys_read_file<'a, D: BlockDevice>(
    vfs: &Vfs<'a, D>,
    mem: &mut PhysicalMemory,
    root: u64,
    name_ptr: u64,
    name_len: u64,
    buf: u64,
    buf_len: u64,
) -> (r: u64)
    requires
        is_process(*old(mem), root),
        vfs.wf(),
    ensures
        is_file_given(
            (*old(mem), *final(mem)),
            *vfs,
            root,
            path_result(old(mem).bytes@, root, name_ptr, name_len),
            (buf, buf_len),
            r,
        ),
        stays_in_user_memory(*old(mem), *final(mem), root),
        is_process(*final(mem), root),
{
    let name: String = match take_path(mem, root, name_ptr, name_len) {
        Ok(name) => name,
        Err(e) => {
            return errno(e);
        },
    };
    let size: usize = match file_size(vfs, name.as_str()) {
        Ok(size) => size,
        Err(_) => {
            return errno(ENOENT);
        },
    };
    if size > cut_len(buf_len) {
        return errno(ERANGE);
    }
    match read_all(vfs, name.as_str()) {
        Ok(data) => hand_over(mem, root, buf, buf_len, data.as_slice()),
        Err(_) => errno(ENOENT),
    }
}

} // verus!
