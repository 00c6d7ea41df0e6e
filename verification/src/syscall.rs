//! System calls.
//!
//! They follow the Linux x86-64 convention: number in RAX, arguments in
//! RDI/RSI/RDX/R10/R8/R9, result (or a negative errno) in RAX. Linux's numbers
//! are reused for the calls that exist there.

use vstd::prelude::*;
use vstd::utf8::{decode_utf8, decode_utf8_encode_utf8, encode_utf8, valid_utf8};
use self::calls::{
    error, errno, is_process, path_result, sys_close, sys_kill, sys_list_files, sys_open,
    sys_read_fd, sys_read_file, sys_write, take_path, Signalled, Written, ENOSYS, MAX_WRITE,
};
use self::files::{OpenFiles, FIRST_FD};
use crate::block::BlockDevice;
use crate::gdt::{KERNEL_CS, USER_DS};
use crate::pmm::PhysicalMemory;
use crate::serial::{on_the_wire, SerialPort};
use crate::text::{lossy, utf8_lossy};
use crate::vfs::Vfs;
use crate::vmm::user::stays_in_user_memory;

pub mod calls;
pub mod editing;
pub mod files;
pub mod laws;
pub mod line;
pub mod lines;
pub mod terminal;

pub use files::close_process_files;

verus! {

pub const SYS_READ: u64 = 0;

pub const SYS_WRITE: u64 = 1;

pub const SYS_OPEN: u64 = 2;

pub const SYS_CLOSE: u64 = 3;

pub const SYS_SCHED_YIELD: u64 = 24;

pub const SYS_GETPID: u64 = 39;

pub const SYS_EXIT: u64 = 60;

pub const SYS_WAIT4: u64 = 61;

pub const SYS_KILL: u64 = 62;

// Calls of this system's own, well clear of Linux's numbers. `list_files` gives a
// newline-separated listing; `read_file` the whole contents of a file.
pub const SYS_LIST_FILES: u64 = 9001;

pub const SYS_READ_FILE: u64 = 9002;

/// Milliseconds since boot.
pub const SYS_UPTIME_MS: u64 = 9003;

pub const SYS_SLEEP_MS: u64 = 9004;

pub const SYS_EXEC: u64 = 9005;

/// The call that the trial thread makes.
pub const TEST_SYSCALL_NUM: u64 = 0x42;

pub const TEST_MAGIC: u64 = 0xabcd_1234_dead_beef;

/// Register frame that the entry stub builds on the kernel stack, lowest address
/// first.
#[derive(Clone, Copy, Debug, PartialEq, Eq, Structural)]
pub struct SyscallFrame {
    /// Syscall number in, return value out.
    pub rax: u64,
    pub rdi: u64,
    pub rsi: u64,
    pub rdx: u64,
    /// 4th argument. Not RCX: `syscall` clobbers RCX with the return RIP.
    pub r10: u64,
    pub r8: u64,
    pub r9: u64,
    /// Saved by the processor into RCX; restored from here before `sysretq`.
    pub rip: u64,
    /// Saved by the processor into R11; restored from here before `sysretq`.
    pub rflags: u64,
    pub user_rsp: u64,
}

/// The value of `STAR`: the base of the kernel's selectors for `SYSCALL`, and that
/// of the user's for `SYSRET`, which is eight less than the user data selector.
pub fn star_value() -> (r: u64)
    ensures
        r == (USER_DS - 8) * 0x1_0000_0000_0000 + KERNEL_CS * 0x1_0000_0000,
{
    (USER_DS as u64 - 8) * 0x1_0000_0000_0000 + KERNEL_CS as u64 * 0x1_0000_0000
}

/// The flags that are cleared on entry, before the stub has a valid stack:
/// interrupts, single-stepping and the direction of string operations.
pub const SFMASK: u64 = 0x700;

/// `EFER` with system calls enabled, given what it holds.
pub fn efer_value(efer: u64) -> (r: u64)
    ensures
        r == if efer % 2 == 1 {
            efer as int
        } else {
            efer + 1
        },
{
    if efer % 2 == 1 {
        efer
    } else {
        efer + 1
    }
}

/// What a system call comes to where the library cannot do it alone.
pub enum Action {
    /// This is what the call returns.
    Return(u64),
    /// Read a line of at most `max` bytes, then give it to the process.
    ReadLine { buf: u64, max: usize },
    /// Put these bytes on the console; the call returns their number.
    Show(Vec<u8>),
    /// Sleep for so many milliseconds; the call returns 0.
    Sleep(u64),
    /// Let other threads run; the call returns 0.
    Yield,
    /// End the process with this status.
    Exit(i64),
    /// Start the program at a path; the call returns its pid, or that there is no
    /// such entry.
    Exec(String),
    /// Wait for a process to exit, then give its status.
    Wait { pid: u64, status_ptr: u64 },
    /// The trial thread has called, with this argument: end it.
    Trial(u64),
}

/// What a call that names a program comes to.
pub open spec fn is_exec(m: Seq<u8>, root: u64, frame: SyscallFrame, r: Action) -> bool {
    match path_result(m, root, frame.rdi, frame.rsi) {
        Ok(path) => r matches Action::Exec(p) && p@ == path,
        Err(e) => r == Action::Return(error(e)),
    }
}

/// What calls come to that neither files nor user memory have a part in.
pub open spec fn plain_action(frame: SyscallFrame, pid: u64, uptime: u64) -> Option<Action> {
    let n = frame.rax;
    if n == SYS_UPTIME_MS {
        Some(Action::Return(uptime))
    } else if n == SYS_SLEEP_MS {
        Some(Action::Sleep(frame.rdi))
    } else if n == SYS_WAIT4 {
        Some(Action::Wait { pid: frame.rdi, status_ptr: frame.rdx })
    } else if n == SYS_KILL {
        if frame.rdi == pid && (frame.rsi == 9 || frame.rsi == 15) {
            Some(Action::Exit((128 + frame.rsi) as i64))
        } else if frame.rdi != pid {
            Some(Action::Return(error(calls::ESRCH)))
        } else if frame.rsi == 0 {
            Some(Action::Return(0))
        } else {
            Some(Action::Return(error(ENOSYS)))
        }
    } else if n == SYS_SCHED_YIELD {
        Some(Action::Yield)
    } else if n == SYS_GETPID {
        Some(Action::Return(pid))
    } else if n == SYS_EXIT {
        Some(Action::Exit((frame.rdi % 256) as i64))
    } else if n == TEST_SYSCALL_NUM {
        Some(Action::Trial(frame.rdi))
    } else if n == SYS_READ && frame.rdi == 0 {
        if frame.rdx == 0 {
            Some(Action::Return(0))
        } else {
            Some(Action::ReadLine { buf: frame.rsi, max: calls::cut(frame.rdx) as usize })
        }
    } else if n == SYS_OPEN || n == SYS_CLOSE || n == SYS_READ || n == SYS_WRITE || n
        == SYS_LIST_FILES || n == SYS_READ_FILE || n == SYS_EXEC {
        None
    } else {
        Some(Action::Return(error(ENOSYS)))
    }
}

/// Carry a system call out as far as files and user memory go. What each of the
/// calls on files does is said where it is defined. Whatever a process asks for,
/// nothing changes in memory that it could not write itself.
pub fn syscall_dispatch<'a, D: BlockDevice>(
    files: &mut OpenFiles,
    vfs: &Vfs<'a, D>,
    mem: &mut PhysicalMemory,
    root: u64,
    pid: u64,
    uptime: u64,
    frame: &SyscallFrame,
) -> (r: Action)
    requires
        is_process(*old(mem), root),
        vfs.wf(),
        old(files).wf(),
        old(files)@.len() < u64::MAX - FIRST_FD,
    ensures
        final(files).wf(),
        plain_action(*frame, pid, uptime) matches Some(a) ==> r == a && *final(mem) == *old(mem)
            && *final(files) == *old(files),
        frame.rax == SYS_EXEC ==> is_exec(old(mem).bytes@, root, *frame, r),
        frame.rax == SYS_WRITE && frame.rdi != 1 && frame.rdi != 2 ==> r == Action::Return(
            error(calls::EBADF),
        ),
        frame.rax == SYS_WRITE && (frame.rdi == 1 || frame.rdi == 2) && frame.rdx > 0
            ==> match calls::user_bytes(old(mem).bytes@, root, frame.rsi, calls::cut(frame.rdx)) {
            None => r == Action::Return(error(calls::EFAULT)),
            Some(b) => r matches Action::Show(v) && v@ == b,
        },
        frame.rax == SYS_WRITE && (frame.rdi == 1 || frame.rdi == 2) && frame.rdx == 0 ==> r
            == Action::Return(0),
        frame.rax == SYS_OPEN ==> (r matches Action::Return(v) && calls::is_opened(
            old(files)@,
            final(files)@,
            *vfs,
            pid,
            path_result(old(mem).bytes@, root, frame.rdi, frame.rsi),
            v,
        )),
        frame.rax == SYS_READ && frame.rdi != 0 ==> (r matches Action::Return(v) && calls::is_read(
            (old(files)@, final(files)@),
            (*old(mem), *final(mem)),
            *vfs,
            root,
            (pid, frame.rdi),
            (frame.rsi, frame.rdx),
            v,
        )),
        frame.rax == SYS_LIST_FILES ==> (r matches Action::Return(v) && calls::is_listed(
            (*old(mem), *final(mem)),
            *vfs,
            root,
            (frame.rdi, frame.rsi),
            v,
        )),
        frame.rax == SYS_READ_FILE ==> (r matches Action::Return(v) && calls::is_file_given(
            (*old(mem), *final(mem)),
            *vfs,
            root,
            path_result(old(mem).bytes@, root, frame.rdi, frame.rsi),
            (frame.rdx, frame.r10),
            v,
        )),
        frame.rax == SYS_CLOSE ==> match files::place_of(old(files)@, pid, frame.rdi, 0) {
            Some(i) => r == Action::Return(0) && final(files)@ == old(files)@.update(
                i,
                old(files)@.last(),
            ).drop_last(),
            None => r == Action::Return(error(calls::EBADF)) && final(files)@ == old(files)@,
        },
        frame.rax != SYS_OPEN && frame.rax != SYS_CLOSE && frame.rax != SYS_READ ==> *final(files)
            == *old(files),
        frame.rax != SYS_READ && frame.rax != SYS_LIST_FILES && frame.rax != SYS_READ_FILE
            ==> *final(mem) == *old(mem),
        stays_in_user_memory(*old(mem), *final(mem), root),
        is_process(*final(mem), root),
{
    let n: u64 = frame.rax;
    if n == SYS_OPEN {
        Action::Return(sys_open(files, vfs, mem, root, pid, frame.rdi, frame.rsi))
    } else if n == SYS_CLOSE {
        Action::Return(sys_close(files, pid, frame.rdi))
    } else if n == SYS_READ {
        if frame.rdi != 0 {
            return Action::Return(
                sys_read_fd(files, vfs, mem, root, pid, frame.rdi, frame.rsi, frame.rdx),
            );
        }
        if frame.rdx == 0 {
            return Action::Return(0);
        }
        let max: usize = if frame.rdx < MAX_WRITE as u64 {
            frame.rdx as usize
        } else {
            MAX_WRITE
        };
        Action::ReadLine { buf: frame.rsi, max }
    } else if n == SYS_WRITE {
        match sys_write(mem, root, frame.rdi, frame.rsi, frame.rdx) {
            Written::Show(data) => Action::Show(data),
            Written::Return(v) => Action::Return(v),
        }
    } else if n == SYS_LIST_FILES {
        Action::Return(sys_list_files(vfs, mem, root, frame.rdi, frame.rsi))
    } else if n == SYS_READ_FILE {
        Action::Return(
            sys_read_file(vfs, mem, root, frame.rdi, frame.rsi, frame.rdx, frame.r10),
        )
    } else if n == SYS_UPTIME_MS {
        Action::Return(uptime)
    } else if n == SYS_SLEEP_MS {
        Action::Sleep(frame.rdi)
    } else if n == SYS_EXEC {
        match take_path(mem, root, frame.rdi, frame.rsi) {
            Ok(path) => Action::Exec(path),
            Err(e) => Action::Return(errno(e)),
        }
    } else if n == SYS_WAIT4 {
        Action::Wait { pid: frame.rdi, status_ptr: frame.rdx }
    } else if n == SYS_KILL {
        match sys_kill(pid, frame.rdi, frame.rsi) {
            Signalled::Exit(code) => Action::Exit(code),
            Signalled::Return(v) => Action::Return(v),
        }
    } else if n == SYS_SCHED_YIELD {
        Action::Yield
    } else if n == SYS_GETPID {
        Action::Return(pid)
    } else if n == SYS_EXIT {
        Action::Exit((frame.rdi % 256) as i64)
    } else if n == TEST_SYSCALL_NUM {
        Action::Trial(frame.rdi)
    } else {
        Action::Return(errno(ENOSYS))
    }
}

/// What becomes of raw process output: the bytes that go to the serial port, and the
/// text that goes on the screen, without the decorations of log lines.
pub fn console_write(serial: &SerialPort, bytes: &[u8]) -> (r: (Vec<u8>, String))
    ensures
        r.1@ == utf8_lossy(bytes@),
        r.0@ == on_the_wire(encode_utf8(r.1@)),
        valid_utf8(bytes@) ==> r.1@ == decode_utf8(bytes@) && r.0@ == on_the_wire(bytes@),
{
    let text: String = lossy(bytes);
    proof {
        if valid_utf8(bytes@) {
            decode_utf8_encode_utf8(bytes@);
        }
    }
    let sent: Vec<u8> = serial.write_str(text.as_str());
    (sent, text)
}

/// What was wrong with the trial of a call from user mode.
#[derive(Clone, Copy, Debug, PartialEq, Eq, Structural)]
pub enum SyscallFault {
    NotSpawned,
    TimedOut,
    WrongArgument { arg: u64 },
}

/// Judge the trial of a call from user mode: a thread was started, and its call,
/// with its argument, has arrived in time.
pub fn self_test(spawned: bool, arrived: Option<u64>) -> (r: Result<u64, SyscallFault>)
    ensures
        r == if !spawned {
            Err::<u64, SyscallFault>(SyscallFault::NotSpawned)
        } else {
            match arrived {
                None => Err(SyscallFault::TimedOut),
                Some(arg) => if arg == TEST_MAGIC {
                    Ok(arg)
                } else {
                    Err(SyscallFault::WrongArgument { arg })
                },
            }
        },
{
    if !spawned {
        return Err(SyscallFault::NotSpawned);
    }
    match arrived {
        None => Err(SyscallFault::TimedOut),
        Some(arg) => if arg != TEST_MAGIC {
            Err(SyscallFault::WrongArgument { arg })
        } else {
            Ok(arg)
        },
    }
}

/// The program of the trial thread: it puts the number and the argument in their
/// registers, calls, and goes round.
pub fn test_program() -> (r: [u8; 24])
    ensures
        r@.subrange(0, 2) == seq![0x48u8, 0xb8],
        crate::bytes::le64(r@, 2) == TEST_SYSCALL_NUM,
        r@.subrange(10, 12) == seq![0x48u8, 0xbf],
        crate::bytes::le64(r@, 12) == TEST_MAGIC,
        r@.subrange(20, 24) == seq![0x0fu8, 0x05, 0xeb, 0xfe],
{
    let r: [u8; 24] = [
        0x48,
        0xb8,
        0x42,
        0x00,
        0x00,
        0x00,
        0x00,
        0x00,
        0x00,
        0x00,
        0x48,
        0xbf,
        0xef,
        0xbe,
        0xad,
        0xde,
        0x34,
        0x12,
        0xcd,
        0xab,
        0x0f,
        0x05,
        0xeb,
        0xfe,
    ];
    assert(r@.subrange(0, 2) =~= seq![0x48u8, 0xb8]);
    assert(r@.subrange(10, 12) =~= seq![0x48u8, 0xbf]);
    assert(r@.subrange(20, 24) =~= seq![0x0fu8, 0x05, 0xeb, 0xfe]);
    r
}

} // verus!
