//! What system calls are for, as the programs that make them see it.

use vstd::prelude::*;
use vstd::utf8::{decode_utf8_encode_utf8, encode_utf8};
use super::calls::{
    can_take, cut, error, is_file_given, is_given, is_opened, is_read, path_result, status_word,
    user_bytes,
};
use super::files::{is_open, place_of, Open};
use super::{plain_action, Action, SyscallFrame};
use crate::block::BlockDevice;
use crate::bytes::{le32_bytes, part_of};
use crate::pmm::PhysicalMemory;
use crate::vfs::files::{may_fail, size_result, whole_result};
use crate::vfs::laws::law_reads_are_pieces;
use crate::vfs::{FsError, Vfs};
use crate::vmm::user::{law_user_read_back, user_in_ram, user_walked};

verus! {

/// An error comes back as its negative, in two's complement.
pub proof fn law_errors_are_negative(e: u64)
    requires
        0 < e,
    ensures
        error(e) + e == 0x1_0000_0000_0000_0000,
{
}

/// What the calls come to that neither files nor user memory have a part in, by their
/// numbers.
pub proof fn law_plain_calls(frame: SyscallFrame, pid: u64, uptime: u64)
    ensures
        frame.rax == 39 ==> plain_action(frame, pid, uptime) == Some(Action::Return(pid)),
        frame.rax == 9003 ==> plain_action(frame, pid, uptime) == Some(Action::Return(uptime)),
        frame.rax == 9004 ==> plain_action(frame, pid, uptime) == Some(Action::Sleep(frame.rdi)),
        frame.rax == 24 ==> plain_action(frame, pid, uptime) == Some(Action::Yield),
        frame.rax == 60 ==> exists|code: i64|
            plain_action(frame, pid, uptime) == Some(Action::Exit(code)) && 0 <= code < 256 && #[trigger] (
            frame.rdi - code) % 256 == 0,
        frame.rax == 61 ==> plain_action(frame, pid, uptime) == Some(
            Action::Wait { pid: frame.rdi, status_ptr: frame.rdx },
        ),
        frame.rax == 0 && frame.rdi == 0 && frame.rdx == 0 ==> plain_action(frame, pid, uptime)
            == Some(Action::Return(0)),
        frame.rax == 0 && frame.rdi == 0 && 0 < frame.rdx <= 4096 ==> plain_action(frame, pid, uptime)
            == Some(Action::ReadLine { buf: frame.rsi, max: frame.rdx as usize }),
        frame.rax == 0 && frame.rdi == 0 && frame.rdx > 4096 ==> plain_action(frame, pid, uptime)
            == Some(Action::ReadLine { buf: frame.rsi, max: 4096 }),
{
    if frame.rax == 60 {
        let code = (frame.rdi % 256) as i64;
        assert((frame.rdi - code) % 256 == 0);
    }
}

/// A process can end itself by a signal, and its status says by which one; it cannot reach
/// another process, and a signal of number zero does nothing. A call that there is none of
/// is refused with error 38.
pub proof fn law_signals_and_unknown_calls(frame: SyscallFrame, pid: u64, uptime: u64)
    ensures
        frame.rax == 62 && frame.rdi == pid && (frame.rsi == 9 || frame.rsi == 15) ==> plain_action(
            frame,
            pid,
            uptime,
        ) == Some(Action::Exit((128 + frame.rsi) as i64)),
        frame.rax == 62 && frame.rdi == pid && frame.rsi == 0 ==> plain_action(frame, pid, uptime)
            == Some(Action::Return(0)),
        frame.rax == 62 && frame.rdi != pid ==> (plain_action(frame, pid, uptime) matches Some(
            Action::Return(v),
        ) && v + 3 == 0x1_0000_0000_0000_0000),
        !seq![0u64, 1, 2, 3, 24, 39, 60, 61, 62, 9001, 9002, 9003, 9004, 9005, 0x42].contains(
            frame.rax,
        ) ==> (plain_action(frame, pid, uptime) matches Some(Action::Return(v)) && v + 38
            == 0x1_0000_0000_0000_0000),
{
    let known = seq![0u64, 1, 2, 3, 24, 39, 60, 61, 62, 9001, 9002, 9003, 9004, 9005, 0x42];
    assert(known[0] == 0 && known[1] == 1 && known[2] == 2 && known[3] == 3 && known[4] == 24
        && known[5] == 39 && known[6] == 60 && known[7] == 61 && known[8] == 62 && known[9] == 9001
        && known[10] == 9002 && known[11] == 9003 && known[12] == 9004 && known[13] == 9005
        && known[14] == 0x42);
}

/// A path that a process names is the text of the bytes that it points at, of which there
/// may be 255.
pub proof fn law_paths_are_taken_whole(m: Seq<u8>, root: u64, at: u64, len: u64)
    ensures
        match path_result(m, root, at, len) {
            Ok(path) => len <= 255 && user_bytes(m, root, at, len as int) == Some(encode_utf8(path)),
            Err(e) => {
                &&& len > 255 ==> e == 36
                &&& len <= 255 && user_bytes(m, root, at, len as int) is None ==> e == 14
                &&& len <= 255 && user_bytes(m, root, at, len as int) is Some ==> e == 2 && forall|
                    path: Seq<char>,
                | #[trigger]
                    encode_utf8(path) != user_bytes(m, root, at, len as int)->0
            },
        },
{
    if len <= 255 {
        if let Some(b) = user_bytes(m, root, at, len as int) {
            if vstd::utf8::valid_utf8(b) {
                decode_utf8_encode_utf8(b);
            } else {
                assert forall|path: Seq<char>| #[trigger] encode_utf8(path) != b by {
                    vstd::utf8::encode_utf8_valid_utf8(path);
                }
            }
        }
    }
}

/// Whether an address range of a process leads to as many different bytes of memory.
pub open spec fn is_spread(m: Seq<u8>, root: u64, at: u64, n: int) -> bool {
    forall|a: int, b: int|
        0 <= a < b < n ==> #[trigger] user_walked(m, root, (at + a) as u64, true)
            != #[trigger] user_walked(m, root, (at + b) as u64, true)
}

/// What a process is given stands in its memory, byte for byte.
pub proof fn law_given_bytes_are_there(
    before: PhysicalMemory,
    after: PhysicalMemory,
    root: u64,
    at: u64,
    data: Seq<u8>,
    i: int,
)
    requires
        user_in_ram(before.bytes@, root),
        is_given(before, after, root, at, data),
        can_take(before.bytes@, root, at, data.len() as int),
        is_spread(before.bytes@, root, at, data.len() as int),
        0 <= i < data.len(),
    ensures
        after.bytes@[user_walked(before.bytes@, root, (at + i) as u64, true)->0 as int] == data[i],
{
    law_user_read_back(before.bytes@, root, at, data, data.len() as int, i);
}

/// Reads from an open file go on where the one before ended: a read that succeeds gives the
/// bytes of the file from its place on, as many as were asked for and there are, up to
/// 4096, and the file's place moves on by as many. No other open file is touched.
pub proof fn law_reads_go_on<D: BlockDevice>(
    f: (Seq<Open>, Seq<Open>),
    m: (PhysicalMemory, PhysicalMemory),
    v: Vfs<D>,
    root: u64,
    file: (u64, u64),
    to: (u64, u64),
    r: u64,
    i: int,
    whole: Seq<u8>,
)
    requires
        v.wf(),
        is_read(f, m, v, root, file, to, r),
        0 <= i < f.0.len(),
        f.0[i].pid == file.0 && f.0[i].fd == file.1,
        forall|k: int| 0 <= k < i ==> !((#[trigger] f.0[k]).pid == file.0 && f.0[k].fd == file.1),
        0 <= f.0[i].offset,
        whole_result(v, f.0[i].path) == Ok::<Seq<u8>, FsError>(whole),
        r < 0x8000_0000_0000_0000,
    ensures
        f.1.len() == f.0.len(),
        f.1[i].offset == f.0[i].offset + r,
        f.1[i].path == f.0[i].path && f.1[i].pid == file.0 && f.1[i].fd == file.1,
        forall|k: int| 0 <= k < f.0.len() && k != i ==> #[trigger] f.1[k] == f.0[k],
        r <= to.1 && r <= 4096,
        r == to.1 || r == 4096 || f.0[i].offset + r == whole.len() || (r == 0 && f.0[i].offset
            >= whole.len()),
        f.0[i].offset < whole.len() ==> f.0[i].offset + r <= whole.len() && is_given(
            m.0,
            m.1,
            root,
            to.0,
            whole.subrange(f.0[i].offset, f.0[i].offset + r),
        ),
{
    lemma_place_is(f.0, file.0, file.1, 0, i);
    law_reads_are_pieces(v, f.0[i].path, whole, f.0[i].offset, cut(to.1));
    let o = f.0[i];
    let data = part_of(whole, o.offset, cut(to.1));
    if o.offset < whole.len() {
        assert(data =~= whole.subrange(o.offset, o.offset + data.len()));
    }
}

proof fn lemma_place_is(f: Seq<Open>, pid: u64, fd: u64, from: int, i: int)
    requires
        0 <= from <= i < f.len(),
        f[i].pid == pid && f[i].fd == fd,
        forall|k: int| from <= k < i ==> !((#[trigger] f[k]).pid == pid && f[k].fd == fd),
    ensures
        place_of(f, pid, fd, from) == Some(i),
    decreases i - from,
{
    if from < i {
        lemma_place_is(f, pid, fd, from + 1, i);
    }
}

/// A file that is there is opened at its start, under the lowest number from 3 on that the
/// process does not use; one that is not there gives error 2, and nothing is opened.
pub proof fn law_open_gives_a_new_number<D: BlockDevice>(
    before: Seq<Open>,
    after: Seq<Open>,
    v: Vfs<D>,
    pid: u64,
    path: Seq<char>,
    r: u64,
)
    requires
        is_opened(before, after, v, pid, Ok(path), r),
        !may_fail(v, path),
        before.len() < 0x1_0000_0000,
    ensures
        size_result(v, path) is Ok ==> {
            &&& r >= 3
            &&& !is_open(before, pid, r)
            &&& forall|k: u64| 3 <= k < r ==> #[trigger] is_open(before, pid, k)
            &&& after == before.push(Open { pid, fd: r, path, offset: 0 })
            &&& is_open(after, pid, r)
        },
        size_result(v, path) is Err ==> r + 2 == 0x1_0000_0000_0000_0000 && after == before,
{
    if size_result(v, path) is Ok {
        assert(after[before.len() as int].pid == pid && after[before.len() as int].fd == r);
    }
}

/// A program that asks for a whole file gets all of it, or none: error 34 where it has no
/// room for it or it has more than 4096 bytes, error 2 where there is no such file.
pub proof fn law_whole_file_is_given<D: BlockDevice>(
    m: (PhysicalMemory, PhysicalMemory),
    v: Vfs<D>,
    root: u64,
    path: Seq<char>,
    to: (u64, u64),
    r: u64,
    whole: Seq<u8>,
)
    requires
        is_file_given(m, v, root, Ok(path), to, r),
        v.wf(),
        !may_fail(v, path),
    ensures
        whole_result(v, path) == Ok::<Seq<u8>, FsError>(whole) ==> {
            &&& whole.len() > to.1 || whole.len() > 4096 ==> r + 34 == 0x1_0000_0000_0000_0000 && m.1
                == m.0
            &&& whole.len() <= to.1 && whole.len() <= 4096 && can_take(
                m.0.bytes@,
                root,
                to.0,
                whole.len() as int,
            ) ==> r == whole.len() && is_given(m.0, m.1, root, to.0, whole)
        },
        size_result(v, path) is Err ==> r + 2 == 0x1_0000_0000_0000_0000 && m.1 == m.0,
{
    if whole_result(v, path) == Ok::<Seq<u8>, FsError>(whole) {
        law_reads_are_pieces(v, path, whole, 0, 0);
    }
}

/// The status that a process is given is the low half of the exit status, as it stands in
/// memory: for a status between 0 and 255 its first byte, with zeros behind it.
pub proof fn law_small_status_is_one_byte(status: i64)
    requires
        0 <= status < 256,
    ensures
        le32_bytes(status_word(status)) == seq![status as u8, 0, 0, 0],
{
    assert(le32_bytes(status_word(status)) =~= seq![status as u8, 0, 0, 0]);
}

} // verus!
