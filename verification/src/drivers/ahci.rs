//! Read-only synchronous AHCI/SATA block driver: what is written where, and what is
//! made of what is read.

use vstd::prelude::*;
use super::pci::{present, reads, Config, PciLocation};
use super::storage::{find_controllers, storage_among, StorageController, StorageKind};
use crate::block::{BlockError, SECTOR_SIZE};
use crate::bytes::{
    copy_into, le16_bytes, le32_bytes, le64, le64_bytes, spliced, u16_to_le, u32_to_le, u64_to_le,
    u64le, zeros,
};

pub mod disk;
pub mod transfer;

verus! {

/// How long a controller may take, in milliseconds.
pub const TIMEOUT_MS: u64 = 3000;

/// How much of a controller's registers is mapped.
pub const REGISTERS: u64 = 0x1100;

pub const PORT_BASE: usize = 0x100;

pub const PORT_STRIDE: usize = 0x80;

/// The registers of a port.
pub const CLB: usize = 0x00;

pub const CLBU: usize = 0x04;

pub const FB: usize = 0x08;

pub const FBU: usize = 0x0c;

pub const IS: usize = 0x10;

pub const IE: usize = 0x14;

pub const CMD: usize = 0x18;

pub const SERR: usize = 0x30;

pub const CI: usize = 0x38;

/// Bits of the command register.
pub const START: u32 = 0x1;

pub const FIS_RECEIVE: u32 = 0x10;

pub const FIS_RUNNING: u32 = 0x4000;

pub const LIST_RUNNING: u32 = 0x8000;

pub const READ_DMA_EXT: u8 = 0x25;

pub const IDENTIFY: u8 = 0xec;

/// All AHCI controllers on the bus.
pub fn pci_ahci_controllers<F: Fn(PciLocation, u8) -> u32>(read: &F) -> (r: Vec<StorageController>)
    requires
        exists|c: Config| reads(*read, c),
    ensures
        forall|c: Config| #[trigger]
            reads(*read, c) ==> r@ == storage_among(c, StorageKind::Ahci, present(c, 8192)),
{
    find_controllers(read, StorageKind::Ahci)
}

/// Whether a bit of a word is set.
pub open spec fn has_bit(v: u32, bit: int) -> bool {
    v as int / vstd::arithmetic::power2::pow2(bit as nat) as int % 2 == 1
}

/// Whether a port has a disk on it that answers: the link is up and active, and the
/// device's signature is that of a SATA disk.
pub open spec fn is_disk(ssts: u32, sig: u32) -> bool {
    ssts % 16 == 3 && ssts / 256 % 16 == 1 && sig == 0x101
}

/// Whether a port is worth setting up.
pub fn is_usable(ssts: u32, sig: u32) -> (r: bool)
    ensures
        r == is_disk(ssts, sig),
{
    ssts % 16 == 3 && ssts / 256 % 16 == 1 && sig == 0x101
}

/// The ports that a controller has, from the word that says so.
pub open spec fn ports_in(pi: u32, n: int) -> Seq<usize>
    decreases n,
{
    if n <= 0 {
        Seq::empty()
    } else if has_bit(pi, n - 1) {
        ports_in(pi, n - 1).push((n - 1) as usize)
    } else {
        ports_in(pi, n - 1)
    }
}

pub fn implemented_ports(pi: u32) -> (r: Vec<usize>)
    ensures
        r@ == ports_in(pi, 32),
{
    let mut r: Vec<usize> = Vec::new();
    let mut i: usize = 0;
    let mut unit: u64 = 1;
    proof {
        vstd::arithmetic::power2::lemma2_to64();
    }
    while i < 32
        invariant
            i <= 32,
            unit == vstd::arithmetic::power2::pow2(i as nat),
            unit <= 0x1_0000_0000,
            r@ == ports_in(pi, i as int),
        decreases 32 - i,
    {
        proof {
            vstd::arithmetic::power2::lemma_pow2_unfold((i + 1) as nat);
            vstd::arithmetic::power2::lemma2_to64();
            if i < 31 {
                vstd::arithmetic::power2::lemma_pow2_strictly_increases((i + 1) as nat, 32);
            }
        }
        if pi as u64 / unit % 2 == 1 {
            r.push(i);
        }
        i += 1;
        unit = unit * 2;
    }
    r
}

/// Whether a controller can reach the memory for a port: one that knows only 32
/// address bits cannot reach all of it.
pub fn is_reachable(supports_64bit_dma: bool, pages: &[u64]) -> (r: bool)
    ensures
        r == (supports_64bit_dma || forall|i: int|
            0 <= i < pages@.len() ==> #[trigger] pages@[i] < 0x1_0000_0000),
{
    let mut i: usize = 0;
    while i < pages.len()
        invariant
            i <= pages@.len(),
            supports_64bit_dma || forall|j: int|
                0 <= j < i ==> #[trigger] pages@[j] < 0x1_0000_0000,
        decreases pages@.len() - i,
    {
        if !supports_64bit_dma && pages[i] >= 0x1_0000_0000 {
            return false;
        }
        i += 1;
    }
    true
}

/// What is done to a register of a port.
#[derive(Clone, Copy, Debug, PartialEq, Eq, Structural)]
pub enum PortOp {
    /// Write it back without these bits.
    Clear { register: usize, bits: u32 },
    /// Wait until none of these bits is set; give up where that takes too long.
    AwaitClear { register: usize, bits: u32 },
    /// Wait until these bits are set; give up where that takes too long.
    AwaitSet { register: usize, bits: u32 },
    Write { register: usize, value: u32 },
    /// Keep what it holds.
    Remember { register: usize },
    /// Write what was kept with these bits.
    WriteRemembered { register: usize, bits: u32 },
}

pub open spec fn low(v: u64) -> u32 {
    (v % 0x1_0000_0000) as u32
}

pub open spec fn high(v: u64) -> u32 {
    (v / 0x1_0000_0000) as u32
}

/// How a port is brought up: its engines are stopped before it gets other memory, and
/// started again when it has it.
pub open spec fn bring_up(list: u64, fis: u64) -> Seq<PortOp> {
    seq![
        PortOp::Clear { register: CMD, bits: START },
        PortOp::AwaitClear { register: CMD, bits: LIST_RUNNING },
        PortOp::Clear { register: CMD, bits: FIS_RECEIVE },
        PortOp::AwaitClear { register: CMD, bits: FIS_RUNNING },
        PortOp::Write { register: CLB, value: low(list) },
        PortOp::Write { register: CLBU, value: high(list) },
        PortOp::Write { register: FB, value: low(fis) },
        PortOp::Write { register: FBU, value: high(fis) },
        PortOp::Write { register: IS, value: 0xffff_ffff },
        PortOp::Write { register: IE, value: 0xffff_ffff },
        PortOp::Write { register: SERR, value: 0xffff_ffff },
        PortOp::Remember { register: CMD },
        PortOp::WriteRemembered { register: CMD, bits: FIS_RECEIVE },
        PortOp::AwaitSet { register: CMD, bits: FIS_RUNNING },
        PortOp::WriteRemembered { register: CMD, bits: (FIS_RECEIVE + START) as u32 },
    ]
}

pub fn port_ops(list: u64, fis: u64) -> (r: Vec<PortOp>)
    ensures
        r@ == bring_up(list, fis),
{
    let r: Vec<PortOp> = vec![
        PortOp::Clear { register: CMD, bits: START },
        PortOp::AwaitClear { register: CMD, bits: LIST_RUNNING },
        PortOp::Clear { register: CMD, bits: FIS_RECEIVE },
        PortOp::AwaitClear { register: CMD, bits: FIS_RUNNING },
        PortOp::Write { register: CLB, value: (list % 0x1_0000_0000) as u32 },
        PortOp::Write { register: CLBU, value: (list / 0x1_0000_0000) as u32 },
        PortOp::Write { register: FB, value: (fis % 0x1_0000_0000) as u32 },
        PortOp::Write { register: FBU, value: (fis / 0x1_0000_0000) as u32 },
        PortOp::Write { register: IS, value: 0xffff_ffff },
        PortOp::Write { register: IE, value: 0xffff_ffff },
        PortOp::Write { register: SERR, value: 0xffff_ffff },
        PortOp::Remember { register: CMD },
        PortOp::WriteRemembered { register: CMD, bits: FIS_RECEIVE },
        PortOp::AwaitSet { register: CMD, bits: FIS_RUNNING },
        PortOp::WriteRemembered { register: CMD, bits: FIS_RECEIVE + START },
    ];
    assert(r@ =~= bring_up(list, fis));
    r
}

/// The head of the one command: five words of it, one piece of memory, reading.
pub open spec fn header_bytes(table: u64) -> Seq<u8> {
    spliced(
        spliced(spliced(zeros(32), 0, le16_bytes(5)), 2, le16_bytes(1)),
        8,
        le64_bytes(table),
    )
}

pub fn command_header(table: u64) -> (r: Vec<u8>)
    ensures
        r@ == header_bytes(table),
{
    let mut r: Vec<u8> = vec![0u8; 32];
    assert(r@ =~= zeros(32));
    copy_into(r.as_mut_slice(), 0, u16_to_le(5).as_slice());
    copy_into(r.as_mut_slice(), 2, u16_to_le(1).as_slice());
    copy_into(r.as_mut_slice(), 8, u64_to_le(table).as_slice());
    r
}

/// The description of the memory that a sector goes to, behind the command's words.
pub open spec fn region_bytes(data: u64) -> Seq<u8> {
    spliced(
        spliced(zeros(16), 0, le64_bytes(data)),
        12,
        le32_bytes((SECTOR_SIZE - 1 + 0x8000_0000) as u32),
    )
}

pub fn region(data: u64) -> (r: Vec<u8>)
    ensures
        r@ == region_bytes(data),
{
    let mut r: Vec<u8> = vec![0u8; 16];
    assert(r@ =~= zeros(16));
    copy_into(r.as_mut_slice(), 0, u64_to_le(data).as_slice());
    copy_into(r.as_mut_slice(), 12, u32_to_le(SECTOR_SIZE as u32 - 1 + 0x8000_0000).as_slice());
    r
}

/// The words of a command; a read says where, in six bytes, and how much.
pub open spec fn command_fis(command: u8, lba: u64, count: u16) -> Seq<u8> {
    let head = zeros(20).update(0, 0x27).update(1, 0x80).update(2, command);
    if command == READ_DMA_EXT {
        spliced(
            head.update(4, (lba % 256) as u8).update(5, (lba / 0x100 % 256) as u8).update(
                6,
                (lba / 0x1_0000 % 256) as u8,
            ).update(7, 0x40).update(8, (lba / 0x100_0000 % 256) as u8).update(
                9,
                (lba / 0x1_0000_0000 % 256) as u8,
            ).update(10, (lba / 0x100_0000_0000 % 256) as u8),
            12,
            le16_bytes(count),
        )
    } else {
        head
    }
}

pub fn command_words(command: u8, lba: u64, count: u16) -> (r: Vec<u8>)
    ensures
        r@ == command_fis(command, lba, count),
{
    let mut r: Vec<u8> = vec![0u8; 20];
    assert(r@ =~= zeros(20));
    r[0] = 0x27;
    r[1] = 0x80;
    r[2] = command;
    if command == READ_DMA_EXT {
        r[4] = (lba % 256) as u8;
        r[5] = (lba / 0x100 % 256) as u8;
        r[6] = (lba / 0x1_0000 % 256) as u8;
        r[7] = 0x40;
        r[8] = (lba / 0x100_0000 % 256) as u8;
        r[9] = (lba / 0x1_0000_0000 % 256) as u8;
        r[10] = (lba / 0x100_0000_0000 % 256) as u8;
        copy_into(r.as_mut_slice(), 12, u16_to_le(count).as_slice());
    }
    r
}

/// Whether a device takes a command: it is neither busy nor asking for data.
pub fn may_issue(task_file: u32) -> (r: bool)
    ensures
        r == (task_file / 8 % 2 == 0 && task_file / 128 % 2 == 0),
{
    task_file / 8 % 2 == 0 && task_file / 128 % 2 == 0
}

/// Where a wait stands: over, because what was awaited came or because the time is
/// up, or not.
pub fn waited(arrived: bool, waited_ms: u64) -> (r: Option<bool>)
    ensures
        r == if arrived {
            Some(true)
        } else if waited_ms >= TIMEOUT_MS {
            Some(false)
        } else {
            None
        },
{
    if arrived {
        Some(true)
    } else if waited_ms >= TIMEOUT_MS {
        Some(false)
    } else {
        None
    }
}

/// Whether a command has come to an end, one way or the other.
pub fn is_over(command_issue: u32, interrupt_status: u32) -> (r: bool)
    ensures
        r == (command_issue % 2 == 0 || interrupt_status % 2 == 1),
{
    command_issue % 2 == 0 || interrupt_status % 2 == 1
}

/// Whether a command that was waited for has done its work.
pub fn has_succeeded(completed: bool, interrupt_status: u32) -> (r: bool)
    ensures
        r == (completed && interrupt_status % 2 == 0),
{
    completed && interrupt_status % 2 == 0
}

/// The number of sectors that a disk says it has, if it has any.
pub fn identified_sectors(identify: &[u8; 512]) -> (r: Option<u64>)
    ensures
        r == if le64(identify@, 200) == 0 {
            None
        } else {
            Some(le64(identify@, 200) as u64)
        },
{
    let n: u64 = u64le(identify.as_slice(), 200);
    if n == 0 {
        None
    } else {
        Some(n)
    }
}

/// What a read of a sector comes to; `transfer` sends a command, given by its code, the
/// first sector and how many, and hands back the sector, if that went well.
pub fn read_sector<F: Fn(u8, u64, u16) -> Option<[u8; SECTOR_SIZE]>>(
    transfer: F,
    sectors: u64,
    lba: u64,
    out: &mut [u8; SECTOR_SIZE],
) -> (r: Result<(), BlockError>)
    requires
        transfer.requires((READ_DMA_EXT, lba, 1)),
    ensures
        lba >= sectors ==> r == Err::<(), BlockError>(BlockError::OutOfRange),
        lba < sectors ==> exists|a: Option<[u8; SECTOR_SIZE]>|
            {
                &&& #[trigger] transfer.ensures((READ_DMA_EXT, lba, 1), a)
                &&& match a {
                    Some(data) => r is Ok && final(out)@ == data@,
                    None => r == Err::<(), BlockError>(BlockError::BadBuffer),
                }
            },
        r is Err ==> *final(out) == *old(out),
{
    if lba >= sectors {
        return Err(BlockError::OutOfRange);
    }
    match transfer(READ_DMA_EXT, lba, 1) {
        Some(data) => {
            assert(transfer.ensures((READ_DMA_EXT, lba, 1), Some(data)));
            *out = data;
            Ok(())
        },
        None => {
            assert(transfer.ensures((READ_DMA_EXT, lba, 1), None));
            Err(BlockError::BadBuffer)
        },
    }
}

/// The name of the disk with a number: `sda`, `sdb` and so on.
pub fn disk_name(index: usize) -> (r: String)
    requires
        index <= 158,
    ensures
        r@ == "sd"@.push((0x61 + index) as char),
{
    let mut r: String = String::new();
    crate::text::push_text(&mut r, "sd");
    let letter: u8 = 0x61 + index as u8;
    r.push(letter as char);
    assert(r@ =~= "sd"@.push((0x61 + index) as char));
    r
}

} // verus!
