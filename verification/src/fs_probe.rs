//! On-disk filesystem identification helpers.
//!
//! Identification is deliberately separate from mounting: a recognized
//! signature does not imply that the format can be interpreted safely.

use vstd::prelude::*;
use vstd::slice::slice_subrange;
use crate::block::{BlockDevice, SECTOR_SIZE};
use crate::bytes::{le16, same_bytes, u16le};
use crate::fat32::model::is_power_of_two;
use crate::partition::joined;

pub mod details;
pub mod fields;
pub mod signs;

pub use details::inspect;





verus! {

#[derive(Clone, Copy, Debug, PartialEq, Eq, Structural)]
pub enum FsType {
    Fat32,
    Vfat,
    ExFat,
    Ntfs,
    Ext4,
    LinuxSwap,
    Unknown,
}

/// What is known of a filesystem.
pub struct FsInfo {
    pub kind: FsType,
    pub version: String,
    pub label: String,
    pub uuid: String,
    pub available: Option<u64>,
    pub used_percent: Option<u8>,
}

impl FsType {
    pub open spec fn label(self) -> Seq<char> {
        match self {
            FsType::Fat32 => "fat32"@,
            FsType::Vfat => "vfat"@,
            FsType::ExFat => "exfat"@,
            FsType::Ntfs => "ntfs"@,
            FsType::Ext4 => "ext4"@,
            FsType::LinuxSwap => "swap"@,
            FsType::Unknown => "unknown"@,
        }
    }

    pub fn name(self) -> (r: &'static str)
        ensures
            r@ == self.label(),
    {
        match self {
            FsType::Fat32 => "fat32",
            FsType::Vfat => "vfat",
            FsType::ExFat => "exfat",
            FsType::Ntfs => "ntfs",
            FsType::Ext4 => "ext4",
            FsType::LinuxSwap => "swap",
            FsType::Unknown => "unknown",
        }
    }
}

/// The OEM names `EXFAT   ` and `NTFS    `.
pub open spec fn exfat_name() -> Seq<u8> {
    seq![0x45u8, 0x58, 0x46, 0x41, 0x54, 0x20, 0x20, 0x20]
}

pub open spec fn ntfs_name() -> Seq<u8> {
    seq![0x4eu8, 0x54, 0x46, 0x53, 0x20, 0x20, 0x20, 0x20]
}

/// The swap signatures `SWAPSPACE2` and `SWAP-SPACE`.
pub open spec fn swap_name() -> Seq<u8> {
    seq![0x53u8, 0x57, 0x41, 0x50, 0x53, 0x50, 0x41, 0x43, 0x45, 0x32]
}

pub open spec fn old_swap_name() -> Seq<u8> {
    seq![0x53u8, 0x57, 0x41, 0x50, 0x2d, 0x53, 0x50, 0x41, 0x43, 0x45]
}

/// What a boot sector says by itself.
pub open spec fn boot_kind(b: Seq<u8>) -> Option<FsType> {
    if b.subrange(3, 11) == exfat_name() {
        Some(FsType::ExFat)
    } else if b.subrange(3, 11) == ntfs_name() {
        Some(FsType::Ntfs)
    } else if b[510] == 0x55 && b[511] == 0xaa && le16(b, 11) == 512 && is_power_of_two(b[13]) {
        if le16(b, 17) == 0 && le16(b, 22) == 0 {
            Some(FsType::Fat32)
        } else {
            Some(FsType::Vfat)
        }
    } else {
        None
    }
}

/// Whether a device holds an ext superblock: it starts 1024 bytes in, with its
/// magic number at 0x38.
pub open spec fn is_ext(s: Seq<Seq<u8>>) -> bool {
    s.len() > 2 && s[2][56] == 0x53 && s[2][57] == 0xef
}

/// Whether a device holds Linux swap, whose signature ends the first page.
pub open spec fn is_swap(s: Seq<Seq<u8>>) -> bool {
    s.len() >= 8 && {
        let mark = joined(s, 0, 8).subrange(4086, 4096);
        mark == swap_name() || mark == old_swap_name()
    }
}

/// The kind of filesystem on a device.
pub open spec fn kind_of(s: Seq<Seq<u8>>) -> FsType {
    if s.len() == 0 {
        FsType::Unknown
    } else {
        match boot_kind(s[0]) {
            Some(kind) => kind,
            None => if is_ext(s) {
                FsType::Ext4
            } else if is_swap(s) {
                FsType::LinuxSwap
            } else {
                FsType::Unknown
            },
        }
    }
}

/// What can be found of the kind: the kind itself, or less where reads fail.
pub open spec fn is_found<D: BlockDevice>(device: D, r: FsType) -> bool {
    let s = device.sectors();
    ||| r == kind_of(s)
    ||| !device.reliable() && (r == FsType::Unknown || r == FsType::LinuxSwap && boot_kind(s[0])
        is None && is_swap(s))
}

fn kind_of_boot(boot: &[u8; 512]) -> (r: Option<FsType>)
    ensures
        r == boot_kind(boot@),
{
    let b: &[u8] = boot.as_slice();
    let oem: &[u8] = slice_subrange(b, 3, 11);
    let exfat: [u8; 8] = [0x45, 0x58, 0x46, 0x41, 0x54, 0x20, 0x20, 0x20];
    let ntfs: [u8; 8] = [0x4e, 0x54, 0x46, 0x53, 0x20, 0x20, 0x20, 0x20];
    assert(exfat@ =~= exfat_name());
    assert(ntfs@ =~= ntfs_name());
    if same_bytes(oem, exfat.as_slice()) {
        return Some(FsType::ExFat);
    }
    if same_bytes(oem, ntfs.as_slice()) {
        return Some(FsType::Ntfs);
    }
    let spc: u8 = b[13];
    let power: bool = spc == 1 || spc == 2 || spc == 4 || spc == 8 || spc == 16 || spc == 32 || spc
        == 64 || spc == 128;
    if b[510] == 0x55 && b[511] == 0xaa && u16le(b, 11) == 512 && power {
        // The rest alone also matches FAT12 and FAT16: FAT32 has no root entries
        // and no 16-bit table size.
        if u16le(b, 17) == 0 && u16le(b, 22) == 0 {
            return Some(FsType::Fat32);
        }
        return Some(FsType::Vfat);
    }
    None
}

/// Read the first page of a device.
pub fn first_page<D: BlockDevice>(device: &D) -> (r: Option<Vec<u8>>)
    requires
        device.wf(),
        device.sectors().len() >= 8,
    ensures
        r is None ==> !device.reliable(),
        r matches Some(v) ==> v@ == joined(device.sectors(), 0, 8) && v@.len() == 4096,
{
    let r: Option<Vec<u8>> = crate::partition::read_sectors(device, 0, 8);
    proof {
        device.sectors_fit();
        crate::partition::lemma_joined_len(device.sectors(), 0, 8);
    }
    r
}

/// Probe well-known boot-sector and superblock signatures. This does not
/// validate all metadata or determine whether the volume is clean.
pub fn detect<D: BlockDevice>(device: &D) -> (r: FsType)
    requires
        device.wf(),
    ensures
        is_found(*device, r),
{
    proof {
        device.sectors_fit();
    }
    let mut boot: [u8; SECTOR_SIZE] = [0u8; SECTOR_SIZE];
    if device.read_sector(0, &mut boot).is_err() {
        return FsType::Unknown;
    }
    match kind_of_boot(&boot) {
        Some(kind) => {
            return kind;
        },
        None => {},
    }
    if device.sector_count() > 2 {
        let mut sb: [u8; SECTOR_SIZE] = [0u8; SECTOR_SIZE];
        if device.read_sector(2, &mut sb).is_ok() && sb[56] == 0x53 && sb[57] == 0xef {
            return FsType::Ext4;
        }
    }
    if device.sector_count() >= 8 {
        match first_page(device) {
            Some(page) => {
                let mark: &[u8] = slice_subrange(page.as_slice(), 4086, 4096);
                let new: [u8; 10] = [0x53, 0x57, 0x41, 0x50, 0x53, 0x50, 0x41, 0x43, 0x45, 0x32];
                let old_mark: [u8; 10] = [
                    0x53,
                    0x57,
                    0x41,
                    0x50,
                    0x2d,
                    0x53,
                    0x50,
                    0x41,
                    0x43,
                    0x45,
                ];
                assert(new@ =~= swap_name());
                assert(old_mark@ =~= old_swap_name());
                if same_bytes(mark, new.as_slice()) || same_bytes(mark, old_mark.as_slice()) {
                    return FsType::LinuxSwap;
                }
            },
            None => {},
        }
    }
    FsType::Unknown
}

} // verus!
