//! Labels, versions, identifiers and free space, as formats store them in their
//! boot sector or superblock.

use vstd::prelude::*;
use vstd::arithmetic::power2::{lemma_pow2_unfold, pow2};
use vstd::slice::slice_subrange;
use super::{detect, first_page, is_found, FsInfo, FsType};
use crate::block::{BlockDevice, SECTOR_SIZE};
use crate::bytes::{le16, le32, le64, u16le, u32le, u64le};
use crate::fat32::names::{decode_utf16, from_utf16};
use crate::initramfs::{cstr, until_nul};
use crate::partition::joined;
use crate::text::{
    chars_of, decimal, decimal_of, hex_digit, hex_digit_of, hex_fixed, hex_of, lossy, push_chars,
    string_of, trim_white, utf8_lossy, white_back, white_front,
};

verus! {

/// What a filesystem says of itself.
pub struct Details {
    pub version: Seq<char>,
    pub label: Seq<char>,
    pub uuid: Seq<char>,
    pub available: Option<int>,
    pub used_percent: Option<int>,
}

pub open spec fn blank() -> Details {
    Details {
        version: Seq::empty(),
        label: Seq::empty(),
        uuid: Seq::empty(),
        available: None,
        used_percent: None,
    }
}

/// The text in a field that ends at a zero byte, without white space around it.
pub open spec fn text_of(field: Seq<u8>) -> Seq<char> {
    white_back(white_front(utf8_lossy(until_nul(field))))
}

fn text(field: &[u8]) -> (r: String)
    ensures
        r@ == text_of(field@),
{
    let whole: String = lossy(cstr(field));
    string_of(trim_white(chars_of(whole.as_str()).as_slice()).as_slice())
}

/// The first `n` bytes of an identifier in hexadecimal digits, with its dashes.
pub open spec fn uuid_of(b: Seq<u8>, n: int) -> Seq<char>
    decreases n,
{
    if n <= 0 {
        Seq::empty()
    } else {
        let before = uuid_of(b, n - 1);
        let dashed = if n == 5 || n == 7 || n == 9 || n == 11 {
            before.push('-')
        } else {
            before
        };
        dashed.push(hex_digit(b[n - 1] as int / 16, false)).push(
            hex_digit(b[n - 1] as int % 16, false),
        )
    }
}

pub fn hex_uuid(bytes: &[u8]) -> (r: String)
    ensures
        r@ == uuid_of(bytes@, bytes@.len() as int),
{
    let n: usize = bytes.len();
    let mut s: String = String::new();
    let mut i: usize = 0;
    while i < n
        invariant
            i <= n,
            n == bytes@.len(),
            s@ == uuid_of(bytes@, i as int),
        decreases n - i,
    {
        if i == 4 || i == 6 || i == 8 || i == 10 {
            s.push('-');
        }
        s.push(hex_digit_of(bytes[i] / 16, false));
        s.push(hex_digit_of(bytes[i] % 16, false));
        i += 1;
    }
    s
}

/// A volume serial number in two halves, where there is one.
pub open spec fn serial_of(n: int) -> Seq<char> {
    if n == 0 {
        Seq::empty()
    } else {
        hex_fixed((n / 0x1_0000) as nat, 4, true).push('-') + hex_fixed(
            (n % 0x1_0000) as nat,
            4,
            true,
        )
    }
}

fn serial_text(n: u32) -> (r: String)
    ensures
        r@ == serial_of(n as int),
{
    let mut s: String = String::new();
    if n != 0 {
        push_chars(&mut s, hex_of((n / 0x1_0000) as u64, 4, true).as_slice());
        s.push('-');
        push_chars(&mut s, hex_of((n % 0x1_0000) as u64, 4, true).as_slice());
    }
    assert(s@ =~= serial_of(n as int));
    s
}

fn hex_text(n: u64, width: usize) -> (r: String)
    ensures
        r@ == if n == 0 {
            Seq::empty()
        } else {
            hex_fixed(n as nat, width as nat, true)
        },
{
    if n == 0 {
        String::new()
    } else {
        string_of(hex_of(n, width, true).as_slice())
    }
}

fn power(n: u32) -> (r: u64)
    requires
        n < 32,
    ensures
        r == pow2(n as nat),
        1 <= r < 0x1_0000_0000,
        n < 16 ==> r < 0x1_0000,
{
    let mut r: u64 = 1;
    let mut i: u32 = 0;
    proof {
        vstd::arithmetic::power2::lemma2_to64();
    }
    while i < n
        invariant
            i <= n < 32,
            r == pow2(i as nat),
            r < 0x1_0000_0000,
        decreases n - i,
    {
        proof {
            lemma_pow2_unfold((i + 1) as nat);
            lemma_small_power(i + 1);
        }
        r = r * 2;
        i += 1;
    }
    proof {
        lemma_small_power(n as int);
    }
    r
}

proof fn lemma_small_power(n: int)
    requires
        0 <= n < 32,
    ensures
        1 <= pow2(n as nat) < 0x1_0000_0000,
        n < 16 ==> pow2(n as nat) < 0x1_0000,
{
    vstd::arithmetic::power2::lemma2_to64();
    vstd::arithmetic::power2::lemma_pow2_pos(n as nat);
    vstd::arithmetic::power2::lemma_pow2_strictly_increases(n as nat, 32);
    if n < 16 {
        vstd::arithmetic::power2::lemma_pow2_strictly_increases(n as nat, 16);
    }
}

/// A product, or the largest number where it is too large.
pub open spec fn capped(n: int) -> int {
    if n > u64::MAX {
        u64::MAX as int
    } else {
        n
    }
}

fn capped_product(a: u64, b: u64) -> (r: u64)
    ensures
        r == capped(a * b),
{
    match a.checked_mul(b) {
        Some(n) => n,
        None => u64::MAX,
    }
}

/// How much of a total is used, in percent.
pub open spec fn used(total: int, free: int) -> int {
    (total - free) * 100 / total
}

fn used_of(total: u64, free: u64) -> (r: u8)
    requires
        0 < total,
        free <= total,
    ensures
        r == used(total as int, free as int),
        r <= 100,
{
    let taken: u128 = (total - free) as u128 * 100;
    assert(taken / total as u128 <= 100) by (nonlinear_arith)
        requires
            taken == (total - free) * 100,
            free <= total,
            0 < total,
    ;
    (taken / total as u128) as u8
}

pub open spec fn min_of(a: int, b: int) -> int {
    if a < b {
        a
    } else {
        b
    }
}

/// The number of clusters that a FAT32 boot sector makes room for.
pub open spec fn fat_clusters(b: Seq<u8>) -> int {
    let start = le16(b, 14) + b[16] * le32(b, 36);
    let left = le32(b, 32) - start;
    let spc = if b[13] == 0 {
        1
    } else {
        b[13] as int
    };
    if left <= 0 {
        0
    } else {
        left / spc
    }
}

/// The number of free clusters that the information sector gives, if it does.
pub open spec fn fat_free(s: Seq<Seq<u8>>) -> Option<int> {
    let at = le16(s[0], 48);
    if at < s.len() && le32(s[at], 0) == 0x4161_5252 && le32(s[at], 484) == 0x6141_7272 && le32(
        s[at],
        488,
    ) != u32::MAX {
        Some(min_of(le32(s[at], 488), fat_clusters(s[0])))
    } else {
        None
    }
}

pub open spec fn fat32_details(s: Seq<Seq<u8>>) -> Details {
    let b = s[0];
    let clusters = fat_clusters(b);
    Details {
        version: "FAT32"@,
        label: text_of(b.subrange(71, 82)),
        uuid: serial_of(le32(b, 67)),
        available: match fat_free(s) {
            Some(free) => Some(free * b[13] * 512),
            None => None,
        },
        used_percent: match fat_free(s) {
            Some(free) => if clusters == 0 {
                None
            } else {
                Some(used(clusters, free))
            },
            None => None,
        },
    }
}

pub open spec fn vfat_details(b: Seq<u8>) -> Details {
    Details {
        version: if le16(b, 22) == 0 {
            "FAT32"@
        } else {
            "FAT"@
        },
        label: text_of(b.subrange(43, 54)),
        uuid: serial_of(le32(b, 39)),
        available: None,
        used_percent: None,
    }
}

/// What a look at directory entries ends in.
pub enum Look {
    Label(Seq<char>),
    Stop,
    On,
}

/// The 16-bit units of the label in an entry, at most fifteen.
pub open spec fn label_units(sec: Seq<u8>, at: int) -> Seq<u16> {
    Seq::new(min_of(sec[at + 1] as int, 15) as nat, |k: int| le16(sec, at + 2 + k * 2) as u16)
}

/// Look for a label in a sector from entry `i` on.
pub open spec fn look_sector(sec: Seq<u8>, i: int) -> Look
    decreases 16 - i,
{
    if i >= 16 {
        Look::On
    } else if sec[i * 32] == 0 {
        Look::Stop
    } else if sec[i * 32] == 0x83 {
        Look::Label(from_utf16(label_units(sec, i * 32)))
    } else {
        look_sector(sec, i + 1)
    }
}

/// Look for a label in the sectors from `lba + k` up to `lba + n`.
pub open spec fn look_cluster(s: Seq<Seq<u8>>, lba: int, k: int, n: int) -> Look
    decreases n - k,
{
    if k >= n {
        Look::On
    } else if lba + k >= s.len() {
        Look::Stop
    } else {
        match look_sector(s[lba + k], 0) {
            Look::On => look_cluster(s, lba, k + 1, n),
            other => other,
        }
    }
}

/// Follow the chain of the root directory for `left` clusters to its label.
pub open spec fn label_from(s: Seq<Seq<u8>>, cluster: int, left: int) -> Seq<char>
    decreases left,
{
    let b = s[0];
    let spc = pow2(b[109] as nat) as int;
    if left <= 0 || cluster < 2 {
        Seq::empty()
    } else {
        match look_cluster(s, le64(b, 88) + (cluster - 2) * spc, 0, min_of(spc, 8)) {
            Look::Label(label) => label,
            Look::Stop => Seq::empty(),
            Look::On => {
                let at = le64(b, 80) + cluster * 4 / 512;
                if at >= s.len() {
                    Seq::empty()
                } else {
                    let next = le32(s[at], cluster * 4 % 512);
                    if next >= 0xffff_fff8 {
                        Seq::empty()
                    } else {
                        label_from(s, next, left - 1)
                    }
                }
            },
        }
    }
}

pub open spec fn exfat_details(s: Seq<Seq<u8>>) -> Details {
    let b = s[0];
    let known = b[112] <= 100;
    Details {
        version: decimal(b[105] as nat).push('.') + decimal(b[107] as nat),
        label: if b[108] == 9 && b[109] < 16 {
            label_from(s, le32(b, 96), 16)
        } else {
            Seq::empty()
        },
        uuid: if le32(b, 100) == 0 {
            Seq::empty()
        } else {
            hex_fixed(le32(b, 100) as nat, 8, true)
        },
        available: if known {
            Some(capped(capped(s.len() as int * 512) * (100 - b[112])) / 100)
        } else {
            None
        },
        used_percent: if known {
            Some(b[112] as int)
        } else {
            None
        },
    }
}

pub open spec fn ntfs_details(b: Seq<u8>) -> Details {
    Details {
        uuid: if le64(b, 72) == 0 {
            Seq::empty()
        } else {
            hex_fixed(le64(b, 72) as nat, 16, true)
        },
        ..blank()
    }
}

/// A block count of an ext superblock, whose high half counts only with the
/// 64-bit feature.
pub open spec fn ext_count(b: Seq<u8>, low: int, high: int) -> int {
    if le32(b, 96) / 128 % 2 == 1 {
        le32(b, low) + le32(b, high) * 0x1_0000_0000
    } else {
        le32(b, low)
    }
}

pub open spec fn ext_details(b: Seq<u8>) -> Details {
    let blocks = ext_count(b, 4, 336);
    let free = min_of(ext_count(b, 12, 344), blocks);
    let size = 1024 * pow2(min_of(le32(b, 24), 6) as nat);
    Details {
        version: "1.0"@,
        label: text_of(b.subrange(120, 136)),
        uuid: uuid_of(b.subrange(104, 120), 16),
        available: if blocks == 0 {
            None
        } else {
            Some(capped(free * size))
        },
        used_percent: if blocks == 0 {
            None
        } else {
            Some(used(blocks, free))
        },
    }
}

pub open spec fn swap_details(page: Seq<u8>) -> Details {
    Details {
        version: decimal(le32(page, 1024) as nat),
        label: text_of(page.subrange(1052, 1068)),
        uuid: uuid_of(page.subrange(1036, 1052), 16),
        available: None,
        used_percent: None,
    }
}

/// What a filesystem of a kind on a device says of itself.
pub open spec fn details(kind: FsType, s: Seq<Seq<u8>>) -> Details {
    match kind {
        FsType::Fat32 => fat32_details(s),
        FsType::Vfat => vfat_details(s[0]),
        FsType::ExFat => exfat_details(s),
        FsType::Ntfs => ntfs_details(s[0]),
        FsType::Ext4 => ext_details(s[2]),
        FsType::LinuxSwap => swap_details(joined(s, 0, 8)),
        FsType::Unknown => blank(),
    }
}

/// Whether what was found is all that there is.
pub open spec fn is_whole(r: FsInfo, d: Details) -> bool {
    &&& r.version@ == d.version
    &&& r.label@ == d.label
    &&& r.uuid@ == d.uuid
    &&& match r.available {
        Some(n) => d.available == Some(n as int),
        None => d.available is None,
    }
    &&& match r.used_percent {
        Some(n) => d.used_percent == Some(n as int),
        None => d.used_percent is None,
    }
}

/// Whether what was found is right as far as it goes.
pub open spec fn is_part(r: FsInfo, d: Details) -> bool {
    &&& r.version@ == d.version || r.version@.len() == 0
    &&& r.label@ == d.label || r.label@.len() == 0
    &&& r.uuid@ == d.uuid || r.uuid@.len() == 0
    &&& r.available matches Some(n) ==> d.available == Some(n as int)
    &&& r.used_percent matches Some(n) ==> d.used_percent == Some(n as int)
}

/// Whether this is what is to be found on a device: all of it where no read can
/// fail.
pub open spec fn is_info<D: BlockDevice>(device: D, r: FsInfo) -> bool {
    let d = details(r.kind, device.sectors());
    &&& is_part(r, d)
    &&& device.reliable() ==> is_whole(r, d)
}

fn blank_info(kind: FsType) -> (r: FsInfo)
    ensures
        r.kind == kind,
        is_whole(r, blank()),
{
    FsInfo {
        kind,
        version: String::new(),
        label: String::new(),
        uuid: String::new(),
        available: None,
        used_percent: None,
    }
}

fn fat32_info<D: BlockDevice>(device: &D, boot: &[u8; 512]) -> (r: FsInfo)
    requires
        device.wf(),
        device.sectors().len() > 0,
        boot@ == device.sectors()[0],
        boot[13] != 0,
    ensures
        r.kind == FsType::Fat32,
        is_info(*device, r),
{
    let b: &[u8] = boot.as_slice();
    let spc: u64 = b[13] as u64;
    let spf: u64 = u32le(b, 36) as u64;
    let fats: u64 = b[16] as u64;
    proof {
        assert(0 <= fats * spf <= 255 * 0xffff_ffff) by (nonlinear_arith)
            requires
                0 <= fats <= 255,
                0 <= spf <= 0xffff_ffff,
        ;
    }
    let start: u64 = u16le(b, 14) as u64 + fats * spf;
    let total: u64 = u32le(b, 32) as u64;
    let clusters: u64 = if total <= start {
        0
    } else {
        (total - start) / spc
    };
    assert(clusters == fat_clusters(b@));
    let mut available: Option<u64> = None;
    let mut used_percent: Option<u8> = None;
    let at: u64 = u16le(b, 48) as u64;
    let mut sector: [u8; SECTOR_SIZE] = [0u8; SECTOR_SIZE];
    if at < device.sector_count() && device.read_sector(at, &mut sector).is_ok() {
        let i: &[u8] = sector.as_slice();
        if u32le(i, 0) == 0x4161_5252 && u32le(i, 484) == 0x6141_7272 && u32le(i, 488) != u32::MAX {
            let listed: u64 = u32le(i, 488) as u64;
            let free: u64 = if listed < clusters {
                listed
            } else {
                clusters
            };
            assert(fat_free(device.sectors()) == Some(free as int));
            proof {
                assert(0 <= free * spc <= 0xffff_ffff * 255) by (nonlinear_arith)
                    requires
                        0 <= free <= 0xffff_ffff,
                        0 <= spc <= 255,
                ;
            }
            available = Some(free * spc * 512);
            if clusters != 0 {
                used_percent = Some(used_of(clusters, free));
            }
        }
    }
    FsInfo {
        kind: FsType::Fat32,
        version: string_of(chars_of("FAT32").as_slice()),
        label: text(slice_subrange(b, 71, 82)),
        uuid: serial_text(u32le(b, 67)),
        available,
        used_percent,
    }
}

fn vfat_info<D: BlockDevice>(device: &D, boot: &[u8; 512]) -> (r: FsInfo)
    requires
        device.wf(),
        device.sectors().len() > 0,
        boot@ == device.sectors()[0],
    ensures
        r.kind == FsType::Vfat,
        is_info(*device, r),
{
    let b: &[u8] = boot.as_slice();
    let version: &str = if u16le(b, 22) == 0 {
        "FAT32"
    } else {
        "FAT"
    };
    FsInfo {
        kind: FsType::Vfat,
        version: string_of(chars_of(version).as_slice()),
        label: text(slice_subrange(b, 43, 54)),
        uuid: serial_text(u32le(b, 39)),
        available: None,
        used_percent: None,
    }
}

fn ntfs_info<D: BlockDevice>(device: &D, boot: &[u8; 512]) -> (r: FsInfo)
    requires
        device.wf(),
        device.sectors().len() > 0,
        boot@ == device.sectors()[0],
    ensures
        r.kind == FsType::Ntfs,
        is_info(*device, r),
{
    let mut r: FsInfo = blank_info(FsType::Ntfs);
    r.uuid = hex_text(u64le(boot.as_slice(), 72), 16);
    r
}

fn ext_info<D: BlockDevice>(device: &D) -> (r: FsInfo)
    requires
        device.wf(),
        device.sectors().len() > 2,
    ensures
        r.kind == FsType::Ext4,
        is_info(*device, r),
{
    let mut r: FsInfo = blank_info(FsType::Ext4);
    let mut sb: [u8; SECTOR_SIZE] = [0u8; SECTOR_SIZE];
    if device.read_sector(2, &mut sb).is_ok() {
        let b: &[u8] = sb.as_slice();
        r.version = string_of(chars_of("1.0").as_slice());
        r.label = text(slice_subrange(b, 120, 136));
        r.uuid = hex_uuid(slice_subrange(b, 104, 120));
        let log: u32 = u32le(b, 24);
        let size: u64 = 1024 * power(
            if log < 6 {
                log
            } else {
                6
            },
        );
        let wide: bool = u32le(b, 96) / 128 % 2 == 1;
        let blocks: u64 = if wide {
            u32le(b, 4) as u64 + u32le(b, 336) as u64 * 0x1_0000_0000
        } else {
            u32le(b, 4) as u64
        };
        let listed: u64 = if wide {
            u32le(b, 12) as u64 + u32le(b, 344) as u64 * 0x1_0000_0000
        } else {
            u32le(b, 12) as u64
        };
        if blocks != 0 {
            let free: u64 = if listed < blocks {
                listed
            } else {
                blocks
            };
            r.available = Some(capped_product(free, size));
            r.used_percent = Some(used_of(blocks, free));
        }
    }
    r
}

fn swap_info<D: BlockDevice>(device: &D) -> (r: FsInfo)
    requires
        device.wf(),
        device.sectors().len() >= 8,
    ensures
        r.kind == FsType::LinuxSwap,
        is_info(*device, r),
{
    let mut r: FsInfo = blank_info(FsType::LinuxSwap);
    match first_page(device) {
        Some(page) => {
            let b: &[u8] = page.as_slice();
            r.version = string_of(decimal_of(u32le(b, 1024) as u64).as_slice());
            r.uuid = hex_uuid(slice_subrange(b, 1036, 1052));
            r.label = text(slice_subrange(b, 1052, 1068));
        },
        None => {},
    }
    r
}

/// What a search for a label came to.
enum Found {
    Label(Vec<char>),
    Stop,
    On,
}

spec fn is_look(found: Found, look: Look) -> bool {
    match found {
        Found::Label(label) => look == Look::Label(label@),
        Found::Stop => look is Stop,
        Found::On => look is On,
    }
}

fn search_sector(dir: &[u8; 512]) -> (r: Found)
    ensures
        is_look(r, look_sector(dir@, 0)),
{
    let b: &[u8] = dir.as_slice();
    let mut i: usize = 0;
    while i < 16
        invariant
            i <= 16,
            b@ == dir@,
            b@.len() == 512,
            look_sector(dir@, 0) == look_sector(dir@, i as int),
        decreases 16 - i,
    {
        let at: usize = i * 32;
        if b[at] == 0 {
            return Found::Stop;
        }
        if b[at] == 0x83 {
            let count: usize = if b[at + 1] < 15 {
                b[at + 1] as usize
            } else {
                15
            };
            let mut units: Vec<u16> = Vec::new();
            let mut k: usize = 0;
            while k < count
                invariant
                    k <= count <= 15,
                    at + 32 <= 512,
                    b@.len() == 512,
                    units@.len() == k,
                    forall|j: int| 0 <= j < k ==> units@[j] == #[trigger] le16(b@, at + 2 + j * 2),
                decreases count - k,
            {
                units.push(u16le(b, at + 2 + k * 2));
                k += 1;
            }
            assert(units@ =~= label_units(b@, at as int)) by {
                assert forall|j: int| 0 <= j < count implies units@[j] == label_units(
                    b@,
                    at as int,
                )[j] by {
                    assert(units@[j] == le16(b@, at + 2 + j * 2));
                }
            }
            return Found::Label(decode_utf16(units.as_slice()));
        }
        i += 1;
    }
    Found::On
}

fn search_cluster<D: BlockDevice>(device: &D, lba: u64, n: u64) -> (r: Found)
    requires
        device.wf(),
        n <= 8,
    ensures
        is_look(r, look_cluster(device.sectors(), lba as int, 0, n as int)) || r is Stop
            && !device.reliable(),
{
    proof {
        device.sectors_fit();
    }
    let ghost s = device.sectors();
    let mut k: u64 = 0;
    while k < n
        invariant
            k <= n,
            device.wf(),
            s == device.sectors(),
            s.len() <= u64::MAX,
            look_cluster(s, lba as int, 0, n as int) == look_cluster(
                s,
                lba as int,
                k as int,
                n as int,
            ),
        decreases n - k,
    {
        let at: u64 = match lba.checked_add(k) {
            Some(at) => at,
            None => {
                return Found::Stop;
            },
        };
        let mut dir: [u8; SECTOR_SIZE] = [0u8; SECTOR_SIZE];
        if device.read_sector(at, &mut dir).is_err() {
            return Found::Stop;
        }
        match search_sector(&dir) {
            Found::On => {},
            other => {
                return other;
            },
        }
        k += 1;
    }
    Found::On
}

fn exfat_label<D: BlockDevice>(device: &D, boot: &[u8; 512]) -> (r: Vec<char>)
    requires
        device.wf(),
        device.sectors().len() > 0,
        boot@ == device.sectors()[0],
        boot[109] < 16,
    ensures
        r@ == label_from(device.sectors(), le32(boot@, 96), 16) || r@.len() == 0
            && !device.reliable(),
{
    proof {
        device.sectors_fit();
    }
    let ghost s = device.sectors();
    let b: &[u8] = boot.as_slice();
    let spc: u64 = power(b[109] as u32);
    let some: u64 = if spc < 8 {
        spc
    } else {
        8
    };
    let fat_start: u64 = u64le(b, 80);
    let heap_start: u64 = u64le(b, 88);
    let mut cluster: u32 = u32le(b, 96);
    let mut left: u32 = 16;
    while left > 0
        invariant
            left <= 16,
            device.wf(),
            s == device.sectors(),
            s.len() <= u64::MAX,
            forall|i: int| 0 <= i < s.len() ==> (#[trigger] s[i]).len() == 512,
            s.len() > 0,
            boot@ == s[0],
            b@ == s[0],
            b@.len() == 512,
            spc >= 1,
            spc == pow2(s[0][109] as nat),
            spc < 0x1_0000,
            some == min_of(spc as int, 8),
            fat_start == le64(b@, 80),
            heap_start == le64(b@, 88),
            label_from(s, le32(b@, 96), 16) == label_from(s, cluster as int, left as int),
        decreases left,
    {
        if cluster < 2 {
            return Vec::new();
        }
        proof {
            let c = cluster - 2;
            assert(0 <= c * spc <= 0xffff_ffff * 0x1_0000) by (nonlinear_arith)
                requires
                    0 <= c <= 0xffff_ffff,
                    0 <= spc < 0x1_0000,
            ;
        }
        let skip: u64 = (cluster as u64 - 2) * spc;
        let first: u64 = match heap_start.checked_add(skip) {
            Some(first) => first,
            None => u64::MAX,
        };
        proof {
            // A start beyond the last sector number is as far out as the last one.
            if heap_start + skip > u64::MAX {
                assert(look_cluster(s, heap_start + skip, 0, some as int) is Stop);
                assert(look_cluster(s, first as int, 0, some as int) is Stop);
            }
        }
        match search_cluster(device, first, some) {
            Found::Label(label) => {
                return label;
            },
            Found::Stop => {
                return Vec::new();
            },
            Found::On => {},
        }
        let at: u64 = match fat_start.checked_add(cluster as u64 * 4 / 512) {
            Some(at) => at,
            None => {
                return Vec::new();
            },
        };
        let mut fat: [u8; SECTOR_SIZE] = [0u8; SECTOR_SIZE];
        if device.read_sector(at, &mut fat).is_err() {
            return Vec::new();
        }
        cluster = u32le(fat.as_slice(), (cluster as u64 * 4 % 512) as usize);
        if cluster >= 0xffff_fff8 {
            return Vec::new();
        }
        left -= 1;
    }
    Vec::new()
}

fn exfat_info<D: BlockDevice>(device: &D, boot: &[u8; 512]) -> (r: FsInfo)
    requires
        device.wf(),
        device.sectors().len() > 0,
        boot@ == device.sectors()[0],
    ensures
        r.kind == FsType::ExFat,
        is_info(*device, r),
{
    let b: &[u8] = boot.as_slice();
    let mut version: String = string_of(decimal_of(b[105] as u64).as_slice());
    version.push('.');
    push_chars(&mut version, decimal_of(b[107] as u64).as_slice());
    let mut r: FsInfo = blank_info(FsType::ExFat);
    r.version = version;
    r.uuid = hex_text(u32le(b, 100) as u64, 8);
    if b[108] == 9 && b[109] < 16 {
        r.label = string_of(exfat_label(device, boot).as_slice());
    }
    let percent: u8 = b[112];
    if percent <= 100 {
        r.used_percent = Some(percent);
        let bytes: u64 = capped_product(device.sector_count(), 512);
        r.available = Some(capped_product(bytes, (100 - percent) as u64) / 100);
    }
    r
}

/// Read common filesystem label, version, and UUID fields where the format
/// stores them in its boot or superblock metadata.
pub fn inspect<D: BlockDevice>(device: &D) -> (r: FsInfo)
    requires
        device.wf(),
    ensures
        is_found(*device, r.kind),
        is_info(*device, r),
{
    let kind: FsType = detect(device);
    let mut boot: [u8; SECTOR_SIZE] = [0u8; SECTOR_SIZE];
    if device.read_sector(0, &mut boot).is_err() {
        return blank_info(kind);
    }
    match kind {
        FsType::Fat32 => fat32_info(device, &boot),
        FsType::Vfat => vfat_info(device, &boot),
        FsType::ExFat => exfat_info(device, &boot),
        FsType::Ntfs => ntfs_info(device, &boot),
        FsType::Ext4 => ext_info(device),
        FsType::LinuxSwap => swap_info(device),
        FsType::Unknown => blank_info(kind),
    }
}

} // verus!
