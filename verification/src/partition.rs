//! MBR and GPT partition table discovery over a block device.

use vstd::prelude::*;
use vstd::slice::slice_subrange;
use crate::block::{BlockDevice, SECTOR_SIZE};
use crate::bytes::{le32, le64, u32le, u64le};

pub mod checks;
pub mod entries;

use entries::{is_table_of, law_scan_shows_the_table};

verus! {

#[derive(Clone, Copy, Debug, PartialEq, Eq, Structural)]
pub enum TableKind {
    Mbr,
    Gpt,
}

#[derive(Clone, Copy, Debug, PartialEq, Eq, Structural)]
pub struct Partition {
    pub index: u32,
    pub start_lba: u64,
    pub sectors: u64,
    /// MBR type byte, or the low 32 bits of a GPT type GUID.
    pub type_tag: u32,
    pub table: TableKind,
}

#[derive(Clone, Copy, Debug, PartialEq, Eq, Structural)]
pub enum PartitionError {
    Io,
    InvalidTable,
    Unsupported,
    Corrupt,
}

/// Where an entry of the MBR stands.
pub open spec fn mbr_at(i: int) -> int {
    446 + i * 16
}

/// Whether an MBR entry is in use.
pub open spec fn is_in_use(b: Seq<u8>, i: int) -> bool {
    b[mbr_at(i) + 4] != 0 && le32(b, mbr_at(i) + 12) != 0
}

/// Whether an MBR entry is of a type: protective (0xee), or extended.
pub open spec fn is_protective(b: Seq<u8>, i: int) -> bool {
    is_in_use(b, i) && b[mbr_at(i) + 4] == 0xee
}

pub open spec fn is_extended(b: Seq<u8>, i: int) -> bool {
    let kind = b[mbr_at(i) + 4];
    kind == 0x05 || kind == 0x0f || kind == 0x85
}

/// The partitions of the first `n` MBR entries. Extended ones are skipped.
pub open spec fn mbr_parts(b: Seq<u8>, total: int, n: int) -> Result<
    Seq<Partition>,
    PartitionError,
>
    decreases n,
{
    if n <= 0 {
        Ok(Seq::empty())
    } else {
        match mbr_parts(b, total, n - 1) {
            Err(e) => Err(e),
            Ok(parts) => {
                let i = n - 1;
                let start = le32(b, mbr_at(i) + 8);
                let sectors = le32(b, mbr_at(i) + 12);
                if !is_in_use(b, i) || is_protective(b, i) || is_extended(b, i) {
                    Ok(parts)
                } else if start == 0 || start + sectors > total {
                    Err(PartitionError::Corrupt)
                } else {
                    Ok(
                        parts.push(
                            Partition {
                                index: (i + 1) as u32,
                                start_lba: start as u64,
                                sectors: sectors as u64,
                                type_tag: b[mbr_at(i) + 4] as u32,
                                table: TableKind::Mbr,
                            },
                        ),
                    )
                }
            },
        }
    }
}

/// One bit of a cyclic redundancy check.
pub open spec fn crc_bit(crc: u32) -> u32 {
    if crc % 2 == 1 {
        (crc / 2) ^ 0xedb8_8320u32
    } else {
        crc / 2
    }
}

pub open spec fn crc_bits(crc: u32, n: nat) -> u32
    decreases n,
{
    if n == 0 {
        crc
    } else {
        crc_bit(crc_bits(crc, (n - 1) as nat))
    }
}

/// The check over the first `n` bytes, before it is inverted.
pub open spec fn crc_over(b: Seq<u8>, n: int) -> u32
    decreases n,
{
    if n <= 0 {
        0xffff_ffff
    } else {
        crc_bits(crc_over(b, n - 1) ^ (b[n - 1] as u32), 8)
    }
}

/// The cyclic redundancy check that GPT uses.
pub open spec fn crc_of(b: Seq<u8>) -> u32 {
    !crc_over(b, b.len() as int)
}

pub fn crc32(bytes: &[u8]) -> (r: u32)
    ensures
        r == crc_of(bytes@),
{
    let n: usize = bytes.len();
    let mut crc: u32 = 0xffff_ffff;
    let mut i: usize = 0;
    while i < n
        invariant
            i <= n,
            n == bytes@.len(),
            crc == crc_over(bytes@, i as int),
        decreases n - i,
    {
        let start: u32 = crc ^ (bytes[i] as u32);
        crc = start;
        let mut k: u32 = 0;
        while k < 8
            invariant
                k <= 8,
                crc == crc_bits(start, k as nat),
            decreases 8 - k,
        {
            crc = if crc % 2 == 1 {
                (crc / 2) ^ 0xedb8_8320u32
            } else {
                crc / 2
            };
            k += 1;
        }
        i += 1;
    }
    !crc
}

/// The bytes of `n` sectors.
pub open spec fn joined(s: Seq<Seq<u8>>, from: int, n: int) -> Seq<u8>
    decreases n,
{
    if n <= 0 {
        Seq::empty()
    } else {
        joined(s, from, n - 1) + s[from + n - 1]
    }
}

pub proof fn lemma_joined_len(s: Seq<Seq<u8>>, from: int, n: int)
    requires
        0 <= from,
        0 <= n,
        from + n <= s.len(),
        forall|i: int| 0 <= i < s.len() ==> (#[trigger] s[i]).len() == 512,
    ensures
        joined(s, from, n).len() == n * 512,
    decreases n,
{
    if n > 0 {
        lemma_joined_len(s, from, n - 1);
        assert(s[from + n - 1].len() == 512);
    }
}

/// A GPT header with its own checksum taken out, as far as it is long.
pub open spec fn checked_header(h: Seq<u8>) -> Seq<u8> {
    Seq::new(
        h.len(),
        |i: int|
            if 16 <= i < 20 {
                0u8
            } else {
                h[i]
            },
    ).take(le32(h, 12))
}

/// Whether a header begins with `EFI PART`.
pub open spec fn is_gpt(h: Seq<u8>) -> bool {
    h[0] == 0x45 && h[1] == 0x46 && h[2] == 0x49 && h[3] == 0x20 && h[4] == 0x50 && h[5] == 0x41
        && h[6] == 0x52 && h[7] == 0x54
}

/// The number of entries that are looked at.
pub open spec fn gpt_entries(h: Seq<u8>) -> int {
    if le32(h, 80) < 4096 {
        le32(h, 80)
    } else {
        4096
    }
}

/// The bytes that the entries take.
pub open spec fn gpt_bytes(h: Seq<u8>) -> int {
    gpt_entries(h) * le32(h, 84)
}

/// The sectors that the entries take.
pub open spec fn gpt_sectors(h: Seq<u8>) -> int {
    (gpt_bytes(h) + 511) / 512
}

/// What is wrong with a GPT header on a device with `total` sectors.
pub open spec fn header_fault(h: Seq<u8>, total: int) -> Option<PartitionError> {
    if !is_gpt(h) {
        Some(PartitionError::InvalidTable)
    } else if le32(h, 12) < 92 || le32(h, 12) > 512 {
        Some(PartitionError::Corrupt)
    } else if crc_of(checked_header(h)) != le32(h, 16) {
        Some(PartitionError::Corrupt)
    } else if le32(h, 84) < 128 || le32(h, 84) > 4096 || le32(h, 84) % 8 != 0 || gpt_entries(h)
        == 0 {
        Some(PartitionError::Unsupported)
    } else if le64(h, 72) + gpt_sectors(h) > total {
        Some(PartitionError::Corrupt)
    } else {
        None
    }
}

/// Whether an entry is not in use: its type is all zeros.
pub open spec fn is_unused(raw: Seq<u8>, at: int) -> bool {
    forall|k: int| at <= k < at + 16 ==> raw[k] == 0
}

/// The partitions of the first `n` GPT entries of a size.
pub open spec fn gpt_parts(raw: Seq<u8>, size: int, total: int, n: int) -> Result<
    Seq<Partition>,
    PartitionError,
>
    decreases n,
{
    if n <= 0 {
        Ok(Seq::empty())
    } else {
        match gpt_parts(raw, size, total, n - 1) {
            Err(e) => Err(e),
            Ok(parts) => {
                let at = (n - 1) * size;
                let first = le64(raw, at + 32);
                let last = le64(raw, at + 40);
                if is_unused(raw, at) {
                    Ok(parts)
                } else if last < first || first == 0 || last >= total {
                    Err(PartitionError::Corrupt)
                } else {
                    Ok(
                        parts.push(
                            Partition {
                                index: n as u32,
                                start_lba: first as u64,
                                sectors: (last - first + 1) as u64,
                                type_tag: le32(raw, at) as u32,
                                table: TableKind::Gpt,
                            },
                        ),
                    )
                }
            },
        }
    }
}

/// The partitions in the GPT of a device.
pub open spec fn gpt_table(s: Seq<Seq<u8>>) -> Result<Seq<Partition>, PartitionError> {
    let h = s[1];
    let total = s.len() as int;
    match header_fault(h, total) {
        Some(e) => Err(e),
        None => {
            let raw = joined(s, le64(h, 72), gpt_sectors(h)).take(gpt_bytes(h));
            if crc_of(raw) != le32(h, 88) {
                Err(PartitionError::Corrupt)
            } else {
                gpt_parts(raw, le32(h, 84), total, gpt_entries(h))
            }
        },
    }
}

/// The partitions of a device: those of its MBR, or of its GPT where the MBR is a
/// protective one.
pub open spec fn table_of(s: Seq<Seq<u8>>) -> Result<Seq<Partition>, PartitionError> {
    let total = s.len() as int;
    if total < 2 {
        Err(PartitionError::InvalidTable)
    } else if s[0][510] != 0x55 || s[0][511] != 0xaa {
        Err(PartitionError::InvalidTable)
    } else {
        match mbr_parts(s[0], total, 4) {
            Err(e) => Err(e),
            Ok(parts) => if exists|i: int| 0 <= i < 4 && #[trigger] is_protective(s[0], i) {
                gpt_table(s)
            } else {
                Ok(parts)
            },
        }
    }
}

/// Whether a result is the one that the sectors give, or a read failed that may.
pub open spec fn is_scan<D: BlockDevice>(
    device: D,
    found: Result<Seq<Partition>, PartitionError>,
    r: Result<Vec<Partition>, PartitionError>,
) -> bool {
    ||| match r {
        Ok(v) => found == Ok::<Seq<Partition>, PartitionError>(v@),
        Err(e) => found == Err::<Seq<Partition>, PartitionError>(e),
    }
    ||| !device.reliable() && r matches Err(PartitionError::Io)
}

/// Scan the standard MBR entries or a protective MBR followed by GPT.
pub fn scan<D: BlockDevice>(device: &D) -> (r: Result<Vec<Partition>, PartitionError>)
    requires
        device.wf(),
    ensures
        is_scan(*device, table_of(device.sectors()), r),
        r matches Ok(v) ==> is_table_of(v@, device.sectors()),
{
    proof {
        device.sectors_fit();
    }
    let total: u64 = device.sector_count();
    if total < 2 {
        return Err(PartitionError::InvalidTable);
    }
    let mut mbr: [u8; SECTOR_SIZE] = [0u8; SECTOR_SIZE];
    match device.read_sector(0, &mut mbr) {
        Ok(_) => {},
        Err(_) => {
            return Err(PartitionError::Io);
        },
    }
    if mbr[510] != 0x55 || mbr[511] != 0xaa {
        return Err(PartitionError::InvalidTable);
    }
    let b: &[u8] = mbr.as_slice();
    let ghost s = device.sectors();
    let mut protective: bool = false;
    let mut parts: Vec<Partition> = Vec::new();
    let mut i: usize = 0;
    while i < 4
        invariant
            i <= 4,
            s == device.sectors(),
            s.len() == total,
            total >= 2,
            b@.len() == 512,
            b@ == s[0],
            s[0][510] == 0x55,
            s[0][511] == 0xaa,
            protective == exists|k: int| 0 <= k < i && #[trigger] is_protective(b@, k),
            mbr_parts(b@, total as int, i as int) == Ok::<Seq<Partition>, PartitionError>(parts@),
        decreases 4 - i,
    {
        let at: usize = 446 + i * 16;
        let kind: u8 = b[at + 4];
        let start: u32 = u32le(b, at + 8);
        let sectors: u32 = u32le(b, at + 12);
        if kind != 0 && sectors != 0 {
            if kind == 0xee {
                assert(is_protective(b@, i as int));
                protective = true;
            } else if kind != 0x05 && kind != 0x0f && kind != 0x85 {
                if start == 0 || start as u64 + sectors as u64 > total {
                    proof {
                        lemma_mbr_fails(b@, total as int, i + 1, 4);
                    }
                    return Err(PartitionError::Corrupt);
                }
                parts.push(
                    Partition {
                        index: i as u32 + 1,
                        start_lba: start as u64,
                        sectors: sectors as u64,
                        type_tag: kind as u32,
                        table: TableKind::Mbr,
                    },
                );
            }
        }
        i += 1;
    }
    let r: Result<Vec<Partition>, PartitionError> = if protective {
        scan_gpt(device)
    } else {
        Ok(parts)
    };
    proof {
        law_scan_shows_the_table(*device, r);
    }
    r
}

/// An entry that is corrupt makes the table corrupt.
proof fn lemma_mbr_fails(b: Seq<u8>, total: int, i: int, n: int)
    requires
        0 <= i <= n,
        mbr_parts(b, total, i) == Err::<Seq<Partition>, PartitionError>(PartitionError::Corrupt),
    ensures
        mbr_parts(b, total, n) == Err::<Seq<Partition>, PartitionError>(PartitionError::Corrupt),
    decreases n - i,
{
    if i < n {
        lemma_mbr_fails(b, total, i, n - 1);
    }
}

proof fn lemma_gpt_fails(raw: Seq<u8>, size: int, total: int, i: int, n: int)
    requires
        0 <= i <= n,
        gpt_parts(raw, size, total, i) == Err::<Seq<Partition>, PartitionError>(
            PartitionError::Corrupt,
        ),
    ensures
        gpt_parts(raw, size, total, n) == Err::<Seq<Partition>, PartitionError>(
            PartitionError::Corrupt,
        ),
    decreases n - i,
{
    if i < n {
        lemma_gpt_fails(raw, size, total, i, n - 1);
    }
}

/// Read sectors one after the other.
pub fn read_sectors<D: BlockDevice>(device: &D, from: u64, n: usize) -> (r: Option<Vec<u8>>)
    requires
        device.wf(),
        from + n <= device.sectors().len(),
        n <= 0x8000,
    ensures
        r is None ==> !device.reliable(),
        r matches Some(v) ==> v@ == joined(device.sectors(), from as int, n as int),
{
    let mut raw: Vec<u8> = Vec::new();
    let mut i: usize = 0;
    proof {
        device.sectors_fit();
    }
    while i < n
        invariant
            i <= n,
            device.wf(),
            device.sectors().len() <= u64::MAX,
            from + n <= device.sectors().len(),
            raw@ == joined(device.sectors(), from as int, i as int),
        decreases n - i,
    {
        let mut sector: [u8; SECTOR_SIZE] = [0u8; SECTOR_SIZE];
        match device.read_sector(from + i as u64, &mut sector) {
            Ok(_) => {},
            Err(_) => {
                return None;
            },
        }
        let ghost before = raw@;
        let mut k: usize = 0;
        assert(raw@ =~= before + sector@.take(0));
        while k < 512
            invariant
                k <= 512,
                sector@.len() == 512,
                raw@ == before + sector@.take(k as int),
            decreases 512 - k,
        {
            raw.push(sector[k]);
            k += 1;
            assert(raw@ =~= before + sector@.take(k as int));
        }
        assert(sector@.take(512) =~= sector@);
        i += 1;
    }
    Some(raw)
}

/// Look at the header of a GPT.
fn check_header(hdr: &[u8; 512], total: u64) -> (r: Option<PartitionError>)
    ensures
        r == header_fault(hdr@, total as int),
{
    let b: &[u8] = hdr.as_slice();
    if !(b[0] == 0x45 && b[1] == 0x46 && b[2] == 0x49 && b[3] == 0x20 && b[4] == 0x50 && b[5] == 0x41
        && b[6] == 0x52 && b[7] == 0x54) {
        return Some(PartitionError::InvalidTable);
    }
    let size: u32 = u32le(b, 12);
    if size < 92 || size > 512 {
        return Some(PartitionError::Corrupt);
    }
    let mut checked: [u8; 512] = *hdr;
    checked[16] = 0;
    checked[17] = 0;
    checked[18] = 0;
    checked[19] = 0;
    let head: &[u8] = slice_subrange(checked.as_slice(), 0, size as usize);
    assert(head@ =~= checked_header(hdr@));
    if crc32(head) != u32le(b, 16) {
        return Some(PartitionError::Corrupt);
    }
    let entry_size: u32 = u32le(b, 84);
    let listed: u32 = u32le(b, 80);
    if entry_size < 128 || entry_size > 4096 || entry_size % 8 != 0 || listed == 0 {
        return Some(PartitionError::Unsupported);
    }
    let entries: u64 = if listed < 4096 {
        listed as u64
    } else {
        4096
    };
    proof {
        lemma_table_size(hdr@);
    }
    let bytes: u64 = entries * entry_size as u64;
    let sectors: u64 = (bytes + 511) / 512;
    let table: u64 = u64le(b, 72);
    if sectors > total || table > total - sectors {
        return Some(PartitionError::Corrupt);
    }
    None
}

pub proof fn lemma_table_size(h: Seq<u8>)
    requires
        h.len() == 512,
        le32(h, 84) <= 4096,
    ensures
        0 <= gpt_bytes(h) <= 0x100_0000,
        0 <= gpt_sectors(h) <= 0x8000,
        gpt_bytes(h) <= gpt_sectors(h) * 512,
{
    let n = gpt_entries(h);
    let e = le32(h, 84);
    assert(0 <= n * e <= 0x100_0000) by (nonlinear_arith)
        requires
            0 <= n <= 4096,
            0 <= e <= 4096,
    ;
}

/// Whether an entry is all zeros in its type.
fn entry_unused(raw: &[u8], at: usize) -> (r: bool)
    requires
        at + 16 <= raw@.len(),
    ensures
        r == is_unused(raw@, at as int),
{
    let n: usize = raw.len();
    let mut k: usize = 0;
    while k < 16
        invariant
            k <= 16,
            at + 16 <= n,
            n == raw@.len(),
            forall|j: int| at <= j < at + k ==> raw@[j] == 0,
        decreases 16 - k,
    {
        if raw[at + k] != 0 {
            return false;
        }
        k += 1;
    }
    true
}

proof fn lemma_entry_fits(i: int, entries: int, size: int)
    requires
        0 <= i < entries,
        size >= 128,
    ensures
        0 <= i * size,
        i * size + size <= entries * size,
{
    assert(0 <= i * size && i * size + size <= entries * size) by (nonlinear_arith)
        requires
            0 <= i < entries,
            size >= 128,
    ;
}

fn scan_gpt<D: BlockDevice>(device: &D) -> (r: Result<Vec<Partition>, PartitionError>)
    requires
        device.wf(),
        device.sectors().len() >= 2,
    ensures
        is_scan(*device, gpt_table(device.sectors()), r),
{
    proof {
        device.sectors_fit();
    }
    let total: u64 = device.sector_count();
    let mut hdr: [u8; SECTOR_SIZE] = [0u8; SECTOR_SIZE];
    match device.read_sector(1, &mut hdr) {
        Ok(_) => {},
        Err(_) => {
            return Err(PartitionError::Io);
        },
    }
    match check_header(&hdr, total) {
        Some(e) => {
            return Err(e);
        },
        None => {},
    }
    let ghost s = device.sectors();
    let b: &[u8] = hdr.as_slice();
    let table: u64 = u64le(b, 72);
    let listed: u32 = u32le(b, 80);
    let entries: usize = if listed < 4096 {
        listed as usize
    } else {
        4096
    };
    let size: usize = u32le(b, 84) as usize;
    proof {
        lemma_table_size(hdr@);
        assert(entries * size == gpt_bytes(hdr@));
    }
    let bytes: usize = entries * size;
    let count: usize = (bytes + 511) / 512;
    let read: Vec<u8> = match read_sectors(device, table, count) {
        Some(v) => v,
        None => {
            return Err(PartitionError::Io);
        },
    };
    proof {
        lemma_joined_len(s, table as int, count as int);
    }
    let raw: &[u8] = slice_subrange(read.as_slice(), 0, bytes);
    assert(raw@ =~= joined(s, le64(hdr@, 72), gpt_sectors(hdr@)).take(gpt_bytes(hdr@)));
    if crc32(raw) != u32le(b, 88) {
        return Err(PartitionError::Corrupt);
    }
    let mut out: Vec<Partition> = Vec::new();
    let mut i: usize = 0;
    while i < entries
        invariant
            i <= entries <= 4096,
            128 <= size <= 4096,
            raw@.len() == entries * size,
            entries * size <= 0x100_0000,
            total == s.len(),
            gpt_parts(raw@, size as int, total as int, i as int) == Ok::<
                Seq<Partition>,
                PartitionError,
            >(out@),
            gpt_table(s) == gpt_parts(raw@, size as int, total as int, entries as int),
            s == device.sectors(),
        decreases entries - i,
    {
        proof {
            lemma_entry_fits(i as int, entries as int, size as int);
        }
        let at: usize = i * size;
        if !entry_unused(raw, at) {
            let first: u64 = u64le(raw, at + 32);
            let last: u64 = u64le(raw, at + 40);
            if last < first || first == 0 || last >= total {
                proof {
                    lemma_gpt_fails(
                        raw@,
                        size as int,
                        total as int,
                        i + 1,
                        entries as int,
                    );
                }
                return Err(PartitionError::Corrupt);
            }
            out.push(
                Partition {
                    index: i as u32 + 1,
                    start_lba: first,
                    sectors: last - first + 1,
                    type_tag: u32le(raw, at),
                    table: TableKind::Gpt,
                },
            );
        }
        i += 1;
    }
    Ok(out)
}

/// Every partition that a scan gives lies on the device.
pub proof fn law_partitions_lie_on_the_device(s: Seq<Seq<u8>>, i: int)
    requires
        s.len() <= u64::MAX,
        table_of(s) matches Ok(p) && 0 <= i < p.len(),
        forall|k: int| 0 <= k < s.len() ==> (#[trigger] s[k]).len() == 512,
    ensures
        ({
            let p = table_of(s)->Ok_0;
            &&& p[i].start_lba >= 1
            &&& p[i].sectors >= 1
            &&& p[i].start_lba + p[i].sectors <= s.len()
        }),
{
    let total = s.len() as int;
    lemma_mbr_on_device(s[0], total, 4);
    if exists|k: int| 0 <= k < 4 && #[trigger] is_protective(s[0], k) {
        let h = s[1];
        let raw = joined(s, le64(h, 72), gpt_sectors(h)).take(gpt_bytes(h));
        lemma_gpt_on_device(raw, le32(h, 84), total, gpt_entries(h));
    }
}

spec fn are_on_device(p: Seq<Partition>, total: int) -> bool {
    forall|i: int|
        0 <= i < p.len() ==> {
            &&& (#[trigger] p[i]).start_lba >= 1
            &&& p[i].sectors >= 1
            &&& p[i].start_lba + p[i].sectors <= total
        }
}

proof fn lemma_mbr_on_device(b: Seq<u8>, total: int, n: int)
    requires
        b.len() == 512,
        n <= 4,
        total <= u64::MAX,
    ensures
        mbr_parts(b, total, n) matches Ok(p) ==> are_on_device(p, total),
    decreases n,
{
    if n > 0 {
        lemma_mbr_on_device(b, total, n - 1);
    }
}

proof fn lemma_gpt_on_device(raw: Seq<u8>, size: int, total: int, n: int)
    requires
        total <= u64::MAX,
    ensures
        gpt_parts(raw, size, total, n) matches Ok(p) ==> are_on_device(p, total),
    decreases n,
{
    if n > 0 {
        lemma_gpt_on_device(raw, size, total, n - 1);
    }
}

} // verus!
