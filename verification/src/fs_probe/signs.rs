//! What a filesystem is known by, and what is said of it.

use vstd::prelude::*;
use crate::bytes::{le16, le32};
use crate::partition::joined;
use crate::text::forms::{law_hex_fixed, number_of, sixteens, value_of};
use crate::text::{hex_digit, hex_fixed};
use vstd::arithmetic::power2::pow2;
use super::details::{ext_details, fat32_details, fat_clusters, serial_of, used, uuid_of};
use super::{kind_of, FsType};

verus! {

/// Whether the device has these bytes at a place.
pub open spec fn has_at(s: Seq<Seq<u8>>, at: int, mark: Seq<u8>) -> bool {
    at + mark.len() <= 512 * s.len() && forall|i: int|
        0 <= i < mark.len() ==> s[(at + i) / 512][(at + i) % 512] == #[trigger] mark[i]
}

/// Whether the first sector is that of a FAT volume of any kind.
pub open spec fn is_fat(b: Seq<u8>) -> bool {
    &&& b[510] == 0x55
    &&& b[511] == 0xaa
    &&& le16(b, 11) == 512
    &&& b[13] == 1 || b[13] == 2 || b[13] == 4 || b[13] == 8 || b[13] == 16 || b[13] == 32 || b[13]
        == 64 || b[13] == 128
}

/// The names and marks of filesystems, in ASCII.
pub open spec fn exfat_mark() -> Seq<u8> {
    seq![0x45u8, 0x58, 0x46, 0x41, 0x54, 0x20, 0x20, 0x20]
}

pub open spec fn ntfs_mark() -> Seq<u8> {
    seq![0x4eu8, 0x54, 0x46, 0x53, 0x20, 0x20, 0x20, 0x20]
}

pub open spec fn swap_mark() -> Seq<u8> {
    seq![0x53u8, 0x57, 0x41, 0x50, 0x53, 0x50, 0x41, 0x43, 0x45, 0x32]
}

pub open spec fn old_swap_mark() -> Seq<u8> {
    seq![0x53u8, 0x57, 0x41, 0x50, 0x2d, 0x53, 0x50, 0x41, 0x43, 0x45]
}

proof fn lemma_mark(s: Seq<Seq<u8>>, part: Seq<u8>, at: int, mark: Seq<u8>)
    requires
        0 <= at,
        at + mark.len() <= 512 * s.len(),
        part.len() == mark.len(),
        forall|i: int|
            0 <= i < part.len() ==> #[trigger] part[i] == s[(at + i) / 512][(at + i) % 512],
    ensures
        (part == mark) == has_at(s, at, mark),
{
    if part == mark {
        assert forall|i: int| 0 <= i < mark.len() implies s[(at + i) / 512][(at + i) % 512]
            == #[trigger] mark[i] by {
            assert(part[i] == mark[i]);
        }
    }
    if has_at(s, at, mark) {
        assert forall|i: int| 0 <= i < part.len() implies part[i] == mark[i] by {
            assert(s[(at + i) / 512][(at + i) % 512] == mark[i]);
        }
        assert(part =~= mark);
    }
}

/// A device holds what its marks say, the first of these that is there: exFAT and NTFS by
/// their names at byte 3; FAT by its boot sector, and FAT32 where there is neither a root
/// directory nor a table of the older kinds; ext by 0xef53 at byte 1080; swap by its mark at
/// the end of the first page.
pub proof fn law_marks_tell_the_kind(s: Seq<Seq<u8>>)
    requires
        s.len() > 0,
        forall|i: int| 0 <= i < s.len() ==> (#[trigger] s[i]).len() == 512,
    ensures
        kind_of(s) == if has_at(s, 3, exfat_mark()) {
            FsType::ExFat
        } else if has_at(s, 3, ntfs_mark()) {
            FsType::Ntfs
        } else if is_fat(s[0]) && le16(s[0], 17) == 0 && le16(s[0], 22) == 0 {
            FsType::Fat32
        } else if is_fat(s[0]) {
            FsType::Vfat
        } else if s.len() > 2 && has_at(s, 1080, seq![0x53u8, 0xef]) {
            FsType::Ext4
        } else if s.len() >= 8 && (has_at(s, 4086, swap_mark()) || has_at(s, 4086, old_swap_mark())) {
            FsType::LinuxSwap
        } else {
            FsType::Unknown
        },
{
    let name = s[0].subrange(3, 11);
    lemma_mark(s, name, 3, exfat_mark());
    lemma_mark(s, name, 3, ntfs_mark());
    if s.len() > 2 {
        let magic = s[2].subrange(56, 58);
        lemma_mark(s, magic, 1080, seq![0x53u8, 0xef]);
        assert(magic[0] == s[2][56] && magic[1] == s[2][57]);
        if s[2][56] == 0x53 && s[2][57] == 0xef {
            assert(magic =~= seq![0x53u8, 0xef]);
        }
    }
    if s.len() >= 8 {
        crate::partition::entries::lemma_joined_bytes(s, 0, 8);
        let mark = joined(s, 0, 8).subrange(4086, 4096);
        assert forall|i: int| 0 <= i < mark.len() implies #[trigger] mark[i] == s[(4086 + i)
            / 512][(4086 + i) % 512] by {}
        lemma_mark(s, mark, 4086, swap_mark());
        lemma_mark(s, mark, 4086, old_swap_mark());
    }
}

/// The share in use is that of what is not free, in percent, rounded down.
pub proof fn law_used_percent(total: int, free: int)
    requires
        0 < total,
        0 <= free <= total,
    ensures
        0 <= used(total, free) <= 100,
        used(total, free) * total <= 100 * (total - free) < (used(total, free) + 1) * total,
{
    let d = (total - free) * 100;
    let u = used(total, free);
    assert(u * total <= d < (u + 1) * total && 0 <= u <= 100) by (nonlinear_arith)
        requires
            u == d / total,
            d == (total - free) * 100,
            0 < total,
            0 <= free <= total,
    ;
}

/// The clusters of a FAT32 volume are those that fit behind its tables.
pub proof fn law_fat_clusters(b: Seq<u8>)
    requires
        b[13] > 0,
    ensures
        ({
            let start = le16(b, 14) + b[16] * le32(b, 36);
            let n = fat_clusters(b);
            if le32(b, 32) <= start {
                n == 0
            } else {
                start + n * b[13] <= le32(b, 32) < start + (n + 1) * b[13]
            }
        }),
{
    let left = le32(b, 32) - (le16(b, 14) + b[16] * le32(b, 36));
    let m = b[13] as int;
    if left > 0 {
        let n = left / m;
        assert(n * m <= left < (n + 1) * m) by (nonlinear_arith)
            requires
                n == left / m,
                m > 0,
        ;
    }
}

/// What is free on a FAT32 volume is what its summary says, as long as there is one and it
/// claims no more clusters than there are, in bytes.
pub proof fn law_fat32_free_space(s: Seq<Seq<u8>>, n: int)
    requires
        n == le16(s[0], 48),
        n < s.len(),
        le32(s[n], 0) == 0x4161_5252,
        le32(s[n], 484) == 0x6141_7272,
        le32(s[n], 488) <= fat_clusters(s[0]),
        le32(s[n], 488) != 0xffff_ffff,
    ensures
        fat32_details(s).available == Some(le32(s[n], 488) * s[0][13] * 512),
        fat_clusters(s[0]) > 0 ==> fat32_details(s).used_percent == Some(
            used(fat_clusters(s[0]), le32(s[n], 488)),
        ),
{
}

/// What is free on an ext filesystem is its free blocks, in bytes, where that fits; a block
/// has 1024 bytes, or twice that as many times as the superblock says.
pub proof fn law_ext_free_space(b: Seq<u8>)
    requires
        le32(b, 96) / 128 % 2 == 0,
        0 < le32(b, 4),
        le32(b, 12) <= le32(b, 4),
        le32(b, 24) <= 6,
    ensures
        ext_details(b).available == Some((le32(b, 12) * (1024 * pow2(le32(b, 24) as nat))) as int),
        ext_details(b).used_percent == Some(used(le32(b, 4), le32(b, 12))),
{
    let k = le32(b, 24) as nat;
    vstd::arithmetic::power2::lemma2_to64();
    assert(pow2(k) <= 64) by {
        assert(k == 0 || k == 1 || k == 2 || k == 3 || k == 4 || k == 5 || k == 6);
    }
    let free = le32(b, 12);
    assert(free * (1024 * pow2(k)) <= u64::MAX) by (nonlinear_arith)
        requires
            0 <= free <= 0xffff_ffff,
            0 <= pow2(k) <= 64,
    ;
}

/// The serial number of a FAT volume is written as four digits, a dash and four digits,
/// which stand for its two halves.
pub proof fn law_serial_number(n: int)
    requires
        0 < n < 0x1_0000_0000,
    ensures
        serial_of(n).len() == 9,
        serial_of(n)[4] == '-',
        number_of(serial_of(n).take(4), 16) * 0x1_0000 + number_of(serial_of(n).skip(5), 16) == n,
{
    let (h, l) = ((n / 0x1_0000) as nat, (n % 0x1_0000) as nat);
    reveal_with_fuel(sixteens, 5);
    assert(sixteens(4) == 0x1_0000);
    law_hex_fixed(h, 4, true);
    law_hex_fixed(l, 4, true);
    assert(serial_of(n).take(4) =~= hex_fixed(h, 4, true));
    assert(serial_of(n).skip(5) =~= hex_fixed(l, 4, true));
}

/// Where the digits of byte `k` of an identifier stand: its bytes are in groups of four,
/// two, two, two and six, with a dash between each two groups.
pub open spec fn uuid_place(k: int) -> int {
    2 * k + if k >= 10 {
        4int
    } else if k >= 8 {
        3
    } else if k >= 6 {
        2
    } else if k >= 4 {
        1
    } else {
        0
    }
}

/// An identifier of sixteen bytes is written in 36 characters: two hexadecimal digits for
/// each byte, in their order, and dashes at places 8, 13, 18 and 23.
pub proof fn law_uuid(b: Seq<u8>)
    requires
        b.len() == 16,
    ensures
        uuid_of(b, 16).len() == 36,
        uuid_of(b, 16)[8] == '-' && uuid_of(b, 16)[13] == '-' && uuid_of(b, 16)[18] == '-'
            && uuid_of(b, 16)[23] == '-',
        forall|k: int|
            0 <= k < 16 ==> 16 * value_of(uuid_of(b, 16)[#[trigger] uuid_place(k)]) + value_of(
                uuid_of(b, 16)[uuid_place(k) + 1],
            ) == b[k],
{
    lemma_uuid(b, 16);
}

proof fn lemma_uuid(b: Seq<u8>, n: int)
    requires
        b.len() == 16,
        0 <= n <= 16,
    ensures
        ({
            let u = uuid_of(b, n);
            &&& u.len() == if n == 0 {
                0
            } else {
                uuid_place(n - 1) + 2
            }
            &&& n > 4 ==> u[8] == '-'
            &&& n > 6 ==> u[13] == '-'
            &&& n > 8 ==> u[18] == '-'
            &&& n > 10 ==> u[23] == '-'
            &&& forall|k: int|
                0 <= k < n ==> 16 * value_of(u[#[trigger] uuid_place(k)]) + value_of(
                    u[uuid_place(k) + 1],
                ) == b[k]
        }),
    decreases n,
{
    if n > 0 {
        lemma_uuid(b, n - 1);
        let u = uuid_of(b, n);
        let t = uuid_of(b, n - 1);
        let (h, l) = (b[n - 1] as int / 16, b[n - 1] as int % 16);
        assert(value_of(hex_digit(h, false)) == h && value_of(hex_digit(l, false)) == l);
        assert forall|k: int| 0 <= k < n implies 16 * value_of(u[#[trigger] uuid_place(k)])
            + value_of(u[uuid_place(k) + 1]) == b[k] by {
            if k < n - 1 {
                assert(u[uuid_place(k)] == t[uuid_place(k)]);
                assert(u[uuid_place(k) + 1] == t[uuid_place(k) + 1]);
            }
        }
    }
}

} // verus!
