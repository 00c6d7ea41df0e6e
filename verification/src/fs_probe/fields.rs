//! Where the names and numbers of a file system stand.

use vstd::prelude::*;
use crate::bytes::{le16, le32, le64};
use crate::fat32::names::from_utf16;
use crate::text::forms::{law_hex_fixed, law_white_space, number_of, sixteens};
use crate::text::{is_white, utf8_lossy};
use super::details::{details, exfat_details, label_units, look_sector, text_of, Look};
use super::FsType;

verus! {

/// Where the label of each kind of file system is kept.
pub proof fn law_labels(s: Seq<Seq<u8>>)
    requires
        s.len() > 2,
        forall|i: int| 0 <= i < s.len() ==> (#[trigger] s[i]).len() == 512,
    ensures
        details(FsType::Fat32, s).label == text_of(s[0].subrange(71, 82)),
        details(FsType::Vfat, s).label == text_of(s[0].subrange(43, 54)),
        details(FsType::Ext4, s).label == text_of(s[2].subrange(120, 136)),
        details(FsType::Ntfs, s).label.len() == 0,
        details(FsType::Unknown, s).label.len() == 0,
{
}

/// A label is the text in its field up to the first zero byte, without white space around it.
pub proof fn law_label_text(name: Seq<u8>, rest: Seq<u8>) -> (at: int)
    requires
        forall|i: int| 0 <= i < name.len() ==> name[i] != 0,
        rest.len() == 0 || rest[0] == 0,
    ensures
        ({
            let whole = utf8_lossy(name);
            let t = text_of(name + rest);
            &&& 0 <= at && at + t.len() <= whole.len()
            &&& t == whole.subrange(at, at + t.len())
            &&& t.len() > 0 ==> !is_white(t[0]) && !is_white(t.last())
            &&& forall|i: int|
                0 <= i < whole.len() && !(at <= i < at + t.len()) ==> is_white(#[trigger] whole[i])
        }),
{
    lemma_until_nul(name, rest, 0);
    assert((name + rest).take(name.len() as int) =~= name);
    law_white_space(utf8_lossy(name))
}

proof fn lemma_until_nul(name: Seq<u8>, rest: Seq<u8>, i: int)
    requires
        0 <= i <= name.len(),
        forall|k: int| 0 <= k < name.len() ==> name[k] != 0,
        rest.len() == 0 || rest[0] == 0,
    ensures
        crate::initramfs::field_end(name + rest, i) == name.len(),
    decreases name.len() - i,
{
    let f = name + rest;
    if i < name.len() {
        assert(f[i] == name[i]);
        lemma_until_nul(name, rest, i + 1);
    } else if rest.len() > 0 {
        assert(f[i] == rest[0]);
    }
}

/// The serial numbers of NTFS and exFAT are written in sixteen and eight digits; zero is none.
pub proof fn law_long_serial_numbers(s: Seq<Seq<u8>>)
    ensures
        le64(s[0], 72) > 0 ==> details(FsType::Ntfs, s).uuid.len() == 16 && number_of(
            details(FsType::Ntfs, s).uuid,
            16,
        ) == le64(s[0], 72),
        le64(s[0], 72) == 0 ==> details(FsType::Ntfs, s).uuid.len() == 0,
        le32(s[0], 100) > 0 ==> details(FsType::ExFat, s).uuid.len() == 8 && number_of(
            details(FsType::ExFat, s).uuid,
            16,
        ) == le32(s[0], 100),
        le32(s[0], 100) == 0 ==> details(FsType::ExFat, s).uuid.len() == 0,
{
    reveal_with_fuel(sixteens, 17);
    assert(sixteens(8) == 0x1_0000_0000);
    assert(sixteens(16) == 0x1_0000_0000_0000_0000);
    law_hex_fixed(le64(s[0], 72) as nat, 16, true);
    law_hex_fixed(le32(s[0], 100) as nat, 8, true);
}

/// The share of an exFAT volume in use is what its boot sector says, up to a hundred
/// percent; what is left of the device is available.
pub proof fn law_exfat_space(s: Seq<Seq<u8>>)
    requires
        s.len() * 512 * 100 <= u64::MAX,
    ensures
        s[0][112] <= 100 ==> exfat_details(s).used_percent == Some(s[0][112] as int)
            && exfat_details(s).available == Some(s.len() * 512 * (100 - s[0][112]) / 100),
        s[0][112] > 100 ==> exfat_details(s).used_percent is None && exfat_details(s).available is None,
{
    let n = s.len() as int * 512;
    let p = 100 - s[0][112] as int;
    if p >= 0 {
        assert(n * p <= n * 100) by (nonlinear_arith)
            requires
                0 <= p <= 100,
                0 <= n,
        ;
    }
}

/// The label of an exFAT volume is in the entry of its root directory that starts with the
/// byte 0x83: the number of its units, fifteen at most, and then the units. An entry that
/// starts with a zero byte ends the directory.
pub proof fn law_exfat_label(sec: Seq<u8>, i: int, k: int)
    requires
        0 <= k <= i < 16,
        forall|j: int| k <= j < i ==> sec[#[trigger] (32 * j)] != 0 && sec[32 * j] != 0x83,
    ensures
        sec[32 * i] == 0x83 ==> look_sector(sec, k) == Look::Label(
            from_utf16(label_units(sec, 32 * i)),
        ),
        sec[32 * i] == 0 ==> look_sector(sec, k) == Look::Stop,
        sec[32 * i] != 0 && sec[32 * i] != 0x83 && i == 15 ==> look_sector(sec, k) == Look::On,
        sec[32 * i + 1] <= 15 ==> label_units(sec, 32 * i).len() == sec[32 * i + 1],
        sec[32 * i + 1] > 15 ==> label_units(sec, 32 * i).len() == 15,
        forall|u: int|
            0 <= u < label_units(sec, 32 * i).len() ==> #[trigger] label_units(sec, 32 * i)[u]
                == le16(sec, 32 * i + 2 + 2 * u),
    decreases i - k,
{
    assert(32 * k == k * 32);
    if k < i {
        assert(sec[32 * k] != 0 && sec[32 * k] != 0x83);
        law_exfat_label(sec, i, k + 1);
    } else {
        reveal_with_fuel(look_sector, 2);
    }
}

} // verus!
