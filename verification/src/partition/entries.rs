//! What a scan gives for each entry of a partition table, in terms of the sectors of the
//! device.

use vstd::prelude::*;
use crate::block::BlockDevice;
use crate::bytes::{le32, le64};
use super::{
    checked_header, crc_of, gpt_bytes, gpt_entries, gpt_parts, gpt_sectors, is_scan, joined,
    lemma_joined_len, lemma_table_size, mbr_parts, table_of, Partition, PartitionError, TableKind,
};

verus! {

/// The first `n` bytes from a sector on.
pub open spec fn bytes_from(s: Seq<Seq<u8>>, sector: int, n: int) -> Seq<u8> {
    Seq::new(n as nat, |j: int| s[sector + j / 512][j % 512])
}

/// The entries of a GPT that are looked at.
pub open spec fn entries_of(h: Seq<u8>) -> int {
    if le32(h, 80) > 4096 {
        4096
    } else {
        le32(h, 80)
    }
}

/// Where an entry of a size starts.
pub open spec fn start_of(e: int, size: int) -> int {
    e * size
}

/// Whether the entry at a place has a type.
pub open spec fn has_type(raw: Seq<u8>, at: int) -> bool {
    exists|k: int| 0 <= k < 16 && #[trigger] raw[at + k] != 0
}

/// Whether the blocks of the entry at a place lie on a device with `total` of them.
pub open spec fn is_on(raw: Seq<u8>, at: int, total: int) -> bool {
    0 < le64(raw, at + 32) <= le64(raw, at + 40) < total
}

/// Whether a partition is the one of GPT entry `e`: from its first to its last block.
pub open spec fn is_of_entry(p: Partition, raw: Seq<u8>, e: int, size: int) -> bool {
    &&& p.index == e + 1
    &&& p.start_lba == le64(raw, start_of(e, size) + 32)
    &&& p.start_lba + p.sectors == le64(raw, start_of(e, size) + 40) + 1
    &&& p.type_tag == le32(raw, start_of(e, size))
    &&& p.table == TableKind::Gpt
}

/// Whether partitions are those of the first `n` entries of a GPT that have a type, in
/// their order.
pub open spec fn are_of_entries(p: Seq<Partition>, raw: Seq<u8>, size: int, n: int) -> bool {
    &&& forall|i: int|
        0 <= i < p.len() ==> 1 <= (#[trigger] p[i]).index <= n && has_type(
            raw,
            start_of(p[i].index - 1, size),
        ) && is_of_entry(p[i], raw, p[i].index - 1, size)
    &&& forall|e: int|
        0 <= e < n && has_type(raw, #[trigger] start_of(e, size)) ==> exists|i: int|
            0 <= i < p.len() && (#[trigger] p[i]).index == e + 1
    &&& forall|i: int, j: int|
        0 <= i < j < p.len() ==> (#[trigger] p[i]).index < (#[trigger] p[j]).index
}

/// Whether each of the first `n` entries that has a type lies on the device.
pub open spec fn all_on(raw: Seq<u8>, size: int, n: int, total: int) -> bool {
    forall|e: int|
        0 <= e < n && has_type(raw, #[trigger] start_of(e, size)) ==> is_on(
            raw,
            start_of(e, size),
            total,
        )
}

proof fn lemma_unused(raw: Seq<u8>, at: int)
    ensures
        super::is_unused(raw, at) == !has_type(raw, at),
{
    if !has_type(raw, at) {
        assert forall|k: int| at <= k < at + 16 implies raw[k] == 0 by {
            assert(raw[at + (k - at)] == 0);
        }
    }
}

proof fn lemma_gpt_parts(raw: Seq<u8>, size: int, total: int, n: int)
    requires
        0 <= n <= 4096,
        total <= u64::MAX,
    ensures
        gpt_parts(raw, size, total, n) matches Ok(p) ==> are_of_entries(p, raw, size, n),
        gpt_parts(raw, size, total, n) is Ok <==> all_on(raw, size, n, total),
        gpt_parts(raw, size, total, n) matches Err(e) ==> e == PartitionError::Corrupt,
    decreases n,
{
    if n > 0 {
        lemma_gpt_parts(raw, size, total, n - 1);
        let at = start_of(n - 1, size);
        lemma_unused(raw, at);
        let before = gpt_parts(raw, size, total, n - 1);
        let after = gpt_parts(raw, size, total, n);
        if before is Ok {
            let q = before->Ok_0;
            assert forall|e: int| 0 <= e < n - 1 && has_type(
                raw,
                #[trigger] start_of(e, size),
            ) implies is_on(raw, start_of(e, size), total) by {}
            if after is Ok {
                let p = after->Ok_0;
                if has_type(raw, at) {
                    assert(p[q.len() as int].index == n);
                }
                assert forall|e: int| 0 <= e < n && has_type(
                    raw,
                    #[trigger] start_of(e, size),
                ) implies exists|i: int| 0 <= i < p.len() && (#[trigger] p[i]).index == e + 1 by {
                    if e < n - 1 {
                        let i = choose|i: int| 0 <= i < q.len() && (#[trigger] q[i]).index == e + 1;
                        assert(p[i] == q[i]);
                    }
                }
                assert forall|i: int| 0 <= i < p.len() implies 1 <= (#[trigger] p[i]).index <= n
                    && has_type(raw, start_of(p[i].index - 1, size)) && is_of_entry(
                    p[i],
                    raw,
                    p[i].index - 1,
                    size,
                ) by {
                    if i < q.len() {
                        assert(p[i] == q[i]);
                    }
                }
                assert forall|i: int, j: int| 0 <= i < j < p.len() implies (#[trigger] p[i]).index
                    < (#[trigger] p[j]).index by {
                    assert(p[i] == q[i]);
                    if j < q.len() {
                        assert(p[j] == q[j]);
                    }
                }
            }
        }
    }
}

pub proof fn lemma_joined_bytes(s: Seq<Seq<u8>>, from: int, n: int)
    requires
        0 <= from,
        0 <= n,
        from + n <= s.len(),
        forall|i: int| 0 <= i < s.len() ==> (#[trigger] s[i]).len() == 512,
    ensures
        joined(s, from, n) == bytes_from(s, from, n * 512),
    decreases n,
{
    lemma_joined_len(s, from, n);
    if n > 0 {
        lemma_joined_bytes(s, from, n - 1);
        lemma_joined_len(s, from, n - 1);
        assert forall|j: int| 0 <= j < n * 512 implies joined(s, from, n)[j] == bytes_from(
            s,
            from,
            n * 512,
        )[j] by {
            if j < (n - 1) * 512 {
                assert(joined(s, from, n - 1)[j] == bytes_from(s, from, (n - 1) * 512)[j]);
            } else {
                assert(j / 512 == n - 1 && j % 512 == j - (n - 1) * 512);
            }
        }
    }
    assert(joined(s, from, n) =~= bytes_from(s, from, n * 512));
}

/// Whether the boot sector has an entry for a protected GPT: of type 0xee, and not empty.
pub open spec fn has_protective(b: Seq<u8>) -> bool {
    exists|k: int|
        0 <= k < 4 && #[trigger] b[446 + 16 * k + 4] == 0xee && le32(b, 446 + 16 * k + 12) != 0
}

/// Whether an entry of the boot sector is that of a partition: of a type that is neither
/// extended nor protective, and not empty.
pub open spec fn is_plain(b: Seq<u8>, k: int) -> bool {
    let kind = b[446 + 16 * k + 4];
    &&& kind != 0 && kind != 0x05 && kind != 0x0f && kind != 0x85 && kind != 0xee
    &&& le32(b, 446 + 16 * k + 12) > 0
}

/// Whether each partition of the boot sector lies on the device, behind that sector.
pub open spec fn plain_are_on(b: Seq<u8>, n: int, total: int) -> bool {
    forall|k: int|
        0 <= k < n && #[trigger] is_plain(b, k) ==> le32(b, 446 + 16 * k + 8) > 0 && le32(
            b,
            446 + 16 * k + 8,
        ) + le32(b, 446 + 16 * k + 12) <= total
}

/// Whether a partition is the one of entry `k` of the boot sector.
pub open spec fn is_of_mbr(p: Partition, b: Seq<u8>, k: int) -> bool {
    &&& p.index == k + 1
    &&& p.start_lba == le32(b, 446 + 16 * k + 8)
    &&& p.sectors == le32(b, 446 + 16 * k + 12)
    &&& p.type_tag == b[446 + 16 * k + 4]
    &&& p.table == TableKind::Mbr
}

/// Whether partitions are those of the first `n` entries of the boot sector, in their
/// order.
pub open spec fn are_of_mbr(p: Seq<Partition>, b: Seq<u8>, n: int) -> bool {
    &&& forall|i: int|
        0 <= i < p.len() ==> 1 <= (#[trigger] p[i]).index <= n && is_plain(b, p[i].index - 1)
            && is_of_mbr(p[i], b, p[i].index - 1)
    &&& forall|k: int|
        0 <= k < n && #[trigger] is_plain(b, k) ==> exists|i: int|
            0 <= i < p.len() && (#[trigger] p[i]).index == k + 1
    &&& forall|i: int, j: int|
        0 <= i < j < p.len() ==> (#[trigger] p[i]).index < (#[trigger] p[j]).index
}

proof fn lemma_mbr_parts(b: Seq<u8>, total: int, n: int)
    requires
        0 <= n <= 4,
        b.len() == 512,
    ensures
        mbr_parts(b, total, n) matches Ok(p) ==> are_of_mbr(p, b, n),
        mbr_parts(b, total, n) is Ok <==> plain_are_on(b, n, total),
        mbr_parts(b, total, n) matches Err(e) ==> e == PartitionError::Corrupt,
    decreases n,
{
    if n > 0 {
        lemma_mbr_parts(b, total, n - 1);
        let before = mbr_parts(b, total, n - 1);
        let after = mbr_parts(b, total, n);
        assert(plain_are_on(b, n, total) ==> plain_are_on(b, n - 1, total));
        assert(after is Err && before is Ok ==> is_plain(b, n - 1));
        if before is Ok && after is Ok {
            let q = before->Ok_0;
            let p = after->Ok_0;
            if is_plain(b, n - 1) {
                assert(p[q.len() as int].index == n);
            }
            assert forall|k: int| 0 <= k < n && #[trigger] is_plain(b, k) implies exists|i: int|
                0 <= i < p.len() && (#[trigger] p[i]).index == k + 1 by {
                if k < n - 1 {
                    let i = choose|i: int| 0 <= i < q.len() && (#[trigger] q[i]).index == k + 1;
                    assert(p[i] == q[i]);
                }
            }
            assert forall|i: int| 0 <= i < p.len() implies 1 <= (#[trigger] p[i]).index <= n
                && is_plain(b, p[i].index - 1) && is_of_mbr(p[i], b, p[i].index - 1) by {
                if i < q.len() {
                    assert(p[i] == q[i]);
                }
            }
            assert forall|i: int, j: int| 0 <= i < j < p.len() implies (#[trigger] p[i]).index < (
            #[trigger] p[j]).index by {
                assert(p[i] == q[i]);
                if j < q.len() {
                    assert(p[j] == q[j]);
                }
            }
        }
    }
}

proof fn lemma_protective(b: Seq<u8>)
    ensures
        has_protective(b) == exists|i: int| 0 <= i < 4 && #[trigger] super::is_protective(b, i),
{
    if has_protective(b) {
        let k = choose|k: int|
            0 <= k < 4 && #[trigger] b[446 + 16 * k + 4] == 0xee && le32(b, 446 + 16 * k + 12) != 0;
        assert(super::is_protective(b, k));
    }
    if exists|i: int| 0 <= i < 4 && #[trigger] super::is_protective(b, i) {
        let i = choose|i: int| 0 <= i < 4 && #[trigger] super::is_protective(b, i);
        assert(b[446 + 16 * i + 4] == 0xee);
    }
}

/// Whether sectors are those of a device that can have a partition table: its first one
/// ends as a boot sector does.
pub open spec fn has_boot_sector(s: Seq<Seq<u8>>) -> bool {
    &&& 2 <= s.len() <= u64::MAX
    &&& forall|i: int| 0 <= i < s.len() ==> (#[trigger] s[i]).len() == 512
    &&& s[0][510] == 0x55
    &&& s[0][511] == 0xaa
}

/// On a device whose boot sector protects no GPT the partitions are exactly those of the
/// entries of the boot sector, in their order, each with the start, the length and the type
/// of its entry. They are given if and only if all of them lie on the device.
pub proof fn law_mbr_partitions(s: Seq<Seq<u8>>)
    requires
        has_boot_sector(s),
        !has_protective(s[0]),
    ensures
        match table_of(s) {
            Ok(p) => plain_are_on(s[0], 4, s.len() as int) && are_of_mbr(p, s[0], 4),
            Err(e) => !plain_are_on(s[0], 4, s.len() as int) && e == PartitionError::Corrupt,
        },
{
    lemma_mbr_parts(s[0], s.len() as int, 4);
    lemma_protective(s[0]);
}

/// Where a GPT is accepted, the partitions are exactly those of its entries that have a
/// type, in their order. Each reaches from the first to the last block of its entry: its
/// start and its length add up to the block behind the last.
pub proof fn law_gpt_partitions(s: Seq<Seq<u8>>)
    requires
        has_boot_sector(s),
        has_protective(s[0]),
        table_of(s) is Ok,
    ensures
        ({
            let h = s[1];
            let n = entries_of(h);
            let raw = bytes_from(s, le64(h, 72), n * le32(h, 84));
            &&& are_of_entries(table_of(s)->Ok_0, raw, le32(h, 84), n)
            &&& all_on(raw, le32(h, 84), n, s.len() as int)
        }),
{
    let h = s[1];
    lemma_protective(s[0]);
    lemma_table(s);
    lemma_gpt_parts(
        bytes_from(s, le64(h, 72), entries_of(h) * le32(h, 84)),
        le32(h, 84),
        s.len() as int,
        entries_of(h),
    );
}

/// Whether partitions are those that the sectors of a device describe.
pub open spec fn is_table_of(p: Seq<Partition>, s: Seq<Seq<u8>>) -> bool {
    let h = s[1];
    let n = entries_of(h);
    &&& has_boot_sector(s)
    &&& has_protective(s[0]) ==> are_of_entries(
        p,
        bytes_from(s, le64(h, 72), n * le32(h, 84)),
        le32(h, 84),
        n,
    )
    &&& !has_protective(s[0]) ==> are_of_mbr(p, s[0], 4)
}

/// What a scan gives are the partitions that the sectors of the device describe.
pub proof fn law_scan_shows_the_table<D: BlockDevice>(
    device: D,
    r: Result<Vec<Partition>, PartitionError>,
)
    requires
        device.sectors().len() <= u64::MAX,
        forall|i: int| 0 <= i < device.sectors().len() ==> (#[trigger] device.sectors()[i]).len() == 512,
        is_scan(device, table_of(device.sectors()), r),
    ensures
        r matches Ok(v) ==> is_table_of(v@, device.sectors()),
{
    let s = device.sectors();
    if table_of(s) is Ok {
        if has_protective(s[0]) {
            law_gpt_partitions(s);
        } else {
            law_mbr_partitions(s);
        }
    }
}

proof fn lemma_table(s: Seq<Seq<u8>>)
    requires
        has_boot_sector(s),
        super::header_fault(s[1], s.len() as int) is None,
    ensures
        joined(s, le64(s[1], 72), gpt_sectors(s[1])).take(gpt_bytes(s[1])) == bytes_from(
            s,
            le64(s[1], 72),
            entries_of(s[1]) * le32(s[1], 84),
        ),
        0 < entries_of(s[1]) <= 4096,
{
    let h = s[1];
    lemma_table_size(h);
    lemma_joined_bytes(s, le64(h, 72), gpt_sectors(h));
    assert(gpt_entries(h) == entries_of(h));
    assert(joined(s, le64(h, 72), gpt_sectors(h)).take(gpt_bytes(h)) =~= bytes_from(
        s,
        le64(h, 72),
        entries_of(h) * le32(h, 84),
    ));
}

/// A header with zeros in place of its checksum, over the length that it gives.
pub open spec fn without_checksum(h: Seq<u8>) -> Seq<u8> {
    Seq::new(
        le32(h, 12) as nat,
        |i: int|
            if i == 16 || i == 17 || i == 18 || i == 19 {
                0u8
            } else {
                h[i]
            },
    )
}

/// Whether a sector is a GPT header that can be used on a device with `total` sectors.
pub open spec fn is_good_header(h: Seq<u8>, total: int) -> bool {
    &&& h.take(8) == seq![0x45u8, 0x46, 0x49, 0x20, 0x50, 0x41, 0x52, 0x54]
    &&& 92 <= le32(h, 12) <= 512
    &&& le32(h, 16) == crc_of(without_checksum(h))
    &&& 128 <= le32(h, 84) <= 4096
    &&& le32(h, 84) % 8 == 0
    &&& le32(h, 80) >= 1
    &&& 512 * (total - le64(h, 72)) >= entries_of(h) * le32(h, 84)
}

/// A GPT is accepted if and only if its header is good, the checksums are those of the
/// header and of the entries, and every entry that has a type lies on the device.
pub proof fn law_gpt_is_checked(s: Seq<Seq<u8>>)
    requires
        has_boot_sector(s),
        has_protective(s[0]),
        plain_are_on(s[0], 4, s.len() as int),
    ensures
        ({
            let h = s[1];
            let n = entries_of(h);
            let raw = bytes_from(s, le64(h, 72), n * le32(h, 84));
            table_of(s) is Ok <==> {
                &&& is_good_header(h, s.len() as int)
                &&& le32(h, 88) == crc_of(raw)
                &&& all_on(raw, le32(h, 84), n, s.len() as int)
            }
        }),
{
    let h = s[1];
    let total = s.len() as int;
    let n = entries_of(h);
    let raw = bytes_from(s, le64(h, 72), n * le32(h, 84));
    lemma_protective(s[0]);
    lemma_mbr_parts(s[0], total, 4);
    assert(gpt_entries(h) == n);
    let start = seq![0x45u8, 0x46, 0x49, 0x20, 0x50, 0x41, 0x52, 0x54];
    assert(super::is_gpt(h) == (h.take(8) == start)) by {
        if super::is_gpt(h) {
            assert(h.take(8) =~= start);
        }
        if h.take(8) == start {
            assert forall|i: int| 0 <= i < 8 implies h[i] == start[i] by {
                assert(h.take(8)[i] == start[i]);
            }
        }
    }
    if le32(h, 12) <= 512 {
        assert(checked_header(h) =~= without_checksum(h));
    }
    if le32(h, 84) <= 4096 {
        lemma_table_size(h);
    }
    if super::header_fault(h, total) is None {
        lemma_table(s);
        lemma_gpt_parts(raw, le32(h, 84), total, n);
    }
}

} // verus!
