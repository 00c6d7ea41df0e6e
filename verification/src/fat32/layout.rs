//! Where the parts of a volume stand on the device.

use vstd::prelude::*;
use crate::bytes::{le16, le32};
use super::directory::Node;
use super::model::{Volume, MAX_CHAIN_STEPS};
use super::names::{lfn_bytes, lfn_count, short_checksum};
use super::directory::store_units;
use super::{boot_fsinfo, boot_geometry, FatError};

verus! {

/// Byte `p` of a device.
pub open spec fn byte_at(img: Seq<Seq<u8>>, p: int) -> u8 {
    img[p / 512][p % 512]
}

/// Whether a boot sector can be mounted on a device with `count` sectors, as far as it
/// says of itself: sectors of 512 bytes, clusters of a power of two of them, tables that
/// are there, no root directory and no table of the older kinds, and no more sectors than
/// the device has.
pub open spec fn is_fat32(b: Seq<u8>, total: int, count: int) -> bool {
    &&& le16(b, 11) == 512
    &&& b[13] == 1 || b[13] == 2 || b[13] == 4 || b[13] == 8 || b[13] == 16 || b[13] == 32 || b[13]
        == 64 || b[13] == 128
    &&& le16(b, 14) >= 1
    &&& b[16] >= 1
    &&& le32(b, 36) >= 1
    &&& le16(b, 17) == 0
    &&& le16(b, 22) == 0
    &&& total <= count
}

/// Whether a volume with `clusters` clusters fits a boot sector that claims `total`
/// sectors: the clusters are those that fit behind the tables, the tables have an entry for
/// each, and the root directory starts in one of them.
pub open spec fn is_filled(b: Seq<u8>, total: int, clusters: int) -> bool {
    let start = le16(b, 14) + b[16] * le32(b, 36);
    let root = le32(b, 44) % 0x1000_0000;
    &&& 1 <= clusters <= 0x0fff_fff5
    &&& start + clusters * b[13] <= total < start + (clusters + 1) * b[13]
    &&& 4 * (clusters + 2) <= 512 * le32(b, 36)
    &&& 2 <= root < clusters + 2
}

/// The sectors that a boot sector claims: the older field where it is set.
pub open spec fn claimed(b: Seq<u8>) -> int {
    if le16(b, 19) > 0 {
        le16(b, 19)
    } else {
        le32(b, 32)
    }
}

proof fn lemma_clusters(d: int, m: int, q: int)
    requires
        m > 0,
        q * m <= d < (q + 1) * m,
    ensures
        d / m == q,
{
    assert(d / m == q) by (nonlinear_arith)
        requires
            m > 0,
            q * m <= d < (q + 1) * m,
    ;
}

proof fn lemma_quotient(d: int, m: int)
    requires
        m > 0,
    ensures
        d / m * m <= d < (d / m + 1) * m,
{
    assert(d / m * m <= d < (d / m + 1) * m) by (nonlinear_arith)
        requires
            m > 0,
    ;
}

/// What a boot sector describes: the fields stand where FAT32 has them; the data follows
/// the reserved sectors and the copies of the table; there are as many clusters as fit
/// behind that. It is refused if and only if it lacks its signature, is of a kind that is
/// not supported, or describes a volume that cannot be.
pub proof fn law_boot_sector(b: Seq<u8>, count: int)
    requires
        b.len() == 512,
    ensures
        match boot_geometry(b, count) {
            Ok(g) => {
                &&& b[510] == 0x55 && b[511] == 0xaa
                &&& is_fat32(b, claimed(b), count)
                &&& is_filled(b, claimed(b), g.cluster_count as int)
                &&& g.sectors_per_cluster == b[13]
                &&& g.reserved_sectors == le16(b, 14)
                &&& g.fat_count == b[16]
                &&& g.sectors_per_fat == le32(b, 36)
                &&& g.root_cluster == le32(b, 44) % 0x1000_0000
                &&& g.data_start == g.reserved_sectors + g.fat_count * g.sectors_per_fat
            },
            Err(e) => if b[510] == 0x55 && b[511] == 0xaa && !is_fat32(b, claimed(b), count) {
                e == FatError::Unsupported
            } else {
                &&& e == FatError::InvalidBootSector
                &&& b[510] == 0x55 && b[511] == 0xaa ==> forall|n: int| !is_filled(b, claimed(b), n)
            },
        },
{
    let total = claimed(b);
    let start = le16(b, 14) + b[16] * le32(b, 36);
    assert(0 <= b[16] * le32(b, 36) <= 0xff * 0xffff_ffff) by (nonlinear_arith)
        requires
            0 <= b[16] <= 0xff,
            0 <= le32(b, 36) <= 0xffff_ffff,
    ;
    if b[13] > 0 {
        lemma_quotient(total - start, b[13] as int);
    }
    if b[510] == 0x55 && b[511] == 0xaa && is_fat32(b, total, count) && boot_geometry(b, count) is Err {
        assert forall|n: int| !is_filled(b, total, n) by {
            if is_filled(b, total, n) {
                lemma_clusters(total - start, b[13] as int, n);
                assert(n * b[13] >= 1) by (nonlinear_arith)
                    requires
                        n >= 1,
                        b[13] >= 1,
                ;
            }
        }
    }
}

/// The sector that a boot sector names for the summary of free space is one of the
/// reserved ones, and not the boot sector itself.
pub proof fn law_summary_sector(b: Seq<u8>)
    ensures
        match boot_fsinfo(b) {
            Some(n) => n == le16(b, 48) && 0 < n < le16(b, 14),
            None => le16(b, 48) == 0 || le16(b, 48) >= le16(b, 14),
        },
{
}

impl Volume {
    /// The table entry of a cluster is the low 28 bits of the four bytes at four times its
    /// number, from the first sector behind the reserved ones on.
    pub proof fn law_table_entries(self, c: u32)
        requires
            self.wf(),
            c < self.g.cluster_count + 2,
        ensures
            ({
                let p = 512 * self.g.reserved_sectors + 4 * c;
                self.fat(c) == (byte_at(self.img, p) + 0x100 * byte_at(self.img, p + 1) + 0x1_0000
                    * byte_at(self.img, p + 2) + 0x100_0000 * byte_at(self.img, p + 3))
                    % 0x1000_0000
            }),
    {
        let p = 512 * self.g.reserved_sectors + 4 * c;
        let s = self.g.reserved_sectors + c as int / 128;
        assert(self.g.fat_lba(0, c as int / 128) == s);
        assert(p / 512 == s && (p + 1) / 512 == s && (p + 2) / 512 == s && (p + 3) / 512 == s);
        assert(p % 512 == c as int % 128 * 4);
    }

    /// The bytes of a cluster stand one after the other, behind those of the clusters
    /// before it, of which the first is number 2.
    pub proof fn law_cluster_bytes(self, c: u32, i: int)
        requires
            self.wf(),
            self.g.is_cluster(c),
            0 <= i < 512 * self.g.sectors_per_cluster,
        ensures
            self.data(c).len() == 512 * self.g.sectors_per_cluster,
            self.data(c)[i] == byte_at(
                self.img,
                512 * (self.g.data_start + (c - 2) * self.g.sectors_per_cluster) + i,
            ),
    {
        let l = self.g.data_start + (c - 2) * self.g.sectors_per_cluster;
        assert((512 * l + i) / 512 == l + i / 512 && (512 * l + i) % 512 == i % 512);
    }

    /// A cluster is followed by the one that its table entry names; it is the last one
    /// where that is an end mark; any other value is an error.
    pub proof fn law_next_cluster(self, c: u32)
        requires
            2 <= c < self.g.cluster_count + 2,
            self.g.cluster_count <= 0x0fff_fff5,
        ensures
            match self.next(c) {
                Ok(None) => self.fat(c) >= 0x0fff_fff8,
                Ok(Some(d)) => d == self.fat(c) && 2 <= d < self.g.cluster_count + 2 && d
                    < 0x0fff_fff0,
                Err(e) => e == FatError::Corrupt && self.fat(c) < 0x0fff_fff8 && (self.fat(c) < 2
                    || self.fat(c) >= self.g.cluster_count + 2 || self.fat(c) >= 0x0fff_fff0),
            },
    {
    }

    /// Byte `i` of a file is byte `i` of its clusters, one after the other in the order of
    /// its chain, and a read gives those from its offset on, as many as there are.
    #[verifier::spinoff_prover]
    #[verifier::rlimit(40)]
    pub proof fn law_file_bytes(self, node: Node, chain: Seq<u32>, offset: int, len: int, i: int)
        requires
            self.wf(),
            !node.is_dir,
            self.linked(chain),
            0 < chain.len() < MAX_CHAIN_STEPS,
            chain[0] == node.first,
            node.size <= chain.len() * (512 * self.g.sectors_per_cluster),
            0 <= offset,
            0 <= len,
        ensures
            self.read_node(node, offset, len) matches Ok(b) && {
                &&& b.len() == if offset >= node.size {
                    0
                } else if offset + len <= node.size {
                    len
                } else {
                    node.size - offset
                }
                &&& 0 <= i < b.len() ==> b[i] == self.data(
                    chain[(offset + i) / (512 * self.g.sectors_per_cluster)],
                )[(offset + i) % (512 * self.g.sectors_per_cluster)]
            },
    {
        let size = self.g.cluster_size();
        assert(size == 512 * self.g.sectors_per_cluster);
        if offset < node.size && len > 0 {
            let n = if len < node.size - offset {
                len
            } else {
                node.size - offset
            };
            assert(chain.len() * size <= MAX_CHAIN_STEPS * size) by (nonlinear_arith)
                requires
                    chain.len() <= MAX_CHAIN_STEPS,
                    size >= 0,
            ;
            self.lemma_read_content(node, chain, offset, n);
            assert(self.read_node(node, offset, len) == self.read_node(node, offset, n));
            let all = self.content(chain);
            assert(all.subrange(offset, offset + n).len() == n);
            if 0 <= i < n {
                assert(all.subrange(offset, offset + n)[i] == all[offset + i]);
            }
        }
    }
}

/// Unit `i` of a long name as it is written down: a zero ends the name where there is room,
/// and ones fill what is left.
pub open spec fn written_unit(units: Seq<u16>, i: int) -> int {
    if i < units.len() {
        units[i] as int
    } else if i == units.len() {
        0
    } else {
        0xffff
    }
}

/// Where the thirteen units of a long-name record stand in it.
pub open spec fn unit_places() -> Seq<int> {
    seq![1, 3, 5, 7, 9, 14, 16, 18, 20, 22, 24, 28, 30]
}

/// The records of a long name: each says its number, and the one with the end of the name
/// that it is the last; it carries the checksum of the 8.3 name and thirteen units at the
/// places that FAT32 has for them.
pub proof fn law_long_name_records(units: Seq<u16>, order: int, checksum: u8)
    requires
        1 <= units.len() <= 255,
        1 <= order <= lfn_count(units.len() as int),
    ensures
        13 * (lfn_count(units.len() as int) - 1) <= units.len() < 13 * lfn_count(
            units.len() as int,
        ),
        ({
            let e = lfn_bytes(units, order, checksum);
            &&& e.len() == 32
            &&& e[0] == if units.len() < 13 * order {
                order + 0x40
            } else {
                order
            }
            &&& e[11] == 0x0f
            &&& e[12] == 0
            &&& e[13] == checksum
            &&& e[26] == 0 && e[27] == 0
            &&& forall|k: int|
                0 <= k < 13 ==> le16(e, #[trigger] unit_places()[k]) == written_unit(
                    units,
                    13 * (order - 1) + k,
                )
        }),
{
    let e = lfn_bytes(units, order, checksum);
    assert forall|k: int| 0 <= k < 13 implies le16(e, #[trigger] unit_places()[k]) == written_unit(
        units,
        13 * (order - 1) + k,
    ) by {
        assert(k == 0 || k == 1 || k == 2 || k == 3 || k == 4 || k == 5 || k == 6 || k == 7 || k == 8
            || k == 9 || k == 10 || k == 11 || k == 12);
        let p = unit_places()[k];
        let u = super::names::lfn_unit(units, 13 * (order - 1) + k);
        assert(e[p] == u % 0x100 && e[p + 1] == u / 0x100);
    }
}

/// Reading a long-name record takes its thirteen units from the same places, and puts them
/// where the number of the record says.
pub proof fn law_long_name_is_gathered(units: Seq<u16>, order: int, e: Seq<u8>)
    requires
        1 <= order <= 20,
        e.len() == 32,
        units.len() == 260,
    ensures
        store_units(units, order, e).len() == 260,
        forall|k: int|
            0 <= k < 13 ==> store_units(units, order, e)[13 * (order - 1) + k] == le16(
                e,
                #[trigger] unit_places()[k],
            ),
        forall|i: int|
            0 <= i < 260 && !(13 * (order - 1) <= i < 13 * order) ==> #[trigger] store_units(
                units,
                order,
                e,
            )[i] == units[i],
{
    assert forall|k: int| 0 <= k < 13 implies store_units(units, order, e)[13 * (order - 1) + k]
        == le16(e, #[trigger] unit_places()[k]) by {
        assert(k == 0 || k == 1 || k == 2 || k == 3 || k == 4 || k == 5 || k == 6 || k == 7 || k == 8
            || k == 9 || k == 10 || k == 11 || k == 12);
    }
}

/// The checksum of an 8.3 name: starting from zero, for each byte the sum so far is turned
/// right by one bit, and the byte is added. What is turned right by one bit is the half of
/// an even number, and half of 255 more than an odd one.
pub proof fn law_short_name_checksum(s: Seq<u8>, x: u8)
    ensures
        short_checksum(Seq::empty()) == 0,
        exists|turned: int|
            (2 * turned == short_checksum(s) || 2 * turned == short_checksum(s) + 0xff) && (
            #[trigger] (turned + x)) % 0x100 == short_checksum(s.push(x)),
{
    assert(s.push(x).drop_last() =~= s);
    let c = short_checksum(s);
    let turned = c % 2 * 0x80 + c / 2;
    assert((turned + x) % 0x100 == short_checksum(s.push(x)));
}

} // verus!
