//! What a FAT32 volume is: the geometry, the allocation table, cluster chains
//! and cluster contents, as functions of the sectors of the device.

use vstd::prelude::*;
use crate::bytes::{le32, le32_bytes, lemma_le_round_trip, spliced, zeros};
use super::FatError;

verus! {

/// Where the parts of a volume lie.
#[derive(Clone, Copy, Debug, PartialEq, Eq, Structural)]
pub struct Geometry {
    pub sectors_per_cluster: u8,
    pub reserved_sectors: u16,
    pub fat_count: u8,
    pub sectors_per_fat: u32,
    pub root_cluster: u32,
    pub data_start: u64,
    pub cluster_count: u32,
}

/// The largest table value that ends a chain, and the one written for it.
pub const END_OF_CHAIN: u32 = 0x0fff_ffff;

/// Directory and file walks give up after this many clusters.
pub const MAX_CHAIN_STEPS: u32 = 1_000_000;

pub open spec fn is_power_of_two(b: u8) -> bool {
    b == 1 || b == 2 || b == 4 || b == 8 || b == 16 || b == 32 || b == 64 || b == 128
}

impl Geometry {
    pub open spec fn wf(self) -> bool {
        &&& is_power_of_two(self.sectors_per_cluster)
        &&& self.reserved_sectors >= 1
        &&& self.fat_count >= 1
        &&& self.sectors_per_fat >= 1
        &&& self.data_start == self.reserved_sectors + self.fat_count * self.sectors_per_fat
        &&& 1 <= self.cluster_count <= 0x0fff_fff5
        &&& self.sectors_per_fat * 128 >= self.cluster_count + 2
        &&& self.is_cluster(self.root_cluster)
    }

    pub open spec fn is_cluster(self, c: u32) -> bool {
        2 <= c < self.cluster_count + 2
    }

    /// Bytes in a cluster.
    pub open spec fn cluster_size(self) -> int {
        self.sectors_per_cluster * 512
    }

    /// The first sector of a cluster.
    pub open spec fn lba(self, c: u32) -> int {
        self.data_start + (c - 2) * self.sectors_per_cluster
    }

    /// Whether all of the volume lies on a device with these sectors.
    pub open spec fn fits(self, img: Seq<Seq<u8>>) -> bool {
        &&& self.data_start + self.cluster_count * self.sectors_per_cluster <= img.len()
        &&& img.len() <= u64::MAX
        &&& forall|i: int| 0 <= i < img.len() ==> (#[trigger] img[i]).len() == 512
    }

    /// The sectors of a cluster lie in the data area, on the device.
    pub proof fn lemma_lba(self, c: u32)
        requires
            self.wf(),
            self.is_cluster(c),
        ensures
            self.data_start <= self.lba(c),
            self.lba(c) + self.sectors_per_cluster <= self.data_start + self.cluster_count
                * self.sectors_per_cluster,
            (c - 2) * self.sectors_per_cluster <= 0xffff_ffff_ff,
    {
        let spc = self.sectors_per_cluster as int;
        let n = self.cluster_count as int;
        assert(0 <= (c - 2) * spc) by (nonlinear_arith)
            requires
                c >= 2,
                spc >= 0,
        ;
        assert((c - 2) * spc + spc <= n * spc) by (nonlinear_arith)
            requires
                c - 2 + 1 <= n,
                spc >= 0,
        ;
        assert((c - 2) * spc <= 0xffff_ffff * 0xff) by (nonlinear_arith)
            requires
                0 <= c - 2 <= 0xffff_ffff,
                0 <= spc <= 0xff,
        ;
    }

    /// Different clusters share no sector.
    pub proof fn lemma_lba_apart(self, a: u32, b: u32)
        requires
            self.wf(),
            a < b,
        ensures
            self.lba(a) + self.sectors_per_cluster <= self.lba(b),
    {
        let spc = self.sectors_per_cluster as int;
        assert((a - 2) * spc + spc <= (b - 2) * spc) by (nonlinear_arith)
            requires
                a + 1 <= b,
                spc >= 0,
        ;
    }

    /// The sectors of the copies of the table.
    pub open spec fn fat_lba(self, copy: int, sector: int) -> int {
        self.reserved_sectors + copy * self.sectors_per_fat + sector
    }

    pub proof fn lemma_fat_lba(self, copy: int, sector: int)
        requires
            self.wf(),
            0 <= copy < self.fat_count,
            0 <= sector < self.sectors_per_fat,
        ensures
            self.reserved_sectors <= self.fat_lba(copy, sector) < self.data_start,
            copy > 0 ==> self.fat_lba(copy, sector) >= self.reserved_sectors + self.sectors_per_fat,
            copy == 0 ==> self.fat_lba(copy, sector) == self.reserved_sectors + sector,
            0 <= copy * self.sectors_per_fat <= 0xff * 0xffff_ffff,
    {
        let spf = self.sectors_per_fat as int;
        let n = self.fat_count as int;
        assert(copy * spf + spf <= n * spf) by (nonlinear_arith)
            requires
                copy + 1 <= n,
                spf >= 0,
        ;
        assert(0 <= copy * spf <= 0xff * 0xffff_ffff) by (nonlinear_arith)
            requires
                0 <= copy <= 0xff,
                0 <= spf <= 0xffff_ffff,
        ;
        if copy > 0 {
            assert(copy * spf >= spf) by (nonlinear_arith)
                requires
                    copy >= 1,
                    spf >= 0,
            ;
        }
    }
}

/// A mounted volume: its geometry, the sectors of its device, where the search
/// for a free cluster starts, and the free-space summary sector.
pub struct Volume {
    pub g: Geometry,
    pub img: Seq<Seq<u8>>,
    pub hint: u32,
    pub fsinfo: Option<u16>,
    pub marked: bool,
}

/// Whether a sector is a free-space summary.
pub open spec fn is_fsinfo(s: Seq<u8>) -> bool {
    le32(s, 0) == 0x4161_5252 && le32(s, 484) == 0x6141_7272 && le32(s, 508) == 0xaa55_0000
}

/// A table sector with the entry at `at` set, the top four bits kept.
#[verifier::opaque]
pub open spec fn with_entry(s: Seq<u8>, at: int, value: u32) -> Seq<u8> {
    spliced(
        s,
        at,
        le32_bytes((le32(s, at) / 0x1000_0000 * 0x1000_0000 + value % 0x1000_0000) as u32),
    )
}

pub proof fn lemma_with_entry(s: Seq<u8>, at: int, value: u32)
    requires
        s.len() == 512,
        0 <= at <= 508,
    ensures
        with_entry(s, at, value).len() == 512,
        le32(with_entry(s, at, value), at) % 0x1000_0000 == value % 0x1000_0000,
        forall|o: int|
            0 <= o && o + 4 <= 512 && (o + 4 <= at || at + 4 <= o) ==> #[trigger] le32(
                with_entry(s, at, value),
                o,
            ) == le32(s, o),
{
    reveal(with_entry);
    let v = (le32(s, at) / 0x1000_0000 * 0x1000_0000 + value % 0x1000_0000) as u32;
    let b = le32_bytes(v);
    let w = with_entry(s, at, value);
    lemma_le_round_trip(0, v);
    assert(w[at] == b[0] && w[at + 1] == b[1] && w[at + 2] == b[2] && w[at + 3] == b[3]);
    assert(le32(w, at) == v);
}

impl Volume {
    pub open spec fn wf(self) -> bool {
        &&& self.g.wf()
        &&& self.g.fits(self.img)
        &&& self.fsinfo matches Some(n) ==> 0 < n < self.g.reserved_sectors
    }

    /// The table entry of a cluster: the low 28 bits of its four bytes.
    pub open spec fn fat(self, c: u32) -> u32 {
        (le32(self.img[self.g.fat_lba(0, c as int / 128)], c as int % 128 * 4) % 0x1000_0000) as u32
    }

    /// What follows a cluster in its chain.
    pub open spec fn next(self, c: u32) -> Result<Option<u32>, FatError> {
        if !self.g.is_cluster(c) {
            Err(FatError::Corrupt)
        } else if self.fat(c) >= 0x0fff_fff8 {
            Ok(None)
        } else if self.g.is_cluster(self.fat(c)) && self.fat(c) < 0x0fff_fff0 {
            Ok(Some(self.fat(c)))
        } else {
            Err(FatError::Corrupt)
        }
    }

    /// The chain that starts at a cluster, if it ends within `limit` clusters.
    pub open spec fn chain_from(self, c: Option<u32>, limit: nat) -> Result<Seq<u32>, FatError>
        decreases limit,
    {
        match c {
            None => Ok(Seq::empty()),
            Some(c) => if limit == 0 {
                Err(FatError::Corrupt)
            } else {
                match self.next(c) {
                    Err(e) => Err(e),
                    Ok(n) => match self.chain_from(n, (limit - 1) as nat) {
                        Err(e) => Err(e),
                        Ok(rest) => Ok(seq![c] + rest),
                    },
                }
            },
        }
    }

    /// The chain of a file or directory: none where the first cluster is zero.
    pub open spec fn chain(self, first: u32) -> Result<Seq<u32>, FatError> {
        self.chain_from(
            if first == 0 {
                None
            } else {
                Some(first)
            },
            self.g.cluster_count as nat,
        )
    }

    /// The bytes of a cluster.
    pub open spec fn data(self, c: u32) -> Seq<u8> {
        Seq::new(
            self.g.cluster_size() as nat,
            |i: int| self.img[self.g.lba(c) + i / 512][i % 512],
        )
    }

    /// The volume with other sectors.
    pub open spec fn with_img(self, img: Seq<Seq<u8>>) -> Volume {
        Volume { img, ..self }
    }

    /// The free-space summary declared unknown, once.
    pub open spec fn mark_fsinfo(self) -> Volume {
        if self.marked {
            self
        } else {
            Volume {
                marked: true,
                img: match self.fsinfo {
                    Some(n) if is_fsinfo(self.img[n as int]) => self.img.update(
                        n as int,
                        spliced(
                            spliced(self.img[n as int], 488, le32_bytes(0xffff_ffff)),
                            492,
                            le32_bytes(0xffff_ffff),
                        ),
                    ),
                    _ => self.img,
                },
                ..self
            }
        }
    }

    /// The first `copies` copies of the table with one entry set.
    pub open spec fn set_copies(self, c: u32, value: u32, copies: int) -> Seq<Seq<u8>>
        decreases copies,
    {
        if copies <= 0 {
            self.img
        } else {
            let img = self.set_copies(c, value, copies - 1);
            let lba = self.g.fat_lba(copies - 1, c as int / 128);
            img.update(lba, with_entry(img[lba], c as int % 128 * 4, value))
        }
    }

    /// One table entry set, in every copy of the table.
    #[verifier::opaque]
    pub open spec fn set_fat(self, c: u32, value: u32) -> Volume {
        let v = self.mark_fsinfo();
        v.with_img(v.set_copies(c, value, self.g.fat_count as int))
    }

    /// A cluster filled with zeros.
    pub open spec fn zero(self, c: u32) -> Volume {
        self.with_img(
            Seq::new(
                self.img.len(),
                |l: int|
                    if self.g.lba(c) <= l < self.g.lba(c) + self.g.sectors_per_cluster {
                        zeros(512)
                    } else {
                        self.img[l]
                    },
            ),
        )
    }

    /// Bytes replaced inside one sector of a cluster.
    pub open spec fn put(self, c: u32, offset: int, bytes: Seq<u8>) -> Volume {
        let lba = self.g.lba(c) + offset / 512;
        self.with_img(self.img.update(lba, spliced(self.img[lba], offset % 512, bytes)))
    }

    /// The cluster looked at in step `step` of a search from `start`.
    pub open spec fn candidate(self, start: int, step: int) -> u32 {
        (2 + (start - 2 + step) % (self.g.cluster_count as int)) as u32
    }

    /// The first free cluster from step `step` of a search on.
    pub open spec fn find_free(self, start: int, step: int) -> Option<u32>
        decreases self.g.cluster_count - step,
    {
        if step >= self.g.cluster_count {
            None
        } else if self.fat(self.candidate(start, step)) == 0 {
            Some(self.candidate(start, step))
        } else {
            self.find_free(start, step + 1)
        }
    }

    /// Where the search for a free cluster starts.
    pub open spec fn search_start(self) -> int {
        if self.hint < 2 {
            2
        } else if self.hint > self.g.cluster_count + 1 {
            self.g.cluster_count + 1
        } else {
            self.hint as int
        }
    }

    /// The first free cluster from the hint on, taken as a chain of its own and
    /// zeroed.
    #[verifier::opaque]
    pub open spec fn take_free(self) -> (Volume, Result<u32, FatError>) {
        match self.find_free(self.search_start(), 0) {
            None => (self, Err(FatError::NoSpace)),
            Some(c) => (
                Volume {
                    hint: if c == self.g.cluster_count + 1 {
                        2
                    } else {
                        (c + 1) as u32
                    },
                    ..self.set_fat(c, END_OF_CHAIN).zero(c)
                },
                Ok(c),
            ),
        }
    }

    /// The first `n` clusters of `chain` given back.
    pub open spec fn release(self, chain: Seq<u32>) -> Volume
        decreases chain.len(),
    {
        if chain.len() == 0 {
            self
        } else {
            let v = self.release(chain.drop_last()).set_fat(chain.last(), 0);
            Volume {
                hint: if chain.last() < v.hint {
                    chain.last()
                } else {
                    v.hint
                },
                ..v
            }
        }
    }

    /// A free cluster taken and linked to the end of `chain`.
    #[verifier::opaque]
    pub open spec fn extend(self, chain: Seq<u32>) -> (Volume, Result<u32, FatError>) {
        match self.take_free() {
            (v, Err(e)) => (v, Err(e)),
            (v, Ok(c)) => (
                if chain.len() > 0 {
                    v.set_fat(chain.last(), c)
                } else {
                    v
                },
                Ok(c),
            ),
        }
    }

    /// A chain cut back to its first `len` clusters.
    #[verifier::opaque]
    pub open spec fn roll_back(self, chain: Seq<u32>, len: int) -> Volume {
        let v = if len > 0 {
            self.set_fat(chain[len - 1], END_OF_CHAIN)
        } else {
            self
        };
        v.release(chain.skip(len))
    }

    /// `chain` grown to `needed` clusters. Where there is no space for that, it
    /// is cut back to its first `len` clusters.
    pub open spec fn grow(self, chain: Seq<u32>, needed: int, len: int) -> (
        Volume,
        Result<Seq<u32>, FatError>,
    )
        decreases needed - chain.len(),
    {
        if chain.len() >= needed {
            (self, Ok(chain))
        } else {
            match self.extend(chain) {
                (v, Err(e)) => (v.roll_back(chain, len), Err(e)),
                (v, Ok(c)) => v.grow(chain.push(c), needed, len),
            }
        }
    }

    /// Bytes of a file written, sector by sector.
    pub open spec fn write_range(self, chain: Seq<u32>, offset: int, data: Seq<u8>) -> Volume
        decreases data.len(),
    {
        if data.len() == 0 {
            self
        } else {
            let room = 512 - offset % 512;
            let n = if data.len() < room {
                data.len() as int
            } else {
                room
            };
            let v = self.put(
                chain[offset / self.g.cluster_size()],
                offset % self.g.cluster_size(),
                data.take(n),
            );
            v.write_range(chain, offset + n, data.skip(n))
        }
    }

    /// Replacing bytes of a cluster changes those bytes and nothing else: no
    /// other cluster, and no table entry.
    pub proof fn lemma_put(self, c: u32, offset: int, bytes: Seq<u8>)
        requires
            self.wf(),
            self.g.is_cluster(c),
            0 <= offset < self.g.cluster_size(),
            offset % 512 + bytes.len() <= 512,
        ensures
            self.put(c, offset, bytes).wf(),
            self.put(c, offset, bytes).img.len() == self.img.len(),
            self.put(c, offset, bytes).data(c) == spliced(self.data(c), offset, bytes),
            forall|d: u32|
                self.g.is_cluster(d) && d != c ==> #[trigger] self.put(c, offset, bytes).data(d)
                    == self.data(d),
            forall|d: u32|
                d < self.g.cluster_count + 2 ==> #[trigger] self.put(c, offset, bytes).fat(d)
                    == self.fat(d),
    {
        let v = self.put(c, offset, bytes);
        let at = self.g.lba(c) + offset / 512;
        self.g.lemma_lba(c);
        assert(0 <= at < self.img.len());
        assert(at >= self.g.data_start);
        assert forall|i: int| 0 <= i < v.img.len() implies (#[trigger] v.img[i]).len() == 512 by {
            assert(self.img[i].len() == 512);
        }
        assert(v.data(c) =~= spliced(self.data(c), offset, bytes)) by {
            assert forall|i: int| 0 <= i < self.g.cluster_size() implies v.data(c)[i] == spliced(
                self.data(c),
                offset,
                bytes,
            )[i] by {
                assert(self.img[self.g.lba(c) + i / 512].len() == 512);
            }
        }
        assert forall|d: u32| self.g.is_cluster(d) && d != c implies #[trigger] v.data(d)
            == self.data(d) by {
            self.g.lemma_lba(d);
            if d < c {
                self.g.lemma_lba_apart(d, c);
            } else {
                self.g.lemma_lba_apart(c, d);
            }
            assert(v.data(d) =~= self.data(d));
        }
        assert forall|d: u32| d < self.g.cluster_count + 2 implies #[trigger] v.fat(d) == self.fat(
            d,
        ) by {
            self.g.lemma_fat_lba(0, d as int / 128);
        }
    }
}

} // verus!
