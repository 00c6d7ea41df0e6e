//! The allocation table: entries, free clusters and chains.

use vstd::prelude::*;
use crate::block::{BlockDevice, SECTOR_SIZE};
use crate::bytes::{copy_into, u32_to_le, u32le, zeros};
use super::{agrees, Fat32, FatError};
use super::model::{lemma_with_entry, with_entry, Geometry, Volume, END_OF_CHAIN};

verus! {

impl Volume {
    /// The table entry of a cluster, where there is one.
    pub open spec fn entry(self, c: u32) -> Result<u32, FatError> {
        if c >= self.g.cluster_count + 2 {
            Err(FatError::Corrupt)
        } else {
            Ok(self.fat(c))
        }
    }

    pub proof fn lemma_mark_wf(self)
        requires
            self.wf(),
        ensures
            self.mark_fsinfo().wf(),
            self.mark_fsinfo().g == self.g,
            self.mark_fsinfo().fsinfo == self.fsinfo,
            self.mark_fsinfo().hint == self.hint,
            self.mark_fsinfo().marked,
            self.mark_fsinfo().img.len() == self.img.len(),
    {
    }

    /// What setting an entry in some copies of the table does to the sectors.
    pub proof fn lemma_set_copies(self, c: u32, value: u32, copies: int)
        requires
            self.wf(),
            c < self.g.cluster_count + 2,
            0 <= copies <= self.g.fat_count,
        ensures
            self.set_copies(c, value, copies).len() == self.img.len(),
            forall|l: int|
                0 <= l < self.img.len() ==> (#[trigger] self.set_copies(c, value, copies)[l]).len()
                    == 512,
            forall|l: int|
                0 <= l < self.img.len() && (l < self.g.reserved_sectors || l >= self.g.data_start)
                    ==> #[trigger] self.set_copies(c, value, copies)[l] == self.img[l],
        decreases copies,
    {
        if copies > 0 {
            self.lemma_set_copies(c, value, copies - 1);
            self.g.lemma_fat_lba(copies - 1, c as int / 128);
            let before = self.set_copies(c, value, copies - 1);
            let lba = self.g.fat_lba(copies - 1, c as int / 128);
            lemma_with_entry(before[lba], c as int % 128 * 4, value);
        }
    }

    /// Sector `s` of copy `k` of the table, after an entry is set in some copies.
    pub proof fn lemma_set_copies_at(self, c: u32, value: u32, copies: int, k: int, s: int)
        requires
            self.wf(),
            c < self.g.cluster_count + 2,
            0 <= copies <= self.g.fat_count,
            0 <= k < self.g.fat_count,
            0 <= s < self.g.sectors_per_fat,
        ensures
            self.set_copies(c, value, copies)[self.g.fat_lba(k, s)] == if k < copies && s == c
                as int / 128 {
                with_entry(self.img[self.g.fat_lba(k, s)], c as int % 128 * 4, value)
            } else {
                self.img[self.g.fat_lba(k, s)]
            },
        decreases copies,
    {
        if copies > 0 {
            self.lemma_set_copies(c, value, copies - 1);
            self.lemma_set_copies_at(c, value, copies - 1, k, s);
            self.g.lemma_fat_lba(copies - 1, c as int / 128);
            self.g.lemma_fat_lba(k, s);
            let spf = self.g.sectors_per_fat as int;
            if k < copies - 1 {
                assert(k * spf + spf <= (copies - 1) * spf) by (nonlinear_arith)
                    requires
                        k + 1 <= copies - 1,
                        spf >= 0,
                ;
            } else if k > copies - 1 {
                assert((copies - 1) * spf + spf <= k * spf) by (nonlinear_arith)
                    requires
                        copies <= k,
                        spf >= 0,
                ;
            }
        }
    }
}

impl<D: BlockDevice> Fat32<D> {
    pub(crate) fn invalidate_fsinfo_hint(&mut self) -> (r: Result<(), FatError>)
        requires
            old(self).wf(),
        ensures
            final(self).kept(old(self)),
            final(self).next_free_hint == old(self).next_free_hint,
            old(self).healthy() ==> r is Ok,
            r is Ok ==> final(self).volume() == old(self).volume().mark_fsinfo(),
            r matches Err(e) ==> e == FatError::Io && final(self).volume() == old(self).volume(),
    {
        if self.fsinfo_invalidated {
            return Ok(());
        }
        let sector_no: u16 = match self.fsinfo_sector {
            Some(n) => n,
            None => {
                self.fsinfo_invalidated = true;
                return Ok(());
            },
        };
        let mut sector: [u8; SECTOR_SIZE] = [0u8; SECTOR_SIZE];
        self.read_sector(sector_no as u64, &mut sector)?;
        if u32le(sector.as_slice(), 0) == 0x4161_5252 && u32le(sector.as_slice(), 484)
            == 0x6141_7272 && u32le(sector.as_slice(), 508) == 0xaa55_0000 {
            let unknown: [u8; 4] = u32_to_le(0xffff_ffff);
            copy_into(&mut sector, 488, unknown.as_slice());
            copy_into(&mut sector, 492, unknown.as_slice());
            self.write_sector(sector_no as u64, &sector)?;
        }
        self.fsinfo_invalidated = true;
        assert(self.volume() =~= old(self).volume().mark_fsinfo());
        Ok(())
    }

    pub(crate) fn fat_entry(&self, cluster: u32) -> (r: Result<u32, FatError>)
        requires
            self.wf(),
        ensures
            agrees(r, self.volume().entry(cluster), self.device.reliable()),
    {
        if cluster >= self.geometry.cluster_count + 2 {
            return Err(FatError::Corrupt);
        }
        proof {
            self.geometry.lemma_fat_lba(0, cluster as int / 128);
        }
        let lba: u64 = self.geometry.reserved_sectors as u64 + (cluster / 128) as u64;
        let mut sector: [u8; SECTOR_SIZE] = [0u8; SECTOR_SIZE];
        self.read_sector(lba, &mut sector)?;
        Ok(u32le(sector.as_slice(), (cluster % 128 * 4) as usize) % 0x1000_0000)
    }

    pub(crate) fn set_fat_entry(&mut self, cluster: u32, value: u32) -> (r: Result<(), FatError>)
        requires
            old(self).wf(),
        ensures
            final(self).kept(old(self)),
            final(self).next_free_hint == old(self).next_free_hint,
            cluster >= old(self).geometry.cluster_count + 2 ==> r == Err::<(), FatError>(
                FatError::Corrupt,
            ) && final(self).volume() == old(self).volume(),
            cluster < old(self).geometry.cluster_count + 2 ==> {
                &&& old(self).healthy() ==> r is Ok
                &&& r is Ok ==> final(self).volume() == old(self).volume().set_fat(cluster, value)
                &&& r matches Err(e) ==> e == FatError::Io
            },
    {
        if cluster >= self.geometry.cluster_count + 2 {
            return Err(FatError::Corrupt);
        }
        reveal(Volume::set_fat);
        self.invalidate_fsinfo_hint()?;
        let ghost start = self.volume();
        proof {
            old(self).volume().lemma_mark_wf();
        }
        let at: usize = (cluster % 128 * 4) as usize;
        let mut fat: u64 = 0;
        while fat < self.geometry.fat_count as u64
            invariant
                fat <= start.g.fat_count,
                cluster < start.g.cluster_count + 2,
                at == cluster as int % 128 * 4,
                start == old(self).volume().mark_fsinfo(),
                start.wf(),
                self.kept(old(self)),
                self.next_free_hint == old(self).next_free_hint,
                self.volume() == start.with_img(start.set_copies(cluster, value, fat as int)),
            decreases start.g.fat_count - fat,
        {
            proof {
                start.g.lemma_fat_lba(fat as int, cluster as int / 128);
                start.lemma_set_copies(cluster, value, fat as int);
            }
            let lba: u64 = self.geometry.reserved_sectors as u64 + fat
                * self.geometry.sectors_per_fat as u64 + (cluster / 128) as u64;
            let mut sector: [u8; SECTOR_SIZE] = [0u8; SECTOR_SIZE];
            self.read_sector(lba, &mut sector)?;
            let before: u32 = u32le(sector.as_slice(), at);
            let word: [u8; 4] = u32_to_le(
                before / 0x1000_0000 * 0x1000_0000 + value % 0x1000_0000,
            );
            copy_into(&mut sector, at, word.as_slice());
            assert(lba == start.g.fat_lba(fat as int, cluster as int / 128));
            reveal(with_entry);
            self.write_sector(lba, &sector)?;
            fat += 1;
            assert(self.volume().img =~= start.set_copies(cluster, value, fat as int));
        }
        Ok(())
    }

    pub(crate) fn cluster_lba(&self, cluster: u32) -> (r: Result<u64, FatError>)
        requires
            self.wf(),
        ensures
            r == if self.geometry.is_cluster(cluster) {
                Ok::<u64, FatError>(self.geometry.lba(cluster) as u64)
            } else {
                Err::<u64, FatError>(FatError::Corrupt)
            },
            r matches Ok(lba) ==> lba == self.geometry.lba(cluster) && lba
                + self.geometry.sectors_per_cluster <= self.volume().img.len(),
    {
        if cluster < 2 || cluster >= self.geometry.cluster_count + 2 {
            return Err(FatError::Corrupt);
        }
        proof {
            self.geometry.lemma_lba(cluster);
        }
        Ok(
            self.geometry.data_start + (cluster as u64 - 2)
                * self.geometry.sectors_per_cluster as u64,
        )
    }

    pub(crate) fn cluster_bytes(&self) -> (n: usize)
        requires
            self.wf(),
        ensures
            n == self.geometry.cluster_size(),
            512 <= n <= 0x1_0000,
            n % 512 == 0,
    {
        self.geometry.sectors_per_cluster as usize * SECTOR_SIZE
    }

    pub(crate) fn next_cluster(&self, cluster: u32) -> (r: Result<Option<u32>, FatError>)
        requires
            self.wf(),
        ensures
            agrees(r, self.volume().next(cluster), self.device.reliable()),
    {
        if cluster < 2 || cluster >= self.geometry.cluster_count + 2 {
            return Err(FatError::Corrupt);
        }
        let next: u32 = self.fat_entry(cluster)?;
        if next >= 0x0fff_fff8 {
            Ok(None)
        } else if next < 2 || next >= 0x0fff_fff0 || next >= self.geometry.cluster_count + 2 {
            Err(FatError::Corrupt)
        } else {
            Ok(Some(next))
        }
    }

    pub(crate) fn zero_cluster(&mut self, cluster: u32) -> (r: Result<(), FatError>)
        requires
            old(self).wf(),
            old(self).geometry.is_cluster(cluster),
        ensures
            final(self).kept(old(self)),
            final(self).next_free_hint == old(self).next_free_hint,
            old(self).healthy() ==> r is Ok,
            r is Ok ==> final(self).volume() == old(self).volume().zero(cluster),
            r matches Err(e) ==> e == FatError::Io,
    {
        let first: u64 = self.cluster_lba(cluster)?;
        let zero: [u8; SECTOR_SIZE] = [0u8; SECTOR_SIZE];
        let ghost start = self.volume();
        let mut s: u64 = 0;
        while s < self.geometry.sectors_per_cluster as u64
            invariant
                s <= start.g.sectors_per_cluster,
                start == old(self).volume(),
                self.kept(old(self)),
                self.next_free_hint == old(self).next_free_hint,
                self.fsinfo_invalidated == old(self).fsinfo_invalidated,
                first == start.g.lba(cluster),
                first + start.g.sectors_per_cluster <= start.img.len(),
                start.img.len() <= u64::MAX,
                zero@.len() == 512,
                forall|i: int| 0 <= i < 512 ==> zero@[i] == 0,
                forall|l: int|
                    0 <= l < start.img.len() ==> #[trigger] self.volume().img[l] == if first <= l
                        < first + s {
                        zeros(512)
                    } else {
                        start.img[l]
                    },
            decreases start.g.sectors_per_cluster - s,
        {
            assert(zero@ =~= zeros(512));
            self.write_sector(first + s, &zero)?;
            s += 1;
        }
        assert(self.volume().img =~= start.zero(cluster).img);
        Ok(())
    }

    pub(crate) fn read_cluster(&self, cluster: u32) -> (r: Result<Vec<u8>, FatError>)
        requires
            self.wf(),
        ensures
            r matches Ok(data) ==> self.geometry.is_cluster(cluster) && data@
                == self.volume().data(cluster),
            r matches Err(e) ==> {
                ||| !self.geometry.is_cluster(cluster) && e == FatError::Corrupt
                ||| !self.device.reliable() && e == FatError::Io
            },
    {
        let first: u64 = self.cluster_lba(cluster)?;
        let n: usize = self.cluster_bytes();
        let mut data: Vec<u8> = vec![0u8; n];
        let mut s: usize = 0;
        while s < self.geometry.sectors_per_cluster as usize
            invariant
                self.wf(),
                self.geometry.is_cluster(cluster),
                s <= self.geometry.sectors_per_cluster,
                first == self.geometry.lba(cluster),
                first + self.geometry.sectors_per_cluster <= self.volume().img.len(),
                n == self.geometry.cluster_size(),
                n <= 0x1_0000,
                data@.len() == n,
                forall|i: int|
                    0 <= i < s * 512 ==> #[trigger] data@[i] == self.volume().img[first + i
                        / 512][i % 512],
            decreases self.geometry.sectors_per_cluster - s,
        {
            let mut sector: [u8; SECTOR_SIZE] = [0u8; SECTOR_SIZE];
            proof {
                self.device.sectors_fit();
            }
            self.read_sector(first + s as u64, &mut sector)?;
            let ghost before = data@;
            copy_into(&mut data, s * SECTOR_SIZE, sector.as_slice());
            s += 1;
            assert forall|i: int| 0 <= i < s * 512 implies #[trigger] data@[i]
                == self.volume().img[first + i / 512][i % 512] by {
                if i < (s - 1) * 512 {
                    assert(data@[i] == before[i]);
                }
            }
        }
        assert(data@ =~= self.volume().data(cluster));
        Ok(data)
    }

    pub(crate) fn allocate_cluster(&mut self) -> (r: Result<u32, FatError>)
        requires
            old(self).wf(),
        ensures
            final(self).kept(old(self)),
            r matches Ok(c) ==> old(self).geometry.is_cluster(c),
            final(self).is_made(old(self), r, old(self).volume().take_free()),
    {
        reveal(Volume::take_free);
        let count: u32 = self.geometry.cluster_count;
        let start: u32 = if self.next_free_hint < 2 {
            2
        } else if self.next_free_hint > count + 1 {
            count + 1
        } else {
            self.next_free_hint
        };
        let mut step: u32 = 0;
        while step < count
            invariant
                *self == *old(self),
                self.wf(),
                count == self.geometry.cluster_count,
                start == self.volume().search_start(),
                step <= count,
                self.volume().find_free(start as int, step as int) == self.volume().find_free(
                    start as int,
                    0,
                ),
            decreases count - step,
        {
            let cluster: u32 = 2 + ((start - 2 + step) % count);
            assert(cluster == self.volume().candidate(start as int, step as int));
            if self.fat_entry(cluster)? == 0 {
                reveal(Volume::take_free);
                self.set_fat_entry(cluster, END_OF_CHAIN)?;
                match self.zero_cluster(cluster) {
                    Ok(_) => {},
                    Err(error) => {
                        let _undone = self.set_fat_entry(cluster, 0);
                        return Err(error);
                    },
                }
                self.next_free_hint = if cluster == count + 1 {
                    2
                } else {
                    cluster + 1
                };
                return Ok(cluster);
            }
            step += 1;
        }
        Err(FatError::NoSpace)
    }

    pub(crate) fn collect_chain(&self, first: u32) -> (r: Result<Vec<u32>, FatError>)
        requires
            self.wf(),
        ensures
            agrees_seq(r, self.volume().chain(first), self.device.reliable()),
            r matches Ok(chain) ==> all_clusters(self.geometry, chain@),
    {
        let mut chain: Vec<u32> = Vec::new();
        let mut current: Option<u32> = if first == 0 {
            None
        } else {
            Some(first)
        };
        let ghost v = self.volume();
        let ghost full = v.chain(first);
        proof {
            if let Ok(rest) = full {
                assert(chain@ + rest =~= rest);
            }
        }
        loop
            invariant
                self.wf(),
                v == self.volume(),
                full == v.chain(first),
                chain@.len() <= v.g.cluster_count,
                all_clusters(self.geometry, chain@),
                match v.chain_from(current, (v.g.cluster_count - chain@.len()) as nat) {
                    Ok(rest) => full == Ok::<Seq<u32>, FatError>(chain@ + rest),
                    Err(e) => full == Err::<Seq<u32>, FatError>(e),
                },
            decreases v.g.cluster_count - chain@.len(),
        {
            let cluster: u32 = match current {
                Some(c) => c,
                None => {
                    assert(chain@ + Seq::<u32>::empty() =~= chain@);
                    return Ok(chain);
                },
            };
            if chain.len() >= self.geometry.cluster_count as usize {
                return Err(FatError::Corrupt);
            }
            let next: Option<u32> = self.next_cluster(cluster)?;
            let ghost before = chain@;
            chain.push(cluster);
            current = next;
            proof {
                if let Ok(rest) = v.chain_from(next, (v.g.cluster_count - chain@.len()) as nat) {
                    assert(before + (seq![cluster] + rest) =~= chain@ + rest);
                }
            }
        }
    }

    pub(crate) fn release_chain(&mut self, chain: &[u32]) -> (r: Result<(), FatError>)
        requires
            old(self).wf(),
            all_clusters(old(self).geometry, chain@),
        ensures
            final(self).kept(old(self)),
            final(self).is_made(old(self), r, (old(self).volume().release(chain@), Ok(()))),
    {
        let mut i: usize = 0;
        while i < chain.len()
            invariant
                i <= chain@.len(),
                all_clusters(old(self).geometry, chain@),
                self.kept(old(self)),
                self.volume() == old(self).volume().release(chain@.take(i as int)),
            decreases chain@.len() - i,
        {
            let cluster: u32 = chain[i];
            self.set_fat_entry(cluster, 0)?;
            if cluster < self.next_free_hint {
                self.next_free_hint = cluster;
            }
            i += 1;
            assert(chain@.take(i as int).drop_last() =~= chain@.take(i - 1));
        }
        assert(chain@.take(i as int) =~= chain@);
        Ok(())
    }

    pub(crate) fn rollback_chain_growth(&mut self, chain: &mut Vec<u32>, original_len: usize)
        requires
            old(self).wf(),
            original_len <= old(chain)@.len(),
            all_clusters(old(self).geometry, old(chain)@),
        ensures
            final(self).kept(old(self)),
            final(chain)@ == old(chain)@.take(original_len as int),
            old(self).healthy() ==> final(self).volume() == old(self).volume().roll_back(
                old(chain)@,
                original_len as int,
            ),
    {
        reveal(Volume::roll_back);
        if original_len > 0 {
            let _ended = self.set_fat_entry(chain[original_len - 1], END_OF_CHAIN);
        }
        let added: Vec<u32> = chain.split_off(original_len);
        assert(added@ =~= old(chain)@.skip(original_len as int));
        assert(chain@ =~= old(chain)@.take(original_len as int));
        let _released = self.release_chain(added.as_slice());
    }

    /// Take a free cluster and link it to the end of `chain`.
    fn extend_chain(&mut self, chain: &[u32]) -> (r: Result<u32, FatError>)
        requires
            old(self).wf(),
            all_clusters(old(self).geometry, chain@),
        ensures
            final(self).kept(old(self)),
            r matches Ok(c) ==> old(self).geometry.is_cluster(c),
            final(self).is_made(old(self), r, old(self).volume().extend(chain@)),
    {
        reveal(Volume::extend);
        let new_cluster: u32 = self.allocate_cluster()?;
        if chain.len() > 0 {
            let previous: u32 = chain[chain.len() - 1];
            match self.set_fat_entry(previous, new_cluster) {
                Ok(_) => {},
                Err(error) => {
                    let _undone = self.set_fat_entry(new_cluster, 0);
                    return Err(error);
                },
            }
        }
        Ok(new_cluster)
    }

    /// Grow `chain` to `needed` clusters. What was added comes back.
    pub(crate) fn ensure_chain(&mut self, chain: &mut Vec<u32>, needed: usize) -> (r: Result<
        Vec<u32>,
        FatError,
    >)
        requires
            old(self).wf(),
            all_clusters(old(self).geometry, old(chain)@),
        ensures
            final(self).kept(old(self)),
            all_clusters(old(self).geometry, final(chain)@),
            old(chain)@.len() <= final(chain)@.len(),
            r is Ok ==> final(chain)@.len() >= needed && r->Ok_0@ == final(chain)@.skip(
                old(chain)@.len() as int,
            ) && final(chain)@.take(old(chain)@.len() as int) == old(chain)@,
            r is Err ==> final(chain)@ == old(chain)@,
            ({
                let g = old(self).volume().grow(
                    old(chain)@,
                    needed as int,
                    old(chain)@.len() as int,
                );
                &&& r is Ok || old(self).healthy() ==> final(self).volume() == g.0
                &&& r matches Ok(_) ==> g.1 == Ok::<Seq<u32>, FatError>(final(chain)@)
                &&& r matches Err(e) ==> g.1 == Err::<Seq<u32>, FatError>(e) || (!old(
                    self,
                ).healthy() && e == FatError::Io)
            }),
    {
        let original_len: usize = chain.len();
        let ghost g = old(self).volume().grow(old(chain)@, needed as int, original_len as int);
        assert(chain@.take(original_len as int) =~= old(chain)@);
        while chain.len() < needed
            invariant
                g == old(self).volume().grow(old(chain)@, needed as int, original_len as int),
                original_len == old(chain)@.len(),
                original_len <= chain@.len(),
                chain@.take(original_len as int) == old(chain)@,
                all_clusters(old(self).geometry, chain@),
                self.kept(old(self)),
                self.volume().grow(chain@, needed as int, original_len as int) == g,
            decreases needed - chain@.len(),
        {
            let ghost before = chain@;
            let ghost pre = self.volume();
            let new_cluster: u32 = match self.extend_chain(chain.as_slice()) {
                Ok(c) => c,
                Err(error) => {
                    assert(old(self).healthy() ==> pre.extend(before) == (
                        self.volume(),
                        Err::<u32, FatError>(error),
                    ));
                    self.rollback_chain_growth(chain, original_len);
                    return Err(error);
                },
            };
            chain.push(new_cluster);
            assert(chain@.take(original_len as int) =~= before.take(original_len as int));
        }
        let mut added: Vec<u32> = Vec::new();
        let mut i: usize = original_len;
        while i < chain.len()
            invariant
                original_len <= i <= chain@.len(),
                added@ == chain@.subrange(original_len as int, i as int),
            decreases chain@.len() - i,
        {
            added.push(chain[i]);
            i += 1;
            assert(added@ =~= chain@.subrange(original_len as int, i as int));
        }
        assert(added@ =~= chain@.skip(original_len as int));
        Ok(added)
    }

    /// Replace bytes inside one sector of a cluster.
    pub(crate) fn write_directory_bytes(&mut self, cluster: u32, offset: usize, bytes: &[u8]) -> (r:
        Result<(), FatError>)
        requires
            old(self).wf(),
            old(self).geometry.is_cluster(cluster),
            offset < old(self).geometry.cluster_size(),
            offset % 512 + bytes@.len() <= 512,
        ensures
            final(self).kept(old(self)),
            r matches Err(e) ==> e == FatError::Io && final(self).volume() == old(self).volume(),
            r is Ok ==> final(self).volume() == old(self).volume().put(
                cluster,
                offset as int,
                bytes@,
            ),
            old(self).healthy() ==> r is Ok,
    {
        let lba: u64 = self.cluster_lba(cluster)? + (offset / SECTOR_SIZE) as u64;
        let in_sector: usize = offset % SECTOR_SIZE;
        let mut sector: [u8; SECTOR_SIZE] = [0u8; SECTOR_SIZE];
        self.read_sector(lba, &mut sector)?;
        copy_into(&mut sector, in_sector, bytes);
        self.write_sector(lba, &sector)
    }

    /// The 32 bytes of a directory record.
    pub(crate) fn read_entry(&self, cluster: u32, offset: usize) -> (r: Result<[u8; 32], FatError>)
        requires
            self.wf(),
            self.geometry.is_cluster(cluster),
            offset + 32 <= self.geometry.cluster_size(),
            offset % 32 == 0,
        ensures
            r matches Ok(e) ==> e@ == self.volume().data(cluster).subrange(
                offset as int,
                offset + 32,
            ),
            r matches Err(e) ==> !self.device.reliable() && e == FatError::Io,
    {
        let lba: u64 = self.cluster_lba(cluster)? + (offset / SECTOR_SIZE) as u64;
        let mut sector: [u8; SECTOR_SIZE] = [0u8; SECTOR_SIZE];
        self.read_sector(lba, &mut sector)?;
        let at: usize = offset % SECTOR_SIZE;
        let mut entry: [u8; 32] = [0u8; 32];
        let mut i: usize = 0;
        while i < 32
            invariant
                i <= 32,
                at + 32 <= 512,
                entry@.len() == 32,
                sector@.len() == 512,
                forall|k: int| 0 <= k < i ==> #[trigger] entry@[k] == sector@[at + k],
            decreases 32 - i,
        {
            entry[i] = sector[at + i];
            i += 1;
        }
        assert(entry@ =~= self.volume().data(cluster).subrange(offset as int, offset + 32));
        Ok(entry)
    }

    pub(crate) fn write_chain_range(&mut self, chain: &[u32], offset: usize, data: &[u8]) -> (r:
        Result<(), FatError>)
        requires
            old(self).wf(),
            all_clusters(old(self).geometry, chain@),
            offset + data@.len() <= chain@.len() * old(self).geometry.cluster_size(),
            offset + data@.len() <= usize::MAX,
        ensures
            final(self).kept(old(self)),
            r matches Err(e) ==> e == FatError::Io,
            r is Ok ==> final(self).volume() == old(self).volume().write_range(
                chain@,
                offset as int,
                data@,
            ),
            old(self).healthy() ==> r is Ok,
    {
        let size: usize = self.cluster_bytes();
        let mut done: usize = 0;
        assert(data@.skip(0) =~= data@);
        while done < data.len()
            invariant
                size == old(self).geometry.cluster_size(),
                512 <= size <= 0x1_0000,
                size % 512 == 0,
                done <= data@.len(),
                all_clusters(old(self).geometry, chain@),
                offset + data@.len() <= chain@.len() * old(self).geometry.cluster_size(),
                offset + data@.len() <= usize::MAX,
                self.kept(old(self)),
                self.volume().write_range(chain@, offset + done, data@.skip(done as int))
                    == old(self).volume().write_range(chain@, offset as int, data@),
            decreases data@.len() - done,
        {
            let at: usize = offset + done;
            let ci: usize = at / size;
            assert(0 <= ci < chain@.len()) by (nonlinear_arith)
                requires
                    ci == at as int / (size as int),
                    0 <= at < chain@.len() * size,
                    size > 0,
            ;
            let in_cluster: usize = at % size;
            proof {
                lemma_mod_mod(at as int, size as int);
            }
            let room: usize = SECTOR_SIZE - in_cluster % SECTOR_SIZE;
            let left: usize = data.len() - done;
            let n: usize = if left < room {
                left
            } else {
                room
            };
            let bytes: &[u8] = vstd::slice::slice_subrange(data, done, done + n);
            assert(bytes@ =~= data@.skip(done as int).take(n as int));
            self.write_directory_bytes(chain[ci], in_cluster, bytes)?;
            done += n;
            assert(data@.skip(done - n).skip(n as int) =~= data@.skip(done as int));
        }
        Ok(())
    }

    pub(crate) fn write_zero_range(&mut self, chain: &[u32], offset: usize, len: usize) -> (r:
        Result<(), FatError>)
        requires
            old(self).wf(),
            all_clusters(old(self).geometry, chain@),
            offset + len <= chain@.len() * old(self).geometry.cluster_size(),
            offset + len <= usize::MAX,
        ensures
            final(self).kept(old(self)),
            r matches Err(e) ==> e == FatError::Io,
            r is Ok ==> final(self).volume() == old(self).volume().write_range(
                chain@,
                offset as int,
                zeros(len as nat),
            ),
            old(self).healthy() ==> r is Ok,
    {
        let zero: [u8; SECTOR_SIZE] = [0u8; SECTOR_SIZE];
        let mut done: usize = 0;
        while done < len
            invariant
                done <= len,
                zero@.len() == 512,
                forall|i: int| 0 <= i < 512 ==> zero@[i] == 0,
                all_clusters(old(self).geometry, chain@),
                offset + len <= chain@.len() * old(self).geometry.cluster_size(),
                offset + len <= usize::MAX,
                self.kept(old(self)),
                self.volume().write_range(chain@, offset + done, zeros((len - done) as nat))
                    == old(self).volume().write_range(chain@, offset as int, zeros(len as nat)),
            decreases len - done,
        {
            let at: usize = offset + done;
            let room: usize = SECTOR_SIZE - at % SECTOR_SIZE;
            let left: usize = len - done;
            let n: usize = if left < room {
                left
            } else {
                room
            };
            let bytes: &[u8] = vstd::slice::slice_subrange(zero.as_slice(), 0, n);
            let ghost before = self.volume();
            self.write_chain_range(chain, at, bytes)?;
            proof {
                let z = zeros(left as nat);
                assert(bytes@ =~= z.take(n as int));
                assert(z.take(n as int).take(n as int) =~= z.take(n as int));
                assert(z.take(n as int).skip(n as int) =~= Seq::<u8>::empty());
                assert(z.skip(n as int) =~= zeros((left - n) as nat));
                let size = before.g.cluster_size();
                let v = before.put(
                    chain@[at as int / size],
                    at as int % size,
                    bytes@,
                );
                assert(self.volume() == v.write_range(
                    chain@,
                    at + n,
                    bytes@.skip(n as int),
                ));
                assert(self.volume() == v);
            }
            done += n;
        }
        Ok(())
    }
}

/// Whether every cluster of a chain lies on the volume.
pub open spec fn all_clusters(g: Geometry, chain: Seq<u32>) -> bool {
    forall|i: int| 0 <= i < chain.len() ==> g.is_cluster(#[trigger] chain[i])
}

/// As `agrees`, for lists.
pub open spec fn agrees_seq<T>(
    r: Result<Vec<T>, FatError>,
    expected: Result<Seq<T>, FatError>,
    reliable: bool,
) -> bool {
    match r {
        Ok(v) => expected == Ok::<Seq<T>, FatError>(v@),
        Err(e) => expected == Err::<Seq<T>, FatError>(e) || (!reliable && e == FatError::Io),
    }
}

/// A multiple of the sector size does not change the place inside a sector.
pub proof fn lemma_mod_mod(at: int, size: int)
    requires
        0 <= at,
        size > 0,
        size % 512 == 0,
    ensures
        at % size % 512 == at % 512,
{
    let k = size / 512;
    let q = at / size;
    assert(at == q * size + at % size) by (nonlinear_arith)
        requires
            q == at / size,
            size > 0,
    ;
    assert(q * size == 512 * (q * k)) by (nonlinear_arith)
        requires
            size == 512 * k,
    ;
}

} // verus!
