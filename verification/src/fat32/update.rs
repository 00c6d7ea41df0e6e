//! Creating, writing and removing files and directories.

use vstd::prelude::*;
use crate::block::BlockDevice;
use crate::bytes::{copy_into, le16_bytes, le32_bytes, spliced, u16_to_le, u32_to_le, zeros};
use crate::text::{last_index, piece, rfind};
use super::{Fat32, FatError};
use super::directory::{
    after_record, first_named, is_entry, no_long_name, slot_of, slots, EntryLocation, LongName,
    Slot,
};
use super::model::{Geometry, Volume};
use super::names::{
    alias, alias_ext, alias_of, alias_stem, fits_long, lemma_alias_part, lfn_all, lfn_records,
    record_views, sanitize, short_checksum, short_of, to_short_name, utf16,
};
use super::table::{all_clusters, lemma_mod_mod};

verus! {

/// A record with the first cluster and the size of its file replaced.
pub open spec fn with_meta(e: Seq<u8>, first: u32, size: u32) -> Seq<u8> {
    spliced(
        spliced(
            spliced(e, 20, le16_bytes((first / 0x1_0000) as u16)),
            26,
            le16_bytes((first % 0x1_0000) as u16),
        ),
        28,
        le32_bytes(size),
    )
}

/// The record of a new entry.
pub open spec fn new_record(raw: Seq<u8>, attr: u8, first: u32) -> Seq<u8> {
    with_meta(spliced(zeros(32), 0, raw.push(attr)), first, 0)
}

/// The records of a new entry with its long name.
pub open spec fn new_records(name: Seq<char>, short: Seq<u8>, attr: u8, first: u32) -> Seq<
    Seq<u8>,
> {
    lfn_all(utf16(name), short_checksum(short)).push(new_record(short, attr, first))
}

/// The raw names of the entries for a directory and its parent.
pub open spec fn dot_name() -> Seq<u8> {
    Seq::new(11, |i: int| if i < 1 { 0x2eu8 } else { 0x20u8 })
}

pub open spec fn dot_dot_name() -> Seq<u8> {
    Seq::new(11, |i: int| if i < 2 { 0x2eu8 } else { 0x20u8 })
}

impl Volume {
    /// The records of a cluster from `k` on marked deleted, once the end of the
    /// directory has been met.
    pub open spec fn erase_cluster(self, c: u32, k: int, past_end: bool) -> (Volume, bool)
        decreases self.records() - k,
    {
        if k >= self.records() {
            (self, past_end)
        } else {
            let past = past_end || self.record(c, k)[0] == 0;
            if past {
                self.put(c, 32 * k, seq![0xe5u8]).erase_cluster(c, k + 1, past)
            } else {
                self.erase_cluster(c, k + 1, past)
            }
        }
    }

    /// The records of a directory after its end marked deleted, the end too.
    pub open spec fn erase_tail(self, chain: Seq<u32>, past_end: bool) -> Volume
        decreases chain.len(),
    {
        if chain.len() == 0 {
            self
        } else {
            let (v, past) = self.erase_cluster(chain[0], 0, past_end);
            v.erase_tail(chain.skip(1), past)
        }
    }

    /// `n` free clusters taken, or none.
    pub open spec fn take_many(self, n: int, taken: Seq<u32>) -> (
        Volume,
        Result<Seq<u32>, FatError>,
    )
        decreases n - taken.len(),
    {
        if taken.len() >= n {
            (self, Ok(taken))
        } else {
            match self.take_free() {
                (v, Err(e)) => (v.release(taken), Err(e)),
                (v, Ok(c)) => v.take_many(n, taken.push(c)),
            }
        }
    }

    /// Each of the clusters from `i` on linked to the one after it.
    pub open spec fn link(self, clusters: Seq<u32>, i: int) -> Volume
        decreases clusters.len() - i,
    {
        if i + 1 >= clusters.len() {
            self
        } else {
            self.set_fat(clusters[i], clusters[i + 1]).link(clusters, i + 1)
        }
    }

    /// Records written one after the other into the given clusters.
    pub open spec fn put_records(self, clusters: Seq<u32>, records: Seq<Seq<u8>>, i: int) -> Volume
        decreases records.len() - i,
    {
        if i >= records.len() {
            self
        } else {
            self.put(
                clusters[32 * i / self.g.cluster_size()],
                32 * i % self.g.cluster_size(),
                records[i],
            ).put_records(clusters, records, i + 1)
        }
    }

    /// Clusters that `n` records and an end marker take.
    pub open spec fn clusters_for(self, n: int) -> int {
        ((n + 1) * 32 + self.g.cluster_size() - 1) / self.g.cluster_size()
    }

    /// Records added to a directory, in clusters of their own.
    pub open spec fn append(self, dir: u32, records: Seq<Seq<u8>>) -> (
        Volume,
        Result<(), FatError>,
    ) {
        match self.chain(dir) {
            Err(e) => (self, Err(e)),
            Ok(chain) => if chain.len() == 0 {
                (self, Err(FatError::Corrupt))
            } else {
                match self.erase_tail(chain, false).take_many(
                    self.clusters_for(records.len() as int),
                    Seq::empty(),
                ) {
                    (v, Err(e)) => (v, Err(e)),
                    (v, Ok(added)) => (
                        v.link(added, 0).set_fat(chain.last(), added[0]).put_records(
                            added,
                            records,
                            0,
                        ),
                        Ok(()),
                    ),
                }
            },
        }
    }

    /// The first unused generated 8.3 name from number `serial` on.
    pub open spec fn free_alias(self, dir: u32, stem: Seq<char>, ext: Seq<char>, serial: int) -> Result<
        Seq<u8>,
        FatError,
    >
        decreases 100_000 - serial,
    {
        if serial >= 100_000 {
            Err(FatError::NoSpace)
        } else {
            match self.has_short(dir, alias(stem, ext, serial)) {
                Err(e) => Err(e),
                Ok(false) => Ok(alias(stem, ext, serial)),
                Ok(true) => self.free_alias(dir, stem, ext, serial + 1),
            }
        }
    }

    /// The 8.3 name that a new entry gets.
    pub open spec fn choose_short(self, dir: u32, name: Seq<char>) -> Result<Seq<u8>, FatError> {
        let generated = self.free_alias(dir, alias_stem(name), alias_ext(name), 1);
        match short_of(name) {
            Ok(raw) => match self.has_short(dir, raw) {
                Err(e) => Err(e),
                Ok(false) => Ok(raw),
                Ok(true) => generated,
            },
            Err(_) => generated,
        }
    }

    /// A new entry added to a directory.
    pub open spec fn add_entry(self, dir: u32, name: Seq<char>, attr: u8, first: u32) -> (
        Volume,
        Result<(), FatError>,
    ) {
        match self.choose_short(dir, name) {
            Err(e) => (self, Err(e)),
            Ok(short) => if fits_long(utf16(name)) {
                self.append(dir, new_records(name, short, attr, first))
            } else {
                (self, Err(FatError::InvalidName))
            },
        }
    }

    /// What creating a file does.
    pub open spec fn create_file(self, path: Seq<char>) -> (Volume, Result<(), FatError>) {
        match self.locate(path) {
            Err(e) => (self, Err(e)),
            Ok((dir, name)) => match self.find_named(dir, name) {
                Err(e) => (self, Err(e)),
                Ok(Some(slot)) => (
                    self,
                    if slot.is_dir {
                        Err(FatError::IsDirectory)
                    } else {
                        Ok(())
                    },
                ),
                Ok(None) => self.add_entry(dir, name, 0x20, 0),
            },
        }
    }

    /// The first records of a directory: itself and its parent.
    pub open spec fn put_dots(self, c: u32, parent: u32) -> Volume {
        self.put(c, 0, new_record(dot_name(), 0x10, c)).put(
            c,
            32,
            new_record(dot_dot_name(), 0x10, parent),
        )
    }

    /// What creating a directory does.
    pub open spec fn create_dir(self, path: Seq<char>) -> (Volume, Result<(), FatError>) {
        match self.locate(path) {
            Err(e) => (self, Err(e)),
            Ok((dir, name)) => match self.find_named(dir, name) {
                Err(e) => (self, Err(e)),
                Ok(Some(_)) => (self, Err(FatError::AlreadyExists)),
                Ok(None) => match self.take_free() {
                    (v, Err(e)) => (v, Err(e)),
                    (v, Ok(c)) => match v.put_dots(c, dir).add_entry(dir, name, 0x10, c) {
                        (w, Ok(_)) => (w, Ok(())),
                        (w, Err(e)) => (w.release(seq![c]), Err(e)),
                    },
                },
            },
        }
    }

    /// The records that belong to the entry at (`cluster`, `offset`): those of
    /// its long name and its own. `pending` are the long-name records met last.
    pub open spec fn group_cluster(
        self,
        c: u32,
        k: int,
        pending: Seq<(u32, int)>,
        target: Slot,
    ) -> (Seq<(u32, int)>, Option<Seq<(u32, int)>>)
        decreases self.records() - k,
    {
        if k >= self.records() {
            (pending, None)
        } else {
            let e = self.record(c, k);
            if e[0] == 0 {
                (pending, None)
            } else if e[0] == 0xe5 {
                self.group_cluster(c, k + 1, Seq::empty(), target)
            } else if e[11] == 0x0f {
                self.group_cluster(c, k + 1, pending.push((c, 32 * k)), target)
            } else if c == target.cluster && 32 * k == target.offset {
                (pending, Some(pending.push((c, 32 * k))))
            } else {
                self.group_cluster(c, k + 1, Seq::empty(), target)
            }
        }
    }

    pub open spec fn group(
        self,
        chain: Seq<u32>,
        i: int,
        pending: Seq<(u32, int)>,
        target: Slot,
    ) -> Option<Seq<(u32, int)>>
        decreases chain.len() - i,
    {
        if i >= chain.len() {
            None
        } else {
            match self.group_cluster(chain[i], 0, pending, target) {
                (_, Some(found)) => Some(found),
                (pending, None) => self.group(chain, i + 1, pending, target),
            }
        }
    }

    /// Records marked deleted.
    pub open spec fn delete_records(self, found: Seq<(u32, int)>, i: int) -> Volume
        decreases found.len() - i,
    {
        if i >= found.len() {
            self
        } else {
            self.put(found[i].0, found[i].1, seq![0xe5u8]).delete_records(found, i + 1)
        }
    }

    /// What removing a file or an empty directory does.
    pub open spec fn remove(self, path: Seq<char>) -> (Volume, Result<(), FatError>) {
        match self.locate(path) {
            Err(e) => (self, Err(e)),
            Ok((dir, name)) => match self.find_named(dir, name) {
                Err(e) => (self, Err(e)),
                Ok(None) => (self, Err(FatError::NotFound)),
                Ok(Some(slot)) => {
                    let content = if slot.is_dir {
                        self.entries(slot.first)
                    } else {
                        Ok(Seq::empty())
                    };
                    match content {
                        Err(e) => (self, Err(e)),
                        Ok(s) => if s.len() > 0 {
                            (self, Err(FatError::DirectoryNotEmpty))
                        } else {
                            match (self.chain(slot.first), self.chain(dir)) {
                                (Err(e), _) => (self, Err(e)),
                                (_, Err(e)) => (self, Err(e)),
                                (Ok(chain), Ok(dir_chain)) => match self.group(
                                    dir_chain,
                                    0,
                                    Seq::empty(),
                                    slot,
                                ) {
                                    None => (self, Err(FatError::Corrupt)),
                                    Some(found) => (
                                        self.delete_records(found, 0).release(chain),
                                        Ok(()),
                                    ),
                                },
                            }
                        },
                    }
                },
            },
        }
    }

    /// The first cluster and the size in a record replaced.
    #[verifier::opaque]
    pub open spec fn put_meta(self, slot: Slot, first: u32, size: u32) -> Volume {
        self.put(
            slot.cluster,
            slot.offset,
            with_meta(
                self.data(slot.cluster).subrange(slot.offset, slot.offset + 32),
                first,
                size,
            ),
        )
    }

    /// What truncating a file does.
    pub open spec fn truncate(self, path: Seq<char>) -> (Volume, Result<(), FatError>) {
        match self.locate(path) {
            Err(e) => (self, Err(e)),
            Ok((dir, name)) => match self.find_named(dir, name) {
                Err(e) => (self, Err(e)),
                Ok(None) => (self, Err(FatError::NotFound)),
                Ok(Some(slot)) => if slot.is_dir {
                    (self, Err(FatError::IsDirectory))
                } else {
                    match self.chain(slot.first) {
                        Err(e) => (self, Err(e)),
                        Ok(chain) => (self.put_meta(slot, 0, 0).release(chain), Ok(())),
                    }
                },
            },
        }
    }

    /// Clusters that `n` bytes take.
    pub open spec fn clusters_of(self, n: int) -> int {
        (n + self.g.cluster_size() - 1) / self.g.cluster_size()
    }

    /// The bytes of a write put into a chain that has room for them: zeros from
    /// the end of the file to where the write starts, then the data, then the
    /// entry's first cluster and size.
    pub open spec fn fill(
        self,
        slot: Slot,
        chain: Seq<u32>,
        offset: int,
        data: Seq<u8>,
    ) -> Volume {
        let v = if offset > slot.size {
            self.write_range(chain, slot.size as int, zeros((offset - slot.size) as nat))
        } else {
            self
        };
        v.write_range(chain, offset, data).put_meta(
            slot,
            chain[0],
            if offset + data.len() > slot.size {
                (offset + data.len()) as u32
            } else {
                slot.size
            },
        )
    }

    /// What writing to a file does.
    #[verifier::opaque]
    pub open spec fn write(self, path: Seq<char>, offset: int, data: Seq<u8>) -> (
        Volume,
        Result<usize, FatError>,
    ) {
        let end = offset + data.len();
        if data.len() == 0 {
            (self, Ok(0))
        } else if end > u32::MAX {
            (self, Err(FatError::TooLarge))
        } else {
            match self.locate(path) {
                Err(e) => (self, Err(e)),
                Ok((dir, name)) => match self.find_named(dir, name) {
                    Err(e) => (self, Err(e)),
                    Ok(None) => (self, Err(FatError::NotFound)),
                    Ok(Some(slot)) => if slot.is_dir {
                        (self, Err(FatError::IsDirectory))
                    } else {
                        match self.chain(slot.first) {
                            Err(e) => (self, Err(e)),
                            Ok(chain) => {
                                let bytes = if end > slot.size {
                                    end
                                } else {
                                    slot.size as int
                                };
                                match self.grow(chain, self.clusters_of(bytes), chain.len() as int) {
                                    (v, Err(e)) => (v, Err(e)),
                                    (v, Ok(grown)) => (
                                        v.fill(slot, grown, offset, data),
                                        Ok(data.len() as usize),
                                    ),
                                }
                            },
                        }
                    },
                },
            }
        }
    }
}

/// Whether an entry's record lies inside a cluster of the volume.
pub open spec fn is_placed(g: Geometry, slot: Slot) -> bool {
    &&& g.is_cluster(slot.cluster)
    &&& 0 <= slot.offset
    &&& slot.offset + 32 <= g.cluster_size()
    &&& slot.offset % 32 == 0
}

pub open spec fn all_placed(g: Geometry, s: Seq<Slot>) -> bool {
    forall|i: int| 0 <= i < s.len() ==> is_placed(g, #[trigger] s[i])
}

impl Volume {
    proof fn lemma_scan_cluster_placed(self, c: u32, k: int, st: LongName, found: Seq<Slot>)
        requires
            self.g.wf(),
            self.g.is_cluster(c),
            0 <= k,
            all_placed(self.g, found),
        ensures
            all_placed(self.g, self.scan_cluster(c, k, st, found).1),
        decreases self.records() - k,
    {
        if k < self.records() {
            let e = self.record(c, k);
            if e[0] != 0 {
                let found2 = if is_entry(e) {
                    found.push(slot_of(c, k, st, e))
                } else {
                    found
                };
                self.lemma_scan_cluster_placed(c, k + 1, after_record(st, e), found2);
            }
        }
    }

    proof fn lemma_scan_placed(self, c: Option<u32>, limit: nat, st: LongName, found: Seq<Slot>)
        requires
            self.g.wf(),
            all_placed(self.g, found),
        ensures
            all_placed(self.g, self.scan(c, limit, st, found).0),
        decreases limit,
    {
        if let Some(n) = c {
            if limit > 0 && self.g.is_cluster(n) {
                let (st2, found2, ended) = self.scan_cluster(n, 0, st, found);
                self.lemma_scan_cluster_placed(n, 0, st, found);
                if !ended {
                    if let Ok(next) = self.next(n) {
                        self.lemma_scan_placed(next, (limit - 1) as nat, st2, found2);
                    }
                }
            }
        }
    }

    /// The record of an entry that was found lies inside a cluster.
    pub proof fn lemma_found_placed(self, dir: u32, name: Seq<char>)
        requires
            self.g.wf(),
        ensures
            self.find_named(dir, name) matches Ok(Some(slot)) ==> is_placed(self.g, slot),
    {
        reveal(Volume::find_named);
        self.lemma_scan_placed(
            Some(dir),
            self.g.cluster_count as nat,
            no_long_name(),
            Seq::empty(),
        );
        let s = self.directory(dir, self.g.cluster_count).0;
        lemma_first_named_placed(self.g, s, name);
    }
}

proof fn lemma_first_named_placed(g: Geometry, s: Seq<Slot>, name: Seq<char>)
    requires
        all_placed(g, s),
    ensures
        first_named(s, name) matches Some(slot) ==> is_placed(g, slot),
    decreases s.len(),
{
    if s.len() > 0 {
        lemma_first_named_placed(g, s.drop_last(), name);
    }
}

/// The record of a new entry.
fn record_of(raw: &[u8; 11], attr: u8, first: u32) -> (e: [u8; 32])
    ensures
        e@ == new_record(raw@, attr, first),
{
    let mut e: [u8; 32] = [0u8; 32];
    assert(e@ =~= zeros(32));
    copy_into(&mut e, 0, raw.as_slice());
    e[11] = attr;
    assert(e@ =~= spliced(zeros(32), 0, raw@.push(attr)));
    set_meta(&mut e, first, 0);
    e
}

fn set_meta(e: &mut [u8; 32], first: u32, size: u32)
    ensures
        final(e)@ == with_meta(old(e)@, first, size),
{
    let high: [u8; 2] = u16_to_le((first / 0x1_0000) as u16);
    let low: [u8; 2] = u16_to_le((first % 0x1_0000) as u16);
    let length: [u8; 4] = u32_to_le(size);
    copy_into(e, 20, high.as_slice());
    copy_into(e, 26, low.as_slice());
    copy_into(e, 28, length.as_slice());
}

impl<D: BlockDevice> Fat32<D> {
    fn choose_short_alias(&self, directory: u32, name: &[char]) -> (r: Result<[u8; 11], FatError>)
        requires
            self.wf(),
        ensures
            match r {
                Ok(raw) => self.volume().choose_short(directory, name@) == Ok::<Seq<u8>, FatError>(
                    raw@,
                ),
                Err(e) => self.volume().choose_short(directory, name@) == Err::<Seq<u8>, FatError>(
                    e,
                ) || (!self.device.reliable() && e == FatError::Io),
            },
    {
        match to_short_name(name) {
            Ok(short) => {
                if !self.find_short_entry(directory, &short)? {
                    return Ok(short);
                }
            },
            Err(_) => {},
        }
        let at: Option<usize> = rfind(name, '.');
        let total: usize = name.len();
        let (mut stem, mut ext) = match at {
            Some(i) => {
                let head: Vec<char> = piece(name, 0, i);
                let tail: Vec<char> = piece(name, i + 1, total);
                assert(head@ =~= name@.take(i as int));
                assert(tail@ =~= name@.skip(i + 1));
                (sanitize(head.as_slice()), sanitize(tail.as_slice()))
            },
            None => (sanitize(name), Vec::new()),
        };
        proof {
            lemma_alias_part(
                if last_index(name@, '.') < 0 {
                    name@
                } else {
                    name@.take(last_index(name@, '.'))
                },
            );
            lemma_alias_part(name@.skip(last_index(name@, '.') + 1));
        }
        if ext.len() > 3 {
            ext.truncate(3);
        }
        if stem.len() == 0 {
            stem.push('F');
            stem.push('I');
            stem.push('L');
            stem.push('E');
            assert(stem@ =~= seq!['F', 'I', 'L', 'E']);
        }
        assert(ext@ =~= alias_ext(name@));
        assert(stem@ =~= alias_stem(name@));
        let mut serial: u32 = 1;
        while serial < 100_000
            invariant
                self.wf(),
                1 <= serial <= 100_000,
                ext@ == alias_ext(name@),
                stem@ == alias_stem(name@),
                ext@.len() <= 3,
                forall|i: int| 0 <= i < stem@.len() ==> #[trigger] stem@[i] <= '\u{7f}',
                forall|i: int| 0 <= i < ext@.len() ==> #[trigger] ext@[i] <= '\u{7f}',
                self.volume().choose_short(directory, name@) == self.volume().free_alias(
                    directory,
                    stem@,
                    ext@,
                    serial as int,
                ),
            decreases 100_000 - serial,
        {
            let raw: [u8; 11] = alias_of(stem.as_slice(), ext.as_slice(), serial);
            if !self.find_short_entry(directory, &raw)? {
                return Ok(raw);
            }
            serial += 1;
        }
        Err(FatError::NoSpace)
    }

    /// Mark the records after the end of a directory deleted, the end too.
    fn erase_directory_tail(&mut self, chain: &[u32]) -> (r: Result<(), FatError>)
        requires
            old(self).wf(),
            all_clusters(old(self).geometry, chain@),
        ensures
            final(self).kept(old(self)),
            final(self).is_made(
                old(self),
                r,
                (old(self).volume().erase_tail(chain@, false), Ok(())),
            ),
    {
        let mut after_end: bool = false;
        let mut i: usize = 0;
        assert(chain@.skip(0) =~= chain@);
        while i < chain.len()
            invariant
                i <= chain@.len(),
                all_clusters(old(self).geometry, chain@),
                self.kept(old(self)),
                self.volume().erase_tail(chain@.skip(i as int), after_end)
                    == old(self).volume().erase_tail(chain@, false),
            decreases chain@.len() - i,
        {
            let ghost pre = self.volume();
            let ghost past = after_end;
            after_end = self.erase_cluster_tail(chain[i], after_end)?;
            i += 1;
            assert(chain@.skip(i - 1).skip(1) =~= chain@.skip(i as int));
        }
        Ok(())
    }

    fn erase_cluster_tail(&mut self, cluster: u32, past_end: bool) -> (r: Result<bool, FatError>)
        requires
            old(self).wf(),
            old(self).geometry.is_cluster(cluster),
        ensures
            final(self).kept(old(self)),
            ({
                let (v, past) = old(self).volume().erase_cluster(cluster, 0, past_end);
                final(self).is_made(old(self), r, (v, Ok(past)))
            }),
    {
        let data: Vec<u8> = self.read_cluster(cluster)?;
        let n: usize = data.len() / 32;
        let mut past: bool = past_end;
        let mark: [u8; 1] = [0xe5u8];
        assert(mark@ =~= seq![0xe5u8]);
        let mut k: usize = 0;
        while k < n
            invariant
                k <= n,
                n == old(self).volume().records(),
                data@.len() == 32 * n,
                data@.len() == old(self).geometry.cluster_size(),
                data@.len() <= 0x1_0000,
                old(self).geometry.is_cluster(cluster),
                mark@ == seq![0xe5u8],
                self.kept(old(self)),
                forall|j: int|
                    k <= j < n ==> #[trigger] data@[32 * j] == self.volume().data(cluster)[32 * j],
                self.volume().erase_cluster(cluster, k as int, past)
                    == old(self).volume().erase_cluster(cluster, 0, past_end),
            decreases n - k,
        {
            assert(data@[32 * k as int] == self.volume().data(cluster)[32 * k as int]);
            assert(self.volume().record(cluster, k as int)[0] == data@[32 * k as int]);
            if data[32 * k] == 0 {
                past = true;
            }
            if past {
                proof {
                    self.volume().lemma_put(cluster, 32 * k as int, mark@);
                }
                let ghost before = self.volume();
                self.write_directory_bytes(cluster, 32 * k, mark.as_slice())?;
                assert forall|j: int| k + 1 <= j < n implies #[trigger] data@[32 * j]
                    == self.volume().data(cluster)[32 * j] by {
                    assert(data@[32 * j] == before.data(cluster)[32 * j]);
                }
            }
            k += 1;
        }
        Ok(past)
    }

    /// Take `n` free clusters, or none.
    fn allocate_many(&mut self, n: usize) -> (r: Result<Vec<u32>, FatError>)
        requires
            old(self).wf(),
        ensures
            final(self).kept(old(self)),
            r matches Ok(added) ==> added@.len() >= n && all_clusters(old(self).geometry, added@),
            ({
                let t = old(self).volume().take_many(n as int, Seq::empty());
                &&& r is Ok || old(self).healthy() ==> final(self).volume() == t.0
                &&& r matches Ok(added) ==> t.1 == Ok::<Seq<u32>, FatError>(added@)
                &&& r matches Err(e) ==> t.1 == Err::<Seq<u32>, FatError>(e) || (!old(
                    self,
                ).healthy() && e == FatError::Io)
            }),
    {
        let mut added: Vec<u32> = Vec::new();
        let ghost t = old(self).volume().take_many(n as int, Seq::empty());
        while added.len() < n
            invariant
                t == old(self).volume().take_many(n as int, Seq::empty()),
                all_clusters(old(self).geometry, added@),
                self.kept(old(self)),
                self.volume().take_many(n as int, added@) == t,
            decreases n - added@.len(),
        {
            let ghost pre = self.volume();
            match self.allocate_cluster() {
                Ok(cluster) => {
                    added.push(cluster);
                },
                Err(error) => {
                    assert(old(self).healthy() ==> pre.take_free() == (
                        self.volume(),
                        Err::<u32, FatError>(error),
                    ));
                    let _released = self.release_chain(added.as_slice());
                    return Err(error);
                },
            }
        }
        Ok(added)
    }

    /// Link each cluster to the one after it.
    fn link_clusters(&mut self, clusters: &[u32]) -> (r: Result<(), FatError>)
        requires
            old(self).wf(),
            all_clusters(old(self).geometry, clusters@),
        ensures
            final(self).kept(old(self)),
            final(self).is_made(old(self), r, (old(self).volume().link(clusters@, 0), Ok(()))),
    {
        let total: usize = clusters.len();
        let mut i: usize = 0;
        while total > 1 && i < total - 1
            invariant
                total == clusters@.len(),
                i <= clusters@.len(),
                all_clusters(old(self).geometry, clusters@),
                self.kept(old(self)),
                self.volume().link(clusters@, i as int) == old(self).volume().link(clusters@, 0),
            decreases clusters@.len() - i,
        {
            self.set_fat_entry(clusters[i], clusters[i + 1])?;
            i += 1;
        }
        Ok(())
    }

    /// Write records one after the other into the given clusters.
    fn write_records(&mut self, clusters: &[u32], records: &[[u8; 32]]) -> (r: Result<
        (),
        FatError,
    >)
        requires
            old(self).wf(),
            all_clusters(old(self).geometry, clusters@),
            records@.len() <= 21,
            32 * records@.len() <= clusters@.len() * old(self).geometry.cluster_size(),
        ensures
            final(self).kept(old(self)),
            final(self).is_made(
                old(self),
                r,
                (old(self).volume().put_records(clusters@, record_views(records@), 0), Ok(())),
            ),
    {
        let size: usize = self.cluster_bytes();
        let mut i: usize = 0;
        while i < records.len()
            invariant
                i <= records@.len() <= 21,
                size == old(self).geometry.cluster_size(),
                512 <= size <= 0x1_0000,
                size % 512 == 0,
                all_clusters(old(self).geometry, clusters@),
                32 * records@.len() <= clusters@.len() * old(self).geometry.cluster_size(),
                self.kept(old(self)),
                self.volume().put_records(
                    clusters@,
                    record_views(records@),
                    i as int,
                ) == old(self).volume().put_records(clusters@, record_views(records@), 0),
            decreases records@.len() - i,
        {
            let at: usize = 32 * i;
            let ci: usize = at / size;
            assert(0 <= ci < clusters@.len()) by (nonlinear_arith)
                requires
                    ci == at as int / (size as int),
                    0 <= at < clusters@.len() * size,
                    size > 0,
            ;
            proof {
                lemma_mod_mod(at as int, size as int);
            }
            self.write_directory_bytes(clusters[ci], at % size, records[i].as_slice())?;
            i += 1;
        }
        Ok(())
    }

    pub(crate) fn append_directory_records(&mut self, directory: u32, records: &[[u8; 32]]) -> (r:
        Result<(), FatError>)
        requires
            old(self).wf(),
            records@.len() <= 21,
        ensures
            final(self).kept(old(self)),
            final(self).is_made(
                old(self),
                r,
                old(self).volume().append(directory, record_views(records@)),
            ),
    {
        let chain: Vec<u32> = self.collect_chain(directory)?;
        if chain.len() == 0 {
            return Err(FatError::Corrupt);
        }
        let tail: u32 = chain[chain.len() - 1];
        self.erase_directory_tail(chain.as_slice())?;
        let size: usize = self.cluster_bytes();
        let slots_needed: usize = records.len() + 1;
        let clusters_needed: usize = (slots_needed * 32 + size - 1) / size;
        assert(clusters_needed >= 1 && clusters_needed * size >= slots_needed * 32)
            by (nonlinear_arith)
            requires
                clusters_needed == (slots_needed * 32 + size - 1) / (size as int),
                slots_needed >= 1,
                size >= 1,
        ;
        let added: Vec<u32> = self.allocate_many(clusters_needed)?;
        assert(added@.len() * size >= clusters_needed * size) by (nonlinear_arith)
            requires
                added@.len() >= clusters_needed,
                size >= 0,
        ;
        match self.link_clusters(added.as_slice()) {
            Ok(_) => {},
            Err(error) => {
                let _released = self.release_chain(added.as_slice());
                return Err(error);
            },
        }
        match self.set_fat_entry(tail, added[0]) {
            Ok(_) => {},
            Err(error) => {
                let _released = self.release_chain(added.as_slice());
                return Err(error);
            },
        }
        self.write_records(added.as_slice(), records)
    }

    /// Add an entry with the given name to a directory.
    fn add_directory_entry(&mut self, directory: u32, name: &[char], attr: u8, first: u32) -> (r:
        Result<(), FatError>)
        requires
            old(self).wf(),
        ensures
            final(self).kept(old(self)),
            final(self).is_made(
                old(self),
                r,
                old(self).volume().add_entry(directory, name@, attr, first),
            ),
    {
        let short: [u8; 11] = self.choose_short_alias(directory, name)?;
        let mut records: Vec<[u8; 32]> = lfn_records(name, &short)?;
        let ghost long = records@;
        assert(record_views(long).len() == records@.len());
        let entry: [u8; 32] = record_of(&short, attr, first);
        records.push(entry);
        assert(record_views(records@) =~= record_views(long).push(entry@));
        self.append_directory_records(directory, records.as_slice())
    }

    /// Create an empty file in an existing directory. Existing files are left
    /// intact; directories and unsupported names are rejected.
    pub fn create_file(&mut self, path: &str) -> (r: Result<(), FatError>)
        requires
            old(self).wf(),
        ensures
            final(self).kept(old(self)),
            final(self).is_made(old(self), r, old(self).volume().create_file(path@)),
    {
        let (parent, name) = self.parent_and_name(path)?;
        match self.find_named_entry(parent, name.as_slice())? {
            Some(existing) => {
                return if existing.is_dir {
                    Err(FatError::IsDirectory)
                } else {
                    Ok(())
                };
            },
            None => {},
        }
        self.add_directory_entry(parent, name.as_slice(), 0x20, 0)
    }

    /// Write the first records of a new directory and enter it in its parent.
    fn fill_directory(&mut self, cluster: u32, parent: u32, name: &[char]) -> (r: Result<
        (),
        FatError,
    >)
        requires
            old(self).wf(),
            old(self).geometry.is_cluster(cluster),
        ensures
            final(self).kept(old(self)),
            final(self).is_made(
                old(self),
                r,
                old(self).volume().put_dots(cluster, parent).add_entry(
                    parent,
                    name@,
                    0x10,
                    cluster,
                ),
            ),
    {
        let mut here: [u8; 11] = [0x20u8; 11];
        here[0] = 0x2e;
        assert(here@ =~= dot_name());
        let mut up: [u8; 11] = [0x20u8; 11];
        up[0] = 0x2e;
        up[1] = 0x2e;
        assert(up@ =~= dot_dot_name());
        let dot: [u8; 32] = record_of(&here, 0x10, cluster);
        let dotdot: [u8; 32] = record_of(&up, 0x10, parent);
        self.write_directory_bytes(cluster, 0, dot.as_slice())?;
        self.write_directory_bytes(cluster, 32, dotdot.as_slice())?;
        self.add_directory_entry(parent, name, 0x10, cluster)
    }

    /// Create a directory with the FAT `.` and `..` entries.
    pub fn create_dir(&mut self, path: &str) -> (r: Result<(), FatError>)
        requires
            old(self).wf(),
        ensures
            final(self).kept(old(self)),
            final(self).is_made(old(self), r, old(self).volume().create_dir(path@)),
    {
        let (parent, name) = self.parent_and_name(path)?;
        if self.find_named_entry(parent, name.as_slice())?.is_some() {
            return Err(FatError::AlreadyExists);
        }
        let cluster: u32 = self.allocate_cluster()?;
        let result: Result<(), FatError> = self.fill_directory(cluster, parent, name.as_slice());
        if result.is_err() {
            let taken: [u32; 1] = [cluster];
            assert(taken@ =~= seq![cluster]);
            let _released = self.release_chain(taken.as_slice());
        }
        result
    }

    /// Truncate an existing regular file and release its cluster chain.
    pub fn truncate(&mut self, path: &str) -> (r: Result<(), FatError>)
        requires
            old(self).wf(),
        ensures
            final(self).kept(old(self)),
            final(self).is_made(old(self), r, old(self).volume().truncate(path@)),
    {
        let (parent, name) = self.parent_and_name(path)?;
        proof {
            self.volume().lemma_found_placed(parent, name@);
        }
        let location: EntryLocation = match self.find_named_entry(parent, name.as_slice())? {
            Some(location) => location,
            None => {
                return Err(FatError::NotFound);
            },
        };
        if location.is_dir {
            return Err(FatError::IsDirectory);
        }
        let chain: Vec<u32> = self.collect_chain(location.first_cluster)?;
        self.write_entry_metadata(&location, 0, 0)?;
        self.release_chain(chain.as_slice())
    }

    fn write_entry_metadata(&mut self, location: &EntryLocation, first: u32, size: u32) -> (r:
        Result<(), FatError>)
        requires
            old(self).wf(),
            is_placed(old(self).geometry, location@),
        ensures
            final(self).kept(old(self)),
            r matches Err(e) ==> e == FatError::Io && final(self).volume() == old(self).volume(),
            r is Ok ==> final(self).volume() == old(self).volume().put_meta(location@, first, size),
            old(self).healthy() ==> r is Ok,
    {
        reveal(Volume::put_meta);
        let mut entry: [u8; 32] = self.read_entry(location.cluster, location.offset)?;
        set_meta(&mut entry, first, size);
        self.write_directory_bytes(location.cluster, location.offset, entry.as_slice())
    }

    /// Put the bytes of a write into a chain that has room for them.
    fn fill_file(
        &mut self,
        location: &EntryLocation,
        chain: &[u32],
        offset: usize,
        data: &[u8],
        bytes: u32,
    ) -> (r: Result<(), FatError>)
        requires
            old(self).wf(),
            is_placed(old(self).geometry, location@),
            all_clusters(old(self).geometry, chain@),
            chain@.len() > 0,
            data@.len() > 0,
            offset + data@.len() <= bytes,
            bytes == if offset + data@.len() > location.size {
                offset + data@.len()
            } else {
                location.size as int
            },
            bytes <= chain@.len() * old(self).geometry.cluster_size(),
        ensures
            final(self).kept(old(self)),
            final(self).is_made(
                old(self),
                r,
                (old(self).volume().fill(location@, chain@, offset as int, data@), Ok(())),
            ),
    {
        let size: usize = location.size as usize;
        if offset > size {
            self.write_zero_range(chain, size, offset - size)?;
        }
        self.write_chain_range(chain, offset, data)?;
        self.write_entry_metadata(location, chain[0], bytes)?;
        Ok(())
    }

    /// Write bytes at an offset, extending the file and zero-filling any gap.
    /// The file must already exist.
    pub fn write_at(&mut self, path: &str, offset: usize, data: &[u8]) -> (r: Result<
        usize,
        FatError,
    >)
        requires
            old(self).wf(),
        ensures
            final(self).kept(old(self)),
            final(self).is_made(
                old(self),
                r,
                old(self).volume().write(path@, offset as int, data@),
            ),
            data@.len() == 0 ==> r == Ok::<usize, FatError>(0) && *final(self) == *old(self),
            data@.len() > 0 && offset + data@.len() > u32::MAX ==> r == Err::<usize, FatError>(
                FatError::TooLarge,
            ) && *final(self) == *old(self),
    {
        reveal(Volume::write);
        if data.len() == 0 {
            return Ok(0);
        }
        let end: usize = match offset.checked_add(data.len()) {
            Some(end) => end,
            None => {
                return Err(FatError::TooLarge);
            },
        };
        if end > 0xffff_ffff {
            return Err(FatError::TooLarge);
        }
        let (parent, name) = self.parent_and_name(path)?;
        proof {
            self.volume().lemma_found_placed(parent, name@);
        }
        let location: EntryLocation = match self.find_named_entry(parent, name.as_slice())? {
            Some(location) => location,
            None => {
                return Err(FatError::NotFound);
            },
        };
        if location.is_dir {
            return Err(FatError::IsDirectory);
        }
        let mut chain: Vec<u32> = self.collect_chain(location.first_cluster)?;
        let bytes: u32 = if end > location.size as usize {
            end as u32
        } else {
            location.size
        };
        let size: usize = self.cluster_bytes();
        let clusters: u64 = (bytes as u64 + size as u64 - 1) / size as u64;
        assert(clusters * size >= bytes && 1 <= clusters <= 0xffff_ffff) by (nonlinear_arith)
            requires
                clusters == (bytes + size - 1) / (size as int),
                1 <= bytes <= 0xffff_ffff,
                512 <= size <= 0x1_0000,
        ;
        let needed: usize = clusters as usize;
        let original_len: usize = chain.len();
        let added: Vec<u32> = self.ensure_chain(&mut chain, needed)?;
        assert(chain@.len() * size >= needed * size) by (nonlinear_arith)
            requires
                chain@.len() >= needed,
                size >= 0,
        ;
        match self.fill_file(&location, chain.as_slice(), offset, data, bytes) {
            Ok(_) => Ok(data.len()),
            Err(error) => {
                if added.len() > 0 {
                    self.rollback_chain_growth(&mut chain, original_len);
                }
                Err(error)
            },
        }
    }

    /// The records of the entry at `location` in one cluster of its directory:
    /// those found, or else the long-name records met last.
    fn group_in_cluster(
        &self,
        cluster: u32,
        data: &[u8],
        pending: &mut Vec<(u32, usize)>,
        location: &EntryLocation,
    ) -> (found: bool)
        requires
            self.wf(),
            self.geometry.is_cluster(cluster),
            data@ == self.volume().data(cluster),
            all_places(self.geometry, places(old(pending)@)),
        ensures
            all_places(self.geometry, places(final(pending)@)),
            ({
                let g = self.volume().group_cluster(cluster, 0, places(old(pending)@), location@);
                if found {
                    g.1 == Some(places(final(pending)@)) && final(pending)@.len() > 0
                } else {
                    g == (places(final(pending)@), None::<Seq<(u32, int)>>)
                }
            }),
    {
        let n: usize = data.len() / 32;
        let ghost v = self.volume();
        let ghost whole = v.group_cluster(cluster, 0, places(pending@), location@);
        let mut k: usize = 0;
        while k < n
            invariant
                self.wf(),
                v == self.volume(),
                v.g.is_cluster(cluster),
                data@ == v.data(cluster),
                n == v.records(),
                n <= 0x1_0000,
                data@.len() == 32 * n,
                data@.len() == v.g.cluster_size(),
                k <= n,
                all_places(self.geometry, places(pending@)),
                whole == v.group_cluster(cluster, 0, places(old(pending)@), location@),
                v.group_cluster(cluster, k as int, places(pending@), location@) == whole,
            decreases n - k,
        {
            let at: usize = 32 * k;
            assert(v.record(cluster, k as int)[0] == data@[at as int]);
            assert(v.record(cluster, k as int)[11] == data@[at + 11]);
            let ghost before = pending@;
            if data[at] == 0 {
                return false;
            }
            if data[at] == 0xe5 {
                pending.clear();
                assert(places(pending@) =~= Seq::<(u32, int)>::empty());
            } else if data[at + 11] == 0x0f {
                pending.push((cluster, at));
                assert(places(pending@) =~= places(before).push((cluster, at as int)));
            } else if cluster == location.cluster && at == location.offset {
                pending.push((cluster, at));
                assert(places(pending@) =~= places(before).push((cluster, at as int)));
                return true;
            } else {
                pending.clear();
                assert(places(pending@) =~= Seq::<(u32, int)>::empty());
            }
            k += 1;
        }
        false
    }

    /// The records of the entry at `location` of a directory.
    fn group_records(&self, dir_chain: &[u32], location: &EntryLocation) -> (r: Result<
        Vec<(u32, usize)>,
        FatError,
    >)
        requires
            self.wf(),
            all_clusters(self.geometry, dir_chain@),
        ensures
            r matches Ok(found) ==> all_places(self.geometry, places(found@)),
            match r {
                Ok(found) => self.volume().group(dir_chain@, 0, Seq::empty(), location@) == Some(
                    places(found@),
                ),
                Err(e) => (e == FatError::Corrupt && self.volume().group(
                    dir_chain@,
                    0,
                    Seq::empty(),
                    location@,
                ) is None) || (!self.device.reliable() && e == FatError::Io),
            },
    {
        let mut pending: Vec<(u32, usize)> = Vec::new();
        let ghost v = self.volume();
        assert(places(pending@) =~= Seq::<(u32, int)>::empty());
        let mut i: usize = 0;
        while i < dir_chain.len()
            invariant
                self.wf(),
                v == self.volume(),
                all_clusters(self.geometry, dir_chain@),
                i <= dir_chain@.len(),
                all_places(self.geometry, places(pending@)),
                v.group(dir_chain@, i as int, places(pending@), location@) == v.group(
                    dir_chain@,
                    0,
                    Seq::empty(),
                    location@,
                ),
            decreases dir_chain@.len() - i,
        {
            let cluster: u32 = dir_chain[i];
            let data: Vec<u8> = self.read_cluster(cluster)?;
            if self.group_in_cluster(cluster, data.as_slice(), &mut pending, location) {
                return Ok(pending);
            }
            i += 1;
        }
        Err(FatError::Corrupt)
    }

    /// Mark records deleted.
    fn delete_found(&mut self, found: &Vec<(u32, usize)>) -> (r: Result<(), FatError>)
        requires
            old(self).wf(),
            all_places(old(self).geometry, places(found@)),
        ensures
            final(self).kept(old(self)),
            final(self).is_made(
                old(self),
                r,
                (old(self).volume().delete_records(places(found@), 0), Ok(())),
            ),
    {
        let mark: [u8; 1] = [0xe5u8];
        assert(mark@ =~= seq![0xe5u8]);
        let mut i: usize = 0;
        while i < found.len()
            invariant
                i <= found@.len(),
                mark@ == seq![0xe5u8],
                all_places(old(self).geometry, places(found@)),
                self.kept(old(self)),
                self.volume().delete_records(places(found@), i as int) == old(self).volume().delete_records(places(found@), 0),
            decreases found@.len() - i,
        {
            let (cluster, offset) = found[i];
            assert(places(found@)[i as int] == (cluster, offset as int));
            self.write_directory_bytes(cluster, offset, mark.as_slice())?;
            i += 1;
        }
        Ok(())
    }

    /// Remove a file or an empty directory. Non-empty directories are kept.
    pub fn remove(&mut self, path: &str) -> (r: Result<(), FatError>)
        requires
            old(self).wf(),
        ensures
            final(self).kept(old(self)),
            final(self).is_made(old(self), r, old(self).volume().remove(path@)),
    {
        let (parent, name) = self.parent_and_name(path)?;
        let location: EntryLocation = match self.find_named_entry(parent, name.as_slice())? {
            Some(location) => location,
            None => {
                return Err(FatError::NotFound);
            },
        };
        if location.is_dir {
            let content: Vec<EntryLocation> = self.directory_entries(location.first_cluster)?;
            assert(slots(content@).len() == content@.len());
            if content.len() > 0 {
                return Err(FatError::DirectoryNotEmpty);
            }
        }
        let chain: Vec<u32> = self.collect_chain(location.first_cluster)?;
        let dir_chain: Vec<u32> = self.collect_chain(parent)?;
        let found: Vec<(u32, usize)> = self.group_records(dir_chain.as_slice(), &location)?;
        self.delete_found(&found)?;
        self.release_chain(chain.as_slice())
    }
}

/// Places of records as mathematical values.
pub open spec fn places(v: Seq<(u32, usize)>) -> Seq<(u32, int)> {
    Seq::new(v.len(), |i: int| (v[i].0, v[i].1 as int))
}

/// Whether every place is that of a record inside a cluster.
pub open spec fn all_places(g: Geometry, p: Seq<(u32, int)>) -> bool {
    forall|i: int|
        #![trigger p[i]]
        0 <= i < p.len() ==> g.is_cluster(p[i].0) && 0 <= p[i].1 && p[i].1 + 32 <= g.cluster_size()
            && p[i].1 % 32 == 0
}

} // verus!
