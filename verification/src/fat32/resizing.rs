//! What holds of the answers of calls after a file was emptied or written to.

use vstd::prelude::*;
use crate::block::BlockDevice;
use super::{Fat32, FatError};
use super::calls::same_lists;
use super::directory::{no_long_name, visible, LongName, Slot};
use super::files::{are_shown, DirEntry, MAX_WHOLE_FILE};
use super::laws::{is_small, overwritten};
use super::model::{Volume, MAX_CHAIN_STEPS};
use super::removing::lemma_named_index;
use super::walks::{all_moved, lemma_visible_named, moved};

verus! {

/// Whether no two entries stand in the same record.
pub open spec fn are_apart(s: Seq<Slot>) -> bool {
    forall|a: int, b: int|
        0 <= a < b < s.len() ==> (#[trigger] s[a]).cluster != (#[trigger] s[b]).cluster
            || s[a].offset != s[b].offset
}

/// Whether entries stand in front of record `k` of cluster `i` of a directory.
spec fn lie_before(s: Seq<Slot>, chain: Seq<u32>, i: int, k: int) -> bool {
    forall|a: int|
        0 <= a < s.len() ==> chain.take(i).contains((#[trigger] s[a]).cluster) || (s[a].cluster
            == chain[i] && s[a].offset < 32 * k)
}

impl Volume {
    proof fn lemma_cluster_apart(
        self,
        chain: Seq<u32>,
        i: int,
        k: int,
        st: LongName,
        found: Seq<Slot>,
    )
        requires
            chain.no_duplicates(),
            0 <= i < chain.len(),
            0 <= k <= self.records(),
            are_apart(found),
            lie_before(found, chain, i, k),
        ensures
            are_apart(self.scan_cluster(chain[i], k, st, found).1),
            lie_before(self.scan_cluster(chain[i], k, st, found).1, chain, i + 1, 0),
        decreases self.records() - k,
    {
        let c = chain[i];
        let e = self.record(c, k);
        assert(!chain.take(i).contains(c)) by {
            if chain.take(i).contains(c) {
                let j = choose|j: int| 0 <= j < i && chain.take(i)[j] == c;
                assert(chain[j] == chain[i]);
            }
        }
        if k >= self.records() || e[0] == 0 {
            assert forall|a: int| 0 <= a < found.len() implies chain.take(i + 1).contains(
                (#[trigger] found[a]).cluster,
            ) by {
                if chain.take(i).contains(found[a].cluster) {
                    let j = choose|j: int| 0 <= j < i && chain.take(i)[j] == found[a].cluster;
                    assert(chain.take(i + 1)[j] == found[a].cluster);
                } else {
                    assert(chain.take(i + 1)[i] == c);
                }
            }
        } else {
            let st2 = super::directory::after_record(st, e);
            let slot = super::directory::slot_of(c, k, st, e);
            let found2 = if super::directory::is_entry(e) {
                found.push(slot)
            } else {
                found
            };
            assert forall|a: int, b: int| 0 <= a < b < found2.len() implies (
            #[trigger] found2[a]).cluster != (#[trigger] found2[b]).cluster || found2[a].offset
                != found2[b].offset by {
                assert(found2[a] == found[a]);
                if b < found.len() {
                    assert(found2[b] == found[b]);
                }
            }
            assert(lie_before(found2, chain, i, k + 1)) by {
                assert forall|a: int| 0 <= a < found2.len() implies chain.take(i).contains(
                    (#[trigger] found2[a]).cluster,
                ) || (found2[a].cluster == chain[i] && found2[a].offset < 32 * (k + 1)) by {
                    if a < found.len() {
                        assert(found2[a] == found[a]);
                    }
                }
            }
            self.lemma_cluster_apart(chain, i, k + 1, st2, found2);
        }
    }

    proof fn lemma_list_apart(self, chain: Seq<u32>, i: int, st: LongName, found: Seq<Slot>)
        requires
            chain.no_duplicates(),
            0 <= i <= chain.len(),
            0 <= self.records(),
            are_apart(found),
            lie_before(found, chain, i, 0),
        ensures
            are_apart(self.scan_list(chain, i, st, found)),
        decreases chain.len() - i,
    {
        if i < chain.len() {
            self.lemma_cluster_apart(chain, i, 0, st, found);
            let (st2, found2, ended) = self.scan_cluster(chain[i], 0, st, found);
            if !ended {
                self.lemma_list_apart(chain, i + 1, st2, found2);
            }
        }
    }
}

/// Entries that are shown are among those that are there, and apart where those are.
proof fn lemma_visible_apart(s: Seq<Slot>)
    requires
        are_apart(s),
    ensures
        are_apart(visible(s)),
        forall|i: int| 0 <= i < visible(s).len() ==> s.contains(#[trigger] visible(s)[i]),
    decreases s.len(),
{
    if s.len() > 0 {
        let t = s.drop_last();
        assert forall|a: int, b: int| 0 <= a < b < t.len() implies (#[trigger] t[a]).cluster != (
        #[trigger] t[b]).cluster || t[a].offset != t[b].offset by {
            assert(s[a] == t[a] && s[b] == t[b]);
        }
        lemma_visible_apart(t);
        let v = visible(s);
        let u = visible(t);
        assert forall|i: int| 0 <= i < v.len() implies s.contains(#[trigger] v[i]) by {
            if i < u.len() {
                assert(v[i] == u[i]);
                let j = choose|j: int| 0 <= j < t.len() && t[j] == u[i];
                assert(s[j] == v[i]);
            } else {
                assert(v[i] == s[s.len() - 1]);
            }
        }
        assert forall|a: int, b: int| 0 <= a < b < v.len() implies (#[trigger] v[a]).cluster != (
        #[trigger] v[b]).cluster || v[a].offset != v[b].offset by {
            assert(v[a] == u[a]);
            if b < u.len() {
                assert(v[b] == u[b]);
            } else {
                let j = choose|j: int| 0 <= j < t.len() && t[j] == u[a];
                assert(s[j] == v[a] && s[s.len() - 1] == v[b]);
            }
        }
    }
}

/// Entries with other metadata are shown where they were.
proof fn lemma_visible_moved(s: Seq<Slot>, t: Slot, first: u32, size: u32)
    ensures
        visible(all_moved(s, t, first, size)) == all_moved(visible(s), t, first, size),
    decreases s.len(),
{
    let m = all_moved(s, t, first, size);
    if s.len() > 0 {
        lemma_visible_moved(s.drop_last(), t, first, size);
        assert(m.drop_last() =~= all_moved(s.drop_last(), t, first, size));
        assert(m.last() == moved(s.last(), t, first, size));
    }
    assert(visible(m) =~= all_moved(visible(s), t, first, size));
}

/// Whether a list shows what another does, but for the size of entry `n`.
pub open spec fn is_resized(
    list: Seq<DirEntry>,
    before: Seq<DirEntry>,
    n: int,
    size: u32,
) -> bool {
    &&& list.len() == before.len()
    &&& 0 <= n < list.len()
    &&& list[n].reads(before[n].name@, before[n].is_dir, size)
    &&& same_lists(list.remove(n), before.remove(n))
}

impl Volume {
    /// What the directory of a file lists after the file has changed.
    proof fn lemma_resized_listing(
        self,
        w: Volume,
        d: Seq<char>,
        name: Seq<char>,
        slot: Slot,
        chain: Seq<u32>,
        touched: Seq<u32>,
        first: u32,
        size: u32,
    ) -> (n: int)
        requires
            self.wf(),
            self.is_file_at(d.push('/') + name, slot, chain),
            name.len() > 0,
            forall|k: int| 0 <= k < name.len() ==> name[k] != '/',
            self.changed(w, touched, slot, first, size),
            forall|i: int|
                0 <= i < touched.len() ==> chain.contains(#[trigger] touched[i]) || self.fat(
                    touched[i],
                ) == 0,
        ensures
            self.listing(d) matches Ok(l) && 0 <= n < l.len() && l[n] == slot && w.listing(d)
                == Ok::<Seq<Slot>, FatError>(l.update(n, Slot { first, size, ..slot })),
    {
        let path = d.push('/') + name;
        let (dir, base) = self.locate(path)->Ok_0;
        let dir_chain = self.chain(dir)->Ok_0;
        self.lemma_changed_file(w, path, slot, chain, touched, first, size);
        self.lemma_locate(path);
        self.lemma_directory(dir, dir_chain);
        w.lemma_directory(dir, dir_chain);
        self.lemma_listed_in(d, name, dir);
        w.lemma_listed_in(d, name, dir);
        let s = self.all_entries(dir_chain);
        let l = visible(s);
        self.law_chain_distinct(dir_chain);
        self.lemma_list_apart(dir_chain, 0, no_long_name(), Seq::empty());
        lemma_visible_apart(s);
        lemma_visible_named(s, base);
        lemma_visible_moved(s, slot, first, size);
        let n = lemma_named_index(l, base);
        let m = all_moved(l, slot, first, size);
        assert forall|i: int| 0 <= i < l.len() && i != n implies m[i] == l[i] by {
            let a = if i < n {
                i
            } else {
                n
            };
            let b = if i < n {
                n
            } else {
                i
            };
            assert(l[a].cluster != l[b].cluster || l[a].offset != l[b].offset);
        }
        assert(m =~= l.update(n, Slot { first, size, ..slot }));
        n
    }
}

/// Lists of entries of which one has another size.
proof fn lemma_resized(
    found: Seq<Slot>,
    n: int,
    slot: Slot,
    list: Seq<DirEntry>,
    before: Seq<DirEntry>,
)
    requires
        are_shown(found, before),
        0 <= n < found.len(),
        are_shown(found.update(n, slot), list),
        slot.name == found[n].name,
        slot.is_dir == found[n].is_dir,
    ensures
        is_resized(list, before, n, slot.size),
{
    let new = found.update(n, slot);
    assert(new[n].node().shown_by(list[n]));
    assert(found[n].node().shown_by(before[n]));
    assert forall|i: int| 0 <= i < list.len() - 1 implies (#[trigger] list.remove(n)[i]).same_as(
        before.remove(n)[i],
    ) by {
        let j = if i < n {
            i
        } else {
            i + 1
        };
        assert(new[j].node().shown_by(list[j]));
        assert(found[j].node().shown_by(before[j]));
    }
}

impl<D: BlockDevice> Fat32<D> {
    /// A file that was emptied is still there under its name, with no bytes, and its
    /// clusters are free. The other entries of its directory are as they were.
    pub proof fn law_emptied_file(
        &self,
        after: &Self,
        d: Seq<char>,
        name: Seq<char>,
        slot: Slot,
        chain: Seq<u32>,
        e: DirEntry,
        r: Result<(), FatError>,
        old_list: Vec<DirEntry>,
        list: Result<Vec<DirEntry>, FatError>,
        entry: Result<DirEntry, FatError>,
        whole: Result<Vec<u8>, FatError>,
    ) -> (n: int)
        requires
            self.wf(),
            self.volume().is_file_at(d.push('/') + name, slot, chain),
            name.len() > 0,
            forall|k: int| 0 <= k < name.len() ==> name[k] != '/',
            after.kept(self),
            after.is_made(self, r, self.volume().truncate(d.push('/') + name)),
            self.gives_stat(d.push('/') + name, Ok(e)),
            self.gives_list(d, Ok(old_list)),
            after.gives_list(d, list),
            after.gives_stat(d.push('/') + name, entry),
            after.gives_file(d.push('/') + name, whole),
        ensures
            r is Ok || self.is_broken_off(r),
            r is Ok ==> {
                &&& after.is_cut_off(entry) || (entry matches Ok(now) && now.reads(
                    e.name@,
                    false,
                    0,
                ))
                &&& after.is_cut_off(whole) || (whole matches Ok(bytes) && bytes@.len() == 0)
                &&& after.is_cut_off(list) || (list matches Ok(l) && is_resized(
                    l@,
                    old_list@,
                    n,
                    0,
                ) && old_list@[n].same_as(e))
                &&& forall|i: int|
                    0 <= i < chain.len() ==> after.volume().fat(#[trigger] chain[i]) == 0
            },
    {
        let path = d.push('/') + name;
        let v = self.volume();
        let w = v.truncate(path).0;
        v.law_truncate(path, slot, chain);
        v.lemma_file_node(path, slot, chain);
        let n = v.lemma_resized_listing(w, d, name, slot, chain, chain, 0, 0);
        let l0 = v.listing(d)->Ok_0;
        assert(l0[n].node().shown_by(old_list@[n]));
        if r is Ok {
            if let Ok(l) = list {
                lemma_resized(l0, n, Slot { first: 0, size: 0, ..slot }, l@, old_list@);
            }
        }
        n
    }

    /// What is written to a file is read back with the bytes it had elsewhere, and zeros
    /// between its old end and the write. The other entries of its directory are as they
    /// were.
    pub proof fn law_written_file(
        &self,
        after: &Self,
        d: Seq<char>,
        name: Seq<char>,
        slot: Slot,
        chain: Seq<u32>,
        offset: usize,
        data: Seq<u8>,
        old_bytes: Vec<u8>,
        r: usize,
        old_list: Vec<DirEntry>,
        list: Result<Vec<DirEntry>, FatError>,
        whole: Result<Vec<u8>, FatError>,
    ) -> (n: int)
        requires
            self.wf(),
            is_small(self.geometry),
            self.volume().is_file_at(d.push('/') + name, slot, chain),
            name.len() > 0,
            forall|k: int| 0 <= k < name.len() ==> name[k] != '/',
            0 < data.len() <= usize::MAX,
            after.kept(self),
            after.is_made(
                self,
                Ok(r),
                self.volume().write(d.push('/') + name, offset as int, data),
            ),
            self.gives_file(d.push('/') + name, Ok(old_bytes)),
            self.gives_list(d, Ok(old_list)),
            after.gives_list(d, list),
            after.gives_file(d.push('/') + name, whole),
            overwritten(old_bytes@, offset as int, data).len() <= MAX_WHOLE_FILE,
        ensures
            ({
                let new_bytes = overwritten(old_bytes@, offset as int, data);
                &&& r == data.len()
                &&& after.is_cut_off(whole) || (whole matches Ok(bytes) && bytes@ == new_bytes)
                &&& after.is_cut_off(list) || (list matches Ok(l) && is_resized(
                    l@,
                    old_list@,
                    n,
                    new_bytes.len() as u32,
                ))
            }),
    {
        let path = d.push('/') + name;
        let v = self.volume();
        let w = v.write(path, offset as int, data).0;
        v.lemma_file_node(path, slot, chain);
        let before = v.content(chain);
        v.lemma_read_content(slot.node(), chain, 0, slot.size as int);
        assert(before.subrange(0, slot.size as int) =~= before.take(slot.size as int));
        assert(old_bytes@ == before.take(slot.size as int));
        let want = overwritten(old_bytes@, offset as int, data);
        assert(want.len() <= MAX_CHAIN_STEPS * v.g.cluster_size());
        v.law_read_back(path, slot, chain, offset as int, data, 0, want.len() as int);
        assert(want.subrange(0, want.len() as int) =~= want);
        let grown = v.lemma_write(path, slot, chain, offset as int, data);
        v.lemma_changed_file(w, path, slot, chain, grown, grown[0], want.len() as u32);
        let n = v.lemma_resized_listing(
            w,
            d,
            name,
            slot,
            chain,
            grown,
            grown[0],
            want.len() as u32,
        );
        if let Ok(l) = list {
            lemma_resized(
                v.listing(d)->Ok_0,
                n,
                Slot { first: grown[0], size: want.len() as u32, ..slot },
                l@,
                old_list@,
            );
        }
        assert(r == data.len()) by {
            reveal(Volume::write);
        }
        n
    }

    /// A directory is neither emptied nor written to, and nothing changes.
    pub proof fn law_directory_is_no_file(
        &self,
        after: &Self,
        path: Seq<char>,
        dir: u32,
        name: Seq<char>,
        slot: Slot,
        offset: int,
        data: Seq<u8>,
        emptied: Result<(), FatError>,
        written: Result<usize, FatError>,
    )
        requires
            self.volume().locate(path) == Ok::<(u32, Seq<char>), FatError>((dir, name)),
            self.volume().find_named(dir, name) == Ok::<Option<Slot>, FatError>(Some(slot)),
            slot.is_dir,
            0 <= offset,
            0 < data.len(),
            offset + data.len() <= u32::MAX,
        ensures
            after.is_made(self, emptied, self.volume().truncate(path)) ==> {
                &&& self.is_broken_off(emptied) || emptied == Err::<(), FatError>(
                    FatError::IsDirectory,
                )
                &&& self.healthy() ==> after.volume() == self.volume()
            },
            after.is_made(self, written, self.volume().write(path, offset, data)) ==> {
                &&& self.is_broken_off(written) || written == Err::<usize, FatError>(
                    FatError::IsDirectory,
                )
                &&& self.healthy() ==> after.volume() == self.volume()
            },
    {
        reveal(Volume::write);
    }
}

} // verus!
