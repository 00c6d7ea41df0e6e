//! What every change to a volume keeps: the copies of its allocation table agree.

use vstd::prelude::*;
use crate::bytes::zeros;
use super::adding::lemma_new_records;
use super::directory::{no_long_name, Slot};
use super::laws::lemma_place;
use super::model::{Volume, END_OF_CHAIN};
use super::names::{fits_long, utf16};
use super::table::all_clusters;
use super::update::{is_placed, new_records, with_meta};

verus! {

impl Volume {
    /// Whether a volume is of the same shape as this one, with copies of the table that
    /// agree if this one's do.
    pub open spec fn keeps_up(self, w: Volume) -> bool {
        &&& w.wf()
        &&& w.g == self.g
        &&& self.is_mirrored() ==> w.is_mirrored()
    }

    proof fn lemma_keeps_chain(self, first: u32)
        ensures
            self.chain(first) matches Ok(chain) ==> self.linked(chain) && all_clusters(
                self.g,
                chain,
            ) && chain.no_duplicates(),
    {
        self.lemma_chain_linked(
            if first == 0 {
                None
            } else {
                Some(first)
            },
            self.g.cluster_count as nat,
        );
        if let Ok(chain) = self.chain(first) {
            self.law_chain_distinct(chain);
            assert forall|i: int| 0 <= i < chain.len() implies self.g.is_cluster(
                #[trigger] chain[i],
            ) by {
                self.lemma_linked_used(chain, i);
            }
        }
    }

    proof fn lemma_keeps_release(self, chain: Seq<u32>)
        requires
            self.wf(),
            all_clusters(self.g, chain),
        ensures
            self.keeps_up(self.release(chain)),
    {
        self.lemma_release(chain);
        if self.is_mirrored() {
            self.lemma_release_mirrored(chain);
        }
    }

    proof fn lemma_keeps_set_fat(self, c: u32, value: u32)
        requires
            self.wf(),
            self.g.is_cluster(c),
        ensures
            self.keeps_up(self.set_fat(c, value)),
    {
        self.lemma_set_fat(c, value);
        if self.is_mirrored() {
            self.lemma_set_fat_mirrored(c, value);
        }
    }

    proof fn lemma_keeps_take_free(self)
        requires
            self.wf(),
        ensures
            self.keeps_up(self.take_free().0),
    {
        self.lemma_take_free();
        if self.is_mirrored() {
            self.lemma_take_free_mirrored();
        }
    }

    proof fn lemma_keeps_put(self, c: u32, offset: int, bytes: Seq<u8>)
        requires
            self.wf(),
            self.g.is_cluster(c),
            0 <= offset < self.g.cluster_size(),
            offset % 512 + bytes.len() <= 512,
        ensures
            self.keeps_up(self.put(c, offset, bytes)),
    {
        self.lemma_put(c, offset, bytes);
        self.lemma_put_tables(c, offset, bytes);
        if self.is_mirrored() {
            self.lemma_kept_mirrored(self.put(c, offset, bytes));
        }
    }

    proof fn lemma_keeps_append(self, dir: u32, rs: Seq<Seq<u8>>)
        requires
            self.wf(),
            rs.len() > 0,
            forall|j: int| 0 <= j < rs.len() ==> (#[trigger] rs[j]).len() == 32,
        ensures
            self.keeps_up(self.append(dir, rs).0),
    {
        self.lemma_keeps_chain(dir);
        if let Ok(chain) = self.chain(dir) {
            if chain.len() > 0 {
                let v1 = self.erase_tail(chain, false);
                self.lemma_erase_tail(chain, false, no_long_name(), Seq::empty());
                if self.is_mirrored() {
                    self.lemma_kept_mirrored(v1);
                }
                let n = self.clusters_for(rs.len() as int);
                self.lemma_clusters_for(rs.len() as int);
                assert(v1.has_taken(v1, Seq::empty()));
                v1.lemma_take_many(v1, n, Seq::empty());
                if let (v2, Ok(added)) = v1.take_many(n, Seq::empty()) {
                    let v3 = v2.link(added, 0);
                    v2.lemma_link(added, 0);
                    assert(self.g.is_cluster(chain[chain.len() - 1]));
                    v3.lemma_keeps_set_fat(chain.last(), added[0]);
                    let v4 = v3.set_fat(chain.last(), added[0]);
                    v4.lemma_put_records(added, rs, 0);
                    if v4.is_mirrored() {
                        v4.lemma_kept_mirrored(v4.put_records(added, rs, 0));
                    }
                }
            }
        }
    }

    proof fn lemma_keeps_add_entry(self, dir: u32, name: Seq<char>, attr: u8, first: u32)
        requires
            self.wf(),
            attr == 0x20 || attr == 0x10,
        ensures
            self.keeps_up(self.add_entry(dir, name, attr, first).0),
    {
        self.lemma_choose_short(dir, name);
        if let Ok(short) = self.choose_short(dir, name) {
            if fits_long(utf16(name)) {
                lemma_new_records(name, short, attr, first);
                self.lemma_keeps_append(dir, new_records(name, short, attr, first));
            }
        }
    }

    proof fn lemma_keeps_grow(self, chain: Seq<u32>, needed: int, len: int)
        requires
            self.wf(),
            all_clusters(self.g, chain),
            0 <= len <= chain.len(),
        ensures
            self.keeps_up(self.grow(chain, needed, len).0),
            self.grow(chain, needed, len).1 matches Ok(grown) ==> all_clusters(self.g, grown)
                && grown.len() >= needed,
        decreases needed - chain.len(),
    {
        if chain.len() < needed {
            reveal(Volume::extend);
            self.lemma_keeps_take_free();
            self.lemma_take_free();
            let (v, r) = self.take_free();
            if chain.len() > 0 {
                assert(self.g.is_cluster(chain[chain.len() - 1]));
            }
            match r {
                Ok(c) => {
                    let u = self.extend(chain).0;
                    if chain.len() > 0 {
                        v.lemma_keeps_set_fat(chain.last(), c);
                    }
                    assert(all_clusters(self.g, chain.push(c)));
                    u.lemma_keeps_grow(chain.push(c), needed, len);
                },
                Err(_) => {
                    reveal(Volume::roll_back);
                    let u = if len > 0 {
                        v.set_fat(chain[len - 1], END_OF_CHAIN)
                    } else {
                        v
                    };
                    if len > 0 {
                        assert(self.g.is_cluster(chain[len - 1]));
                        v.lemma_keeps_set_fat(chain[len - 1], END_OF_CHAIN);
                    }
                    let rest = chain.skip(len);
                    assert forall|i: int| 0 <= i < rest.len() implies self.g.is_cluster(
                        #[trigger] rest[i],
                    ) by {
                        assert(rest[i] == chain[len + i]);
                    }
                    u.lemma_keeps_release(rest);
                },
            }
        }
    }

    proof fn lemma_keeps_write_range(self, chain: Seq<u32>, offset: int, data: Seq<u8>)
        requires
            self.wf(),
            all_clusters(self.g, chain),
            0 <= offset,
            offset + data.len() <= chain.len() * self.g.cluster_size(),
        ensures
            self.keeps_up(self.write_range(chain, offset, data)),
        decreases data.len(),
    {
        if data.len() > 0 {
            let size = self.g.cluster_size();
            let room = 512 - offset % 512;
            let n = if data.len() < room {
                data.len() as int
            } else {
                room
            };
            assert(size == self.g.sectors_per_cluster * 512);
            lemma_place(offset, size, chain.len() as int);
            assert(self.g.is_cluster(chain[offset / size]));
            assert(offset % size % 512 == offset % 512) by {
                vstd::arithmetic::div_mod::lemma_mod_mod(
                    offset,
                    512,
                    self.g.sectors_per_cluster as int,
                );
            }
            self.lemma_keeps_put(chain[offset / size], offset % size, data.take(n));
            let v = self.put(chain[offset / size], offset % size, data.take(n));
            v.lemma_keeps_write_range(chain, offset + n, data.skip(n));
        }
    }

    proof fn lemma_keeps_put_meta(self, slot: Slot, first: u32, size: u32)
        requires
            self.wf(),
            is_placed(self.g, slot),
        ensures
            self.keeps_up(self.put_meta(slot, first, size)),
    {
        reveal(Volume::put_meta);
        let e = self.data(slot.cluster).subrange(slot.offset, slot.offset + 32);
        self.lemma_keeps_put(slot.cluster, slot.offset, with_meta(e, first, size));
    }

    proof fn lemma_keeps_write(self, path: Seq<char>, offset: int, data: Seq<u8>)
        requires
            self.wf(),
            0 <= offset,
        ensures
            self.keeps_up(self.write(path, offset, data).0),
    {
        reveal(Volume::write);
        let end = offset + data.len();
        if 0 < data.len() && end <= u32::MAX {
            if let Ok((dir, name)) = self.locate(path) {
                self.lemma_found_placed(dir, name);
                if let Ok(Some(slot)) = self.find_named(dir, name) {
                    self.lemma_keeps_chain(slot.first);
                    if self.chain(slot.first) is Ok && !slot.is_dir {
                        let chain = self.chain(slot.first)->Ok_0;
                        let bytes = if end > slot.size {
                            end
                        } else {
                            slot.size as int
                        };
                        let size = self.g.cluster_size();
                        let needed = self.clusters_of(bytes);
                        self.lemma_keeps_grow(chain, needed, chain.len() as int);
                        if let (v, Ok(grown)) = self.grow(chain, needed, chain.len() as int) {
                            assert(bytes <= needed * size) by (nonlinear_arith)
                                requires
                                    needed == (bytes + size - 1) / size,
                                    size > 0,
                                    bytes > 0,
                            ;
                            assert(needed * size <= grown.len() * size) by (nonlinear_arith)
                                requires
                                    needed <= grown.len(),
                                    size > 0,
                            ;
                            let u = if offset > slot.size {
                                v.write_range(
                                    grown,
                                    slot.size as int,
                                    zeros((offset - slot.size) as nat),
                                )
                            } else {
                                v
                            };
                            if offset > slot.size {
                                v.lemma_keeps_write_range(
                                    grown,
                                    slot.size as int,
                                    zeros((offset - slot.size) as nat),
                                );
                            }
                            u.lemma_keeps_write_range(grown, offset, data);
                            let x = u.write_range(grown, offset, data);
                            x.lemma_keeps_put_meta(
                                slot,
                                grown[0],
                                if end > slot.size {
                                    end as u32
                                } else {
                                    slot.size
                                },
                            );
                        }
                    }
                }
            }
        }
    }

    proof fn lemma_keeps_remove(self, path: Seq<char>)
        requires
            self.wf(),
        ensures
            self.keeps_up(self.remove(path).0),
    {
        if let Ok((dir, name)) = self.locate(path) {
            if let Ok(Some(slot)) = self.find_named(dir, name) {
                self.lemma_keeps_chain(slot.first);
                self.lemma_keeps_chain(dir);
                if let (Ok(chain), Ok(parent)) = (self.chain(slot.first), self.chain(dir)) {
                    assert(self.all_spots(Seq::empty()));
                    self.lemma_keeps_group(parent, 0, Seq::empty(), slot);
                    if let Some(found) = self.group(parent, 0, Seq::empty(), slot) {
                        self.lemma_keeps_delete(found, 0);
                        self.delete_records(found, 0).lemma_keeps_release(chain);
                    }
                }
            }
        }
    }

    /// Whether all of the given places are first bytes of records.
    spec fn all_spots(self, found: Seq<(u32, int)>) -> bool {
        forall|i: int|
            0 <= i < found.len() ==> self.g.is_cluster((#[trigger] found[i]).0) && 0 <= found[i].1
                < self.g.cluster_size() && found[i].1 % 32 == 0
    }

    proof fn lemma_keeps_group_cluster(
        self,
        c: u32,
        k: int,
        pending: Seq<(u32, int)>,
        target: Slot,
    )
        requires
            self.g.is_cluster(c),
            0 <= k,
            self.all_spots(pending),
        ensures
            self.all_spots(self.group_cluster(c, k, pending, target).0),
            self.group_cluster(c, k, pending, target).1 matches Some(found) ==> self.all_spots(
                found,
            ),
        decreases self.records() - k,
    {
        if k < self.records() {
            let e = self.record(c, k);
            assert(self.all_spots(Seq::empty()));
            assert(self.all_spots(pending.push((c, 32 * k))));
            if e[0] == 0 {
            } else if e[0] == 0xe5 {
                self.lemma_keeps_group_cluster(c, k + 1, Seq::empty(), target);
            } else if e[11] == 0x0f {
                self.lemma_keeps_group_cluster(c, k + 1, pending.push((c, 32 * k)), target);
            } else {
                self.lemma_keeps_group_cluster(c, k + 1, Seq::empty(), target);
            }
        }
    }

    proof fn lemma_keeps_group(
        self,
        chain: Seq<u32>,
        i: int,
        pending: Seq<(u32, int)>,
        target: Slot,
    )
        requires
            all_clusters(self.g, chain),
            0 <= i,
            self.all_spots(pending),
        ensures
            self.group(chain, i, pending, target) matches Some(found) ==> self.all_spots(found),
        decreases chain.len() - i,
    {
        if i < chain.len() {
            assert(self.g.is_cluster(chain[i]));
            self.lemma_keeps_group_cluster(chain[i], 0, pending, target);
            if let (p, None) = self.group_cluster(chain[i], 0, pending, target) {
                self.lemma_keeps_group(chain, i + 1, p, target);
            }
        }
    }

    proof fn lemma_keeps_delete(self, found: Seq<(u32, int)>, i: int)
        requires
            self.wf(),
            self.all_spots(found),
            0 <= i,
        ensures
            self.keeps_up(self.delete_records(found, i)),
        decreases found.len() - i,
    {
        if i < found.len() {
            self.lemma_keeps_put(found[i].0, found[i].1, seq![0xe5u8]);
            let v = self.put(found[i].0, found[i].1, seq![0xe5u8]);
            v.lemma_keeps_delete(found, i + 1);
        }
    }

    /// Whatever is asked of a volume, and whether it is done or refused, the volume
    /// stays well-formed, and the copies of its allocation table stay the same as each
    /// other.
    pub proof fn law_table_copies_agree(self, path: Seq<char>, offset: int, data: Seq<u8>)
        requires
            self.wf(),
            self.is_mirrored(),
            0 <= offset,
        ensures
            self.create_file(path).0.wf() && self.create_file(path).0.is_mirrored(),
            self.create_dir(path).0.wf() && self.create_dir(path).0.is_mirrored(),
            self.write(path, offset, data).0.wf() && self.write(
                path,
                offset,
                data,
            ).0.is_mirrored(),
            self.truncate(path).0.wf() && self.truncate(path).0.is_mirrored(),
            self.remove(path).0.wf() && self.remove(path).0.is_mirrored(),
    {
        self.lemma_keeps_write(path, offset, data);
        self.lemma_keeps_remove(path);
        if let Ok((dir, name)) = self.locate(path) {
            self.lemma_found_placed(dir, name);
            match self.find_named(dir, name) {
                Ok(None) => {
                    self.lemma_keeps_add_entry(dir, name, 0x20, 0);
                    self.lemma_take_free();
                    self.lemma_keeps_take_free();
                    if let (v, Ok(c)) = self.take_free() {
                        v.lemma_put_dots(c, dir);
                        let u = v.put_dots(c, dir);
                        v.lemma_kept_mirrored(u);
                        u.lemma_keeps_add_entry(dir, name, 0x10, c);
                        let w = u.add_entry(dir, name, 0x10, c).0;
                        w.lemma_keeps_release(seq![c]);
                    }
                },
                Ok(Some(slot)) => {
                    self.lemma_keeps_chain(slot.first);
                    if let Ok(chain) = self.chain(slot.first) {
                        self.lemma_keeps_put_meta(slot, 0, 0);
                        self.put_meta(slot, 0, 0).lemma_keeps_release(chain);
                    }
                },
                Err(_) => {},
            }
        }
    }
}

} // verus!
