//! The copies of the allocation table.

use vstd::prelude::*;
use super::model::{Volume, END_OF_CHAIN};
use super::table::all_clusters;

verus! {

impl Volume {
    /// Whether all copies of the table are the same.
    pub open spec fn is_mirrored(self) -> bool {
        forall|k: int, s: int|
            #![trigger self.g.fat_lba(k, s)]
            0 <= k < self.g.fat_count && 0 <= s < self.g.sectors_per_fat
                ==> self.img[self.g.fat_lba(k, s)] == self.img[self.g.fat_lba(0, s)]
    }

    /// Whether the copies of the table hold what they held.
    pub open spec fn keeps_tables(self, w: Volume) -> bool {
        &&& w.g == self.g
        &&& forall|k: int, s: int|
            #![trigger self.g.fat_lba(k, s)]
            0 <= k < self.g.fat_count && 0 <= s < self.g.sectors_per_fat
                ==> w.img[self.g.fat_lba(k, s)] == self.img[self.g.fat_lba(k, s)]
    }

    /// Replacing bytes of a cluster touches no copy of the table.
    pub proof fn lemma_put_tables(self, c: u32, offset: int, bytes: Seq<u8>)
        requires
            self.wf(),
            self.g.is_cluster(c),
            0 <= offset < self.g.cluster_size(),
        ensures
            self.keeps_tables(self.put(c, offset, bytes)),
    {
        let w = self.put(c, offset, bytes);
        self.g.lemma_lba(c);
        assert forall|k: int, s: int|
            #![trigger self.g.fat_lba(k, s)]
            0 <= k < self.g.fat_count && 0 <= s < self.g.sectors_per_fat implies w.img[self.g.fat_lba(
            k,
            s,
        )] == self.img[self.g.fat_lba(k, s)] by {
            self.g.lemma_fat_lba(k, s);
        }
    }

    pub proof fn lemma_zero_tables(self, c: u32)
        requires
            self.wf(),
            self.g.is_cluster(c),
        ensures
            self.keeps_tables(self.zero(c)),
    {
        let w = self.zero(c);
        self.g.lemma_lba(c);
        assert forall|k: int, s: int|
            #![trigger self.g.fat_lba(k, s)]
            0 <= k < self.g.fat_count && 0 <= s < self.g.sectors_per_fat implies w.img[self.g.fat_lba(
            k,
            s,
        )] == self.img[self.g.fat_lba(k, s)] by {
            self.g.lemma_fat_lba(k, s);
        }
    }

    /// Setting a table entry does the same to every copy.
    pub proof fn lemma_set_fat_mirrored(self, c: u32, value: u32)
        requires
            self.wf(),
            c < self.g.cluster_count + 2,
            self.is_mirrored(),
        ensures
            self.set_fat(c, value).is_mirrored(),
    {
        reveal(Volume::set_fat);
        let m = self.mark_fsinfo();
        let n = self.g.fat_count as int;
        let w = self.set_fat(c, value);
        self.lemma_mark();
        self.lemma_mark_wf();
        assert forall|k: int, s: int|
            #![trigger w.g.fat_lba(k, s)]
            0 <= k < w.g.fat_count && 0 <= s < w.g.sectors_per_fat implies w.img[w.g.fat_lba(k, s)]
            == w.img[w.g.fat_lba(0, s)] by {
            self.g.lemma_fat_lba(k, s);
            self.g.lemma_fat_lba(0, s);
            m.lemma_set_copies_at(c, value, n, k, s);
            m.lemma_set_copies_at(c, value, n, 0, s);
            assert(self.img[self.g.fat_lba(k, s)] == self.img[self.g.fat_lba(0, s)]);
        }
    }

    pub proof fn lemma_kept_mirrored(self, w: Volume)
        requires
            self.keeps_tables(w),
            self.is_mirrored(),
        ensures
            w.is_mirrored(),
    {
        assert forall|k: int, s: int|
            #![trigger w.g.fat_lba(k, s)]
            0 <= k < w.g.fat_count && 0 <= s < w.g.sectors_per_fat implies w.img[w.g.fat_lba(k, s)]
            == w.img[w.g.fat_lba(0, s)] by {
            assert(w.img[self.g.fat_lba(k, s)] == self.img[self.g.fat_lba(k, s)]);
            assert(w.img[self.g.fat_lba(0, s)] == self.img[self.g.fat_lba(0, s)]);
        }
    }

    pub proof fn lemma_take_free_mirrored(self)
        requires
            self.wf(),
            self.is_mirrored(),
        ensures
            self.take_free().0.is_mirrored(),
    {
        reveal(Volume::take_free);
        self.lemma_find_free(self.search_start(), 0);
        if let Some(c) = self.find_free(self.search_start(), 0) {
            let s = self.set_fat(c, END_OF_CHAIN);
            self.lemma_set_fat(c, END_OF_CHAIN);
            self.lemma_set_fat_mirrored(c, END_OF_CHAIN);
            s.lemma_zero_tables(c);
            s.lemma_kept_mirrored(s.zero(c));
            let w = self.take_free().0;
            assert(w.img == s.zero(c).img && w.g == self.g);
            s.zero(c).lemma_kept_mirrored(w);
        }
    }

    pub proof fn lemma_release_mirrored(self, chain: Seq<u32>)
        requires
            self.wf(),
            all_clusters(self.g, chain),
            self.is_mirrored(),
        ensures
            self.release(chain).is_mirrored(),
        decreases chain.len(),
    {
        if chain.len() > 0 {
            let front = chain.drop_last();
            assert forall|i: int| 0 <= i < front.len() implies self.g.is_cluster(#[trigger] front[i]) by {
                assert(front[i] == chain[i]);
            }
            self.lemma_release(front);
            self.lemma_release_mirrored(front);
            let v = self.release(front);
            assert(self.g.is_cluster(chain[chain.len() - 1]));
            v.lemma_set_fat_mirrored(chain.last(), 0);
            let w = self.release(chain);
            v.set_fat(chain.last(), 0).lemma_kept_mirrored(w);
        }
    }
}

} // verus!
