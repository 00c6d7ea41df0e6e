//! What a new entry does to a directory.

use vstd::prelude::*;
use super::directory::{after_record, is_entry, no_long_name, slot_of, LongName, Slot};
use super::model::{Volume, END_OF_CHAIN};
use super::laws::is_small;
use super::table::all_clusters;
use super::naming::{gathered, is_plain_name, is_shown, lemma_long_name, lemma_new_record};
use super::names::{fits_long, lfn_all, lfn_count, short_checksum, utf16};
use super::update::{new_record, new_records};
use super::FatError;
use crate::bytes::{spliced, zeros};

verus! {

impl Volume {
    /// Whether `w` has this volume's table, and its clusters but for one.
    pub open spec fn same_but(self, w: Volume, c: u32) -> bool {
        &&& w.wf()
        &&& w.g == self.g
        &&& w.hint == self.hint
        &&& self.keeps_tables(w)
        &&& forall|d: u32| d < self.g.cluster_count + 2 ==> #[trigger] w.fat(d) == self.fat(d)
        &&& forall|d: u32| self.g.is_cluster(d) && d != c ==> #[trigger] w.data(d) == self.data(d)
    }

    /// Whether the end of the directory stands between two records.
    pub open spec fn ends_in(self, c: u32, from: int, to: int) -> bool {
        exists|m: int| from <= m <= to && (#[trigger] self.record(c, m))[0] == 0
    }

    /// Whether `w` has, from record `k` on, the records of this volume up to the end
    /// of the directory, and deleted ones behind it.
    pub open spec fn is_erased(self, w: Volume, c: u32, k: int, past: bool) -> bool {
        forall|j: int|
            k <= j < self.records() ==> if past || self.ends_in(c, k, j) {
                (#[trigger] w.record(c, j))[0] == 0xe5
            } else {
                w.record(c, j) == self.record(c, j)
            }
    }

    /// Replacing the first byte of a record changes that record only.
    pub proof fn lemma_put_first(self, c: u32, k: int, b: u8)
        requires
            self.wf(),
            self.g.is_cluster(c),
            0 <= k < self.records(),
        ensures
            self.same_but(self.put(c, 32 * k, seq![b]), c),
            self.put(c, 32 * k, seq![b]).record(c, k)[0] == b,
            forall|j: int|
                0 <= j < self.records() && j != k ==> #[trigger] self.put(
                    c,
                    32 * k,
                    seq![b],
                ).record(c, j) == self.record(c, j),
    {
        let w = self.put(c, 32 * k, seq![b]);
        assert(self.g.cluster_size() == self.records() * 32);
        self.lemma_put(c, 32 * k, seq![b]);
        self.lemma_put_tables(c, 32 * k, seq![b]);
        assert(w.data(c) == spliced(self.data(c), 32 * k, seq![b]));
        assert forall|j: int| 0 <= j < self.records() && j != k implies #[trigger] w.record(c, j)
            == self.record(c, j) by {
            assert(w.record(c, j) =~= self.record(c, j));
        }
    }

    proof fn lemma_same_but_trans(self, v: Volume, w: Volume, c: u32)
        requires
            self.same_but(v, c),
            v.same_but(w, c),
        ensures
            self.same_but(w, c),
    {
        assert forall|d: u32| d < self.g.cluster_count + 2 implies #[trigger] w.fat(d) == self.fat(
            d,
        ) by {
            assert(w.fat(d) == v.fat(d));
        }
        assert forall|d: u32| self.g.is_cluster(d) && d != c implies #[trigger] w.data(d)
            == self.data(d) by {
            assert(w.data(d) == v.data(d));
        }
        assert forall|k: int, s: int|
            #![trigger self.g.fat_lba(k, s)]
            0 <= k < self.g.fat_count && 0 <= s < self.g.sectors_per_fat implies w.img[self.g.fat_lba(
            k,
            s,
        )] == self.img[self.g.fat_lba(k, s)] by {
            assert(w.img[v.g.fat_lba(k, s)] == v.img[v.g.fat_lba(k, s)]);
        }
    }

    /// Erasing the tail of a cluster.
    proof fn lemma_erase_cluster(self, c: u32, k: int, past: bool)
        requires
            self.wf(),
            self.g.is_cluster(c),
            0 <= k,
        ensures
            ({
                let (w, after) = self.erase_cluster(c, k, past);
                &&& self.same_but(w, c)
                &&& forall|j: int|
                    0 <= j < k && j < self.records() ==> #[trigger] w.record(c, j) == self.record(
                        c,
                        j,
                    )
                &&& self.is_erased(w, c, k, past)
                &&& after == (past || self.ends_in(c, k, self.records() - 1))
            }),
        decreases self.records() - k,
    {
        if k < self.records() {
            let here = past || self.record(c, k)[0] == 0;
            let v = if here {
                self.put(c, 32 * k, seq![0xe5u8])
            } else {
                self
            };
            if here {
                self.lemma_put_first(c, k, 0xe5);
            }
            v.lemma_erase_cluster(c, k + 1, here);
            let (w, after) = v.erase_cluster(c, k + 1, here);
            assert(v.records() == self.records());
            if here {
                self.lemma_same_but_trans(v, w, c);
            }
            assert(w.record(c, k) == v.record(c, k));
            let n = k + 1;
            assert forall|j: int| n <= j < self.records() implies #[trigger] v.ends_in(c, n, j)
                == self.ends_in(c, n, j) by {
                if v.ends_in(c, k + 1, j) {
                    let m = choose|m: int| k + 1 <= m <= j && (#[trigger] v.record(c, m))[0] == 0;
                    assert(self.record(c, m)[0] == 0);
                }
                if self.ends_in(c, k + 1, j) {
                    let m = choose|m: int|
                        k + 1 <= m <= j && (#[trigger] self.record(c, m))[0] == 0;
                    assert(v.record(c, m)[0] == 0);
                }
            }
            assert forall|j: int| k <= j < self.records() implies #[trigger] self.ends_in(c, k, j)
                == (self.record(c, k)[0] == 0 || self.ends_in(c, n, j)) by {
                if self.ends_in(c, k, j) {
                    let m = choose|m: int| k <= m <= j && (#[trigger] self.record(c, m))[0] == 0;
                    if m > k {
                        assert(self.ends_in(c, k + 1, j));
                    }
                }
                if self.ends_in(c, k + 1, j) {
                    let m = choose|m: int|
                        k + 1 <= m <= j && (#[trigger] self.record(c, m))[0] == 0;
                    assert(self.ends_in(c, k, j));
                }
            }
            assert forall|j: int| k <= j < self.records() implies if past || self.ends_in(c, k, j) {
                (#[trigger] w.record(c, j))[0] == 0xe5
            } else {
                w.record(c, j) == self.record(c, j)
            } by {
                if j > k {
                    assert(if here || v.ends_in(c, k + 1, j) {
                        w.record(c, j)[0] == 0xe5
                    } else {
                        w.record(c, j) == v.record(c, j)
                    });
                }
            }
            if k + 1 < self.records() {
                assert(v.ends_in(c, k + 1, self.records() - 1) == self.ends_in(
                    c,
                    k + 1,
                    self.records() - 1,
                ));
            }
        }
    }

    /// Scanning an erased cluster finds what was there before the end, and no end.
    proof fn lemma_scan_erased(
        self,
        w: Volume,
        c: u32,
        k: int,
        past: bool,
        st: LongName,
        found: Seq<Slot>,
    )
        requires
            w.g == self.g,
            self.is_erased(w, c, k, past),
            0 <= k,
        ensures
            ({
                let (st2, found2, ended) = self.scan_cluster(c, k, st, found);
                let (st3, found3, ended3) = w.scan_cluster(c, k, st, found);
                &&& !ended3
                &&& past ==> found3 == found
                &&& !past ==> found3 == found2 && (!ended ==> st3 == st2) && ended == self.ends_in(
                    c,
                    k,
                    self.records() - 1,
                )
            }),
        decreases self.records() - k,
    {
        if k < self.records() {
            let e = self.record(c, k);
            let f = w.record(c, k);
            let here = past || e[0] == 0;
            if e[0] == 0 {
                assert(self.ends_in(c, k, k));
            }
            if self.ends_in(c, k, k) && !past {
                let m = choose|m: int| k <= m <= k && (#[trigger] self.record(c, m))[0] == 0;
                assert(m == k);
            }
            assert(here ==> f[0] == 0xe5);
            assert(!here ==> f == e);
            let st2 = after_record(st, f);
            let found2 = if is_entry(f) {
                found.push(slot_of(c, k, st, f))
            } else {
                found
            };
            assert(self.is_erased(w, c, k + 1, here)) by {
                assert forall|j: int| k + 1 <= j < self.records() implies if here || self.ends_in(
                    c,
                    k + 1,
                    j,
                ) {
                    (#[trigger] w.record(c, j))[0] == 0xe5
                } else {
                    w.record(c, j) == self.record(c, j)
                } by {
                    if here && !past {
                        assert(self.record(c, k)[0] == 0);
                        assert(self.ends_in(c, k, j));
                    }
                    if self.ends_in(c, k + 1, j) {
                        let m = choose|m: int|
                            k + 1 <= m <= j && (#[trigger] self.record(c, m))[0] == 0;
                        assert(self.ends_in(c, k, j));
                    }
                    if !here && self.ends_in(c, k, j) {
                        let m = choose|m: int| k <= m <= j && (#[trigger] self.record(c, m))[0] == 0;
                        assert(m > k);
                        assert(self.ends_in(c, k + 1, j));
                    }
                }
            }
            self.lemma_scan_erased(w, c, k + 1, here, st2, found2);
            let last = self.records() - 1;
            if self.ends_in(c, k, last) && e[0] != 0 {
                let m = choose|m: int| k <= m <= last && (#[trigger] self.record(c, m))[0] == 0;
                assert(self.ends_in(c, k + 1, last));
            }
            if self.ends_in(c, k + 1, last) {
                let m = choose|m: int|
                    k + 1 <= m <= last && (#[trigger] self.record(c, m))[0] == 0;
                assert(self.ends_in(c, k, last));
            }
            if e[0] == 0 {
                assert(self.ends_in(c, k, last));
            }
        }
    }
}

impl Volume {
    /// The entries of the given clusters, after those in `found`, with the long name
    /// that is gathered at their end, and whether the directory ends in them.
    pub open spec fn scan_through(self, chain: Seq<u32>, st: LongName, found: Seq<Slot>) -> (
        LongName,
        Seq<Slot>,
        bool,
    )
        decreases chain.len(),
    {
        if chain.len() == 0 {
            (st, found, false)
        } else {
            let (st2, found2, ended) = self.scan_cluster(chain[0], 0, st, found);
            if ended {
                (st2, found2, true)
            } else {
                self.scan_through(chain.skip(1), st2, found2)
            }
        }
    }

    /// A listing is what scanning through the clusters finds.
    pub proof fn lemma_through(self, chain: Seq<u32>, i: int, st: LongName, found: Seq<Slot>)
        requires
            0 <= i <= chain.len(),
        ensures
            self.scan_list(chain, i, st, found) == self.scan_through(chain.skip(i), st, found).1,
        decreases chain.len() - i,
    {
        if i < chain.len() {
            let (st2, found2, ended) = self.scan_cluster(chain[i], 0, st, found);
            assert(chain.skip(i)[0] == chain[i]);
            assert(chain.skip(i).skip(1) =~= chain.skip(i + 1));
            if !ended {
                self.lemma_through(chain, i + 1, st2, found2);
            }
        }
    }

    /// Scanning through clusters and then through others.
    proof fn lemma_through_both(self, a: Seq<u32>, b: Seq<u32>, st: LongName, found: Seq<Slot>)
        ensures
            ({
                let (st2, found2, ended) = self.scan_through(a, st, found);
                self.scan_through(a + b, st, found) == if ended {
                    (st2, found2, true)
                } else {
                    self.scan_through(b, st2, found2)
                }
            }),
        decreases a.len(),
    {
        if a.len() == 0 {
            assert(a + b =~= b);
        } else {
            assert((a + b)[0] == a[0]);
            assert((a + b).skip(1) =~= a.skip(1) + b);
            let (st2, found2, ended) = self.scan_cluster(a[0], 0, st, found);
            if !ended {
                self.lemma_through_both(a.skip(1), b, st2, found2);
            }
        }
    }

    /// What a scan finds is a matter of the clusters' contents.
    proof fn lemma_scan_same(self, w: Volume, c: u32, k: int, st: LongName, found: Seq<Slot>)
        requires
            w.g == self.g,
            w.data(c) == self.data(c),
            0 <= k,
        ensures
            w.scan_cluster(c, k, st, found) == self.scan_cluster(c, k, st, found),
        decreases self.records() - k,
    {
        if k < self.records() {
            let e = self.record(c, k);
            assert(w.record(c, k) == e);
            if e[0] != 0 {
                self.lemma_scan_same(
                    w,
                    c,
                    k + 1,
                    after_record(st, e),
                    if is_entry(e) {
                        found.push(slot_of(c, k, st, e))
                    } else {
                        found
                    },
                );
            }
        }
    }

    pub proof fn lemma_through_same(self, w: Volume, chain: Seq<u32>, st: LongName, found: Seq<Slot>)
        requires
            w.g == self.g,
            forall|i: int|
                0 <= i < chain.len() ==> w.data(#[trigger] chain[i]) == self.data(chain[i]),
        ensures
            w.scan_through(chain, st, found) == self.scan_through(chain, st, found),
        decreases chain.len(),
    {
        if chain.len() > 0 {
            self.lemma_scan_same(w, chain[0], 0, st, found);
            let (st2, found2, ended) = self.scan_cluster(chain[0], 0, st, found);
            let rest = chain.skip(1);
            assert forall|i: int| 0 <= i < rest.len() implies w.data(#[trigger] rest[i])
                == self.data(rest[i]) by {
                assert(rest[i] == chain[i + 1]);
            }
            if !ended {
                self.lemma_through_same(w, rest, st2, found2);
            }
        }
    }

    /// Whether `w` has this volume's table, and its clusters but for some.
    pub open spec fn same_but_all(self, w: Volume, chain: Seq<u32>) -> bool {
        &&& w.wf()
        &&& w.g == self.g
        &&& w.hint == self.hint
        &&& self.keeps_tables(w)
        &&& forall|d: u32| d < self.g.cluster_count + 2 ==> #[trigger] w.fat(d) == self.fat(d)
        &&& forall|d: u32|
            self.g.is_cluster(d) && !chain.contains(d) ==> #[trigger] w.data(d) == self.data(d)
    }

    /// Erasing the tail of a directory leaves its entries, and no end.
    pub proof fn lemma_erase_tail(self, chain: Seq<u32>, past: bool, st: LongName, found: Seq<Slot>)
        requires
            self.wf(),
            all_clusters(self.g, chain),
            chain.no_duplicates(),
        ensures
            ({
                let w = self.erase_tail(chain, past);
                let (st2, found2, ended) = w.scan_through(chain, st, found);
                &&& self.same_but_all(w, chain)
                &&& !ended
                &&& found2 == if past {
                    found
                } else {
                    self.scan_through(chain, st, found).1
                }
            }),
        decreases chain.len(),
    {
        if chain.len() > 0 {
            let c = chain[0];
            let rest = chain.skip(1);
            let (v, after) = self.erase_cluster(c, 0, past);
            self.lemma_erase_cluster(c, 0, past);
            self.lemma_scan_erased(v, c, 0, past, st, found);
            let (st2, found2, ended) = self.scan_cluster(c, 0, st, found);
            let (st3, found3, ended3) = v.scan_cluster(c, 0, st, found);
            assert forall|i: int| 0 <= i < rest.len() implies self.g.is_cluster(#[trigger] rest[i])
                && rest[i] != c by {
                assert(rest[i] == chain[i + 1]);
            }
            assert(rest.no_duplicates()) by {
                assert forall|i: int, j: int|
                    0 <= i < rest.len() && 0 <= j < rest.len() && i != j implies rest[i]
                    != rest[j] by {
                    assert(rest[i] == chain[i + 1] && rest[j] == chain[j + 1]);
                }
            }
            v.lemma_erase_tail(rest, after, st3, found3);
            let w = v.erase_tail(rest, after);
            assert(!rest.contains(c));
            assert(w.data(c) == v.data(c));
            v.lemma_scan_same(w, c, 0, st, found);
            self.lemma_through_same(v, rest, st3, found3);
            assert forall|d: u32| d < self.g.cluster_count + 2 implies #[trigger] w.fat(d)
                == self.fat(d) by {
                assert(w.fat(d) == v.fat(d));
            }
            assert forall|d: u32| self.g.is_cluster(d) && !chain.contains(d) implies #[trigger] w.data(
                d,
            ) == self.data(d) by {
                assert(chain[0] == c);
                if rest.contains(d) {
                    let i = choose|i: int| 0 <= i < rest.len() && rest[i] == d;
                    assert(chain[i + 1] == d);
                }
                assert(w.data(d) == v.data(d));
            }
            assert forall|k: int, s: int|
                #![trigger self.g.fat_lba(k, s)]
                0 <= k < self.g.fat_count && 0 <= s
                    < self.g.sectors_per_fat implies w.img[self.g.fat_lba(k, s)]
                == self.img[self.g.fat_lba(k, s)] by {
                assert(w.img[v.g.fat_lba(k, s)] == v.img[v.g.fat_lba(k, s)]);
            }
        }
    }

    /// Clusters that are taken were free, are chains of their own and hold zeros.
    pub open spec fn has_taken(self, w: Volume, taken: Seq<u32>) -> bool {
        &&& w.wf()
        &&& w.g == self.g
        &&& self.is_mirrored() ==> w.is_mirrored()
        &&& taken.no_duplicates()
        &&& all_clusters(self.g, taken)
        &&& forall|i: int|
            0 <= i < taken.len() ==> self.fat(#[trigger] taken[i]) == 0 && w.fat(taken[i])
                == END_OF_CHAIN && w.data(taken[i]) == zeros(self.g.cluster_size() as nat)
        &&& forall|d: u32|
            d < self.g.cluster_count + 2 && !taken.contains(d) ==> #[trigger] w.fat(d) == self.fat(d)
        &&& forall|d: u32|
            self.g.is_cluster(d) && !taken.contains(d) ==> #[trigger] w.data(d) == self.data(d)
    }

    pub proof fn lemma_take_many(self, v: Volume, n: int, taken: Seq<u32>)
        requires
            self.wf(),
            self.has_taken(v, taken),
        ensures
            v.take_many(n, taken).1 matches Ok(all) ==> self.has_taken(v.take_many(n, taken).0, all)
                && all.len() >= n && (taken.len() <= n ==> all.len() == n || n < 0),
            v.take_many(n, taken).1 is Err ==> v.take_many(n, taken).0.wf() && v.take_many(
                n,
                taken,
            ).0.g == self.g,
            v.take_many(n, taken).1 is Err && self.is_mirrored() ==> v.take_many(
                n,
                taken,
            ).0.is_mirrored(),
        decreases n - taken.len(),
    {
        if taken.len() < n {
            v.lemma_take_free();
            if self.is_mirrored() {
                v.lemma_take_free_mirrored();
            }
            let (w, r) = v.take_free();
            match r {
                Err(e) => {
                    w.lemma_release(taken);
                    if self.is_mirrored() {
                        w.lemma_release_mirrored(taken);
                    }
                },
                Ok(c) => {
                    let all = taken.push(c);
                    if taken.contains(c) {
                        let i = choose|i: int| 0 <= i < taken.len() && taken[i] == c;
                        assert(v.fat(taken[i]) == END_OF_CHAIN);
                    }
                    assert(all.no_duplicates());
                    assert forall|i: int| 0 <= i < all.len() implies self.fat(#[trigger] all[i]) == 0
                        && w.fat(all[i]) == END_OF_CHAIN && w.data(all[i]) == zeros(
                        self.g.cluster_size() as nat,
                    ) && self.g.is_cluster(all[i]) by {
                        if i < taken.len() {
                            assert(all[i] == taken[i]);
                            assert(taken[i] != c);
                        } else {
                            assert(v.fat(c) == self.fat(c));
                        }
                    }
                    assert forall|d: u32|
                        d < self.g.cluster_count + 2 && !all.contains(d) implies #[trigger] w.fat(d)
                        == self.fat(d) by {
                        assert(all[taken.len() as int] == c);
                        assert(!taken.contains(d)) by {
                            if taken.contains(d) {
                                let i = choose|i: int| 0 <= i < taken.len() && taken[i] == d;
                                assert(all[i] == d);
                            }
                        }
                        assert(v.fat(d) == self.fat(d));
                    }
                    assert forall|d: u32|
                        self.g.is_cluster(d) && !all.contains(d) implies #[trigger] w.data(d)
                        == self.data(d) by {
                        assert(all[taken.len() as int] == c);
                        assert(!taken.contains(d)) by {
                            if taken.contains(d) {
                                let i = choose|i: int| 0 <= i < taken.len() && taken[i] == d;
                                assert(all[i] == d);
                            }
                        }
                        assert(v.data(d) == self.data(d));
                    }
                    self.lemma_take_many(w, n, all);
                },
            }
        }
    }
}

impl Volume {
    /// Whether `w` has this volume's clusters, and copies of the table that agree if
    /// this volume's do.
    pub open spec fn same_data(self, w: Volume) -> bool {
        &&& w.wf()
        &&& w.g == self.g
        &&& self.is_mirrored() ==> w.is_mirrored()
        &&& forall|d: u32| self.g.is_cluster(d) ==> #[trigger] w.data(d) == self.data(d)
    }

    /// Linking clusters one after the other.
    pub proof fn lemma_link(self, clusters: Seq<u32>, i: int)
        requires
            self.wf(),
            all_clusters(self.g, clusters),
            clusters.no_duplicates(),
            0 <= i,
        ensures
            ({
                let w = self.link(clusters, i);
                &&& self.same_data(w)
                &&& forall|j: int|
                    0 <= j < clusters.len() ==> #[trigger] w.fat(clusters[j]) == if i <= j && j + 1
                        < clusters.len() {
                        clusters[j + 1] % 0x1000_0000
                    } else {
                        self.fat(clusters[j])
                    }
                &&& forall|d: u32|
                    d < self.g.cluster_count + 2 && !clusters.contains(d) ==> #[trigger] w.fat(d)
                        == self.fat(d)
            }),
        decreases clusters.len() - i,
    {
        if i + 1 < clusters.len() {
            assert(self.g.is_cluster(clusters[i]));
            let v = self.set_fat(clusters[i], clusters[i + 1]);
            self.lemma_set_fat(clusters[i], clusters[i + 1]);
            if self.is_mirrored() {
                self.lemma_set_fat_mirrored(clusters[i], clusters[i + 1]);
            }
            v.lemma_link(clusters, i + 1);
            let w = self.link(clusters, i);
            assert forall|j: int| 0 <= j < clusters.len() implies #[trigger] w.fat(clusters[j])
                == if i <= j && j + 1 < clusters.len() {
                clusters[j + 1] % 0x1000_0000
            } else {
                self.fat(clusters[j])
            } by {
                assert(self.g.is_cluster(clusters[j]));
                if j != i {
                    assert(clusters[j] != clusters[i]);
                    assert(v.fat(clusters[j]) == self.fat(clusters[j]));
                }
            }
            assert forall|d: u32|
                d < self.g.cluster_count + 2 && !clusters.contains(d) implies #[trigger] w.fat(d)
                == self.fat(d) by {
                assert(clusters[i] != d);
                assert(v.fat(d) == self.fat(d));
            }
            assert forall|d: u32| self.g.is_cluster(d) implies #[trigger] w.data(d) == self.data(
                d,
            ) by {
                assert(w.data(d) == v.data(d));
            }
        }
    }

    /// A chain that goes on in other clusters.
    #[verifier::spinoff_prover]
    proof fn lemma_linked_joined(self, w: Volume, chain: Seq<u32>, added: Seq<u32>)
        requires
            w.g == self.g,
            is_small(self.g),
            self.linked(chain),
            chain.len() > 0,
            added.len() > 0,
            all_clusters(self.g, added),
            forall|i: int|
                0 <= i < chain.len() ==> #[trigger] w.fat(chain[i]) == if i + 1 < chain.len() {
                    self.fat(chain[i])
                } else {
                    added[0]
                },
            forall|j: int|
                0 <= j < added.len() ==> #[trigger] w.fat(added[j]) == if j + 1 < added.len() {
                    added[j + 1]
                } else {
                    END_OF_CHAIN
                },
        ensures
            w.linked(chain + added),
    {
        let all = chain + added;
        assert forall|i: int| 0 <= i < all.len() implies #[trigger] w.next(all[i]) == Ok::<
            Option<u32>,
            FatError,
        >(
            if i + 1 < all.len() {
                Some(all[i + 1])
            } else {
                None
            },
        ) by {
            if i < chain.len() {
                assert(all[i] == chain[i]);
                assert(self.next(chain[i]) is Ok);
                if i + 1 < chain.len() {
                    assert(self.next(chain[i]) == Ok::<Option<u32>, FatError>(Some(chain[i + 1])));
                    assert(all[i + 1] == chain[i + 1]);
                } else {
                    assert(self.g.is_cluster(added[0]));
                    assert(all[i + 1] == added[0]);
                }
            } else {
                let j = i - chain.len();
                assert(all[i] == added[j]);
                assert(self.g.is_cluster(added[j]));
                if j + 1 < added.len() {
                    assert(self.g.is_cluster(added[j + 1]));
                    assert(all[i + 1] == added[j + 1]);
                }
            }
        }
    }

    /// Taken clusters are not those of a chain.
    proof fn lemma_taken_apart(self, v: Volume, chain: Seq<u32>, added: Seq<u32>)
        requires
            self.linked(chain),
            self.has_taken(v, added),
        ensures
            forall|i: int| 0 <= i < chain.len() ==> !added.contains(#[trigger] chain[i]),
    {
        assert forall|i: int| 0 <= i < chain.len() implies !added.contains(#[trigger] chain[i]) by {
            self.lemma_linked_used(chain, i);
            if added.contains(chain[i]) {
                let j = choose|j: int| 0 <= j < added.len() && added[j] == chain[i];
                assert(self.fat(added[j]) == 0);
            }
        }
    }

    /// The table entries of a chain and of what is added to it.
    #[verifier::spinoff_prover]
    proof fn lemma_joined_fat(self, v: Volume, u: Volume, w: Volume, chain: Seq<u32>, added: Seq<u32>)
        requires
            chain.len() > 0,
            added.len() > 0,
            chain.no_duplicates(),
            all_clusters(self.g, chain),
            all_clusters(self.g, added),
            forall|i: int| 0 <= i < chain.len() ==> !added.contains(#[trigger] chain[i]),
            forall|i: int| 0 <= i < added.len() ==> #[trigger] v.fat(added[i]) == END_OF_CHAIN,
            forall|d: u32|
                d < self.g.cluster_count + 2 && !added.contains(d) ==> #[trigger] v.fat(d)
                    == self.fat(d),
            forall|j: int|
                0 <= j < added.len() ==> #[trigger] u.fat(added[j]) == if j + 1 < added.len() {
                    added[j + 1] % 0x1000_0000
                } else {
                    v.fat(added[j])
                },
            forall|d: u32|
                d < self.g.cluster_count + 2 && !added.contains(d) ==> #[trigger] u.fat(d)
                    == v.fat(d),
            w.fat(chain.last()) == added[0] % 0x1000_0000,
            forall|d: u32|
                d < self.g.cluster_count + 2 && d != chain.last() ==> #[trigger] w.fat(d) == u.fat(
                    d,
                ),
            is_small(self.g),
        ensures
            forall|i: int|
                0 <= i < chain.len() ==> #[trigger] w.fat(chain[i]) == if i + 1 < chain.len() {
                    self.fat(chain[i])
                } else {
                    added[0]
                },
            forall|j: int|
                0 <= j < added.len() ==> #[trigger] w.fat(added[j]) == if j + 1 < added.len() {
                    added[j + 1]
                } else {
                    END_OF_CHAIN
                },
    {
        let n = chain.len() as int;
        assert forall|i: int| 0 <= i < n implies #[trigger] w.fat(chain[i]) == if i + 1 < n {
            self.fat(chain[i])
        } else {
            added[0]
        } by {
            let c = chain[i];
            assert(self.g.is_cluster(c));
            assert(!added.contains(c));
            if i + 1 < n {
                assert(chain[i] != chain[n - 1]);
                assert(w.fat(c) == u.fat(c));
                assert(u.fat(c) == v.fat(c));
            } else {
                assert(self.g.is_cluster(added[0]));
            }
        }
        assert forall|j: int| 0 <= j < added.len() implies #[trigger] w.fat(added[j]) == if j + 1
            < added.len() {
            added[j + 1]
        } else {
            END_OF_CHAIN
        } by {
            let c = added[j];
            assert(self.g.is_cluster(c));
            assert(added.contains(c));
            assert(!added.contains(chain[n - 1]));
            assert(w.fat(c) == u.fat(c));
            if j + 1 < added.len() {
                assert(self.g.is_cluster(added[j + 1]));
            }
        }
    }

    /// Clusters added to the end of a chain.
    #[verifier::spinoff_prover]
    proof fn lemma_joined(self, v: Volume, chain: Seq<u32>, added: Seq<u32>)
        requires
            self.wf(),
            is_small(self.g),
            self.linked(chain),
            chain.len() > 0,
            self.has_taken(v, added),
            added.len() > 0,
        ensures
            ({
                let w = v.link(added, 0).set_fat(chain.last(), added[0]);
                &&& v.same_data(w)
                &&& w.linked(chain + added)
                &&& forall|d: u32|
                    d < self.g.cluster_count + 2 && !added.contains(d) && d != chain.last()
                        ==> #[trigger] w.fat(d) == v.fat(d)
            }),
    {
        let u = v.link(added, 0);
        let last = chain[chain.len() - 1];
        let w = u.set_fat(last, added[0]);
        self.law_chain_distinct(chain);
        self.lemma_taken_apart(v, chain, added);
        v.lemma_link(added, 0);
        assert(self.g.is_cluster(last));
        u.lemma_set_fat(last, added[0]);
        if v.is_mirrored() {
            u.lemma_set_fat_mirrored(last, added[0]);
        }
        assert forall|d: u32| self.g.is_cluster(d) implies #[trigger] w.data(d) == v.data(d) by {
            assert(w.data(d) == u.data(d));
        }
        self.lemma_joined_fat(v, u, w, chain, added);
        self.lemma_linked_joined(w, chain, added);
        assert forall|d: u32|
            d < self.g.cluster_count + 2 && !added.contains(d) && d != last implies #[trigger] w.fat(d)
            == v.fat(d) by {
            assert(w.fat(d) == u.fat(d));
        }
    }

    /// Where a record of a run of clusters stands.
    pub open spec fn place(self, i: int) -> (int, int) {
        (i / self.records(), i % self.records())
    }

    /// Records put into clusters, one after the other.
    pub proof fn lemma_put_records(self, clusters: Seq<u32>, records: Seq<Seq<u8>>, i: int)
        requires
            self.wf(),
            all_clusters(self.g, clusters),
            clusters.no_duplicates(),
            forall|j: int| 0 <= j < records.len() ==> (#[trigger] records[j]).len() == 32,
            records.len() <= clusters.len() * self.records(),
            0 <= i,
        ensures
            ({
                let w = self.put_records(clusters, records, i);
                &&& self.same_but_all(w, clusters)
                &&& forall|q: int, k: int|
                    #![trigger w.record(clusters[q], k)]
                    0 <= q < clusters.len() && 0 <= k < self.records() ==> w.record(clusters[q], k)
                        == if i <= q * self.records() + k < records.len() {
                        records[q * self.records() + k]
                    } else {
                        self.record(clusters[q], k)
                    }
            }),
        decreases records.len() - i,
    {
        let per = self.records();
        if i < records.len() {
            let size = self.g.cluster_size();
            assert(size == per * 32);
            let (q0, k0) = self.place(i);
            assert(per >= 16);
            assert(i == q0 * per + k0 && 0 <= k0 < per && 0 <= q0) by (nonlinear_arith)
                requires
                    q0 == i / per,
                    k0 == i % per,
                    per > 0,
                    i >= 0,
            ;
            assert(32 * i / size == q0 && 32 * i % size == 32 * k0) by {
                assert(32 * i == q0 * size + 32 * k0) by (nonlinear_arith)
                    requires
                        i == q0 * per + k0,
                        size == per * 32,
                ;
                vstd::arithmetic::div_mod::lemma_fundamental_div_mod_converse(
                    32 * i,
                    size,
                    q0,
                    32 * k0,
                );
            }
            assert(q0 < clusters.len()) by (nonlinear_arith)
                requires
                    q0 * per <= i,
                    i < clusters.len() * per,
                    per > 0,
            ;
            let c = clusters[q0];
            assert(self.g.is_cluster(c));
            let v = self.put(c, 32 * k0, records[i]);
            assert(records[i].len() == 32);
            self.lemma_put(c, 32 * k0, records[i]);
            self.lemma_put_tables(c, 32 * k0, records[i]);
            v.lemma_put_records(clusters, records, i + 1);
            let w = self.put_records(clusters, records, i);
            assert(w == v.put_records(clusters, records, i + 1));
            assert(clusters.contains(c));
            assert forall|d: u32| d < self.g.cluster_count + 2 implies #[trigger] w.fat(d)
                == self.fat(d) by {
                assert(w.fat(d) == v.fat(d));
            }
            assert forall|d: u32|
                self.g.is_cluster(d) && !clusters.contains(d) implies #[trigger] w.data(d)
                == self.data(d) by {
                assert(w.data(d) == v.data(d));
            }
            assert forall|k: int, s: int|
                #![trigger self.g.fat_lba(k, s)]
                0 <= k < self.g.fat_count && 0 <= s
                    < self.g.sectors_per_fat implies w.img[self.g.fat_lba(k, s)]
                == self.img[self.g.fat_lba(k, s)] by {
                assert(w.img[v.g.fat_lba(k, s)] == v.img[v.g.fat_lba(k, s)]);
            }
            assert forall|q: int, k: int|
                #![trigger w.record(clusters[q], k)]
                0 <= q < clusters.len() && 0 <= k < per implies w.record(clusters[q], k) == if i <= q
                * per + k < records.len() {
                records[q * per + k]
            } else {
                self.record(clusters[q], k)
            } by {
                let at = q * per + k;
                assert(w.record(clusters[q], k) == if i + 1 <= at < records.len() {
                    records[at]
                } else {
                    v.record(clusters[q], k)
                });
                if at == i {
                    vstd::arithmetic::div_mod::lemma_fundamental_div_mod_converse(i, per, q, k);
                    assert(q == q0 && k == k0);
                    assert(v.record(c, k0) =~= records[i]);
                } else {
                    if q == q0 {
                        assert(k != k0);
                        assert(v.data(c) == spliced(self.data(c), 32 * k0, records[i]));
                        assert(v.record(c, k) =~= self.record(c, k));
                    } else {
                        assert(clusters[q] != c);
                        assert(self.g.is_cluster(clusters[q]));
                        assert(v.data(clusters[q]) == self.data(clusters[q]));
                    }
                }
            }
        }
    }
}

/// Whether records are long-name pieces with an entry behind them.
pub open spec fn is_group(rs: Seq<Seq<u8>>) -> bool {
    &&& rs.len() > 0
    &&& forall|j: int| 0 <= j < rs.len() ==> (#[trigger] rs[j]).len() == 32 && rs[j][0] != 0
    &&& forall|j: int| 0 <= j < rs.len() - 1 ==> !is_entry(#[trigger] rs[j])
    &&& is_entry(rs.last())
}

pub proof fn lemma_new_records(name: Seq<char>, short: Seq<u8>, attr: u8, first: u32)
    requires
        fits_long(utf16(name)),
        is_shown(short),
        attr == 0x20 || attr == 0x10,
    ensures
        is_group(new_records(name, short, attr, first)),
        new_records(name, short, attr, first).last() == new_record(short, attr, first),
{
    let rs = new_records(name, short, attr, first);
    let all = lfn_all(utf16(name), short_checksum(short));
    lemma_new_record(short, attr, first);
    assert(rs.drop_last() =~= all);
    assert forall|j: int| 0 <= j < rs.len() implies (#[trigger] rs[j]).len() == 32 && rs[j][0] != 0
        && (j < rs.len() - 1 ==> !is_entry(rs[j])) by {
        if j < rs.len() - 1 {
            assert(rs[j] == all[j]);
            assert(rs[j][11] == 0x0f);
            let count = lfn_count(utf16(name).len() as int);
            assert(1 <= count - j <= 20);
        }
    }
}

impl Volume {
    /// Whether clusters hold records, one after the other, and zeros behind them.
    pub open spec fn holds(self, clusters: Seq<u32>, rs: Seq<Seq<u8>>) -> bool {
        forall|q: int, k: int|
            #![trigger self.record(clusters[q], k)]
            0 <= q < clusters.len() && 0 <= k < self.records() ==> self.record(clusters[q], k)
                == if q * self.records() + k < rs.len() {
                rs[q * self.records() + k]
            } else {
                zeros(32)
            }
    }

    /// What a scan of one of the clusters finds, from a record on.
    proof fn lemma_scan_group(
        self,
        clusters: Seq<u32>,
        rs: Seq<Seq<u8>>,
        q: int,
        k: int,
        st: LongName,
        found: Seq<Slot>,
    )
        requires
            is_group(rs),
            self.holds(clusters, rs),
            0 <= q < clusters.len(),
            0 <= k <= self.records(),
            0 < self.records(),
        ensures
            ({
                let per = self.records();
                let i = q * per + k;
                let n = rs.len() as int;
                let (st2, found2, ended) = self.scan_cluster(clusters[q], k, st, found);
                &&& i <= n - 1 < q * per + per ==> found2 == found.push(
                    slot_of(
                        clusters[q],
                        n - 1 - q * per,
                        gathered(rs, i, n - 1, st),
                        rs[n - 1],
                    ),
                )
                &&& !(i <= n - 1 < q * per + per) ==> found2 == found
                &&& q * per + per <= n - 1 ==> !ended && st2 == gathered(rs, i, q * per + per, st)
                &&& i > n - 1 && k < per ==> ended
            }),
        decreases self.records() - k,
    {
        let per = self.records();
        let i = q * per + k;
        let n = rs.len() as int;
        if k < per {
            let e = self.record(clusters[q], k);
            if i < n {
                assert(e == rs[i]);
                assert(rs[i][0] != 0);
                let found2 = if is_entry(e) {
                    found.push(slot_of(clusters[q], k, st, e))
                } else {
                    found
                };
                if i == n - 1 {
                    assert(is_entry(e));
                    assert(gathered(rs, i, n - 1, st) == st);
                } else {
                    assert(!is_entry(e));
                }
                self.lemma_scan_group(clusters, rs, q, k + 1, after_record(st, e), found2);
            } else {
                assert(e == zeros(32));
                assert(e[0] == 0);
            }
        }
    }

    /// Scanning through the clusters finds the entry, behind its long name.
    proof fn lemma_through_group(
        self,
        clusters: Seq<u32>,
        rs: Seq<Seq<u8>>,
        q: int,
        st: LongName,
        found: Seq<Slot>,
    )
        requires
            is_group(rs),
            self.holds(clusters, rs),
            0 < self.records(),
            0 <= q,
            q * self.records() <= rs.len() - 1,
            rs.len() <= clusters.len() * self.records(),
        ensures
            ({
                let n = rs.len() as int;
                let (a, b) = self.place(n - 1);
                self.scan_through(clusters.skip(q), st, found).1 == found.push(
                    slot_of(
                        clusters[a],
                        b,
                        gathered(rs, q * self.records(), n - 1, st),
                        rs[n - 1],
                    ),
                )
            }),
        decreases clusters.len() - q,
    {
        let per = self.records();
        let n = rs.len() as int;
        assert(q < clusters.len()) by (nonlinear_arith)
            requires
                q * per <= n - 1,
                n <= clusters.len() * per,
                per > 0,
        ;
        let rest = clusters.skip(q);
        assert(rest[0] == clusters[q]);
        assert(rest.skip(1) =~= clusters.skip(q + 1));
        self.lemma_scan_group(clusters, rs, q, 0, st, found);
        let (st2, found2, ended) = self.scan_cluster(clusters[q], 0, st, found);
        assert((q + 1) * per == q * per + per) by (nonlinear_arith);
        if n - 1 < q * per + per {
            vstd::arithmetic::div_mod::lemma_fundamental_div_mod_converse(
                n - 1,
                per,
                q,
                n - 1 - q * per,
            );
            if !ended {
                self.lemma_through_nothing(clusters, rs, q + 1, st2, found2);
            }
        } else {
            self.lemma_through_group(clusters, rs, q + 1, st2, found2);
            lemma_gathered_both(rs, q * per, q * per + per, n - 1, st);
        }
    }

    /// Behind the records there is nothing to find.
    proof fn lemma_through_nothing(
        self,
        clusters: Seq<u32>,
        rs: Seq<Seq<u8>>,
        q: int,
        st: LongName,
        found: Seq<Slot>,
    )
        requires
            is_group(rs),
            self.holds(clusters, rs),
            0 < self.records(),
            0 <= q <= clusters.len(),
            q * self.records() >= rs.len(),
        ensures
            self.scan_through(clusters.skip(q), st, found).1 == found,
    {
        if q < clusters.len() {
            assert(clusters.skip(q)[0] == clusters[q]);
            self.lemma_scan_group(clusters, rs, q, 0, st, found);
        }
    }
}

/// Gathering records in two parts.
proof fn lemma_gathered_both(rs: Seq<Seq<u8>>, a: int, b: int, c: int, st: LongName)
    requires
        a <= b <= c,
    ensures
        gathered(rs, a, c, st) == gathered(rs, b, c, gathered(rs, a, b, st)),
    decreases b - a,
{
    if a < b {
        lemma_gathered_both(rs, a + 1, b, c, after_record(st, rs[a]));
    }
}

impl Volume {
    /// Records are added in as many clusters as they and an end take.
    pub proof fn lemma_clusters_for(self, n: int)
        requires
            self.g.wf(),
            n >= 0,
        ensures
            0 < self.records(),
            n <= self.clusters_for(n) * self.records(),
            self.clusters_for(n) >= 1,
    {
        let per = self.records();
        let size = self.g.cluster_size();
        assert(size == per * 32);
        let q = self.clusters_for(n);
        let x = (n + 1) * 32 + size - 1;
        assert(x < q * size + size && q >= 1) by (nonlinear_arith)
            requires
                q == x / size,
                size > 0,
                x >= size,
        ;
        assert((n + 1) * 32 <= q * size);
        assert(q * size == q * per * 32) by (nonlinear_arith)
            requires
                size == per * 32,
        ;
    }

    /// What has become of a directory that records were added to.
    pub open spec fn is_appended(self, w: Volume, chain: Seq<u32>, added: Seq<u32>, rs: Seq<Seq<u8>>) -> bool {
        let all = chain + added;
        let (a, b) = self.place(rs.len() - 1);
        &&& w.wf()
        &&& w.g == self.g
        &&& self.is_mirrored() ==> w.is_mirrored()
        &&& added.len() == self.clusters_for(rs.len() as int)
        &&& w.linked(all)
        &&& exists|st: LongName|
            w.all_entries(all) == self.all_entries(chain).push(
                #[trigger] slot_of(
                    added[a],
                    b,
                    gathered(rs, 0, rs.len() - 1, st),
                    rs.last(),
                ),
            )
        &&& self.same_outside(w, all)
        &&& forall|i: int| 0 <= i < added.len() ==> self.fat(#[trigger] added[i]) == 0
    }

    /// Whether the clusters but for some hold what they held, and are followed by what
    /// followed them.
    pub open spec fn same_outside(self, w: Volume, touched: Seq<u32>) -> bool {
        &&& w.g == self.g
        &&& forall|d: u32|
            self.g.is_cluster(d) && !touched.contains(d) ==> #[trigger] w.data(d) == self.data(d)
        &&& forall|d: u32|
            self.g.is_cluster(d) && !touched.contains(d) ==> #[trigger] w.fat(d) == self.fat(d)
    }

    /// Records added to a directory.
    #[verifier::spinoff_prover]
    proof fn lemma_append(self, dir: u32, chain: Seq<u32>, rs: Seq<Seq<u8>>) -> (added: Seq<u32>)
        requires
            self.wf(),
            is_small(self.g),
            self.linked(chain),
            chain.len() > 0,
            chain[0] == dir,
            is_group(rs),
            self.append(dir, rs).1 is Ok,
        ensures
            self.is_appended(self.append(dir, rs).0, chain, added, rs),
    {
        let none = Seq::<Slot>::empty();
        self.law_chain_distinct(chain);
        assert(self.g.is_cluster(chain[0]));
        self.lemma_linked_chain(chain, self.g.cluster_count as nat);
        assert(self.chain(dir) == Ok::<Seq<u32>, FatError>(chain));
        let v1 = self.erase_tail(chain, false);
        self.lemma_erase_tail(chain, false, no_long_name(), none);
        assert forall|i: int| 0 <= i < chain.len() implies v1.fat(#[trigger] chain[i]) == self.fat(
            chain[i],
        ) by {
            assert(self.g.is_cluster(chain[i]));
        }
        self.lemma_linked_frame(v1, chain);
        if self.is_mirrored() {
            self.lemma_kept_mirrored(v1);
        }
        let n = self.clusters_for(rs.len() as int);
        self.lemma_clusters_for(rs.len() as int);
        assert(v1.has_taken(v1, Seq::empty()));
        v1.lemma_take_many(v1, n, Seq::empty());
        let (v2, r) = v1.take_many(n, Seq::empty());
        let added = r->Ok_0;
        v1.lemma_joined(v2, chain, added);
        v1.lemma_taken_apart(v2, chain, added);
        let v3 = v2.link(added, 0).set_fat(chain.last(), added[0]);
        let w = v3.put_records(added, rs, 0);
        assert(w == self.append(dir, rs).0);
        v3.lemma_put_records(added, rs, 0);
        if self.is_mirrored() {
            v3.lemma_kept_mirrored(w);
        }
        self.lemma_appended(v1, v2, v3, w, chain, added, rs);
        added
    }

    #[verifier::spinoff_prover]
    proof fn lemma_appended(
        self,
        v1: Volume,
        v2: Volume,
        v3: Volume,
        w: Volume,
        chain: Seq<u32>,
        added: Seq<u32>,
        rs: Seq<Seq<u8>>,
    )
        requires
            self.g.wf(),
            is_group(rs),
            self.same_but_all(v1, chain),
            all_clusters(self.g, chain),
            ({
                let (st2, found2, ended) = v1.scan_through(
                    chain,
                    no_long_name(),
                    Seq::<Slot>::empty(),
                );
                &&& !ended
                &&& found2 == self.scan_through(chain, no_long_name(), Seq::<Slot>::empty()).1
            }),
            v1.has_taken(v2, added),
            forall|i: int| 0 <= i < chain.len() ==> !added.contains(#[trigger] chain[i]),
            added.len() == self.clusters_for(rs.len() as int),
            v2.same_data(v3),
            v3.linked(chain + added),
            chain.len() > 0,
            forall|d: u32|
                d < self.g.cluster_count + 2 && !added.contains(d) && d != chain.last()
                    ==> #[trigger] v3.fat(d) == v2.fat(d),
            v3.same_but_all(w, added),
            forall|q: int, k: int|
                #![trigger w.record(added[q], k)]
                0 <= q < added.len() && 0 <= k < v3.records() ==> w.record(added[q], k) == if 0 <= q
                    * v3.records() + k < rs.len() {
                    rs[q * v3.records() + k]
                } else {
                    v3.record(added[q], k)
                },
            self.is_mirrored() ==> w.is_mirrored(),
        ensures
            self.is_appended(w, chain, added, rs),
    {
        let all = chain + added;
        let none = Seq::<Slot>::empty();
        self.lemma_clusters_for(rs.len() as int);
        let per = self.records();
        assert(w.holds(added, rs)) by {
            assert forall|q: int, k: int|
                #![trigger w.record(added[q], k)]
                0 <= q < added.len() && 0 <= k < per implies w.record(added[q], k) == if q * per + k
                < rs.len() {
                rs[q * per + k]
            } else {
                zeros(32)
            } by {
                assert(0 <= q * per) by (nonlinear_arith)
                    requires
                        q >= 0,
                        per >= 0,
                ;
                assert(self.g.is_cluster(added[q]));
                assert(v3.data(added[q]) == v2.data(added[q]));
                assert(v2.data(added[q]) == zeros(self.g.cluster_size() as nat));
                assert(self.g.cluster_size() == per * 32);
                assert(v3.record(added[q], k) =~= zeros(32));
            }
        }
        assert forall|i: int| 0 <= i < chain.len() implies w.data(#[trigger] chain[i]) == v1.data(
            chain[i],
        ) by {
            let c = chain[i];
            assert(self.g.is_cluster(c));
            assert(!added.contains(c));
            assert(w.data(c) == v3.data(c));
            assert(v3.data(c) == v2.data(c));
        }
        v1.lemma_through_same(w, chain, no_long_name(), none);
        let (st, found, ended) = w.scan_through(chain, no_long_name(), none);
        w.lemma_through_both(chain, added, no_long_name(), none);
        assert(added.skip(0) =~= added);
        w.lemma_through_group(added, rs, 0, st, found);
        assert(all.skip(0) =~= all);
        assert(chain.skip(0) =~= chain);
        w.lemma_through(all, 0, no_long_name(), none);
        self.lemma_through(chain, 0, no_long_name(), none);
        let (a, b) = self.place(rs.len() - 1);
        assert(w.place(rs.len() - 1) == (a, b));
        assert(0 * w.records() == 0);
        let slot = slot_of(added[a], b, gathered(rs, 0, rs.len() - 1, st), rs.last());
        assert(w.all_entries(all) == self.all_entries(chain).push(slot));
        assert forall|i: int| 0 <= i < all.len() implies w.fat(#[trigger] all[i]) == v3.fat(
            all[i],
        ) by {
            if i < chain.len() {
                assert(all[i] == chain[i]);
                assert(self.g.is_cluster(chain[i]));
            } else {
                assert(all[i] == added[i - chain.len()]);
                assert(self.g.is_cluster(added[i - chain.len()]));
            }
        }
        v3.lemma_linked_frame(w, all);
        assert forall|i: int| 0 <= i < added.len() implies self.fat(#[trigger] added[i]) == 0 by {
            assert(self.g.is_cluster(added[i]));
            assert(v1.fat(added[i]) == 0);
        }
        assert forall|d: u32| self.g.is_cluster(d) && !all.contains(d) implies #[trigger] w.data(d)
            == self.data(d) by {
            assert(!chain.contains(d)) by {
                if chain.contains(d) {
                    let i = choose|i: int| 0 <= i < chain.len() && chain[i] == d;
                    assert(all[i] == d);
                }
            }
            assert(!added.contains(d)) by {
                if added.contains(d) {
                    let i = choose|i: int| 0 <= i < added.len() && added[i] == d;
                    assert(all[chain.len() + i] == d);
                }
            }
            assert(w.data(d) == v3.data(d));
            assert(v3.data(d) == v2.data(d));
            assert(v2.data(d) == v1.data(d));
        }
        assert forall|d: u32| self.g.is_cluster(d) && !all.contains(d) implies #[trigger] w.fat(d)
            == self.fat(d) by {
            assert(all[chain.len() - 1] == chain.last());
            assert(!added.contains(d)) by {
                if added.contains(d) {
                    let i = choose|i: int| 0 <= i < added.len() && added[i] == d;
                    assert(all[chain.len() + i] == d);
                }
            }
            assert(w.fat(d) == v3.fat(d));
            assert(v3.fat(d) == v2.fat(d));
            assert(v2.fat(d) == v1.fat(d));
        }
    }

    /// Whether an entry is the only new one of a directory: with the name that it was
    /// given, empty, and behind all the others.
    pub open spec fn is_added(
        self,
        w: Volume,
        chain: Seq<u32>,
        all: Seq<u32>,
        name: Seq<char>,
        is_dir: bool,
        first: u32,
    ) -> bool {
        let before = self.all_entries(chain);
        let after = w.all_entries(all);
        &&& w.wf()
        &&& w.g == self.g
        &&& w.linked(all)
        &&& chain.is_prefix_of(all)
        &&& after.len() == before.len() + 1
        &&& after.drop_last() == before
        &&& after.last().name == name
        &&& after.last().is_dir == is_dir
        &&& after.last().size == 0
        &&& after.last().first == first
    }

    /// A new entry is found under its name, and every other entry as before. The one
    /// exception are names with a unit that is also the filler behind a long name.
    pub proof fn law_added_entry_is_found(
        self,
        dir: u32,
        chain: Seq<u32>,
        name: Seq<char>,
        attr: u8,
        first: u32,
    ) -> (all: Seq<u32>)
        requires
            self.wf(),
            is_small(self.g),
            self.is_directory_at(dir, chain),
            is_plain_name(name),
            attr == 0x20 || attr == 0x10,
            self.add_entry(dir, name, attr, first).1 is Ok,
        ensures
            self.is_added(
                self.add_entry(dir, name, attr, first).0,
                chain,
                all,
                name,
                attr == 0x10,
                first,
            ),
            self.is_mirrored() ==> self.add_entry(dir, name, attr, first).0.is_mirrored(),
            self.same_outside(self.add_entry(dir, name, attr, first).0, all),
            forall|i: int|
                chain.len() <= i < all.len() ==> self.fat(#[trigger] all[i]) == 0,
    {
        self.lemma_choose_short(dir, name);
        let short = self.choose_short(dir, name)->Ok_0;
        let rs = new_records(name, short, attr, first);
        lemma_new_records(name, short, attr, first);
        lemma_new_record(short, attr, first);
        let added = self.lemma_append(dir, chain, rs);
        let all = chain + added;
        let w = self.append(dir, rs).0;
        let (a, b) = self.place(rs.len() - 1);
        let n = rs.len() - 1;
        let st = choose|st: LongName|
            w.all_entries(all) == self.all_entries(chain).push(
                #[trigger] slot_of(added[a], b, gathered(rs, 0, n, st), rs.last()),
            );
        let slot = slot_of(added[a], b, gathered(rs, 0, n, st), rs.last());
        let lfn = lfn_all(utf16(name), short_checksum(short));
        assert(lfn.len() == n);
        lemma_gathered_prefix(rs, lfn, 0, n, st);
        lemma_long_name(name, short_checksum(short), st, rs.last());
        let after = w.all_entries(all);
        assert(after == self.all_entries(chain).push(slot));
        assert(after.drop_last() =~= self.all_entries(chain));
        assert forall|i: int| chain.len() <= i < all.len() implies self.fat(#[trigger] all[i]) == 0 by {
            assert(all[i] == added[i - chain.len()]);
        }
        all
    }
}

/// Gathering looks at the records that it gathers.
proof fn lemma_gathered_prefix(rs: Seq<Seq<u8>>, other: Seq<Seq<u8>>, from: int, to: int, st: LongName)
    requires
        0 <= from,
        forall|j: int| from <= j < to ==> #[trigger] rs[j] == other[j],
    ensures
        gathered(rs, from, to, st) == gathered(other, from, to, st),
    decreases to - from,
{
    if from < to {
        assert(rs[from] == other[from]);
        lemma_gathered_prefix(rs, other, from + 1, to, after_record(st, rs[from]));
    }
}

} // verus!
