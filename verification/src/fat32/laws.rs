//! What the operations on a volume keep, and what they change for each other.

use vstd::prelude::*;
use crate::bytes::{le32, spliced, zeros};
use super::FatError;
use super::directory::{first_named, Node, Slot};
use super::files::{is_here, is_up};
use super::model::{lemma_with_entry, with_entry, Geometry, Volume, END_OF_CHAIN, MAX_CHAIN_STEPS};
use super::table::{all_clusters, lemma_mod_mod};
use super::update::with_meta;
use super::walks::{all_moved, lemma_moved_named, lemma_visible_named, moved, parent_components};

verus! {

impl Volume {
    /// Declaring the free-space summary unknown changes no table entry and no
    /// cluster.
    pub proof fn lemma_mark(self)
        requires
            self.wf(),
        ensures
            self.mark_fsinfo().wf(),
            self.mark_fsinfo().g == self.g,
            self.mark_fsinfo().img.len() == self.img.len(),
            forall|l: int|
                self.g.reserved_sectors <= l < self.img.len() ==> #[trigger] self.mark_fsinfo().img[l]
                    == self.img[l],
    {
        self.lemma_mark_wf();
    }

    /// Setting a table entry changes that entry, in every copy of the table, and
    /// no cluster.
    pub proof fn lemma_set_fat(self, c: u32, value: u32)
        requires
            self.wf(),
            c < self.g.cluster_count + 2,
        ensures
            self.set_fat(c, value).wf(),
            self.set_fat(c, value).g == self.g,
            self.set_fat(c, value).hint == self.hint,
            self.set_fat(c, value).img.len() == self.img.len(),
            self.set_fat(c, value).fat(c) == value % 0x1000_0000,
            forall|d: u32|
                d < self.g.cluster_count + 2 && d != c ==> #[trigger] self.set_fat(c, value).fat(d)
                    == self.fat(d),
            forall|d: u32|
                self.g.is_cluster(d) ==> #[trigger] self.set_fat(c, value).data(d) == self.data(d),
    {
        reveal(Volume::set_fat);
        let m = self.mark_fsinfo();
        let n = self.g.fat_count as int;
        let w = self.set_fat(c, value);
        self.lemma_mark();
        self.lemma_mark_wf();
        m.lemma_set_copies(c, value, n);
        assert forall|d: u32| d < self.g.cluster_count + 2 implies #[trigger] w.fat(d) == if d == c {
            value % 0x1000_0000
        } else {
            self.fat(d)
        } by {
            let s = d as int / 128;
            let l = self.g.fat_lba(0, s);
            self.g.lemma_fat_lba(0, s);
            m.lemma_set_copies_at(c, value, n, 0, s);
            assert(m.img[l] == self.img[l]);
            if s == c as int / 128 {
                lemma_with_entry(m.img[l], c as int % 128 * 4, value);
                assert(w.img[l] == with_entry(m.img[l], c as int % 128 * 4, value));
                if d != c {
                    assert(d as int % 128 != c as int % 128);
                }
                assert(le32(w.img[l], d as int % 128 * 4) == if d == c {
                    le32(with_entry(m.img[l], c as int % 128 * 4, value), d as int % 128 * 4)
                } else {
                    le32(self.img[l], d as int % 128 * 4)
                });
            }
        }
        assert forall|d: u32| self.g.is_cluster(d) implies #[trigger] w.data(d) == self.data(d) by {
            self.g.lemma_lba(d);
            assert(w.data(d) =~= self.data(d));
        }
    }

    /// Zeroing a cluster changes no other cluster and no table entry.
    pub proof fn lemma_zero(self, c: u32)
        requires
            self.wf(),
            self.g.is_cluster(c),
        ensures
            self.zero(c).wf(),
            self.zero(c).data(c) == zeros(self.g.cluster_size() as nat),
            forall|d: u32|
                self.g.is_cluster(d) && d != c ==> #[trigger] self.zero(c).data(d) == self.data(d),
            forall|d: u32|
                d < self.g.cluster_count + 2 ==> #[trigger] self.zero(c).fat(d) == self.fat(d),
    {
        let w = self.zero(c);
        self.g.lemma_lba(c);
        assert forall|i: int| 0 <= i < w.img.len() implies (#[trigger] w.img[i]).len() == 512 by {
            assert(self.img[i].len() == 512);
        }
        assert(w.data(c) =~= zeros(self.g.cluster_size() as nat));
        assert forall|d: u32| self.g.is_cluster(d) && d != c implies #[trigger] w.data(d)
            == self.data(d) by {
            self.g.lemma_lba(d);
            if d < c {
                self.g.lemma_lba_apart(d, c);
            } else {
                self.g.lemma_lba_apart(c, d);
            }
            assert(w.data(d) =~= self.data(d));
        }
        assert forall|d: u32| d < self.g.cluster_count + 2 implies #[trigger] w.fat(d) == self.fat(
            d,
        ) by {
            self.g.lemma_fat_lba(0, d as int / 128);
        }
    }

    proof fn lemma_candidate(self, start: int, step: int)
        requires
            self.g.wf(),
            2 <= start <= self.g.cluster_count + 1,
            0 <= step,
        ensures
            self.g.is_cluster(self.candidate(start, step)),
    {
        let n = self.g.cluster_count as int;
        assert(0 <= (start - 2 + step) % n < n) by (nonlinear_arith)
            requires
                n > 0,
        ;
    }

    /// A cluster that the search finds is free.
    pub proof fn lemma_find_free(self, start: int, step: int)
        requires
            self.g.wf(),
            2 <= start <= self.g.cluster_count + 1,
            0 <= step,
        ensures
            self.find_free(start, step) matches Some(c) ==> self.g.is_cluster(c) && self.fat(c)
                == 0,
            self.find_free(start, step) is None ==> forall|k: int|
                step <= k < self.g.cluster_count ==> self.fat(#[trigger] self.candidate(start, k))
                    != 0,
        decreases self.g.cluster_count - step,
    {
        if step < self.g.cluster_count {
            self.lemma_candidate(start, step);
            if self.fat(self.candidate(start, step)) != 0 {
                self.lemma_find_free(start, step + 1);
            }
        }
    }

    /// A volume reports that it is full only where every cluster is in use.
    pub proof fn law_full_means_no_free_cluster(self)
        requires
            self.wf(),
        ensures
            self.take_free().1 == Err::<u32, FatError>(FatError::NoSpace) <==> forall|c: u32|
                self.g.is_cluster(c) ==> self.fat(c) != 0,
    {
        reveal(Volume::take_free);
        let start = self.search_start();
        let n = self.g.cluster_count as int;
        self.lemma_find_free(start, 0);
        if self.find_free(start, 0) is None {
            assert forall|c: u32| self.g.is_cluster(c) implies self.fat(c) != 0 by {
                let k = if c >= start {
                    c - start
                } else {
                    c - start + n
                };
                assert((start - 2 + k) % n == c - 2) by {
                    if c >= start {
                        vstd::arithmetic::div_mod::lemma_small_mod((c - 2) as nat, n as nat);
                    } else {
                        vstd::arithmetic::div_mod::lemma_mod_add_multiples_vanish(c - 2, n);
                        vstd::arithmetic::div_mod::lemma_small_mod((c - 2) as nat, n as nat);
                        assert(start - 2 + k == n + (c - 2));
                    }
                }
                assert(self.candidate(start, k) == c);
            }
        }
    }

    /// A cluster that is taken was free. It then is a chain of its own and holds
    /// zeros; nothing else changes.
    pub proof fn lemma_take_free(self)
        requires
            self.wf(),
        ensures
            self.take_free().0.wf(),
            self.take_free().0.g == self.g,
            self.take_free().1 is Err ==> self.take_free().0 == self,
            self.take_free().1 matches Ok(c) ==> {
                let w = self.take_free().0;
                &&& self.g.is_cluster(c)
                &&& self.fat(c) == 0
                &&& w.fat(c) == END_OF_CHAIN
                &&& w.data(c) == zeros(self.g.cluster_size() as nat)
                &&& forall|d: u32|
                    d < self.g.cluster_count + 2 && d != c ==> #[trigger] w.fat(d) == self.fat(d)
                &&& forall|d: u32|
                    self.g.is_cluster(d) && d != c ==> #[trigger] w.data(d) == self.data(d)
            },
    {
        reveal(Volume::take_free);
        self.lemma_find_free(self.search_start(), 0);
        if let Some(c) = self.find_free(self.search_start(), 0) {
            let s = self.set_fat(c, END_OF_CHAIN);
            let z = s.zero(c);
            let w = self.take_free().0;
            self.lemma_set_fat(c, END_OF_CHAIN);
            s.lemma_zero(c);
            assert(w.img == z.img && w.g == z.g);
            assert forall|d: u32| d < self.g.cluster_count + 2 && d != c implies #[trigger] w.fat(d)
                == self.fat(d) by {
                assert(z.fat(d) == s.fat(d));
                assert(w.fat(d) == z.fat(d));
            }
            assert forall|d: u32| self.g.is_cluster(d) && d != c implies #[trigger] w.data(d)
                == self.data(d) by {
                assert(z.data(d) == s.data(d));
                assert(w.data(d) == z.data(d));
            }
            assert(w.fat(c) == z.fat(c));
            assert(w.data(c) == z.data(c));
        }
    }
}

/// Whether all cluster numbers of a volume are below the reserved ones.
pub open spec fn is_small(g: Geometry) -> bool {
    g.cluster_count + 2 <= 0x0fff_fff0
}

impl Volume {
    /// Whether clusters follow each other in the table, the last one at the end.
    pub open spec fn linked(self, chain: Seq<u32>) -> bool {
        forall|i: int|
            0 <= i < chain.len() ==> #[trigger] self.next(chain[i]) == Ok::<Option<u32>, FatError>(
                if i + 1 < chain.len() {
                    Some(chain[i + 1])
                } else {
                    None
                },
            )
    }

    pub proof fn lemma_chain_linked(self, c: Option<u32>, limit: nat)
        ensures
            self.chain_from(c, limit) matches Ok(chain) ==> {
                &&& self.linked(chain)
                &&& chain.len() <= limit
                &&& c is None ==> chain.len() == 0
                &&& c matches Some(first) ==> chain.len() > 0 && chain[0] == first
            },
        decreases limit,
    {
        if let Some(first) = c {
            if limit > 0 {
                if let Ok(n) = self.next(first) {
                    self.lemma_chain_linked(n, (limit - 1) as nat);
                    if let Ok(rest) = self.chain_from(n, (limit - 1) as nat) {
                        let chain = seq![first] + rest;
                        assert forall|i: int| 0 <= i < chain.len() implies #[trigger] self.next(
                            chain[i],
                        ) == Ok::<Option<u32>, FatError>(
                            if i + 1 < chain.len() {
                                Some(chain[i + 1])
                            } else {
                                None
                            },
                        ) by {
                            if i > 0 {
                                assert(chain[i] == rest[i - 1]);
                                assert(self.next(rest[i - 1]) == Ok::<Option<u32>, FatError>(
                                    if i < rest.len() {
                                        Some(rest[i])
                                    } else {
                                        None
                                    },
                                ));
                            }
                        }
                    }
                }
            }
        }
    }

    proof fn lemma_linked_rest(self, chain: Seq<u32>)
        requires
            self.linked(chain),
            chain.len() > 0,
        ensures
            self.linked(chain.skip(1)),
    {
        let rest = chain.skip(1);
        assert forall|i: int| 0 <= i < rest.len() implies #[trigger] self.next(rest[i]) == Ok::<
            Option<u32>,
            FatError,
        >(
            if i + 1 < rest.len() {
                Some(rest[i + 1])
            } else {
                None
            },
        ) by {
            let k = i + 1;
            assert(self.next(chain[k]) == Ok::<Option<u32>, FatError>(
                if k + 1 < chain.len() {
                    Some(chain[k + 1])
                } else {
                    None
                },
            ));
        }
    }

    pub proof fn lemma_linked_chain(self, chain: Seq<u32>, limit: nat)
        requires
            self.linked(chain),
            0 < chain.len() <= limit,
        ensures
            self.chain_from(Some(chain[0]), limit) == Ok::<Seq<u32>, FatError>(chain),
        decreases chain.len(),
    {
        let first = chain[0];
        let rest = chain.skip(1);
        let after = if chain.len() > 1 {
            Some(chain[1])
        } else {
            None
        };
        assert(self.next(first) == Ok::<Option<u32>, FatError>(after));
        assert(seq![first] + rest =~= chain);
        self.lemma_linked_rest(chain);
        if chain.len() > 1 {
            self.lemma_linked_chain(rest, (limit - 1) as nat);
        } else {
            assert(rest =~= Seq::<u32>::empty());
        }
        assert(self.chain_from(after, (limit - 1) as nat) == Ok::<Seq<u32>, FatError>(rest));
    }

    proof fn lemma_linked_same(self, chain: Seq<u32>, i: int, j: int, k: int)
        requires
            self.linked(chain),
            0 <= i < j,
            0 <= k,
            j + k < chain.len(),
            chain[i] == chain[j],
        ensures
            chain[i + k] == chain[j + k],
        decreases k,
    {
        if k > 0 {
            self.lemma_linked_same(chain, i, j, k - 1);
            assert(self.next(chain[i + k - 1]) == Ok::<Option<u32>, FatError>(Some(chain[i + k])));
            assert(self.next(chain[j + k - 1]) == Ok::<Option<u32>, FatError>(Some(chain[j + k])));
        }
    }

    /// No cluster stands twice in a chain.
    pub proof fn law_chain_distinct(self, chain: Seq<u32>)
        requires
            self.linked(chain),
        ensures
            chain.no_duplicates(),
            all_clusters(self.g, chain),
            chain.len() <= self.g.cluster_count,
    {
        assert forall|i: int, j: int|
            0 <= i < chain.len() && 0 <= j < chain.len() && i != j implies chain[i] != chain[j] by {
            if chain[i] == chain[j] {
                let a = if i < j {
                    i
                } else {
                    j
                };
                let b = if i < j {
                    j
                } else {
                    i
                };
                let k = chain.len() - 1 - b;
                self.lemma_linked_same(chain, a, b, k);
                assert(self.next(chain[a + k]) == Ok::<Option<u32>, FatError>(
                    Some(chain[a + k + 1]),
                ));
                assert(self.next(chain[b + k]) == Ok::<Option<u32>, FatError>(None));
            }
        }
        assert forall|i: int| 0 <= i < chain.len() implies self.g.is_cluster(
            #[trigger] chain[i],
        ) by {
            assert(self.next(chain[i]) is Ok);
        }
        lemma_distinct_fit(self.g, chain);
    }

    /// A chain is a matter of the table entries of its clusters.
    pub proof fn lemma_linked_frame(self, w: Volume, chain: Seq<u32>)
        requires
            self.linked(chain),
            w.g == self.g,
            forall|i: int| 0 <= i < chain.len() ==> w.fat(#[trigger] chain[i]) == self.fat(chain[i]),
        ensures
            w.linked(chain),
    {
        assert forall|i: int| 0 <= i < chain.len() implies #[trigger] w.next(chain[i]) == Ok::<
            Option<u32>,
            FatError,
        >(
            if i + 1 < chain.len() {
                Some(chain[i + 1])
            } else {
                None
            },
        ) by {
            assert(self.next(chain[i]) is Ok);
        }
    }

    /// The clusters of a chain are in use.
    pub proof fn lemma_linked_used(self, chain: Seq<u32>, i: int)
        requires
            self.linked(chain),
            0 <= i < chain.len(),
        ensures
            self.fat(chain[i]) != 0,
            self.g.is_cluster(chain[i]),
    {
        assert(self.next(chain[i]) is Ok);
    }
}

proof fn lemma_distinct_fit(g: Geometry, chain: Seq<u32>)
    requires
        chain.no_duplicates(),
        all_clusters(g, chain),
    ensures
        chain.len() <= g.cluster_count,
{
    let ints = chain.map_values(|c: u32| c as int);
    assert(ints.no_duplicates()) by {
        assert forall|i: int, j: int|
            0 <= i < ints.len() && 0 <= j < ints.len() && i != j implies ints[i] != ints[j] by {
            assert(chain[i] != chain[j]);
        }
    }
    ints.unique_seq_to_set();
    vstd::set_lib::lemma_int_range(2, g.cluster_count + 2);
    let range = vstd::set_lib::set_int_range(2, g.cluster_count + 2);
    assert(ints.to_set().subset_of(range)) by {
        assert forall|x: int| ints.to_set().contains(x) implies range.contains(x) by {
            let i = choose|i: int| 0 <= i < ints.len() && ints[i] == x;
            assert(g.is_cluster(chain[i]));
        }
    }
    vstd::set_lib::lemma_len_subset(ints.to_set(), range);
}

impl Volume {
    /// Taking a free cluster onto the end of a chain makes the chain longer by
    /// that cluster, which holds zeros, and changes nothing else.
    pub proof fn lemma_extend(self, chain: Seq<u32>)
        requires
            self.wf(),
            is_small(self.g),
            self.linked(chain),
        ensures
            self.extend(chain).0.wf(),
            self.extend(chain).0.g == self.g,
            self.extend(chain).1 is Err ==> self.extend(chain).0 == self,
            self.extend(chain).1 matches Ok(c) ==> {
                let w = self.extend(chain).0;
                &&& self.g.is_cluster(c)
                &&& self.fat(c) == 0
                &&& w.linked(chain.push(c))
                &&& w.data(c) == zeros(self.g.cluster_size() as nat)
                &&& forall|d: u32|
                    d < self.g.cluster_count + 2 && !chain.push(c).contains(d) ==> #[trigger] w.fat(
                        d,
                    ) == self.fat(d)
                &&& forall|d: u32|
                    self.g.is_cluster(d) && d != c ==> #[trigger] w.data(d) == self.data(d)
            },
    {
        reveal(Volume::extend);
        self.lemma_take_free();
        if let (t, Ok(c)) = self.take_free() {
            let w = self.extend(chain).0;
            let long = chain.push(c);
            self.law_chain_distinct(chain);
            assert forall|i: int| 0 <= i < chain.len() implies chain[i] != c by {
                self.lemma_linked_used(chain, i);
            }
            if chain.len() > 0 {
                let last = chain.last();
                self.lemma_linked_used(chain, chain.len() - 1);
                t.lemma_set_fat(last, c);
                assert(w == t.set_fat(last, c));
                assert forall|d: u32|
                    d < self.g.cluster_count + 2 && !long.contains(d) implies #[trigger] w.fat(d)
                    == self.fat(d) by {
                    assert(long[chain.len() as int] == c);
                    assert(long[chain.len() - 1] == last);
                    assert(t.fat(d) == self.fat(d));
                }
                assert forall|d: u32| self.g.is_cluster(d) && d != c implies #[trigger] w.data(d)
                    == self.data(d) by {
                    assert(t.data(d) == self.data(d));
                }
                assert(w.data(c) == t.data(c));
                assert(w.fat(c) == t.fat(c));
            } else {
                assert forall|d: u32|
                    d < self.g.cluster_count + 2 && !long.contains(d) implies #[trigger] w.fat(d)
                    == self.fat(d) by {
                    assert(long[0] == c);
                }
            }
            assert forall|i: int| 0 <= i < long.len() implies #[trigger] w.next(long[i]) == Ok::<
                Option<u32>,
                FatError,
            >(
                if i + 1 < long.len() {
                    Some(long[i + 1])
                } else {
                    None
                },
            ) by {
                if i < chain.len() {
                    assert(long[i] == chain[i]);
                    assert(self.next(chain[i]) is Ok);
                    if i + 1 < chain.len() {
                        assert(chain[i] != chain[chain.len() - 1]);
                        assert(t.fat(chain[i]) == self.fat(chain[i]));
                        assert(w.fat(chain[i]) == t.fat(chain[i]));
                        assert(long[i + 1] == chain[i + 1]);
                    } else {
                        assert(w.fat(chain[i]) == c);
                    }
                } else {
                    assert(long[i] == c);
                    assert(w.fat(c) == END_OF_CHAIN);
                }
            }
        }
    }

    /// What a chain that was grown is, and what growing it did not change.
    pub open spec fn grew(self, w: Volume, chain: Seq<u32>, grown: Seq<u32>) -> bool {
        &&& w.wf()
        &&& w.g == self.g
        &&& w.linked(grown)
        &&& chain.is_prefix_of(grown)
        &&& forall|i: int|
            chain.len() <= i < grown.len() ==> self.fat(#[trigger] grown[i]) == 0 && w.data(
                grown[i],
            ) == zeros(self.g.cluster_size() as nat)
        &&& forall|d: u32|
            d < self.g.cluster_count + 2 && !grown.contains(d) ==> #[trigger] w.fat(d) == self.fat(
                d,
            )
        &&& forall|d: u32|
            self.g.is_cluster(d) && (!grown.contains(d) || chain.contains(d)) ==> #[trigger] w.data(
                d,
            ) == self.data(d)
    }

    pub proof fn lemma_grow(self, chain: Seq<u32>, needed: int, len: int)
        requires
            self.wf(),
            is_small(self.g),
            self.linked(chain),
        ensures
            self.grow(chain, needed, len) matches (w, Ok(grown)) ==> self.grew(w, chain, grown)
                && grown.len() >= needed && (grown.len() == needed || grown == chain),
        decreases needed - chain.len(),
    {
        if chain.len() < needed {
            self.lemma_extend(chain);
            if let (v, Ok(c)) = self.extend(chain) {
                let long = chain.push(c);
                v.lemma_grow(long, needed, len);
                if let (w, Ok(grown)) = self.grow(chain, needed, len) {
                    assert(v.grew(w, long, grown));
                    v.law_chain_distinct(long);
                    w.law_chain_distinct(grown);
                    assert(long[chain.len() as int] == c);
                    assert(grown[chain.len() as int] == c);
                    assert(grown.contains(c));
                    assert(long.contains(c));
                    assert forall|d: u32| long.contains(d) implies grown.contains(d) by {
                        let i = choose|i: int| 0 <= i < long.len() && long[i] == d;
                        assert(grown[i] == d);
                    }
                    assert forall|d: u32| chain.contains(d) implies long.contains(d) && d != c by {
                        let i = choose|i: int| 0 <= i < chain.len() && chain[i] == d;
                        assert(long[i] == d);
                        self.lemma_linked_used(chain, i);
                    }
                    assert forall|i: int| chain.len() <= i < grown.len() implies self.fat(
                        #[trigger] grown[i],
                    ) == 0 && w.data(grown[i]) == zeros(self.g.cluster_size() as nat) by {
                        if i > chain.len() {
                            assert(v.fat(grown[i]) == 0);
                            assert(!long.contains(grown[i])) by {
                                if long.contains(grown[i]) {
                                    let k = choose|k: int| 0 <= k < long.len() && long[k]
                                        == grown[i];
                                    assert(grown[k] == grown[i]);
                                }
                            }
                            assert(w.g.is_cluster(grown[i]));
                        } else {
                            assert(w.data(c) == v.data(c));
                        }
                    }
                    assert(self.grew(w, chain, grown));
                }
            }
        } else {
            assert forall|d: u32| self.g.is_cluster(d) implies #[trigger] self.data(d) == self.data(
                d,
            ) by {}
        }
    }
}

/// Where byte `p` lies in clusters of `size` bytes.
pub proof fn lemma_place(p: int, size: int, count: int)
    requires
        0 <= p < count * size,
        size > 0,
    ensures
        0 <= p / size < count,
        0 <= p % size < size,
        p == p / size * size + p % size,
{
    assert(p == p / size * size + p % size && 0 <= p % size < size) by (nonlinear_arith)
        requires
            size > 0,
    ;
    assert(0 <= p / size) by (nonlinear_arith)
        requires
            p >= 0,
            size > 0,
    ;
    assert(p / size < count) by (nonlinear_arith)
        requires
            p < count * size,
            size > 0,
            p >= 0,
    ;
}

/// Bytes of one cluster are not bytes of another.
proof fn lemma_place_of(q: int, r: int, size: int)
    requires
        size > 0,
        0 <= r < size,
        0 <= q,
    ensures
        (q * size + r) / size == q,
        (q * size + r) % size == r,
{
    vstd::arithmetic::div_mod::lemma_fundamental_div_mod_converse(q * size + r, size, q, r);
}

impl Volume {
    /// The bytes of the clusters of a chain, one after the other.
    pub open spec fn content(self, chain: Seq<u32>) -> Seq<u8> {
        Seq::new(
            (chain.len() * self.g.cluster_size()) as nat,
            |p: int| self.data(chain[p / self.g.cluster_size()])[p % self.g.cluster_size()],
        )
    }

    /// Replacing bytes inside a sector of a chain's cluster replaces them in the
    /// content of the chain.
    proof fn lemma_put_content(self, chain: Seq<u32>, at: int, bytes: Seq<u8>)
        requires
            self.wf(),
            all_clusters(self.g, chain),
            chain.no_duplicates(),
            0 <= at < chain.len() * self.g.cluster_size(),
            at % 512 + bytes.len() <= 512,
        ensures
            ({
                let size = self.g.cluster_size();
                let w = self.put(chain[at / size], at % size, bytes);
                &&& w.wf()
                &&& w.g == self.g
                &&& w.content(chain) == spliced(self.content(chain), at, bytes)
                &&& forall|d: u32|
                    self.g.is_cluster(d) && !chain.contains(d) ==> #[trigger] w.data(d)
                        == self.data(d)
                &&& forall|d: u32|
                    d < self.g.cluster_count + 2 ==> #[trigger] w.fat(d) == self.fat(d)
            }),
    {
        let size = self.g.cluster_size();
        let count = chain.len() as int;
        lemma_place(at, size, count);
        lemma_mod_mod(at, size);
        let q = at / size;
        let r = at % size;
        let c = chain[q];
        let w = self.put(c, r, bytes);
        self.lemma_put(c, r, bytes);
        // A sector does not cross the end of its cluster.
        assert(r + bytes.len() <= size) by {
            assert(size == 512 * self.g.sectors_per_cluster);
            assert(r / 512 < self.g.sectors_per_cluster);
        }
        assert forall|d: u32| self.g.is_cluster(d) && !chain.contains(d) implies #[trigger] w.data(d)
            == self.data(d) by {
            assert(chain.contains(c));
        }
        let got = w.content(chain);
        let want = spliced(self.content(chain), at, bytes);
        assert forall|p: int| 0 <= p < count * size implies got[p] == want[p] by {
            lemma_place(p, size, count);
            let pq = p / size;
            let pr = p % size;
            if pq != q {
                assert(chain[pq] != c);
                assert(w.data(chain[pq]) == self.data(chain[pq]));
                if pq < q {
                    assert(pq * size + size <= q * size) by (nonlinear_arith)
                        requires
                            pq + 1 <= q,
                            size > 0,
                    ;
                } else {
                    assert(q * size + size <= pq * size) by (nonlinear_arith)
                        requires
                            q + 1 <= pq,
                            size > 0,
                    ;
                }
            }
        }
        assert(got =~= want);
    }

    /// Writing a range of a file replaces those bytes of its content. No table
    /// entry and no cluster outside the chain changes.
    pub proof fn lemma_write_range(self, chain: Seq<u32>, offset: int, data: Seq<u8>)
        requires
            self.wf(),
            all_clusters(self.g, chain),
            chain.no_duplicates(),
            0 <= offset,
            offset + data.len() <= chain.len() * self.g.cluster_size(),
        ensures
            ({
                let w = self.write_range(chain, offset, data);
                &&& w.wf()
                &&& w.g == self.g
                &&& w.content(chain) == spliced(self.content(chain), offset, data)
                &&& forall|d: u32|
                    self.g.is_cluster(d) && !chain.contains(d) ==> #[trigger] w.data(d)
                        == self.data(d)
                &&& forall|d: u32|
                    d < self.g.cluster_count + 2 ==> #[trigger] w.fat(d) == self.fat(d)
            }),
        decreases data.len(),
    {
        if data.len() > 0 {
            let room = 512 - offset % 512;
            let n = if data.len() < room {
                data.len() as int
            } else {
                room
            };
            let size = self.g.cluster_size();
            let v = self.put(chain[offset / size], offset % size, data.take(n));
            self.lemma_put_content(chain, offset, data.take(n));
            v.lemma_write_range(chain, offset + n, data.skip(n));
            let w = self.write_range(chain, offset, data);
            assert(w == v.write_range(chain, offset + n, data.skip(n)));
            assert(w.content(chain) =~= spliced(self.content(chain), offset, data));
            assert forall|d: u32|
                self.g.is_cluster(d) && !chain.contains(d) implies #[trigger] w.data(d)
                == self.data(d) by {
                assert(v.data(d) == self.data(d));
            }
            assert forall|d: u32| d < self.g.cluster_count + 2 implies #[trigger] w.fat(d)
                == self.fat(d) by {
                assert(v.fat(d) == self.fat(d));
            }
        } else {
            assert(spliced(self.content(chain), offset, data) =~= self.content(chain));
        }
    }

    proof fn lemma_follow(self, chain: Seq<u32>, i: int, n: nat)
        requires
            self.linked(chain),
            0 <= i,
            i + n < chain.len(),
        ensures
            self.follow(chain[i], n) == Ok::<u32, FatError>(chain[i + n]),
        decreases n,
    {
        if n > 0 {
            assert(self.next(chain[i]) == Ok::<Option<u32>, FatError>(Some(chain[i + 1])));
            self.lemma_follow(chain, i + 1, (n - 1) as nat);
        }
    }

    proof fn lemma_read_from(self, chain: Seq<u32>, i: int, at: int, wanted: int)
        requires
            self.wf(),
            self.linked(chain),
            0 <= i < chain.len(),
            0 <= at < self.g.cluster_size(),
            0 < wanted,
            i * self.g.cluster_size() + at + wanted <= chain.len() * self.g.cluster_size(),
            i * self.g.cluster_size() + at + wanted <= MAX_CHAIN_STEPS * self.g.cluster_size(),
        ensures
            self.read_from(chain[i], at, wanted, i) == Ok::<Seq<u8>, FatError>(
                self.content(chain).subrange(
                    i * self.g.cluster_size() + at,
                    i * self.g.cluster_size() + at + wanted,
                ),
            ),
        decreases wanted,
    {
        let size = self.g.cluster_size();
        let from = i * size + at;
        self.lemma_linked_used(chain, i);
        assert(i < MAX_CHAIN_STEPS) by (nonlinear_arith)
            requires
                i * size < MAX_CHAIN_STEPS * size,
                size > 0,
        ;
        let room = size - at;
        let whole = self.content(chain);
        let n = if wanted <= room {
            wanted
        } else {
            room
        };
        let part = self.data(chain[i]).subrange(at, at + n);
        let same = whole.subrange(from, from + n);
        assert(part =~= same) by {
            assert forall|k: int| 0 <= k < n implies #[trigger] part[k] == same[k] by {
                lemma_place_of(i, at + k, size);
            }
        }
        if wanted > room {
            assert(i + 1 < chain.len()) by (nonlinear_arith)
                requires
                    i * size + size < chain.len() * size,
                    size > 0,
            ;
            assert(self.next(chain[i]) == Ok::<Option<u32>, FatError>(Some(chain[i + 1])));
            assert((i + 1) * size == i * size + size) by (nonlinear_arith);
            self.lemma_read_from(chain, i + 1, 0, wanted - room);
            assert(whole.subrange(from, from + n) + whole.subrange(from + n, from + wanted)
                =~= whole.subrange(from, from + wanted));
        }
    }

    /// Reading a file gives the bytes of its chain.
    pub proof fn lemma_read_content(self, node: Node, chain: Seq<u32>, offset: int, len: int)
        requires
            self.wf(),
            !node.is_dir,
            self.linked(chain),
            chain.len() > 0 ==> node.first == chain[0],
            node.size <= chain.len() * self.g.cluster_size(),
            node.size <= MAX_CHAIN_STEPS * self.g.cluster_size(),
            0 <= offset,
            0 <= len,
            offset + len <= node.size,
        ensures
            self.read_node(node, offset, len) == Ok::<Seq<u8>, FatError>(
                self.content(chain).subrange(offset, offset + len),
            ),
    {
        let size = self.g.cluster_size();
        if len > 0 {
            let skip = offset / size;
            lemma_place(offset, size, chain.len() as int);
            lemma_place(offset, size, MAX_CHAIN_STEPS as int);
            self.lemma_follow(chain, 0, skip as nat);
            assert(skip * size + offset % size == offset);
            self.lemma_read_from(chain, skip, offset % size, len);
        } else {
            assert(self.content(chain).subrange(offset, offset) =~= Seq::<u8>::empty());
        }
    }
}

impl Volume {
    /// Whether `w` is this volume with the clusters of `touched` changed in any
    /// way, and other metadata in the record of entry `t`.
    pub open spec fn changed(
        self,
        w: Volume,
        touched: Seq<u32>,
        t: Slot,
        first: u32,
        size: u32,
    ) -> bool {
        &&& w.g == self.g
        &&& forall|d: u32|
            self.g.is_cluster(d) && !touched.contains(d) ==> #[trigger] w.fat(d) == self.fat(d)
        &&& forall|d: u32, k: int|
            #![trigger self.record(d, k)]
            #![trigger w.record(d, k)]
            self.g.is_cluster(d) && !touched.contains(d) && 0 <= k < self.records() ==> w.record(
                d,
                k,
            ) == (if d == t.cluster && 32 * k == t.offset {
                with_meta(self.record(d, k), first, size)
            } else {
                self.record(d, k)
            })
    }

    /// A directory apart from what was touched, after the change.
    proof fn lemma_changed_dir(
        self,
        w: Volume,
        touched: Seq<u32>,
        t: Slot,
        first: u32,
        size: u32,
        dir: u32,
        chain: Seq<u32>,
    )
        requires
            self.g.wf(),
            self.changed(w, touched, t, first, size),
            self.is_entry_at(t),
            self.is_directory_at(dir, chain),
            forall|i: int| 0 <= i < chain.len() ==> !touched.contains(#[trigger] chain[i]),
        ensures
            w.is_directory_at(dir, chain),
            w.all_entries(chain) == all_moved(self.all_entries(chain), t, first, size),
    {
        assert forall|i: int| 0 <= i < chain.len() implies self.g.is_cluster(
            #[trigger] chain[i],
        ) by {
            self.lemma_linked_used(chain, i);
        }
        self.lemma_linked_frame(w, chain);
        self.lemma_all_entries_moved(w, chain, t, first, size);
    }

    /// A walk to a directory goes the same way after the change.
    proof fn lemma_changed_walk(
        self,
        w: Volume,
        touched: Seq<u32>,
        t: Slot,
        first: u32,
        size: u32,
        path: Seq<Seq<char>>,
        i: int,
        node: Node,
    )
        requires
            self.g.wf(),
            self.changed(w, touched, t, first, size),
            self.is_entry_at(t),
            self.record(t.cluster, t.offset / 32)[11] / 16 % 2 == 0,
            0 <= i <= path.len(),
            self.sound_way(path, i, node, touched),
            self.walk(path, i, node) matches Ok(n) && n.is_dir,
        ensures
            w.walk(path, i, node) == self.walk(path, i, node),
        decreases path.len() - i,
    {
        if i < path.len() {
            if is_here(path[i]) {
                self.lemma_changed_walk(w, touched, t, first, size, path, i + 1, node);
            } else if !is_up(path[i]) && node.is_dir {
                let chain = self.chain(node.first)->Ok_0;
                self.lemma_changed_dir(w, touched, t, first, size, node.first, chain);
                self.lemma_directory(node.first, chain);
                w.lemma_directory(node.first, chain);
                let s = self.all_entries(chain);
                lemma_visible_named(s, path[i]);
                lemma_visible_named(w.all_entries(chain), path[i]);
                lemma_moved_named(s, t, first, size, path[i]);
                self.lemma_named_stands(chain, path[i]);
                let slot = first_named(s, path[i])->0;
                self.lemma_named_fields(chain, path[i]);
                if slot.cluster == t.cluster && slot.offset == t.offset {
                    self.lemma_walk_file(path, i + 1, slot.node());
                }
                assert(moved(slot, t, first, size) == slot);
                self.lemma_changed_walk(w, touched, t, first, size, path, i + 1, slot.node());
            }
        }
    }

    /// The file at a path: the directory it lies in, its entry and its chain,
    /// all sound, with no cluster of the file in a directory on the way.
    pub open spec fn is_file_at(self, path: Seq<char>, slot: Slot, chain: Seq<u32>) -> bool {
        &&& self.locate(path) matches Ok((dir, name))
        &&& self.find_named(dir, name) == Ok::<Option<Slot>, FatError>(Some(slot))
        &&& !slot.is_dir
        &&& self.chain(slot.first) == Ok::<Seq<u32>, FatError>(chain)
        &&& slot.size <= chain.len() * self.g.cluster_size()
        &&& self.sound_way(parent_components(path), 0, self.root(), chain)
        &&& self.sound_dir(dir, chain)
    }

    /// A sound file is what its path resolves to.
    pub proof fn lemma_file_node(self, path: Seq<char>, slot: Slot, chain: Seq<u32>)
        requires
            self.wf(),
            self.is_file_at(path, slot, chain),
        ensures
            self.resolve(path) == Ok::<Node, FatError>(slot.node()),
            self.linked(chain),
            chain.len() > 0 ==> chain[0] == slot.first,
    {
        let (dir, name) = self.locate(path)->Ok_0;
        self.lemma_locate(path);
        self.lemma_resolve(path);
        let dir_chain = self.chain(dir)->Ok_0;
        self.lemma_directory(dir, dir_chain);
        lemma_visible_named(self.all_entries(dir_chain), name);
        self.lemma_chain_linked(
            if slot.first == 0 {
                None
            } else {
                Some(slot.first)
            },
            self.g.cluster_count as nat,
        );
    }

    /// After a change, the path of a sound file leads to the file with the new
    /// metadata.
    pub proof fn lemma_changed_file(
        self,
        w: Volume,
        path: Seq<char>,
        slot: Slot,
        chain: Seq<u32>,
        touched: Seq<u32>,
        first: u32,
        size: u32,
    )
        requires
            self.wf(),
            self.is_file_at(path, slot, chain),
            self.changed(w, touched, slot, first, size),
            forall|i: int|
                0 <= i < touched.len() ==> chain.contains(#[trigger] touched[i]) || self.fat(
                    touched[i],
                ) == 0,
        ensures
            w.resolve(path) == Ok::<Node, FatError>(Node { first, size, ..slot.node() }),
            w.walk(parent_components(path), 0, w.root()) == self.walk(
                parent_components(path),
                0,
                self.root(),
            ),
            ({
                let dir = self.locate(path)->Ok_0.0;
                let dir_chain = self.chain(dir)->Ok_0;
                &&& w.is_directory_at(dir, dir_chain)
                &&& w.all_entries(dir_chain) == all_moved(
                    self.all_entries(dir_chain),
                    slot,
                    first,
                    size,
                )
            }),
    {
        let (dir, name) = self.locate(path)->Ok_0;
        self.lemma_locate(path);
        self.lemma_resolve(path);
        w.lemma_resolve(path);
        let dir_chain = self.chain(dir)->Ok_0;
        self.lemma_directory(dir, dir_chain);
        self.lemma_named_stands(dir_chain, name);
        self.lemma_named_fields(dir_chain, name);
        let comps = parent_components(path);
        self.lemma_way_apart(comps, 0, self.root(), chain, touched);
        self.lemma_dir_apart(dir, chain, touched);
        self.lemma_changed_walk(w, touched, slot, first, size, comps, 0, self.root());
        self.lemma_changed_dir(w, touched, slot, first, size, dir, dir_chain);
        w.lemma_directory(dir, dir_chain);
        let s = self.all_entries(dir_chain);
        lemma_visible_named(s, name);
        lemma_visible_named(w.all_entries(dir_chain), name);
        lemma_moved_named(s, slot, first, size, name);
        assert(w.root() == self.root());
    }

    /// A directory apart from a chain is apart from what that chain grows by.
    pub proof fn lemma_dir_apart(self, first: u32, chain: Seq<u32>, touched: Seq<u32>)
        requires
            self.sound_dir(first, chain),
            forall|i: int|
                0 <= i < touched.len() ==> chain.contains(#[trigger] touched[i]) || self.fat(
                    touched[i],
                ) == 0,
        ensures
            self.sound_dir(first, touched),
    {
        let dir_chain = self.chain(first)->Ok_0;
        assert forall|i: int| 0 <= i < dir_chain.len() implies !touched.contains(
            #[trigger] dir_chain[i],
        ) by {
            self.lemma_linked_used(dir_chain, i);
            if touched.contains(dir_chain[i]) {
                let k = choose|k: int| 0 <= k < touched.len() && touched[k] == dir_chain[i];
                assert(chain.contains(touched[k]) || self.fat(touched[k]) == 0);
            }
        }
    }

    pub proof fn lemma_way_apart(
        self,
        path: Seq<Seq<char>>,
        i: int,
        node: Node,
        chain: Seq<u32>,
        touched: Seq<u32>,
    )
        requires
            0 <= i,
            self.sound_way(path, i, node, chain),
            forall|i: int|
                0 <= i < touched.len() ==> chain.contains(#[trigger] touched[i]) || self.fat(
                    touched[i],
                ) == 0,
        ensures
            self.sound_way(path, i, node, touched),
        decreases path.len() - i,
    {
        if i < path.len() {
            if is_here(path[i]) {
                self.lemma_way_apart(path, i + 1, node, chain, touched);
            } else {
                self.lemma_dir_apart(node.first, chain, touched);
                if let Ok(next) = self.step(node, path[i]) {
                    self.lemma_way_apart(path, i + 1, next, chain, touched);
                }
            }
        }
    }
}

/// A file's bytes after `data` were written at `offset`: what lies between its
/// old end and the write reads as zeros.
pub open spec fn overwritten(old_bytes: Seq<u8>, offset: int, data: Seq<u8>) -> Seq<u8> {
    let end = offset + data.len();
    Seq::new(
        if end > old_bytes.len() {
            end as nat
        } else {
            old_bytes.len()
        },
        |p: int|
            if offset <= p < end {
                data[p - offset]
            } else if p < old_bytes.len() {
                old_bytes[p]
            } else {
                0
            },
    )
}

/// A file's content with zeros from its end at `size` up to `offset`.
pub open spec fn zero_filled(content: Seq<u8>, size: int, offset: int) -> Seq<u8> {
    if offset > size {
        spliced(content, size, zeros((offset - size) as nat))
    } else {
        content
    }
}

impl Volume {
    /// Replacing the metadata in a record outside a chain leaves the chain and
    /// its content as they were.
    pub proof fn lemma_put_meta(self, slot: Slot, first: u32, size: u32)
        requires
            self.wf(),
            self.g.is_cluster(slot.cluster),
            0 <= slot.offset,
            slot.offset + 32 <= self.g.cluster_size(),
            slot.offset % 32 == 0,
        ensures
            ({
                let w = self.put_meta(slot, first, size);
                &&& w.wf()
                &&& w.g == self.g
                &&& forall|d: u32|
                    d < self.g.cluster_count + 2 ==> #[trigger] w.fat(d) == self.fat(d)
                &&& forall|d: u32|
                    self.g.is_cluster(d) && d != slot.cluster ==> #[trigger] w.data(d) == self.data(
                        d,
                    )
                &&& forall|k: int|
                    0 <= k < self.records() ==> #[trigger] w.record(slot.cluster, k) == if 32 * k
                        == slot.offset {
                        with_meta(self.record(slot.cluster, k), first, size)
                    } else {
                        self.record(slot.cluster, k)
                    }
            }),
    {
        reveal(Volume::put_meta);
        let c = slot.cluster;
        let e = self.data(c).subrange(slot.offset, slot.offset + 32);
        let m = with_meta(e, first, size);
        let w = self.put_meta(slot, first, size);
        self.lemma_put(c, slot.offset, m);
        assert forall|k: int| 0 <= k < self.records() implies #[trigger] w.record(c, k) == if 32 * k
            == slot.offset {
            with_meta(self.record(c, k), first, size)
        } else {
            self.record(c, k)
        } by {
            if 32 * k == slot.offset {
                assert(w.record(c, k) =~= m);
            } else {
                assert(w.record(c, k) =~= self.record(c, k));
            }
        }
    }

    /// The bytes of a write, put into a chain with room for them.
    proof fn lemma_fill(self, slot: Slot, chain: Seq<u32>, offset: int, data: Seq<u8>)
        requires
            self.wf(),
            self.linked(chain),
            chain.len() > 0,
            0 <= offset,
            offset + data.len() <= chain.len() * self.g.cluster_size(),
            slot.size <= chain.len() * self.g.cluster_size(),
            self.g.is_cluster(slot.cluster),
            !chain.contains(slot.cluster),
            0 <= slot.offset,
            slot.offset + 32 <= self.g.cluster_size(),
            slot.offset % 32 == 0,
            offset + data.len() <= u32::MAX,
        ensures
            ({
                let w = self.fill(slot, chain, offset, data);
                let bytes = if offset + data.len() > slot.size {
                    (offset + data.len()) as u32
                } else {
                    slot.size
                };
                &&& w.wf()
                &&& w.linked(chain)
                &&& w.content(chain) == spliced(
                    zero_filled(self.content(chain), slot.size as int, offset),
                    offset,
                    data,
                )
                &&& self.changed(w, chain, slot, chain[0], bytes)
            }),
    {
        self.law_chain_distinct(chain);
        let v = if offset > slot.size {
            self.write_range(chain, slot.size as int, zeros((offset - slot.size) as nat))
        } else {
            self
        };
        if offset > slot.size {
            self.lemma_write_range(chain, slot.size as int, zeros((offset - slot.size) as nat));
        }
        let u = v.write_range(chain, offset, data);
        v.lemma_write_range(chain, offset, data);
        let bytes = if offset + data.len() > slot.size {
            (offset + data.len()) as u32
        } else {
            slot.size
        };
        let w = u.put_meta(slot, chain[0], bytes);
        u.lemma_put_meta(slot, chain[0], bytes);
        assert(w == self.fill(slot, chain, offset, data));
        assert forall|d: u32| d < self.g.cluster_count + 2 implies #[trigger] w.fat(d) == self.fat(
            d,
        ) by {
            assert(v.fat(d) == self.fat(d));
            assert(u.fat(d) == v.fat(d));
        }
        assert forall|i: int| 0 <= i < chain.len() implies w.fat(#[trigger] chain[i]) == self.fat(
            chain[i],
        ) by {
            assert(self.g.is_cluster(chain[i]));
        }
        self.lemma_linked_frame(w, chain);
        let size = self.g.cluster_size();
        assert(w.content(chain) =~= u.content(chain)) by {
            assert forall|p: int| 0 <= p < chain.len() * size implies w.content(chain)[p]
                == u.content(chain)[p] by {
                lemma_place(p, size, chain.len() as int);
                assert(chain.contains(chain[p / size]));
                assert(w.data(chain[p / size]) == u.data(chain[p / size]));
            }
        }
        assert forall|d: u32, k: int|
            #![trigger self.record(d, k)]
            #![trigger w.record(d, k)]
            self.g.is_cluster(d) && !chain.contains(d) && 0 <= k < self.records() implies w.record(
            d,
            k,
        ) == (if d == slot.cluster && 32 * k == slot.offset {
            with_meta(self.record(d, k), chain[0], bytes)
        } else {
            self.record(d, k)
        }) by {
            assert(v.data(d) == self.data(d));
            assert(u.data(d) == v.data(d));
            assert(u.record(d, k) == self.record(d, k));
            if d != slot.cluster {
                assert(w.data(d) == u.data(d));
            }
        }
    }

    /// The chain of a file after a write, and what the write did.
    pub proof fn lemma_write(
        self,
        path: Seq<char>,
        slot: Slot,
        chain: Seq<u32>,
        offset: int,
        data: Seq<u8>,
    ) -> (grown: Seq<u32>)
        requires
            self.wf(),
            is_small(self.g),
            self.is_file_at(path, slot, chain),
            data.len() > 0,
            0 <= offset,
            self.write(path, offset, data).1 is Ok,
        ensures
            ({
                let w = self.write(path, offset, data).0;
                let want = overwritten(
                    self.content(chain).take(slot.size as int),
                    offset,
                    data,
                );
                &&& w.wf()
                &&& w.linked(grown)
                &&& grown.len() > 0
                &&& want.len() <= u32::MAX
                &&& want.len() <= grown.len() * self.g.cluster_size()
                &&& self.changed(w, grown, slot, grown[0], want.len() as u32)
                &&& w.content(grown).take(want.len() as int) == want
                &&& forall|i: int|
                    0 <= i < grown.len() ==> chain.contains(#[trigger] grown[i]) || self.fat(
                        grown[i],
                    ) == 0
            }),
    {
        let size = self.g.cluster_size();
        let end = offset + data.len();
        let bytes = if end > slot.size {
            end
        } else {
            slot.size as int
        };
        let needed = self.clusters_of(bytes);
        self.lemma_file_node(path, slot, chain);
        let v = self.grow(chain, needed, chain.len() as int).0;
        let grown = self.grow(chain, needed, chain.len() as int).1->Ok_0;
        let w = v.fill(slot, grown, offset, data);
        self.lemma_write_steps(path, slot, chain, offset, data);
        self.lemma_grow(chain, needed, chain.len() as int);
        assert(needed * size >= bytes && needed >= 1) by (nonlinear_arith)
            requires
                needed == (bytes + size - 1) / size,
                bytes >= 1,
                size >= 1,
        ;
        assert(grown.len() * size >= needed * size) by (nonlinear_arith)
            requires
                grown.len() >= needed,
                size >= 0,
        ;
        assert forall|i: int| 0 <= i < grown.len() implies chain.contains(#[trigger] grown[i])
            || self.fat(grown[i]) == 0 by {
            if i < chain.len() {
                assert(chain[i] == grown[i]);
            }
        }
        self.lemma_record_apart(path, slot, chain, grown);
        self.law_chain_distinct(chain);
        v.lemma_fill(slot, grown, offset, data);
        self.lemma_changed_through(v, w, chain, grown, slot, grown[0], bytes as u32);
        self.lemma_write_content(v, chain, grown, slot, offset, data);
        grown
    }

    /// The steps of a write.
    proof fn lemma_write_steps(
        self,
        path: Seq<char>,
        slot: Slot,
        chain: Seq<u32>,
        offset: int,
        data: Seq<u8>,
    )
        requires
            self.is_file_at(path, slot, chain),
            data.len() > 0,
            self.write(path, offset, data).1 is Ok,
        ensures
            offset + data.len() <= u32::MAX,
            ({
                let bytes = if offset + data.len() > slot.size {
                    offset + data.len()
                } else {
                    slot.size as int
                };
                let g = self.grow(chain, self.clusters_of(bytes), chain.len() as int);
                g.1 is Ok && self.write(path, offset, data).0 == g.0.fill(
                    slot,
                    g.1->Ok_0,
                    offset,
                    data,
                )
            }),
    {
        reveal(Volume::write);
    }

    /// The record of a file does not lie in the file.
    proof fn lemma_record_apart(
        self,
        path: Seq<char>,
        slot: Slot,
        chain: Seq<u32>,
        grown: Seq<u32>,
    )
        requires
            self.wf(),
            self.is_file_at(path, slot, chain),
            forall|i: int|
                0 <= i < grown.len() ==> chain.contains(#[trigger] grown[i]) || self.fat(grown[i])
                    == 0,
        ensures
            self.g.is_cluster(slot.cluster),
            !grown.contains(slot.cluster),
            0 <= slot.offset,
            slot.offset + 32 <= self.g.cluster_size(),
            slot.offset % 32 == 0,
    {
        let (dir, name) = self.locate(path)->Ok_0;
        let dir_chain = self.chain(dir)->Ok_0;
        self.lemma_directory(dir, dir_chain);
        self.lemma_named_stands(dir_chain, name);
        self.lemma_dir_apart(dir, chain, grown);
        let k = choose|k: int| 0 <= k < dir_chain.len() && dir_chain[k] == slot.cluster;
        self.lemma_linked_used(dir_chain, k);
        assert(!grown.contains(dir_chain[k]));
    }

    proof fn lemma_changed_through(
        self,
        v: Volume,
        w: Volume,
        chain: Seq<u32>,
        grown: Seq<u32>,
        slot: Slot,
        first: u32,
        size: u32,
    )
        requires
            self.grew(v, chain, grown),
            v.changed(w, grown, slot, first, size),
        ensures
            self.changed(w, grown, slot, first, size),
    {
        assert forall|d: u32| self.g.is_cluster(d) && !grown.contains(d) implies #[trigger] w.fat(d)
            == self.fat(d) by {
            assert(v.fat(d) == self.fat(d));
        }
        assert forall|d: u32, k: int|
            #![trigger self.record(d, k)]
            #![trigger w.record(d, k)]
            self.g.is_cluster(d) && !grown.contains(d) && 0 <= k < self.records() implies w.record(
            d,
            k,
        ) == (if d == slot.cluster && 32 * k == slot.offset {
            with_meta(self.record(d, k), first, size)
        } else {
            self.record(d, k)
        }) by {
            assert(v.data(d) == self.data(d));
            assert(v.record(d, k) == self.record(d, k));
        }
    }

    proof fn lemma_write_content(
        self,
        v: Volume,
        chain: Seq<u32>,
        grown: Seq<u32>,
        slot: Slot,
        offset: int,
        data: Seq<u8>,
    )
        requires
            self.wf(),
            self.grew(v, chain, grown),
            0 <= offset,
            all_clusters(self.g, chain),
            slot.size <= chain.len() * self.g.cluster_size(),
            slot.size <= grown.len() * self.g.cluster_size(),
            offset + data.len() <= grown.len() * self.g.cluster_size(),
        ensures
            ({
                let want = overwritten(
                    self.content(chain).take(slot.size as int),
                    offset,
                    data,
                );
                let got = spliced(
                    zero_filled(v.content(grown), slot.size as int, offset),
                    offset,
                    data,
                );
                got.take(want.len() as int) == want
            }),
    {
        let size = self.g.cluster_size();
        let mid = v.content(grown);
        let before = self.content(chain);
        assert forall|p: int| 0 <= p < slot.size implies #[trigger] mid[p] == before[p] by {
            lemma_place(p, size, grown.len() as int);
            lemma_place(p, size, chain.len() as int);
            let q = p / size;
            assert(grown[q] == chain[q]);
            assert(chain.contains(chain[q]));
            assert(self.g.is_cluster(chain[q]));
            assert(v.data(grown[q]) == self.data(chain[q]));
        }
        let want = overwritten(before.take(slot.size as int), offset, data);
        let got = spliced(zero_filled(mid, slot.size as int, offset), offset, data);
        assert(got.take(want.len() as int) =~= want);
    }

    /// What is written to a file is read back: after `data` were written at
    /// `offset`, reading the file gives them there, the bytes it had elsewhere,
    /// and zeros between its old end and the write.
    pub proof fn law_read_back(
        self,
        path: Seq<char>,
        slot: Slot,
        chain: Seq<u32>,
        offset: int,
        data: Seq<u8>,
        at: int,
        len: int,
    )
        requires
            self.wf(),
            is_small(self.g),
            self.is_file_at(path, slot, chain),
            data.len() > 0,
            0 <= offset,
            self.write(path, offset, data).1 is Ok,
            0 <= at,
            0 <= len,
            at + len <= overwritten(self.content(chain).take(slot.size as int), offset, data).len()
                <= MAX_CHAIN_STEPS * self.g.cluster_size(),
        ensures
            self.read(path, 0, slot.size as int) == Ok::<Seq<u8>, FatError>(
                self.content(chain).take(slot.size as int),
            ),
            self.write(path, offset, data).0.read(path, at, len) == Ok::<Seq<u8>, FatError>(
                overwritten(
                    self.content(chain).take(slot.size as int),
                    offset,
                    data,
                ).subrange(at, at + len),
            ),
    {
        let before = self.content(chain);
        let want = overwritten(before.take(slot.size as int), offset, data);
        let w = self.write(path, offset, data).0;
        self.lemma_file_node(path, slot, chain);
        self.lemma_read_content(slot.node(), chain, 0, slot.size as int);
        assert(before.subrange(0, slot.size as int) =~= before.take(slot.size as int));
        let grown = self.lemma_write(path, slot, chain, offset, data);
        self.lemma_changed_file(w, path, slot, chain, grown, grown[0], want.len() as u32);
        let node = Node { first: grown[0], size: want.len() as u32, ..slot.node() };
        w.lemma_read_content(node, grown, at, len);
        assert(w.content(grown).subrange(at, at + len) =~= w.content(grown).take(
            want.len() as int,
        ).subrange(at, at + len));
    }
}

impl Volume {
    /// Giving back the clusters of a chain frees them and changes nothing else.
    pub proof fn lemma_release(self, chain: Seq<u32>)
        requires
            self.wf(),
            all_clusters(self.g, chain),
        ensures
            ({
                let w = self.release(chain);
                &&& w.wf()
                &&& w.g == self.g
                &&& forall|d: u32|
                    d < self.g.cluster_count + 2 ==> #[trigger] w.fat(d) == if chain.contains(d) {
                        0
                    } else {
                        self.fat(d)
                    }
                &&& forall|d: u32| self.g.is_cluster(d) ==> #[trigger] w.data(d) == self.data(d)
            }),
        decreases chain.len(),
    {
        if chain.len() > 0 {
            let rest = chain.drop_last();
            let c = chain.last();
            assert(all_clusters(self.g, rest)) by {
                assert forall|i: int| 0 <= i < rest.len() implies self.g.is_cluster(
                    #[trigger] rest[i],
                ) by {
                    assert(self.g.is_cluster(chain[i]));
                }
            }
            assert(self.g.is_cluster(chain[chain.len() - 1]));
            self.lemma_release(rest);
            let v = self.release(rest);
            let u = v.set_fat(c, 0);
            v.lemma_set_fat(c, 0);
            let w = self.release(chain);
            assert(w.img == u.img && w.g == u.g);
            assert forall|d: u32| d < self.g.cluster_count + 2 implies #[trigger] w.fat(d)
                == if chain.contains(d) {
                0
            } else {
                self.fat(d)
            } by {
                assert(w.fat(d) == u.fat(d));
                assert(v.fat(d) == if rest.contains(d) {
                    0
                } else {
                    self.fat(d)
                });
                if chain.contains(d) && d != c {
                    let i = choose|i: int| 0 <= i < chain.len() && chain[i] == d;
                    assert(rest[i] == d);
                }
                if rest.contains(d) {
                    let i = choose|i: int| 0 <= i < rest.len() && rest[i] == d;
                    assert(chain[i] == d);
                }
                if d == c {
                    assert(chain[chain.len() - 1] == d);
                }
            }
            assert forall|d: u32| self.g.is_cluster(d) implies #[trigger] w.data(d) == self.data(
                d,
            ) by {
                assert(w.data(d) == u.data(d));
                assert(v.data(d) == self.data(d));
            }
        }
    }

    /// A truncated file is still there, empty, and its clusters are free.
    pub proof fn law_truncate(self, path: Seq<char>, slot: Slot, chain: Seq<u32>)
        requires
            self.wf(),
            self.is_file_at(path, slot, chain),
        ensures
            self.truncate(path).1 is Ok,
            self.truncate(path).0.resolve(path) == Ok::<Node, FatError>(
                Node { first: 0, size: 0, ..slot.node() },
            ),
            self.truncate(path).0.read(path, 0, 1) == Ok::<Seq<u8>, FatError>(Seq::empty()),
            forall|i: int|
                0 <= i < chain.len() ==> self.truncate(path).0.fat(#[trigger] chain[i]) == 0,
            self.changed(self.truncate(path).0, chain, slot, 0, 0),
    {
        self.lemma_file_node(path, slot, chain);
        self.lemma_record_apart(path, slot, chain, chain);
        self.law_chain_distinct(chain);
        let u = self.put_meta(slot, 0, 0);
        self.lemma_put_meta(slot, 0, 0);
        u.lemma_release(chain);
        let w = u.release(chain);
        assert(self.truncate(path) == (w, Ok::<(), FatError>(())));
        assert forall|d: u32| self.g.is_cluster(d) && !chain.contains(d) implies #[trigger] w.fat(d)
            == self.fat(d) by {
            assert(u.fat(d) == self.fat(d));
        }
        assert forall|d: u32, k: int|
            #![trigger self.record(d, k)]
            #![trigger w.record(d, k)]
            self.g.is_cluster(d) && !chain.contains(d) && 0 <= k < self.records() implies w.record(
            d,
            k,
        ) == (if d == slot.cluster && 32 * k == slot.offset {
            with_meta(self.record(d, k), 0, 0)
        } else {
            self.record(d, k)
        }) by {
            assert(w.data(d) == u.data(d));
            assert(w.record(d, k) == u.record(d, k));
            if d != slot.cluster {
                assert(u.data(d) == self.data(d));
            }
        }
        self.lemma_changed_file(w, path, slot, chain, chain, 0, 0);
        assert forall|i: int| 0 <= i < chain.len() implies w.fat(#[trigger] chain[i]) == 0 by {
            assert(self.g.is_cluster(chain[i]));
            assert(chain.contains(chain[i]));
        }
    }
}

} // verus!
