//! What holds of a write for which there is no space.

use vstd::prelude::*;
use super::directory::{Node, Slot};
use super::laws::is_small;
use super::model::{Volume, END_OF_CHAIN};
use super::table::all_clusters;
use super::walks::parent_components;
use super::FatError;

verus! {

impl Volume {
    /// The state of growing a file's chain from `orig` to `chain`: the clusters added were
    /// free, and nothing else has changed but where `orig` leads on.
    spec fn is_growing(self, v: Volume, orig: Seq<u32>, chain: Seq<u32>) -> bool {
        &&& v.wf()
        &&& v.g == self.g
        &&& v.linked(chain)
        &&& orig.is_prefix_of(chain)
        &&& forall|i: int| orig.len() <= i < chain.len() ==> self.fat(#[trigger] chain[i]) == 0
        &&& forall|d: u32|
            self.g.is_cluster(d) && !chain.contains(d) ==> #[trigger] v.fat(d) == self.fat(d)
        &&& forall|d: u32|
            self.g.is_cluster(d) && !chain.skip(orig.len() as int).contains(d)
                ==> #[trigger] v.data(d) == self.data(d)
    }

    /// Whether a volume is as it was but for clusters that are free and the mark at the
    /// end of a chain.
    pub open spec fn is_given_back(self, w: Volume, orig: Seq<u32>, added: Seq<u32>) -> bool {
        &&& w.wf()
        &&& w.g == self.g
        &&& all_clusters(self.g, added)
        &&& forall|i: int| 0 <= i < added.len() ==> self.fat(#[trigger] added[i]) == 0
        &&& forall|d: u32|
            self.g.is_cluster(d) ==> #[trigger] w.fat(d) == self.fat(d) || (orig.len() > 0 && d
                == orig.last() && w.fat(d) == END_OF_CHAIN)
        &&& forall|d: u32|
            self.g.is_cluster(d) && !added.contains(d) ==> #[trigger] w.data(d) == self.data(d)
    }

    /// A chain that was grown and cut back.
    #[verifier::spinoff_prover]
    proof fn lemma_cut_back(self, v: Volume, orig: Seq<u32>, chain: Seq<u32>)
        requires
            self.wf(),
            self.linked(orig),
            self.is_growing(v, orig, chain),
        ensures
            self.is_given_back(
                v.roll_back(chain, orig.len() as int),
                orig,
                chain.skip(orig.len() as int),
            ),
    {
        reveal(Volume::roll_back);
        let len = orig.len() as int;
        let added = chain.skip(len);
        self.law_chain_distinct(orig);
        v.law_chain_distinct(chain);
        assert forall|i: int| 0 <= i < added.len() implies self.g.is_cluster(#[trigger] added[i]) by {
            assert(added[i] == chain[len + i]);
        }
        let u = if len > 0 {
            v.set_fat(chain[len - 1], END_OF_CHAIN)
        } else {
            v
        };
        if len > 0 {
            assert(chain[len - 1] == orig[len - 1]);
            assert(self.g.is_cluster(orig[len - 1]));
            v.lemma_set_fat(chain[len - 1], END_OF_CHAIN);
        }
        u.lemma_release(added);
        let w = v.roll_back(chain, len);
        assert(w == u.release(added));
        assert forall|d: u32| self.g.is_cluster(d) implies #[trigger] w.fat(d) == self.fat(d) || (
        orig.len() > 0 && d == orig.last() && w.fat(d) == END_OF_CHAIN) by {
            if added.contains(d) {
                let i = choose|i: int| 0 <= i < added.len() && added[i] == d;
                assert(self.fat(chain[len + i]) == 0);
            } else if chain.contains(d) {
                let i = choose|i: int| 0 <= i < chain.len() && chain[i] == d;
                if i >= len {
                    assert(added[i - len] == d);
                }
                assert(orig[i] == chain[i]);
                if i < len - 1 {
                    assert(orig[i + 1] == chain[i + 1]);
                    assert(v.next(chain[i]) == Ok::<Option<u32>, FatError>(Some(chain[i + 1])));
                    assert(self.next(orig[i]) == Ok::<Option<u32>, FatError>(Some(orig[i + 1])));
                    assert(chain[i] != chain[len - 1]);
                    assert(u.fat(d) == v.fat(d));
                }
            } else {
                if len > 0 {
                    assert(chain.contains(chain[len - 1]));
                }
                assert(u.fat(d) == v.fat(d));
            }
        }
        assert forall|d: u32| self.g.is_cluster(d) && !added.contains(d) implies #[trigger] w.data(d)
            == self.data(d) by {
            assert(u.data(d) == v.data(d));
        }
        assert forall|i: int| 0 <= i < added.len() implies self.fat(#[trigger] added[i]) == 0 by {
            assert(added[i] == chain[len + i]);
        }
    }

    #[verifier::spinoff_prover]
    proof fn lemma_grow_more(self, v: Volume, orig: Seq<u32>, chain: Seq<u32>)
        requires
            self.wf(),
            is_small(self.g),
            self.linked(orig),
            self.is_growing(v, orig, chain),
            v.extend(chain).1 is Ok,
        ensures
            self.is_growing(v.extend(chain).0, orig, chain.push(v.extend(chain).1->Ok_0)),
    {
        v.lemma_extend(chain);
        let c = v.extend(chain).1->Ok_0;
        let w = v.extend(chain).0;
        let long = chain.push(c);
        let len = orig.len() as int;
        assert(!chain.contains(c)) by {
            if chain.contains(c) {
                let i = choose|i: int| 0 <= i < chain.len() && chain[i] == c;
                v.lemma_linked_used(chain, i);
            }
        }
        assert(self.fat(c) == 0);
        assert(long[chain.len() as int] == c);
        assert(long.skip(len) =~= chain.skip(len).push(c));
        assert forall|d: u32| chain.contains(d) implies long.contains(d) by {
            let i = choose|i: int| 0 <= i < chain.len() && chain[i] == d;
            assert(long[i] == d);
        }
        assert forall|i: int| len <= i < long.len() implies self.fat(#[trigger] long[i]) == 0 by {
            if i < chain.len() {
                assert(long[i] == chain[i]);
            }
        }
        assert forall|d: u32| self.g.is_cluster(d) && !long.contains(d) implies #[trigger] w.fat(d)
            == self.fat(d) by {
            assert(v.fat(d) == self.fat(d));
        }
        assert forall|d: u32|
            self.g.is_cluster(d) && !long.skip(len).contains(d) implies #[trigger] w.data(d)
            == self.data(d) by {
            let t = chain.skip(len);
            assert(t.push(c)[t.len() as int] == c);
            if t.contains(d) {
                let i = choose|i: int| 0 <= i < t.len() && t[i] == d;
                assert(t.push(c)[i] == d);
            }
            assert(v.data(d) == self.data(d));
        }
    }

    proof fn lemma_grow_refused(self, v: Volume, orig: Seq<u32>, chain: Seq<u32>, needed: int) -> (added:
        Seq<u32>)
        requires
            self.wf(),
            is_small(self.g),
            self.linked(orig),
            self.is_growing(v, orig, chain),
            v.grow(chain, needed, orig.len() as int).1 is Err,
        ensures
            self.is_given_back(v.grow(chain, needed, orig.len() as int).0, orig, added),
        decreases needed - chain.len(),
    {
        v.lemma_extend(chain);
        match v.extend(chain) {
            (u, Err(_)) => {
                self.lemma_cut_back(v, orig, chain);
                chain.skip(orig.len() as int)
            },
            (u, Ok(c)) => {
                self.lemma_grow_more(v, orig, chain);
                self.lemma_grow_refused(u, orig, chain.push(c), needed)
            },
        }
    }

    proof fn lemma_follow_same(self, w: Volume, chain: Seq<u32>, i: int, n: nat)
        requires
            self.linked(chain),
            w.linked(chain),
            0 <= i < chain.len(),
        ensures
            w.follow(chain[i], n) == self.follow(chain[i], n),
            self.follow(chain[i], n) matches Ok(c) ==> i + n < chain.len() && c == chain[i + n],
        decreases n,
    {
        assert(self.next(chain[i]) == w.next(chain[i]));
        if n > 0 && i + 1 < chain.len() {
            self.lemma_follow_same(w, chain, i + 1, (n - 1) as nat);
        }
    }

    proof fn lemma_read_same(self, w: Volume, chain: Seq<u32>, i: int, at: int, wanted: int, steps: int)
        requires
            w.g == self.g,
            self.linked(chain),
            w.linked(chain),
            forall|k: int| 0 <= k < chain.len() ==> w.data(#[trigger] chain[k]) == self.data(chain[k]),
            0 <= i < chain.len(),
        ensures
            w.read_from(chain[i], at, wanted, steps) == self.read_from(chain[i], at, wanted, steps),
        decreases wanted,
    {
        assert(self.next(chain[i]) == w.next(chain[i]));
        let room = self.g.cluster_size() - at;
        if wanted > room && room > 0 && i + 1 < chain.len() {
            self.lemma_read_same(w, chain, i + 1, 0, wanted - room, steps + 1);
        }
    }

    /// A write for which there is no space leaves the file as it was, its bytes and its
    /// entry, and the same clusters free.
    #[verifier::spinoff_prover]
    pub proof fn law_no_space_changes_nothing(
        self,
        path: Seq<char>,
        slot: Slot,
        chain: Seq<u32>,
        offset: int,
        data: Seq<u8>,
        at: int,
        len: int,
    )
        requires
            self.wf(),
            is_small(self.g),
            self.is_file_at(path, slot, chain),
            0 <= offset,
            self.write(path, offset, data).1 == Err::<usize, FatError>(FatError::NoSpace),
            0 <= at,
        ensures
            ({
                let w = self.write(path, offset, data).0;
                &&& w.resolve(path) == self.resolve(path)
                &&& w.read(path, at, len) == self.read(path, at, len)
                &&& forall|c: u32|
                    self.g.is_cluster(c) ==> (#[trigger] w.fat(c) == 0 <==> self.fat(c) == 0)
            }),
    {
        reveal(Volume::write);
        let w = self.write(path, offset, data).0;
        let (dir, name) = self.locate(path)->Ok_0;
        let none = Seq::<u32>::empty();
        self.lemma_file_node(path, slot, chain);
        self.law_chain_distinct(chain);
        assert(chain.skip(chain.len() as int) =~= none);
        let end = offset + data.len();
        let bytes = if end > slot.size {
            end
        } else {
            slot.size as int
        };
        let added = self.lemma_grow_refused(self, chain, chain, self.clusters_of(bytes));
        let touched = chain + added;
        if chain.len() > 0 {
            self.lemma_linked_used(chain, chain.len() - 1);
        }
        assert(END_OF_CHAIN != 0);
        self.lemma_still_there(w, path, slot, chain, added);
        assert forall|i: int| 0 <= i < chain.len() implies w.data(#[trigger] chain[i]) == self.data(
            chain[i],
        ) by {
            self.lemma_linked_used(chain, i);
            assert(self.g.is_cluster(chain[i]));
            if added.contains(chain[i]) {
                let k = choose|k: int| 0 <= k < added.len() && added[k] == chain[i];
                assert(self.fat(added[k]) == 0);
            }
        }
        if chain.len() > 0 && at < slot.size && len > 0 {
            let size = self.g.cluster_size();
            let skip = at / size;
            assert(skip >= 0) by (nonlinear_arith)
                requires
                    skip == at / size,
                    at >= 0,
                    size > 0,
            ;
            self.lemma_follow_same(w, chain, 0, skip as nat);
            if self.follow(chain[0], skip as nat) is Ok {
                let wanted = if len < slot.size - at {
                    len
                } else {
                    slot.size - at
                };
                self.lemma_read_same(w, chain, skip, at % size, wanted, skip);
            }
        } else if chain.len() == 0 {
            assert(slot.size == 0);
        }
    }

    /// A file is found where only free clusters and the end mark of its chain changed.
    #[verifier::spinoff_prover]
    proof fn lemma_still_there(
        self,
        w: Volume,
        path: Seq<char>,
        slot: Slot,
        chain: Seq<u32>,
        added: Seq<u32>,
    )
        requires
            self.wf(),
            self.is_file_at(path, slot, chain),
            self.is_given_back(w, chain, added),
        ensures
            w.resolve(path) == self.resolve(path),
            self.resolve(path) == Ok::<Node, FatError>(slot.node()),
            w.linked(chain),
    {
        let (dir, name) = self.locate(path)->Ok_0;
        let comps = parent_components(path);
        let touched = chain + added;
        self.lemma_file_node(path, slot, chain);
        self.law_chain_distinct(chain);
        self.lemma_locate(path);
        assert forall|i: int| 0 <= i < touched.len() implies chain.contains(#[trigger] touched[i])
            || self.fat(touched[i]) == 0 by {
            if i < chain.len() {
                assert(touched[i] == chain[i]);
            } else {
                assert(touched[i] == added[i - chain.len()]);
            }
        }
        assert forall|d: u32| self.g.is_cluster(d) && !touched.contains(d) implies #[trigger] w.fat(d)
            == self.fat(d) by {
            if chain.len() > 0 {
                assert(touched[chain.len() - 1] == chain.last());
            }
        }
        assert forall|d: u32| self.g.is_cluster(d) && !touched.contains(d) implies #[trigger] w.data(
            d,
        ) == self.data(d) by {
            if added.contains(d) {
                let i = choose|i: int| 0 <= i < added.len() && added[i] == d;
                assert(touched[chain.len() + i] == d);
            }
        }
        assert(self.same_outside(w, touched));
        self.lemma_way_apart(comps, 0, self.root(), chain, touched);
        self.lemma_outside_walk(w, touched, comps, 0, self.root());
        self.lemma_dir_apart(dir, chain, touched);
        self.lemma_outside_dir(w, touched, dir);
        assert(w.root() == self.root());
        w.lemma_resolve(path);
        self.lemma_resolve(path);
        assert forall|i: int| 0 <= i < chain.len() implies #[trigger] w.next(chain[i]) == Ok::<
            Option<u32>,
            FatError,
        >(
            if i + 1 < chain.len() {
                Some(chain[i + 1])
            } else {
                None
            },
        ) by {
            assert(self.g.is_cluster(chain[i]));
            assert(self.next(chain[i]) == Ok::<Option<u32>, FatError>(
                if i + 1 < chain.len() {
                    Some(chain[i + 1])
                } else {
                    None
                },
            ));
            if w.fat(chain[i]) != self.fat(chain[i]) {
                assert(chain[i] == chain[chain.len() - 1]);
            }
        }
    }
}

} // verus!
