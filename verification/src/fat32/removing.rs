//! What holds of a file or a directory that has been removed.

use vstd::prelude::*;
use super::directory::{
    after_record, entry_name, first_named, is_entry, no_long_name, slot_of, LongName, Node, Slot,
};
use super::model::Volume;
use super::walks::{lemma_visible_named, parent_components};
use super::FatError;

verus! {

/// Whether a record is a piece of a long name.
pub open spec fn is_piece(e: Seq<u8>) -> bool {
    e[0] != 0 && e[0] != 0xe5 && e[11] == 0x0f
}

/// Whether two long names are the same to the entry behind them.
spec fn alike(a: LongName, b: LongName) -> bool {
    a.have == b.have && (a.have ==> a.units == b.units)
}

proof fn lemma_alike(a: LongName, b: LongName, e: Seq<u8>)
    requires
        alike(a, b),
    ensures
        alike(after_record(a, e), after_record(b, e)),
        entry_name(a, e) == entry_name(b, e),
{
}

impl Volume {
    /// Record number `f` of a directory.
    pub open spec fn nth(self, chain: Seq<u32>, f: int) -> Seq<u8> {
        self.record(chain[f / self.records()], f % self.records())
    }

    /// Where record number `f` of a directory stands.
    spec fn spot(self, chain: Seq<u32>, f: int) -> (u32, int) {
        (chain[f / self.records()], 32 * (f % self.records()))
    }

    spec fn spots(self, chain: Seq<u32>, from: int, to: int) -> Seq<(u32, int)> {
        Seq::new((to - from) as nat, |j: int| self.spot(chain, from + j))
    }

    proof fn lemma_nth(self, i: int, k: int)
        requires
            0 <= k < self.records(),
        ensures
            (i * self.records() + k) / self.records() == i,
            (i * self.records() + k) % self.records() == k,
    {
        vstd::arithmetic::div_mod::lemma_fundamental_div_mod_converse(
            i * self.records() + k,
            self.records(),
            i,
            k,
        );
    }

    /// The entries of a directory from record `f` on, after those in `found`.
    spec fn flat(self, chain: Seq<u32>, f: int, st: LongName, found: Seq<Slot>) -> Seq<Slot>
        decreases chain.len() * self.records() - f,
    {
        if f >= chain.len() * self.records() {
            found
        } else {
            let e = self.nth(chain, f);
            if e[0] == 0 {
                found
            } else {
                self.flat(
                    chain,
                    f + 1,
                    after_record(st, e),
                    if is_entry(e) {
                        found.push(
                            slot_of(chain[f / self.records()], f % self.records(), st, e),
                        )
                    } else {
                        found
                    },
                )
            }
        }
    }

    /// A cluster, and then the others, make the same entries as all the records.
    proof fn lemma_flat_cluster(
        self,
        chain: Seq<u32>,
        i: int,
        k: int,
        st: LongName,
        found: Seq<Slot>,
    )
        requires
            0 <= i < chain.len(),
            0 <= k <= self.records(),
            self.records() > 0,
        ensures
            self.flat(chain, i * self.records() + k, st, found) == ({
                let (st2, found2, ended) = self.scan_cluster(chain[i], k, st, found);
                if ended {
                    found2
                } else {
                    self.flat(chain, (i + 1) * self.records(), st2, found2)
                }
            }),
        decreases self.records() - k,
    {
        let r = self.records();
        assert((i + 1) * r == i * r + r) by (nonlinear_arith);
        if k < r {
            self.lemma_nth(i, k);
            assert((i + 1) * r <= chain.len() * r) by (nonlinear_arith)
                requires
                    i + 1 <= chain.len(),
                    0 < r,
            ;
            let e = self.record(chain[i], k);
            if e[0] != 0 {
                let found2 = if is_entry(e) {
                    found.push(slot_of(chain[i], k, st, e))
                } else {
                    found
                };
                self.lemma_flat_cluster(chain, i, k + 1, after_record(st, e), found2);
            }
        }
    }

    proof fn lemma_flat_list(self, chain: Seq<u32>, i: int, st: LongName, found: Seq<Slot>)
        requires
            0 <= i <= chain.len(),
            self.records() > 0,
        ensures
            self.flat(chain, i * self.records(), st, found) == self.scan_list(chain, i, st, found),
        decreases chain.len() - i,
    {
        if i < chain.len() {
            self.lemma_flat_cluster(chain, i, 0, st, found);
            let (st2, found2, ended) = self.scan_cluster(chain[i], 0, st, found);
            if !ended {
                self.lemma_flat_list(chain, i + 1, st2, found2);
            }
        }
    }

    /// The entries found before make no difference to those found behind.
    proof fn lemma_flat_split(self, chain: Seq<u32>, f: int, st: LongName, found: Seq<Slot>)
        requires
            0 <= f,
        ensures
            self.flat(chain, f, st, found) == found + self.flat(chain, f, st, Seq::empty()),
        decreases chain.len() * self.records() - f,
    {
        let none = Seq::<Slot>::empty();
        if f < chain.len() * self.records() && self.nth(chain, f)[0] != 0 {
            let e = self.nth(chain, f);
            let st2 = after_record(st, e);
            if is_entry(e) {
                let t = slot_of(chain[f / self.records()], f % self.records(), st, e);
                self.lemma_flat_split(chain, f + 1, st2, found.push(t));
                self.lemma_flat_split(chain, f + 1, st2, none.push(t));
                assert(found.push(t) + self.flat(chain, f + 1, st2, none) =~= found + (none.push(t)
                    + self.flat(chain, f + 1, st2, none)));
            } else {
                self.lemma_flat_split(chain, f + 1, st2, found);
            }
        } else {
            assert(found + none =~= found);
        }
    }

    /// What stands behind a deleted group is found as before.
    proof fn lemma_flat_alike(
        self,
        w: Volume,
        chain: Seq<u32>,
        f: int,
        a: LongName,
        b: LongName,
        found: Seq<Slot>,
    )
        requires
            0 <= f,
            w.g == self.g,
            alike(a, b),
            forall|j: int|
                f <= j < chain.len() * self.records() ==> #[trigger] w.nth(chain, j) == self.nth(
                    chain,
                    j,
                ),
        ensures
            w.flat(chain, f, b, found) == self.flat(chain, f, a, found),
        decreases chain.len() * self.records() - f,
    {
        if f < chain.len() * self.records() {
            assert(w.nth(chain, f) == self.nth(chain, f));
            let e = self.nth(chain, f);
            lemma_alike(a, b, e);
            if e[0] != 0 {
                let t = slot_of(chain[f / self.records()], f % self.records(), a, e);
                let found2 = if is_entry(e) {
                    found.push(t)
                } else {
                    found
                };
                self.lemma_flat_alike(w, chain, f + 1, after_record(a, e), after_record(b, e), found2);
            }
        }
    }
}

impl Volume {
    /// The long name gathered, and the entries found, in front of record `f`.
    spec fn before(self, chain: Seq<u32>, f: int) -> (LongName, Seq<Slot>)
        decreases f,
    {
        if f <= 0 {
            (no_long_name(), Seq::empty())
        } else {
            let (st, found) = self.before(chain, f - 1);
            let e = self.nth(chain, f - 1);
            (
                after_record(st, e),
                if is_entry(e) {
                    found.push(
                        slot_of(
                            chain[(f - 1) / self.records()],
                            (f - 1) % self.records(),
                            st,
                            e,
                        ),
                    )
                } else {
                    found
                },
            )
        }
    }

    /// Whether a directory goes on to record `f`.
    spec fn reaches(self, chain: Seq<u32>, f: int) -> bool {
        &&& 0 <= f <= chain.len() * self.records()
        &&& forall|j: int| 0 <= j < f ==> (#[trigger] self.nth(chain, j))[0] != 0
    }

    proof fn lemma_flat_before(self, chain: Seq<u32>, f: int)
        requires
            self.reaches(chain, f),
        ensures
            self.flat(chain, 0, no_long_name(), Seq::empty()) == self.flat(
                chain,
                f,
                self.before(chain, f).0,
                self.before(chain, f).1,
            ),
        decreases f,
    {
        if f > 0 {
            self.lemma_flat_before(chain, f - 1);
            assert(self.nth(chain, f - 1)[0] != 0);
        }
    }

    proof fn lemma_before_same(self, w: Volume, chain: Seq<u32>, f: int)
        requires
            w.g == self.g,
            forall|j: int| 0 <= j < f ==> #[trigger] w.nth(chain, j) == self.nth(chain, j),
        ensures
            w.before(chain, f) == self.before(chain, f),
        decreases f,
    {
        if f > 0 {
            self.lemma_before_same(w, chain, f - 1);
            assert(w.nth(chain, f - 1) == self.nth(chain, f - 1));
        }
    }

    /// Records that are no entries add none.
    proof fn lemma_before_none(self, chain: Seq<u32>, from: int, to: int)
        requires
            0 <= from <= to,
            forall|j: int| from <= j < to ==> !is_entry(#[trigger] self.nth(chain, j)),
        ensures
            self.before(chain, to).1 == self.before(chain, from).1,
        decreases to,
    {
        if from < to {
            self.lemma_before_none(chain, from, to - 1);
            assert(!is_entry(self.nth(chain, to - 1)));
        }
    }

    /// The record that an entry was found in.
    proof fn lemma_found_at(self, chain: Seq<u32>, f: int, n: int) -> (t: int)
        requires
            self.reaches(chain, f),
            self.before(chain, f).1.len() <= n,
            n < self.flat(chain, 0, no_long_name(), Seq::empty()).len(),
        ensures
            f <= t < chain.len() * self.records(),
            self.reaches(chain, t + 1),
            is_entry(self.nth(chain, t)),
            self.flat(chain, 0, no_long_name(), Seq::empty()).take(n) == self.before(chain, t).1,
            self.flat(chain, 0, no_long_name(), Seq::empty())[n] == slot_of(
                chain[t / self.records()],
                t % self.records(),
                self.before(chain, t).0,
                self.nth(chain, t),
            ),
        decreases chain.len() * self.records() - f,
    {
        let all = self.flat(chain, 0, no_long_name(), Seq::empty());
        let (st, found) = self.before(chain, f);
        self.lemma_flat_before(chain, f);
        let e = self.nth(chain, f);
        assert(f < chain.len() * self.records() && e[0] != 0);
        assert(self.reaches(chain, f + 1));
        self.lemma_flat_before(chain, f + 1);
        let (st2, found2) = self.before(chain, f + 1);
        if is_entry(e) && found.len() == n {
            self.lemma_flat_split(chain, f + 1, st2, found2);
            assert(all.take(n) =~= found);
            f
        } else {
            self.lemma_found_at(chain, f + 1, n)
        }
    }

    /// Where the pieces of a long name right in front of record `f` begin.
    spec fn first_piece(self, chain: Seq<u32>, f: int) -> int
        decreases f,
    {
        if f <= 0 || !is_piece(self.nth(chain, f - 1)) {
            f
        } else {
            self.first_piece(chain, f - 1)
        }
    }

    proof fn lemma_first_piece(self, chain: Seq<u32>, f: int)
        requires
            0 <= f,
        ensures
            0 <= self.first_piece(chain, f) <= f,
            forall|j: int|
                self.first_piece(chain, f) <= j < f ==> is_piece(#[trigger] self.nth(chain, j)),
            !self.before(chain, self.first_piece(chain, f)).0.have,
        decreases f,
    {
        if f > 0 && is_piece(self.nth(chain, f - 1)) {
            self.lemma_first_piece(chain, f - 1);
        }
    }
}

impl Volume {
    /// Two records of a directory stand in two places.
    proof fn lemma_spots_apart(self, chain: Seq<u32>, a: int, b: int)
        requires
            chain.no_duplicates(),
            self.records() > 0,
            0 <= a < chain.len() * self.records(),
            0 <= b < chain.len() * self.records(),
            a != b,
        ensures
            self.spot(chain, a) != self.spot(chain, b),
            0 <= a / self.records() < chain.len(),
            0 <= a % self.records() < self.records(),
    {
        let r = self.records();
        vstd::arithmetic::div_mod::lemma_fundamental_div_mod(a, r);
        vstd::arithmetic::div_mod::lemma_fundamental_div_mod(b, r);
        vstd::arithmetic::div_mod::lemma_mod_bound(a, r);
        vstd::arithmetic::div_mod::lemma_mod_bound(b, r);
        vstd::arithmetic::div_mod::lemma_div_pos_is_pos(a, r);
        vstd::arithmetic::div_mod::lemma_div_pos_is_pos(b, r);
        vstd::arithmetic::div_mod::lemma_div_by_multiple_is_strongly_ordered(
            a,
            chain.len() * r,
            chain.len() as int,
            r,
        );
        vstd::arithmetic::div_mod::lemma_div_by_multiple_is_strongly_ordered(
            b,
            chain.len() * r,
            chain.len() as int,
            r,
        );
        vstd::arithmetic::div_mod::lemma_div_by_multiple(chain.len() as int, r);
    }

    /// The records of an entry within one cluster of its directory.
    proof fn lemma_group_cluster(self, chain: Seq<u32>, i: int, k: int, t: int, target: Slot)
        requires
            chain.no_duplicates(),
            self.records() > 0,
            0 <= i < chain.len(),
            0 <= k <= self.records(),
            i * self.records() + k <= t < chain.len() * self.records(),
            self.reaches(chain, t + 1),
            is_entry(self.nth(chain, t)),
            self.spot(chain, t) == (target.cluster, target.offset),
        ensures
            ({
                let f = i * self.records() + k;
                let n = (i + 1) * self.records();
                self.group_cluster(
                    chain[i],
                    k,
                    self.spots(chain, self.first_piece(chain, f), f),
                    target,
                ) == if t < n {
                    (
                        self.spots(chain, self.first_piece(chain, t), t),
                        Some(self.spots(chain, self.first_piece(chain, t), t + 1)),
                    )
                } else {
                    (self.spots(chain, self.first_piece(chain, n), n), None)
                }
            }),
        decreases self.records() - k,
    {
        let r = self.records();
        let f = i * r + k;
        assert((i + 1) * r == i * r + r) by (nonlinear_arith);
        let pending = self.spots(chain, self.first_piece(chain, f), f);
        self.lemma_first_piece(chain, f);
        if k < r {
            self.lemma_nth(i, k);
            let e = self.record(chain[i], k);
            assert(self.nth(chain, f) == e);
            assert(e[0] != 0);
            assert(self.spot(chain, f) == (chain[i], 32 * k));
            if f == t {
                assert(pending.push((chain[i], 32 * k)) =~= self.spots(
                    chain,
                    self.first_piece(chain, t),
                    t + 1,
                ));
            } else {
                self.lemma_spots_apart(chain, f, t);
                assert(self.first_piece(chain, f + 1) == if is_piece(e) {
                    self.first_piece(chain, f)
                } else {
                    f + 1
                });
                let next = if is_piece(e) {
                    pending.push((chain[i], 32 * k))
                } else {
                    Seq::empty()
                };
                assert(next =~= self.spots(chain, self.first_piece(chain, f + 1), f + 1));
                self.lemma_group_cluster(chain, i, k + 1, t, target);
            }
        }
    }

    /// The records of an entry: the pieces of its long name right in front of it, and
    /// its own.
    proof fn lemma_group(self, chain: Seq<u32>, i: int, t: int, target: Slot)
        requires
            chain.no_duplicates(),
            self.records() > 0,
            0 <= i < chain.len(),
            i * self.records() <= t < chain.len() * self.records(),
            self.reaches(chain, t + 1),
            is_entry(self.nth(chain, t)),
            self.spot(chain, t) == (target.cluster, target.offset),
        ensures
            self.group(
                chain,
                i,
                self.spots(chain, self.first_piece(chain, i * self.records()), i * self.records()),
                target,
            ) == Some(self.spots(chain, self.first_piece(chain, t), t + 1)),
        decreases chain.len() - i,
    {
        self.lemma_group_cluster(chain, i, 0, t, target);
        let n = (i + 1) * self.records();
        if t >= n {
            assert(i + 1 < chain.len()) by (nonlinear_arith)
                requires
                    (i + 1) * self.records() <= t < chain.len() * self.records(),
                    self.records() > 0,
            ;
            self.lemma_group(chain, i + 1, t, target);
        }
    }

    /// What has become of a directory in which records were marked deleted.
    spec fn is_deleted(self, w: Volume, chain: Seq<u32>, from: int, to: int) -> bool {
        &&& w.wf()
        &&& w.g == self.g
        &&& self.keeps_tables(w)
        &&& forall|d: u32| d < self.g.cluster_count + 2 ==> #[trigger] w.fat(d) == self.fat(d)
        &&& forall|d: u32|
            self.g.is_cluster(d) && !chain.contains(d) ==> #[trigger] w.data(d) == self.data(d)
        &&& forall|j: int|
            0 <= j < chain.len() * self.records() ==> if from <= j < to {
                (#[trigger] w.nth(chain, j))[0] == 0xe5
            } else {
                w.nth(chain, j) == self.nth(chain, j)
            }
    }

    #[verifier::spinoff_prover]
    proof fn lemma_delete_one(self, v: Volume, chain: Seq<u32>, from: int, f: int)
        requires
            self.wf(),
            self.linked(chain),
            chain.no_duplicates(),
            self.records() > 0,
            0 <= from <= f < chain.len() * self.records(),
            self.is_deleted(v, chain, from, f),
        ensures
            self.is_deleted(
                v.put(self.spot(chain, f).0, self.spot(chain, f).1, seq![0xe5u8]),
                chain,
                from,
                f + 1,
            ),
    {
        let r = self.records();
        let (c, at) = self.spot(chain, f);
        let k = f % r;
        if f > 0 {
            self.lemma_spots_apart(chain, f, 0);
        } else {
            assert(0int / r == 0 && 0int % r == 0) by (nonlinear_arith)
                requires
                    r > 0,
            ;
            assert(chain.len() > 0) by (nonlinear_arith)
                requires
                    0 < chain.len() * r,
                    r > 0,
            ;
        }
        self.lemma_linked_used(chain, f / r);
        v.lemma_put_first(c, k, 0xe5);
        v.lemma_put_tables(c, at, seq![0xe5u8]);
        assert(v.g.cluster_size() == r * 32);
        v.lemma_put(c, at, seq![0xe5u8]);
        let w = v.put(c, at, seq![0xe5u8]);
        assert forall|d: u32| self.g.is_cluster(d) && !chain.contains(d) implies #[trigger] w.data(
            d,
        ) == self.data(d) by {
            assert(chain.contains(c));
            assert(v.data(d) == self.data(d));
        }
        assert forall|d: u32| d < self.g.cluster_count + 2 implies #[trigger] w.fat(d) == self.fat(
            d,
        ) by {
            assert(v.fat(d) == self.fat(d));
        }
        assert forall|a: int, s: int|
            #![trigger self.g.fat_lba(a, s)]
            0 <= a < self.g.fat_count && 0 <= s < self.g.sectors_per_fat implies w.img[self.g.fat_lba(
            a,
            s,
        )] == self.img[self.g.fat_lba(a, s)] by {
            assert(v.img[v.g.fat_lba(a, s)] == self.img[self.g.fat_lba(a, s)]);
        }
        assert forall|j: int| 0 <= j < chain.len() * r implies if from <= j < f + 1 {
            (#[trigger] w.nth(chain, j))[0] == 0xe5
        } else {
            w.nth(chain, j) == self.nth(chain, j)
        } by {
            if j != f {
                self.lemma_spots_apart(chain, j, f);
                self.lemma_linked_used(chain, j / r);
                if chain[j / r] != c {
                    assert(w.data(chain[j / r]) == v.data(chain[j / r]));
                }
                assert(w.nth(chain, j) == v.nth(chain, j));
            }
        }
    }

    proof fn lemma_delete(self, v: Volume, chain: Seq<u32>, from: int, to: int, i: int)
        requires
            self.wf(),
            self.linked(chain),
            chain.no_duplicates(),
            self.records() > 0,
            0 <= from <= from + i <= to <= chain.len() * self.records(),
            0 <= i,
            self.is_deleted(v, chain, from, from + i),
        ensures
            self.is_deleted(
                v.delete_records(self.spots(chain, from, to), i),
                chain,
                from,
                to,
            ),
        decreases to - from - i,
    {
        if from + i < to {
            let (c, at) = self.spot(chain, from + i);
            self.lemma_delete_one(v, chain, from, from + i);
            self.lemma_delete(v.put(c, at, seq![0xe5u8]), chain, from, to, i + 1);
        }
    }
}

/// A name among entries of which one is taken away.
proof fn lemma_named_removed(s: Seq<Slot>, n: int, name: Seq<char>)
    requires
        0 <= n < s.len(),
        !crate::text::same_name(s[n].name, name),
    ensures
        first_named(s.remove(n), name) == first_named(s, name),
    decreases s.len(),
{
    let t = s.drop_last();
    if n == s.len() - 1 {
        assert(s.remove(n) =~= t);
    } else {
        lemma_named_removed(t, n, name);
        assert(s.remove(n).drop_last() =~= t.remove(n));
        assert(s.remove(n).last() == s.last());
    }
}

/// A name that none of the entries has.
proof fn lemma_named_none(s: Seq<Slot>, name: Seq<char>)
    requires
        forall|i: int| 0 <= i < s.len() ==> !crate::text::same_name((#[trigger] s[i]).name, name),
    ensures
        first_named(s, name) is None,
    decreases s.len(),
{
    if s.len() > 0 {
        lemma_named_none(s.drop_last(), name);
        assert(!crate::text::same_name(s[s.len() - 1].name, name));
    }
}

/// The place among the entries of one that a search finds.
pub proof fn lemma_named_index(s: Seq<Slot>, name: Seq<char>) -> (n: int)
    requires
        first_named(s, name) is Some,
    ensures
        0 <= n < s.len(),
        s[n] == first_named(s, name)->0,
        crate::text::same_name(s[n].name, name),
    decreases s.len(),
{
    if first_named(s.drop_last(), name) is Some {
        lemma_named_index(s.drop_last(), name)
    } else {
        s.len() - 1
    }
}

impl Volume {
    /// Deleting the records of an entry takes that entry away, and no other.
    #[verifier::spinoff_prover]
    proof fn lemma_deleted_entries(self, w: Volume, chain: Seq<u32>, t: int, n: int)
        requires
            self.records() > 0,
            0 <= t < chain.len() * self.records(),
            self.reaches(chain, t + 1),
            is_entry(self.nth(chain, t)),
            0 <= n < self.all_entries(chain).len(),
            self.all_entries(chain).take(n) == self.before(chain, t).1,
            self.is_deleted(w, chain, self.first_piece(chain, t), t + 1),
        ensures
            w.all_entries(chain) == self.all_entries(chain).remove(n),
    {
        let none = Seq::<Slot>::empty();
        let all = self.all_entries(chain);
        let s = self.first_piece(chain, t);
        self.lemma_first_piece(chain, t);
        self.lemma_flat_list(chain, 0, no_long_name(), none);
        w.lemma_flat_list(chain, 0, no_long_name(), none);
        assert(0 * self.records() == 0);
        assert forall|j: int| 0 <= j < s implies #[trigger] w.nth(chain, j) == self.nth(
            chain,
            j,
        ) by {}
        self.lemma_before_same(w, chain, s);
        let found = self.before(chain, s).1;
        assert forall|j: int| s <= j < t implies !is_entry(#[trigger] self.nth(chain, j)) by {
            assert(is_piece(self.nth(chain, j)));
        }
        self.lemma_before_none(chain, s, t);
        assert(found == all.take(n));
        assert forall|j: int| s <= j < t + 1 implies !is_entry(#[trigger] w.nth(chain, j)) by {
            assert(w.nth(chain, j)[0] == 0xe5);
        }
        w.lemma_before_none(chain, s, t + 1);
        assert(w.reaches(chain, t + 1)) by {
            assert forall|j: int| 0 <= j < t + 1 implies (#[trigger] w.nth(chain, j))[0] != 0 by {
                if j < s {
                    assert(w.nth(chain, j) == self.nth(chain, j));
                    assert(self.nth(chain, j)[0] != 0);
                } else {
                    assert(w.nth(chain, j)[0] == 0xe5);
                }
            }
        }
        self.lemma_flat_before(chain, t + 1);
        w.lemma_flat_before(chain, t + 1);
        let a = self.before(chain, t + 1);
        let b = w.before(chain, t + 1);
        assert(w.nth(chain, t)[0] == 0xe5);
        assert(!a.0.have && !b.0.have);
        assert(b.1 == found);
        assert(a.1.len() == n + 1 && a.1.drop_last() == found);
        assert forall|j: int|
            t + 1 <= j < chain.len() * self.records() implies #[trigger] w.nth(chain, j)
            == self.nth(chain, j) by {}
        self.lemma_flat_split(chain, t + 1, a.0, a.1);
        w.lemma_flat_split(chain, t + 1, b.0, b.1);
        self.lemma_flat_alike(w, chain, t + 1, a.0, b.0, none);
        let rest = self.flat(chain, t + 1, a.0, none);
        assert(all == a.1 + rest);
        assert(w.all_entries(chain) == found + rest);
        assert(found + rest =~= all.remove(n));
    }

    /// Whether a path leads to an entry of a sound directory, and the clusters of the
    /// entry lie in no directory on the way, nor does the way come through that
    /// directory twice.
    pub open spec fn is_entry_of(
        self,
        path: Seq<char>,
        dir: u32,
        name: Seq<char>,
        parent: Seq<u32>,
        slot: Slot,
        chain: Seq<u32>,
    ) -> bool {
        &&& self.locate(path) == Ok::<(u32, Seq<char>), FatError>((dir, name))
        &&& self.find_named(dir, name) == Ok::<Option<Slot>, FatError>(Some(slot))
        &&& self.chain(dir) == Ok::<Seq<u32>, FatError>(parent)
        &&& self.chain(slot.first) == Ok::<Seq<u32>, FatError>(chain)
        &&& self.sound_dir(dir, chain)
        &&& self.sound_way(parent_components(path), 0, self.root(), parent + chain)
    }

    /// A file or an empty directory can be removed. It is then taken out of its directory
    /// and nothing else is: the entries left are the others, in the order they had. Its
    /// clusters are free, every other cluster is as it was but for those of its
    /// directory, and all copies of the table stay the same. Where no other entry had
    /// its name, the path leads nowhere; other names lead where they led.
    #[verifier::spinoff_prover]
    pub proof fn law_removed_is_gone(
        self,
        path: Seq<char>,
        dir: u32,
        name: Seq<char>,
        parent: Seq<u32>,
        slot: Slot,
        chain: Seq<u32>,
    ) -> (n: int)
        requires
            self.wf(),
            self.is_entry_of(path, dir, name, parent, slot, chain),
            slot.is_dir ==> self.entries(slot.first) == Ok::<Seq<Slot>, FatError>(Seq::empty()),
        ensures
            self.remove(path).1 is Ok,
            ({
                let w = self.remove(path).0;
                let before = self.all_entries(parent);
                &&& w.wf()
                &&& 0 <= n < before.len()
                &&& before[n] == slot
                &&& w.is_directory_at(dir, parent)
                &&& w.all_entries(parent) == before.remove(n)
                &&& forall|i: int| 0 <= i < chain.len() ==> w.fat(#[trigger] chain[i]) == 0
                &&& self.same_outside(w, parent + chain)
                &&& self.is_mirrored() ==> w.is_mirrored()
                &&& forall|other: Seq<char>|
                    !crate::text::same_name(slot.name, other) ==> #[trigger] w.find_named(
                        dir,
                        other,
                    ) == self.find_named(dir, other)
                &&& (forall|i: int|
                    0 <= i < before.len() && i != n ==> !crate::text::same_name(
                        (#[trigger] before[i]).name,
                        name,
                    )) ==> w.resolve(path) == Err::<Node, FatError>(FatError::NotFound)
            }),
    {
        let none = Seq::<Slot>::empty();
        let before = self.all_entries(parent);
        let r = self.records();
        self.law_chain_distinct(parent);
        self.lemma_directory(dir, parent);
        let n = lemma_named_index(before, name);
        self.lemma_flat_list(parent, 0, no_long_name(), none);
        assert(0 * r == 0);
        let t = self.lemma_found_at(parent, 0, n);
        self.lemma_first_piece(parent, t);
        let s = self.first_piece(parent, t);
        assert(self.spots(parent, self.first_piece(parent, 0), 0) =~= Seq::empty());
        self.lemma_group(parent, 0, t, slot);
        let found = self.spots(parent, s, t + 1);
        self.lemma_delete(self, parent, s, t + 1, 0);
        let u = self.delete_records(found, 0);
        let w = self.remove(path).0;
        self.lemma_chain_linked(
            if slot.first == 0 {
                None
            } else {
                Some(slot.first)
            },
            self.g.cluster_count as nat,
        );
        assert forall|i: int| 0 <= i < chain.len() implies self.g.is_cluster(#[trigger] chain[i]) by {
            self.lemma_linked_used(chain, i);
        }
        u.lemma_release(chain);
        assert(w == u.release(chain));
        self.lemma_deleted_entries(u, parent, t, n);
        assert forall|i: int| 0 <= i < parent.len() implies w.fat(#[trigger] parent[i]) == self.fat(
            parent[i],
        ) && w.data(parent[i]) == u.data(parent[i]) by {
            self.lemma_linked_used(parent, i);
            assert(u.fat(parent[i]) == self.fat(parent[i]));
        }
        self.lemma_linked_frame(w, parent);
        u.lemma_same_entries(w, parent);
        w.lemma_directory(dir, parent);
        assert forall|i: int| 0 <= i < chain.len() implies w.fat(#[trigger] chain[i]) == 0 by {
            assert(self.g.is_cluster(chain[i]));
            assert(chain.contains(chain[i]));
        }
        let touched = parent + chain;
        assert forall|d: u32| self.g.is_cluster(d) && !touched.contains(d) implies
            #[trigger] w.data(d) == self.data(d) by {
            self.lemma_outside_both(parent, chain, d);
            assert(u.data(d) == self.data(d));
        }
        assert forall|d: u32| self.g.is_cluster(d) && !touched.contains(d) implies
            #[trigger] w.fat(d) == self.fat(d) by {
            self.lemma_outside_both(parent, chain, d);
            assert(u.fat(d) == self.fat(d));
        }
        if self.is_mirrored() {
            self.lemma_kept_mirrored(u);
            u.lemma_release_mirrored(chain);
        }
        assert forall|other: Seq<char>|
            !crate::text::same_name(slot.name, other) implies #[trigger] w.find_named(dir, other)
            == self.find_named(dir, other) by {
            lemma_named_removed(before, n, other);
        }
        if forall|i: int|
            0 <= i < before.len() && i != n ==> !crate::text::same_name(
                (#[trigger] before[i]).name,
                name,
            ) {
            let left = before.remove(n);
            assert forall|i: int| 0 <= i < left.len() implies !crate::text::same_name(
                (#[trigger] left[i]).name,
                name,
            ) by {
                assert(left[i] == if i < n {
                    before[i]
                } else {
                    before[i + 1]
                });
            }
            lemma_named_none(left, name);
            self.lemma_locate(path);
            self.lemma_outside_walk(w, touched, parent_components(path), 0, self.root());
            w.lemma_resolve(path);
            lemma_visible_named(left, name);
            assert(w.root() == self.root());
        }
        n
    }

    proof fn lemma_outside_both(self, a: Seq<u32>, b: Seq<u32>, d: u32)
        requires
            !(a + b).contains(d),
        ensures
            !a.contains(d),
            !b.contains(d),
    {
        if a.contains(d) {
            let i = choose|i: int| 0 <= i < a.len() && a[i] == d;
            assert((a + b)[i] == d);
        }
        if b.contains(d) {
            let i = choose|i: int| 0 <= i < b.len() && b[i] == d;
            assert((a + b)[a.len() + i] == d);
        }
    }
}

} // verus!
