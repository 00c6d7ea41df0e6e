//! Which entries a directory shows, in terms of the records on the device.

use vstd::prelude::*;
use crate::bytes::{le16, le32};
use crate::text::same_name;
use super::directory::{
    after_record, first_named, is_entry, no_long_name, slot_of, visible, LongName, Slot,
};
use super::model::Volume;
use super::short::{capitals, dotted, is_padded, is_short, law_padded_name_is_read};
use super::FatError;

verus! {

/// Whether a record is the piece of a long name.
pub open spec fn is_piece(e: Seq<u8>) -> bool {
    e[0] != 0xe5 && e[11] == 0x0f
}

/// Whether a record is in use for a file or a directory: it does not end the directory, it
/// is not deleted, no piece of a long name and no volume label.
pub open spec fn is_live(e: Seq<u8>) -> bool {
    e[0] != 0 && e[0] != 0xe5 && e[11] != 0x0f && (e[11] as int / 8) % 2 == 0
}

/// Whether an entry says what a record says: its size, where its data starts, and whether
/// it is a directory.
pub open spec fn tells(s: Slot, e: Seq<u8>) -> bool {
    &&& s.raw == e.take(11)
    &&& s.size == le32(e, 28)
    &&& s.first == le16(e, 26) + 0x1_0000 * le16(e, 20)
    &&& s.is_dir == ((e[11] as int / 16) % 2 == 1)
}

impl Volume {
    /// Record `k` of cluster `j` of a directory.
    pub open spec fn record_of(self, chain: Seq<u32>, j: int, k: int) -> Seq<u8> {
        Seq::new(32, |i: int| self.data(chain[j])[32 * k + i])
    }

    /// Whether the directory goes on up to record `k` of its cluster `j`.
    pub open spec fn goes_on_to(self, chain: Seq<u32>, j: int, k: int) -> bool {
        &&& 0 <= j < chain.len()
        &&& 0 <= k < 16 * self.g.sectors_per_cluster
        &&& forall|a: int, b: int|
            0 <= a < chain.len() && 0 <= b < 16 * self.g.sectors_per_cluster && (a < j || (a == j && b
                < k)) ==> (#[trigger] self.record_of(chain, a, b))[0] != 0
    }

    /// Whether the record in front of record `k` of cluster `j` is no piece of a long name.
    pub open spec fn stands_alone(self, chain: Seq<u32>, j: int, k: int) -> bool {
        if k > 0 {
            !is_piece(self.record_of(chain, j, k - 1))
        } else if j > 0 {
            !is_piece(self.record_of(chain, j - 1, 16 * self.g.sectors_per_cluster - 1))
        } else {
            true
        }
    }

    proof fn lemma_same_record(self, chain: Seq<u32>, j: int, k: int)
        requires
            self.g.wf(),
            0 <= k < self.records(),
        ensures
            self.record(chain[j], k) == self.record_of(chain, j, k),
    {
        assert(self.record(chain[j], k) =~= self.record_of(chain, j, k));
    }

    /// Scanning a cluster up to a record.
    proof fn lemma_scan_up_to(
        self,
        chain: Seq<u32>,
        j: int,
        k: int,
        to: int,
        st: LongName,
        found: Seq<Slot>,
    ) -> (r: (LongName, Seq<Slot>))
        requires
            self.g.wf(),
            0 <= j < chain.len(),
            0 <= k <= to <= self.records(),
            forall|b: int| k <= b < to ==> (#[trigger] self.record_of(chain, j, b))[0] != 0,
        ensures
            self.scan_cluster(chain[j], k, st, found) == self.scan_cluster(chain[j], to, r.0, r.1),
            k == to ==> r == (st, found),
            k < to && !is_piece(self.record_of(chain, j, to - 1)) ==> !r.0.have,
        decreases to - k,
    {
        if k == to {
            (st, found)
        } else {
            self.lemma_same_record(chain, j, k);
            let e = self.record(chain[j], k);
            assert(self.record_of(chain, j, k)[0] != 0);
            let found2 = if is_entry(e) {
                found.push(slot_of(chain[j], k, st, e))
            } else {
                found
            };
            self.lemma_scan_up_to(chain, j, k + 1, to, after_record(st, e), found2)
        }
    }

    /// Scanning a directory up to a cluster.
    proof fn lemma_scan_clusters(
        self,
        chain: Seq<u32>,
        i: int,
        j: int,
        st: LongName,
        found: Seq<Slot>,
    ) -> (r: (LongName, Seq<Slot>))
        requires
            self.g.wf(),
            0 <= i <= j < chain.len(),
            forall|a: int, b: int|
                i <= a < j && 0 <= b < self.records() ==> (#[trigger] self.record_of(
                    chain,
                    a,
                    b,
                ))[0] != 0,
        ensures
            self.scan_list(chain, i, st, found) == self.scan_list(chain, j, r.0, r.1),
            i == j ==> r == (st, found),
            i < j && !is_piece(self.record_of(chain, j - 1, self.records() - 1)) ==> !r.0.have,
        decreases j - i,
    {
        if i == j {
            (st, found)
        } else {
            let r = self.lemma_scan_up_to(chain, i, 0, self.records(), st, found);
            assert(self.scan_cluster(chain[i], self.records(), r.0, r.1) == (r.0, r.1, false));
            self.lemma_scan_clusters(chain, i + 1, j, r.0, r.1)
        }
    }

    /// A record that the scan gets to is among the entries.
    proof fn lemma_live_record(self, chain: Seq<u32>, j: int, k: int) -> (r: (LongName, int))
        requires
            self.g.wf(),
            self.goes_on_to(chain, j, k),
            is_live(self.record_of(chain, j, k)),
        ensures
            0 <= r.1 < self.all_entries(chain).len(),
            self.all_entries(chain)[r.1] == slot_of(
                chain[j],
                k,
                r.0,
                self.record_of(chain, j, k),
            ),
            self.stands_alone(chain, j, k) ==> !r.0.have,
    {
        let (st, found) = self.lemma_scan_clusters(chain, 0, j, no_long_name(), Seq::empty());
        let (st2, found2) = self.lemma_scan_up_to(chain, j, 0, k, st, found);
        self.lemma_same_record(chain, j, k);
        let e = self.record(chain[j], k);
        let slot = slot_of(chain[j], k, st2, e);
        assert(is_entry(e));
        let found3 = found2.push(slot);
        let st3 = after_record(st2, e);
        self.lemma_scan_cluster_extends(chain[j], k + 1, st3, found3);
        let after = self.scan_cluster(chain[j], k + 1, st3, found3);
        assert(self.scan_cluster(chain[j], 0, st, found) == after);
        if !after.2 {
            self.lemma_scan_list_extends(chain, j + 1, after.0, after.1);
        }
        let at = found2.len() as int;
        assert(found3[at] == slot);
        assert(after.1[at] == slot);
        assert(self.all_entries(chain)[at] == slot);
        (st2, at)
    }

    proof fn lemma_scan_list_extends(self, chain: Seq<u32>, i: int, st: LongName, found: Seq<Slot>)
        requires
            0 <= i,
        ensures
            found.is_prefix_of(self.scan_list(chain, i, st, found)),
        decreases chain.len() - i,
    {
        if i < chain.len() {
            self.lemma_scan_cluster_extends(chain[i], 0, st, found);
            let r = self.scan_cluster(chain[i], 0, st, found);
            if !r.2 {
                self.lemma_scan_list_extends(chain, i + 1, r.0, r.1);
            }
        }
    }

    /// A record with an 8.3 name and no long name in front of it is listed under base, dot
    /// and extension in capitals, with its size and its kind, and it can be found by that
    /// name, in capitals or not.
    pub proof fn law_plain_record_is_listed(
        self,
        first: u32,
        chain: Seq<u32>,
        j: int,
        k: int,
        base: Seq<char>,
        ext: Seq<char>,
    )
        requires
            self.wf(),
            self.is_directory_at(first, chain),
            self.goes_on_to(chain, j, k),
            self.stands_alone(chain, j, k),
            is_live(self.record_of(chain, j, k)),
            is_short(base, ext),
            is_padded(self.record_of(chain, j, k).take(11), base, ext),
        ensures
            self.entries(first) matches Ok(l) && {
                &&& exists|i: int|
                    0 <= i < l.len() && (#[trigger] l[i]).name == capitals(dotted(base, ext))
                        && tells(l[i], self.record_of(chain, j, k))
                &&& first_named(l, dotted(base, ext)) is Some
            },
    {
        let e = self.record_of(chain, j, k);
        let (st, at) = self.lemma_live_record(chain, j, k);
        let s = self.all_entries(chain);
        let slot = s[at];
        self.lemma_directory(first, chain);
        assert(e.subrange(0, 11) =~= e.take(11));
        law_padded_name_is_read(e.take(11), base, ext);
        lemma_no_dots(base, ext);
        lemma_tells(chain[j], k, st, e);
        let i = lemma_visible_has(s, at);
        let l = visible(s);
        assert(l[i] == slot);
        lemma_named(l, i, dotted(base, ext));
    }

    /// Every record that is in use is listed, in whichever cluster of the directory it
    /// stands: with its size, its kind and where its data starts.
    pub proof fn law_every_record_is_listed(self, first: u32, chain: Seq<u32>, j: int, k: int)
        requires
            self.wf(),
            self.is_directory_at(first, chain),
            self.goes_on_to(chain, j, k),
            is_live(self.record_of(chain, j, k)),
        ensures
            exists|i: int|
                0 <= i < self.all_entries(chain).len() && tells(
                    #[trigger] self.all_entries(chain)[i],
                    self.record_of(chain, j, k),
                ),
            self.entries(first) == Ok::<Seq<Slot>, FatError>(visible(self.all_entries(chain))),
    {
        let (st, at) = self.lemma_live_record(chain, j, k);
        lemma_tells(chain[j], k, st, self.record_of(chain, j, k));
        self.lemma_directory(first, chain);
    }

    /// Nothing else is listed: each entry is that of a record in use.
    pub proof fn law_every_entry_is_a_record(self, first: u32, chain: Seq<u32>, i: int)
        requires
            self.wf(),
            self.is_directory_at(first, chain),
            0 <= i < self.all_entries(chain).len(),
        ensures
            exists|j: int, k: int|
                self.goes_on_to(chain, j, k) && is_live(#[trigger] self.record_of(chain, j, k)) && tells(
                    self.all_entries(chain)[i],
                    self.record_of(chain, j, k),
                ),
    {
        self.lemma_list_records(chain, 0, no_long_name(), Seq::empty());
        let s = self.all_entries(chain);
        assert(self.are_records(chain, s));
        let (j, k) = choose|j: int, k: int|
            self.goes_on_to(chain, j, k) && is_live(#[trigger] self.record_of(chain, j, k)) && tells(
                s[i],
                self.record_of(chain, j, k),
            );
        assert(is_live(self.record_of(chain, j, k)));
    }

    spec fn are_records(self, chain: Seq<u32>, found: Seq<Slot>) -> bool {
        forall|i: int|
            0 <= i < found.len() ==> exists|j: int, k: int|
                self.goes_on_to(chain, j, k) && is_live(#[trigger] self.record_of(chain, j, k)) && tells(
                    #[trigger] found[i],
                    self.record_of(chain, j, k),
                )
    }

    spec fn goes_on(self, chain: Seq<u32>, j: int, k: int) -> bool {
        forall|a: int, b: int|
            0 <= a < chain.len() && 0 <= b < 16 * self.g.sectors_per_cluster && (a < j || (a == j && b
                < k)) ==> (#[trigger] self.record_of(chain, a, b))[0] != 0
    }

    proof fn lemma_cluster_records(
        self,
        chain: Seq<u32>,
        j: int,
        k: int,
        st: LongName,
        found: Seq<Slot>,
    )
        requires
            self.g.wf(),
            0 <= j < chain.len(),
            0 <= k <= self.records(),
            self.are_records(chain, found),
            self.goes_on(chain, j, k),
        ensures
            self.are_records(chain, self.scan_cluster(chain[j], k, st, found).1),
            !self.scan_cluster(chain[j], k, st, found).2 ==> self.goes_on(chain, j + 1, 0),
        decreases self.records() - k,
    {
        if k < self.records() {
            self.lemma_same_record(chain, j, k);
            let e = self.record(chain[j], k);
            if e[0] != 0 {
                let slot = slot_of(chain[j], k, st, e);
                let found2 = if is_entry(e) {
                    found.push(slot)
                } else {
                    found
                };
                if is_entry(e) {
                    lemma_tells(chain[j], k, st, e);
                    assert(self.goes_on_to(chain, j, k) && is_live(self.record_of(chain, j, k)) && tells(
                        slot,
                        self.record_of(chain, j, k),
                    ));
                    assert forall|i: int| 0 <= i < found2.len() implies exists|j: int, k: int|
                        self.goes_on_to(chain, j, k) && is_live(#[trigger] self.record_of(chain, j, k))
                            && tells(#[trigger] found2[i], self.record_of(chain, j, k)) by {
                        if i < found.len() {
                            assert(found2[i] == found[i]);
                        }
                    }
                }
                self.lemma_cluster_records(chain, j, k + 1, after_record(st, e), found2);
            }
        }
    }

    proof fn lemma_list_records(self, chain: Seq<u32>, j: int, st: LongName, found: Seq<Slot>)
        requires
            self.g.wf(),
            0 <= j <= chain.len(),
            self.are_records(chain, found),
            self.goes_on(chain, j, 0),
        ensures
            self.are_records(chain, self.scan_list(chain, j, st, found)),
        decreases chain.len() - j,
    {
        if j < chain.len() {
            self.lemma_cluster_records(chain, j, 0, st, found);
            let r = self.scan_cluster(chain[j], 0, st, found);
            if !r.2 {
                self.lemma_list_records(chain, j + 1, r.0, r.1);
            }
        }
    }
}

proof fn lemma_tells(c: u32, k: int, st: LongName, e: Seq<u8>)
    requires
        e.len() == 32,
    ensures
        tells(slot_of(c, k, st, e), e),
{
    assert(e.subrange(0, 11) =~= e.take(11));
}

proof fn lemma_no_dots(base: Seq<char>, ext: Seq<char>)
    requires
        is_short(base, ext),
    ensures
        capitals(dotted(base, ext)) != seq!['.'],
        capitals(dotted(base, ext)) != seq!['.', '.'],
{
    assert(super::short::is_allowed(base[0]));
    super::short::lemma_allowed(base[0]);
    assert(capitals(dotted(base, ext))[0] != '.');
}

proof fn lemma_visible_has(s: Seq<Slot>, at: int) -> (i: int)
    requires
        0 <= at < s.len(),
        s[at].name != seq!['.'],
        s[at].name != seq!['.', '.'],
    ensures
        0 <= i < visible(s).len(),
        visible(s)[i] == s[at],
    decreases s.len(),
{
    if at == s.len() - 1 {
        visible(s).len() - 1
    } else {
        lemma_visible_has(s.drop_last(), at)
    }
}

proof fn lemma_named(s: Seq<Slot>, i: int, name: Seq<char>)
    requires
        0 <= i < s.len(),
        same_name(s[i].name, name),
    ensures
        first_named(s, name) is Some,
    decreases s.len(),
{
    if i < s.len() - 1 {
        lemma_named(s.drop_last(), i, name);
    }
}

/// What is found under a name is the first entry with that name, up to the case of
/// letters: no entry before it has it. Nothing is found where no entry has it.
pub proof fn law_first_with_the_name_is_found(s: Seq<Slot>, name: Seq<char>)
    ensures
        match first_named(s, name) {
            Some(x) => exists|i: int|
                0 <= i < s.len() && #[trigger] s[i] == x && same_name(x.name, name) && forall|k: int|
                    0 <= k < i ==> !same_name((#[trigger] s[k]).name, name),
            None => forall|k: int| 0 <= k < s.len() ==> !same_name((#[trigger] s[k]).name, name),
        },
    decreases s.len(),
{
    if s.len() > 0 {
        let t = s.drop_last();
        law_first_with_the_name_is_found(t, name);
        match first_named(t, name) {
            Some(x) => {
                let i = choose|i: int|
                    0 <= i < t.len() && #[trigger] t[i] == x && same_name(x.name, name) && forall|
                        k: int,
                    |
                        0 <= k < i ==> !same_name((#[trigger] t[k]).name, name);
                assert(s[i] == x);
                assert forall|k: int| 0 <= k < i implies !same_name((#[trigger] s[k]).name, name) by {
                    assert(t[k] == s[k]);
                }
            },
            None => {
                assert forall|k: int| 0 <= k < s.len() - 1 implies !same_name(
                    (#[trigger] s[k]).name,
                    name,
                ) by {
                    assert(t[k] == s[k]);
                }
                if same_name(s.last().name, name) {
                    assert(s[s.len() - 1] == s.last());
                }
            },
        }
    }
}

/// A listing leaves out `.` and `..` and nothing else, and keeps the order.
pub proof fn law_only_dots_are_left_out(s: Seq<Slot>)
    ensures
        visible(s) == s.filter(|x: Slot| x.name != seq!['.'] && x.name != seq!['.', '.']),
    decreases s.len(),
{
    reveal(Seq::filter);
    if s.len() > 0 {
        law_only_dots_are_left_out(s.drop_last());
    }
}

} // verus!
