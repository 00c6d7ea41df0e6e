//! Facts about walks along paths and about listings of directories.

use vstd::prelude::*;
use crate::bytes::{le16, le16_bytes, le32, le32_bytes, lemma_le_round_trip};
use crate::text::{
    ascii_lower, last_index, lemma_last_index, same_name, split, trim, trim_back, trim_front,
};
use super::FatError;
use super::directory::{
    after_record, first_named, is_entry, no_long_name, record_first, slot_of, visible, LongName,
    Node, Slot,
};
use super::files::{is_here, is_up};
use super::model::{Volume, MAX_CHAIN_STEPS};
use super::update::with_meta;

verus! {

/// The components of the directory part of a path.
pub open spec fn parent_components(path: Seq<char>) -> Seq<Seq<char>> {
    let clean = trim(path, '/');
    let at = last_index(clean, '/');
    if at <= 0 {
        Seq::empty()
    } else {
        split(trim(clean.take(at), '/'), '/')
    }
}

/// The last component of a path.
pub open spec fn base_name(path: Seq<char>) -> Seq<char> {
    let clean = trim(path, '/');
    clean.skip(last_index(clean, '/') + 1)
}

proof fn lemma_split_last(s: Seq<char>, c: char)
    ensures
        last_index(s, c) < 0 ==> split(s, c) == seq![s],
        last_index(s, c) >= 0 ==> split(s, c) == split(s.take(last_index(s, c)), c).push(
            s.skip(last_index(s, c) + 1),
        ),
    decreases s.len(),
{
    let at = last_index(s, c);
    lemma_last_index(s, c);
    if s.len() == 0 {
        assert(s =~= Seq::<char>::empty());
    } else if s.last() == c {
        assert(s.take(at) =~= s.drop_last());
        assert(s.skip(at + 1) =~= Seq::<char>::empty());
    } else {
        let t = s.drop_last();
        lemma_split_last(t, c);
        lemma_last_index(t, c);
        assert(t.push(s.last()) =~= s);
        if at < 0 {
            assert(split(s, c) =~= seq![s]);
        } else {
            assert(s.take(at) =~= t.take(at));
            assert(s.skip(at + 1) =~= t.skip(at + 1).push(s.last()));
            assert(split(s, c) =~= split(s.take(at), c).push(s.skip(at + 1)));
        }
    }
}

proof fn lemma_trim_back(s: Seq<char>, c: char)
    ensures
        trim_back(s, c).is_prefix_of(s),
        trim_back(s, c).len() > 0 ==> trim_back(s, c).last() != c,
    decreases s.len(),
{
    if s.len() > 0 && s.last() == c {
        lemma_trim_back(s.drop_last(), c);
    }
}

proof fn lemma_trim_front(s: Seq<char>, c: char)
    ensures
        trim_front(s, c).len() > 0 ==> trim_front(s, c)[0] != c,
    decreases s.len(),
{
    if s.len() > 0 && s[0] == c {
        lemma_trim_front(s.skip(1), c);
    }
}

impl Volume {
    /// One step of a walk: to the entry called `name` of a directory.
    pub open spec fn step(self, node: Node, name: Seq<char>) -> Result<Node, FatError> {
        if !node.is_dir {
            Err(FatError::NotDirectory)
        } else {
            match self.entries(node.first) {
                Err(e) => Err(e),
                Ok(s) => match first_named(s, name) {
                    None => Err(FatError::NotFound),
                    Some(slot) => Ok(slot.node()),
                },
            }
        }
    }

    proof fn lemma_walk_push(self, path: Seq<Seq<char>>, i: int, node: Node, name: Seq<char>)
        requires
            0 <= i <= path.len(),
        ensures
            self.walk(path.push(name), i, node) == match self.walk(path, i, node) {
                Err(e) => Err(e),
                Ok(n) => if is_here(name) {
                    Ok(n)
                } else if is_up(name) {
                    Err(FatError::NotFound)
                } else {
                    self.step(n, name)
                },
            },
        decreases path.len() - i,
    {
        let long = path.push(name);
        if i < path.len() {
            assert(long[i] == path[i]);
            if is_here(path[i]) {
                self.lemma_walk_push(path, i + 1, node, name);
            } else if !is_up(path[i]) && node.is_dir {
                if let Ok(s) = self.entries(node.first) {
                    if let Some(slot) = first_named(s, path[i]) {
                        self.lemma_walk_push(path, i + 1, slot.node(), name);
                    }
                }
            }
        } else {
            assert(long[i] == name);
            reveal_with_fuel(Volume::walk, 3);
        }
    }

    /// Slashes at the end of a path lead nowhere.
    proof fn lemma_walk_trim_back(self, s: Seq<char>, node: Node)
        ensures
            self.walk(split(trim_back(s, '/'), '/'), 0, node) == self.walk(split(s, '/'), 0, node),
        decreases s.len(),
    {
        if s.len() > 0 && s.last() == '/' {
            let t = s.drop_last();
            self.lemma_walk_trim_back(t, node);
            self.lemma_walk_push(split(t, '/'), 0, node, Seq::empty());
        }
    }

    /// Resolving a path is resolving its directory part and then a step to its
    /// last component.
    pub proof fn lemma_resolve(self, path: Seq<char>)
        requires
            base_name(path).len() > 0,
            base_name(path) != seq!['.'],
            !is_up(base_name(path)),
        ensures
            self.resolve(path) == match self.walk(parent_components(path), 0, self.root()) {
                Err(e) => Err(e),
                Ok(node) => self.step(node, base_name(path)),
            },
    {
        let clean = trim(path, '/');
        let at = last_index(clean, '/');
        let name = base_name(path);
        lemma_trim_front(path, '/');
        lemma_trim_back(trim_front(path, '/'), '/');
        lemma_last_index(clean, '/');
        lemma_split_last(clean, '/');
        if at < 0 {
            assert(clean.skip(0) =~= clean);
            assert(seq![name] =~= Seq::<Seq<char>>::empty().push(name));
            self.lemma_walk_push(Seq::empty(), 0, self.root(), name);
        } else {
            let prefix = clean.take(at);
            assert(at > 0);
            assert(prefix[0] == clean[0]);
            assert(trim_front(prefix, '/') == prefix);
            self.lemma_walk_trim_back(prefix, self.root());
            self.lemma_walk_push(split(prefix, '/'), 0, self.root(), name);
        }
    }

    /// What locating a path says of its resolution.
    pub proof fn lemma_locate(self, path: Seq<char>)
        ensures
            self.locate(path) matches Ok((dir, name)) ==> {
                &&& name == base_name(path)
                &&& name.len() > 0
                &&& name != seq!['.']
                &&& !is_up(name)
                &&& self.walk(parent_components(path), 0, self.root()) matches Ok(node)
                &&& node.is_dir
                &&& node.first == dir
            },
    {
        reveal(Volume::locate);
    }

    /// The entries of the directory made of the given clusters, from cluster
    /// `i` on, after those in `found`.
    pub open spec fn scan_list(
        self,
        chain: Seq<u32>,
        i: int,
        st: LongName,
        found: Seq<Slot>,
    ) -> Seq<Slot>
        decreases chain.len() - i,
    {
        if i >= chain.len() {
            found
        } else {
            let (st2, found2, ended) = self.scan_cluster(chain[i], 0, st, found);
            if ended {
                found2
            } else {
                self.scan_list(chain, i + 1, st2, found2)
            }
        }
    }

    /// All entries of the directory made of the given clusters.
    pub open spec fn all_entries(self, chain: Seq<u32>) -> Seq<Slot> {
        self.scan_list(chain, 0, no_long_name(), Seq::empty())
    }

    pub proof fn lemma_scan_list(
        self,
        chain: Seq<u32>,
        i: int,
        limit: nat,
        st: LongName,
        found: Seq<Slot>,
    )
        requires
            self.linked(chain),
            0 <= i <= chain.len(),
            chain.len() - i <= limit,
        ensures
            self.scan(
                if i < chain.len() {
                    Some(chain[i])
                } else {
                    None
                },
                limit,
                st,
                found,
            ) == (self.scan_list(chain, i, st, found), None::<FatError>),
        decreases chain.len() - i,
    {
        if i < chain.len() {
            self.lemma_linked_used(chain, i);
            let (st2, found2, ended) = self.scan_cluster(chain[i], 0, st, found);
            assert(self.next(chain[i]) is Ok);
            if !ended {
                self.lemma_scan_list(chain, i + 1, (limit - 1) as nat, st2, found2);
            }
        }
    }

    /// Whether a directory's chain is sound and short enough to be walked.
    pub open spec fn is_directory_at(self, first: u32, chain: Seq<u32>) -> bool {
        &&& 0 < chain.len() <= MAX_CHAIN_STEPS
        &&& chain[0] == first
        &&& self.linked(chain)
    }

    /// Listing and searching a sound directory see the same entries.
    pub proof fn lemma_directory(self, first: u32, chain: Seq<u32>)
        requires
            self.is_directory_at(first, chain),
        ensures
            self.entries(first) == Ok::<Seq<Slot>, FatError>(visible(self.all_entries(chain))),
            forall|name: Seq<char>| #[trigger]
                self.find_named(first, name) == Ok::<Option<Slot>, FatError>(
                    first_named(self.all_entries(chain), name),
                ),
            forall|raw: Seq<u8>| #[trigger]
                self.has_short(first, raw) == Ok::<bool, FatError>(
                    super::directory::first_short(self.all_entries(chain), raw) is Some,
                ),
    {
        reveal(Volume::find_named);
        self.law_chain_distinct(chain);
        self.lemma_scan_list(chain, 0, MAX_CHAIN_STEPS as nat, no_long_name(), Seq::empty());
        self.lemma_scan_list(
            chain,
            0,
            self.g.cluster_count as nat,
            no_long_name(),
            Seq::empty(),
        );
    }
}

proof fn lemma_dot_same(a: Seq<char>, b: Seq<char>)
    requires
        a == seq!['.'] || a == seq!['.', '.'],
        same_name(a, b),
    ensures
        a == b,
{
    assert forall|i: int| 0 <= i < a.len() implies a[i] == b[i] by {
        assert(ascii_lower(a[i]) == ascii_lower(b[i]));
        crate::text::lemma_char_range(b[i]);
    }
    assert(a =~= b);
}

/// Hiding `.` and `..` hides no other name.
pub proof fn lemma_visible_named(s: Seq<Slot>, name: Seq<char>)
    requires
        name != seq!['.'],
        name != seq!['.', '.'],
    ensures
        first_named(visible(s), name) == first_named(s, name),
    decreases s.len(),
{
    if s.len() > 0 {
        lemma_visible_named(s.drop_last(), name);
        let last = s.last();
        if last.name == seq!['.'] || last.name == seq!['.', '.'] {
            if same_name(last.name, name) {
                lemma_dot_same(last.name, name);
            }
        } else {
            assert(visible(s).drop_last() =~= visible(s.drop_last()));
        }
    }
}

/// What a record with other metadata still says, and what it says anew.
pub proof fn lemma_with_meta(e: Seq<u8>, first: u32, size: u32)
    requires
        e.len() == 32,
    ensures
        with_meta(e, first, size).len() == 32,
        with_meta(e, first, size)[0] == e[0],
        with_meta(e, first, size)[11] == e[11],
        with_meta(e, first, size).subrange(0, 11) == e.subrange(0, 11),
        le32(with_meta(e, first, size), 28) == size,
        record_first(with_meta(e, first, size)) == first,
{
    let m = with_meta(e, first, size);
    let high = le16_bytes((first / 0x1_0000) as u16);
    let low = le16_bytes((first % 0x1_0000) as u16);
    let length = le32_bytes(size);
    lemma_le_round_trip((first / 0x1_0000) as u16, size);
    lemma_le_round_trip((first % 0x1_0000) as u16, size);
    assert(m.subrange(0, 11) =~= e.subrange(0, 11));
    assert(m[20] == high[0] && m[21] == high[1]);
    assert(m[26] == low[0] && m[27] == low[1]);
    assert(m[28] == length[0] && m[29] == length[1] && m[30] == length[2] && m[31] == length[3]);
    assert(le32(m, 28) == le32(length, 0));
    assert(le16(m, 20) == le16(high, 0));
    assert(le16(m, 26) == le16(low, 0));
}

/// An entry after the metadata of entry `t` were replaced.
pub open spec fn moved(slot: Slot, t: Slot, first: u32, size: u32) -> Slot {
    if slot.cluster == t.cluster && slot.offset == t.offset {
        Slot { first, size, ..slot }
    } else {
        slot
    }
}

pub open spec fn all_moved(s: Seq<Slot>, t: Slot, first: u32, size: u32) -> Seq<Slot> {
    Seq::new(s.len(), |i: int| moved(s[i], t, first, size))
}

pub proof fn lemma_moved_named(s: Seq<Slot>, t: Slot, first: u32, size: u32, name: Seq<char>)
    ensures
        first_named(all_moved(s, t, first, size), name) == match first_named(s, name) {
            Some(slot) => Some(moved(slot, t, first, size)),
            None => None,
        },
    decreases s.len(),
{
    let m = all_moved(s, t, first, size);
    if s.len() > 0 {
        lemma_moved_named(s.drop_last(), t, first, size, name);
        assert(m.drop_last() =~= all_moved(s.drop_last(), t, first, size));
    }
}

impl Volume {
    /// Whether `w` is this volume with other metadata in the record of entry
    /// `t`, as far as the given clusters go.
    pub open spec fn remeta(
        self,
        w: Volume,
        chain: Seq<u32>,
        t: Slot,
        first: u32,
        size: u32,
    ) -> bool {
        &&& w.g == self.g
        &&& forall|i: int, k: int|
            #![trigger chain[i], self.record(chain[i], k)]
            #![trigger chain[i], w.record(chain[i], k)]
            0 <= i < chain.len() && 0 <= k < self.records() ==> w.record(chain[i], k) == (if chain[i]
                == t.cluster && 32 * k == t.offset {
                with_meta(self.record(chain[i], k), first, size)
            } else {
                self.record(chain[i], k)
            })
    }

    /// Whether the record of entry `t` is that of an entry.
    pub open spec fn is_entry_at(self, t: Slot) -> bool {
        let e = self.record(t.cluster, t.offset / 32);
        t.offset % 32 == 0 && e[0] != 0 && is_entry(e)
    }

    proof fn lemma_scan_cluster_moved(
        self,
        w: Volume,
        chain: Seq<u32>,
        i: int,
        k: int,
        st: LongName,
        found: Seq<Slot>,
        t: Slot,
        first: u32,
        size: u32,
    )
        requires
            self.g.wf(),
            self.remeta(w, chain, t, first, size),
            self.is_entry_at(t),
            0 <= i < chain.len(),
            0 <= k,
        ensures
            ({
                let (st2, found2, ended) = self.scan_cluster(chain[i], k, st, found);
                w.scan_cluster(chain[i], k, st, all_moved(found, t, first, size)) == (
                    st2,
                    all_moved(found2, t, first, size),
                    ended,
                )
            }),
        decreases self.records() - k,
    {
        let c = chain[i];
        if k < self.records() {
            let e = self.record(c, k);
            let f = w.record(c, k);
            let here = c == t.cluster && 32 * k == t.offset;
            assert(f == if here {
                with_meta(e, first, size)
            } else {
                e
            });
            assert(e.len() == 32);
            lemma_with_meta(e, first, size);
            if e[0] != 0 {
                let found2 = if is_entry(e) {
                    found.push(slot_of(c, k, st, e))
                } else {
                    found
                };
                if is_entry(e) {
                    assert(slot_of(c, k, st, f) == moved(slot_of(c, k, st, e), t, first, size));
                    assert(all_moved(found2, t, first, size) =~= all_moved(
                        found,
                        t,
                        first,
                        size,
                    ).push(slot_of(c, k, st, f)));
                }
                if here {
                    assert(t.offset / 32 == k);
                }
                assert(after_record(st, f) == after_record(st, e));
                self.lemma_scan_cluster_moved(
                    w,
                    chain,
                    i,
                    k + 1,
                    after_record(st, e),
                    found2,
                    t,
                    first,
                    size,
                );
            }
        }
    }

    proof fn lemma_scan_list_moved(
        self,
        w: Volume,
        chain: Seq<u32>,
        i: int,
        st: LongName,
        found: Seq<Slot>,
        t: Slot,
        first: u32,
        size: u32,
    )
        requires
            self.g.wf(),
            self.remeta(w, chain, t, first, size),
            self.is_entry_at(t),
            0 <= i <= chain.len(),
        ensures
            w.scan_list(chain, i, st, all_moved(found, t, first, size)) == all_moved(
                self.scan_list(chain, i, st, found),
                t,
                first,
                size,
            ),
        decreases chain.len() - i,
    {
        if i < chain.len() {
            self.lemma_scan_cluster_moved(w, chain, i, 0, st, found, t, first, size);
            let (st2, found2, ended) = self.scan_cluster(chain[i], 0, st, found);
            if !ended {
                self.lemma_scan_list_moved(w, chain, i + 1, st2, found2, t, first, size);
            }
        }
    }

    /// Other metadata in one record change that entry of a listing and no other.
    pub proof fn lemma_all_entries_moved(
        self,
        w: Volume,
        chain: Seq<u32>,
        t: Slot,
        first: u32,
        size: u32,
    )
        requires
            self.g.wf(),
            self.remeta(w, chain, t, first, size),
            self.is_entry_at(t),
        ensures
            w.all_entries(chain) == all_moved(self.all_entries(chain), t, first, size),
    {
        let none = Seq::<Slot>::empty();
        assert(all_moved(none, t, first, size) =~= none);
        self.lemma_scan_list_moved(w, chain, 0, no_long_name(), none, t, first, size);
    }

    /// Whether every entry in `s` stands where it says, in one of the clusters.
    pub open spec fn all_stand(self, chain: Seq<u32>, s: Seq<Slot>) -> bool {
        forall|i: int|
            0 <= i < s.len() ==> self.is_entry_at(#[trigger] s[i]) && chain.contains(s[i].cluster)
                && 0 <= s[i].offset && s[i].offset + 32 <= self.g.cluster_size() && self.is_told(s[i])
    }

    /// Whether an entry says of its file what its record says.
    pub open spec fn is_told(self, t: Slot) -> bool {
        let e = self.record(t.cluster, t.offset / 32);
        t.is_dir == (e[11] / 16 % 2 == 1) && t.size == le32(e, 28) && t.first == record_first(e)
            && t.raw == e.subrange(0, 11)
    }

    pub proof fn lemma_named_fields(self, chain: Seq<u32>, name: Seq<char>)
        ensures
            first_named(self.all_entries(chain), name) matches Some(t) ==> self.is_told(t),
    {
        self.lemma_scan_list_stand(chain, 0, no_long_name(), Seq::empty());
        lemma_first_named_stands(self, chain, self.all_entries(chain), name);
    }

    proof fn lemma_scan_cluster_stand(
        self,
        chain: Seq<u32>,
        i: int,
        k: int,
        st: LongName,
        found: Seq<Slot>,
    )
        requires
            0 <= i < chain.len(),
            0 <= k,
            self.all_stand(chain, found),
        ensures
            self.all_stand(chain, self.scan_cluster(chain[i], k, st, found).1),
        decreases self.records() - k,
    {
        if k < self.records() {
            let e = self.record(chain[i], k);
            if e[0] != 0 {
                let found2 = if is_entry(e) {
                    found.push(slot_of(chain[i], k, st, e))
                } else {
                    found
                };
                assert(32 * k / 32 == k);
                self.lemma_scan_cluster_stand(chain, i, k + 1, after_record(st, e), found2);
            }
        }
    }

    proof fn lemma_scan_list_stand(self, chain: Seq<u32>, i: int, st: LongName, found: Seq<Slot>)
        requires
            0 <= i <= chain.len(),
            self.all_stand(chain, found),
        ensures
            self.all_stand(chain, self.scan_list(chain, i, st, found)),
        decreases chain.len() - i,
    {
        if i < chain.len() {
            self.lemma_scan_cluster_stand(chain, i, 0, st, found);
            let (st2, found2, ended) = self.scan_cluster(chain[i], 0, st, found);
            if !ended {
                self.lemma_scan_list_stand(chain, i + 1, st2, found2);
            }
        }
    }

    /// An entry that a search finds stands where it says.
    pub proof fn lemma_named_stands(self, chain: Seq<u32>, name: Seq<char>)
        ensures
            self.all_stand(chain, self.all_entries(chain)),
            first_named(self.all_entries(chain), name) matches Some(t) ==> self.is_entry_at(t)
                && chain.contains(t.cluster) && 0 <= t.offset && t.offset + 32
                <= self.g.cluster_size(),
    {
        self.lemma_scan_list_stand(chain, 0, no_long_name(), Seq::empty());
        lemma_first_named_stands(self, chain, self.all_entries(chain), name);
    }

    /// Whether the directories on the way along a path are sound and share no
    /// cluster with `apart`.
    pub open spec fn sound_way(
        self,
        path: Seq<Seq<char>>,
        i: int,
        node: Node,
        apart: Seq<u32>,
    ) -> bool
        decreases path.len() - i,
    {
        if i >= path.len() {
            true
        } else if is_here(path[i]) {
            self.sound_way(path, i + 1, node, apart)
        } else {
            &&& self.sound_dir(node.first, apart)
            &&& match self.step(node, path[i]) {
                Ok(next) => self.sound_way(path, i + 1, next, apart),
                Err(_) => true,
            }
        }
    }

    /// Whether a directory is sound and shares no cluster with `apart`.
    pub open spec fn sound_dir(self, first: u32, apart: Seq<u32>) -> bool {
        match self.chain(first) {
            Ok(chain) => self.is_directory_at(first, chain) && forall|i: int|
                0 <= i < chain.len() ==> !apart.contains(#[trigger] chain[i]),
            Err(_) => false,
        }
    }

    pub proof fn lemma_walk_file(self, path: Seq<Seq<char>>, i: int, node: Node)
        requires
            !node.is_dir,
        ensures
            self.walk(path, i, node) matches Ok(n) ==> n == node,
        decreases path.len() - i,
    {
        if i < path.len() && is_here(path[i]) {
            self.lemma_walk_file(path, i + 1, node);
        }
    }
}

proof fn lemma_first_named_stands(v: Volume, chain: Seq<u32>, s: Seq<Slot>, name: Seq<char>)
    requires
        v.all_stand(chain, s),
    ensures
        first_named(s, name) matches Some(t) ==> v.is_entry_at(t) && chain.contains(t.cluster) && 0
            <= t.offset && t.offset + 32 <= v.g.cluster_size() && v.is_told(t),
    decreases s.len(),
{
    if s.len() > 0 {
        lemma_first_named_stands(v, chain, s.drop_last(), name);
    }
}

} // verus!
