//! What holds of a file or a directory that has just been created.

use vstd::prelude::*;
use crate::bytes::{spliced, zeros};
use crate::text::{split, trim_back, trim_front};
use super::directory::{after_record, first_named, no_long_name, slot_of, visible, Node, Slot};
use super::files::is_here;
use super::laws::is_small;
use super::model::{Volume, END_OF_CHAIN, MAX_CHAIN_STEPS};
use super::names::{before_space, short_text};
use super::naming::{is_plain_name, lemma_new_record};
use super::reading::lemma_child_parts;
use super::update::{dot_dot_name, dot_name, new_record};
use super::walks::{lemma_visible_named, parent_components};
use super::FatError;

verus! {

/// A name among entries with one more.
pub proof fn lemma_named_push(s: Seq<Slot>, slot: Slot, name: Seq<char>)
    ensures
        first_named(s.push(slot), name) == match first_named(s, name) {
            Some(t) => Some(t),
            None => if crate::text::same_name(slot.name, name) {
                Some(slot)
            } else {
                None
            },
        },
{
    assert(s.push(slot).drop_last() =~= s);
}

impl Volume {
    /// Searching a directory whose chain is sound.
    pub proof fn lemma_search(self, first: u32, chain: Seq<u32>, name: Seq<char>)
        requires
            self.linked(chain),
            chain.len() > 0,
            chain[0] == first,
        ensures
            self.find_named(first, name) == Ok::<Option<Slot>, FatError>(
                first_named(self.all_entries(chain), name),
            ),
    {
        reveal(Volume::find_named);
        self.law_chain_distinct(chain);
        self.lemma_scan_list(
            chain,
            0,
            self.g.cluster_count as nat,
            no_long_name(),
            Seq::empty(),
        );
    }

    /// Entries are a matter of the contents of a directory's clusters.
    pub proof fn lemma_same_entries(self, w: Volume, chain: Seq<u32>)
        requires
            w.g == self.g,
            forall|i: int|
                0 <= i < chain.len() ==> w.data(#[trigger] chain[i]) == self.data(chain[i]),
        ensures
            w.all_entries(chain) == self.all_entries(chain),
    {
        let none = Seq::<Slot>::empty();
        assert(chain.skip(0) =~= chain);
        self.lemma_through(chain, 0, no_long_name(), none);
        w.lemma_through(chain, 0, no_long_name(), none);
        self.lemma_through_same(w, chain, no_long_name(), none);
    }

    /// A directory apart from what was touched is as it was.
    pub proof fn lemma_outside_dir(self, w: Volume, touched: Seq<u32>, first: u32)
        requires
            self.sound_dir(first, touched),
            self.same_outside(w, touched),
        ensures
            w.sound_dir(first, touched),
            w.chain(first) == self.chain(first),
            w.entries(first) == self.entries(first),
            w.is_directory_at(first, w.chain(first)->Ok_0),
            w.all_entries(w.chain(first)->Ok_0) == self.all_entries(self.chain(first)->Ok_0),
    {
        let chain = self.chain(first)->Ok_0;
        self.law_chain_distinct(chain);
        assert forall|i: int| 0 <= i < chain.len() implies w.fat(#[trigger] chain[i]) == self.fat(
            chain[i],
        ) && w.data(chain[i]) == self.data(chain[i]) by {
            assert(self.g.is_cluster(chain[i]));
            assert(!touched.contains(chain[i]));
        }
        self.lemma_linked_frame(w, chain);
        self.lemma_same_entries(w, chain);
        self.lemma_directory(first, chain);
        w.lemma_directory(first, chain);
        w.lemma_linked_chain(chain, self.g.cluster_count as nat);
        assert(self.g.is_cluster(chain[0]));
        assert(w.chain(first) == Ok::<Seq<u32>, FatError>(chain));
    }

    /// A walk through directories apart from what was touched leads where it led.
    pub proof fn lemma_outside_walk(
        self,
        w: Volume,
        touched: Seq<u32>,
        path: Seq<Seq<char>>,
        i: int,
        node: Node,
    )
        requires
            0 <= i,
            self.sound_way(path, i, node, touched),
            self.same_outside(w, touched),
        ensures
            w.walk(path, i, node) == self.walk(path, i, node),
            w.sound_way(path, i, node, touched),
        decreases path.len() - i,
    {
        if i < path.len() {
            if is_here(path[i]) {
                self.lemma_outside_walk(w, touched, path, i + 1, node);
            } else {
                self.lemma_outside_dir(w, touched, node.first);
                assert(w.step(node, path[i]) == self.step(node, path[i]));
                if let Ok(next) = self.step(node, path[i]) {
                    self.lemma_outside_walk(w, touched, path, i + 1, next);
                }
            }
        }
    }

    /// Whether a path leads to a sound directory in which there is no such name, on a
    /// way that does not come through that directory.
    pub open spec fn is_missing_at(self, path: Seq<char>, dir: u32, chain: Seq<u32>, name: Seq<char>) -> bool {
        &&& self.locate(path) == Ok::<(u32, Seq<char>), FatError>((dir, name))
        &&& self.find_named(dir, name) == Ok::<Option<Slot>, FatError>(None)
        &&& self.is_directory_at(dir, chain)
        &&& self.sound_way(parent_components(path), 0, self.root(), chain)
    }

    /// A path with a new entry at its end leads to that entry.
    proof fn lemma_leads_to_new(
        self,
        w: Volume,
        path: Seq<char>,
        dir: u32,
        chain: Seq<u32>,
        all: Seq<u32>,
        touched: Seq<u32>,
        name: Seq<char>,
        is_dir: bool,
        first: u32,
    )
        requires
            self.wf(),
            self.is_missing_at(path, dir, chain, name),
            self.is_added(w, chain, all, name, is_dir, first),
            self.same_outside(w, touched),
            forall|i: int|
                0 <= i < touched.len() ==> chain.contains(#[trigger] touched[i]) || self.fat(
                    touched[i],
                ) == 0,
            all.len() <= MAX_CHAIN_STEPS,
        ensures
            w.resolve(path) == Ok::<Node, FatError>(Node { name, is_dir, size: 0, first }),
            w.locate(path) == self.locate(path),
    {
        let comps = parent_components(path);
        self.lemma_locate(path);
        self.lemma_way_apart(comps, 0, self.root(), chain, touched);
        self.lemma_outside_walk(w, touched, comps, 0, self.root());
        assert(w.root() == self.root());
        w.lemma_resolve(path);
        assert(all[0] == chain[0]);
        w.lemma_directory(dir, all);
        self.lemma_search(dir, chain, name);
        let slot = w.all_entries(all).last();
        assert(w.all_entries(all) =~= self.all_entries(chain).push(slot));
        lemma_named_push(self.all_entries(chain), slot, name);
        lemma_visible_named(w.all_entries(all), name);
        reveal(Volume::locate);
    }

    /// A file that is created where there was none is found: at its path, empty, and
    /// next to what was in its directory before, none of which has changed. All copies
    /// of the table stay the same. A directory that has grown past what a walk goes
    /// through is left out, and names with a unit that is also filler.
    pub proof fn law_created_file_is_found(
        self,
        path: Seq<char>,
        dir: u32,
        chain: Seq<u32>,
        name: Seq<char>,
    ) -> (all: Seq<u32>)
        requires
            self.wf(),
            is_small(self.g),
            self.is_missing_at(path, dir, chain, name),
            is_plain_name(name),
            self.create_file(path).1 is Ok,
        ensures
            ({
                let w = self.create_file(path).0;
                &&& self.is_added(w, chain, all, name, false, 0)
                &&& forall|i: int| chain.len() <= i < all.len() ==> self.fat(#[trigger] all[i]) == 0
                &&& self.same_outside(w, all)
                &&& self.is_mirrored() ==> w.is_mirrored()
                &&& all.len() <= MAX_CHAIN_STEPS ==> w.resolve(path) == Ok::<Node, FatError>(
                    Node { name, is_dir: false, size: 0, first: 0 },
                )
            }),
    {
        let all = self.law_added_entry_is_found(dir, chain, name, 0x20, 0);
        let w = self.create_file(path).0;
        assert forall|i: int| 0 <= i < all.len() implies chain.contains(#[trigger] all[i])
            || self.fat(all[i]) == 0 by {
            if i < chain.len() {
                assert(all[i] == chain[i]);
            }
        }
        if all.len() <= MAX_CHAIN_STEPS {
            self.lemma_leads_to_new(w, path, dir, chain, all, all, name, false, 0);
        }
        all
    }
}

/// The names of the first two records of a directory.
proof fn lemma_dot_names()
    ensures
        short_text(dot_name()) == seq!['.'],
        short_text(dot_dot_name()) == seq!['.', '.'],
{
    let d = dot_name().subrange(0, 8);
    let dd = dot_dot_name().subrange(0, 8);
    assert(0x2eu8 as char == '.');
    assert(before_space(d.skip(1)) =~= Seq::<char>::empty());
    assert(before_space(d) =~= seq!['.']);
    assert(dd.skip(1).skip(1)[0] == 0x20);
    assert(before_space(dd.skip(1).skip(1)) =~= Seq::<char>::empty());
    assert(before_space(dd.skip(1)) =~= seq!['.']);
    assert(before_space(dd) =~= seq!['.', '.']);
    assert(before_space(dot_name().subrange(8, 11)) =~= Seq::<char>::empty());
    assert(before_space(dot_dot_name().subrange(8, 11)) =~= Seq::<char>::empty());
}

impl Volume {
    /// The first records of a directory, put into a cluster of zeros.
    pub proof fn lemma_put_dots(self, c: u32, parent: u32)
        requires
            self.wf(),
            self.g.is_cluster(c),
            self.data(c) == zeros(self.g.cluster_size() as nat),
        ensures
            ({
                let w = self.put_dots(c, parent);
                &&& w.wf()
                &&& w.g == self.g
                &&& self.keeps_tables(w)
                &&& w.record(c, 0) == new_record(dot_name(), 0x10, c)
                &&& w.record(c, 1) == new_record(dot_dot_name(), 0x10, parent)
                &&& w.record(c, 2)[0] == 0
                &&& forall|d: u32|
                    d < self.g.cluster_count + 2 ==> #[trigger] w.fat(d) == self.fat(d)
                &&& forall|d: u32|
                    self.g.is_cluster(d) && d != c ==> #[trigger] w.data(d) == self.data(d)
            }),
    {
        let one = new_record(dot_name(), 0x10, c);
        let two = new_record(dot_dot_name(), 0x10, parent);
        lemma_new_record(dot_name(), 0x10, c);
        lemma_new_record(dot_dot_name(), 0x10, parent);
        let v = self.put(c, 0, one);
        let w = v.put(c, 32, two);
        assert(self.g.cluster_size() == self.records() * 32);
        self.lemma_put(c, 0, one);
        self.lemma_put_tables(c, 0, one);
        v.lemma_put(c, 32, two);
        v.lemma_put_tables(c, 32, two);
        assert(w.data(c) == spliced(spliced(self.data(c), 0, one), 32, two));
        assert(w.record(c, 0) =~= one);
        assert(w.record(c, 1) =~= two);
        assert(w.record(c, 2)[0] == 0);
        assert forall|k: int, s: int|
            #![trigger self.g.fat_lba(k, s)]
            0 <= k < self.g.fat_count && 0 <= s < self.g.sectors_per_fat implies w.img[self.g.fat_lba(
            k,
            s,
        )] == self.img[self.g.fat_lba(k, s)] by {
            assert(v.img[v.g.fat_lba(k, s)] == self.img[self.g.fat_lba(k, s)]);
        }
        assert forall|d: u32| d < self.g.cluster_count + 2 implies #[trigger] w.fat(d) == self.fat(
            d,
        ) by {
            assert(v.fat(d) == self.fat(d));
        }
        assert forall|d: u32| self.g.is_cluster(d) && d != c implies #[trigger] w.data(d)
            == self.data(d) by {
            assert(v.data(d) == self.data(d));
        }
    }

    /// A directory with nothing but its first records lists as empty.
    proof fn lemma_only_dots(self, c: u32, parent: u32)
        requires
            self.g.is_cluster(c),
            self.g.sectors_per_cluster > 0,
            self.record(c, 0) == new_record(dot_name(), 0x10, c),
            self.record(c, 1) == new_record(dot_dot_name(), 0x10, parent),
            self.record(c, 2)[0] == 0,
        ensures
            self.entries(c) == Ok::<Seq<Slot>, FatError>(Seq::empty()),
    {
        lemma_new_record(dot_name(), 0x10, c);
        lemma_new_record(dot_dot_name(), 0x10, parent);
        lemma_dot_names();
        let st = no_long_name();
        let e0 = self.record(c, 0);
        let e1 = self.record(c, 1);
        let st1 = after_record(st, e0);
        let st2 = after_record(st1, e1);
        let s0 = slot_of(c, 0, st, e0);
        let s1 = slot_of(c, 1, st1, e1);
        let none = Seq::<Slot>::empty();
        let found = none.push(s0).push(s1);
        assert(self.scan_cluster(c, 2, st2, found) == (st2, found, true));
        assert(self.scan_cluster(c, 1, st1, none.push(s0)) == (st2, found, true));
        assert(self.scan_cluster(c, 0, st, none) == (st2, found, true));
        assert(self.directory(c, MAX_CHAIN_STEPS) == (found, None::<FatError>));
        assert(found.drop_last() =~= none.push(s0));
        assert(none.push(s0).drop_last() =~= none);
        assert(visible(none) =~= none);
        assert(visible(none.push(s0)) =~= none);
        assert(visible(found) =~= none);
    }

    /// A directory that is created where there was none is found: at its path, empty,
    /// and next to what was in its parent before, none of which has changed. All copies
    /// of the table stay the same.
    #[verifier::rlimit(40)]
    #[verifier::spinoff_prover]
    pub proof fn law_created_directory_is_found(
        self,
        path: Seq<char>,
        dir: u32,
        chain: Seq<u32>,
        name: Seq<char>,
    ) -> (r: (Seq<u32>, u32))
        requires
            self.wf(),
            is_small(self.g),
            self.is_missing_at(path, dir, chain, name),
            is_plain_name(name),
            self.create_dir(path).1 is Ok,
        ensures
            ({
                let w = self.create_dir(path).0;
                let (all, c) = r;
                &&& self.fat(c) == 0
                &&& self.is_added(w, chain, all, name, true, c)
                &&& self.same_outside(w, all.push(c))
                &&& self.is_mirrored() ==> w.is_mirrored()
                &&& self.g.is_cluster(c)
                &&& !all.contains(c)
                &&& forall|i: int| chain.len() <= i < all.len() ==> self.fat(#[trigger] all[i]) == 0
                &&& w.fat(c) == END_OF_CHAIN
                &&& w.record(c, 0) == new_record(dot_name(), 0x10, c)
                &&& w.record(c, 1) == new_record(dot_dot_name(), 0x10, dir)
                &&& w.entries(c) == Ok::<Seq<Slot>, FatError>(Seq::empty())
                &&& all.len() <= MAX_CHAIN_STEPS ==> w.resolve(path) == Ok::<Node, FatError>(
                    Node { name, is_dir: true, size: 0, first: c },
                )
                &&& all.len() <= MAX_CHAIN_STEPS ==> w.listing(path) == Ok::<Seq<Slot>, FatError>(
                    Seq::empty(),
                )
            }),
    {
        self.lemma_take_free();
        let v = self.take_free().0;
        let c = self.take_free().1->Ok_0;
        v.lemma_put_dots(c, dir);
        let u = v.put_dots(c, dir);
        let w = self.create_dir(path).0;
        assert(w == u.add_entry(dir, name, 0x10, c).0);
        self.law_chain_distinct(chain);
        assert forall|i: int| 0 <= i < chain.len() implies u.fat(#[trigger] chain[i]) == self.fat(
            chain[i],
        ) && u.data(chain[i]) == self.data(chain[i]) && chain[i] != c by {
            self.lemma_linked_used(chain, i);
            assert(self.g.is_cluster(chain[i]));
            assert(v.fat(chain[i]) == self.fat(chain[i]));
            assert(v.data(chain[i]) == self.data(chain[i]));
        }
        self.lemma_linked_frame(u, chain);
        self.lemma_same_entries(u, chain);
        let all = u.law_added_entry_is_found(dir, chain, name, 0x10, c);
        assert(u.fat(c) == END_OF_CHAIN);
        assert(!all.contains(c)) by {
            assert forall|i: int| 0 <= i < all.len() implies all[i] != c by {
                if i < chain.len() {
                    assert(all[i] == chain[i]);
                } else {
                    assert(u.fat(all[i]) == 0);
                }
            }
        }
        assert(self.is_added(w, chain, all, name, true, c));
        let touched = all.push(c);
        assert forall|i: int| chain.len() <= i < all.len() implies self.fat(#[trigger] all[i])
            == 0 by {
            assert(u.fat(all[i]) == 0);
            w.lemma_linked_used(all, i);
            assert(v.fat(all[i]) == self.fat(all[i]));
        }
        assert forall|i: int| 0 <= i < touched.len() implies chain.contains(#[trigger] touched[i])
            || self.fat(touched[i]) == 0 by {
            if i < chain.len() {
                assert(all[i] == chain[i]);
            } else if i < all.len() {
                assert(self.fat(all[i]) == 0);
            }
        }
        assert forall|d: u32| self.g.is_cluster(d) && !touched.contains(d) implies
            #[trigger] w.data(d) == self.data(d) && w.fat(d) == self.fat(d) by {
            assert(touched[all.len() as int] == c);
            if all.contains(d) {
                let i = choose|i: int| 0 <= i < all.len() && all[i] == d;
                assert(touched[i] == d);
            }
            assert(u.data(d) == v.data(d) && v.data(d) == self.data(d));
            assert(u.fat(d) == v.fat(d) && v.fat(d) == self.fat(d));
        }
        assert forall|d: u32| self.g.is_cluster(d) && !touched.contains(d) implies
            #[trigger] w.fat(d) == self.fat(d) by {
            assert(w.data(d) == self.data(d));
        }
        if self.is_mirrored() {
            self.lemma_take_free_mirrored();
            v.lemma_kept_mirrored(u);
        }
        assert(w.data(c) == u.data(c));
        assert(w.fat(c) == u.fat(c));
        assert(w.record(c, 0) == u.record(c, 0) && w.record(c, 1) == u.record(c, 1)
            && w.record(c, 2) == u.record(c, 2));
        w.lemma_only_dots(c, dir);
        if all.len() <= MAX_CHAIN_STEPS {
            self.lemma_leads_to_new(w, path, dir, chain, all, touched, name, true, c);
        }
        (all, c)
    }

    /// What a directory lists is the directory that an entry of it is looked for in.
    pub proof fn lemma_listed_in(self, d: Seq<char>, name: Seq<char>, dir: u32)
        requires
            name.len() > 0,
            forall|k: int| 0 <= k < name.len() ==> name[k] != '/',
            self.walk(parent_components(d.push('/') + name), 0, self.root()) matches Ok(node)
                && node.is_dir && node.first == dir,
        ensures
            self.listing(d) == self.entries(dir),
    {
        lemma_child_parts(d, name);
        reveal_with_fuel(Volume::walk, 3);
        reveal_with_fuel(split, 2);
        if trim_front(d, '/').len() == 0 {
            assert(trim_front(d, '/') =~= Seq::<char>::empty());
            assert(trim_back(trim_front(d, '/'), '/') =~= Seq::<char>::empty());
        }
    }

    /// What a directory lists before and after a change apart from the way to it.
    pub proof fn lemma_parent_listing(
        self,
        w: Volume,
        d: Seq<char>,
        name: Seq<char>,
        dir: u32,
        touched: Seq<u32>,
    )
        requires
            self.locate(d.push('/') + name) == Ok::<(u32, Seq<char>), FatError>((dir, name)),
            forall|k: int| 0 <= k < name.len() ==> name[k] != '/',
            self.sound_way(parent_components(d.push('/') + name), 0, self.root(), touched),
            self.same_outside(w, touched),
        ensures
            self.listing(d) == self.entries(dir),
            w.listing(d) == w.entries(dir),
    {
        let path = d.push('/') + name;
        self.lemma_locate(path);
        self.lemma_outside_walk(w, touched, parent_components(path), 0, self.root());
        assert(w.root() == self.root());
        self.lemma_listed_in(d, name, dir);
        w.lemma_listed_in(d, name, dir);
    }

    /// A directory that is created where there was none can be removed, and is then not
    /// found. Its parent has the entries it had, and what lies outside of it is as it was.
    pub proof fn law_create_dir_then_remove(
        self,
        path: Seq<char>,
        dir: u32,
        chain: Seq<u32>,
        name: Seq<char>,
    ) -> (r: (Seq<u32>, u32))
        requires
            self.wf(),
            is_small(self.g),
            self.is_missing_at(path, dir, chain, name),
            is_plain_name(name),
            self.create_dir(path).1 is Ok,
        ensures
            chain.is_prefix_of(r.0),
            forall|i: int| chain.len() <= i < r.0.len() ==> self.fat(#[trigger] r.0[i]) == 0,
            self.fat(r.1) == 0,
            r.0.len() <= MAX_CHAIN_STEPS ==> {
                let (all, c) = r;
                let w = self.create_dir(path).0;
                let u = w.remove(path).0;
                &&& w.remove(path).1 is Ok
                &&& u.resolve(path) == Err::<Node, FatError>(FatError::NotFound)
                &&& u.is_directory_at(dir, all)
                &&& u.all_entries(all) == self.all_entries(chain)
                &&& u.fat(c) == 0
                &&& self.same_outside(u, all.push(c))
            },
    {
        let (all, c) = self.law_created_directory_is_found(path, dir, chain, name);
        let w = self.create_dir(path).0;
        if all.len() <= MAX_CHAIN_STEPS {
            let comps = parent_components(path);
            let own = seq![c];
            let touched = all.push(c);
            let before = self.all_entries(chain);
            let after = w.all_entries(all);
            let slot = after.last();
            assert forall|i: int| 0 <= i < touched.len() implies chain.contains(#[trigger] touched[i])
                || self.fat(touched[i]) == 0 by {
                if i < chain.len() {
                    assert(all[i] == chain[i]);
                } else if i < all.len() {
                    assert(self.fat(all[i]) == 0);
                }
            }
            self.lemma_way_apart(comps, 0, self.root(), chain, touched);
            self.lemma_outside_walk(w, touched, comps, 0, self.root());
            self.lemma_leads_to_new(w, path, dir, chain, all, touched, name, true, c);
            assert(w.root() == self.root());
            assert(all + own =~= touched);
            assert(all[0] == chain[0]);
            w.lemma_search(dir, all, name);
            self.lemma_search(dir, chain, name);
            assert(after =~= before.push(slot));
            lemma_named_push(before, slot, name);
            assert(crate::text::same_name(name, name));
            w.law_chain_distinct(all);
            w.lemma_linked_chain(all, w.g.cluster_count as nat);
            assert(w.g.is_cluster(all[0]));
            assert(w.chain(dir) == Ok::<Seq<u32>, FatError>(all));
            assert(w.linked(own));
            w.lemma_linked_chain(own, w.g.cluster_count as nat);
            assert(w.chain(c) == Ok::<Seq<u32>, FatError>(own));
            assert(w.is_entry_of(path, dir, name, all, slot, own));
            let n = w.law_removed_is_gone(path, dir, name, all, slot, own);
            lemma_new_taken_out(before, slot, name, n);
            let u = w.remove(path).0;
            assert(own[0] == c);
            assert forall|d: u32| self.g.is_cluster(d) && !touched.contains(d) implies
                #[trigger] u.data(d) == self.data(d) by {
                assert(w.data(d) == self.data(d));
            }
            assert forall|d: u32| self.g.is_cluster(d) && !touched.contains(d) implies
                #[trigger] u.fat(d) == self.fat(d) by {
                assert(w.fat(d) == self.fat(d));
            }
        }
        (all, c)
    }

    /// A file that is created where there was none can be removed, and is then not found.
    /// Its directory has the entries it had, and what lies outside of it is as it was.
    /// A directory that has grown past what a walk goes through is left out, and names
    /// with a unit that is also filler.
    pub proof fn law_create_then_remove(
        self,
        path: Seq<char>,
        dir: u32,
        chain: Seq<u32>,
        name: Seq<char>,
    ) -> (all: Seq<u32>)
        requires
            self.wf(),
            is_small(self.g),
            self.is_missing_at(path, dir, chain, name),
            is_plain_name(name),
            self.create_file(path).1 is Ok,
        ensures
            chain.is_prefix_of(all),
            forall|i: int| chain.len() <= i < all.len() ==> self.fat(#[trigger] all[i]) == 0,
            all.len() <= MAX_CHAIN_STEPS ==> {
                let w = self.create_file(path).0;
                let u = w.remove(path).0;
                &&& w.remove(path).1 is Ok
                &&& u.resolve(path) == Err::<Node, FatError>(FatError::NotFound)
                &&& u.is_directory_at(dir, all)
                &&& u.all_entries(all) == self.all_entries(chain)
                &&& self.same_outside(u, all)
            },
    {
        let all = self.law_created_file_is_found(path, dir, chain, name);
        let w = self.create_file(path).0;
        if all.len() <= MAX_CHAIN_STEPS {
            let comps = parent_components(path);
            let none = Seq::<u32>::empty();
            let before = self.all_entries(chain);
            let after = w.all_entries(all);
            let slot = after.last();
            assert forall|i: int| 0 <= i < all.len() implies chain.contains(#[trigger] all[i])
                || self.fat(all[i]) == 0 by {
                if i < chain.len() {
                    assert(all[i] == chain[i]);
                }
            }
            self.lemma_leads_to_new(w, path, dir, chain, all, all, name, false, 0);
            self.lemma_way_apart(comps, 0, self.root(), chain, all);
            self.lemma_outside_walk(w, all, comps, 0, self.root());
            assert(w.root() == self.root());
            assert(all + none =~= all);
            assert(all[0] == chain[0]);
            w.lemma_search(dir, all, name);
            self.lemma_search(dir, chain, name);
            assert(after =~= before.push(slot));
            lemma_named_push(before, slot, name);
            assert(crate::text::same_name(name, name));
            w.law_chain_distinct(all);
            w.lemma_linked_chain(all, w.g.cluster_count as nat);
            assert(w.g.is_cluster(all[0]));
            assert(w.chain(dir) == Ok::<Seq<u32>, FatError>(all));
            assert(w.chain(0) == Ok::<Seq<u32>, FatError>(none));
            assert(w.is_entry_of(path, dir, name, all, slot, none));
            let n = w.law_removed_is_gone(path, dir, name, all, slot, none);
            lemma_new_taken_out(before, slot, name, n);
        }
        all
    }
}

/// Taking out the new entry of a directory gives what was there before.
proof fn lemma_new_taken_out(before: Seq<Slot>, slot: Slot, name: Seq<char>, n: int)
    requires
        first_named(before, name) is None,
        slot.name == name,
        0 <= n <= before.len(),
        before.push(slot)[n] == slot,
    ensures
        before.push(slot).remove(n) == before,
        forall|i: int|
            0 <= i <= before.len() && i != n ==> !crate::text::same_name(
                (#[trigger] before.push(slot)[i]).name,
                name,
            ),
{
    let after = before.push(slot);
    assert forall|i: int| 0 <= i < before.len() implies !crate::text::same_name(
        (#[trigger] before[i]).name,
        name,
    ) by {
        lemma_not_named(before, name, i);
    }
    assert(crate::text::same_name(name, name));
    if n < before.len() {
        assert(before[n] == after[n]);
    }
    assert(after.remove(n) =~= before);
    assert forall|i: int| 0 <= i <= before.len() && i != n implies !crate::text::same_name(
        (#[trigger] after[i]).name,
        name,
    ) by {
        assert(after[i] == before[i]);
    }
}

/// A name that is not found is that of no entry.
proof fn lemma_not_named(s: Seq<Slot>, name: Seq<char>, i: int)
    requires
        first_named(s, name) is None,
        0 <= i < s.len(),
    ensures
        !crate::text::same_name(s[i].name, name),
    decreases s.len(),
{
    if i < s.len() - 1 {
        assert(s.drop_last()[i] == s[i]);
        lemma_not_named(s.drop_last(), name, i);
    }
}

} // verus!
