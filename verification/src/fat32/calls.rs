//! What holds of the answers of calls on one volume, taken together.

use vstd::prelude::*;
use crate::block::BlockDevice;
use crate::bytes::part_of;
use crate::text::same_name;
use super::{Fat32, FatError};
use super::directory::{first_named, visible, Node, Slot};
use super::files::{are_shown, is_up, DirEntry, MAX_WHOLE_FILE};
use super::laws::is_small;
use super::model::{Volume, MAX_CHAIN_STEPS};
use super::naming::is_plain_name;
use super::update::{dot_dot_name, dot_name, new_record};
use super::walks::{lemma_visible_named, parent_components};

verus! {

impl DirEntry {
    /// Whether this entry has the given name, kind and size.
    pub open spec fn reads(&self, name: Seq<char>, is_dir: bool, size: u32) -> bool {
        self.name@ == name && self.is_dir == is_dir && self.size == size
    }

    /// Whether two entries show the same.
    pub open spec fn same_as(&self, other: DirEntry) -> bool {
        self.reads(other.name@, other.is_dir, other.size)
    }
}

/// The first entry of a list with a given name, up to the case of ASCII letters.
pub open spec fn first_shown(list: Seq<DirEntry>, name: Seq<char>) -> Option<DirEntry>
    decreases list.len(),
{
    if list.len() == 0 {
        None
    } else if let Some(e) = first_shown(list.drop_last(), name) {
        Some(e)
    } else if same_name(list.last().name@, name) {
        Some(list.last())
    } else {
        None
    }
}

/// A name is found in what a list shows where it is found in the list.
proof fn lemma_first_shown(found: Seq<Slot>, list: Seq<DirEntry>, name: Seq<char>)
    requires
        are_shown(found, list),
    ensures
        match first_named(found, name) {
            Some(slot) => first_shown(list, name) matches Some(e) && slot.node().shown_by(e),
            None => first_shown(list, name) is None,
        },
    decreases list.len(),
{
    if list.len() > 0 {
        let n = list.len() - 1;
        assert(found[n].node().shown_by(list[n]));
        assert forall|i: int| 0 <= i < n implies found.drop_last()[i].node().shown_by(
            #[trigger] list.drop_last()[i],
        ) by {
            assert(found[i].node().shown_by(list[i]));
        }
        lemma_first_shown(found.drop_last(), list.drop_last(), name);
    }
}

/// Whether this is what `read_at` gives of a file with these bytes: those that lie there,
/// as many as there are and fit, in front of what stood in the buffer.
pub open spec fn is_read_of(
    content: Seq<u8>,
    offset: usize,
    before: Seq<u8>,
    after: Seq<u8>,
    r: Result<usize, FatError>,
) -> bool {
    let piece = part_of(content, offset as int, before.len() as int);
    &&& r == Ok::<usize, FatError>(piece.len() as usize)
    &&& after == piece + before.skip(piece.len() as int)
}

impl<D: BlockDevice> Fat32<D> {
    /// What `stat` says of a name in a directory is what the first entry with that name,
    /// but for the case of letters, in the answer of `list` says; where the list has no
    /// such entry, it is not found.
    pub proof fn law_stat_is_as_listed(
        &self,
        d: Seq<char>,
        name: Seq<char>,
        list: Vec<DirEntry>,
        r: Result<DirEntry, FatError>,
    )
        requires
            self.gives_list(d, Ok(list)),
            self.gives_stat(d.push('/') + name, r),
            name.len() > 0,
            forall|k: int| 0 <= k < name.len() ==> name[k] != '/',
            name != seq!['.'],
            !is_up(name),
        ensures
            self.is_cut_off(r) || match first_shown(list@, name) {
                Some(e) => r matches Ok(found) && found.same_as(e),
                None => r == Err::<DirEntry, FatError>(FatError::NotFound),
            },
    {
        let l = self.volume().listing(d)->Ok_0;
        self.volume().law_stat_is_first_listed(d, name, l);
        lemma_first_shown(l, list@, name);
    }

    /// The root is a directory, whatever is on the volume.
    pub proof fn law_root_is_a_directory(&self, r: Result<DirEntry, FatError>)
        requires
            self.gives_stat(seq!['/'], r),
        ensures
            self.is_cut_off(r) || (r matches Ok(e) && e.reads(seq!['/'], true, 0)),
    {
        self.volume().lemma_root();
    }

    /// A whole file is as long as `stat` says, and the same as a read of that many bytes
    /// from its start. A directory is refused, and so is a file of more than 64 MiB.
    pub proof fn law_whole_file_is_as_stat(
        &self,
        path: Seq<char>,
        e: DirEntry,
        whole: Result<Vec<u8>, FatError>,
        before: Seq<u8>,
        after: Seq<u8>,
        r: Result<usize, FatError>,
    )
        requires
            self.wf(),
            self.gives_stat(path, Ok(e)),
            self.gives_file(path, whole),
            self.gives_piece(path, 0, before, after, r),
            before.len() == e.size,
        ensures
            self.is_cut_off(whole) || {
                &&& e.is_dir ==> whole == Err::<Vec<u8>, FatError>(FatError::IsDirectory)
                &&& !e.is_dir && e.size > MAX_WHOLE_FILE ==> whole == Err::<Vec<u8>, FatError>(
                    FatError::TooLarge,
                )
                &&& whole matches Ok(bytes) ==> {
                    &&& bytes@.len() == e.size
                    &&& self.is_cut_off(r) || (r == Ok::<usize, FatError>(bytes.len()) && after
                        == bytes@)
                }
            },
    {
        let node = self.volume().resolve(path)->Ok_0;
        if let Ok(bytes) = whole {
            self.volume().lemma_read_length(node, 0, node.size as int);
            if let Ok(n) = r {
                assert(after.take(n as int) == bytes@);
                assert(after =~= bytes@);
            }
        }
    }

    /// A read at an offset gives the piece of the whole file that lies there, and leaves
    /// the rest of the buffer as it was.
    pub proof fn law_reads_agree(
        &self,
        path: Seq<char>,
        content: Vec<u8>,
        offset: usize,
        before: Seq<u8>,
        after: Seq<u8>,
        r: Result<usize, FatError>,
    )
        requires
            self.wf(),
            self.gives_file(path, Ok(content)),
            self.gives_piece(path, offset, before, after, r),
            before.len() <= usize::MAX,
        ensures
            self.is_cut_off(r) || is_read_of(content@, offset, before, after, r),
    {
        let node = self.volume().resolve(path)->Ok_0;
        self.volume().law_reads_are_pieces(
            path,
            node,
            content@,
            offset as int,
            before.len() as int,
        );
        if let Ok(n) = r {
            let piece = part_of(content@, offset as int, before.len() as int);
            assert(after =~= piece + before.skip(piece.len() as int)) by {
                assert(after.take(n as int) == piece);
                assert(after =~= after.take(n as int) + after.skip(n as int));
            }
        }
    }
}

/// Whether two lists show the same entries in the same order.
pub open spec fn same_lists(a: Seq<DirEntry>, b: Seq<DirEntry>) -> bool {
    a.len() == b.len() && forall|i: int| 0 <= i < a.len() ==> (#[trigger] a[i]).same_as(b[i])
}

/// Whether a list shows what another does and, behind it, an empty entry with a given name.
pub open spec fn is_longer(
    list: Seq<DirEntry>,
    before: Seq<DirEntry>,
    name: Seq<char>,
    is_dir: bool,
) -> bool {
    &&& list.len() == before.len() + 1
    &&& same_lists(list.drop_last(), before)
    &&& list.last().reads(name, is_dir, 0)
}

/// Lists of the same entries show the same.
proof fn lemma_same_lists(found: Seq<Slot>, a: Seq<DirEntry>, b: Seq<DirEntry>)
    requires
        are_shown(found, a),
        are_shown(found, b),
    ensures
        same_lists(a, b),
{
    assert forall|i: int| 0 <= i < a.len() implies (#[trigger] a[i]).same_as(b[i]) by {
        assert(found[i].node().shown_by(a[i]));
        assert(found[i].node().shown_by(b[i]));
    }
}

/// Lists with and without an entry at the end.
proof fn lemma_longer(found: Seq<Slot>, slot: Slot, a: Seq<DirEntry>, b: Seq<DirEntry>)
    requires
        are_shown(found, b),
        are_shown(found.push(slot), a),
        slot.size == 0,
    ensures
        is_longer(a, b, slot.name, slot.is_dir),
{
    let n = a.len() - 1;
    assert(found.push(slot)[n].node().shown_by(a[n]));
    assert forall|i: int| 0 <= i < n implies found[i].node().shown_by(
        #[trigger] a.drop_last()[i],
    ) by {
        assert(found.push(slot)[i].node().shown_by(a[i]));
    }
    lemma_same_lists(found, a.drop_last(), b);
}

proof fn lemma_visible_push(s: Seq<Slot>, slot: Slot)
    requires
        slot.name != seq!['.'],
        slot.name != seq!['.', '.'],
    ensures
        visible(s.push(slot)) == visible(s).push(slot),
{
    assert(s.push(slot).drop_last() =~= s);
}

impl Volume {
    /// What the parent of a new entry lists.
    proof fn lemma_new_listed(
        self,
        w: Volume,
        d: Seq<char>,
        name: Seq<char>,
        dir: u32,
        chain: Seq<u32>,
        all: Seq<u32>,
        touched: Seq<u32>,
        is_dir: bool,
        first: u32,
    )
        requires
            self.is_missing_at(d.push('/') + name, dir, chain, name),
            forall|k: int| 0 <= k < name.len() ==> name[k] != '/',
            self.is_added(w, chain, all, name, is_dir, first),
            all.len() <= MAX_CHAIN_STEPS,
            self.same_outside(w, touched),
            forall|i: int|
                0 <= i < touched.len() ==> chain.contains(#[trigger] touched[i]) || self.fat(
                    touched[i],
                ) == 0,
        ensures
            self.listing(d) is Ok,
            w.listing(d) == Ok::<Seq<Slot>, FatError>(
                self.listing(d)->Ok_0.push(w.all_entries(all).last()),
            ),
    {
        let path = d.push('/') + name;
        self.lemma_locate(path);
        self.lemma_way_apart(parent_components(path), 0, self.root(), chain, touched);
        self.lemma_parent_listing(w, d, name, dir, touched);
        self.lemma_directory(dir, chain);
        assert(all[0] == chain[0]);
        w.lemma_directory(dir, all);
        let before = self.all_entries(chain);
        let slot = w.all_entries(all).last();
        assert(w.all_entries(all) =~= before.push(slot));
        lemma_visible_push(before, slot);
    }
}

impl<D: BlockDevice> Fat32<D> {
    /// Whether a call that changes the volume failed because the device failed.
    pub open spec fn is_broken_off<T>(&self, r: Result<T, FatError>) -> bool {
        !self.healthy() && r == Err::<T, FatError>(FatError::Io)
    }

    /// After a file was created where there was none, its directory lists what it listed
    /// before and, behind it, the new file, which is empty. A directory that has grown past
    /// what a walk goes through is left out, and names with a unit that is also filler.
    pub proof fn law_created_file_is_listed(
        &self,
        after: &Self,
        d: Seq<char>,
        name: Seq<char>,
        dir: u32,
        chain: Seq<u32>,
        old_list: Vec<DirEntry>,
        list: Result<Vec<DirEntry>, FatError>,
        entry: Result<DirEntry, FatError>,
        whole: Result<Vec<u8>, FatError>,
    ) -> (all: Seq<u32>)
        requires
            self.wf(),
            is_small(self.geometry),
            self.volume().is_missing_at(d.push('/') + name, dir, chain, name),
            forall|k: int| 0 <= k < name.len() ==> name[k] != '/',
            is_plain_name(name),
            after.kept(self),
            after.is_made(self, Ok(()), self.volume().create_file(d.push('/') + name)),
            self.gives_list(d, Ok(old_list)),
            after.gives_list(d, list),
            after.gives_stat(d.push('/') + name, entry),
            after.gives_file(d.push('/') + name, whole),
        ensures
            all.len() <= MAX_CHAIN_STEPS ==> {
                &&& after.is_cut_off(list) || (list matches Ok(l) && is_longer(
                    l@,
                    old_list@,
                    name,
                    false,
                ))
                &&& after.is_cut_off(entry) || (entry matches Ok(e) && e.reads(name, false, 0))
                &&& after.is_cut_off(whole) || (whole matches Ok(bytes) && bytes@.len() == 0)
            },
    {
        let path = d.push('/') + name;
        let v = self.volume();
        let w = after.volume();
        let all = v.law_created_file_is_found(path, dir, chain, name);
        if all.len() <= MAX_CHAIN_STEPS {
            assert forall|i: int| 0 <= i < all.len() implies chain.contains(#[trigger] all[i])
                || v.fat(all[i]) == 0 by {
                if i < chain.len() {
                    assert(all[i] == chain[i]);
                }
            }
            v.lemma_new_listed(w, d, name, dir, chain, all, all, false, 0);
            let slot = w.all_entries(all).last();
            if let Ok(l) = list {
                lemma_longer(v.listing(d)->Ok_0, slot, l@, old_list@);
            }
        }
        all
    }

    /// After a directory was created where there was none, its parent lists what it listed
    /// before and, behind it, the new directory. That one lists nothing, and its first two
    /// records name itself and its parent.
    pub proof fn law_created_dir_is_listed(
        &self,
        after: &Self,
        d: Seq<char>,
        name: Seq<char>,
        dir: u32,
        chain: Seq<u32>,
        old_list: Vec<DirEntry>,
        list: Result<Vec<DirEntry>, FatError>,
        entry: Result<DirEntry, FatError>,
        inside: Result<Vec<DirEntry>, FatError>,
    ) -> (r: (Seq<u32>, u32))
        requires
            self.wf(),
            is_small(self.geometry),
            self.volume().is_missing_at(d.push('/') + name, dir, chain, name),
            forall|k: int| 0 <= k < name.len() ==> name[k] != '/',
            is_plain_name(name),
            after.kept(self),
            after.is_made(self, Ok(()), self.volume().create_dir(d.push('/') + name)),
            self.gives_list(d, Ok(old_list)),
            after.gives_list(d, list),
            after.gives_stat(d.push('/') + name, entry),
            after.gives_list(d.push('/') + name, inside),
        ensures
            r.0.len() <= MAX_CHAIN_STEPS ==> {
                let c = r.1;
                &&& after.is_cut_off(list) || (list matches Ok(l) && is_longer(
                    l@,
                    old_list@,
                    name,
                    true,
                ))
                &&& after.is_cut_off(entry) || (entry matches Ok(e) && e.reads(name, true, 0))
                &&& after.is_cut_off(inside) || (inside matches Ok(l) && l@.len() == 0)
                &&& after.volume().resolve(d.push('/') + name) matches Ok(node) && node.first == c
                &&& after.volume().record(c, 0) == new_record(dot_name(), 0x10, c)
                &&& after.volume().record(c, 1) == new_record(dot_dot_name(), 0x10, dir)
            },
    {
        let path = d.push('/') + name;
        let v = self.volume();
        let w = after.volume();
        let (all, c) = v.law_created_directory_is_found(path, dir, chain, name);
        if all.len() <= MAX_CHAIN_STEPS {
            let touched = all.push(c);
            assert forall|i: int| 0 <= i < touched.len() implies chain.contains(#[trigger] touched[i])
                || v.fat(touched[i]) == 0 by {
                if i < chain.len() {
                    assert(all[i] == chain[i]);
                } else if i < all.len() {
                    assert(v.fat(all[i]) == 0);
                }
            }
            v.lemma_new_listed(w, d, name, dir, chain, all, touched, true, c);
            let slot = w.all_entries(all).last();
            if let Ok(l) = list {
                lemma_longer(v.listing(d)->Ok_0, slot, l@, old_list@);
            }
        }
        (all, c)
    }
}

impl Volume {
    /// What the parent of an entry that came and went lists.
    proof fn lemma_listed_again(
        self,
        u: Volume,
        d: Seq<char>,
        name: Seq<char>,
        dir: u32,
        chain: Seq<u32>,
        all: Seq<u32>,
        touched: Seq<u32>,
    )
        requires
            self.is_missing_at(d.push('/') + name, dir, chain, name),
            forall|k: int| 0 <= k < name.len() ==> name[k] != '/',
            u.is_directory_at(dir, all),
            u.all_entries(all) == self.all_entries(chain),
            self.same_outside(u, touched),
            forall|i: int|
                0 <= i < touched.len() ==> chain.contains(#[trigger] touched[i]) || self.fat(
                    touched[i],
                ) == 0,
        ensures
            u.listing(d) == self.listing(d),
    {
        let path = d.push('/') + name;
        self.lemma_way_apart(parent_components(path), 0, self.root(), chain, touched);
        self.lemma_parent_listing(u, d, name, dir, touched);
        self.lemma_directory(dir, chain);
        u.lemma_directory(dir, all);
    }

    /// Whether a path leads to an entry of a sound directory.
    pub open spec fn is_present_at(
        self,
        path: Seq<char>,
        dir: u32,
        chain: Seq<u32>,
        name: Seq<char>,
        slot: Slot,
    ) -> bool {
        &&& self.locate(path) == Ok::<(u32, Seq<char>), FatError>((dir, name))
        &&& self.find_named(dir, name) == Ok::<Option<Slot>, FatError>(Some(slot))
        &&& self.is_directory_at(dir, chain)
    }

    /// What a path leads to is the entry that is changed by way of it.
    proof fn lemma_present(
        self,
        path: Seq<char>,
        dir: u32,
        chain: Seq<u32>,
        name: Seq<char>,
        slot: Slot,
    )
        requires
            self.is_present_at(path, dir, chain, name, slot),
        ensures
            self.resolve(path) == Ok::<Node, FatError>(slot.node()),
    {
        self.lemma_locate(path);
        self.lemma_resolve(path);
        self.lemma_directory(dir, chain);
        lemma_visible_named(self.all_entries(chain), name);
    }
}

impl<D: BlockDevice> Fat32<D> {
    /// A file that is created where there was none, and then removed, is gone: it is not
    /// found, and its directory lists what it listed before.
    pub proof fn law_created_file_can_be_removed(
        &self,
        between: &Self,
        after: &Self,
        d: Seq<char>,
        name: Seq<char>,
        dir: u32,
        chain: Seq<u32>,
        removed: Result<(), FatError>,
        old_list: Vec<DirEntry>,
        list: Result<Vec<DirEntry>, FatError>,
        entry: Result<DirEntry, FatError>,
    ) -> (all: Seq<u32>)
        requires
            self.wf(),
            is_small(self.geometry),
            self.volume().is_missing_at(d.push('/') + name, dir, chain, name),
            forall|k: int| 0 <= k < name.len() ==> name[k] != '/',
            is_plain_name(name),
            between.kept(self),
            between.is_made(self, Ok(()), self.volume().create_file(d.push('/') + name)),
            after.kept(between),
            after.is_made(between, removed, between.volume().remove(d.push('/') + name)),
            self.gives_list(d, Ok(old_list)),
            after.gives_list(d, list),
            after.gives_stat(d.push('/') + name, entry),
        ensures
            all.len() <= MAX_CHAIN_STEPS ==> {
                &&& removed is Ok || between.is_broken_off(removed)
                &&& removed is Ok ==> {
                    &&& after.is_cut_off(list) || (list matches Ok(l) && same_lists(l@, old_list@))
                    &&& after.is_cut_off(entry) || entry == Err::<DirEntry, FatError>(
                        FatError::NotFound,
                    )
                }
            },
    {
        let path = d.push('/') + name;
        let v = self.volume();
        let all = v.law_create_then_remove(path, dir, chain, name);
        if all.len() <= MAX_CHAIN_STEPS && removed is Ok {
            assert forall|i: int| 0 <= i < all.len() implies chain.contains(#[trigger] all[i])
                || v.fat(all[i]) == 0 by {
                if i < chain.len() {
                    assert(all[i] == chain[i]);
                }
            }
            v.lemma_listed_again(after.volume(), d, name, dir, chain, all, all);
            if let Ok(l) = list {
                lemma_same_lists(v.listing(d)->Ok_0, l@, old_list@);
            }
        }
        all
    }

    /// A directory that is created where there was none, and then removed, is gone: it is
    /// not found, and its parent lists what it listed before.
    pub proof fn law_created_dir_can_be_removed(
        &self,
        between: &Self,
        after: &Self,
        d: Seq<char>,
        name: Seq<char>,
        dir: u32,
        chain: Seq<u32>,
        removed: Result<(), FatError>,
        old_list: Vec<DirEntry>,
        list: Result<Vec<DirEntry>, FatError>,
        entry: Result<DirEntry, FatError>,
    ) -> (all: Seq<u32>)
        requires
            self.wf(),
            is_small(self.geometry),
            self.volume().is_missing_at(d.push('/') + name, dir, chain, name),
            forall|k: int| 0 <= k < name.len() ==> name[k] != '/',
            is_plain_name(name),
            between.kept(self),
            between.is_made(self, Ok(()), self.volume().create_dir(d.push('/') + name)),
            after.kept(between),
            after.is_made(between, removed, between.volume().remove(d.push('/') + name)),
            self.gives_list(d, Ok(old_list)),
            after.gives_list(d, list),
            after.gives_stat(d.push('/') + name, entry),
        ensures
            all.len() <= MAX_CHAIN_STEPS ==> {
                &&& removed is Ok || between.is_broken_off(removed)
                &&& removed is Ok ==> {
                    &&& after.is_cut_off(list) || (list matches Ok(l) && same_lists(l@, old_list@))
                    &&& after.is_cut_off(entry) || entry == Err::<DirEntry, FatError>(
                        FatError::NotFound,
                    )
                }
            },
    {
        let path = d.push('/') + name;
        let v = self.volume();
        let (all, c) = v.law_create_dir_then_remove(path, dir, chain, name);
        if all.len() <= MAX_CHAIN_STEPS && removed is Ok {
            let touched = all.push(c);
            assert forall|i: int| 0 <= i < touched.len() implies chain.contains(#[trigger] touched[i])
                || v.fat(touched[i]) == 0 by {
                if i < chain.len() {
                    assert(all[i] == chain[i]);
                } else if i < all.len() {
                    assert(v.fat(all[i]) == 0);
                }
            }
            v.lemma_listed_again(after.volume(), d, name, dir, chain, all, touched);
            if let Ok(l) = list {
                lemma_same_lists(v.listing(d)->Ok_0, l@, old_list@);
            }
        }
        all
    }

    /// Creating a file where one is listed leaves the volume as it is, and a directory there
    /// is refused. Where anything is listed, no directory is created.
    pub proof fn law_what_is_there_stays(
        &self,
        by_file: &Self,
        by_dir: &Self,
        d: Seq<char>,
        name: Seq<char>,
        dir: u32,
        chain: Seq<u32>,
        list: Vec<DirEntry>,
        e: DirEntry,
        file: Result<(), FatError>,
        made: Result<(), FatError>,
    )
        requires
            self.volume().locate(d.push('/') + name) == Ok::<(u32, Seq<char>), FatError>(
                (dir, name),
            ),
            forall|k: int| 0 <= k < name.len() ==> name[k] != '/',
            self.volume().is_directory_at(dir, chain),
            self.gives_list(d, Ok(list)),
            first_shown(list@, name) == Some(e),
            by_file.is_made(self, file, self.volume().create_file(d.push('/') + name)),
            by_dir.is_made(self, made, self.volume().create_dir(d.push('/') + name)),
        ensures
            self.is_broken_off(file) || file == if e.is_dir {
                Err::<(), FatError>(FatError::IsDirectory)
            } else {
                Ok(())
            },
            file is Ok || self.healthy() ==> by_file.volume() == self.volume(),
            self.is_broken_off(made) || made == Err::<(), FatError>(FatError::AlreadyExists),
            self.healthy() ==> by_dir.volume() == self.volume(),
    {
        let v = self.volume();
        v.lemma_locate(d.push('/') + name);
        v.lemma_listed_in(d, name, dir);
        v.lemma_directory(dir, chain);
        lemma_visible_named(v.all_entries(chain), name);
        lemma_first_shown(v.listing(d)->Ok_0, list@, name);
    }

    /// A directory that lists something is not removed, and nothing changes.
    pub proof fn law_full_directory_stays(
        &self,
        after: &Self,
        path: Seq<char>,
        dir: u32,
        chain: Seq<u32>,
        name: Seq<char>,
        slot: Slot,
        inside: Vec<DirEntry>,
        r: Result<(), FatError>,
    )
        requires
            self.volume().is_present_at(path, dir, chain, name, slot),
            self.gives_list(path, Ok(inside)),
            inside@.len() > 0,
            after.is_made(self, r, self.volume().remove(path)),
        ensures
            self.is_broken_off(r) || r == Err::<(), FatError>(FatError::DirectoryNotEmpty),
            self.healthy() ==> after.volume() == self.volume(),
    {
        self.volume().lemma_present(path, dir, chain, name, slot);
    }

    /// What is not there cannot be removed, emptied or written to, and nothing changes.
    pub proof fn law_what_is_missing_stays_missing(
        &self,
        after: &Self,
        path: Seq<char>,
        dir: u32,
        name: Seq<char>,
        offset: int,
        data: Seq<u8>,
        removed: Result<(), FatError>,
        emptied: Result<(), FatError>,
        written: Result<usize, FatError>,
    )
        requires
            self.volume().locate(path) == Ok::<(u32, Seq<char>), FatError>((dir, name)),
            self.volume().find_named(dir, name) == Ok::<Option<Slot>, FatError>(None),
            0 <= offset,
            0 < data.len(),
            offset + data.len() <= u32::MAX,
        ensures
            after.is_made(self, removed, self.volume().remove(path)) ==> {
                &&& self.is_broken_off(removed) || removed == Err::<(), FatError>(FatError::NotFound)
                &&& self.healthy() ==> after.volume() == self.volume()
            },
            after.is_made(self, emptied, self.volume().truncate(path)) ==> {
                &&& self.is_broken_off(emptied) || emptied == Err::<(), FatError>(FatError::NotFound)
                &&& self.healthy() ==> after.volume() == self.volume()
            },
            after.is_made(self, written, self.volume().write(path, offset, data)) ==> {
                &&& self.is_broken_off(written) || written == Err::<usize, FatError>(
                    FatError::NotFound,
                )
                &&& self.healthy() ==> after.volume() == self.volume()
            },
    {
        reveal(Volume::write);
    }
}

} // verus!
