//! What holds of paths and of files, whatever is mounted.

use vstd::prelude::*;
use super::files::{
    is_create_dir, is_create_file, is_else_kept, is_remove, is_truncate, is_write, read_result,
    size_result, whole_result,
};
use super::listing::{
    first_index, first_part, has_name, listing, mount_name, own_listing, with_mounts, Shown,
};
use super::{
    kept_parts, lemma_lookup, lookup, normal_path, prefixes, slashed, Filesystem,
    FsError, Vfs,
};
use crate::block::BlockDevice;
use crate::bytes::part_of;
use crate::fat32::directory::Slot;
use crate::fat32::laws::{is_small, overwritten};
use crate::fat32::model::MAX_CHAIN_STEPS;
use crate::fat32::Fat32;
use crate::initramfs::{file_named, files_of, normal};
use crate::text::{lemma_split_nonempty, split};

verus! {

spec fn is_plain(p: Seq<char>) -> bool {
    forall|k: int| 0 <= k < p.len() ==> p[k] != '/'
}

/// Whether a part stays in a path.
spec fn is_kept(p: Seq<char>) -> bool {
    &&& is_plain(p)
    &&& p.len() > 0
    &&& p != seq!['.']
    &&& p != seq!['.', '.']
}

proof fn lemma_split_plain(s: Seq<char>)
    ensures
        forall|i: int| 0 <= i < split(s, '/').len() ==> is_plain(#[trigger] split(s, '/')[i]),
    decreases s.len(),
{
    if s.len() > 0 {
        lemma_split_plain(s.drop_last());
        lemma_split_nonempty(s.drop_last(), '/');
        let r = split(s.drop_last(), '/');
        assert forall|i: int| 0 <= i < split(s, '/').len() implies is_plain(
            #[trigger] split(s, '/')[i],
        ) by {
            if s.last() == '/' {
                if i < r.len() {
                    assert(split(s, '/')[i] == r[i]);
                }
            } else if i < r.len() - 1 {
                assert(split(s, '/')[i] == r[i]);
            } else {
                assert(is_plain(r[r.len() - 1]));
            }
        }
    }
}

proof fn lemma_kept(parts: Seq<Seq<char>>)
    requires
        forall|i: int| 0 <= i < parts.len() ==> is_plain(#[trigger] parts[i]),
    ensures
        kept_parts(parts) matches Some(k) ==> forall|i: int|
            0 <= i < k.len() ==> is_kept(#[trigger] k[i]),
    decreases parts.len(),
{
    if parts.len() > 0 {
        let front = parts.drop_last();
        assert forall|i: int| 0 <= i < front.len() implies is_plain(#[trigger] front[i]) by {
            assert(front[i] == parts[i]);
        }
        lemma_kept(front);
        assert(is_plain(parts[parts.len() - 1]));
    }
}

proof fn lemma_split_append(s: Seq<char>, p: Seq<char>)
    requires
        is_plain(p),
    ensures
        split(s.push('/') + p, '/') == split(s, '/').push(p),
    decreases p.len(),
{
    let t = s.push('/') + p;
    if p.len() == 0 {
        assert(t =~= s.push('/'));
        assert(t.drop_last() =~= s);
        assert(p =~= Seq::<char>::empty());
    } else {
        let q = p.drop_last();
        assert forall|k: int| 0 <= k < q.len() implies q[k] != '/' by {
            assert(q[k] == p[k]);
        }
        lemma_split_append(s, q);
        assert(t.drop_last() =~= s.push('/') + q);
        assert(t.last() == p.last());
        let r = split(s, '/').push(q);
        assert(q.push(p.last()) =~= p);
        assert(r.update(r.len() - 1, p) =~= split(s, '/').push(p));
    }
}

proof fn lemma_split_slashed(parts: Seq<Seq<char>>)
    requires
        forall|i: int| 0 <= i < parts.len() ==> is_plain(#[trigger] parts[i]),
    ensures
        split(slashed(parts), '/') == seq![Seq::<char>::empty()] + parts,
    decreases parts.len(),
{
    let none = seq![Seq::<char>::empty()];
    if parts.len() == 0 {
        assert(none + parts =~= none);
    } else {
        let front = parts.drop_last();
        assert forall|i: int| 0 <= i < front.len() implies is_plain(#[trigger] front[i]) by {
            assert(front[i] == parts[i]);
        }
        lemma_split_slashed(front);
        assert(is_plain(parts[parts.len() - 1]));
        lemma_split_append(slashed(front), parts.last());
        assert((none + front).push(parts.last()) =~= none + parts);
    }
}

proof fn lemma_all_kept(parts: Seq<Seq<char>>)
    requires
        forall|i: int| 0 <= i < parts.len() ==> is_kept(#[trigger] parts[i]),
    ensures
        kept_parts(seq![Seq::<char>::empty()] + parts) == Some(parts),
    decreases parts.len(),
{
    let none = seq![Seq::<char>::empty()];
    let all = none + parts;
    if parts.len() == 0 {
        assert(all =~= none);
        assert(none.drop_last() =~= Seq::empty());
        assert(kept_parts(none.drop_last()) == Some(Seq::<Seq<char>>::empty()));
        assert(parts =~= Seq::empty());
    } else {
        let front = parts.drop_last();
        assert forall|i: int| 0 <= i < front.len() implies is_kept(#[trigger] front[i]) by {
            assert(front[i] == parts[i]);
        }
        lemma_all_kept(front);
        assert(all.drop_last() =~= none + front);
        assert(all.last() == parts.last());
        assert(is_kept(parts[parts.len() - 1]));
        assert(front.push(parts.last()) =~= parts);
    }
}

/// A slash and a name are in normal form.
pub proof fn lemma_top_path(name: Seq<char>)
    requires
        name.len() > 2,
        forall|k: int| 0 <= k < name.len() ==> name[k] != '/',
    ensures
        normal_path(seq!['/'] + name) == Some(seq!['/'] + name),
{
    let parts = seq![name];
    assert forall|i: int| 0 <= i < parts.len() implies is_kept(#[trigger] parts[i]) by {}
    lemma_split_slashed(parts);
    lemma_all_kept(parts);
    assert(parts.drop_last() =~= Seq::empty());
    assert(slashed(parts.drop_last()) =~= Seq::empty());
    assert(slashed(parts) =~= seq!['/'] + name);
}

/// The normal form of a path is its own normal form.
pub proof fn law_normal_paths_stay(path: Seq<char>)
    ensures
        normal_path(path) matches Some(p) ==> normal_path(p) == Some(p),
{
    lemma_split_plain(path);
    lemma_kept(split(path, '/'));
    match kept_parts(split(path, '/')) {
        None => {},
        Some(k) => {
            assert forall|i: int| 0 <= i < k.len() implies is_plain(#[trigger] k[i]) by {
                assert(is_kept(k[i]));
            }
            lemma_split_slashed(k);
            lemma_all_kept(k);
            if k.len() == 0 {
                lemma_root_path();
            }
        },
    }
}

/// An operation that leaves the mounts in place leaves every path leading where
/// it led.
proof fn lemma_same_way<D: BlockDevice>(
    old_v: Vfs<D>,
    new_v: Vfs<D>,
    path: Seq<char>,
    other: Seq<char>,
)
    requires
        is_else_kept(old_v, new_v, path),
    ensures
        lookup(new_v, other) == lookup(old_v, other),
{
    lemma_lookup(old_v, path);
    assert forall|j: int| 0 <= j < old_v.mounts@.len() implies new_v.mounts@[j].prefix
        == old_v.mounts@[j].prefix by {
        match lookup(old_v, path) {
            Err(_) => {},
            Ok((i, _)) => {
                if j != i {
                    assert(new_v.mounts@[j] == old_v.mounts@[j]);
                }
            },
        }
    }
    assert(prefixes(new_v.mounts@) =~= prefixes(old_v.mounts@));
    lemma_lookup(old_v, other);
    if let Ok((k, _)) = lookup(old_v, other) {
        assert(new_v.mounts@[k].prefix == old_v.mounts@[k].prefix);
    }
}

/// What is changed below one mount does not change what is read below another,
/// nor anything in the archive.
pub proof fn law_other_mounts_unaffected<D: BlockDevice>(
    old_v: Vfs<D>,
    new_v: Vfs<D>,
    path: Seq<char>,
    other: Seq<char>,
    offset: int,
    len: int,
)
    requires
        old_v.wf(),
        is_else_kept(old_v, new_v, path),
        match (lookup(old_v, path), lookup(old_v, other)) {
            (Ok((i, _)), Ok((j, _))) => i != j || old_v.mounts@[j].fs is Initramfs,
            _ => true,
        },
    ensures
        read_result(new_v, other, offset, len) == read_result(old_v, other, offset, len),
        size_result(new_v, other) == size_result(old_v, other),
{
    lemma_same_way(old_v, new_v, path, other);
    lemma_lookup(old_v, other);
    lemma_lookup(old_v, path);
    match (lookup(old_v, path), lookup(old_v, other)) {
        (Ok((i, _)), Ok((j, _))) => {
            if i != j {
                assert(new_v.mounts@[j] == old_v.mounts@[j]);
            }
        },
        _ => {},
    }
}

/// A directory as a mount shows in its parent.
pub open spec fn mount_entry(name: Seq<char>) -> Shown {
    Shown { name, is_dir: true, size: 0 }
}

proof fn lemma_with_mounts(own: Seq<Shown>, ps: Seq<Seq<char>>, path: Seq<char>, n: int)
    requires
        0 <= n <= ps.len(),
    ensures
        ({
            let l = with_mounts(own, ps, path, n);
            &&& own.len() <= l.len()
            &&& l.take(own.len() as int) == own
            &&& forall|k: int|
                own.len() <= k < l.len() ==> !has_name(own, (#[trigger] l[k]).name) && exists|j: int|
                    0 <= j < n && mount_name(#[trigger] ps[j], path) == Some(l[k].name) && l[k]
                        == mount_entry(l[k].name)
            &&& forall|j: int|
                0 <= j < n ==> (mount_name(#[trigger] ps[j], path) matches Some(name) ==> has_name(
                    l,
                    name,
                ))
        }),
    decreases n,
{
    let l = with_mounts(own, ps, path, n);
    if n <= 0 {
        assert(l.take(own.len() as int) =~= own);
    } else {
        lemma_with_mounts(own, ps, path, n - 1);
        let b = with_mounts(own, ps, path, n - 1);
        if let Some(name) = mount_name(ps[n - 1], path) {
            if !has_name(b, name) {
                assert(l == b.push(mount_entry(name)));
                assert(l.take(own.len() as int) =~= b.take(own.len() as int));
                assert(!has_name(own, name)) by {
                    if has_name(own, name) {
                        let i = choose|i: int| 0 <= i < own.len() && (#[trigger] own[i]).name == name;
                        assert(b.take(own.len() as int)[i] == own[i]);
                        assert(b[i].name == name);
                    }
                }
                assert(l[b.len() as int].name == name);
            }
        }
        assert forall|j: int| 0 <= j < n implies (mount_name(#[trigger] ps[j], path) matches Some(
            name,
        ) ==> has_name(l, name)) by {
            if let Some(name) = mount_name(ps[j], path) {
                if j < n - 1 || has_name(b, name) {
                    let i = choose|i: int| 0 <= i < b.len() && (#[trigger] b[i]).name == name;
                    assert(l[i].name == name);
                }
            }
        }
        assert forall|k: int| own.len() <= k < l.len() implies !has_name(
            own,
            (#[trigger] l[k]).name,
        ) && exists|j: int|
            0 <= j < n && mount_name(#[trigger] ps[j], path) == Some(l[k].name) && l[k]
                == mount_entry(l[k].name) by {
            if k < b.len() {
                assert(b[k] == l[k]);
            } else {
                assert(mount_name(ps[n - 1], path) == Some(l[k].name));
            }
        }
    }
}

/// Mounts appear as directories in their parent: beyond what its own file system has, a
/// listing holds a directory for each mount below it, named by the first component of
/// what is left of the mount's path, unless that name is listed already, and nothing
/// else.
pub proof fn law_mounts_show_in_their_parent<D: BlockDevice>(
    v: Vfs<D>,
    path: Seq<char>,
    own: Seq<Shown>,
    l: Seq<Shown>,
)
    requires
        own_listing(v, path) == Ok::<Seq<Shown>, FsError>(own),
        listing(v, path) == Ok::<Seq<Shown>, FsError>(l),
    ensures
        own.len() <= l.len(),
        l.take(own.len() as int) == own,
        forall|k: int|
            own.len() <= k < l.len() ==> !has_name(own, (#[trigger] l[k]).name) && exists|j: int|
                0 <= j < v.mounts@.len() && mount_name(
                    (#[trigger] v.mounts@[j]).prefix@,
                    normal_path(path)->0,
                ) == Some(l[k].name) && l[k] == mount_entry(l[k].name),
        forall|j: int|
            0 <= j < v.mounts@.len() ==> (mount_name(
                (#[trigger] v.mounts@[j]).prefix@,
                normal_path(path)->0,
            ) matches Some(name) ==> has_name(l, name)),
{
    let ps = prefixes(v.mounts@);
    let p = normal_path(path)->0;
    lemma_with_mounts(own, ps, p, ps.len() as int);
    assert forall|k: int| own.len() <= k < l.len() implies !has_name(own, (#[trigger] l[k]).name)
        && exists|j: int|
        0 <= j < v.mounts@.len() && mount_name((#[trigger] v.mounts@[j]).prefix@, p) == Some(
            l[k].name,
        ) && l[k] == mount_entry(l[k].name) by {
        let j = choose|j: int|
            0 <= j < ps.len() && mount_name(#[trigger] ps[j], p) == Some(l[k].name) && l[k]
                == mount_entry(l[k].name);
        assert(v.mounts@[j].prefix@ == ps[j]);
    }
    assert forall|j: int| 0 <= j < v.mounts@.len() implies (mount_name(
        (#[trigger] v.mounts@[j]).prefix@,
        p,
    ) matches Some(name) ==> has_name(l, name)) by {
        assert(ps[j] == v.mounts@[j].prefix@);
    }
}

/// What is mounted at a name in the root shows there as a directory, unless a file of
/// the root's own has that name.
pub proof fn law_root_shows_mounts<D: BlockDevice>(
    v: Vfs<D>,
    name: Seq<char>,
    j: int,
    own: Seq<Shown>,
    l: Seq<Shown>,
)
    requires
        0 <= j < v.mounts@.len(),
        v.mounts@[j].prefix@ == seq!['/'] + name,
        name.len() > 0,
        forall|k: int| 0 <= k < name.len() ==> name[k] != '/',
        own_listing(v, seq!['/']) == Ok::<Seq<Shown>, FsError>(own),
        !has_name(own, name),
        listing(v, seq!['/']) == Ok::<Seq<Shown>, FsError>(l),
    ensures
        l.contains(mount_entry(name)),
{
    let root = seq!['/'];
    lemma_root_path();
    law_mounts_show_in_their_parent(v, root, own, l);
    let prefix = v.mounts@[j].prefix@;
    assert(prefix.take(1) =~= root);
    assert(prefix.skip(1) =~= name);
    lemma_no_slash(name);
    assert(first_part(name) =~= name);
    assert(mount_name(prefix, root) == Some(name));
    let k = choose|k: int| 0 <= k < l.len() && (#[trigger] l[k]).name == name;
    if k < own.len() {
        assert(l.take(own.len() as int)[k] == own[k]);
        assert(own[k].name == name);
    }
    assert(l[k] == mount_entry(name));
}

proof fn lemma_no_slash(s: Seq<char>)
    requires
        forall|k: int| 0 <= k < s.len() ==> s[k] != '/',
    ensures
        first_index(s, '/') == s.len(),
    decreases s.len(),
{
    if s.len() > 0 {
        lemma_no_slash(s.skip(1));
    }
}

/// The root is in normal form.
proof fn lemma_root_path()
    ensures
        normal_path(seq!['/']) == Some(seq!['/']),
{
    let root = seq!['/'];
    let none = Seq::<char>::empty();
    assert(root.drop_last() =~= none);
    let two = seq![none].push(none);
    reveal_with_fuel(split, 2);
    assert(split(root, '/') == two);
    assert(two.drop_last() =~= seq![none]);
    assert(seq![none].drop_last() =~= Seq::<Seq<char>>::empty());
    assert(kept_parts(Seq::<Seq<char>>::empty()) == Some(Seq::<Seq<char>>::empty()));
    assert(kept_parts(seq![none]) == Some(Seq::<Seq<char>>::empty()));
    assert(kept_parts(two) == Some(Seq::<Seq<char>>::empty()));
}

/// The initramfs is read-only: whatever is asked to be changed there is refused, and
/// every mount is as it was.
pub proof fn law_initramfs_is_read_only<D: BlockDevice>(
    old_v: Vfs<D>,
    new_v: Vfs<D>,
    path: Seq<char>,
)
    requires
        old_v.wf(),
        is_else_kept(old_v, new_v, path),
        lookup(old_v, path) matches Ok((i, _)) && old_v.mounts@[i].fs is Initramfs,
    ensures
        new_v.archive == old_v.archive,
        new_v.mounts@ == old_v.mounts@,
        forall|r: Result<(), FsError>| #[trigger]
            is_create_file(old_v, new_v, path, r) ==> r == Err::<(), FsError>(FsError::ReadOnly),
        forall|r: Result<(), FsError>| #[trigger]
            is_create_dir(old_v, new_v, path, r) ==> r == Err::<(), FsError>(FsError::ReadOnly),
        forall|r: Result<(), FsError>| #[trigger]
            is_remove(old_v, new_v, path, r) ==> r == Err::<(), FsError>(FsError::ReadOnly),
        forall|r: Result<(), FsError>| #[trigger]
            is_truncate(old_v, new_v, path, r) ==> r == Err::<(), FsError>(FsError::ReadOnly),
        forall|offset: int, data: Seq<u8>, r: Result<usize, FsError>| #[trigger]
            is_write(old_v, new_v, path, offset, data, r) ==> r == Err::<usize, FsError>(
                FsError::ReadOnly,
            ),
{
    lemma_lookup(old_v, path);
    let i = lookup(old_v, path)->Ok_0.0;
    assert(new_v.mounts@[i] == old_v.mounts@[i]);
    assert(new_v.mounts@ =~= old_v.mounts@);
}

/// Reads at offsets are pieces of the whole file: where all of it can be read, any read
/// gives the bytes that lie there, as many as there are.
pub proof fn law_reads_are_pieces<D: BlockDevice>(
    v: Vfs<D>,
    path: Seq<char>,
    data: Seq<u8>,
    offset: int,
    len: int,
)
    requires
        v.wf(),
        whole_result(v, path) == Ok::<Seq<u8>, FsError>(data),
        0 <= offset,
        0 <= len,
    ensures
        size_result(v, path) == Ok::<int, FsError>(data.len() as int),
        read_result(v, path, offset, len) == Ok::<Seq<u8>, FsError>(part_of(data, offset, len)),
{
    lemma_lookup(v, path);
    let (i, inner) = lookup(v, path)->Ok_0;
    match v.mounts@[i].fs {
        Filesystem::Initramfs => {
            let f = file_named(files_of(v.archive), normal(inner))->0;
            assert(part_of(f, 0, f.len() as int) =~= f);
        },
        Filesystem::Fat32(fs) => {
            let node = fs.volume().resolve(inner)->Ok_0;
            fs.volume().law_reads_are_pieces(inner, node, data, offset, len);
        },
    }
}

/// What is written to a file is what is read from it, with the rest of the file
/// as it was.
pub proof fn law_write_then_read<D: BlockDevice>(
    old_v: Vfs<D>,
    new_v: Vfs<D>,
    path: Seq<char>,
    f: Fat32<D>,
    slot: Slot,
    chain: Seq<u32>,
    offset: int,
    data: Seq<u8>,
    at: int,
    len: int,
)
    requires
        old_v.wf(),
        is_else_kept(old_v, new_v, path),
        lookup(old_v, path) matches Ok((i, inner)) && old_v.mounts@[i].fs == Filesystem::Fat32(f)
            && f.volume().is_file_at(inner, slot, chain),
        f.healthy(),
        is_small(f.volume().g),
        data.len() > 0,
        0 <= offset,
        is_write(old_v, new_v, path, offset, data, Ok::<usize, FsError>(data.len() as usize)),
        0 <= at,
        0 <= len,
        at + len <= overwritten(
            f.volume().content(chain).take(slot.size as int),
            offset,
            data,
        ).len() <= MAX_CHAIN_STEPS * f.volume().g.cluster_size(),
    ensures
        read_result(new_v, path, at, len) == Ok::<Seq<u8>, FsError>(
            overwritten(
                f.volume().content(chain).take(slot.size as int),
                offset,
                data,
            ).subrange(at, at + len),
        ),
{
    lemma_same_way(old_v, new_v, path, path);
    lemma_lookup(old_v, path);
    let (i, inner) = lookup(old_v, path)->Ok_0;
    assert(old_v.mounts@[i].fs == Filesystem::Fat32(f));
    f.volume().law_read_back(inner, slot, chain, offset, data, at, len);
}

} // verus!
