//! Directories through the VFS.

use vstd::prelude::*;
use super::files::may_fail;
use super::tree::{is_file_below, lemma_entry_leads};
use super::{fs_error, lookup, map_fat_error, prefixes, Filesystem, FsError, Vfs};
use crate::block::BlockDevice;
use crate::fat32::directory::Slot;
use crate::fat32::files::DirEntry;
use crate::initramfs::{entries, file_named, files_of, find, normal, Entries};
use crate::text::{chars_of, piece, same_chars, string_of, trim_back};

verus! {

/// What a listing shows of a file or directory.
pub struct Shown {
    pub name: Seq<char>,
    pub is_dir: bool,
    pub size: int,
}

pub open spec fn shown(e: DirEntry) -> Shown {
    Shown { name: e.name@, is_dir: e.is_dir, size: e.size as int }
}

pub open spec fn all_shown(v: Seq<DirEntry>) -> Seq<Shown> {
    Seq::new(v.len(), |i: int| shown(v[i]))
}

/// Whether a name is in a listing.
pub open spec fn has_name(l: Seq<Shown>, name: Seq<char>) -> bool {
    exists|i: int| 0 <= i < l.len() && (#[trigger] l[i]).name == name
}

/// A listing with one more, unless its name is there.
pub open spec fn with_one(l: Seq<Shown>, s: Shown) -> Seq<Shown> {
    if has_name(l, s.name) {
        l
    } else {
        l.push(s)
    }
}

/// Where a character first stands in a string, or the string's length.
pub open spec fn first_index(s: Seq<char>, c: char) -> int
    decreases s.len(),
{
    if s.len() == 0 || s[0] == c {
        0
    } else {
        1 + first_index(s.skip(1), c)
    }
}

fn find_char(s: &[char], c: char) -> (r: usize)
    ensures
        r == first_index(s@, c),
        r <= s@.len(),
{
    let n: usize = s.len();
    let mut i: usize = 0;
    assert(s@.skip(0) =~= s@);
    while i < n && s[i] != c
        invariant
            i <= n,
            n == s@.len(),
            first_index(s@, c) == i + first_index(s@.skip(i as int), c),
        decreases n - i,
    {
        assert(s@.skip(i as int).skip(1) =~= s@.skip(i + 1));
        i += 1;
    }
    i
}

/// The first part of a path.
pub open spec fn first_part(s: Seq<char>) -> Seq<char> {
    s.take(first_index(s, '/'))
}

/// A string without a prefix.
pub open spec fn stripped(s: Seq<char>, prefix: Seq<char>) -> Option<Seq<char>> {
    if prefix.len() <= s.len() && s.take(prefix.len() as int) == prefix {
        Some(s.skip(prefix.len() as int))
    } else {
        None
    }
}

fn strip_prefix(s: &[char], prefix: &[char]) -> (r: Option<Vec<char>>)
    ensures
        match r {
            Some(t) => stripped(s@, prefix@) == Some(t@),
            None => stripped(s@, prefix@) is None,
        },
{
    let n: usize = prefix.len();
    if s.len() < n {
        return None;
    }
    let head: Vec<char> = piece(s, 0, n);
    assert(head@ =~= s@.take(n as int));
    if !same_chars(head.as_slice(), prefix) {
        return None;
    }
    let rest: Vec<char> = piece(s, n, s.len());
    assert(rest@ =~= s@.skip(n as int));
    Some(rest)
}

/// What a file of the archive adds to the listing of the directory whose paths
/// start with a prefix: itself, or the directory that it is in.
pub open spec fn with_file(l: Seq<Shown>, f: (Seq<char>, Seq<u8>), prefix: Seq<char>) -> Seq<Shown> {
    match stripped(f.0, prefix) {
        None => l,
        Some(rest) => if rest.len() == 0 {
            l
        } else {
            let is_dir = first_index(rest, '/') < rest.len();
            with_one(
                l,
                Shown {
                    name: first_part(rest),
                    is_dir,
                    size: if is_dir {
                        0
                    } else {
                        f.1.len() as int % 0x1_0000_0000
                    },
                },
            )
        },
    }
}

/// The listing that files add to one.
pub open spec fn with_files(
    l: Seq<Shown>,
    f: Seq<(Seq<char>, Seq<u8>)>,
    prefix: Seq<char>,
) -> Seq<Shown>
    decreases f.len(),
{
    if f.len() == 0 {
        l
    } else {
        with_files(with_file(l, f[0], prefix), f.drop_first(), prefix)
    }
}

/// What paths in a directory of the archive start with.
pub open spec fn dir_prefix(inner: Seq<char>) -> Seq<char> {
    if inner.len() == 0 {
        Seq::empty()
    } else {
        trim_back(inner, '/').push('/')
    }
}

/// The listing of a directory of the archive.
pub open spec fn archive_listing(f: Seq<(Seq<char>, Seq<u8>)>, inner: Seq<char>) -> Result<
    Seq<Shown>,
    FsError,
> {
    let l = with_files(Seq::empty(), f, dir_prefix(inner));
    if inner.len() > 0 && file_named(f, normal(inner)) is Some {
        Err(FsError::NotDirectory)
    } else if l.len() == 0 && inner.len() > 0 {
        Err(FsError::NotFound)
    } else {
        Ok(l)
    }
}

/// What the paths of everything below a directory start with.
pub open spec fn below(path: Seq<char>) -> Seq<char> {
    if path == seq!['/'] {
        path
    } else {
        path.push('/')
    }
}

/// The name by which a mount shows in a directory, if it lies below it: the first
/// component of what is left of its prefix.
pub open spec fn mount_name(prefix: Seq<char>, path: Seq<char>) -> Option<Seq<char>> {
    match stripped(prefix, below(path)) {
        Some(rest) if first_part(rest).len() > 0 => Some(first_part(rest)),
        _ => None,
    }
}

/// A listing with the first `n` mounts in it as directories.
pub open spec fn with_mounts(l: Seq<Shown>, ps: Seq<Seq<char>>, path: Seq<char>, n: int) -> Seq<Shown>
    decreases n,
{
    if n <= 0 {
        l
    } else {
        let before = with_mounts(l, ps, path, n - 1);
        match mount_name(ps[n - 1], path) {
            None => before,
            Some(name) => with_one(before, Shown { name, is_dir: true, size: 0 }),
        }
    }
}

/// The listing of a FAT32 directory.
pub open spec fn slots_shown(s: Seq<Slot>) -> Seq<Shown> {
    Seq::new(
        s.len(),
        |i: int| Shown { name: s[i].name, is_dir: s[i].is_dir, size: s[i].size as int },
    )
}

/// The listing of a directory, before the mounts in it.
pub open spec fn own_listing<D: BlockDevice>(v: Vfs<D>, path: Seq<char>) -> Result<
    Seq<Shown>,
    FsError,
> {
    match lookup(v, path) {
        Err(e) => Err(e),
        Ok((i, inner)) => match v.mounts@[i].fs {
            Filesystem::Initramfs => archive_listing(files_of(v.archive), inner),
            Filesystem::Fat32(fs) => match fs.volume().listing(inner) {
                Err(e) => Err(fs_error(e)),
                Ok(s) => Ok(slots_shown(s)),
            },
        },
    }
}

/// The listing of a directory, with the mounts in it.
pub open spec fn listing<D: BlockDevice>(v: Vfs<D>, path: Seq<char>) -> Result<Seq<Shown>, FsError> {
    match own_listing(v, path) {
        Err(e) => Err(e),
        Ok(l) => Ok(
            with_mounts(
                l,
                prefixes(v.mounts@),
                super::normal_path(path)->0,
                v.mounts@.len() as int,
            ),
        ),
    }
}

/// Add an entry to a list, unless its name is there.
fn add_one(out: &mut Vec<DirEntry>, name: Vec<char>, is_dir: bool, size: u32)
    ensures
        all_shown(final(out)@) == with_one(
            all_shown(old(out)@),
            Shown { name: name@, is_dir, size: size as int },
        ),
{
    let n: usize = out.len();
    let mut i: usize = 0;
    while i < n
        invariant
            i <= n,
            n == out@.len(),
            *out == *old(out),
            forall|k: int| 0 <= k < i ==> (#[trigger] all_shown(out@)[k]).name != name@,
        decreases n - i,
    {
        let other: Vec<char> = chars_of(out[i].name.as_str());
        if same_chars(other.as_slice(), name.as_slice()) {
            assert(all_shown(out@)[i as int].name == name@);
            return ;
        }
        i += 1;
    }
    out.push(DirEntry { name: string_of(name.as_slice()), is_dir, size });
    assert(all_shown(out@) =~= all_shown(old(out)@).push(
        Shown { name: name@, is_dir, size: size as int },
    ));
}

/// A string without the slashes at its end.
fn without_last_slashes(s: &[char]) -> (r: Vec<char>)
    ensures
        r@ == trim_back(s@, '/'),
{
    let mut n: usize = s.len();
    assert(s@.take(n as int) =~= s@);
    while n > 0 && s[n - 1] == '/'
        invariant
            n <= s@.len(),
            trim_back(s@.take(n as int), '/') == trim_back(s@, '/'),
        decreases n,
    {
        assert(s@.take(n as int).drop_last() =~= s@.take(n - 1));
        n -= 1;
    }
    let r: Vec<char> = piece(s, 0, n);
    assert(r@ =~= s@.take(n as int));
    r
}

/// List a directory of the archive.
fn list_archive(archive: Option<&[u8]>, inner: &str) -> (r: Result<Vec<DirEntry>, FsError>)
    ensures
        match r {
            Ok(l) => archive_listing(files_of(archive), inner@) == Ok::<Seq<Shown>, FsError>(
                all_shown(l@),
            ),
            Err(e) => archive_listing(files_of(archive), inner@) == Err::<Seq<Shown>, FsError>(e),
        },
{
    let path: Vec<char> = chars_of(inner);
    let mut prefix: Vec<char> = Vec::new();
    if path.len() > 0 {
        prefix = without_last_slashes(path.as_slice());
        prefix.push('/');
    }
    assert(prefix@ =~= dir_prefix(inner@));
    let ghost f = files_of(archive);
    let ghost whole = with_files(Seq::empty(), f, prefix@);
    let mut out: Vec<DirEntry> = Vec::new();
    let mut walk: Entries = entries(archive);
    proof {
        assert(all_shown(out@) =~= Seq::empty());
        assert(archive is None ==> walk.rest() =~= Seq::empty());
    }
    loop
        invariant_except_break
            with_files(all_shown(out@), walk.rest(), prefix@) == whole,
        ensures
            all_shown(out@) == whole,
        decreases walk.data@.len() - walk.off,
    {
        let ghost rest = walk.rest();
        let ghost l = all_shown(out@);
        match walk.next() {
            None => {
                break;
            },
            Some(e) => {
                let name: Vec<char> = chars_of(e.name.as_str());
                match strip_prefix(name.as_slice(), prefix.as_slice()) {
                    None => {},
                    Some(tail) => {
                        if tail.len() > 0 {
                            let at: usize = find_char(tail.as_slice(), '/');
                            let is_dir: bool = at < tail.len();
                            let size: u32 = if is_dir {
                                0
                            } else {
                                (e.data.len() as u64 % 0x1_0000_0000) as u32
                            };
                            let first: Vec<char> = piece(tail.as_slice(), 0, at);
                            assert(first@ =~= first_part(tail@));
                            add_one(&mut out, first, is_dir, size);
                        }
                    },
                }
                assert(all_shown(out@) == with_file(l, rest[0], prefix@));
            },
        }
    }
    if path.len() > 0 && find(archive, inner).is_some() {
        return Err(FsError::NotDirectory);
    }
    if out.len() == 0 && path.len() > 0 {
        return Err(FsError::NotFound);
    }
    Ok(out)
}

/// List a directory.
pub fn list<'a, D: BlockDevice>(vfs: &Vfs<'a, D>, path: &str) -> (r: Result<Vec<DirEntry>, FsError>)
    requires
        vfs.wf(),
    ensures
        match r {
            Ok(l) => listing(*vfs, path@) == Ok::<Seq<Shown>, FsError>(all_shown(l@)),
            Err(e) => listing(*vfs, path@) == Err::<Seq<Shown>, FsError>(e) || (may_fail(
                *vfs,
                path@,
            ) && e == FsError::Io),
        },
{
    let p: Vec<char> = super::normalize(path)?;
    let (i, inner) = vfs.find_mount(path)?;
    let mut out: Vec<DirEntry> = match &vfs.mounts[i].fs {
        Filesystem::Initramfs => list_archive(vfs.archive, inner.as_str())?,
        Filesystem::Fat32(fs) => match fs.list(inner.as_str()) {
            Ok(l) => {
                assert(all_shown(l@) =~= slots_shown(fs.volume().listing(inner@)->Ok_0));
                l
            },
            Err(e) => {
                return Err(map_fat_error(e));
            },
        },
    };
    let ghost own = all_shown(out@);
    let ghost ps = prefixes(vfs.mounts@);
    let n: usize = vfs.mounts.len();
    let mut k: usize = 0;
    while k < n
        invariant
            k <= n,
            n == vfs.mounts@.len(),
            ps == prefixes(vfs.mounts@),
            all_shown(out@) == with_mounts(own, ps, p@, k as int),
        decreases n - k,
    {
        match name_of_mount(vfs.mounts[k].prefix.as_slice(), p.as_slice()) {
            Some(name) => {
                add_one(&mut out, name, true, 0);
            },
            None => {},
        }
        k += 1;
    }
    Ok(out)
}

fn name_of_mount(prefix: &[char], path: &[char]) -> (r: Option<Vec<char>>)
    ensures
        match r {
            Some(name) => mount_name(prefix@, path@) == Some(name@),
            None => mount_name(prefix@, path@) is None,
        },
{
    let mut start: Vec<char> = piece(path, 0, path.len());
    assert(start@ =~= path@);
    if !super::is_root(path) {
        start.push('/');
    }
    assert(start@ =~= below(path@));
    let rest: Vec<char> = match strip_prefix(prefix, start.as_slice()) {
        Some(tail) => tail,
        None => {
            return None;
        },
    };
    let at: usize = find_char(rest.as_slice(), '/');
    let name: Vec<char> = piece(rest.as_slice(), 0, at);
    assert(name@ =~= first_part(rest@));
    if name.len() == 0 {
        return None;
    }
    Some(name)
}

/// Files are listed this deep.
pub const MAX_DEPTH: usize = 32;

/// Listing files stops at this many.
pub const MAX_FILES: usize = 4096;

/// The path of something in a directory.
pub open spec fn child_path(path: Seq<char>, name: Seq<char>) -> Seq<char> {
    if path == seq!['/'] {
        seq!['/'] + name
    } else {
        trim_back(path, '/').push('/') + name
    }
}

/// The files in and below a directory, after those listed so far.
pub open spec fn walked<D: BlockDevice>(
    v: Vfs<D>,
    path: Seq<char>,
    out: Seq<Seq<char>>,
    depth: int,
) -> Seq<Seq<char>>
    decreases MAX_DEPTH - depth, 1int, 0int,
{
    if depth >= MAX_DEPTH || out.len() >= MAX_FILES {
        out
    } else {
        match listing(v, path) {
            Err(_) => out,
            Ok(l) => walked_from(v, path, l, 0, out, depth),
        }
    }
}

/// The files of a listing from place `i` on, and below its directories.
pub open spec fn walked_from<D: BlockDevice>(
    v: Vfs<D>,
    path: Seq<char>,
    l: Seq<Shown>,
    i: int,
    out: Seq<Seq<char>>,
    depth: int,
) -> Seq<Seq<char>>
    decreases MAX_DEPTH - depth, 0int, l.len() - i,
{
    if i < 0 || i >= l.len() || depth >= MAX_DEPTH {
        out
    } else {
        let child = child_path(path, l[i].name);
        if l[i].is_dir {
            walked_from(v, path, l, i + 1, walked(v, child, out, depth + 1), depth)
        } else if out.len() + 1 >= MAX_FILES {
            out.push(child)
        } else {
            walked_from(v, path, l, i + 1, out.push(child), depth)
        }
    }
}

/// The views of a list of strings.
pub open spec fn texts(v: Seq<String>) -> Seq<Seq<char>> {
    Seq::new(v.len(), |i: int| v[i]@)
}

/// Whether no mounted device fails a read.
pub open spec fn all_reliable<D: BlockDevice>(v: Vfs<D>) -> bool {
    forall|i: int|
        0 <= i < v.mounts@.len() ==> match (#[trigger] v.mounts@[i]).fs {
            Filesystem::Initramfs => true,
            Filesystem::Fat32(fs) => fs.device.reliable(),
        }
}

fn child_of(path: &str, name: &str) -> (r: String)
    ensures
        r@ == child_path(path@, name@),
{
    let p: Vec<char> = chars_of(path);
    let mut out: Vec<char> = Vec::new();
    if !super::is_root(p.as_slice()) {
        out = without_last_slashes(p.as_slice());
    }
    out.push('/');
    super::append(&mut out, chars_of(name).as_slice());
    assert(out@ =~= child_path(path@, name@));
    string_of(out.as_slice())
}

/// Whether a list of paths has become longer, by none but paths of files below a
/// directory.
pub open spec fn is_longer<D: BlockDevice>(
    v: Vfs<D>,
    path: Seq<char>,
    before: Seq<String>,
    after: Seq<String>,
    depth: int,
) -> bool {
    &&& before.len() <= after.len()
    &&& forall|k: int| 0 <= k < before.len() ==> #[trigger] after[k] == before[k]
    &&& forall|k: int|
        before.len() <= k < after.len() ==> is_file_below(v, path, #[trigger] after[k]@, depth)
}

fn walk<'a, D: BlockDevice>(vfs: &Vfs<'a, D>, path: &str, out: &mut Vec<String>, depth: usize)
    requires
        vfs.wf(),
    ensures
        all_reliable(*vfs) ==> texts(final(out)@) == walked(
            *vfs,
            path@,
            texts(old(out)@),
            depth as int,
        ),
        is_longer(*vfs, path@, old(out)@, final(out)@, depth as int),
    decreases MAX_DEPTH - depth,
{
    if depth >= MAX_DEPTH || out.len() >= MAX_FILES {
        return ;
    }
    proof {
        super::lemma_lookup(*vfs, path@);
    }
    let l: Vec<DirEntry> = match list(vfs, path) {
        Ok(l) => l,
        Err(_) => {
            return ;
        },
    };
    let ghost whole = walked(*vfs, path@, texts(out@), depth as int);
    let ghost ls = all_shown(l@);
    let n: usize = l.len();
    let mut i: usize = 0;
    while i < n
        invariant
            i <= n,
            n == l@.len(),
            ls == all_shown(l@),
            listing(*vfs, path@) == Ok::<Seq<Shown>, FsError>(ls),
            depth < MAX_DEPTH,
            vfs.wf(),
            is_longer(*vfs, path@, old(out)@, out@, depth as int),
            all_reliable(*vfs) ==> whole == walked(
                *vfs,
                path@,
                texts(old(out)@),
                depth as int,
            ),
            all_reliable(*vfs) ==> whole == walked_from(
                *vfs,
                path@,
                ls,
                i as int,
                texts(out@),
                depth as int,
            ),
        decreases n - i,
    {
        let e: &DirEntry = &l[i];
        let child: String = child_of(path, e.name.as_str());
        assert(ls[i as int] == shown(*e));
        let ghost before = out@;
        if e.is_dir {
            walk(vfs, child.as_str(), out, depth + 1);
            proof {
                assert forall|k: int| old(out)@.len() <= k < out@.len() implies is_file_below(
                    *vfs,
                    path@,
                    #[trigger] out@[k]@,
                    depth as int,
                ) by {
                    if k >= before.len() {
                        lemma_entry_leads(*vfs, path@, ls, i as int, out@[k]@, depth as int);
                    }
                }
            }
        } else {
            out.push(child);
            proof {
                assert(texts(out@) =~= texts(before).push(child@));
                lemma_entry_leads(*vfs, path@, ls, i as int, child@, depth as int);
            }
            if out.len() >= MAX_FILES {
                return ;
            }
        }
        i += 1;
    }
}

/// List all files recursively, returning paths relative to the VFS root. A directory
/// that a device fails to read is passed over.
pub fn list_files<'a, D: BlockDevice>(vfs: &Vfs<'a, D>) -> (r: Vec<String>)
    requires
        vfs.wf(),
    ensures
        all_reliable(*vfs) ==> texts(r@) == walked(*vfs, seq!['/'], Seq::empty(), 0),
        forall|k: int| 0 <= k < r@.len() ==> is_file_below(*vfs, seq!['/'], #[trigger] r@[k]@, 0),
{
    let mut out: Vec<String> = Vec::new();
    proof {
        reveal_strlit("/");
        assert("/"@ =~= seq!['/']);
        assert(texts(out@) =~= Seq::empty());
    }
    walk(vfs, "/", &mut out, 0);
    out
}

} // verus!
