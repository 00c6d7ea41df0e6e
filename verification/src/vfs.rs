//! Small path-based VFS. Filesystems are mounted at path prefixes and implement
//! lookup and listing, with writes supported by FAT32 mounts.

use vstd::prelude::*;
use crate::block::BlockDevice;
use crate::fat32::{boot_geometry, Fat32, FatError};
use crate::text::{chars_of, piece, same_chars, split, split_at_char, string_of, trim_front, views};

pub mod calls;
pub mod files;
pub mod laws;
pub mod listing;
pub mod paths;
pub mod tree;

pub use files::{
    create_dir, create_file, file_size, read_all, read_at, remove, truncate, write_at,
};
pub use listing::{list, list_files};

verus! {

#[derive(Clone, Copy, Debug, PartialEq, Eq, Structural)]
pub enum FsError {
    NotFound,
    NotDirectory,
    IsDirectory,
    Io,
    InvalidPath,
    TooLarge,
    ReadOnly,
    NoSpace,
    InvalidName,
    AlreadyExists,
    DirectoryNotEmpty,
}

pub enum Filesystem<D> {
    Initramfs,
    Fat32(Fat32<D>),
}

pub struct Mount<D> {
    pub prefix: Vec<char>,
    pub fs: Filesystem<D>,
}

/// The mounts, and the archive that the initramfs is made of.
pub struct Vfs<'a, D> {
    pub archive: Option<&'a [u8]>,
    pub mounts: Vec<Mount<D>>,
}

/// What is left of the parts of a path: empty ones and `.` go, and `..` takes the
/// part before it away, which there must be.
pub open spec fn kept_parts(parts: Seq<Seq<char>>) -> Option<Seq<Seq<char>>>
    decreases parts.len(),
{
    if parts.len() == 0 {
        Some(Seq::empty())
    } else {
        match kept_parts(parts.drop_last()) {
            None => None,
            Some(kept) => {
                let p = parts.last();
                if p.len() == 0 || p == seq!['.'] {
                    Some(kept)
                } else if p == seq!['.', '.'] {
                    if kept.len() == 0 {
                        None
                    } else {
                        Some(kept.drop_last())
                    }
                } else {
                    Some(kept.push(p))
                }
            },
        }
    }
}

/// Parts with a slash before each.
pub open spec fn slashed(parts: Seq<Seq<char>>) -> Seq<char>
    decreases parts.len(),
{
    if parts.len() == 0 {
        Seq::empty()
    } else {
        slashed(parts.drop_last()).push('/') + parts.last()
    }
}

/// The absolute path that parts make.
pub open spec fn path_of(parts: Seq<Seq<char>>) -> Seq<char> {
    if parts.len() == 0 {
        seq!['/']
    } else {
        slashed(parts)
    }
}

/// A path in its normal form, unless it leads above the root.
pub open spec fn normal_path(path: Seq<char>) -> Option<Seq<char>> {
    match kept_parts(split(path, '/')) {
        Some(parts) => Some(path_of(parts)),
        None => None,
    }
}

/// Append one string to another.
fn append(s: &mut Vec<char>, t: &[char])
    ensures
        final(s)@ == old(s)@ + t@,
{
    let n: usize = t.len();
    let mut i: usize = 0;
    assert(s@ =~= old(s)@ + t@.take(0));
    while i < n
        invariant
            i <= n,
            n == t@.len(),
            s@ == old(s)@ + t@.take(i as int),
        decreases n - i,
    {
        s.push(t[i]);
        i += 1;
        assert(s@ =~= old(s)@ + t@.take(i as int));
    }
    assert(t@.take(n as int) =~= t@);
}

/// Bring a path into its normal form.
pub fn normalize(path: &str) -> (r: Result<Vec<char>, FsError>)
    ensures
        match r {
            Ok(p) => normal_path(path@) == Some(p@),
            Err(e) => normal_path(path@) is None && e == FsError::InvalidPath,
        },
{
    let given: Vec<char> = chars_of(path);
    let parts: Vec<Vec<char>> = split_at_char(given.as_slice(), '/');
    let ghost ps = split(path@, '/');
    let n: usize = parts.len();
    let mut kept: Vec<Vec<char>> = Vec::new();
    let mut i: usize = 0;
    proof {
        assert(ps.take(0) =~= Seq::empty());
        assert(views(kept@) =~= Seq::empty());
    }
    while i < n
        invariant
            i <= n,
            n == parts@.len(),
            views(parts@) == ps,
            ps == split(path@, '/'),
            kept_parts(ps.take(i as int)) == Some(views(kept@)),
        decreases n - i,
    {
        let p: &Vec<char> = &parts[i];
        let len: usize = p.len();
        let ghost before = kept@;
        proof {
            assert(ps.take(i + 1).drop_last() =~= ps.take(i as int));
            assert(ps.take(i + 1).last() == p@);
            assert(p@.len() == 1 && p@[0] == '.' ==> p@ =~= seq!['.']);
            assert(p@.len() == 2 && p@[0] == '.' && p@[1] == '.' ==> p@ =~= seq!['.', '.']);
        }
        if len == 0 || (len == 1 && p[0] == '.') {
        } else if len == 2 && p[0] == '.' && p[1] == '.' {
            if kept.len() == 0 {
                proof {
                    lemma_stays_bad(ps, i + 1);
                    assert(ps.take(ps.len() as int) =~= ps);
                }
                return Err(FsError::InvalidPath);
            }
            let _gone: Option<Vec<char>> = kept.pop();
            assert(views(kept@) =~= views(before).drop_last());
        } else {
            kept.push(piece(p.as_slice(), 0, len));
            proof {
                assert(p@.subrange(0, len as int) =~= p@);
                assert(views(kept@) =~= views(before).push(p@));
            }
        }
        i += 1;
    }
    assert(ps.take(n as int) =~= ps);
    let mut out: Vec<char> = Vec::new();
    let count: usize = kept.len();
    let ghost ks = views(kept@);
    if count == 0 {
        out.push('/');
        assert(out@ =~= seq!['/']);
        return Ok(out);
    }
    let mut k: usize = 0;
    assert(ks.take(0) =~= Seq::empty());
    while k < count
        invariant
            k <= count,
            count == kept@.len(),
            ks == views(kept@),
            out@ == slashed(ks.take(k as int)),
        decreases count - k,
    {
        out.push('/');
        append(&mut out, kept[k].as_slice());
        proof {
            assert(ks.take(k + 1).drop_last() =~= ks.take(k as int));
            assert(ks.take(k + 1).last() == kept@[k as int]@);
        }
        k += 1;
    }
    assert(ks.take(count as int) =~= ks);
    Ok(out)
}

proof fn lemma_stays_bad(ps: Seq<Seq<char>>, i: int)
    requires
        0 <= i <= ps.len(),
        kept_parts(ps.take(i)) is None,
    ensures
        kept_parts(ps.take(ps.len() as int)) is None,
    decreases ps.len() - i,
{
    if i < ps.len() {
        assert(ps.take(i + 1).drop_last() =~= ps.take(i));
        lemma_stays_bad(ps, i + 1);
    }
}

/// Whether a path is at or below a prefix.
pub open spec fn is_below(prefix: Seq<char>, path: Seq<char>) -> bool {
    ||| prefix == seq!['/']
    ||| path == prefix
    ||| prefix.len() < path.len() && path.take(prefix.len() as int) == prefix
        && path[prefix.len() as int] == '/'
}

/// What a path says below a prefix.
pub open spec fn inner_path(prefix: Seq<char>, path: Seq<char>) -> Seq<char> {
    if prefix == seq!['/'] {
        trim_front(path, '/')
    } else {
        trim_front(path.skip(prefix.len() as int), '/')
    }
}

/// The prefixes of mounts.
pub open spec fn prefixes<D>(m: Seq<Mount<D>>) -> Seq<Seq<char>> {
    Seq::new(m.len(), |i: int| m[i].prefix@)
}

/// The last of the longest of the first `n` prefixes that a path is below.
pub open spec fn route(ps: Seq<Seq<char>>, path: Seq<char>, n: int) -> Option<int>
    decreases n,
{
    if n <= 0 {
        None
    } else {
        match route(ps, path, n - 1) {
            None => if is_below(ps[n - 1], path) {
                Some(n - 1)
            } else {
                None
            },
            Some(b) => if is_below(ps[n - 1], path) && ps[n - 1].len() >= ps[b].len() {
                Some(n - 1)
            } else {
                Some(b)
            },
        }
    }
}

/// The mount that a path leads to and what it says there.
pub open spec fn lookup<D>(v: Vfs<D>, path: Seq<char>) -> Result<(int, Seq<char>), FsError> {
    match normal_path(path) {
        None => Err(FsError::InvalidPath),
        Some(p) => match route(prefixes(v.mounts@), p, v.mounts@.len() as int) {
            None => Err(FsError::NotFound),
            Some(i) => Ok((i, inner_path(v.mounts@[i].prefix@, p))),
        },
    }
}

/// The longest mount that a path is below gets it.
pub proof fn law_longest_mount_wins(ps: Seq<Seq<char>>, path: Seq<char>, n: int)
    requires
        0 <= n <= ps.len(),
    ensures
        match route(ps, path, n) {
            Some(b) => {
                &&& 0 <= b < n
                &&& is_below(ps[b], path)
                &&& forall|j: int|
                    0 <= j < n && #[trigger] is_below(ps[j], path) ==> ps[j].len() <= ps[b].len()
            },
            None => forall|j: int| 0 <= j < n ==> !#[trigger] is_below(ps[j], path),
        },
    decreases n,
{
    if n > 0 {
        law_longest_mount_wins(ps, path, n - 1);
    }
}

/// A path leads to a mount that is there.
pub proof fn lemma_lookup<D>(v: Vfs<D>, path: Seq<char>)
    ensures
        lookup(v, path) matches Ok((i, _)) ==> 0 <= i < v.mounts@.len(),
{
    match normal_path(path) {
        None => {},
        Some(p) => {
            law_longest_mount_wins(prefixes(v.mounts@), p, v.mounts@.len() as int);
        },
    }
}

/// Whether two strings are the same up to the length of the first.
fn has_prefix(s: &[char], prefix: &[char]) -> (r: bool)
    ensures
        r == (prefix@.len() <= s@.len() && s@.take(prefix@.len() as int) == prefix@),
{
    let n: usize = prefix.len();
    if s.len() < n {
        return false;
    }
    let head: Vec<char> = piece(s, 0, n);
    assert(head@ =~= s@.take(n as int));
    same_chars(head.as_slice(), prefix)
}

fn is_root(prefix: &[char]) -> (r: bool)
    ensures
        r == (prefix@ == seq!['/']),
{
    if prefix.len() == 1 && prefix[0] == '/' {
        assert(prefix@ =~= seq!['/']);
        true
    } else {
        false
    }
}

fn below(prefix: &[char], path: &[char]) -> (r: bool)
    ensures
        r == is_below(prefix@, path@),
{
    if is_root(prefix) {
        return true;
    }
    if same_chars(path, prefix) {
        return true;
    }
    prefix.len() < path.len() && has_prefix(path, prefix) && path[prefix.len()] == '/'
}

/// A string without the slashes it starts with, from a place on.
pub fn without_slashes(s: &[char], from: usize) -> (r: Vec<char>)
    requires
        from <= s@.len(),
    ensures
        r@ == trim_front(s@.skip(from as int), '/'),
{
    let n: usize = s.len();
    let mut i: usize = from;
    while i < n && s[i] == '/'
        invariant
            from <= i <= n,
            n == s@.len(),
            trim_front(s@.skip(from as int), '/') == trim_front(s@.skip(i as int), '/'),
        decreases n - i,
    {
        assert(s@.skip(i as int).skip(1) =~= s@.skip(i + 1));
        i += 1;
    }
    proof {
        assert(s@.skip(i as int) =~= s@.subrange(i as int, n as int));
        if i < n {
            assert(s@.skip(i as int)[0] == s@[i as int]);
        }
    }
    piece(s, i, n)
}

impl<'a, D: BlockDevice> Vfs<'a, D> {
    /// The mounted volumes are valid and no prefix is mounted twice.
    pub open spec fn wf(self) -> bool {
        &&& forall|i: int|
            0 <= i < self.mounts@.len() ==> match (#[trigger] self.mounts@[i]).fs {
                Filesystem::Initramfs => true,
                Filesystem::Fat32(fs) => fs.wf(),
            }
        &&& forall|i: int, j: int|
            0 <= i < j < self.mounts@.len() ==> (#[trigger] self.mounts@[i]).prefix@ != (
            #[trigger] self.mounts@[j]).prefix@
    }

    /// Find the mount that a path leads to.
    pub fn find_mount(&self, path: &str) -> (r: Result<(usize, String), FsError>)
        ensures
            match r {
                Ok((i, inner)) => i < self.mounts@.len() && lookup(*self, path@) == Ok::<
                    (int, Seq<char>),
                    FsError,
                >((i as int, inner@)),
                Err(e) => lookup(*self, path@) == Err::<(int, Seq<char>), FsError>(e),
            },
    {
        let p: Vec<char> = normalize(path)?;
        let ghost ps = prefixes(self.mounts@);
        let n: usize = self.mounts.len();
        let mut best: Option<usize> = None;
        let mut i: usize = 0;
        while i < n
            invariant
                i <= n,
                n == self.mounts@.len(),
                ps == prefixes(self.mounts@),
                match best {
                    Some(b) => b < i && route(ps, p@, i as int) == Some(b as int),
                    None => route(ps, p@, i as int) is None,
                },
            decreases n - i,
        {
            if below(self.mounts[i].prefix.as_slice(), p.as_slice()) {
                match best {
                    None => {
                        best = Some(i);
                    },
                    Some(b) => {
                        if self.mounts[i].prefix.len() >= self.mounts[b].prefix.len() {
                            best = Some(i);
                        }
                    },
                }
            }
            i += 1;
        }
        match best {
            None => Err(FsError::NotFound),
            Some(b) => {
                proof {
                    law_longest_mount_wins(ps, p@, n as int);
                    assert(p@.skip(0) =~= p@);
                }
                let prefix: &Vec<char> = &self.mounts[b].prefix;
                let inner: Vec<char> = if is_root(prefix.as_slice()) {
                    without_slashes(p.as_slice(), 0)
                } else {
                    without_slashes(p.as_slice(), prefix.len())
                };
                Ok((b, string_of(inner.as_slice())))
            },
        }
    }
}

/// Mount the boot archive as the root filesystem.
pub fn init<'a, D: BlockDevice>(archive: Option<&'a [u8]>) -> (v: Vfs<'a, D>)
    ensures
        v.wf(),
        v.archive == archive,
        v.mounts@.len() == 1,
        v.mounts@[0].prefix@ == seq!['/'],
        v.mounts@[0].fs is Initramfs,
{
    let mut mounts: Vec<Mount<D>> = Vec::new();
    let mut prefix: Vec<char> = Vec::new();
    prefix.push('/');
    assert(prefix@ =~= seq!['/']);
    mounts.push(Mount { prefix, fs: Filesystem::Initramfs });
    Vfs { archive, mounts }
}

/// Mount a FAT32 volume at an absolute path, e.g. `/disk`.
pub fn mount_fat32<'a, D: BlockDevice>(vfs: &mut Vfs<'a, D>, prefix: &str, device: D) -> (r: Result<
    (),
    FsError,
>)
    requires
        old(vfs).wf(),
        device.wf(),
    ensures
        final(vfs).wf(),
        final(vfs).archive == old(vfs).archive,
        r is Err ==> final(vfs).mounts@ == old(vfs).mounts@,
        r is Ok ==> {
            let n = old(vfs).mounts@.len() as int;
            &&& final(vfs).mounts@.len() == n + 1
            &&& final(vfs).mounts@.take(n) == old(vfs).mounts@
            &&& Some(final(vfs).mounts@[n].prefix@) == normal_path(prefix@)
            &&& final(vfs).mounts@[n].fs matches Filesystem::Fat32(fs) && fs.is_just_mounted(device)
        },
        ({
            let p = normal_path(prefix@);
            let sound = device.sectors().len() > 0 && boot_geometry(
                device.sectors()[0],
                device.sectors().len() as int,
            ) is Ok;
            let taken = p is Some && exists|i: int|
                0 <= i < old(vfs).mounts@.len() && (#[trigger] old(vfs).mounts@[i]).prefix@ == p->0;
            let expected = if p is None || p == Some(seq!['/']) {
                Err::<(), FsError>(FsError::InvalidPath)
            } else if !sound {
                Err(FsError::Io)
            } else if taken {
                Err(FsError::InvalidPath)
            } else {
                Ok(())
            };
            r == expected || (!device.reliable() && r == Err::<(), FsError>(FsError::Io))
        }),
{
    let p: Vec<char> = normalize(prefix)?;
    if is_root(p.as_slice()) {
        return Err(FsError::InvalidPath);
    }
    let fs: Fat32<D> = match Fat32::mount(device) {
        Ok(fs) => fs,
        Err(_) => {
            return Err(FsError::Io);
        },
    };
    let n: usize = vfs.mounts.len();
    let mut i: usize = 0;
    while i < n
        invariant
            i <= n,
            n == vfs.mounts@.len(),
            *vfs == *old(vfs),
            forall|k: int| 0 <= k < i ==> (#[trigger] vfs.mounts@[k]).prefix@ != p@,
            normal_path(prefix@) == Some(p@),
            p@ != seq!['/'],
            device.sectors().len() > 0,
            boot_geometry(device.sectors()[0], device.sectors().len() as int) is Ok,
            fs.wf(),
            fs.is_just_mounted(device),
            old(vfs).wf(),
        decreases n - i,
    {
        if same_chars(vfs.mounts[i].prefix.as_slice(), p.as_slice()) {
            assert(old(vfs).mounts@[i as int].prefix@ == p@);
            return Err(FsError::InvalidPath);
        }
        i += 1;
    }
    vfs.mounts.push(Mount { prefix: p, fs: Filesystem::Fat32(fs) });
    assert(vfs.mounts@.take(n as int) =~= old(vfs).mounts@);
    Ok(())
}

/// The error for one of a FAT32 volume.
pub open spec fn fs_error(e: FatError) -> FsError {
    match e {
        FatError::NotFound => FsError::NotFound,
        FatError::NotDirectory => FsError::NotDirectory,
        FatError::IsDirectory => FsError::IsDirectory,
        FatError::TooLarge => FsError::TooLarge,
        FatError::NoSpace => FsError::NoSpace,
        FatError::InvalidName => FsError::InvalidName,
        FatError::AlreadyExists => FsError::AlreadyExists,
        FatError::DirectoryNotEmpty => FsError::DirectoryNotEmpty,
        _ => FsError::Io,
    }
}

pub fn map_fat_error(e: FatError) -> (r: FsError)
    ensures
        r == fs_error(e),
{
    match e {
        FatError::NotFound => FsError::NotFound,
        FatError::NotDirectory => FsError::NotDirectory,
        FatError::IsDirectory => FsError::IsDirectory,
        FatError::TooLarge => FsError::TooLarge,
        FatError::NoSpace => FsError::NoSpace,
        FatError::InvalidName => FsError::InvalidName,
        FatError::AlreadyExists => FsError::AlreadyExists,
        FatError::DirectoryNotEmpty => FsError::DirectoryNotEmpty,
        _ => FsError::Io,
    }
}

/// An error of a volume keeps its meaning; what is wrong with the volume itself is one error
/// of the device.
pub proof fn law_errors_keep_their_meaning(a: FatError, b: FatError)
    ensures
        fs_error(a) == fs_error(b) && fs_error(a) != FsError::Io ==> a == b,
        a is NotFound ==> fs_error(a) is NotFound,
        a is NotDirectory ==> fs_error(a) is NotDirectory,
        a is IsDirectory ==> fs_error(a) is IsDirectory,
        a is TooLarge ==> fs_error(a) is TooLarge,
        a is NoSpace ==> fs_error(a) is NoSpace,
        a is InvalidName ==> fs_error(a) is InvalidName,
        a is AlreadyExists ==> fs_error(a) is AlreadyExists,
        a is DirectoryNotEmpty ==> fs_error(a) is DirectoryNotEmpty,
{
}

} // verus!
