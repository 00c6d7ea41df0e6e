//! Files through the VFS.

use vstd::prelude::*;
use vstd::slice::slice_subrange;
use super::{fs_error, lookup, map_fat_error, Filesystem, FsError, Mount, Vfs};
use crate::block::BlockDevice;
use crate::bytes::{copy_into, part_of};
use crate::fat32::model::Volume;
use crate::fat32::{Fat32, FatError};
use crate::initramfs::{file_named, files_of, find, normal};

verus! {

/// The largest file that is read as a whole.
pub const MAX_READ_ALL: usize = 16 * 1024 * 1024;

/// What a FAT32 result is to callers of the VFS.
pub open spec fn fs_result<T>(r: Result<T, FatError>) -> Result<T, FsError> {
    match r {
        Ok(x) => Ok(x),
        Err(e) => Err(fs_error(e)),
    }
}

/// Whether reading what a path leads to can fail for the device's sake.
pub open spec fn may_fail<D: BlockDevice>(v: Vfs<D>, path: Seq<char>) -> bool {
    lookup(v, path) matches Ok((i, _)) && v.mounts@[i].fs matches Filesystem::Fat32(fs)
        && !fs.device.reliable()
}

/// What reading gives.
pub open spec fn read_result<D: BlockDevice>(
    v: Vfs<D>,
    path: Seq<char>,
    offset: int,
    len: int,
) -> Result<Seq<u8>, FsError> {
    match lookup(v, path) {
        Err(e) => Err(e),
        Ok((i, inner)) => match v.mounts@[i].fs {
            Filesystem::Initramfs => match file_named(files_of(v.archive), normal(inner)) {
                None => Err(FsError::NotFound),
                Some(data) => Ok(part_of(data, offset, len)),
            },
            Filesystem::Fat32(fs) => fs_result(fs.volume().read(inner, offset, len)),
        },
    }
}

/// Whether a read failed because the device under the path failed.
pub open spec fn is_cut_off<D: BlockDevice, T>(
    v: Vfs<D>,
    path: Seq<char>,
    r: Result<T, FsError>,
) -> bool {
    may_fail(v, path) && r == Err::<T, FsError>(FsError::Io)
}

/// Whether this is what `read_at` answers and does to the buffer it is given: bytes of the
/// file stand in front, and behind them what stood there. Where the path leads to no file
/// the buffer is as it was.
pub open spec fn gives_piece<D: BlockDevice>(
    v: Vfs<D>,
    path: Seq<char>,
    offset: usize,
    before: Seq<u8>,
    after: Seq<u8>,
    r: Result<usize, FsError>,
) -> bool {
    let expected = read_result(v, path, offset as int, before.len() as int);
    &&& after.len() == before.len()
    &&& size_result(v, path) is Err ==> after == before
    &&& match r {
        Ok(n) => {
            &&& n <= before.len()
            &&& expected == Ok::<Seq<u8>, FsError>(after.take(n as int))
            &&& after.skip(n as int) == before.skip(n as int)
            &&& offset + n <= usize::MAX
        },
        Err(e) => expected == Err::<Seq<u8>, FsError>(e) || is_cut_off(v, path, r),
    }
}

/// Read up to `out.len()` bytes of a file from an offset on. Where the path leads to no
/// file, `out` stays as it was; where reading a file fails, what `out` then holds is not
/// said.
pub fn read_at<'a, D: BlockDevice>(vfs: &Vfs<'a, D>, path: &str, offset: usize, out: &mut [u8]) -> (r:
    Result<usize, FsError>)
    requires
        vfs.wf(),
    ensures
        gives_piece(*vfs, path@, offset, old(out)@, final(out)@, r),
{
    let (i, inner) = vfs.find_mount(path)?;
    match &vfs.mounts[i].fs {
        Filesystem::Initramfs => {
            let data: &[u8] = match find(vfs.archive, inner.as_str()) {
                Some(data) => data,
                None => {
                    return Err(FsError::NotFound);
                },
            };
            let total: usize = data.len();
            if offset >= total {
                assert(out@.take(0) =~= Seq::<u8>::empty());
                return Ok(0);
            }
            let n: usize = if out.len() < total - offset {
                out.len()
            } else {
                total - offset
            };
            let ghost before = out@;
            let part: &[u8] = slice_subrange(data, offset, offset + n);
            copy_into(out, 0, part);
            proof {
                assert(out@.take(n as int) =~= part_of(
                    data@,
                    offset as int,
                    before.len() as int,
                ));
                assert(out@.skip(n as int) =~= before.skip(n as int));
            }
            Ok(n)
        },
        Filesystem::Fat32(fs) => match fs.read_at(inner.as_str(), offset, out) {
            Ok(n) => {
                proof {
                    let node = fs.volume().resolve(inner@)->Ok_0;
                    fs.volume().lemma_read_length(node, offset as int, out@.len() as int);
                }
                Ok(n)
            },
            Err(e) => Err(map_fat_error(e)),
        },
    }
}

/// The size of a file.
pub open spec fn size_result<D: BlockDevice>(v: Vfs<D>, path: Seq<char>) -> Result<int, FsError> {
    match lookup(v, path) {
        Err(e) => Err(e),
        Ok((i, inner)) => match v.mounts@[i].fs {
            Filesystem::Initramfs => match file_named(files_of(v.archive), normal(inner)) {
                None => Err(FsError::NotFound),
                Some(data) => Ok(data.len() as int),
            },
            Filesystem::Fat32(fs) => match fs.volume().resolve(inner) {
                Err(e) => Err(fs_error(e)),
                Ok(node) => if node.is_dir {
                    Err(FsError::IsDirectory)
                } else {
                    Ok(node.size as int)
                },
            },
        },
    }
}

/// Whether this is what `file_size` answers.
pub open spec fn gives_size<D: BlockDevice>(
    v: Vfs<D>,
    path: Seq<char>,
    r: Result<usize, FsError>,
) -> bool {
    match r {
        Ok(n) => size_result(v, path) == Ok::<int, FsError>(n as int),
        Err(e) => size_result(v, path) == Err::<int, FsError>(e) || is_cut_off(v, path, r),
    }
}

pub fn file_size<'a, D: BlockDevice>(vfs: &Vfs<'a, D>, path: &str) -> (r: Result<usize, FsError>)
    requires
        vfs.wf(),
    ensures
        gives_size(*vfs, path@, r),
{
    let (i, inner) = vfs.find_mount(path)?;
    match &vfs.mounts[i].fs {
        Filesystem::Initramfs => match find(vfs.archive, inner.as_str()) {
            Some(data) => Ok(data.len()),
            None => Err(FsError::NotFound),
        },
        Filesystem::Fat32(fs) => match fs.stat(inner.as_str()) {
            Ok(e) => if e.is_dir {
                Err(FsError::IsDirectory)
            } else {
                Ok(e.size as usize)
            },
            Err(e) => Err(map_fat_error(e)),
        },
    }
}

/// All of a file.
pub open spec fn whole_result<D: BlockDevice>(v: Vfs<D>, path: Seq<char>) -> Result<
    Seq<u8>,
    FsError,
> {
    match size_result(v, path) {
        Err(e) => Err(e),
        Ok(size) => if size > MAX_READ_ALL {
            Err(FsError::TooLarge)
        } else {
            match read_result(v, path, 0, size) {
                Err(e) => Err(e),
                Ok(data) => if data.len() == size {
                    Ok(data)
                } else {
                    Err(FsError::Io)
                },
            }
        },
    }
}

/// Whether this is what `read_all` answers.
pub open spec fn gives_whole<D: BlockDevice>(
    v: Vfs<D>,
    path: Seq<char>,
    r: Result<Vec<u8>, FsError>,
) -> bool {
    match r {
        Ok(data) => whole_result(v, path) == Ok::<Seq<u8>, FsError>(data@),
        Err(e) => whole_result(v, path) == Err::<Seq<u8>, FsError>(e) || is_cut_off(v, path, r),
    }
}

/// Read all of a file.
pub fn read_all<'a, D: BlockDevice>(vfs: &Vfs<'a, D>, path: &str) -> (r: Result<Vec<u8>, FsError>)
    requires
        vfs.wf(),
    ensures
        gives_whole(*vfs, path@, r),
{
    let size: usize = file_size(vfs, path)?;
    if size > MAX_READ_ALL {
        return Err(FsError::TooLarge);
    }
    let mut data: Vec<u8> = vec![0u8; size];
    let n: usize = read_at(vfs, path, 0, &mut data)?;
    if n != size {
        return Err(FsError::Io);
    }
    assert(data@.take(n as int) =~= data@);
    Ok(data)
}

/// Whether an operation on what a path leads to left all else alone: the archive,
/// the prefixes and the other volumes.
pub open spec fn is_else_kept<D: BlockDevice>(old_v: Vfs<D>, new_v: Vfs<D>, path: Seq<char>) -> bool {
    &&& new_v.wf()
    &&& new_v.archive == old_v.archive
    &&& new_v.mounts@.len() == old_v.mounts@.len()
    &&& match lookup(old_v, path) {
        Err(_) => new_v.mounts@ == old_v.mounts@,
        Ok((i, _)) => {
            &&& new_v.mounts@[i].prefix == old_v.mounts@[i].prefix
            &&& forall|j: int|
                0 <= j < old_v.mounts@.len() && j != i ==> #[trigger] new_v.mounts@[j]
                    == old_v.mounts@[j]
            &&& match (old_v.mounts@[i].fs, new_v.mounts@[i].fs) {
                (Filesystem::Initramfs, Filesystem::Initramfs) => true,
                (Filesystem::Fat32(f), Filesystem::Fat32(g)) => g.kept(&f),
                _ => false,
            }
        },
    }
}

/// Whether a volume and a result are what an operation on volume `f` should give: just
/// that where it succeeds or the device fails nothing, and no other error than that or
/// the one of a device that failed.
pub open spec fn is_done<D: BlockDevice, T>(
    f: Fat32<D>,
    fs: Filesystem<D>,
    r: Result<T, FsError>,
    done: (Volume, Result<T, FatError>),
) -> bool {
    match fs {
        Filesystem::Initramfs => false,
        Filesystem::Fat32(g) => {
            &&& r is Ok || f.healthy() ==> g.volume() == done.0 && r == fs_result(done.1)
            &&& r is Err ==> r == fs_result(done.1) || (!f.healthy() && r == Err::<T, FsError>(
                FsError::Io,
            ))
        },
    }
}

/// What creating a file comes to: an archive takes no changes, and a volume does
/// what it does.
pub open spec fn is_create_file<D: BlockDevice>(
    old_v: Vfs<D>,
    new_v: Vfs<D>,
    path: Seq<char>,
    r: Result<(), FsError>,
) -> bool {
    match lookup(old_v, path) {
        Err(e) => r == Err::<(), FsError>(e),
        Ok((i, inner)) => match old_v.mounts@[i].fs {
            Filesystem::Initramfs => r == Err::<(), FsError>(FsError::ReadOnly),
            Filesystem::Fat32(f) => is_done(
                f,
                new_v.mounts@[i].fs,
                r,
                f.volume().create_file(inner),
            ),
        },
    }
}

pub fn create_file<'a, D: BlockDevice>(vfs: &mut Vfs<'a, D>, path: &str) -> (r: Result<
    (),
    FsError,
>)
    requires
        old(vfs).wf(),
    ensures
        is_else_kept(*old(vfs), *final(vfs), path@),
        is_create_file(*old(vfs), *final(vfs), path@, r),
{
    let (i, inner) = vfs.find_mount(path)?;
    let m: &mut Mount<D> = &mut vfs.mounts[i];
    match &mut m.fs {
        Filesystem::Initramfs => Err(FsError::ReadOnly),
        Filesystem::Fat32(fs) => match fs.create_file(inner.as_str()) {
            Ok(n) => Ok(n),
            Err(e) => Err(map_fat_error(e)),
        },
    }
}

/// What creating a directory comes to: an archive takes no changes, and a volume does
/// what it does.
pub open spec fn is_create_dir<D: BlockDevice>(
    old_v: Vfs<D>,
    new_v: Vfs<D>,
    path: Seq<char>,
    r: Result<(), FsError>,
) -> bool {
    match lookup(old_v, path) {
        Err(e) => r == Err::<(), FsError>(e),
        Ok((i, inner)) => match old_v.mounts@[i].fs {
            Filesystem::Initramfs => r == Err::<(), FsError>(FsError::ReadOnly),
            Filesystem::Fat32(f) => is_done(
                f,
                new_v.mounts@[i].fs,
                r,
                f.volume().create_dir(inner),
            ),
        },
    }
}

pub fn create_dir<'a, D: BlockDevice>(vfs: &mut Vfs<'a, D>, path: &str) -> (r: Result<
    (),
    FsError,
>)
    requires
        old(vfs).wf(),
    ensures
        is_else_kept(*old(vfs), *final(vfs), path@),
        is_create_dir(*old(vfs), *final(vfs), path@, r),
{
    let (i, inner) = vfs.find_mount(path)?;
    let m: &mut Mount<D> = &mut vfs.mounts[i];
    match &mut m.fs {
        Filesystem::Initramfs => Err(FsError::ReadOnly),
        Filesystem::Fat32(fs) => match fs.create_dir(inner.as_str()) {
            Ok(n) => Ok(n),
            Err(e) => Err(map_fat_error(e)),
        },
    }
}

/// What removing a file or an empty directory comes to: an archive takes no changes, and
/// a volume does what it does.
pub open spec fn is_remove<D: BlockDevice>(
    old_v: Vfs<D>,
    new_v: Vfs<D>,
    path: Seq<char>,
    r: Result<(), FsError>,
) -> bool {
    match lookup(old_v, path) {
        Err(e) => r == Err::<(), FsError>(e),
        Ok((i, inner)) => match old_v.mounts@[i].fs {
            Filesystem::Initramfs => r == Err::<(), FsError>(FsError::ReadOnly),
            Filesystem::Fat32(f) => is_done(
                f,
                new_v.mounts@[i].fs,
                r,
                f.volume().remove(inner),
            ),
        },
    }
}

pub fn remove<'a, D: BlockDevice>(vfs: &mut Vfs<'a, D>, path: &str) -> (r: Result<
    (),
    FsError,
>)
    requires
        old(vfs).wf(),
    ensures
        is_else_kept(*old(vfs), *final(vfs), path@),
        is_remove(*old(vfs), *final(vfs), path@, r),
{
    let (i, inner) = vfs.find_mount(path)?;
    let m: &mut Mount<D> = &mut vfs.mounts[i];
    match &mut m.fs {
        Filesystem::Initramfs => Err(FsError::ReadOnly),
        Filesystem::Fat32(fs) => match fs.remove(inner.as_str()) {
            Ok(n) => Ok(n),
            Err(e) => Err(map_fat_error(e)),
        },
    }
}

/// What truncating a file comes to: an archive takes no changes, and a volume does
/// what it does.
pub open spec fn is_truncate<D: BlockDevice>(
    old_v: Vfs<D>,
    new_v: Vfs<D>,
    path: Seq<char>,
    r: Result<(), FsError>,
) -> bool {
    match lookup(old_v, path) {
        Err(e) => r == Err::<(), FsError>(e),
        Ok((i, inner)) => match old_v.mounts@[i].fs {
            Filesystem::Initramfs => r == Err::<(), FsError>(FsError::ReadOnly),
            Filesystem::Fat32(f) => is_done(
                f,
                new_v.mounts@[i].fs,
                r,
                f.volume().truncate(inner),
            ),
        },
    }
}

pub fn truncate<'a, D: BlockDevice>(vfs: &mut Vfs<'a, D>, path: &str) -> (r: Result<
    (),
    FsError,
>)
    requires
        old(vfs).wf(),
    ensures
        is_else_kept(*old(vfs), *final(vfs), path@),
        is_truncate(*old(vfs), *final(vfs), path@, r),
{
    let (i, inner) = vfs.find_mount(path)?;
    let m: &mut Mount<D> = &mut vfs.mounts[i];
    match &mut m.fs {
        Filesystem::Initramfs => Err(FsError::ReadOnly),
        Filesystem::Fat32(fs) => match fs.truncate(inner.as_str()) {
            Ok(n) => Ok(n),
            Err(e) => Err(map_fat_error(e)),
        },
    }
}

/// What writing to a file comes to: an archive takes no changes, and a volume does
/// what it does.
pub open spec fn is_write<D: BlockDevice>(
    old_v: Vfs<D>,
    new_v: Vfs<D>,
    path: Seq<char>,
    offset: int,
    data: Seq<u8>,
    r: Result<usize, FsError>,
) -> bool {
    match lookup(old_v, path) {
        Err(e) => r == Err::<usize, FsError>(e),
        Ok((i, inner)) => match old_v.mounts@[i].fs {
            Filesystem::Initramfs => r == Err::<usize, FsError>(FsError::ReadOnly),
            Filesystem::Fat32(f) => {
                &&& is_done(f, new_v.mounts@[i].fs, r, f.volume().write(inner, offset, data))
                &&& data.len() == 0 ==> r == Ok::<usize, FsError>(0) && new_v.mounts@[i]
                    == old_v.mounts@[i]
                &&& data.len() > 0 && offset + data.len() > u32::MAX ==> r == Err::<
                    usize,
                    FsError,
                >(FsError::TooLarge) && new_v.mounts@[i] == old_v.mounts@[i]
            },
        },
    }
}

pub fn write_at<'a, D: BlockDevice>(vfs: &mut Vfs<'a, D>, path: &str, offset: usize, data: &[u8]) -> (r: Result<
    usize,
    FsError,
>)
    requires
        old(vfs).wf(),
    ensures
        is_else_kept(*old(vfs), *final(vfs), path@),
        is_write(*old(vfs), *final(vfs), path@, offset as int, data@, r),
{
    let (i, inner) = vfs.find_mount(path)?;
    let m: &mut Mount<D> = &mut vfs.mounts[i];
    match &mut m.fs {
        Filesystem::Initramfs => Err(FsError::ReadOnly),
        Filesystem::Fat32(fs) => match fs.write_at(inner.as_str(), offset, data) {
            Ok(n) => Ok(n),
            Err(e) => Err(map_fat_error(e)),
        },
    }
}

} // verus!
