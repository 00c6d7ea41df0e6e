//! What holds of the answers of reads through the VFS, taken together.

use vstd::prelude::*;
use super::{lemma_lookup, lookup, normal_path, Filesystem, FsError, Vfs};
use super::files::{
    gives_piece, gives_size, gives_whole, is_cut_off, whole_result, MAX_READ_ALL,
};
use super::laws::law_reads_are_pieces;
use crate::block::BlockDevice;
use crate::bytes::part_of;
use crate::initramfs::{file_named, files_of, normal};

verus! {

/// Whether this is what `read_at` gives of a file with these bytes: those that lie there,
/// as many as there are and fit, in front of what stood in the buffer.
pub open spec fn is_read_of(
    content: Seq<u8>,
    offset: usize,
    before: Seq<u8>,
    after: Seq<u8>,
    r: Result<usize, FsError>,
) -> bool {
    let piece = part_of(content, offset as int, before.len() as int);
    &&& r == Ok::<usize, FsError>(piece.len() as usize)
    &&& after == piece + before.skip(piece.len() as int)
}

/// A whole file is as long as its size says. Where there is no size there is no file to
/// read either, and the error is the same; more than 16 MiB are not read at once.
pub proof fn law_whole_file_is_as_sized<D: BlockDevice>(
    v: Vfs<D>,
    path: Seq<char>,
    size: Result<usize, FsError>,
    whole: Result<Vec<u8>, FsError>,
)
    requires
        gives_size(v, path, size),
        gives_whole(v, path, whole),
        !is_cut_off(v, path, size),
    ensures
        is_cut_off(v, path, whole) || match size {
            Err(e) => whole == Err::<Vec<u8>, FsError>(e),
            Ok(n) => {
                &&& n > MAX_READ_ALL ==> whole == Err::<Vec<u8>, FsError>(FsError::TooLarge)
                &&& whole matches Ok(data) ==> data@.len() == n
            },
        },
{
}

/// A read at an offset gives the piece of the whole file that lies there, and leaves the
/// rest of the buffer as it was.
pub proof fn law_reads_agree<D: BlockDevice>(
    v: Vfs<D>,
    path: Seq<char>,
    content: Vec<u8>,
    offset: usize,
    before: Seq<u8>,
    after: Seq<u8>,
    r: Result<usize, FsError>,
)
    requires
        v.wf(),
        gives_whole(v, path, Ok(content)),
        gives_piece(v, path, offset, before, after, r),
        before.len() <= usize::MAX,
    ensures
        is_cut_off(v, path, r) || is_read_of(content@, offset, before, after, r),
{
    law_reads_are_pieces(v, path, content@, offset as int, before.len() as int);
    if let Ok(n) = r {
        let piece = part_of(content@, offset as int, before.len() as int);
        assert(after.take(n as int) == piece);
        assert(after =~= after.take(n as int) + after.skip(n as int));
    }
}

/// Paths that come to the same are answered the same.
pub proof fn law_same_path_same_answer<D: BlockDevice>(
    v: Vfs<D>,
    p: Seq<char>,
    q: Seq<char>,
    offset: usize,
    before: Seq<u8>,
    by_p: Seq<u8>,
    by_q: Seq<u8>,
    r: Result<usize, FsError>,
    s: Result<usize, FsError>,
)
    requires
        normal_path(p) == normal_path(q),
        gives_piece(v, p, offset, before, by_p, r),
        gives_piece(v, q, offset, before, by_q, s),
    ensures
        is_cut_off(v, p, r) || is_cut_off(v, q, s) || {
            &&& r == s
            &&& r is Ok ==> by_p == by_q
        },
        forall|size: Result<usize, FsError>|
            gives_size(v, p, size) == #[trigger] gives_size(v, q, size),
        forall|whole: Result<Vec<u8>, FsError>|
            gives_whole(v, p, whole) == #[trigger] gives_whole(v, q, whole),
{
    if r is Ok && s is Ok {
        let n = r->Ok_0 as int;
        let m = s->Ok_0 as int;
        assert(by_p.take(n) == by_q.take(m));
        assert(by_p.take(n).len() == n && by_q.take(m).len() == m);
        assert(by_p =~= by_p.take(n) + by_p.skip(n));
        assert(by_q =~= by_q.take(m) + by_q.skip(m));
    }
}

/// A path that climbs over the root is refused, and the buffer is as it was.
pub proof fn law_climbing_is_refused<D: BlockDevice>(
    v: Vfs<D>,
    path: Seq<char>,
    offset: usize,
    before: Seq<u8>,
    after: Seq<u8>,
    r: Result<usize, FsError>,
    size: Result<usize, FsError>,
    whole: Result<Vec<u8>, FsError>,
)
    requires
        normal_path(path) is None,
        gives_piece(v, path, offset, before, after, r),
        gives_size(v, path, size),
        gives_whole(v, path, whole),
    ensures
        r == Err::<usize, FsError>(FsError::InvalidPath),
        after == before,
        size == Err::<usize, FsError>(FsError::InvalidPath),
        whole == Err::<Vec<u8>, FsError>(FsError::InvalidPath),
{
}

/// Reading from the initramfs never fails where there is a file: as many bytes come as
/// there are from the offset on and fit. Anything else is not found.
pub proof fn law_archive_reads<D: BlockDevice>(
    v: Vfs<D>,
    path: Seq<char>,
    offset: usize,
    before: Seq<u8>,
    after: Seq<u8>,
    r: Result<usize, FsError>,
    size: Result<usize, FsError>,
)
    requires
        lookup(v, path) matches Ok((i, _)) && v.mounts@[i].fs is Initramfs,
        gives_piece(v, path, offset, before, after, r),
        gives_size(v, path, size),
        before.len() <= usize::MAX,
    ensures
        match file_named(files_of(v.archive), normal(lookup(v, path)->Ok_0.1)) {
            None => {
                &&& r == Err::<usize, FsError>(FsError::NotFound)
                &&& size == Err::<usize, FsError>(FsError::NotFound)
                &&& after == before
            },
            Some(data) => {
                &&& size matches Ok(n) && n == data.len()
                &&& r matches Ok(n) && n == if offset >= data.len() {
                    0
                } else if before.len() <= data.len() - offset {
                    before.len() as int
                } else {
                    data.len() - offset
                }
                &&& after == part_of(data, offset as int, before.len() as int) + before.skip(
                    r->Ok_0 as int,
                )
            },
        },
{
    if let Some(data) = file_named(files_of(v.archive), normal(lookup(v, path)->Ok_0.1)) {
        let piece = part_of(data, offset as int, before.len() as int);
        let n = r->Ok_0 as int;
        assert(after.take(n) == piece);
        assert(after.take(n).len() == n);
        assert(after =~= after.take(n) + after.skip(n));
    }
}

/// The size of a file is where reads end: from there on nothing comes, and one byte in
/// front of it a single byte does, where that can be read, as it can where all can.
pub proof fn law_size_is_where_reads_end<D: BlockDevice>(
    v: Vfs<D>,
    path: Seq<char>,
    size: usize,
    before: Seq<u8>,
    at_end: Seq<u8>,
    r: Result<usize, FsError>,
    at_last: Seq<u8>,
    s: Result<usize, FsError>,
)
    requires
        v.wf(),
        gives_size(v, path, Ok(size)),
        gives_piece(v, path, size, before, at_end, r),
        size > 0 ==> gives_piece(v, path, (size - 1) as usize, before, at_last, s),
    ensures
        is_cut_off(v, path, r) || (r == Ok::<usize, FsError>(0) && at_end == before),
        size > 0 && before.len() > 0 && s is Ok ==> s == Ok::<usize, FsError>(1),
        size > 0 && before.len() > 0 && whole_result(v, path) is Ok ==> is_cut_off(v, path, s) || s
            == Ok::<usize, FsError>(1),
{
    lemma_lookup(v, path);
    let (i, inner) = lookup(v, path)->Ok_0;
    if let Ok(n) = r {
        assert(at_end.take(n as int).len() == n);
        assert(at_end =~= at_end.skip(0));
        assert(before =~= before.skip(0));
    }
    if size > 0 && before.len() > 0 {
        if let Ok(data) = whole_result(v, path) {
            law_reads_are_pieces(v, path, data, size - 1, before.len() as int);
        }
        if let Ok(n) = s {
            assert(at_last.take(n as int).len() == n);
            if let Filesystem::Fat32(fs) = v.mounts@[i].fs {
                let node = fs.volume().resolve(inner)->Ok_0;
                fs.volume().lemma_read_length(node, size - 1, before.len() as int);
            }
        }
    }
}

/// A directory of a FAT32 mount, or the mount itself, is no file: it has no size, and
/// nothing is read from it.
pub proof fn law_directory_is_no_file<D: BlockDevice>(
    v: Vfs<D>,
    path: Seq<char>,
    offset: usize,
    before: Seq<u8>,
    after: Seq<u8>,
    r: Result<usize, FsError>,
    size: Result<usize, FsError>,
    whole: Result<Vec<u8>, FsError>,
)
    requires
        lookup(v, path) matches Ok((i, inner)) && v.mounts@[i].fs matches Filesystem::Fat32(fs)
            && (inner == seq!['/'] || (fs.volume().resolve(inner) matches Ok(node) && node.is_dir)),
        gives_piece(v, path, offset, before, after, r),
        gives_size(v, path, size),
        gives_whole(v, path, whole),
    ensures
        is_cut_off(v, path, r) || r == Err::<usize, FsError>(FsError::IsDirectory),
        after == before,
        is_cut_off(v, path, size) || size == Err::<usize, FsError>(FsError::IsDirectory),
        is_cut_off(v, path, whole) || whole == Err::<Vec<u8>, FsError>(FsError::IsDirectory),
{
    let (i, _) = lookup(v, path)->Ok_0;
    if let Filesystem::Fat32(fs) = v.mounts@[i].fs {
        fs.volume().lemma_root();
    }
}

} // verus!
