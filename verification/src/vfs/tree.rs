//! Which files there are in and below a directory, and that listing them gives those.

use vstd::prelude::*;
use crate::block::BlockDevice;
use super::listing::{child_path, listing, walked, walked_from, Shown, MAX_DEPTH, MAX_FILES};
use super::{FsError, Vfs};

verus! {

/// Whether an entry of a directory is a file, or leads to one.
pub open spec fn is_or_holds<D: BlockDevice>(
    v: Vfs<D>,
    path: Seq<char>,
    e: Shown,
    file: Seq<char>,
    depth: int,
) -> bool
    decreases MAX_DEPTH - depth, 0int,
{
    if e.is_dir {
        depth < MAX_DEPTH && is_file_below(v, child_path(path, e.name), file, depth + 1)
    } else {
        file == child_path(path, e.name)
    }
}

/// Whether a path is that of a file in a directory or, no deeper than files are listed,
/// below it.
pub open spec fn is_file_below<D: BlockDevice>(
    v: Vfs<D>,
    path: Seq<char>,
    file: Seq<char>,
    depth: int,
) -> bool
    decreases MAX_DEPTH - depth, 1int,
{
    depth < MAX_DEPTH && match listing(v, path) {
        Err(_) => false,
        Ok(l) => exists|i: int|
            0 <= i < l.len() && is_or_holds(v, path, #[trigger] l[i], file, depth),
    }
}

/// What an entry of a directory is or leads to is below the directory.
pub proof fn lemma_entry_leads<D: BlockDevice>(
    v: Vfs<D>,
    path: Seq<char>,
    l: Seq<Shown>,
    i: int,
    file: Seq<char>,
    depth: int,
)
    requires
        depth < MAX_DEPTH,
        listing(v, path) == Ok::<Seq<Shown>, FsError>(l),
        0 <= i < l.len(),
        if l[i].is_dir {
            is_file_below(v, child_path(path, l[i].name), file, depth + 1)
        } else {
            file == child_path(path, l[i].name)
        },
    ensures
        is_file_below(v, path, file, depth),
{
    reveal_with_fuel(is_or_holds, 2);
    reveal_with_fuel(is_file_below, 2);
    match listing(v, path) {
        Err(_) => {},
        Ok(m) => {
            assert(is_or_holds(v, path, m[i], file, depth));
            assert(is_file_below(v, path, file, depth) == is_file_from(v, path, m, 0, file, depth));
        },
    }
}

/// Whether an entry from place `i` on is a file or leads to it.
pub open spec fn is_file_from<D: BlockDevice>(
    v: Vfs<D>,
    path: Seq<char>,
    l: Seq<Shown>,
    i: int,
    file: Seq<char>,
    depth: int,
) -> bool {
    exists|k: int| i <= k < l.len() && is_or_holds(v, path, #[trigger] l[k], file, depth)
}

/// What a listing has from place `i` on: its entry there, and the rest.
proof fn lemma_file_from<D: BlockDevice>(
    v: Vfs<D>,
    path: Seq<char>,
    l: Seq<Shown>,
    i: int,
    file: Seq<char>,
    depth: int,
)
    requires
        0 <= i < l.len(),
    ensures
        is_file_from(v, path, l, i, file, depth) == (is_or_holds(v, path, l[i], file, depth)
            || is_file_from(v, path, l, i + 1, file, depth)),
{
    if is_file_from(v, path, l, i + 1, file, depth) {
        let k = choose|k: int|
            i + 1 <= k < l.len() && is_or_holds(v, path, #[trigger] l[k], file, depth);
        assert(is_or_holds(v, path, l[k], file, depth));
    }
}

proof fn lemma_pushed(s: Seq<Seq<char>>, x: Seq<char>, file: Seq<char>)
    ensures
        s.push(x).contains(file) == (s.contains(file) || file == x),
{
    if s.contains(file) {
        let k = choose|k: int| 0 <= k < s.len() && s[k] == file;
        assert(s.push(x)[k] == file);
    }
    assert(s.push(x)[s.len() as int] == x);
}

proof fn lemma_walked<D: BlockDevice>(
    v: Vfs<D>,
    path: Seq<char>,
    out: Seq<Seq<char>>,
    depth: int,
    file: Seq<char>,
)
    ensures
        walked(v, path, out, depth).len() >= out.len(),
        out.contains(file) ==> walked(v, path, out, depth).contains(file),
        walked(v, path, out, depth).contains(file) ==> out.contains(file) || is_file_below(
            v,
            path,
            file,
            depth,
        ),
        walked(v, path, out, depth).len() < MAX_FILES && is_file_below(v, path, file, depth)
            ==> walked(v, path, out, depth).contains(file),
    decreases MAX_DEPTH - depth, 1int, 0int,
{
    if depth < MAX_DEPTH && out.len() < MAX_FILES {
        match listing(v, path) {
            Err(_) => {},
            Ok(l) => {
                lemma_walked_from(v, path, l, 0, out, depth, file);
                reveal_with_fuel(is_or_holds, 2);
                reveal_with_fuel(is_file_below, 2);
                assert(is_file_below(v, path, file, depth) == is_file_from(
                    v,
                    path,
                    l,
                    0,
                    file,
                    depth,
                ));
            },
        }
    }
}

proof fn lemma_walked_from<D: BlockDevice>(
    v: Vfs<D>,
    path: Seq<char>,
    l: Seq<Shown>,
    i: int,
    out: Seq<Seq<char>>,
    depth: int,
    file: Seq<char>,
)
    requires
        0 <= i,
    ensures
        walked_from(v, path, l, i, out, depth).len() >= out.len(),
        out.contains(file) ==> walked_from(v, path, l, i, out, depth).contains(file),
        walked_from(v, path, l, i, out, depth).contains(file) ==> out.contains(file)
            || is_file_from(v, path, l, i, file, depth),
        walked_from(v, path, l, i, out, depth).len() < MAX_FILES && depth < MAX_DEPTH
            && is_file_from(v, path, l, i, file, depth) ==> walked_from(
            v,
            path,
            l,
            i,
            out,
            depth,
        ).contains(file),
    decreases MAX_DEPTH - depth, 0int, l.len() - i,
{
    if i < l.len() && depth < MAX_DEPTH {
        let child = child_path(path, l[i].name);
        lemma_file_from(v, path, l, i, file, depth);
        if l[i].is_dir {
            let next = walked(v, child, out, depth + 1);
            lemma_walked(v, child, out, depth + 1, file);
            lemma_walked_from(v, path, l, i + 1, next, depth, file);
        } else {
            lemma_pushed(out, child, file);
            if out.len() + 1 < MAX_FILES {
                lemma_walked_from(v, path, l, i + 1, out.push(child), depth, file);
            }
        }
    }
}

/// What listing all files gives: nothing but paths of files below the root and, where
/// it did not stop for their number, all of them.
pub proof fn law_listed_files<D: BlockDevice>(v: Vfs<D>, file: Seq<char>)
    ensures
        ({
            let found = walked(v, seq!['/'], Seq::empty(), 0);
            &&& found.contains(file) ==> is_file_below(v, seq!['/'], file, 0)
            &&& found.len() < MAX_FILES && is_file_below(v, seq!['/'], file, 0) ==> found.contains(
                file,
            )
        }),
{
    lemma_walked(v, seq!['/'], Seq::empty(), 0, file);
}

} // verus!
