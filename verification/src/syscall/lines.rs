//! What the list of all files looks like to the program that asked for it.

use vstd::prelude::*;
use vstd::utf8::{
    decode_utf8, encode_scalar, encode_utf8, encode_utf8_decode_utf8, has_width_1_encoding,
    has_width_2_encoding, has_width_3_encoding,
};
use super::calls::{is_handed_over, is_listed, path_lines};
use crate::block::BlockDevice;
use crate::pmm::PhysicalMemory;
use crate::text::lemma_char_range;
use crate::vfs::listing::{
    all_reliable, child_path, listing, walked, walked_from, Shown, MAX_DEPTH, MAX_FILES,
};
use crate::vfs::Vfs;

verus! {

/// The pieces of a text between line feeds.
pub open spec fn lines_of(b: Seq<u8>) -> Seq<Seq<u8>>
    decreases b.len(),
{
    if b.len() == 0 {
        seq![Seq::empty()]
    } else {
        let before = lines_of(b.drop_last());
        if b.last() == 0x0a {
            before.push(Seq::empty())
        } else {
            before.drop_last().push(before.last().push(b.last()))
        }
    }
}

/// Whether paths can be told apart once they stand on lines of their own: none is empty or
/// holds a line feed.
pub open spec fn are_plain(paths: Seq<Seq<char>>) -> bool {
    &&& forall|i: int| 0 <= i < paths.len() ==> (#[trigger] paths[i]).len() > 0
    &&& forall|i: int, k: int|
        0 <= i < paths.len() && 0 <= k < paths[i].len() ==> #[trigger] paths[i][k] != '\n'
}

proof fn lemma_lines_nonempty(b: Seq<u8>)
    ensures
        lines_of(b).len() > 0,
    decreases b.len(),
{
    if b.len() > 0 {
        lemma_lines_nonempty(b.drop_last());
    }
}

/// A text without a line feed lengthens the last line.
proof fn lemma_lines_longer(a: Seq<u8>, b: Seq<u8>)
    requires
        forall|k: int| 0 <= k < b.len() ==> b[k] != 0x0a,
    ensures
        lines_of(a + b) == lines_of(a).drop_last().push(lines_of(a).last() + b),
    decreases b.len(),
{
    lemma_lines_nonempty(a);
    let l = lines_of(a);
    if b.len() == 0 {
        assert(a + b =~= a);
        assert(l.last() + b =~= l.last());
        assert(l.drop_last().push(l.last()) =~= l);
    } else {
        lemma_lines_longer(a, b.drop_last());
        assert((a + b).drop_last() =~= a + b.drop_last());
        let m = l.drop_last().push(l.last() + b.drop_last());
        assert(m.drop_last() =~= l.drop_last());
        assert(m.last().push(b.last()) =~= l.last() + b);
    }
}

proof fn lemma_bytes_of_scalar(c: u32)
    by (bit_vector)
    requires
        c != 0x0a,
    ensures
        c <= 0x7f ==> (c & 0x7f) as u8 != 0x0a,
        0xc0 | ((c >> 6) & 0x1f) as u8 >= 0x80,
        0xe0 | ((c >> 12) & 0x0f) as u8 >= 0x80,
        0xf0 | ((c >> 18) & 0x07) as u8 >= 0x80,
        0x80 | (c & 0x3f) as u8 >= 0x80,
        0x80 | ((c >> 6) & 0x3f) as u8 >= 0x80,
        0x80 | ((c >> 12) & 0x3f) as u8 >= 0x80,
{
}

/// The bytes of a text without a line feed hold none.
proof fn lemma_no_line_feed(s: Seq<char>)
    requires
        forall|k: int| 0 <= k < s.len() ==> s[k] != '\n',
    ensures
        forall|k: int| 0 <= k < encode_utf8(s).len() ==> encode_utf8(s)[k] != 0x0a,
        s.len() > 0 ==> encode_utf8(s).len() > 0,
    decreases s.len(),
{
    if s.len() > 0 {
        lemma_no_line_feed(s.drop_first());
        let c = s[0] as u32;
        lemma_char_range(s[0]);
        assert(c != 0x0a);
        lemma_bytes_of_scalar(c);
        let first = encode_scalar(c);
        assert forall|k: int| 0 <= k < first.len() implies first[k] != 0x0a by {
            if has_width_1_encoding(c) {
            } else if has_width_2_encoding(c) {
            } else if has_width_3_encoding(c) {
            } else {
            }
        }
        let rest = encode_utf8(s.drop_first());
        assert forall|k: int| 0 <= k < encode_utf8(s).len() implies encode_utf8(s)[k] != 0x0a by {
            if k >= first.len() {
                assert(encode_utf8(s)[k] == rest[k - first.len()]);
            }
        }
    }
}

proof fn lemma_path_lines(paths: Seq<Seq<char>>, n: int)
    requires
        are_plain(paths),
        1 <= n <= paths.len(),
    ensures
        path_lines(paths, n).len() > 0,
        lines_of(path_lines(paths, n)) == Seq::new(n as nat, |i: int| encode_utf8(paths[i])),
    decreases n,
{
    let p = paths[n - 1];
    lemma_no_line_feed(p);
    let e = encode_utf8(p);
    let want = Seq::new(n as nat, |i: int| encode_utf8(paths[i]));
    if n == 1 {
        let none = Seq::<u8>::empty();
        reveal_with_fuel(path_lines, 2);
        lemma_lines_longer(none, e);
        assert(none + e =~= e);
        assert(lines_of(none) =~= seq![none]);
        assert(lines_of(e) =~= want);
    } else {
        lemma_path_lines(paths, n - 1);
        let before = path_lines(paths, n - 1);
        lemma_lines_longer(before.push(0x0a), e);
        assert(before.push(0x0a).drop_last() =~= before);
        let l = lines_of(before.push(0x0a));
        assert(l == lines_of(before).push(Seq::empty()));
        assert(l.last() + e =~= e);
        assert(l.drop_last() =~= lines_of(before));
        assert(lines_of(path_lines(paths, n)) =~= want);
    }
}

/// Paths that are put together can be taken apart again: the lines of what comes out are as
/// many as the paths, and line `i` is path `i` in UTF-8.
pub proof fn law_paths_are_lines(paths: Seq<Seq<char>>)
    requires
        are_plain(paths),
        paths.len() > 0,
    ensures
        lines_of(path_lines(paths, paths.len() as int)).len() == paths.len(),
        forall|i: int|
            0 <= i < paths.len() ==> decode_utf8(
                #[trigger] lines_of(path_lines(paths, paths.len() as int))[i],
            ) == paths[i],
{
    lemma_path_lines(paths, paths.len() as int);
    assert forall|i: int| 0 <= i < paths.len() implies decode_utf8(
        #[trigger] lines_of(path_lines(paths, paths.len() as int))[i],
    ) == paths[i] by {
        encode_utf8_decode_utf8(paths[i]);
    }
}

spec fn none_empty(paths: Seq<Seq<char>>) -> bool {
    forall|i: int| 0 <= i < paths.len() ==> (#[trigger] paths[i]).len() > 0
}

proof fn lemma_walked_nonempty<D: BlockDevice>(
    v: Vfs<D>,
    path: Seq<char>,
    out: Seq<Seq<char>>,
    depth: int,
)
    requires
        none_empty(out),
    ensures
        none_empty(walked(v, path, out, depth)),
    decreases MAX_DEPTH - depth, 1int, 0int,
{
    if depth < MAX_DEPTH && out.len() < MAX_FILES {
        match listing(v, path) {
            Err(_) => {},
            Ok(l) => {
                lemma_walked_from_nonempty(v, path, l, 0, out, depth);
            },
        }
    }
}

proof fn lemma_walked_from_nonempty<D: BlockDevice>(
    v: Vfs<D>,
    path: Seq<char>,
    l: Seq<Shown>,
    i: int,
    out: Seq<Seq<char>>,
    depth: int,
)
    requires
        0 <= i,
        none_empty(out),
    ensures
        none_empty(walked_from(v, path, l, i, out, depth)),
    decreases MAX_DEPTH - depth, 0int, l.len() - i,
{
    if i < l.len() && depth < MAX_DEPTH {
        let child = child_path(path, l[i].name);
        assert(child.len() > 0);
        assert(none_empty(out.push(child)));
        if l[i].is_dir {
            lemma_walked_nonempty(v, child, out, depth + 1);
            lemma_walked_from_nonempty(v, path, l, i + 1, walked(v, child, out, depth + 1), depth);
        } else if out.len() + 1 < MAX_FILES {
            lemma_walked_from_nonempty(v, path, l, i + 1, out.push(child), depth);
        }
    }
}

/// What a program gets when it asks for all files, once none of their paths holds a line
/// feed: a text whose lines are the paths, one for each file, in their order.
pub proof fn law_program_gets_one_line_per_file<D: BlockDevice>(
    m: (PhysicalMemory, PhysicalMemory),
    v: Vfs<D>,
    root: u64,
    to: (u64, u64),
    r: u64,
)
    requires
        is_listed(m, v, root, to, r),
        all_reliable(v),
        walked(v, seq!['/'], Seq::empty(), 0).len() > 0,
        forall|i: int, k: int|
            0 <= i < walked(v, seq!['/'], Seq::empty(), 0).len() && 0 <= k < walked(
                v,
                seq!['/'],
                Seq::empty(),
                0,
            )[i].len() ==> #[trigger] walked(v, seq!['/'], Seq::empty(), 0)[i][k] != '\n',
    ensures
        exists|data: Seq<u8>| #[trigger]
            is_handed_over(m.0, m.1, root, to.0, to.1, data, r) && {
                let paths = walked(v, seq!['/'], Seq::empty(), 0);
                &&& lines_of(data).len() == paths.len()
                &&& forall|i: int|
                    0 <= i < paths.len() ==> decode_utf8(#[trigger] lines_of(data)[i]) == paths[i]
            },
{
    let paths = walked(v, seq!['/'], Seq::empty(), 0);
    lemma_walked_nonempty(v, seq!['/'], Seq::empty(), 0);
    law_paths_are_lines(paths);
    let data = path_lines(paths, paths.len() as int);
    assert(is_handed_over(m.0, m.1, root, to.0, to.1, data, r));
}

} // verus!
