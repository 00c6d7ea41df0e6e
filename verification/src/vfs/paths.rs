//! How paths are read, one part after the other, and which mount each leads to.

use vstd::prelude::*;
use super::listing::{archive_listing, first_index, first_part, has_name, with_file, with_files, Shown};
use super::{inner_path, is_below, kept_parts, normal_path, path_of, route, slashed, FsError};
use crate::initramfs::{file_named, normal};
use crate::text::{lemma_split_nonempty, split, trim_back, trim_front};

verus! {

/// Whether a text has no slash in it.
pub open spec fn is_one_part(name: Seq<char>) -> bool {
    forall|k: int| 0 <= k < name.len() ==> name[k] != '/'
}

proof fn lemma_split_longer(path: Seq<char>, name: Seq<char>)
    requires
        is_one_part(name),
    ensures
        split(path + seq!['/'] + name, '/') == split(path, '/').push(name),
    decreases name.len(),
{
    let longer = path + seq!['/'] + name;
    lemma_split_nonempty(path, '/');
    if name.len() == 0 {
        assert(longer.drop_last() =~= path);
        assert(name =~= Seq::<char>::empty());
    } else {
        let short = name.drop_last();
        assert forall|k: int| 0 <= k < short.len() implies short[k] != '/' by {
            assert(short[k] == name[k]);
        }
        lemma_split_longer(path, short);
        assert(longer.drop_last() =~= path + seq!['/'] + short);
        assert(longer.last() == name.last());
        assert(name[name.len() - 1] != '/');
        assert(short.push(name.last()) =~= name);
        let r = split(path, '/').push(short);
        assert(r.update(r.len() - 1, name) =~= split(path, '/').push(name));
    }
}

proof fn lemma_no_part_is_empty(parts: Seq<Seq<char>>)
    ensures
        kept_parts(parts) matches Some(kept) ==> forall|i: int|
            0 <= i < kept.len() ==> (#[trigger] kept[i]).len() > 0,
    decreases parts.len(),
{
    if parts.len() > 0 {
        lemma_no_part_is_empty(parts.drop_last());
    }
}

proof fn lemma_path_of(kept: Seq<Seq<char>>, name: Seq<char>)
    requires
        forall|i: int| 0 <= i < kept.len() ==> (#[trigger] kept[i]).len() > 0,
    ensures
        kept.len() == 0 <==> path_of(kept) == seq!['/'],
        path_of(kept.push(name)) == if kept.len() == 0 {
            seq!['/'] + name
        } else {
            path_of(kept) + seq!['/'] + name
        },
{
    assert(kept.push(name).drop_last() =~= kept);
    if kept.len() == 0 {
        assert(slashed(kept) =~= Seq::<char>::empty());
        assert(slashed(kept).push('/') + name =~= seq!['/'] + name);
    } else {
        assert(kept[kept.len() - 1].len() > 0);
        assert(slashed(kept).len() >= 2);
        assert(slashed(kept).push('/') + name =~= slashed(kept) + seq!['/'] + name);
    }
}

/// What one more part does to a path. A name is put behind it; an empty part and a single
/// dot change nothing; two dots above the root are refused, and a path that is refused stays
/// so. The empty path is the root.
pub proof fn law_longer_path(path: Seq<char>, name: Seq<char>)
    requires
        is_one_part(name),
    ensures
        normal_path(Seq::empty()) == Some(seq!['/']),
        ({
            let longer = normal_path(path + seq!['/'] + name);
            if normal_path(path) is None {
                longer is None
            } else if name.len() == 0 || name == seq!['.'] {
                longer == normal_path(path)
            } else if name == seq!['.', '.'] {
                normal_path(path) == Some(seq!['/']) <==> longer is None
            } else if normal_path(path) == Some(seq!['/']) {
                longer == Some(seq!['/'] + name)
            } else {
                longer == Some(normal_path(path)->0 + seq!['/'] + name)
            }
        }),
{
    let none = Seq::<char>::empty();
    reveal_with_fuel(kept_parts, 2);
    assert(split(none, '/') == seq![none]);
    assert(seq![none].drop_last() =~= Seq::<Seq<char>>::empty());
    lemma_split_longer(path, name);
    let parts = split(path, '/');
    assert(parts.push(name).drop_last() =~= parts);
    lemma_no_part_is_empty(parts);
    if let Some(kept) = kept_parts(parts) {
        lemma_path_of(kept, name);
    }
}

/// Two dots take back the name before them.
pub proof fn law_two_dots_take_a_name_back(path: Seq<char>, name: Seq<char>)
    requires
        is_one_part(name),
        name.len() > 0,
        name != seq!['.'],
        name != seq!['.', '.'],
    ensures
        normal_path(path + seq!['/'] + name + seq!['/'] + seq!['.', '.']) == normal_path(path),
{
    let longer = path + seq!['/'] + name;
    lemma_split_longer(path, name);
    lemma_split_longer(longer, seq!['.', '.']);
    let parts = split(path, '/');
    assert(parts.push(name).drop_last() =~= parts);
    assert(parts.push(name).push(seq!['.', '.']).drop_last() =~= parts.push(name));
    let dots = seq!['.', '.'];
    assert(dots.len() == 2 && dots != seq!['.']);
    match kept_parts(parts) {
        Some(kept) => {
            assert(kept_parts(parts.push(name)) == Some(kept.push(name)));
            assert(kept.push(name).drop_last() =~= kept);
            assert(kept_parts(parts.push(name).push(dots)) == Some(kept));
        },
        None => {
            assert(kept_parts(parts.push(name)) is None);
            assert(kept_parts(parts.push(name).push(dots)) is None);
        },
    }
}

proof fn lemma_split_below_root(path: Seq<char>)
    ensures
        split(seq!['/'] + path, '/') == seq![Seq::<char>::empty()] + split(path, '/'),
    decreases path.len(),
{
    let none = Seq::<char>::empty();
    let below = seq!['/'] + path;
    lemma_split_nonempty(path, '/');
    if path.len() == 0 {
        assert(below.drop_last() =~= none);
        assert(split(none, '/') == seq![none]);
        assert(split(path, '/') =~= seq![none]);
        assert(split(below, '/') =~= seq![none] + split(path, '/'));
    } else {
        lemma_split_below_root(path.drop_last());
        lemma_split_nonempty(path.drop_last(), '/');
        assert(below.drop_last() =~= seq!['/'] + path.drop_last());
        assert(split(below, '/') =~= seq![none] + split(path, '/'));
    }
}

proof fn lemma_empty_part_first(parts: Seq<Seq<char>>)
    ensures
        kept_parts(seq![Seq::<char>::empty()] + parts) == kept_parts(parts),
    decreases parts.len(),
{
    let more = seq![Seq::<char>::empty()] + parts;
    if parts.len() == 0 {
        assert(more.drop_last() =~= Seq::<Seq<char>>::empty());
        reveal_with_fuel(kept_parts, 2);
    } else {
        lemma_empty_part_first(parts.drop_last());
        assert(more.drop_last() =~= seq![Seq::<char>::empty()] + parts.drop_last());
    }
}

/// A path is read from the root, whether it says so or not.
pub proof fn law_paths_start_at_the_root(path: Seq<char>)
    ensures
        normal_path(seq!['/'] + path) == normal_path(path),
{
    lemma_split_below_root(path);
    lemma_empty_part_first(split(path, '/'));
}

/// What lies at and below a mount, and what a path says there.
pub proof fn law_paths_of_a_mount(prefix: Seq<char>, rest: Seq<char>, c: char)
    requires
        prefix != seq!['/'],
        rest.len() == 0 || rest[0] != '/',
        c != '/',
    ensures
        is_below(prefix, prefix),
        inner_path(prefix, prefix).len() == 0,
        is_below(prefix, prefix + seq!['/'] + rest),
        inner_path(prefix, prefix + seq!['/'] + rest) == rest,
        !is_below(prefix, prefix + seq![c] + rest),
        is_below(seq!['/'], seq!['/'] + rest),
        inner_path(seq!['/'], seq!['/'] + rest) == rest,
{
    let n = prefix.len() as int;
    let path = prefix + seq!['/'] + rest;
    assert(path.take(n) =~= prefix);
    assert(path.skip(n) =~= seq!['/'] + rest);
    assert((seq!['/'] + rest).skip(1) =~= rest);
    reveal_with_fuel(trim_front, 2);
    assert((prefix + seq![c] + rest)[n] == c);
    assert(prefix.skip(n) =~= Seq::<char>::empty());
}

/// Nothing that does not start with a mount's path is below the mount.
pub proof fn law_other_paths_are_not_of_a_mount(prefix: Seq<char>, path: Seq<char>)
    requires
        prefix != seq!['/'],
        !prefix.is_prefix_of(path),
    ensures
        !is_below(prefix, path),
{
}

/// Of mounts with paths of the same length the latest gets a path.
pub proof fn law_latest_mount_wins(ps: Seq<Seq<char>>, path: Seq<char>, n: int)
    requires
        0 <= n <= ps.len(),
    ensures
        match route(ps, path, n) {
            Some(b) => 0 <= b < n && is_below(ps[b], path) && forall|j: int|
                0 <= j < n && #[trigger] is_below(ps[j], path) ==> ps[j].len() < ps[b].len() || (
                ps[j].len() == ps[b].len() && j <= b),
            None => forall|j: int| 0 <= j < n ==> !#[trigger] is_below(ps[j], path),
        },
    decreases n,
{
    if n > 0 {
        law_latest_mount_wins(ps, path, n - 1);
    }
}

/// Whether an entry of a listing stands for a file: it has the file's name and size, or is
/// the directory that the file is in.
pub open spec fn stands_for(s: Shown, f: (Seq<char>, Seq<u8>), prefix: Seq<char>) -> bool {
    &&& is_one_part(s.name)
    &&& if s.is_dir {
        s.size == 0 && (prefix + s.name + seq!['/']).is_prefix_of(f.0)
    } else {
        f.0 == prefix + s.name && s.name.len() > 0 && s.size == f.1.len() as int % 0x1_0000_0000
    }
}

/// Whether an entry of a listing has a name that a path starts with.
pub open spec fn leads_to(s: Shown, rest: Seq<char>) -> bool {
    is_one_part(s.name) && (rest == s.name || (s.name + seq!['/']).is_prefix_of(rest))
}

proof fn lemma_first_index(s: Seq<char>)
    ensures
        0 <= first_index(s, '/') <= s.len(),
        is_one_part(s.take(first_index(s, '/'))),
        first_index(s, '/') < s.len() ==> s[first_index(s, '/')] == '/',
    decreases s.len(),
{
    if s.len() > 0 && s[0] != '/' {
        lemma_first_index(s.skip(1));
        let n = first_index(s, '/');
        assert forall|k: int| 0 <= k < n implies s.take(n)[k] != '/' by {
            if k > 0 {
                assert(s.skip(1).take(n - 1)[k - 1] == s[k]);
            }
        }
    }
}

proof fn lemma_with_file(l: Seq<Shown>, f: (Seq<char>, Seq<u8>), prefix: Seq<char>)
    ensures
        l.len() <= with_file(l, f, prefix).len() <= l.len() + 1,
        with_file(l, f, prefix).take(l.len() as int) == l,
        with_file(l, f, prefix).len() > l.len() ==> stands_for(
            with_file(l, f, prefix).last(),
            f,
            prefix,
        ) && !has_name(l, with_file(l, f, prefix).last().name),
        forall|rest: Seq<char>|
            rest.len() > 0 && f.0 == #[trigger] (prefix + rest) ==> has_name(
                with_file(l, f, prefix),
                first_part(rest),
            ),
{
    let r = with_file(l, f, prefix);
    assert(r.take(l.len() as int) =~= l);
    if prefix.len() <= f.0.len() && f.0.take(prefix.len() as int) == prefix {
        let rest = f.0.skip(prefix.len() as int);
        let n = first_index(rest, '/');
        lemma_first_index(rest);
        assert(prefix + rest =~= f.0);
        if rest.len() > 0 {
            if r.len() > l.len() {
                let s = r.last();
                assert(s.name == rest.take(n));
                if n < rest.len() {
                    assert(prefix + s.name + seq!['/'] =~= f.0.take(prefix.len() + n + 1));
                } else {
                    assert(rest.take(n) =~= rest);
                }
                assert(r[r.len() - 1].name == first_part(rest));
            }
            assert(has_name(r, first_part(rest)));
        }
    }
    assert forall|rest: Seq<char>|
        rest.len() > 0 && f.0 == #[trigger] (prefix + rest) implies has_name(r, first_part(rest)) by {
        assert(f.0.take(prefix.len() as int) =~= prefix);
        assert(f.0.skip(prefix.len() as int) =~= rest);
    }
}

/// Whether no name is in a listing twice.
pub open spec fn are_names_distinct(l: Seq<Shown>) -> bool {
    forall|i: int, k: int| 0 <= i < k < l.len() ==> (#[trigger] l[i]).name != (#[trigger] l[k]).name
}

proof fn lemma_with_files(l: Seq<Shown>, f: Seq<(Seq<char>, Seq<u8>)>, prefix: Seq<char>)
    ensures
        ({
            let r = with_files(l, f, prefix);
            &&& l.len() <= r.len()
            &&& r.take(l.len() as int) == l
            &&& are_names_distinct(l) ==> are_names_distinct(r)
            &&& forall|k: int|
                l.len() <= k < r.len() ==> exists|j: int|
                    0 <= j < f.len() && stands_for(#[trigger] r[k], #[trigger] f[j], prefix)
            &&& forall|j: int, rest: Seq<char>|
                0 <= j < f.len() && rest.len() > 0 && (#[trigger] f[j]).0 == #[trigger] (prefix
                    + rest) ==> has_name(r, first_part(rest))
        }),
    decreases f.len(),
{
    let r = with_files(l, f, prefix);
    if f.len() == 0 {
        assert(r.take(l.len() as int) =~= l);
    } else {
        let m = with_file(l, f[0], prefix);
        let g = f.drop_first();
        lemma_with_file(l, f[0], prefix);
        lemma_with_files(m, g, prefix);
        assert forall|i: int| 0 <= i < l.len() implies r[i] == l[i] by {
            assert(m.take(l.len() as int)[i] == l[i]);
            assert(r.take(m.len() as int)[i] == m[i]);
        }
        assert(r.take(l.len() as int) =~= l);
        if are_names_distinct(l) {
            assert forall|i: int, k: int| 0 <= i < k < m.len() implies (#[trigger] m[i]).name != (
            #[trigger] m[k]).name by {
                assert(m.take(l.len() as int)[i] == l[i]);
                if k < l.len() {
                    assert(m.take(l.len() as int)[k] == l[k]);
                } else {
                    assert(l[i].name != m.last().name);
                }
            }
        }
        assert forall|k: int| l.len() <= k < r.len() implies exists|j: int|
            0 <= j < f.len() && stands_for(#[trigger] r[k], #[trigger] f[j], prefix) by {
            if k < m.len() {
                assert(r.take(m.len() as int)[k] == m[k]);
                assert(stands_for(r[k], f[0], prefix));
            } else {
                let j = choose|j: int|
                    0 <= j < g.len() && stands_for(#[trigger] r[k], #[trigger] g[j], prefix);
                assert(f[j + 1] == g[j]);
            }
        }
        assert forall|j: int, rest: Seq<char>|
            0 <= j < f.len() && rest.len() > 0 && (#[trigger] f[j]).0 == #[trigger] (prefix
                + rest) implies has_name(r, first_part(rest)) by {
            if j == 0 {
                assert(has_name(m, first_part(rest)));
                let i = choose|i: int| 0 <= i < m.len() && (#[trigger] m[i]).name == first_part(rest);
                assert(r.take(m.len() as int)[i] == m[i]);
                assert(r[i].name == first_part(rest));
            } else {
                assert(g[j - 1] == f[j]);
            }
        }
    }
}

/// A directory of the archive shows each thing in it once: the files right in it, with
/// their sizes, and the directories that the files further below are in; nothing else.
pub proof fn law_archive_directory(
    f: Seq<(Seq<char>, Seq<u8>)>,
    inner: Seq<char>,
    l: Seq<Shown>,
    k: int,
    j: int,
    rest: Seq<char>,
)
    requires
        inner.len() == 0 || inner.last() != '/',
        archive_listing(f, inner) == Ok::<Seq<Shown>, FsError>(l),
    ensures
        ({
            let prefix = if inner.len() == 0 {
                inner
            } else {
                inner + seq!['/']
            };
            &&& are_names_distinct(l)
            &&& 0 <= k < l.len() ==> exists|i: int|
                0 <= i < f.len() && stands_for(l[k], #[trigger] f[i], prefix)
            &&& 0 <= j < f.len() && rest.len() > 0 && f[j].0 == prefix + rest ==> exists|i: int|
                0 <= i < l.len() && leads_to(#[trigger] l[i], rest)
        }),
{
    let none = Seq::<Shown>::empty();
    let prefix = if inner.len() == 0 {
        inner
    } else {
        inner + seq!['/']
    };
    assert(trim_back(inner, '/') == inner);
    assert(inner.push('/') =~= inner + seq!['/']);
    assert(inner.len() == 0 ==> inner =~= Seq::<char>::empty());
    lemma_with_files(none, f, prefix);
    if 0 <= j < f.len() && rest.len() > 0 && f[j].0 == prefix + rest {
        assert(has_name(l, first_part(rest)));
        let i = choose|i: int| 0 <= i < l.len() && (#[trigger] l[i]).name == first_part(rest);
        lemma_first_index(rest);
        let n = first_index(rest, '/');
        if n < rest.len() {
            assert(l[i].name + seq!['/'] =~= rest.take(n + 1));
        } else {
            assert(rest.take(n) =~= rest);
        }
        assert(leads_to(l[i], rest));
    }
}

/// A directory of the archive is there where a file is in it or below it; a file is no
/// directory.
pub proof fn law_archive_directory_is_there(
    f: Seq<(Seq<char>, Seq<u8>)>,
    inner: Seq<char>,
    j: int,
    rest: Seq<char>,
)
    requires
        inner.len() > 0,
        inner.last() != '/',
    ensures
        file_named(f, normal(inner)) is Some ==> archive_listing(f, inner) == Err::<
            Seq<Shown>,
            FsError,
        >(FsError::NotDirectory),
        0 <= j < f.len() && rest.len() > 0 && f[j].0 == inner + seq!['/'] + rest && file_named(
            f,
            normal(inner),
        ) is None ==> archive_listing(f, inner) is Ok,
        file_named(f, normal(inner)) is None && (forall|i: int|
            0 <= i < f.len() ==> !(inner + seq!['/']).is_prefix_of((#[trigger] f[i]).0))
            ==> archive_listing(f, inner) == Err::<Seq<Shown>, FsError>(FsError::NotFound),
{
    let none = Seq::<Shown>::empty();
    let prefix = inner + seq!['/'];
    assert(trim_back(inner, '/') == inner);
    assert(inner.push('/') =~= prefix);
    lemma_with_files(none, f, prefix);
    let l = with_files(none, f, prefix);
    if 0 <= j < f.len() && rest.len() > 0 && f[j].0 == prefix + rest {
        assert(has_name(l, first_part(rest)));
    }
    if l.len() > 0 {
        assert(exists|i: int| 0 <= i < f.len() && stands_for(#[trigger] l[0], #[trigger] f[i], prefix));
        let i = choose|i: int|
            0 <= i < f.len() && stands_for(#[trigger] l[0], #[trigger] f[i], prefix);
        assert(prefix.is_prefix_of(f[i].0)) by {
            assert(prefix =~= f[i].0.take(prefix.len() as int));
        }
    }
}

} // verus!
