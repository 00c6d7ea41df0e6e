//! What holds of looking at files and directories, and of asking for what is there.

use vstd::prelude::*;
use crate::bytes::part_of;
use crate::text::{last_index, lemma_last_index, split, trim, trim_back, trim_front};
use super::directory::{first_named, Node, Slot};
use super::files::is_up;
use super::model::{Volume, MAX_CHAIN_STEPS};
use super::walks::{base_name, parent_components};
use super::FatError;

verus! {

proof fn lemma_trim_front_joined(d: Seq<char>, name: Seq<char>)
    requires
        name.len() > 0,
        name[0] != '/',
    ensures
        trim_front(d.push('/') + name, '/') == if trim_front(d, '/').len() == 0 {
            name
        } else {
            trim_front(d, '/').push('/') + name
        },
    decreases d.len(),
{
    let all = d.push('/') + name;
    if d.len() == 0 {
        assert(all.skip(1) =~= name);
        assert(trim_front(name, '/') == name);
    } else if d[0] == '/' {
        assert(all.skip(1) =~= d.skip(1).push('/') + name);
        lemma_trim_front_joined(d.skip(1), name);
    }
}

proof fn lemma_last_slash(t: Seq<char>, name: Seq<char>)
    requires
        forall|k: int| 0 <= k < name.len() ==> name[k] != '/',
    ensures
        last_index(t.push('/') + name, '/') == t.len(),
        last_index(name, '/') < 0,
{
    lemma_last_index(t.push('/') + name, '/');
    lemma_last_index(name, '/');
    assert((t.push('/') + name)[t.len() as int] == '/');
    let at = last_index(t.push('/') + name, '/');
    if at > t.len() {
        assert(name[at - t.len() - 1] != '/');
    }
}

proof fn lemma_trimmed_front(s: Seq<char>)
    ensures
        trim_front(trim_front(s, '/'), '/') == trim_front(s, '/'),
    decreases s.len(),
{
    if s.len() > 0 && s[0] == '/' {
        lemma_trimmed_front(s.skip(1));
    }
}

/// The parts of the path of something in a directory.
pub proof fn lemma_child_parts(d: Seq<char>, name: Seq<char>)
    requires
        name.len() > 0,
        forall|k: int| 0 <= k < name.len() ==> name[k] != '/',
    ensures
        base_name(d.push('/') + name) == name,
        parent_components(d.push('/') + name) == if trim_front(d, '/').len() == 0 {
            Seq::empty()
        } else {
            split(trim(d, '/'), '/')
        },
{
    let path = d.push('/') + name;
    let t = trim_front(d, '/');
    lemma_trim_front_joined(d, name);
    lemma_last_slash(t, name);
    lemma_trimmed_front(d);
    let clean = trim_front(path, '/');
    assert(clean.last() == name.last());
    assert(trim(path, '/') == clean);
    if t.len() == 0 {
        assert(clean.skip(last_index(clean, '/') + 1) =~= name) by {
            lemma_last_index(name, '/');
        }
    } else {
        assert(clean.take(t.len() as int) =~= t);
        assert(clean.skip(t.len() as int + 1) =~= name);
    }
}

impl Volume {
    pub proof fn lemma_root(self)
        ensures
            self.resolve(seq!['/']) == Ok::<Node, FatError>(self.root()),
    {
        reveal_with_fuel(Volume::walk, 3);
        reveal_with_fuel(split, 2);
        reveal_with_fuel(trim_front, 2);
        let root = seq!['/'];
        assert(root.skip(1) =~= Seq::<char>::empty());
        assert(trim(root, '/') =~= Seq::<char>::empty());
    }

    /// What a name in a directory is, is the first entry of its listing with that name
    /// but for the case of letters; where there is none, it is not found. The root is a
    /// directory.
    pub proof fn law_stat_is_first_listed(self, d: Seq<char>, name: Seq<char>, l: Seq<Slot>)
        requires
            self.listing(d) == Ok::<Seq<Slot>, FatError>(l),
            name.len() > 0,
            forall|k: int| 0 <= k < name.len() ==> name[k] != '/',
            name != seq!['.'],
            !is_up(name),
        ensures
            self.resolve(d.push('/') + name) == match first_named(l, name) {
                Some(slot) => Ok::<Node, FatError>(slot.node()),
                None => Err(FatError::NotFound),
            },
            self.resolve(seq!['/']) == Ok::<Node, FatError>(self.root()),
    {
        let path = d.push('/') + name;
        lemma_child_parts(d, name);
        self.lemma_resolve(path);
        reveal_with_fuel(Volume::walk, 3);
        reveal_with_fuel(split, 2);
        self.lemma_root();
        if trim_front(d, '/').len() == 0 {
            assert(trim_front(d, '/') =~= Seq::<char>::empty());
            assert(trim_back(trim_front(d, '/'), '/') =~= Seq::<char>::empty());
            assert(self.resolve(d) == Ok::<Node, FatError>(self.root()));
        }
    }

    /// A read of some bytes of a chain is a piece of a read of more.
    proof fn lemma_read_piece(self, c: u32, wanted: int, steps: int, off: int, len: int)
        requires
            self.g.wf(),
            self.read_from(c, 0, wanted, steps) is Ok,
            0 <= off,
            0 < len,
            off + len <= wanted,
            0 <= steps,
        ensures
            ({
                let size = self.g.cluster_size();
                let skip = off / size;
                &&& steps + skip < MAX_CHAIN_STEPS
                &&& self.follow(c, skip as nat) matches Ok(d)
                &&& self.read_from(d, off % size, len, steps + skip) == Ok::<Seq<u8>, FatError>(
                    self.read_from(c, 0, wanted, steps)->Ok_0.subrange(off, off + len),
                )
            }),
        decreases wanted,
    {
        let size = self.g.cluster_size();
        let b = self.read_from(c, 0, wanted, steps)->Ok_0;
        let skip = off / size;
        assert(size > 0);
        self.lemma_read_from_length(c, 0, wanted, steps);
        if wanted > size {
            if let Ok(Some(d)) = self.next(c) {
                self.lemma_read_from_length(d, 0, wanted - size, steps + 1);
            }
        }
        if off < size {
            assert(skip == 0 && off % size == off) by (nonlinear_arith)
                requires
                    0 <= off < size,
                    skip == off / size,
            ;
            if wanted > size {
                let d = self.next(c)->Ok_0->0;
                let rest = self.read_from(d, 0, wanted - size, steps + 1)->Ok_0;
                assert(self.data(c).subrange(0, size).len() == size);
                if len > size - off {
                    self.lemma_read_piece(d, wanted - size, steps + 1, 0, len - (size - off));
                    assert(0int / size == 0 && 0int % size == 0) by (nonlinear_arith)
                        requires
                            size > 0,
                    ;
                    assert(b.subrange(off, off + len) =~= self.data(c).subrange(off, size)
                        + rest.subrange(0, len - (size - off)));
                } else {
                    assert(b.subrange(off, off + len) =~= self.data(c).subrange(off, off + len));
                }
            } else {
                assert(b.subrange(off, off + len) =~= self.data(c).subrange(off, off + len));
            }
        } else {
            let d = self.next(c)->Ok_0->0;
            let rest = self.read_from(d, 0, wanted - size, steps + 1)->Ok_0;
            self.lemma_read_piece(d, wanted - size, steps + 1, off - size, len);
            assert((off - size) / size == skip - 1 && (off - size) % size == off % size && skip >= 1)
                by (nonlinear_arith)
                requires
                    size > 0,
                    off >= size,
                    skip == off / size,
            ;
            assert(self.data(c).subrange(0, size).len() == size);
            assert(b.subrange(off, off + len) =~= rest.subrange(off - size, off - size + len));
        }
    }

    /// Reads at offsets are pieces of the whole file: where all of it can be read, any read
    /// gives the bytes that lie there, as many as there are.
    pub proof fn law_reads_are_pieces(
        self,
        path: Seq<char>,
        node: Node,
        data: Seq<u8>,
        offset: int,
        len: int,
    )
        requires
            self.wf(),
            self.resolve(path) == Ok::<Node, FatError>(node),
            self.read(path, 0, node.size as int) == Ok::<Seq<u8>, FatError>(data),
            0 <= offset,
            0 <= len,
        ensures
            data.len() == node.size,
            self.read(path, offset, len) == Ok::<Seq<u8>, FatError>(part_of(data, offset, len)),
    {
        let size = self.g.cluster_size();
        self.lemma_read_length(node, 0, node.size as int);
        assert(0int / size == 0 && 0int % size == 0) by (nonlinear_arith)
            requires
                size > 0,
        ;
        if offset < node.size && len > 0 {
            let n = if len < node.size - offset {
                len
            } else {
                node.size - offset
            };
            assert(self.follow(node.first, 0) == Ok::<u32, FatError>(node.first));
            self.lemma_read_piece(node.first, node.size as int, 0, offset, n);
            assert(data.subrange(offset, offset + n) =~= part_of(data, offset, len));
        } else {
            assert(part_of(data, offset, len) =~= Seq::<u8>::empty());
        }
    }

    /// Creating a file where there is one leaves all as it is; a directory there is
    /// refused.
    pub proof fn law_existing_is_left_alone(self, path: Seq<char>, dir: u32, name: Seq<char>, slot: Slot)
        requires
            self.locate(path) == Ok::<(u32, Seq<char>), FatError>((dir, name)),
            self.find_named(dir, name) == Ok::<Option<Slot>, FatError>(Some(slot)),
        ensures
            self.create_file(path).0 == self,
            self.create_file(path).1 == if slot.is_dir {
                Err::<(), FatError>(FatError::IsDirectory)
            } else {
                Ok(())
            },
    {
    }

    /// A directory is not created under a name that is taken, and nothing changes.
    pub proof fn law_taken_name_is_refused(self, path: Seq<char>, dir: u32, name: Seq<char>, slot: Slot)
        requires
            self.locate(path) == Ok::<(u32, Seq<char>), FatError>((dir, name)),
            self.find_named(dir, name) == Ok::<Option<Slot>, FatError>(Some(slot)),
        ensures
            self.create_dir(path) == (self, Err::<(), FatError>(FatError::AlreadyExists)),
    {
    }
}

} // verus!
