//! Paths, and reading files and directories.

use vstd::prelude::*;
use vstd::utf8::encode_utf8;
use crate::block::BlockDevice;
use crate::text::{
    chars_of, last_index, piece, rfind, split, split_at_char, string_of, trim, trim_matches, views,
};
use super::{agrees, Fat32, FatError};
use super::directory::{first_named, index_named, slots, EntryLocation, Node, Slot};
use super::model::{Volume, MAX_CHAIN_STEPS};

verus! {

/// The largest file that is read whole.
pub const MAX_WHOLE_FILE: u32 = 0x400_0000;

#[derive(Debug)]
pub struct DirEntry {
    pub name: String,
    pub is_dir: bool,
    pub size: u32,
}

impl Node {
    /// Whether a directory entry shows this file or directory.
    pub open spec fn shown_by(self, e: DirEntry) -> bool {
        e.name@ == self.name && e.is_dir == self.is_dir && e.size == self.size
    }
}

/// Whether a list shows these entries, one for one.
pub open spec fn are_shown(found: Seq<Slot>, list: Seq<DirEntry>) -> bool {
    &&& list.len() == found.len()
    &&& forall|i: int| 0 <= i < list.len() ==> found[i].node().shown_by(#[trigger] list[i])
}

/// Whether a name may be given to a new file.
pub open spec fn is_valid_name(name: Seq<char>) -> bool {
    &&& encode_utf8(name).len() <= 255
    &&& name.last() != '.'
    &&& name.last() != ' '
    &&& forall|i: int| 0 <= i < name.len() ==> !is_refused_char(#[trigger] name[i])
}

pub open spec fn is_refused_char(c: char) -> bool {
    c == '\\' || c == ':' || c == '*' || c == '?' || c == '"' || c == '<' || c == '>' || c == '|'
}

/// Whether a path component names the directory it stands in.
pub open spec fn is_here(component: Seq<char>) -> bool {
    component.len() == 0 || component == seq!['.']
}

pub open spec fn is_up(component: Seq<char>) -> bool {
    component == seq!['.', '.']
}

impl Volume {
    pub open spec fn root(self) -> Node {
        Node { name: seq!['/'], is_dir: true, size: 0, first: self.g.root_cluster }
    }

    /// What a walk along path components from `node` leads to.
    pub open spec fn walk(self, path: Seq<Seq<char>>, i: int, node: Node) -> Result<Node, FatError>
        decreases path.len() - i,
    {
        if i >= path.len() {
            Ok(node)
        } else if is_here(path[i]) {
            self.walk(path, i + 1, node)
        } else if is_up(path[i]) {
            Err(FatError::NotFound)
        } else if !node.is_dir {
            Err(FatError::NotDirectory)
        } else {
            match self.entries(node.first) {
                Err(e) => Err(e),
                Ok(s) => match first_named(s, path[i]) {
                    None => Err(FatError::NotFound),
                    Some(slot) => self.walk(path, i + 1, slot.node()),
                },
            }
        }
    }

    /// The file or directory at a path.
    pub open spec fn resolve(self, path: Seq<char>) -> Result<Node, FatError> {
        self.walk(split(trim(path, '/'), '/'), 0, self.root())
    }

    /// Whether a path leads to a file.
    pub open spec fn leads_to_file(self, path: Seq<char>) -> bool {
        self.resolve(path) matches Ok(node) && !node.is_dir
    }

    /// The entries of the directory at a path.
    pub open spec fn listing(self, path: Seq<char>) -> Result<Seq<Slot>, FatError> {
        match self.resolve(path) {
            Err(e) => Err(e),
            Ok(node) => if node.is_dir {
                self.entries(node.first)
            } else {
                Err(FatError::NotDirectory)
            },
        }
    }

    /// The cluster `n` steps down a chain.
    pub open spec fn follow(self, c: u32, n: nat) -> Result<u32, FatError>
        decreases n,
    {
        if n == 0 {
            Ok(c)
        } else {
            match self.next(c) {
                Err(e) => Err(e),
                Ok(None) => Err(FatError::Corrupt),
                Ok(Some(d)) => self.follow(d, (n - 1) as nat),
            }
        }
    }

    /// `wanted` bytes from byte `at` of a cluster on, along its chain.
    pub open spec fn read_from(self, c: u32, at: int, wanted: int, steps: int) -> Result<
        Seq<u8>,
        FatError,
    >
        decreases wanted,
    {
        if wanted <= 0 {
            Ok(Seq::empty())
        } else if steps >= MAX_CHAIN_STEPS || !self.g.is_cluster(c) {
            Err(FatError::Corrupt)
        } else {
            let room = self.g.cluster_size() - at;
            if wanted <= room || room <= 0 {
                Ok(self.data(c).subrange(at, at + wanted))
            } else {
                match self.next(c) {
                    Err(e) => Err(e),
                    Ok(None) => Err(FatError::Corrupt),
                    Ok(Some(d)) => match self.read_from(d, 0, wanted - room, steps + 1) {
                        Err(e) => Err(e),
                        Ok(rest) => Ok(self.data(c).subrange(at, self.g.cluster_size()) + rest),
                    },
                }
            }
        }
    }

    /// Up to `len` bytes of a file from `offset` on.
    pub open spec fn read_node(self, node: Node, offset: int, len: int) -> Result<
        Seq<u8>,
        FatError,
    > {
        if node.is_dir {
            Err(FatError::IsDirectory)
        } else if offset >= node.size || len <= 0 {
            Ok(Seq::empty())
        } else {
            let wanted = if len < node.size - offset {
                len
            } else {
                node.size - offset
            };
            let skip = offset / self.g.cluster_size();
            if skip > MAX_CHAIN_STEPS {
                Err(FatError::Corrupt)
            } else {
                match self.follow(node.first, skip as nat) {
                    Err(e) => Err(e),
                    Ok(c) => self.read_from(c, offset % self.g.cluster_size(), wanted, skip),
                }
            }
        }
    }

    /// Up to `len` bytes of the file at a path from `offset` on.
    pub open spec fn read(self, path: Seq<char>, offset: int, len: int) -> Result<
        Seq<u8>,
        FatError,
    > {
        match self.resolve(path) {
            Err(e) => Err(e),
            Ok(node) => self.read_node(node, offset, len),
        }
    }

    /// All of the file at a path.
    pub open spec fn read_whole(self, path: Seq<char>) -> Result<Seq<u8>, FatError> {
        match self.resolve(path) {
            Err(e) => Err(e),
            Ok(node) => if node.is_dir {
                Err(FatError::IsDirectory)
            } else if node.size > MAX_WHOLE_FILE {
                Err(FatError::TooLarge)
            } else {
                self.read_node(node, 0, node.size as int)
            },
        }
    }

    /// The directory that a path lies in and its last component, where that may
    /// be the name of a file.
    #[verifier::opaque]
    pub open spec fn locate(self, path: Seq<char>) -> Result<(u32, Seq<char>), FatError> {
        let clean = trim(path, '/');
        let at = last_index(clean, '/');
        let name = clean.skip(at + 1);
        if name.len() == 0 || name == seq!['.'] || is_up(name) {
            Err(FatError::InvalidName)
        } else {
            let parent = if at <= 0 {
                Ok(self.root())
            } else {
                self.resolve(clean.take(at))
            };
            match parent {
                Err(e) => Err(e),
                Ok(node) => if !node.is_dir {
                    Err(FatError::NotDirectory)
                } else if !is_valid_name(name) {
                    Err(FatError::InvalidName)
                } else {
                    Ok((node.first, name))
                },
            }
        }
    }

    /// Following a chain fails in one way only.
    pub proof fn lemma_follow_error(self, c: u32, n: nat)
        ensures
            self.follow(c, n) matches Err(e) ==> e == FatError::Corrupt,
        decreases n,
    {
        if n > 0 {
            if let Ok(Some(d)) = self.next(c) {
                self.lemma_follow_error(d, (n - 1) as nat);
            }
        }
    }
}

impl<D: BlockDevice> Fat32<D> {
    /// Whether a call failed because the device failed a read.
    pub open spec fn is_cut_off<T>(&self, r: Result<T, FatError>) -> bool {
        !self.device.reliable() && r == Err::<T, FatError>(FatError::Io)
    }

    /// Whether this is what `stat` answers: the entry of what is at the path.
    pub open spec fn gives_stat(&self, path: Seq<char>, r: Result<DirEntry, FatError>) -> bool {
        match r {
            Ok(e) => self.volume().resolve(path) is Ok && self.volume().resolve(
                path,
            )->Ok_0.shown_by(e),
            Err(e) => self.volume().resolve(path) == Err::<Node, FatError>(e) || self.is_cut_off(r),
        }
    }

    /// Whether this is what `list` answers: the entries of the directory at the path.
    pub open spec fn gives_list(&self, path: Seq<char>, r: Result<Vec<DirEntry>, FatError>) -> bool {
        match r {
            Ok(list) => {
                &&& self.volume().listing(path) is Ok
                &&& are_shown(self.volume().listing(path)->Ok_0, list@)
            },
            Err(e) => self.volume().listing(path) == Err::<Seq<Slot>, FatError>(e)
                || self.is_cut_off(r),
        }
    }

    /// Whether this is what `read_file` answers: all bytes of the file at the path.
    pub open spec fn gives_file(&self, path: Seq<char>, r: Result<Vec<u8>, FatError>) -> bool {
        match r {
            Ok(bytes) => self.volume().read_whole(path) == Ok::<Seq<u8>, FatError>(bytes@),
            Err(e) => self.volume().read_whole(path) == Err::<Seq<u8>, FatError>(e)
                || self.is_cut_off(r),
        }
    }

    /// Whether this is what `read_at` answers and does to the buffer it is given: bytes of
    /// the file at the path stand in front, and behind them what stood there. Where the
    /// path leads to no file the buffer is as it was.
    pub open spec fn gives_piece(
        &self,
        path: Seq<char>,
        offset: usize,
        before: Seq<u8>,
        after: Seq<u8>,
        r: Result<usize, FatError>,
    ) -> bool {
        let expected = self.volume().read(path, offset as int, before.len() as int);
        &&& after.len() == before.len()
        &&& !self.volume().leads_to_file(path) ==> after == before
        &&& match r {
            Ok(n) => {
                &&& n <= before.len()
                &&& expected == Ok::<Seq<u8>, FatError>(after.take(n as int))
                &&& after.skip(n as int) == before.skip(n as int)
            },
            Err(e) => expected == Err::<Seq<u8>, FatError>(e) || self.is_cut_off(r),
        }
    }
}

/// A file or directory found by a walk along a path, in memory.
pub struct PathNode {
    pub name: Vec<char>,
    pub is_dir: bool,
    pub size: u32,
    pub first_cluster: u32,
}

impl View for PathNode {
    type V = Node;

    open spec fn view(&self) -> Node {
        Node {
            name: self.name@,
            is_dir: self.is_dir,
            size: self.size,
            first: self.first_cluster,
        }
    }
}

pub open spec fn node_result(r: Result<PathNode, FatError>) -> Result<Node, FatError> {
    match r {
        Ok(n) => Ok(n@),
        Err(e) => Err(e),
    }
}

fn refused_char(c: char) -> (r: bool)
    ensures
        r == is_refused_char(c),
{
    c == '\\' || c == ':' || c == '*' || c == '?' || c == '"' || c == '<' || c == '>' || c == '|'
}

fn valid_name(name: &[char]) -> (r: bool)
    requires
        name@.len() > 0,
    ensures
        r == is_valid_name(name@),
{
    let text: String = string_of(name);
    let last: char = name[name.len() - 1];
    if text.as_str().as_bytes().len() > 255 || last == '.' || last == ' ' {
        return false;
    }
    let mut i: usize = 0;
    while i < name.len()
        invariant
            i <= name@.len(),
            forall|k: int| 0 <= k < i ==> !is_refused_char(#[trigger] name@[k]),
        decreases name@.len() - i,
    {
        if refused_char(name[i]) {
            assert(is_refused_char(name@[i as int]));
            return false;
        }
        i += 1;
    }
    true
}

fn is_dot(name: &Vec<char>) -> (r: bool)
    ensures
        r == (name@ == seq!['.']),
{
    let r: bool = name.len() == 1 && name[0] == '.';
    assert(r == (name@ =~= seq!['.']));
    r
}

fn is_dot_dot(name: &Vec<char>) -> (r: bool)
    ensures
        r == is_up(name@),
{
    let r: bool = name.len() == 2 && name[0] == '.' && name[1] == '.';
    assert(r == (name@ =~= seq!['.', '.']));
    r
}

/// An entry as a listing shows it.
fn to_dir_entry(name: &[char], is_dir: bool, size: u32) -> (e: DirEntry)
    ensures
        e.name@ == name@,
        e.is_dir == is_dir,
        e.size == size,
{
    DirEntry { name: string_of(name), is_dir, size }
}

impl<D: BlockDevice> Fat32<D> {
    fn root_node(&self) -> (n: PathNode)
        ensures
            n@ == self.volume().root(),
    {
        let mut name: Vec<char> = Vec::new();
        name.push('/');
        assert(name@ =~= seq!['/']);
        PathNode { name, is_dir: true, size: 0, first_cluster: self.geometry.root_cluster }
    }

    fn resolve_chars(&self, path: &[char]) -> (r: Result<PathNode, FatError>)
        requires
            self.wf(),
        ensures
            agrees(node_result(r), self.volume().resolve(path@), self.device.reliable()),
    {
        let clean: Vec<char> = trim_matches(path, '/');
        let parts: Vec<Vec<char>> = split_at_char(clean.as_slice(), '/');
        let mut node: PathNode = self.root_node();
        let ghost v = self.volume();
        let ghost components = views(parts@);
        let mut i: usize = 0;
        while i < parts.len()
            invariant
                self.wf(),
                v == self.volume(),
                components == views(parts@),
                components == split(trim(path@, '/'), '/'),
                i <= parts@.len(),
                v.walk(components, i as int, node@) == v.resolve(path@),
            decreases parts@.len() - i,
        {
            let part: &Vec<char> = &parts[i];
            assert(components[i as int] == part@);
            i += 1;
            if part.len() == 0 || is_dot(part) {
                continue ;
            }
            if is_dot_dot(part) {
                return Err(FatError::NotFound);
            }
            if !node.is_dir {
                return Err(FatError::NotDirectory);
            }
            let mut found: Vec<EntryLocation> = self.directory_entries(node.first_cluster)?;
            match index_named(&found, part.as_slice()) {
                None => {
                    return Err(FatError::NotFound);
                },
                Some(at) => {
                    let slot: EntryLocation = found.swap_remove(at);
                    node =
                    PathNode {
                        name: slot.name,
                        is_dir: slot.is_dir,
                        size: slot.size,
                        first_cluster: slot.first_cluster,
                    };
                },
            }
        }
        Ok(node)
    }

    /// The file or directory at a path.
    pub(crate) fn resolve(&self, path: &str) -> (r: Result<PathNode, FatError>)
        requires
            self.wf(),
        ensures
            agrees(node_result(r), self.volume().resolve(path@), self.device.reliable()),
    {
        let chars: Vec<char> = chars_of(path);
        self.resolve_chars(chars.as_slice())
    }

    pub fn stat(&self, path: &str) -> (r: Result<DirEntry, FatError>)
        requires
            self.wf(),
        ensures
            self.gives_stat(path@, r),
    {
        let node: PathNode = self.resolve(path)?;
        Ok(to_dir_entry(node.name.as_slice(), node.is_dir, node.size))
    }

    /// The entries of a directory, in their order.
    pub fn list(&self, path: &str) -> (r: Result<Vec<DirEntry>, FatError>)
        requires
            self.wf(),
        ensures
            self.gives_list(path@, r),
    {
        let node: PathNode = self.resolve(path)?;
        if !node.is_dir {
            return Err(FatError::NotDirectory);
        }
        let found: Vec<EntryLocation> = self.directory_entries(node.first_cluster)?;
        let mut list: Vec<DirEntry> = Vec::new();
        let mut i: usize = 0;
        while i < found.len()
            invariant
                i <= found@.len(),
                list@.len() == i,
                forall|k: int| 0 <= k < i ==> slots(found@)[k].node().shown_by(#[trigger] list@[k]),
            decreases found@.len() - i,
        {
            let e: &EntryLocation = &found[i];
            list.push(to_dir_entry(e.name.as_slice(), e.is_dir, e.size));
            i += 1;
        }
        Ok(list)
    }

    /// Read up to `out.len()` bytes of a file from `offset` on. Where the path leads to
    /// no file, `out` stays as it was; where reading a file fails, what `out` then holds
    /// is not said.
    #[verifier::rlimit(30)]
    pub fn read_at(&self, path: &str, offset: usize, out: &mut [u8]) -> (r: Result<usize, FatError>)
        requires
            self.wf(),
        ensures
            self.gives_piece(path@, offset, old(out)@, final(out)@, r),
    {
        let node: PathNode = self.resolve(path)?;
        if node.is_dir {
            return Err(FatError::IsDirectory);
        }
        let size: usize = node.size as usize;
        if offset >= size || out.len() == 0 {
            assert(out@.take(0) =~= Seq::<u8>::empty());
            return Ok(0);
        }
        let wanted: usize = if out.len() < size - offset {
            out.len()
        } else {
            size - offset
        };
        let cluster_bytes: usize = self.cluster_bytes();
        let ghost v = self.volume();
        let skip: usize = offset / cluster_bytes;
        assert(offset / cluster_bytes <= offset) by (nonlinear_arith)
            requires
                cluster_bytes >= 1,
                offset >= 0,
        ;
        let mut cluster: u32 = node.first_cluster;
        let mut steps: usize = 0;
        while steps < skip
            invariant
                self.wf(),
                v == self.volume(),
                v.leads_to_file(path@),
                steps <= skip,
                steps <= MAX_CHAIN_STEPS,
                v.follow(node.first_cluster, skip as nat) == v.follow(
                    cluster,
                    (skip - steps) as nat,
                ),
                skip > MAX_CHAIN_STEPS ==> v.read(
                    path@,
                    offset as int,
                    old(out)@.len() as int,
                ) == Err::<Seq<u8>, FatError>(FatError::Corrupt),
                skip <= MAX_CHAIN_STEPS ==> (v.follow(node.first_cluster, skip as nat) matches Err(
                    e,
                ) ==> v.read(path@, offset as int, old(out)@.len() as int) == Err::<
                    Seq<u8>,
                    FatError,
                >(e)),
                out@ == old(out)@,
            decreases skip - steps,
        {
            proof {
                v.lemma_follow_error(cluster, (skip - steps) as nat);
            }
            cluster =
            match self.next_cluster(cluster)? {
                Some(next) => next,
                None => {
                    return Err(FatError::Corrupt);
                },
            };
            steps += 1;
            if steps > MAX_CHAIN_STEPS as usize {
                return Err(FatError::Corrupt);
            }
        }
        let mut in_cluster: usize = offset % cluster_bytes;
        let mut copied: usize = 0;
        let ghost whole = v.read_from(cluster, in_cluster as int, wanted as int, steps as int);
        assert(v.read(path@, offset as int, old(out)@.len() as int) == whole);
        while copied < wanted
            invariant
                self.wf(),
                v == self.volume(),
                v.leads_to_file(path@),
                cluster_bytes == v.g.cluster_size(),
                0 < cluster_bytes <= 0x1_0000,
                in_cluster < cluster_bytes,
                copied <= wanted <= out@.len(),
                out@.len() == old(out)@.len(),
                steps <= MAX_CHAIN_STEPS + 1,
                v.read(path@, offset as int, old(out)@.len() as int) == whole,
                out@.skip(copied as int) == old(out)@.skip(copied as int),
                match v.read_from(
                    cluster,
                    in_cluster as int,
                    wanted - copied,
                    steps as int,
                ) {
                    Ok(rest) => whole == Ok::<Seq<u8>, FatError>(out@.take(copied as int) + rest),
                    Err(e) => whole == Err::<Seq<u8>, FatError>(e),
                },
            decreases wanted - copied,
        {
            if steps >= MAX_CHAIN_STEPS as usize {
                return Err(FatError::Corrupt);
            }
            let data: Vec<u8> = self.read_cluster(cluster)?;
            let left: usize = wanted - copied;
            let room: usize = cluster_bytes - in_cluster;
            let n: usize = if left < room {
                left
            } else {
                room
            };
            let bytes: &[u8] = vstd::slice::slice_subrange(data.as_slice(), in_cluster, in_cluster
                + n);
            let ghost before = out@;
            crate::bytes::copy_into(out, copied, bytes);
            assert(out@.take(copied + n) =~= before.take(copied as int) + bytes@);
            assert(out@.skip(copied + n) =~= old(out)@.skip(copied + n)) by {
                assert(before.skip(copied as int).skip(n as int) =~= before.skip(copied + n));
                assert(old(out)@.skip(copied as int).skip(n as int) =~= old(out)@.skip(copied + n));
            }
            let ghost old_copied = copied as int;
            copied += n;
            if copied < wanted {
                let next: Option<u32> = self.next_cluster(cluster)?;
                cluster =
                match next {
                    Some(next) => next,
                    None => {
                        return Err(FatError::Corrupt);
                    },
                };
                in_cluster = 0;
                proof {
                    if let Ok(rest) = v.read_from(cluster, 0, wanted - copied, steps + 1) {
                        assert(before.take(old_copied) + (bytes@ + rest) =~= out@.take(
                            copied as int,
                        ) + rest);
                    }
                }
            } else {
                in_cluster = 0;
                assert(out@.take(copied as int) + Seq::<u8>::empty() =~= out@.take(copied as int));
            }
            steps += 1;
        }
        assert(out@.take(copied as int) + Seq::<u8>::empty() =~= out@.take(copied as int));
        Ok(copied)
    }

    /// Read a whole file of at most 64 MiB.
    pub fn read_file(&self, path: &str) -> (r: Result<Vec<u8>, FatError>)
        requires
            self.wf(),
        ensures
            self.gives_file(path@, r),
    {
        let entry: DirEntry = self.stat(path)?;
        if entry.is_dir {
            return Err(FatError::IsDirectory);
        }
        if entry.size > MAX_WHOLE_FILE {
            return Err(FatError::TooLarge);
        }
        let mut result: Vec<u8> = vec![0u8; entry.size as usize];
        let read: usize = self.read_at(path, 0, &mut result)?;
        proof {
            let node = self.volume().resolve(path@)->Ok_0;
            self.volume().lemma_read_length(node, 0, node.size as int);
        }
        if read != result.len() {
            return Err(FatError::Corrupt);
        }
        assert(result@.take(read as int) =~= result@);
        Ok(result)
    }

    /// The directory that a path lies in and the name it gives.
    pub(crate) fn parent_and_name(&self, path: &str) -> (r: Result<(u32, Vec<char>), FatError>)
        requires
            self.wf(),
        ensures
            match r {
                Ok((parent, name)) => self.volume().locate(path@) == Ok::<
                    (u32, Seq<char>),
                    FatError,
                >((parent, name@)),
                Err(e) => self.volume().locate(path@) == Err::<(u32, Seq<char>), FatError>(e) || (
                !self.device.reliable() && e == FatError::Io),
            },
    {
        reveal(Volume::locate);
        let chars: Vec<char> = chars_of(path);
        let clean: Vec<char> = trim_matches(chars.as_slice(), '/');
        let total: usize = clean.len();
        let at: Option<usize> = rfind(clean.as_slice(), '/');
        let from: usize = match at {
            Some(i) => i + 1,
            None => 0,
        };
        let name: Vec<char> = piece(clean.as_slice(), from, total);
        assert(name@ =~= clean@.skip(last_index(clean@, '/') + 1));
        if name.len() == 0 || is_dot(&name) || is_dot_dot(&name) {
            return Err(FatError::InvalidName);
        }
        let parent: PathNode = if from <= 1 {
            self.root_node()
        } else {
            let prefix: Vec<char> = piece(clean.as_slice(), 0, from - 1);
            assert(prefix@ =~= clean@.take(from - 1));
            self.resolve_chars(prefix.as_slice())?
        };
        if !parent.is_dir {
            return Err(FatError::NotDirectory);
        }
        if !valid_name(name.as_slice()) {
            return Err(FatError::InvalidName);
        }
        Ok((parent.first_cluster, name))
    }
}

impl Volume {
    pub proof fn lemma_read_from_length(self, c: u32, at: int, wanted: int, steps: int)
        requires
            self.g.wf(),
            0 <= at < self.g.cluster_size(),
            0 <= wanted,
        ensures
            self.read_from(c, at, wanted, steps) matches Ok(b) ==> b.len() == wanted,
        decreases wanted,
    {
        if wanted > 0 {
            let room = self.g.cluster_size() - at;
            if wanted > room {
                if let Ok(Some(d)) = self.next(c) {
                    self.lemma_read_from_length(d, 0, wanted - room, steps + 1);
                }
            }
        }
    }

    /// A read gives as many bytes as the file has from there on, and no more
    /// than were asked for.
    pub proof fn lemma_read_length(self, node: Node, offset: int, len: int)
        requires
            self.g.wf(),
            0 <= offset,
            0 <= len,
        ensures
            self.read_node(node, offset, len) matches Ok(b) ==> b.len() == if offset >= node.size {
                0
            } else if len < node.size - offset {
                len
            } else {
                node.size - offset
            },
    {
        if !node.is_dir && offset < node.size && len > 0 {
            let wanted = if len < node.size - offset {
                len
            } else {
                node.size - offset
            };
            let cs = self.g.cluster_size();
            assert(0 <= offset % cs < cs) by (nonlinear_arith)
                requires
                    cs > 0,
            ;
            let skip = offset / cs;
            assert(0 <= skip) by (nonlinear_arith)
                requires
                    skip == offset / cs,
                    cs > 0,
                    offset >= 0,
            ;
            if let Ok(c) = self.follow(node.first, skip as nat) {
                self.lemma_read_from_length(c, offset % cs, wanted, skip);
            }
        }
    }
}

} // verus!
