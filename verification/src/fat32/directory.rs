//! Directories: records, long names, and finding an entry.

use vstd::prelude::*;
use crate::block::BlockDevice;
use crate::bytes::{le16, le32, same_bytes, u16le, u32le};
use crate::text::{eq_ignore_ascii_case, same_name};
use super::{agrees, Fat32, FatError};
use super::model::{Volume, MAX_CHAIN_STEPS};
use super::names::{
    before_end, cut_at_end, decode_utf16, from_utf16, lfn_offset, lfn_position, short_name,
    short_text,
};

verus! {

/// A long name being gathered from the records in front of an entry.
#[verifier::ext_equal]
pub struct LongName {
    pub have: bool,
    pub units: Seq<u16>,
}

/// No long name gathered.
pub open spec fn no_long_name() -> LongName {
    LongName { have: false, units: Seq::new(260, |i: int| 0xffffu16) }
}

/// A directory entry and where its record stands.
#[verifier::ext_equal]
pub struct Slot {
    pub cluster: u32,
    pub offset: int,
    pub raw: Seq<u8>,
    pub name: Seq<char>,
    pub is_dir: bool,
    pub size: u32,
    pub first: u32,
}

/// Whether a record is an entry: not deleted, not a piece of a long name, not
/// the volume label.
pub open spec fn is_entry(e: Seq<u8>) -> bool {
    e[0] != 0xe5 && e[11] != 0x0f && e[11] / 8 % 2 == 0
}

/// The units of long-name record number `order`, stored in their place.
pub open spec fn store_units(units: Seq<u16>, order: int, e: Seq<u8>) -> Seq<u16> {
    Seq::new(
        260,
        |i: int|
            if 13 * (order - 1) <= i < 13 * order {
                le16(e, lfn_position(i - 13 * (order - 1))) as u16
            } else {
                units[i]
            },
    )
}

/// The long name gathered after a record that does not end the directory.
pub open spec fn after_record(st: LongName, e: Seq<u8>) -> LongName {
    if e[0] == 0xe5 || e[11] != 0x0f {
        LongName { have: false, ..st }
    } else {
        let order = e[0] as int % 32;
        if order == 0 || order > 20 {
            LongName { have: false, ..st }
        } else {
            let begun = if e[0] / 64 % 2 == 1 {
                LongName { have: true, units: no_long_name().units }
            } else {
                st
            };
            if begun.have {
                LongName { have: true, units: store_units(begun.units, order, e) }
            } else {
                begun
            }
        }
    }
}

/// The name of an entry: the long name in front of it where there is one.
pub open spec fn entry_name(st: LongName, e: Seq<u8>) -> Seq<char> {
    let long = from_utf16(before_end(st.units));
    if st.have && long.len() > 0 {
        long
    } else {
        short_text(e.subrange(0, 11))
    }
}

/// The first cluster that a record names.
pub open spec fn record_first(e: Seq<u8>) -> u32 {
    (le16(e, 20) * 0x1_0000 + le16(e, 26)) as u32
}

pub open spec fn slot_of(c: u32, k: int, st: LongName, e: Seq<u8>) -> Slot {
    Slot {
        cluster: c,
        offset: 32 * k,
        raw: e.subrange(0, 11),
        name: entry_name(st, e),
        is_dir: e[11] / 16 % 2 == 1,
        size: le32(e, 28) as u32,
        first: record_first(e),
    }
}

/// A file or directory, as a walk along a path finds it.
#[verifier::ext_equal]
pub struct Node {
    pub name: Seq<char>,
    pub is_dir: bool,
    pub size: u32,
    pub first: u32,
}

impl Slot {
    pub open spec fn node(self) -> Node {
        Node { name: self.name, is_dir: self.is_dir, size: self.size, first: self.first }
    }
}

/// The entries that a listing shows: all but `.` and `..`.
pub open spec fn visible(s: Seq<Slot>) -> Seq<Slot>
    decreases s.len(),
{
    if s.len() == 0 {
        s
    } else if s.last().name == seq!['.'] || s.last().name == seq!['.', '.'] {
        visible(s.drop_last())
    } else {
        visible(s.drop_last()).push(s.last())
    }
}

/// The first entry with a given name, up to the case of ASCII letters.
pub open spec fn first_named(s: Seq<Slot>, name: Seq<char>) -> Option<Slot>
    decreases s.len(),
{
    if s.len() == 0 {
        None
    } else {
        match first_named(s.drop_last(), name) {
            Some(slot) => Some(slot),
            None => if same_name(s.last().name, name) {
                Some(s.last())
            } else {
                None
            },
        }
    }
}

/// The first entry with a given 8.3 name.
pub open spec fn first_short(s: Seq<Slot>, raw: Seq<u8>) -> Option<Slot>
    decreases s.len(),
{
    if s.len() == 0 {
        None
    } else {
        match first_short(s.drop_last(), raw) {
            Some(slot) => Some(slot),
            None => if s.last().raw == raw {
                Some(s.last())
            } else {
                None
            },
        }
    }
}

impl Volume {
    /// Records in a cluster.
    pub open spec fn records(self) -> int {
        self.g.sectors_per_cluster * 16
    }

    pub open spec fn record(self, c: u32, k: int) -> Seq<u8> {
        self.data(c).subrange(32 * k, 32 * k + 32)
    }

    /// The entries of a cluster from record `k` on, after those in `found`, and
    /// whether the directory ends there.
    pub open spec fn scan_cluster(self, c: u32, k: int, st: LongName, found: Seq<Slot>) -> (
        LongName,
        Seq<Slot>,
        bool,
    )
        decreases self.records() - k,
    {
        if k >= self.records() {
            (st, found, false)
        } else {
            let e = self.record(c, k);
            if e[0] == 0 {
                (st, found, true)
            } else {
                self.scan_cluster(
                    c,
                    k + 1,
                    after_record(st, e),
                    if is_entry(e) {
                        found.push(slot_of(c, k, st, e))
                    } else {
                        found
                    },
                )
            }
        }
    }

    /// The entries of a directory from cluster `c` on, after those in `found`,
    /// and what is wrong with it where something is.
    pub open spec fn scan(self, c: Option<u32>, limit: nat, st: LongName, found: Seq<Slot>) -> (
        Seq<Slot>,
        Option<FatError>,
    )
        decreases limit,
    {
        match c {
            None => (found, None),
            Some(c) => if limit == 0 || !self.g.is_cluster(c) {
                (found, Some(FatError::Corrupt))
            } else {
                let (st2, found2, ended) = self.scan_cluster(c, 0, st, found);
                if ended {
                    (found2, None)
                } else {
                    match self.next(c) {
                        Err(e) => (found2, Some(e)),
                        Ok(n) => self.scan(n, (limit - 1) as nat, st2, found2),
                    }
                }
            },
        }
    }

    /// The entries of the directory that starts at a cluster.
    pub open spec fn directory(self, c: u32, limit: u32) -> (Seq<Slot>, Option<FatError>) {
        self.scan(Some(c), limit as nat, no_long_name(), Seq::empty())
    }

    /// The entries that a listing of a directory shows.
    pub open spec fn entries(self, c: u32) -> Result<Seq<Slot>, FatError> {
        match self.directory(c, MAX_CHAIN_STEPS) {
            (s, None) => Ok(visible(s)),
            (_, Some(e)) => Err(e),
        }
    }

    /// The entry of a directory with a given name.
    #[verifier::opaque]
    pub open spec fn find_named(self, c: u32, name: Seq<char>) -> Result<Option<Slot>, FatError> {
        let (s, error) = self.directory(c, self.g.cluster_count);
        match first_named(s, name) {
            Some(slot) => Ok(Some(slot)),
            None => match error {
                Some(e) => Err(e),
                None => Ok(None),
            },
        }
    }

    /// Whether a directory has an entry with a given 8.3 name.
    pub open spec fn has_short(self, c: u32, raw: Seq<u8>) -> Result<bool, FatError> {
        let (s, error) = self.directory(c, self.g.cluster_count);
        match first_short(s, raw) {
            Some(slot) => Ok(true),
            None => match error {
                Some(e) => Err(e),
                None => Ok(false),
            },
        }
    }

    pub proof fn lemma_scan_cluster_extends(self, c: u32, k: int, st: LongName, found: Seq<Slot>)
        requires
            0 <= k,
        ensures
            found.is_prefix_of(self.scan_cluster(c, k, st, found).1),
        decreases self.records() - k,
    {
        if k < self.records() {
            let e = self.record(c, k);
            if e[0] != 0 {
                let found2 = if is_entry(e) {
                    found.push(slot_of(c, k, st, e))
                } else {
                    found
                };
                self.lemma_scan_cluster_extends(c, k + 1, after_record(st, e), found2);
            }
        }
    }

    pub proof fn lemma_scan_extends(
        self,
        c: Option<u32>,
        limit: nat,
        st: LongName,
        found: Seq<Slot>,
    )
        ensures
            found.is_prefix_of(self.scan(c, limit, st, found).0),
        decreases limit,
    {
        if let Some(n) = c {
            if limit > 0 && self.g.is_cluster(n) {
                let (st2, found2, ended) = self.scan_cluster(n, 0, st, found);
                self.lemma_scan_cluster_extends(n, 0, st, found);
                if !ended {
                    if let Ok(next) = self.next(n) {
                        self.lemma_scan_extends(next, (limit - 1) as nat, st2, found2);
                    }
                }
            }
        }
    }
}

pub proof fn lemma_first_named_prefix(s: Seq<Slot>, t: Seq<Slot>, name: Seq<char>)
    requires
        s.is_prefix_of(t),
        first_named(s, name) is Some,
    ensures
        first_named(t, name) == first_named(s, name),
    decreases t.len(),
{
    if s.len() < t.len() {
        assert(s.is_prefix_of(t.drop_last()));
        lemma_first_named_prefix(s, t.drop_last(), name);
    } else {
        assert(s =~= t);
    }
}

pub proof fn lemma_first_short_prefix(s: Seq<Slot>, t: Seq<Slot>, raw: Seq<u8>)
    requires
        s.is_prefix_of(t),
        first_short(s, raw) is Some,
    ensures
        first_short(t, raw) == first_short(s, raw),
    decreases t.len(),
{
    if s.len() < t.len() {
        assert(s.is_prefix_of(t.drop_last()));
        lemma_first_short_prefix(s, t.drop_last(), raw);
    } else {
        assert(s =~= t);
    }
}

/// A long name being gathered, in memory.
struct LongNameBuffer {
    have: bool,
    units: [u16; 260],
}

impl View for LongNameBuffer {
    type V = LongName;

    closed spec fn view(&self) -> LongName {
        LongName { have: self.have, units: self.units@ }
    }
}

/// A directory entry and where its record stands, in memory.
pub struct EntryLocation {
    pub cluster: u32,
    pub offset: usize,
    pub raw: [u8; 11],
    pub name: Vec<char>,
    pub is_dir: bool,
    pub size: u32,
    pub first_cluster: u32,
}

impl View for EntryLocation {
    type V = Slot;

    open spec fn view(&self) -> Slot {
        Slot {
            cluster: self.cluster,
            offset: self.offset as int,
            raw: self.raw@,
            name: self.name@,
            is_dir: self.is_dir,
            size: self.size,
            first: self.first_cluster,
        }
    }
}

pub open spec fn slots(v: Seq<EntryLocation>) -> Seq<Slot> {
    Seq::new(v.len(), |i: int| v[i]@)
}

fn note_record(long: &mut LongNameBuffer, e: &[u8])
    requires
        e@.len() == 32,
    ensures
        final(long)@ == after_record(old(long)@, e@),
{
    if e[0] == 0xe5 || e[11] != 0x0f {
        long.have = false;
        return ;
    }
    let order: usize = (e[0] % 32) as usize;
    if order == 0 || order > 20 {
        long.have = false;
        return ;
    }
    if e[0] / 64 % 2 == 1 {
        long.units = [0xffffu16; 260];
        long.have = true;
        assert(long.units@ =~= no_long_name().units);
    }
    if !long.have {
        return ;
    }
    let ghost begun = long@;
    let base: usize = (order - 1) * 13;
    let mut i: usize = 0;
    while i < 13
        invariant
            i <= 13,
            1 <= order <= 20,
            base == 13 * (order - 1),
            e@.len() == 32,
            begun.units.len() == 260,
            long.have,
            long.units@.len() == 260,
            forall|k: int|
                0 <= k < 260 ==> #[trigger] long.units@[k] == if base <= k < base + i {
                    le16(e@, lfn_position(k - base)) as u16
                } else {
                    begun.units[k]
                },
        decreases 13 - i,
    {
        long.units[base + i] = u16le(e, lfn_offset(i));
        i += 1;
    }
    assert(long.units@ =~= store_units(begun.units, order as int, e@));
}

/// The entry that a record is, with the long name gathered before it.
fn location_of(cluster: u32, k: usize, long: &LongNameBuffer, e: &[u8]) -> (r: EntryLocation)
    requires
        e@.len() == 32,
        k <= 0x1_0000,
    ensures
        r@ == slot_of(cluster, k as int, long@, e@),
{
    let mut name: Vec<char> = Vec::new();
    if long.have {
        let units: Vec<u16> = cut_at_end(long.units.as_slice());
        name = decode_utf16(units.as_slice());
    }
    if name.len() == 0 {
        name = short_name(vstd::slice::slice_subrange(e, 0, 11));
    }
    let mut raw: [u8; 11] = [0u8; 11];
    let mut i: usize = 0;
    while i < 11
        invariant
            i <= 11,
            e@.len() == 32,
            raw@.len() == 11,
            forall|j: int| 0 <= j < i ==> #[trigger] raw@[j] == e@[j],
        decreases 11 - i,
    {
        raw[i] = e[i];
        i += 1;
    }
    assert(raw@ =~= e@.subrange(0, 11));
    EntryLocation {
        cluster,
        offset: 32 * k,
        raw,
        name,
        is_dir: e[11] / 16 % 2 == 1,
        size: u32le(e, 28),
        first_cluster: u16le(e, 20) as u32 * 0x1_0000 + u16le(e, 26) as u32,
    }
}

impl<D: BlockDevice> Fat32<D> {
    /// Gather the entries of one cluster of a directory.
    fn scan_directory_cluster(
        &self,
        cluster: u32,
        data: &[u8],
        long: &mut LongNameBuffer,
        found: &mut Vec<EntryLocation>,
    ) -> (ended: bool)
        requires
            self.wf(),
            data@ == self.volume().data(cluster),
        ensures
            self.volume().scan_cluster(cluster, 0, old(long)@, slots(old(found)@)) == (
                final(long)@,
                slots(final(found)@),
                ended,
            ),
    {
        let n: usize = data.len() / 32;
        let ghost v = self.volume();
        let ghost whole = v.scan_cluster(cluster, 0, long@, slots(found@));
        let mut k: usize = 0;
        while k < n
            invariant
                v == self.volume(),
                whole == v.scan_cluster(cluster, 0, old(long)@, slots(old(found)@)),
                self.wf(),
                data@ == v.data(cluster),
                n == v.records(),
                n <= 0x1_0000,
                data@.len() == 32 * n,
                k <= n,
                v.scan_cluster(cluster, k as int, long@, slots(found@)) == whole,
            decreases n - k,
        {
            let e: &[u8] = vstd::slice::slice_subrange(data, 32 * k, 32 * k + 32);
            assert(e@ == v.record(cluster, k as int));
            if e[0] == 0 {
                return true;
            }
            let ghost st = long@;
            let ghost before = found@;
            if e[0] != 0xe5 && e[11] != 0x0f && e[11] / 8 % 2 == 0 {
                let location: EntryLocation = location_of(cluster, k, long, e);
                let ghost slot = location@;
                found.push(location);
                assert(slots(found@) =~= slots(before).push(slot));
            }
            note_record(long, e);
            k += 1;
        }
        false
    }

    /// Gather the entries of a directory, up to what is wrong with it.
    pub(crate) fn scan_directory(&self, first: u32, limit: u32) -> (r: (
        Vec<EntryLocation>,
        Option<FatError>,
    ))
        requires
            self.wf(),
        ensures
            ({
                let expected = self.volume().directory(first, limit);
                ||| slots(r.0@) == expected.0 && r.1 == expected.1
                ||| !self.device.reliable() && r.1 == Some(FatError::Io) && slots(
                    r.0@,
                ).is_prefix_of(expected.0)
            }),
    {
        let mut found: Vec<EntryLocation> = Vec::new();
        let mut long: LongNameBuffer = LongNameBuffer { have: false, units: [0xffffu16; 260] };
        let mut current: Option<u32> = Some(first);
        let mut steps: u32 = 0;
        let ghost v = self.volume();
        let ghost whole = v.directory(first, limit);
        proof {
            assert(long.units@ =~= no_long_name().units);
            assert(slots(found@) =~= Seq::<Slot>::empty());
        }
        loop
            invariant
                self.wf(),
                v == self.volume(),
                whole == v.directory(first, limit),
                steps <= limit,
                v.scan(current, (limit - steps) as nat, long@, slots(found@)) == whole,
            decreases limit - steps,
        {
            let cluster: u32 = match current {
                Some(c) => c,
                None => {
                    return (found, None);
                },
            };
            if steps >= limit {
                return (found, Some(FatError::Corrupt));
            }
            proof {
                v.lemma_scan_extends(current, (limit - steps) as nat, long@, slots(found@));
            }
            let data: Vec<u8> = match self.read_cluster(cluster) {
                Ok(data) => data,
                Err(e) => {
                    return (found, Some(e));
                },
            };
            let ended: bool = self.scan_directory_cluster(
                cluster,
                data.as_slice(),
                &mut long,
                &mut found,
            );
            if ended {
                return (found, None);
            }
            current = match self.next_cluster(cluster) {
                Ok(next) => next,
                Err(e) => {
                    proof {
                        if let Ok(next) = v.next(cluster) {
                            v.lemma_scan_extends(
                                next,
                                (limit - steps - 1) as nat,
                                long@,
                                slots(found@),
                            );
                        }
                    }
                    return (found, Some(e));
                },
            };
            steps += 1;
        }
    }

    pub(crate) fn directory_entries(&self, cluster: u32) -> (r: Result<
        Vec<EntryLocation>,
        FatError,
    >)
        requires
            self.wf(),
        ensures
            match r {
                Ok(s) => self.volume().entries(cluster) == Ok::<Seq<Slot>, FatError>(slots(s@)),
                Err(e) => self.volume().entries(cluster) == Err::<Seq<Slot>, FatError>(e) || (
                !self.device.reliable() && e == FatError::Io),
            },
    {
        let (found, error) = self.scan_directory(cluster, MAX_CHAIN_STEPS);
        match error {
            Some(e) => Err(e),
            None => Ok(keep_visible(found)),
        }
    }

    pub(crate) fn find_named_entry(&self, directory: u32, name: &[char]) -> (r: Result<
        Option<EntryLocation>,
        FatError,
    >)
        requires
            self.wf(),
        ensures
            agrees(
                slot_result(r),
                self.volume().find_named(directory, name@),
                self.device.reliable(),
            ),
    {
        reveal(Volume::find_named);
        let (mut found, error) = self.scan_directory(directory, self.geometry.cluster_count);
        match index_named(&found, name) {
            Some(i) => {
                proof {
                    let whole = self.volume().directory(directory, self.geometry.cluster_count).0;
                    lemma_first_named_prefix(slots(found@), whole, name@);
                }
                Ok(Some(found.swap_remove(i)))
            },
            None => match error {
                Some(e) => Err(e),
                None => Ok(None),
            },
        }
    }

    /// Whether a directory has an entry with the given 8.3 name.
    pub(crate) fn find_short_entry(&self, directory: u32, short: &[u8; 11]) -> (r: Result<
        bool,
        FatError,
    >)
        requires
            self.wf(),
        ensures
            agrees(r, self.volume().has_short(directory, short@), self.device.reliable()),
    {
        let (found, error) = self.scan_directory(directory, self.geometry.cluster_count);
        let mut i: usize = 0;
        assert(slots(found@).take(0) =~= Seq::<Slot>::empty());
        while i < found.len()
            invariant
                self.wf(),
                i <= found@.len(),
                first_short(slots(found@).take(i as int), short@) is None,
                ({
                    let expected = self.volume().directory(directory, self.geometry.cluster_count);
                    ||| slots(found@) == expected.0 && error == expected.1
                    ||| !self.device.reliable() && error == Some(FatError::Io) && slots(
                        found@,
                    ).is_prefix_of(expected.0)
                }),
            decreases found@.len() - i,
        {
            let same: bool = same_bytes(found[i].raw.as_slice(), short.as_slice());
            i += 1;
            assert(slots(found@).take(i as int).drop_last() =~= slots(found@).take(i - 1));
            if same {
                proof {
                    let whole = self.volume().directory(directory, self.geometry.cluster_count).0;
                    assert(first_short(slots(found@).take(i as int), short@) is Some);
                    assert(slots(found@).take(i as int).is_prefix_of(whole));
                    lemma_first_short_prefix(slots(found@).take(i as int), whole, short@);
                }
                return Ok(true);
            }
        }
        assert(slots(found@).take(i as int) =~= slots(found@));
        match error {
            Some(e) => Err(e),
            None => Ok(false),
        }
    }
}

/// The entry in a result, as a mathematical value.
pub open spec fn slot_result(r: Result<Option<EntryLocation>, FatError>) -> Result<
    Option<Slot>,
    FatError,
> {
    match r {
        Ok(Some(l)) => Ok(Some(l@)),
        Ok(None) => Ok(None),
        Err(e) => Err(e),
    }
}

fn keep_visible(found: Vec<EntryLocation>) -> (kept: Vec<EntryLocation>)
    ensures
        slots(kept@) == visible(slots(found@)),
{
    let mut rest: Vec<EntryLocation> = found;
    let mut reversed: Vec<EntryLocation> = Vec::new();
    assert(visible(slots(rest@)) + slots(reversed@).reverse() =~= visible(slots(found@)));
    while rest.len() > 0
        invariant
            visible(slots(rest@)) + slots(reversed@).reverse() == visible(slots(found@)),
        decreases rest@.len(),
    {
        let ghost before = rest@;
        let ghost kept = reversed@;
        match rest.pop() {
            Some(location) => {
                let name: &Vec<char> = &location.name;
                let dots: bool = (name.len() == 1 && name[0] == '.') || (name.len() == 2 && name[0]
                    == '.' && name[1] == '.');
                assert(slots(before).drop_last() =~= slots(rest@));
                assert(dots == (name@ =~= seq!['.'] || name@ =~= seq!['.', '.']));
                let ghost slot = location@;
                if !dots {
                    reversed.push(location);
                    assert(slots(reversed@) =~= slots(kept).push(slot));
                    assert(slots(reversed@).reverse() =~= seq![slot] + slots(kept).reverse());
                }
                assert(visible(slots(rest@)) + slots(reversed@).reverse() =~= visible(
                    slots(before),
                ) + slots(kept).reverse());
            },
            None => {},
        }
    }
    let mut kept: Vec<EntryLocation> = Vec::new();
    assert(visible(slots(rest@)) =~= Seq::<Slot>::empty());
    let ghost all = slots(reversed@).reverse();
    assert(slots(kept@) + slots(reversed@).reverse() =~= all);
    while reversed.len() > 0
        invariant
            slots(kept@) + slots(reversed@).reverse() == all,
        decreases reversed@.len(),
    {
        let ghost before = reversed@;
        let ghost old_kept = kept@;
        match reversed.pop() {
            Some(location) => {
                let ghost slot = location@;
                kept.push(location);
                assert(slots(before) =~= slots(reversed@).push(slot));
                assert(slots(before).reverse() =~= seq![slot] + slots(reversed@).reverse());
                assert(slots(kept@) =~= slots(old_kept).push(slot));
                assert(slots(kept@) + slots(reversed@).reverse() =~= slots(old_kept) + slots(
                    before,
                ).reverse());
            },
            None => {},
        }
    }
    assert(slots(kept@) =~= all);
    kept
}

/// Where the first entry with a given name stands.
pub(crate) fn index_named(found: &Vec<EntryLocation>, name: &[char]) -> (r: Option<usize>)
    ensures
        match r {
            Some(i) => i < found@.len() && first_named(slots(found@), name@) == Some(found@[i
                as int]@),
            None => first_named(slots(found@), name@) is None,
        },
{
    let mut i: usize = 0;
    assert(slots(found@).take(0) =~= Seq::<Slot>::empty());
    while i < found.len()
        invariant
            i <= found@.len(),
            first_named(slots(found@).take(i as int), name@) is None,
        decreases found@.len() - i,
    {
        let same: bool = eq_ignore_ascii_case(found[i].name.as_slice(), name);
        i += 1;
        assert(slots(found@).take(i as int).drop_last() =~= slots(found@).take(i - 1));
        if same {
            proof {
                lemma_first_named_prefix(slots(found@).take(i as int), slots(found@), name@);
            }
            return Some(i - 1);
        }
    }
    assert(slots(found@).take(i as int) =~= slots(found@));
    None
}

} // verus!
