//! What is written for a new entry, a new directory, and the volume's summary.

use vstd::prelude::*;
use vstd::arithmetic::div_mod::{lemma_fundamental_div_mod_converse, lemma_small_mod};
use crate::bytes::{le16, le32, le32_bytes, lemma_le_round_trip, spliced, zeros};
use super::model::Volume;
use super::update::{dot_dot_name, dot_name, new_record, with_meta};

verus! {

/// The bytes of a record, field by field: the 8.3 name, the attributes, the first cluster in
/// two halves, and the size; the rest is zero.
pub open spec fn is_record_of(e: Seq<u8>, raw: Seq<u8>, attr: u8, first: u32, size: u32) -> bool {
    &&& e.len() == 32
    &&& forall|i: int| 0 <= i < 11 ==> e[i] == raw[i]
    &&& e[11] == attr
    &&& le16(e, 20) * 0x1_0000 + le16(e, 26) == first
    &&& le32(e, 28) == size
    &&& forall|i: int| 12 <= i < 20 || 22 <= i < 26 ==> e[i] == 0
}

/// The record of a new entry says its name, what it is and where it starts, and that it is
/// empty.
pub proof fn law_new_record(raw: Seq<u8>, attr: u8, first: u32)
    requires
        raw.len() == 11,
    ensures
        is_record_of(new_record(raw, attr, first), raw, attr, first, 0),
{
    let base = spliced(zeros(32), 0, raw.push(attr));
    super::walks::lemma_with_meta(base, first, 0);
    let e = new_record(raw, attr, first);
    assert(le16(e, 20) * 0x1_0000 + le16(e, 26) == first) by {
        let high = (first / 0x1_0000) as u16;
        let low = (first % 0x1_0000) as u16;
        lemma_le_round_trip(high, 0);
        lemma_le_round_trip(low, 0);
        assert(e[20] == crate::bytes::le16_bytes(high)[0]);
        assert(e[21] == crate::bytes::le16_bytes(high)[1]);
        assert(e[26] == crate::bytes::le16_bytes(low)[0]);
        assert(e[27] == crate::bytes::le16_bytes(low)[1]);
    }
}

/// A record whose file has grown or moved keeps all but its first cluster and its size.
pub proof fn law_record_is_kept(e: Seq<u8>, first: u32, size: u32, i: int)
    requires
        e.len() == 32,
    ensures
        le32(with_meta(e, first, size), 28) == size,
        le16(with_meta(e, first, size), 20) * 0x1_0000 + le16(with_meta(e, first, size), 26) == first,
        0 <= i < 20 || 22 <= i < 26 ==> with_meta(e, first, size)[i] == e[i],
{
    super::walks::lemma_with_meta(e, first, size);
    let m = with_meta(e, first, size);
    let high = (first / 0x1_0000) as u16;
    let low = (first % 0x1_0000) as u16;
    lemma_le_round_trip(high, 0);
    lemma_le_round_trip(low, 0);
    assert(m[20] == crate::bytes::le16_bytes(high)[0]);
    assert(m[21] == crate::bytes::le16_bytes(high)[1]);
    assert(m[26] == crate::bytes::le16_bytes(low)[0]);
    assert(m[27] == crate::bytes::le16_bytes(low)[1]);
}

impl Volume {
    /// A new directory starts with two records of directories: a dot, which is itself, and
    /// two dots, which is the one that it is in. Nothing else of the volume's files and of
    /// its table changes.
    pub proof fn law_new_directory(self, c: u32, parent: u32, d: u32)
        requires
            self.wf(),
            self.g.is_cluster(c),
        ensures
            ({
                let v = self.put_dots(c, parent);
                let dot = seq![
                    0x2eu8, 0x20, 0x20, 0x20, 0x20, 0x20, 0x20, 0x20, 0x20, 0x20, 0x20,
                ];
                let dots = seq![
                    0x2eu8, 0x2e, 0x20, 0x20, 0x20, 0x20, 0x20, 0x20, 0x20, 0x20, 0x20,
                ];
                &&& v.wf()
                &&& is_record_of(v.data(c).subrange(0, 32), dot, 0x10, c, 0)
                &&& is_record_of(v.data(c).subrange(32, 64), dots, 0x10, parent, 0)
                &&& v.data(c).skip(64) == self.data(c).skip(64)
                &&& self.g.is_cluster(d) && d != c ==> v.data(d) == self.data(d)
                &&& d < self.g.cluster_count + 2 ==> v.fat(d) == self.fat(d)
            }),
    {
        let a = new_record(dot_name(), 0x10, c);
        let b = new_record(dot_dot_name(), 0x10, parent);
        law_new_record(dot_name(), 0x10, c);
        law_new_record(dot_dot_name(), 0x10, parent);
        let u = self.put(c, 0, a);
        let v = self.put_dots(c, parent);
        assert(self.g.cluster_size() >= 512) by (nonlinear_arith)
            requires
                self.g.cluster_size() == self.g.sectors_per_cluster * 512,
                self.g.sectors_per_cluster >= 1,
        ;
        self.lemma_put(c, 0, a);
        u.lemma_put(c, 32, b);
        assert(v.data(c).subrange(0, 32) =~= a);
        assert(v.data(c).subrange(32, 64) =~= b);
        assert(v.data(c).skip(64) =~= self.data(c).skip(64));
    }

    /// Before the volume changes for the first time, its summary of free space is marked as
    /// not known, in the two numbers of the sector that has its signs; nothing else changes.
    pub proof fn law_summary_is_marked(self, n: int, i: int)
        requires
            self.wf(),
            0 <= n < self.img.len(),
        ensures
            ({
                let v = self.mark_fsinfo();
                let is_summary = !self.marked && self.fsinfo == Some(n as u16) && n <= u16::MAX
                    && le32(self.img[n], 0) == 0x4161_5252 && le32(self.img[n], 484) == 0x6141_7272
                    && le32(self.img[n], 508) == 0xaa55_0000;
                &&& v.marked
                &&& is_summary ==> le32(v.img[n], 488) == 0xffff_ffff && le32(v.img[n], 492)
                    == 0xffff_ffff && (0 <= i < 488 || 496 <= i < 512 ==> v.img[n][i]
                    == self.img[n][i])
                &&& !is_summary ==> v.img[n] == self.img[n]
            }),
    {
        lemma_le_round_trip(0, 0xffff_ffff);
        let full = le32_bytes(0xffff_ffff);
        let v = self.mark_fsinfo();
        assert(self.img[n].len() == 512);
        if v.img[n] != self.img[n] {
            let s = v.img[n];
            assert(s[488] == full[0] && s[489] == full[1] && s[490] == full[2] && s[491] == full[3]);
            assert(s[492] == full[0] && s[493] == full[1] && s[494] == full[2] && s[495] == full[3]);
        }
    }
}

impl Volume {
    proof fn lemma_found_free(self, start: int, step: int) -> (k: int)
        requires
            0 <= step,
        ensures
            match self.find_free(start, step) {
                Some(c) => step <= k < self.g.cluster_count && c == self.candidate(start, k)
                    && self.fat(c) == 0 && forall|j: int|
                    step <= j < k ==> self.fat(#[trigger] self.candidate(start, j)) != 0,
                None => forall|j: int|
                    step <= j < self.g.cluster_count ==> self.fat(
                        #[trigger] self.candidate(start, j),
                    ) != 0,
            },
        decreases self.g.cluster_count - step,
    {
        if step >= self.g.cluster_count {
            step
        } else if self.fat(self.candidate(start, step)) == 0 {
            step
        } else {
            self.lemma_found_free(start, step + 1)
        }
    }

    proof fn lemma_place_in_turn(self, start: int, k: int)
        requires
            self.wf(),
            2 <= start < self.g.cluster_count + 2,
            0 <= k < self.g.cluster_count,
        ensures
            start + k < self.g.cluster_count + 2 ==> self.candidate(start, k) == start + k,
            start + k >= self.g.cluster_count + 2 ==> self.candidate(start, k) == start + k
                - self.g.cluster_count,
    {
        let n = self.g.cluster_count as int;
        let at = start - 2 + k;
        if at < n {
            lemma_small_mod(at as nat, n as nat);
        } else {
            lemma_fundamental_div_mod_converse(at, n, 1, at - n);
        }
    }

    /// A cluster that is taken was free. It is the first free one from the place that the
    /// search starts at; where there is none from there on, the first of all. A search finds
    /// one as long as there is one.
    pub proof fn law_first_free_cluster(self, start: int, d: u32)
        requires
            self.wf(),
            2 <= start < self.g.cluster_count + 2,
            self.g.is_cluster(d),
            self.fat(d) == 0,
        ensures
            match self.find_free(start, 0) {
                Some(c) => {
                    &&& self.g.is_cluster(c)
                    &&& self.fat(c) == 0
                    &&& d >= start ==> start <= c <= d
                    &&& d < start ==> c >= start || c <= d
                },
                None => false,
            },
    {
        let n = self.g.cluster_count as int;
        let k = self.lemma_found_free(start, 0);
        let m = if d >= start {
            d - start
        } else {
            n - start + d
        };
        self.lemma_place_in_turn(start, m);
        assert(self.candidate(start, m) == d);
        if self.find_free(start, 0) is Some {
            self.lemma_place_in_turn(start, k);
        }
    }
}

} // verus!
