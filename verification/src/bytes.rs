//! Little-endian fields inside byte buffers.

use vstd::prelude::*;

verus! {

/// The 16-bit little-endian value at `at`.
pub open spec fn le16(b: Seq<u8>, at: int) -> int {
    b[at] + 0x100 * b[at + 1]
}

/// The 32-bit little-endian value at `at`.
pub open spec fn le32(b: Seq<u8>, at: int) -> int {
    b[at] + 0x100 * b[at + 1] + 0x1_0000 * b[at + 2] + 0x100_0000 * b[at + 3]
}

/// The 64-bit little-endian value at `at`.
pub open spec fn le64(b: Seq<u8>, at: int) -> int {
    le32(b, at) + 0x1_0000_0000 * le32(b, at + 4)
}

/// The two bytes of `v`, least significant first.
pub open spec fn le16_bytes(v: u16) -> Seq<u8> {
    seq![(v % 0x100) as u8, (v / 0x100) as u8]
}

/// The four bytes of `v`, least significant first.
pub open spec fn le32_bytes(v: u32) -> Seq<u8> {
    seq![
        (v % 0x100) as u8,
        (v / 0x100 % 0x100) as u8,
        (v / 0x1_0000 % 0x100) as u8,
        (v / 0x100_0000) as u8,
    ]
}

/// `b` with the bytes from `at` on replaced by `data`.
pub open spec fn spliced(b: Seq<u8>, at: int, data: Seq<u8>) -> Seq<u8> {
    Seq::new(
        b.len(),
        |i: int|
            if at <= i < at + data.len() {
                data[i - at]
            } else {
                b[i]
            },
    )
}

/// `n` zero bytes.
pub open spec fn zeros(n: nat) -> Seq<u8> {
    Seq::new(n, |i: int| 0u8)
}

pub fn u16le(b: &[u8], at: usize) -> (v: u16)
    requires
        at + 2 <= b@.len(),
    ensures
        v == le16(b@, at as int),
{
    b[at] as u16 + 0x100 * b[at + 1] as u16
}

pub fn u32le(b: &[u8], at: usize) -> (v: u32)
    requires
        at + 4 <= b@.len(),
    ensures
        v == le32(b@, at as int),
{
    b[at] as u32 + 0x100 * b[at + 1] as u32 + 0x1_0000 * b[at + 2] as u32 + 0x100_0000 * b[at
        + 3] as u32
}

pub fn u64le(b: &[u8], at: usize) -> (v: u64)
    requires
        at + 8 <= b@.len(),
    ensures
        v == le64(b@, at as int),
{
    assert(b.len() == b@.len());
    u32le(b, at) as u64 + 0x1_0000_0000 * u32le(b, at + 4) as u64
}

pub fn u16_to_le(v: u16) -> (b: [u8; 2])
    ensures
        b@ == le16_bytes(v),
{
    let b: [u8; 2] = [(v % 0x100) as u8, (v / 0x100) as u8];
    assert(b@ =~= le16_bytes(v));
    b
}

pub fn u32_to_le(v: u32) -> (b: [u8; 4])
    ensures
        b@ == le32_bytes(v),
{
    let b: [u8; 4] = [
        (v % 0x100) as u8,
        (v / 0x100 % 0x100) as u8,
        (v / 0x1_0000 % 0x100) as u8,
        (v / 0x100_0000) as u8,
    ];
    assert(b@ =~= le32_bytes(v));
    b
}

/// Writing a value and reading it back gives the value.
pub proof fn lemma_le_round_trip(v16: u16, v32: u32)
    ensures
        le16(le16_bytes(v16), 0) == v16,
        le32(le32_bytes(v32), 0) == v32,
{
    assert(v32 / 0x1_0000 == v32 / 0x100 / 0x100);
    assert(v32 / 0x100_0000 == v32 / 0x1_0000 / 0x100);
    let b = le32_bytes(v32);
    assert(b[0] == v32 % 0x100);
    assert(b[1] == v32 / 0x100 % 0x100);
    assert(b[2] == v32 / 0x1_0000 % 0x100);
    assert(b[3] == v32 / 0x100_0000);
}

/// Copy `data` into `buf`, starting at `at`.
pub fn copy_into(buf: &mut [u8], at: usize, data: &[u8])
    requires
        at + data@.len() <= old(buf)@.len(),
    ensures
        final(buf)@ == spliced(old(buf)@, at as int, data@),
{
    let mut i: usize = 0;
    while i < data.len()
        invariant
            i <= data@.len(),
            at + data@.len() <= buf@.len(),
            buf@.len() == old(buf)@.len(),
            forall|k: int|
                0 <= k < buf@.len() ==> #[trigger] buf@[k] == if at <= k < at + i {
                    data@[k - at]
                } else {
                    old(buf)@[k]
                },
        decreases data@.len() - i,
    {
        assert(buf.len() == buf@.len());
        buf[at + i] = data[i];
        i += 1;
    }
    assert(buf@ =~= spliced(old(buf)@, at as int, data@));
}

/// Whether two byte strings are equal.
pub fn same_bytes(a: &[u8], b: &[u8]) -> (r: bool)
    ensures
        r == (a@ == b@),
{
    if a.len() != b.len() {
        return false;
    }
    let mut i: usize = 0;
    while i < a.len()
        invariant
            i <= a@.len(),
            a@.len() == b@.len(),
            forall|k: int| 0 <= k < i ==> a@[k] == b@[k],
        decreases a@.len() - i,
    {
        if a[i] != b[i] {
            return false;
        }
        i += 1;
    }
    assert(a@ =~= b@);
    true
}

/// The eight bytes of `v`, least significant first.
pub open spec fn le64_bytes(v: u64) -> Seq<u8> {
    le32_bytes((v % 0x1_0000_0000) as u32) + le32_bytes((v / 0x1_0000_0000) as u32)
}

pub proof fn lemma_le64_round_trip(v: u64)
    ensures
        le64_bytes(v).len() == 8,
        le64(le64_bytes(v), 0) == v,
{
    let low = (v % 0x1_0000_0000) as u32;
    let high = (v / 0x1_0000_0000) as u32;
    lemma_le_round_trip(0, low);
    lemma_le_round_trip(0, high);
    let b = le64_bytes(v);
    assert(le32(b, 0) == le32(le32_bytes(low), 0));
    assert(le32(b, 4) == le32(le32_bytes(high), 0));
}

pub fn u64_to_le(v: u64) -> (b: [u8; 8])
    ensures
        b@ == le64_bytes(v),
{
    let low: [u8; 4] = u32_to_le((v % 0x1_0000_0000) as u32);
    let high: [u8; 4] = u32_to_le((v / 0x1_0000_0000) as u32);
    let b: [u8; 8] = [low[0], low[1], low[2], low[3], high[0], high[1], high[2], high[3]];
    assert(b@ =~= low@ + high@);
    b
}

/// Up to `len` bytes from an offset on, as many as there are.
pub open spec fn part_of(data: Seq<u8>, offset: int, len: int) -> Seq<u8> {
    if offset >= data.len() {
        Seq::empty()
    } else if offset + len <= data.len() {
        data.subrange(offset, offset + len)
    } else {
        data.skip(offset)
    }
}

/// In a little-endian field the lowest byte comes first, and each byte after it counts 256
/// times as much.
pub proof fn law_lowest_byte_first(b: Seq<u8>, at: int)
    ensures
        le16(b, at) % 0x100 == b[at],
        le16(b, at) / 0x100 == b[at + 1],
        le32(b, at) == le16(b, at) + 0x1_0000 * le16(b, at + 2),
        le64(b, at) == le16(b, at) + 0x1_0000 * le16(b, at + 2) + 0x1_0000_0000 * le16(b, at + 4)
            + 0x1_0000_0000_0000 * le16(b, at + 6),
{
}

/// Written down, a number has its lowest byte first.
pub proof fn law_numbers_are_written_lowest_byte_first(v16: u16, v32: u32, v64: u64)
    ensures
        le16_bytes(v16).len() == 2 && le16_bytes(v16)[0] == v16 % 0x100,
        le16_bytes(v16)[1] == v16 / 0x100,
        le32_bytes(v32).len() == 4 && le32_bytes(v32)[0] == v32 % 0x100,
        le32_bytes(v32)[3] == v32 / 0x100_0000,
        le32(le32_bytes(v32), 0) == v32,
        le64_bytes(v64).len() == 8 && le64_bytes(v64)[0] == v64 % 0x100,
        le64_bytes(v64)[7] == v64 / 0x100_0000_0000_0000,
        le64(le64_bytes(v64), 0) == v64,
{
    lemma_le_round_trip(v16, v32);
    lemma_le64_round_trip(v64);
}

} // verus!
