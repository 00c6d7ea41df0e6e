//! What the checksums of a GPT are good for.

use vstd::prelude::*;
use crate::bytes::le32_bytes;
use super::{crc_bit, crc_bits, crc_of, crc_over};

verus! {

proof fn lemma_even_part(x: u32, y: u32)
    by (bit_vector)
    requires
        y % 2 == 0,
    ensures
        (if (x ^ y) % 2 == 1 {
            ((x ^ y) / 2) ^ 0xedb8_8320u32
        } else {
            (x ^ y) / 2
        }) == (if x % 2 == 1 {
            (x / 2) ^ 0xedb8_8320u32
        } else {
            x / 2
        }) ^ (y / 2),
{
}

proof fn lemma_shifts(y: u32, w: u32, x: u32, j: u32)
    by (bit_vector)
    ensures
        1 <= j <= 8 && y < 0x100_0000 ==> (y << j) % 2 == 0 && (y << j) / 2 == y << ((j - 1) as u32),
        y << 0u32 == y,
        x ^ (w % 0x100) == (x ^ w) ^ ((w / 0x100) << 8u32),
        (x ^ w) ^ (w % 0x100) == x ^ ((w / 0x100) << 8u32),
        w ^ 0 == w,
        x ^ !x == 0xffff_ffff,
{
}

proof fn lemma_concrete()
    by (bit_vector)
    ensures
        crc_bit(0xffffffff) == 0x92477cdfu32,
        crc_bit(0x92477cdf) == 0xa49b3d4fu32,
        crc_bit(0xa49b3d4f) == 0xbff51d87u32,
        crc_bit(0xbff51d87) == 0xb2420de3u32,
        crc_bit(0xb2420de3) == 0xb49985d1u32,
        crc_bit(0xb49985d1) == 0xb7f441c8u32,
        crc_bit(0xb7f441c8) == 0x5bfa20e4u32,
        crc_bit(0x5bfa20e4) == 0x2dfd1072u32,
        crc_bit(0x2dfd1072) == 0x16fe8839u32,
        crc_bit(0x16fe8839) == 0xe6c7c73cu32,
        crc_bit(0xe6c7c73c) == 0x7363e39eu32,
        crc_bit(0x7363e39e) == 0x39b1f1cfu32,
        crc_bit(0x39b1f1cf) == 0xf1607bc7u32,
        crc_bit(0xf1607bc7) == 0x9508bec3u32,
        crc_bit(0x9508bec3) == 0xa73cdc41u32,
        crc_bit(0xa73cdc41) == 0xbe26ed00u32,
        crc_bit(0xbe26ed00) == 0x5f137680u32,
        crc_bit(0x5f137680) == 0x2f89bb40u32,
        crc_bit(0x2f89bb40) == 0x17c4dda0u32,
        crc_bit(0x17c4dda0) == 0xbe26ed0u32,
        crc_bit(0xbe26ed0) == 0x5f13768u32,
        crc_bit(0x5f13768) == 0x2f89bb4u32,
        crc_bit(0x2f89bb4) == 0x17c4ddau32,
        crc_bit(0x17c4dda) == 0xbe26edu32,
        crc_bit(0xbe26ed) == 0xede79056u32,
        crc_bit(0xede79056) == 0x76f3c82bu32,
        crc_bit(0x76f3c82b) == 0xd6c16735u32,
        crc_bit(0xd6c16735) == 0x86d830bau32,
        crc_bit(0x86d830ba) == 0x436c185du32,
        crc_bit(0x436c185d) == 0xcc0e8f0eu32,
        crc_bit(0xcc0e8f0e) == 0x66074787u32,
        crc_bit(0x66074787) == 0xdebb20e3u32,
{
}

/// Bits that stand above those that are worked on move down as they are.
proof fn lemma_upper(x: u32, y: u32, j: u32)
    requires
        j <= 8,
        y < 0x100_0000,
    ensures
        crc_bits(x ^ (y << 8u32), j as nat) == crc_bits(x, j as nat) ^ (y << ((8 - j) as u32)),
    decreases j,
{
    if j > 0 {
        let k = (j - 1) as u32;
        lemma_upper(x, y, k);
        let i = (8 - k) as u32;
        lemma_shifts(y, 0, 0, i);
        assert((y << i) % 2 == 0);
        lemma_even_part(crc_bits(x, k as nat), y << i);
    }
}

proof fn lemma_byte(x: u32, y: u32)
    requires
        y < 0x100_0000,
    ensures
        crc_bits(x ^ (y << 8u32), 8) == crc_bits(x, 8) ^ y,
{
    lemma_upper(x, y, 8);
    lemma_shifts(y, 0, 0, 0);
}

/// Eight steps from a value on.
spec fn eight(x: u32) -> u32 {
    crc_bits(x, 8)
}

proof fn lemma_eight(x: u32)
    ensures
        eight(x) == crc_bit(
            crc_bit(crc_bit(crc_bit(crc_bit(crc_bit(crc_bit(crc_bit(x))))))),
        ),
{
    reveal_with_fuel(crc_bits, 9);
}

/// The check over bytes followed by the four bytes of a value, taken from the lowest.
proof fn lemma_four(b: Seq<u8>, w: u32)
    ensures
        crc_over(b + le32_bytes(w), b.len() as int + 4) == eight(
            eight(eight(eight(crc_over(b, b.len() as int) ^ w))),
        ),
{
    let n = b.len() as int;
    let t = le32_bytes(w);
    let all = b + t;
    lemma_prefix(b, t, n);
    let r = crc_over(b, n);
    let v = r ^ w;
    let (w1, w2, w3) = (w / 0x100, w / 0x1_0000, w / 0x100_0000);
    assert(w2 == w1 / 0x100 && w3 == w2 / 0x100);
    assert(all[n] == w % 0x100 && all[n + 1] == w1 % 0x100 && all[n + 2] == w2 % 0x100 && all[n + 3]
        == w3);
    assert(w3 % 0x100 == w3 && w3 / 0x100 == 0);
    let s1 = crc_over(all, n + 1);
    let s2 = crc_over(all, n + 2);
    let s3 = crc_over(all, n + 3);
    lemma_shifts(0, w, r, 0);
    lemma_byte(v, w1);
    assert(s1 == eight(v) ^ w1);
    lemma_shifts(0, w1, eight(v), 0);
    lemma_byte(eight(v), w2);
    assert(s2 == eight(eight(v)) ^ w2);
    lemma_shifts(0, w2, eight(eight(v)), 0);
    lemma_byte(eight(eight(v)), w3);
    assert(s3 == eight(eight(eight(v))) ^ w3);
    lemma_shifts(0, w3, eight(eight(eight(v))), 0);
    lemma_byte(eight(eight(eight(v))), 0);
    lemma_shifts(0, eight(eight(eight(eight(v)))), 0, 0);
    assert(crc_over(all, n + 4) == crc_bits(s3 ^ (w3 as u8 as u32), 8));
}

proof fn lemma_prefix(b: Seq<u8>, t: Seq<u8>, n: int)
    requires
        0 <= n <= b.len(),
    ensures
        crc_over(b + t, n) == crc_over(b, n),
    decreases n,
{
    if n > 0 {
        lemma_prefix(b, t, n - 1);
        assert((b + t)[n - 1] == b[n - 1]);
    }
}

/// The checksum is the CRC-32 of IEEE 802.3: of nothing it is zero, and of anything followed
/// by its own checksum it is always the same number, which that code is known by.
pub proof fn law_checksum_checks_itself(b: Seq<u8>)
    ensures
        crc_of(Seq::empty()) == 0,
        crc_of(b + le32_bytes(crc_of(b))) == 0x2144_df1c,
{
    let c = crc_of(b);
    let r = crc_over(b, b.len() as int);
    lemma_four(b, c);
    lemma_shifts(0, 0, r, 0);
    lemma_concrete();
    lemma_eight(0xffffffff);
    lemma_eight(0x2dfd1072);
    lemma_eight(0xbe26ed00);
    lemma_eight(0xbe26ed);
    assert(crc_over(b + le32_bytes(c), b.len() as int + 4) == 0xdebb_20e3);
    lemma_inverted();
}

proof fn lemma_inverted()
    by (bit_vector)
    ensures
        !0xdebb_20e3u32 == 0x2144_df1cu32,
        !0xffff_ffffu32 == 0u32,
{
}

} // verus!
