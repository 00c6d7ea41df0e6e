//! The segments of the processor: their selectors and descriptors.

use vstd::arithmetic::div_mod::lemma_fundamental_div_mod_converse;
use vstd::prelude::*;

verus! {

pub const KERNEL_CS: u16 = 0x08;

pub const KERNEL_DS: u16 = 0x10;

/// Ring-3 data segment (base value; put RPL 3 in to actually use it). Must sit
/// immediately before `USER_CS`: `USER_DS - 8` is the base of the `SYSRET` half of
/// `STAR`.
pub const USER_DS: u16 = 0x18;

/// Ring-3 64-bit code segment (base value; put RPL 3 in to actually use it).
pub const USER_CS: u16 = 0x20;

pub const TSS_SELECTOR: u16 = 0x28;

pub const DOUBLE_FAULT_IST: u8 = 1;

/// The descriptor of a task-state segment: sixteen bits of its limit, its base in
/// three pieces, and that it is an available 64-bit one.
pub open spec fn tss_words(base: u64, limit: u32) -> (int, int) {
    (
        limit % 0x1_0000 + base % 0x100_0000 * 0x1_0000 + 0x89 * 0x100_0000_0000 + limit / 0x1_0000
            % 16 * 0x1_0000_0000_0000 + base / 0x100_0000 % 0x100 * 0x100_0000_0000_0000,
        base as int / 0x1_0000_0000,
    )
}

pub fn tss_descriptor(base: u64, limit: u32) -> (r: (u64, u64))
    ensures
        (r.0 as int, r.1 as int) == tss_words(base, limit),
{
    let l: u64 = limit as u64;
    let low: u64 = l % 0x1_0000 + base % 0x100_0000 * 0x1_0000 + 0x89 * 0x100_0000_0000 + l
        / 0x1_0000 % 16 * 0x1_0000_0000_0000 + base / 0x100_0000 % 0x100 * 0x100_0000_0000_0000;
    (low, base / 0x1_0000_0000)
}

/// The descriptor table: none, kernel code, kernel data, user data, user code, and
/// the task-state segment in two words.
pub fn table(tss_base: u64, tss_limit: u32) -> (r: [u64; 7])
    ensures
        r@ == seq![
            0u64,
            0x00af_9a00_0000_ffff,
            0x00cf_9200_0000_ffff,
            0x00cf_f200_0000_ffff,
            0x00af_fa00_0000_ffff,
            tss_words(tss_base, tss_limit).0 as u64,
            tss_words(tss_base, tss_limit).1 as u64,
        ],
{
    let (low, high) = tss_descriptor(tss_base, tss_limit);
    let r: [u64; 7] = [
        0,
        0x00af_9a00_0000_ffff,
        0x00cf_9200_0000_ffff,
        0x00cf_f200_0000_ffff,
        0x00af_fa00_0000_ffff,
        low,
        high,
    ];
    assert(r@ =~= seq![
        0u64,
        0x00af_9a00_0000_ffff,
        0x00cf_9200_0000_ffff,
        0x00cf_f200_0000_ffff,
        0x00af_fa00_0000_ffff,
        low,
        high,
    ]);
    r
}

/// The pieces of a task-state segment's descriptor make up its base and its limit, and say
/// what it is.
pub proof fn law_tss_descriptor(base: u64, limit: u32)
    requires
        limit < 0x10_0000,
    ensures
        ({
            let (low, high) = tss_words(base, limit);
            &&& low % 0x1_0000 + 0x1_0000 * (low / 0x1_0000_0000_0000 % 16) == limit
            &&& low / 0x1_0000 % 0x100_0000 + 0x100_0000 * (low / 0x100_0000_0000_0000)
                + 0x1_0000_0000 * high == base
            &&& low / 0x100_0000_0000 % 0x100 == 0x89
        }),
{
    let (a, b) = (limit as int % 0x1_0000, base as int % 0x100_0000);
    let (c, d) = (limit as int / 0x1_0000, base as int / 0x100_0000 % 0x100);
    let low = tss_words(base, limit).0;
    assert(c % 16 == c);
    lemma_fundamental_div_mod_converse(
        low,
        0x1_0000,
        b + 0x89 * 0x100_0000 + c * 0x1_0000_0000 + d * 0x100_0000_0000,
        a,
    );
    lemma_fundamental_div_mod_converse(
        low / 0x1_0000,
        0x100_0000,
        0x89 + c * 0x100 + d * 0x1_0000,
        b,
    );
    lemma_fundamental_div_mod_converse(
        low,
        0x100_0000_0000,
        0x89 + c * 0x100 + d * 0x1_0000,
        a + b * 0x1_0000,
    );
    lemma_fundamental_div_mod_converse(0x89 + c * 0x100 + d * 0x1_0000, 0x100, c + d * 0x100, 0x89);
    lemma_fundamental_div_mod_converse(
        low,
        0x1_0000_0000_0000,
        c + d * 0x100,
        a + b * 0x1_0000 + 0x89 * 0x100_0000_0000,
    );
    lemma_fundamental_div_mod_converse(c + d * 0x100, 16, d * 16, c);
    lemma_fundamental_div_mod_converse(
        low,
        0x100_0000_0000_0000,
        d,
        a + b * 0x1_0000 + 0x89 * 0x100_0000_0000 + c * 0x1_0000_0000_0000,
    );
}

} // verus!
