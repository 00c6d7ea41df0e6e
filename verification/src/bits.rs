//! Single bits of 64-bit words.

use vstd::prelude::*;

verus! {

/// Whether bit `i` of a word is set.
pub open spec fn bit(w: u64, i: int) -> bool {
    (w >> (i as u64)) & 1 == 1
}

/// The lowest clear bit of a word that has one.
pub fn lowest_clear(w: u64) -> (b: usize)
    requires
        w != 0xffff_ffff_ffff_ffff,
    ensures
        b < 64,
        !bit(w, b as int),
        forall|j: int| 0 <= j < b ==> bit(w, j),
{
    let b: u32 = w.trailing_ones();
    assert forall|j: int| 0 <= j < b implies bit(w, j) by {
        assert((w >> (j as u64)) & 1u64 == 1u64);
    }
    b as usize
}

} // verus!
