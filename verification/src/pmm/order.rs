//! Which of the free frames is handed out.

use vstd::prelude::*;
use super::{find_word, is_used, lemma_one_bit, Pmm};

verus! {

proof fn lemma_word_found(bitmap: Seq<u64>, hint: int, n: int, w: int) -> (k: int)
    requires
        0 <= n,
        find_word(bitmap, hint, n) == Some(w),
    ensures
        n <= k < bitmap.len(),
        w == (hint + k) % (bitmap.len() as int),
        forall|m: int|
            n <= m < k ==> bitmap[#[trigger] ((hint + m) % (bitmap.len() as int))]
                == 0xffff_ffff_ffff_ffff,
    decreases bitmap.len() - n,
{
    if bitmap[(hint + n) % (bitmap.len() as int)] != 0xffff_ffff_ffff_ffff {
        n
    } else {
        lemma_word_found(bitmap, hint, n + 1, w)
    }
}

/// The frame that is handed out is the first that is free from the sixty-four on that the
/// last search ended in; where none is free behind those, the first of all.
pub proof fn law_next_fit(a: Pmm, b: Pmm, p: u64, g: int)
    requires
        a.wf(),
        a.gave_one(b, p),
        0 <= g < a.total_frames,
        !is_used(a.bitmap@, g),
    ensures
        ({
            let f = p as int / 4096;
            let from = 64 * a.next_hint;
            &&& g >= from ==> from <= f <= g
            &&& g < from ==> f >= from || f <= g
            &&& b.next_hint == f / 64
        }),
{
    let n = a.bitmap@.len() as int;
    let h = a.next_hint as int;
    let f = p as int / 4096;
    let v = g / 64;
    let k = lemma_word_found(a.bitmap@, h, 0, f / 64);
    assert(a.bitmap@[v] != 0xffff_ffff_ffff_ffff) by {
        lemma_one_bit(0, 0, (g % 64) as u64);
    }
    let m = if v >= h {
        v - h
    } else {
        n - h + v
    };
    assert(0 <= v < n);
    assert((h + m) % n == v) by {
        if v >= h {
            vstd::arithmetic::div_mod::lemma_small_mod((h + m) as nat, n as nat);
        } else {
            assert(h + m == n + v);
            vstd::arithmetic::div_mod::lemma_fundamental_div_mod_converse(h + m, n, 1, v);
        }
    }
    assert(k <= m);
    if h + k < n {
        vstd::arithmetic::div_mod::lemma_small_mod((h + k) as nat, n as nat);
    } else {
        vstd::arithmetic::div_mod::lemma_fundamental_div_mod_converse(h + k, n, 1, h + k - n);
    }
    if f / 64 == v && g < f {
        assert(is_used(a.bitmap@, g));
    }
}

} // verus!
