//! What a program finds on its stack when it starts.

use vstd::prelude::*;
use crate::bytes::{le64, le64_bytes, lemma_le64_round_trip};
use super::stack::{
    arg_of, arg_offset, pointer_offset, stack_byte, stack_pointer, top_page, USER_STACK_TOP,
};

verus! {

/// The word that stands on the stack at an address.
pub open spec fn word_at(name: Seq<u8>, at: int) -> int {
    le64(Seq::new(8, |i: int| stack_byte(name, at + i)), 0)
}

proof fn lemma_word(name: Seq<u8>, off: int, b: Seq<u8>)
    requires
        0 <= off <= 4088,
        b.len() == 8,
        forall|i: int| 0 <= i < 8 ==> top_page(name)[off + i] == b[i],
    ensures
        word_at(name, USER_STACK_TOP - 4096 + off) == le64(b, 0),
{
    let w = Seq::new(8, |i: int| stack_byte(name, USER_STACK_TOP - 4096 + off + i));
    assert(w =~= b);
}

/// A program starts as the System V ABI has it: the stack pointer is a multiple of 16; at
/// it stands the number of arguments, one; above that a pointer to the argument and four
/// zero words, which end the arguments, the environment and the auxiliary vector. The
/// argument is the program's name, of which up to 255 bytes are kept, with a zero byte
/// behind it, and lies above all that.
pub proof fn law_program_finds_its_name(name: Seq<u8>)
    ensures
        ({
            let sp = stack_pointer(name);
            let n = if name.len() > 255 {
                255
            } else {
                name.len() as int
            };
            let p = word_at(name, sp + 8);
            &&& sp % 16 == 0
            &&& word_at(name, sp) == 1
            &&& word_at(name, sp + 16) == 0
            &&& word_at(name, sp + 24) == 0
            &&& word_at(name, sp + 32) == 0
            &&& word_at(name, sp + 40) == 0
            &&& sp + 48 <= p
            &&& p + n < USER_STACK_TOP
            &&& forall|i: int| 0 <= i < n ==> #[trigger] stack_byte(name, p + i) == name[i]
            &&& stack_byte(name, p + n) == 0
        }),
{
    let arg = arg_of(name);
    let n = arg.len() as int;
    let a = arg_offset(n);
    let at = pointer_offset(n);
    let base = USER_STACK_TOP - 4096;
    let q = (base + a) as u64;
    assert(q == base + a);
    lemma_le64_round_trip(1);
    lemma_le64_round_trip(q);
    let (one, ptr) = (le64_bytes(1), le64_bytes(q));
    assert(0 <= at && at + 48 <= a);
    let page = top_page(name);
    assert(page.len() == 4096);
    assert forall|i: int| 0 <= i < 4096 implies page[i] == if at + 8 <= i < at + 16 {
        ptr[i - at - 8]
    } else if at <= i < at + 8 {
        one[i - at]
    } else if a <= i < a + n {
        arg[i - a]
    } else {
        0
    } by {}
    lemma_word(name, at, one);
    lemma_word(name, at + 8, ptr);
    let none = Seq::new(8, |i: int| 0u8);
    assert(le64(none, 0) == 0);
    lemma_word(name, at + 16, none);
    lemma_word(name, at + 24, none);
    lemma_word(name, at + 32, none);
    lemma_word(name, at + 40, none);
    let p = word_at(name, stack_pointer(name) + 8);
    assert(p == base + a);
    assert forall|i: int| 0 <= i < n implies #[trigger] stack_byte(name, p + i) == name[i] by {
        assert(page[a + i] == arg[i]);
    }
    assert(page[a + n] == 0);
}

} // verus!
