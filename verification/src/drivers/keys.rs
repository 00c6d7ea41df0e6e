//! What the keys of a US keyboard type, on a keyboard of either kind.

use vstd::prelude::*;
use super::ps2::{escape, shifted, typed, unshifted, with_caps};
use super::usb::xhci::keyboard::{hid_shifted, hid_unshifted, reported};

verus! {

/// The top row of a US keyboard, with and without Shift.
pub open spec fn row_one() -> Seq<char> {
    seq!['1', '2', '3', '4', '5', '6', '7', '8', '9', '0', '-', '=']
}

/// The same with Shift.
pub open spec fn row_one_shifted() -> Seq<char> {
    seq!['!', '@', '#', '$', '%', '^', '&', '*', '(', ')', '_', '+']
}

/// The row of letters below it.
pub open spec fn row_two() -> Seq<char> {
    seq!['q', 'w', 'e', 'r', 't', 'y', 'u', 'i', 'o', 'p', '[', ']']
}

/// The same with Shift.
pub open spec fn row_two_shifted() -> Seq<char> {
    seq!['Q', 'W', 'E', 'R', 'T', 'Y', 'U', 'I', 'O', 'P', '{', '}']
}

/// The middle row.
pub open spec fn row_three() -> Seq<char> {
    seq!['a', 's', 'd', 'f', 'g', 'h', 'j', 'k', 'l', ';', '\'', '`']
}

/// The same with Shift.
pub open spec fn row_three_shifted() -> Seq<char> {
    seq!['A', 'S', 'D', 'F', 'G', 'H', 'J', 'K', 'L', ':', '"', '~']
}

/// The lowest row.
pub open spec fn row_four() -> Seq<char> {
    seq!['z', 'x', 'c', 'v', 'b', 'n', 'm', ',', '.', '/']
}

/// The same with Shift.
pub open spec fn row_four_shifted() -> Seq<char> {
    seq!['Z', 'X', 'C', 'V', 'B', 'N', 'M', '<', '>', '?']
}

/// The letters of the alphabet.
pub open spec fn alphabet() -> Seq<char> {
    seq!['a', 'b', 'c', 'd', 'e', 'f', 'g', 'h', 'i', 'j', 'k', 'l', 'm', 'n', 'o', 'p', 'q', 'r', 's', 't', 'u', 'v', 'w', 'x', 'y', 'z']
}

/// The capital letters.
pub open spec fn alphabet_shifted() -> Seq<char> {
    seq!['A', 'B', 'C', 'D', 'E', 'F', 'G', 'H', 'I', 'J', 'K', 'L', 'M', 'N', 'O', 'P', 'Q', 'R', 'S', 'T', 'U', 'V', 'W', 'X', 'Y', 'Z']
}

/// The keys of a row of a PS/2 keyboard follow each other, from a code on: each types its
/// character, and with Shift the one above it.
pub open spec fn is_row(from: u8, plain: Seq<char>, shift: Seq<char>) -> bool {
    forall|i: int|
        0 <= i < plain.len() ==> typed((from + i) as u8, false, false, false) == seq![
            #[trigger] plain[i] as u8,
        ] && typed((from + i) as u8, false, true, false) == seq![shift[i] as u8]
}

proof fn lemma_row_one()
    ensures
        is_row(0x02, row_one(), row_one_shifted()),
{
    assert forall|i: int| 0 <= i < row_one().len() implies typed((0x02 + i) as u8, false, false, false)
        == seq![#[trigger] row_one()[i] as u8] && typed((0x02 + i) as u8, false, true, false) == seq![
        row_one_shifted()[i] as u8,
    ] by {
        assert(i == 0 || i == 1 || i == 2 || i == 3 || i == 4 || i == 5 || i == 6 || i == 7 || i == 8 || i == 9 || i == 10 || i == 11);
    }
}

proof fn lemma_row_two()
    ensures
        is_row(0x10, row_two(), row_two_shifted()),
{
    assert forall|i: int| 0 <= i < row_two().len() implies typed((0x10 + i) as u8, false, false, false)
        == seq![#[trigger] row_two()[i] as u8] && typed((0x10 + i) as u8, false, true, false) == seq![
        row_two_shifted()[i] as u8,
    ] by {
        assert(i == 0 || i == 1 || i == 2 || i == 3 || i == 4 || i == 5 || i == 6 || i == 7 || i == 8 || i == 9 || i == 10 || i == 11);
    }
}

proof fn lemma_row_three()
    ensures
        is_row(0x1e, row_three(), row_three_shifted()),
{
    assert forall|i: int| 0 <= i < row_three().len() implies typed((0x1e + i) as u8, false, false, false)
        == seq![#[trigger] row_three()[i] as u8] && typed((0x1e + i) as u8, false, true, false) == seq![
        row_three_shifted()[i] as u8,
    ] by {
        assert(i == 0 || i == 1 || i == 2 || i == 3 || i == 4 || i == 5 || i == 6 || i == 7 || i == 8 || i == 9 || i == 10 || i == 11);
    }
}

proof fn lemma_row_four()
    ensures
        is_row(0x2c, row_four(), row_four_shifted()),
{
    assert forall|i: int| 0 <= i < row_four().len() implies typed((0x2c + i) as u8, false, false, false)
        == seq![#[trigger] row_four()[i] as u8] && typed((0x2c + i) as u8, false, true, false) == seq![
        row_four_shifted()[i] as u8,
    ] by {
        assert(i == 0 || i == 1 || i == 2 || i == 3 || i == 4 || i == 5 || i == 6 || i == 7 || i == 8 || i == 9);
    }
}

/// A PS/2 keyboard types the characters of its four rows; the space bar, Enter, Tab,
/// Backspace and Escape type theirs, with Shift or without; the key beside Enter types a
/// backslash, and with Shift a bar.
pub proof fn law_ps2_keys()
    ensures
        is_row(0x02, row_one(), row_one_shifted()),
        is_row(0x10, row_two(), row_two_shifted()),
        is_row(0x1e, row_three(), row_three_shifted()),
        is_row(0x2c, row_four(), row_four_shifted()),
        forall|shift: bool, caps: bool|
            {
                &&& #[trigger] typed(0x39, false, shift, caps) == seq![0x20u8]
                &&& typed(0x1c, false, shift, caps) == seq![0x0au8]
                &&& typed(0x0f, false, shift, caps) == seq![0x09u8]
                &&& typed(0x0e, false, shift, caps) == seq![0x08u8]
                &&& typed(0x01, false, shift, caps) == seq![0x1bu8]
            },
        typed(0x2b, false, false, false) == seq!['\\' as u8],
        typed(0x2b, false, true, false) == seq!['|' as u8],
{
    lemma_row_one();
    lemma_row_two();
    lemma_row_three();
    lemma_row_four();
}

/// A key that is let go of types nothing, and neither do Shift, Caps Lock and the prefix.
pub proof fn law_ps2_silent_keys(code: u8, after_prefix: bool, shift: bool, caps: bool)
    ensures
        code >= 0x80 ==> typed(code, after_prefix, shift, caps).len() == 0,
        code == 0x2a || code == 0x36 || code == 0x3a ==> typed(code, false, shift, caps).len() == 0,
{
}

/// The keys with a prefix type the sequences that terminals have for them: up, down, right,
/// left, home, end and delete.
pub proof fn law_ps2_cursor_keys(shift: bool, caps: bool)
    ensures
        typed(0x48, true, shift, caps) == seq![0x1bu8, 0x5b, 0x41],
        typed(0x50, true, shift, caps) == seq![0x1bu8, 0x5b, 0x42],
        typed(0x4d, true, shift, caps) == seq![0x1bu8, 0x5b, 0x43],
        typed(0x4b, true, shift, caps) == seq![0x1bu8, 0x5b, 0x44],
        typed(0x47, true, shift, caps) == seq![0x1bu8, 0x5b, 0x48],
        typed(0x4f, true, shift, caps) == seq![0x1bu8, 0x5b, 0x46],
        typed(0x53, true, shift, caps) == seq![0x1bu8, 0x5b, 0x33, 0x7e],
{
    assert(escape(0x48) =~= seq![0x1bu8, 0x5b, 0x41]);
    assert(escape(0x50) =~= seq![0x1bu8, 0x5b, 0x42]);
    assert(escape(0x4d) =~= seq![0x1bu8, 0x5b, 0x43]);
    assert(escape(0x4b) =~= seq![0x1bu8, 0x5b, 0x44]);
    assert(escape(0x47) =~= seq![0x1bu8, 0x5b, 0x48]);
    assert(escape(0x4f) =~= seq![0x1bu8, 0x5b, 0x46]);
    assert(escape(0x53) =~= seq![0x1bu8, 0x5b, 0x33, 0x7e]);
}

/// A letter is a capital where exactly one of Shift and Caps Lock is on; Caps Lock changes
/// nothing but letters. On either kind of keyboard, Shift turns a small letter into its
/// capital.
pub proof fn law_capitals(code: u8, ascii: u8, shift: bool, caps: bool)
    ensures
        0x61 <= unshifted(code) <= 0x7a ==> shifted(code) == unshifted(code) - 0x20,
        0x61 <= unshifted(code) <= 0x7a && code < 0x60 ==> typed(code, false, shift, caps) == seq![
            (if shift != caps {
                unshifted(code) - 0x20
            } else {
                unshifted(code) as int
            }) as u8,
        ],
        0x61 <= hid_unshifted(code) <= 0x7a ==> hid_shifted(code) == hid_unshifted(code) - 0x20,
        !(0x61 <= ascii <= 0x7a) && !(0x41 <= ascii <= 0x5a) ==> with_caps(ascii, shift, caps) == ascii,
        !caps ==> with_caps(ascii, shift, caps) == ascii,
        caps && 0x61 <= ascii <= 0x7a ==> with_caps(ascii, shift, caps) == ascii - 0x20,
        caps && shift && 0x41 <= ascii <= 0x5a ==> with_caps(ascii, shift, caps) == ascii + 0x20,
{
    if 0x61 <= unshifted(code) <= 0x7a && code < 0x60 {
        let c = (if shift != caps {
            unshifted(code) - 0x20
        } else {
            unshifted(code) as int
        }) as u8;
        assert(code != 0x2a && code != 0x36 && code != 0x3a && code != 0xe0);
        assert(typed(code, false, shift, caps) =~= seq![c]);
    }
}

/// The keys of a USB keyboard follow each other from a code on.
pub open spec fn is_hid_row(from: u8, plain: Seq<char>, shift: Seq<char>) -> bool {
    forall|i: int|
        0 <= i < plain.len() ==> hid_unshifted((from + i) as u8) == #[trigger] plain[i] as u8
            && hid_shifted((from + i) as u8) == shift[i] as u8
}

proof fn lemma_letters()
    ensures
        is_hid_row(0x04, alphabet(), alphabet_shifted()),
{
    assert forall|i: int| 0 <= i < 26 implies hid_unshifted((0x04 + i) as u8) == #[trigger] alphabet()[i] as u8
        && hid_shifted((0x04 + i) as u8) == alphabet_shifted()[i] as u8 by {
        assert(i == 0 || i == 1 || i == 2 || i == 3 || i == 4 || i == 5 || i == 6 || i == 7 || i == 8 || i == 9 || i == 10 || i == 11 || i == 12 || i == 13 || i == 14 || i == 15 || i == 16 || i == 17 || i == 18 || i == 19 || i == 20 || i == 21 || i == 22 || i == 23 || i == 24 || i == 25);
    }
}

proof fn lemma_numbers()
    ensures
        is_hid_row(0x1e, row_one().take(10), row_one_shifted().take(10)),
{
    assert forall|i: int| 0 <= i < 10 implies hid_unshifted((0x1e + i) as u8) == #[trigger] row_one().take(10)[i] as u8
        && hid_shifted((0x1e + i) as u8) == row_one_shifted().take(10)[i] as u8 by {
        assert(i == 0 || i == 1 || i == 2 || i == 3 || i == 4 || i == 5 || i == 6 || i == 7 || i == 8 || i == 9);
    }
}

/// A USB keyboard types the letters and the digits in their order, with Shift the capitals
/// and the marks above the digits; the other keys type what the same keys of a PS/2
/// keyboard do.
pub proof fn law_usb_keys()
    ensures
        is_hid_row(0x04, alphabet(), alphabet_shifted()),
        is_hid_row(0x1e, row_one().take(10), row_one_shifted().take(10)),
        hid_unshifted(0x28) == 0x0a && hid_unshifted(0x29) == 0x1b && hid_unshifted(0x2a) == 0x08
            && hid_unshifted(0x2b) == 0x09 && hid_unshifted(0x2c) == 0x20,
        hid_shifted(0x28) == 0x0a && hid_shifted(0x29) == 0x1b && hid_shifted(0x2a) == 0x08
            && hid_shifted(0x2b) == 0x09 && hid_shifted(0x2c) == 0x20,
        same_key(0x2d, 0x0c) && same_key(0x2e, 0x0d) && same_key(0x2f, 0x1a) && same_key(0x30, 0x1b),
        same_key(0x31, 0x2b) && same_key(0x33, 0x27) && same_key(0x34, 0x28) && same_key(0x35, 0x29),
        same_key(0x36, 0x33) && same_key(0x37, 0x34) && same_key(0x38, 0x35),
{
    lemma_letters();
    lemma_numbers();
}

/// Whether a key of a USB keyboard types what a key of a PS/2 keyboard does.
pub open spec fn same_key(usb: u8, ps2: u8) -> bool {
    hid_unshifted(usb) == unshifted(ps2) && hid_shifted(usb) == shifted(ps2)
}

/// A key that stays down types nothing more, and a key that goes down types once: a report
/// with no key that was not in the one before types nothing, and one with a single new key
/// types what that key does.
pub proof fn law_usb_keys_type_once(keys: Seq<u8>, prev: Seq<u8>, shift: bool, caps: bool, at: int)
    requires
        keys.len() == 6,
        0 <= at < 6,
        forall|i: int| 0 <= i < 6 && i != at ==> keys[i] == 0 || prev.contains(#[trigger] keys[i]),
    ensures
        keys[at] == 0 || prev.contains(keys[at]) ==> reported(keys, prev, shift, caps, 6) == (
            caps,
            Seq::<u8>::empty(),
        ),
        keys[at] != 0 && !prev.contains(keys[at]) && keys[at] != 0x39 && hid_unshifted(keys[at]) != 0
            && hid_shifted(keys[at]) != 0 ==> reported(keys, prev, shift, caps, 6) == (
            caps,
            seq![
                with_caps(
                    if shift {
                        hid_shifted(keys[at])
                    } else {
                        hid_unshifted(keys[at])
                    },
                    shift,
                    caps,
                ),
            ],
        ),
        keys[at] == 0x39 && !prev.contains(0x39) ==> reported(keys, prev, shift, caps, 6) == (
            !caps,
            Seq::<u8>::empty(),
        ),
{
    lemma_before(keys, prev, shift, caps, at, at);
    lemma_after(keys, prev, shift, caps, at, 6);
}

proof fn lemma_before(keys: Seq<u8>, prev: Seq<u8>, shift: bool, caps: bool, at: int, n: int)
    requires
        keys.len() == 6,
        0 <= n <= at < 6,
        forall|i: int| 0 <= i < 6 && i != at ==> keys[i] == 0 || prev.contains(#[trigger] keys[i]),
    ensures
        reported(keys, prev, shift, caps, n) == (caps, Seq::<u8>::empty()),
    decreases n,
{
    if n > 0 {
        lemma_before(keys, prev, shift, caps, at, n - 1);
        let k = keys[n - 1];
        assert(k == 0 || prev.contains(k));
    }
}

proof fn lemma_after(keys: Seq<u8>, prev: Seq<u8>, shift: bool, caps: bool, at: int, n: int)
    requires
        keys.len() == 6,
        0 <= at < n <= 6,
        forall|i: int| 0 <= i < 6 && i != at ==> keys[i] == 0 || prev.contains(#[trigger] keys[i]),
    ensures
        reported(keys, prev, shift, caps, n) == reported(keys, prev, shift, caps, at + 1),
    decreases n,
{
    if n > at + 1 {
        lemma_after(keys, prev, shift, caps, at, n - 1);
        let k = keys[n - 1];
        assert(k == 0 || prev.contains(k));
    }
}

} // verus!
