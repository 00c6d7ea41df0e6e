//! What the keys do to the line that is being edited.

use vstd::prelude::*;
use super::line::{fed, is_end, remembered, Edit, Mode};

verus! {

/// The line after bytes of input, none of which ends it.
pub open spec fn typed(e: Edit, h: Seq<Seq<u8>>, input: Seq<u8>) -> Edit
    decreases input.len(),
{
    if input.len() == 0 {
        e
    } else {
        fed(typed(e, h, input.drop_last()), h, input.last()).0
    }
}

/// Whether a line is `a` in front of the cursor and `b` behind it.
pub open spec fn is_split(e: Edit, a: Seq<u8>, b: Seq<u8>) -> bool {
    e.line == a + b && e.cursor == a.len() && e.mode == Mode::Plain
}

/// Whether a byte is typed as it is.
pub open spec fn is_printable(byte: u8) -> bool {
    0x20 <= byte < 0x7f
}

/// A byte that is typed goes in front of the cursor, unless the line is full; backspace and
/// delete (0x7f) take away the byte in front of the cursor.
pub proof fn law_typing(e: Edit, h: Seq<Seq<u8>>, a: Seq<u8>, b: Seq<u8>, byte: u8)
    requires
        e.wf(h),
        is_split(e, a, b),
        is_printable(byte),
    ensures
        a.len() + b.len() + 1 < e.max ==> is_split(fed(e, h, byte).0, a.push(byte), b),
        a.len() + b.len() + 1 >= e.max ==> fed(e, h, byte).0 == e,
        a.len() > 0 ==> is_split(fed(e, h, 0x08).0, a.drop_last(), b),
        a.len() > 0 ==> is_split(fed(e, h, 0x7f).0, a.drop_last(), b),
        a.len() == 0 ==> fed(e, h, 0x08).0 == e && fed(e, h, 0x7f).0 == e,
        !is_end(e, byte),
        is_end(e, 0x0d) && is_end(e, 0x0a),
{
    assert((a + b).insert(a.len() as int, byte) =~= a.push(byte) + b);
    if a.len() > 0 {
        assert((a + b).remove(a.len() - 1) =~= a.drop_last() + b);
    }
}

/// Printable text that fits is the line that comes out, byte for byte.
pub proof fn law_text_becomes_the_line(e: Edit, h: Seq<Seq<u8>>, text: Seq<u8>)
    requires
        e.wf(h),
        is_split(e, Seq::empty(), Seq::empty()),
        text.len() < e.max,
        forall|i: int| 0 <= i < text.len() ==> is_printable(#[trigger] text[i]),
    ensures
        typed(e, h, text).line == text,
        typed(e, h, text).cursor == text.len(),
        typed(e, h, text).mode == Mode::Plain,
        typed(e, h, text).max == e.max,
        typed(e, h, text).recall == e.recall,
    decreases text.len(),
{
    if text.len() == 0 {
        assert(e.line =~= text);
    } else {
        let before = text.drop_last();
        law_text_becomes_the_line(e, h, before);
        let f = typed(e, h, before);
        assert(before + Seq::<u8>::empty() =~= before);
        assert(is_printable(text.last()));
        law_typing(f, h, before, Seq::empty(), text.last());
        assert(before.push(text.last()) + Seq::<u8>::empty() =~= text);
    }
}

proof fn lemma_sequence(e: Edit, h: Seq<Seq<u8>>, last: u8)
    requires
        e.mode == Mode::Plain,
    ensures
        typed(e, h, seq![0x1bu8, 0x5b, last]) == fed(Edit { mode: Mode::Bracket, ..e }, h, last).0,
{
    reveal_with_fuel(typed, 4);
    let s = seq![0x1bu8, 0x5b, last];
    assert(s.drop_last().drop_last().drop_last() =~= Seq::<u8>::empty());
    assert(s.drop_last().drop_last().last() == 0x1b);
    assert(s.drop_last().last() == 0x5b);
    let one = fed(e, h, 0x1b).0;
    assert(one == Edit { mode: Mode::Escape, ..e });
    assert(typed(e, h, s.drop_last()) == Edit { mode: Mode::Bracket, ..e });
}

/// The cursor keys move the cursor and leave the line alone: left and right by one byte, as
/// far as the line goes, home and end to its ends.
pub proof fn law_cursor_keys(e: Edit, h: Seq<Seq<u8>>, a: Seq<u8>, b: Seq<u8>)
    requires
        e.wf(h),
        is_split(e, a, b),
    ensures
        a.len() > 0 ==> is_split(
            typed(e, h, seq![0x1bu8, 0x5b, 0x44]),
            a.drop_last(),
            seq![a.last()] + b,
        ),
        a.len() == 0 ==> is_split(typed(e, h, seq![0x1bu8, 0x5b, 0x44]), a, b),
        b.len() > 0 ==> is_split(typed(e, h, seq![0x1bu8, 0x5b, 0x43]), a.push(b[0]), b.skip(1)),
        b.len() == 0 ==> is_split(typed(e, h, seq![0x1bu8, 0x5b, 0x43]), a, b),
        is_split(typed(e, h, seq![0x1bu8, 0x5b, 0x48]), Seq::empty(), a + b),
        is_split(typed(e, h, seq![0x1bu8, 0x5b, 0x46]), a + b, Seq::empty()),
{
    lemma_sequence(e, h, 0x44);
    lemma_sequence(e, h, 0x43);
    lemma_sequence(e, h, 0x48);
    lemma_sequence(e, h, 0x46);
    if a.len() > 0 {
        assert(a.drop_last() + (seq![a.last()] + b) =~= a + b);
    }
    if b.len() > 0 {
        assert(a.push(b[0]) + b.skip(1) =~= a + b);
    }
    assert(Seq::<u8>::empty() + (a + b) =~= a + b);
    assert((a + b) + Seq::<u8>::empty() =~= a + b);
}

/// The delete key takes away the byte behind the cursor.
pub proof fn law_delete_key(e: Edit, h: Seq<Seq<u8>>, a: Seq<u8>, b: Seq<u8>)
    requires
        e.wf(h),
        is_split(e, a, b),
    ensures
        is_split(
            typed(e, h, seq![0x1bu8, 0x5b, 0x33, 0x7e]),
            a,
            if b.len() > 0 {
                b.skip(1)
            } else {
                b
            },
        ),
{
    lemma_sequence(e, h, 0x33);
    let s = seq![0x1bu8, 0x5b, 0x33, 0x7e];
    assert(s.drop_last() =~= seq![0x1bu8, 0x5b, 0x33]);
    if b.len() > 0 {
        assert((a + b).remove(a.len() as int) =~= a + b.skip(1));
    }
}

/// The up key brings the last line that is remembered, and then the one before it, down to
/// the oldest; the down key goes back, at last to an empty line. A line that is too long is
/// cut off. The cursor is at the end of what is brought.
pub proof fn law_recall(e: Edit, h: Seq<Seq<u8>>)
    requires
        e.wf(h),
        e.mode == Mode::Plain,
        h.len() > 0,
    ensures
        ({
            let up = typed(e, h, seq![0x1bu8, 0x5b, 0x41]);
            let to = match e.recall {
                None => h.len() - 1,
                Some(p) => if p > 0 {
                    p - 1
                } else {
                    0
                },
            };
            &&& up.recall == Some(to)
            &&& up.cursor == up.line.len()
            &&& h[to].len() < e.max ==> up.line == h[to]
            &&& h[to].len() >= e.max ==> up.line == h[to].take(e.max - 1)
        }),
        ({
            let down = typed(e, h, seq![0x1bu8, 0x5b, 0x42]);
            match e.recall {
                None => down.line == e.line && down.cursor == e.cursor && down.recall is None,
                Some(p) => if p == h.len() - 1 {
                    down.line.len() == 0 && down.cursor == 0 && down.recall is None
                } else {
                    &&& down.recall == Some(p + 1)
                    &&& down.cursor == down.line.len()
                    &&& h[p + 1].len() < e.max ==> down.line == h[p + 1]
                    &&& h[p + 1].len() >= e.max ==> down.line == h[p + 1].take(e.max - 1)
                },
            }
        }),
{
    lemma_sequence(e, h, 0x41);
    lemma_sequence(e, h, 0x42);
}

/// The lines that are remembered are the last 32 that were not empty and not the same as
/// the one before, in their order.
pub proof fn law_what_is_remembered(h: Seq<Seq<u8>>, line: Seq<u8>)
    requires
        h.len() <= 32,
    ensures
        remembered(h, line).len() <= 32,
        line.len() > 0 ==> remembered(h, line).len() > 0 && remembered(h, line).last() == line,
        line.len() == 0 ==> remembered(h, line) == h,
        h.len() > 0 && line == h.last() ==> remembered(h, line) == h,
        line.len() > 0 && !(h.len() > 0 && line == h.last()) ==> remembered(h, line) == if h.len() < 32 {
            h + seq![line]
        } else {
            h.subrange(1, 32) + seq![line]
        },
{
    assert(h.push(line) =~= h + seq![line]);
    if h.len() == 32 {
        assert(h.skip(1).push(line) =~= h.subrange(1, 32) + seq![line]);
    }
}

} // verus!
