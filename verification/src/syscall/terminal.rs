//! What a terminal makes of what line editing shows.

use vstd::prelude::*;
use super::line::{
    acted, digits, erased, fed, inserted, is_end, left, replaced, tail, Edit, EditAction, Mode,
};

verus! {

/// How far a terminal has come in a control sequence.
pub enum Heard {
    Text,
    Escape,
    Number(int),
}

/// A row of a terminal, whose cells go on without end, and its cursor.
pub struct Screen {
    pub cells: spec_fn(int) -> u8,
    pub col: int,
    pub heard: Heard,
}

/// What a byte does to a terminal: a backspace erases the cell before the cursor,
/// `CSI n D` moves the cursor left, and text is drawn.
pub open spec fn hears(s: Screen, byte: u8) -> Screen {
    match s.heard {
        Heard::Text => if byte == 0x1b {
            Screen { heard: Heard::Escape, ..s }
        } else if byte == 0x08 {
            Screen {
                cells: |i: int|
                    if i == s.col - 1 {
                        0x20u8
                    } else {
                        (s.cells)(i)
                    },
                col: s.col - 1,
                heard: Heard::Text,
            }
        } else {
            Screen {
                cells: |i: int|
                    if i == s.col {
                        byte
                    } else {
                        (s.cells)(i)
                    },
                col: s.col + 1,
                heard: Heard::Text,
            }
        },
        Heard::Escape => if byte == 0x5b {
            Screen { heard: Heard::Number(0), ..s }
        } else {
            Screen { heard: Heard::Text, ..s }
        },
        Heard::Number(n) => if 0x30 <= byte <= 0x39 {
            Screen { heard: Heard::Number(n * 10 + (byte - 0x30)), ..s }
        } else if byte == 0x44 {
            Screen { col: s.col - n, heard: Heard::Text, ..s }
        } else {
            Screen { heard: Heard::Text, ..s }
        },
    }
}

/// What bytes do to a terminal.
pub open spec fn drawn(s: Screen, out: Seq<u8>) -> Screen
    decreases out.len(),
{
    if out.len() == 0 {
        s
    } else {
        hears(drawn(s, out.drop_last()), out.last())
    }
}

/// Whether a terminal shows a line that starts at a column, blanks after it, and
/// the cursor in its place.
pub open spec fn shows(s: Screen, e: Edit, base: int) -> bool {
    &&& s.heard is Text
    &&& s.col == base + e.cursor
    &&& forall|i: int| 0 <= i < e.line.len() ==> #[trigger] (s.cells)(base + i) == e.line[i]
    &&& forall|i: int| i >= e.line.len() ==> #[trigger] (s.cells)(base + i) == 0x20
}

/// Whether bytes are printable ASCII.
pub open spec fn is_text(b: Seq<u8>) -> bool {
    forall|i: int| 0 <= i < b.len() ==> 0x20 <= #[trigger] b[i] <= 0x7e
}

proof fn lemma_drawn_both(s: Screen, a: Seq<u8>, b: Seq<u8>)
    ensures
        drawn(s, a + b) == drawn(drawn(s, a), b),
    decreases b.len(),
{
    if b.len() == 0 {
        assert(a + b =~= a);
    } else {
        lemma_drawn_both(s, a, b.drop_last());
        assert((a + b).drop_last() =~= a + b.drop_last());
        assert((a + b).last() == b.last());
    }
}

proof fn lemma_number(s: Screen, n: nat)
    requires
        s.heard == Heard::Number(0),
    ensures
        drawn(s, digits(n)) == (Screen { heard: Heard::Number(n as int), ..s }),
    decreases n,
{
    if n < 10 {
        assert(digits(n).drop_last() =~= Seq::<u8>::empty());
        assert(digits(n).last() == (0x30 + n) as u8);
        assert(drawn(s, Seq::<u8>::empty()) == s);
        assert(drawn(s, digits(n)) == hears(s, (0x30 + n) as u8));
    } else {
        lemma_number(s, n / 10);
        assert(digits(n).drop_last() =~= digits(n / 10));
        assert(digits(n).last() == (0x30 + n % 10) as u8);
    }
}

/// A cursor that is moved left is moved by as much as was asked.
proof fn lemma_left(s: Screen, n: int)
    requires
        s.heard is Text,
        n >= 0,
    ensures
        drawn(s, left(n)) == (Screen { col: s.col - n, ..s }),
{
    if n > 0 {
        let head = seq![0x1bu8, 0x5b];
        let d = digits(n as nat);
        assert(left(n) =~= (head + d) + seq![0x44u8]);
        assert(left(n).drop_last() =~= head + d);
        assert(left(n).last() == 0x44);
        assert(head.drop_last() =~= seq![0x1bu8]);
        assert(seq![0x1bu8].drop_last() =~= Seq::<u8>::empty());
        let t = drawn(s, head);
        assert(drawn(s, seq![0x1bu8]) == hears(drawn(s, Seq::<u8>::empty()), 0x1b));
        assert(t == hears(drawn(s, seq![0x1bu8]), 0x5b));
        assert(t == (Screen { heard: Heard::Number(0), ..s }));
        lemma_drawn_both(s, head, d);
        lemma_number(t, n as nat);
        let u = drawn(s, head + d);
        assert(u == (Screen { heard: Heard::Number(n), ..s }));
        assert(drawn(s, left(n)) == hears(u, 0x44));
    }
}

/// Text is drawn from the cursor on.
proof fn lemma_text(s: Screen, t: Seq<u8>)
    requires
        s.heard is Text,
        is_text(t),
    ensures
        drawn(s, t).heard is Text,
        drawn(s, t).col == s.col + t.len(),
        forall|i: int| #[trigger]
            (drawn(s, t).cells)(i) == if s.col <= i < s.col + t.len() {
                t[i - s.col]
            } else {
                (s.cells)(i)
            },
    decreases t.len(),
{
    if t.len() > 0 {
        let front = t.drop_last();
        assert(is_text(front)) by {
            assert forall|i: int| 0 <= i < front.len() implies 0x20 <= #[trigger] front[i] <= 0x7e by {
                assert(front[i] == t[i]);
            }
        }
        lemma_text(s, front);
        assert(t.last() == t[t.len() - 1]);
    }
}

proof fn lemma_text_pieces(t: Seq<u8>)
    requires
        is_text(t),
    ensures
        forall|i: int| 0 <= i <= t.len() ==> is_text(#[trigger] t.skip(i)),
        forall|i: int| 0 <= i <= t.len() ==> is_text(#[trigger] t.take(i)),
        forall|i: int| 0 <= i < t.len() ==> is_text(#[trigger] t.remove(i)),
{
    assert forall|i: int| 0 <= i <= t.len() implies is_text(#[trigger] t.skip(i)) by {
        assert forall|j: int| 0 <= j < t.len() - i implies 0x20 <= #[trigger] t.skip(i)[j] <= 0x7e by {
            assert(t.skip(i)[j] == t[i + j]);
        }
    }
    assert forall|i: int| 0 <= i <= t.len() implies is_text(#[trigger] t.take(i)) by {
        assert forall|j: int| 0 <= j < i implies 0x20 <= #[trigger] t.take(i)[j] <= 0x7e by {
            assert(t.take(i)[j] == t[j]);
        }
    }
    assert forall|i: int| 0 <= i < t.len() implies is_text(#[trigger] t.remove(i)) by {
        assert forall|j: int| 0 <= j < t.len() - 1 implies 0x20 <= #[trigger] t.remove(i)[j] <= 0x7e by {
            if j < i {
                assert(t.remove(i)[j] == t[j]);
            } else {
                assert(t.remove(i)[j] == t[j + 1]);
            }
        }
    }
}

/// Drawing the rest of a line again shows it, once what comes before is shown.
proof fn lemma_tail(s: Screen, line: Seq<u8>, cursor: int, base: int)
    requires
        s.heard is Text,
        is_text(line),
        0 <= cursor <= line.len(),
        s.col == base + cursor,
        forall|i: int| 0 <= i < cursor ==> #[trigger] (s.cells)(base + i) == line[i],
        forall|i: int| i > line.len() ==> #[trigger] (s.cells)(base + i) == 0x20,
    ensures
        ({
            let t = drawn(s, tail(line, cursor, cursor));
            &&& t.heard is Text
            &&& t.col == base + cursor
            &&& forall|i: int| 0 <= i < line.len() ==> #[trigger] (t.cells)(base + i) == line[i]
            &&& forall|i: int| i >= line.len() ==> #[trigger] (t.cells)(base + i) == 0x20
        }),
{
    lemma_text_pieces(line);
    let rest = line.skip(cursor).push(0x20);
    assert(is_text(rest)) by {
        assert forall|j: int| 0 <= j < rest.len() implies 0x20 <= #[trigger] rest[j] <= 0x7e by {
            if j < line.len() - cursor {
                assert(rest[j] == line[cursor + j]);
            }
        }
    }
    lemma_text(s, rest);
    let u = drawn(s, rest);
    let n = line.len() - cursor + 1;
    lemma_drawn_both(s, rest, left(n));
    lemma_left(u, n);
    let t = drawn(s, tail(line, cursor, cursor));
    assert forall|i: int| 0 <= i < line.len() implies #[trigger] (t.cells)(base + i) == line[i] by {
        if i >= cursor {
            assert((u.cells)(base + i) == rest[i - cursor]);
        } else {
            assert((u.cells)(base + i) == (s.cells)(base + i));
        }
    }
    assert forall|i: int| i >= line.len() implies #[trigger] (t.cells)(base + i) == 0x20 by {
        if i == line.len() {
            assert((u.cells)(base + i) == rest[i - cursor]);
        } else {
            assert((u.cells)(base + i) == (s.cells)(base + i));
        }
    }
}

proof fn lemma_replaced(s: Screen, e: Edit, new: Seq<u8>, base: int)
    requires
        shows(s, e, base),
        is_text(new),
        0 <= e.cursor <= e.line.len(),
        e.max >= 1,
    ensures
        shows(drawn(s, replaced(e, new).1), replaced(e, new).0, base),
{
    lemma_text_pieces(new);
    let kept = replaced(e, new).0.line;
    let n = e.line.len() as int;
    let blanks = Seq::new(n as nat, |i: int| 0x20u8);
    let a = drawn(s, left(e.cursor));
    lemma_left(s, e.cursor);
    assert(is_text(blanks));
    lemma_text(a, blanks);
    let b = drawn(a, blanks);
    lemma_left(b, n);
    let c = drawn(b, left(n));
    lemma_text(c, kept);
    let d = drawn(c, kept);
    lemma_drawn_both(s, left(e.cursor), blanks);
    lemma_drawn_both(s, left(e.cursor) + blanks, left(n));
    lemma_drawn_both(s, left(e.cursor) + blanks + left(n), kept);
    assert(drawn(s, replaced(e, new).1) == d);
    assert forall|i: int| 0 <= i < kept.len() implies #[trigger] (d.cells)(base + i) == kept[i] by {}
    assert forall|i: int| i >= kept.len() implies #[trigger] (d.cells)(base + i) == 0x20 by {
        assert((d.cells)(base + i) == (c.cells)(base + i));
        if i < n {
            assert((b.cells)(base + i) == blanks[i]);
        } else {
            assert((b.cells)(base + i) == (s.cells)(base + i));
        }
    }
}

proof fn lemma_inserted(s: Screen, e: Edit, byte: u8, base: int)
    requires
        shows(s, e, base),
        is_text(e.line),
        0x20 <= byte <= 0x7e,
        0 <= e.cursor <= e.line.len(),
    ensures
        shows(drawn(s, inserted(e, byte).1), inserted(e, byte).0, base),
        is_text(inserted(e, byte).0.line),
{
    if e.line.len() + 1 < e.max {
        let line = e.line.insert(e.cursor, byte);
        assert(is_text(line)) by {
            assert forall|j: int| 0 <= j < line.len() implies 0x20 <= #[trigger] line[j] <= 0x7e by {
                if j < e.cursor {
                    assert(line[j] == e.line[j]);
                } else if j > e.cursor {
                    assert(line[j] == e.line[j - 1]);
                }
            }
        }
        lemma_text_pieces(line);
        let rest = line.skip(e.cursor);
        lemma_text(s, rest);
        let u = drawn(s, rest);
        lemma_left(u, line.len() - e.cursor - 1);
        lemma_drawn_both(s, rest, left(line.len() - e.cursor - 1));
        let t = drawn(s, inserted(e, byte).1);
        assert forall|i: int| 0 <= i < line.len() implies #[trigger] (t.cells)(base + i) == line[i] by {
            if i < e.cursor {
                assert((u.cells)(base + i) == (s.cells)(base + i));
            } else {
                assert((u.cells)(base + i) == rest[i - e.cursor]);
            }
        }
        assert forall|i: int| i >= line.len() implies #[trigger] (t.cells)(base + i) == 0x20 by {
            assert((u.cells)(base + i) == (s.cells)(base + i));
        }
    }
}

proof fn lemma_erased(s: Screen, e: Edit, base: int)
    requires
        shows(s, e, base),
        is_text(e.line),
        0 <= e.cursor <= e.line.len(),
    ensures
        shows(drawn(s, erased(e).1), erased(e).0, base),
        is_text(erased(e).0.line),
{
    if e.cursor > 0 {
        lemma_text_pieces(e.line);
        let line = e.line.remove(e.cursor - 1);
        let back = seq![0x08u8];
        assert(back.drop_last() =~= Seq::<u8>::empty());
        assert(drawn(s, back) == hears(drawn(s, Seq::<u8>::empty()), 0x08));
        let u = drawn(s, back);
        assert forall|i: int| 0 <= i < e.cursor - 1 implies #[trigger] (u.cells)(base + i) == line[i] by {
            assert((s.cells)(base + i) == e.line[i]);
        }
        assert forall|i: int| i > line.len() implies #[trigger] (u.cells)(base + i) == 0x20 by {
            assert((s.cells)(base + i) == 0x20);
        }
        lemma_tail(u, line, e.cursor - 1, base);
        lemma_drawn_both(s, back, tail(line, e.cursor - 1, e.cursor - 1));
    }
}

proof fn lemma_acted(s: Screen, e: Edit, h: Seq<Seq<u8>>, action: EditAction, base: int)
    requires
        e.wf(h),
        shows(s, e, base),
        is_text(e.line),
        forall|i: int| 0 <= i < h.len() ==> is_text(#[trigger] h[i]),
    ensures
        shows(drawn(s, acted(e, h, action).1), acted(e, h, action).0, base),
        is_text(acted(e, h, action).0.line),
{
    lemma_text_pieces(e.line);
    match action {
        EditAction::Left => {
            lemma_left(s, 1);
        },
        EditAction::Right => {
            if e.cursor < e.line.len() {
                let one = seq![e.line[e.cursor]];
                assert(is_text(one));
                lemma_text(s, one);
                let t = drawn(s, one);
                assert forall|i: int| 0 <= i < e.line.len() implies #[trigger] (t.cells)(base + i)
                    == e.line[i] by {
                    if i == e.cursor {
                        assert((t.cells)(base + i) == one[0]);
                    } else {
                        assert((t.cells)(base + i) == (s.cells)(base + i));
                    }
                }
                assert forall|i: int| i >= e.line.len() implies #[trigger] (t.cells)(base + i)
                    == 0x20 by {
                    assert((t.cells)(base + i) == (s.cells)(base + i));
                }
            }
        },
        EditAction::Home => {
            lemma_left(s, e.cursor);
        },
        EditAction::End => {
            let rest = e.line.skip(e.cursor);
            lemma_text(s, rest);
            let t = drawn(s, rest);
            assert forall|i: int| 0 <= i < e.line.len() implies #[trigger] (t.cells)(base + i)
                == e.line[i] by {
                if i >= e.cursor {
                    assert((t.cells)(base + i) == rest[i - e.cursor]);
                } else {
                    assert((t.cells)(base + i) == (s.cells)(base + i));
                }
            }
            assert forall|i: int| i >= e.line.len() implies #[trigger] (t.cells)(base + i) == 0x20 by {
                assert((t.cells)(base + i) == (s.cells)(base + i));
            }
        },
        EditAction::Delete => {
            if e.cursor < e.line.len() {
                let line = e.line.remove(e.cursor);
                assert forall|i: int| 0 <= i < e.cursor implies #[trigger] (s.cells)(base + i)
                    == line[i] by {
                    assert((s.cells)(base + i) == e.line[i]);
                }
                lemma_tail(s, line, e.cursor, base);
            }
        },
        EditAction::Up => {
            if h.len() > 0 {
                let p = match e.recall {
                    None => h.len() - 1,
                    Some(p) => if p == 0 {
                        0
                    } else {
                        p - 1
                    },
                };
                lemma_text_pieces(h[p]);
                lemma_replaced(s, Edit { recall: Some(p), ..e }, h[p], base);
            }
        },
        EditAction::Down => {
            match e.recall {
                None => {},
                Some(p) => {
                    if p + 1 < h.len() {
                        lemma_text_pieces(h[p + 1]);
                        lemma_replaced(s, Edit { recall: Some(p + 1), ..e }, h[p + 1], base);
                    } else {
                        lemma_replaced(s, Edit { recall: None, ..e }, Seq::empty(), base);
                    }
                },
            }
        },
        EditAction::Unknown => {},
    }
}

/// A terminal that shows the line shows it after every byte of printable input,
/// of editing keys and of recalled lines, with the cursor in its place.
pub proof fn law_echo_shows_the_line(s: Screen, e: Edit, h: Seq<Seq<u8>>, byte: u8, base: int)
    requires
        e.wf(h),
        shows(s, e, base),
        is_text(e.line),
        forall|i: int| 0 <= i < h.len() ==> is_text(#[trigger] h[i]),
        !is_end(e, byte),
        e.mode == Mode::Plain ==> 0x20 <= byte <= 0x7f || byte == 0x1b || byte == 0x08,
    ensures
        shows(drawn(s, fed(e, h, byte).1), fed(e, h, byte).0, base),
        is_text(fed(e, h, byte).0.line),
{
    match e.mode {
        Mode::Plain => {
            if byte == 0x08 || byte == 0x7f {
                lemma_erased(s, e, base);
            } else if byte != 0x1b {
                lemma_inserted(s, e, byte, base);
            }
        },
        Mode::Escape => {},
        Mode::Bracket => {
            match super::line::action_of(byte) {
                None => {},
                Some(action) => {
                    lemma_acted(s, Edit { mode: Mode::Plain, ..e }, h, action, base);
                },
            }
        },
        Mode::Tilde => {
            lemma_acted(s, Edit { mode: Mode::Plain, ..e }, h, EditAction::Delete, base);
        },
    }
}

} // verus!
