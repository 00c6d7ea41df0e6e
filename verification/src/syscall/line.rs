//! Reading one line of input: canonical-mode editing, the job a tty line
//! discipline does, just smaller.
//!
//! Bytes come in one at a time, and what is to be echoed goes out: backspace and
//! delete, left and right cursor movement, and up and down history recall
//! through ANSI escape sequences.

use vstd::prelude::*;
use crate::bytes::same_bytes;

verus! {

/// How many previous lines are remembered for recall. Older ones are dropped.
pub const HISTORY_CAP: usize = 32;

/// The lines that can be recalled, oldest first.
pub struct History {
    pub lines: Vec<Vec<u8>>,
}

/// How far an escape sequence has come in.
#[derive(Clone, Copy, Debug, PartialEq, Eq, Structural)]
pub enum Mode {
    Plain,
    /// After the escape byte.
    Escape,
    /// After `ESC [`.
    Bracket,
    /// After `ESC [ 3`, which a tilde is to follow.
    Tilde,
}

/// What an escape sequence asks for.
#[derive(Clone, Copy, Debug, PartialEq, Eq, Structural)]
pub enum EditAction {
    Up,
    Down,
    Left,
    Right,
    Home,
    End,
    Delete,
    Unknown,
}

/// A line that is being edited.
pub struct LineEditor {
    /// The most bytes that the line may have, with its line feed.
    pub max: usize,
    pub line: Vec<u8>,
    /// Where the next byte goes; at most the length of the line.
    pub cursor: usize,
    /// The remembered line that is shown, while recalling.
    pub recall: Option<usize>,
    pub mode: Mode,
}

/// A line that is being edited, as a mathematical value.
pub struct Edit {
    pub max: int,
    pub line: Seq<u8>,
    pub cursor: int,
    pub recall: Option<int>,
    pub mode: Mode,
}

pub open spec fn lines_of(v: Seq<Vec<u8>>) -> Seq<Seq<u8>> {
    v.map_values(|l: Vec<u8>| l@)
}

impl History {
    pub open spec fn view(self) -> Seq<Seq<u8>> {
        lines_of(self.lines@)
    }

    pub open spec fn wf(self) -> bool {
        self.lines@.len() <= HISTORY_CAP
    }
}

impl LineEditor {
    pub open spec fn view(self) -> Edit {
        Edit {
            max: self.max as int,
            line: self.line@,
            cursor: self.cursor as int,
            recall: match self.recall {
                Some(p) => Some(p as int),
                None => None,
            },
            mode: self.mode,
        }
    }
}

impl Edit {
    /// There is room for a line feed, and a line that is being recalled is there.
    pub open spec fn wf(self, h: Seq<Seq<u8>>) -> bool {
        &&& self.max >= 1
        &&& self.line.len() < self.max
        &&& 0 <= self.cursor <= self.line.len()
        &&& self.recall matches Some(p) ==> 0 <= p < h.len()
    }
}

/// The decimal digits of a number.
pub open spec fn digits(n: nat) -> Seq<u8>
    decreases n,
{
    if n < 10 {
        seq![(0x30 + n) as u8]
    } else {
        digits(n / 10).push((0x30 + n % 10) as u8)
    }
}

pub fn itoa(n: usize) -> (r: Vec<u8>)
    ensures
        r@ == digits(n as nat),
    decreases n,
{
    if n < 10 {
        let mut r: Vec<u8> = Vec::new();
        r.push(0x30 + n as u8);
        assert(r@ =~= digits(n as nat));
        r
    } else {
        let mut r: Vec<u8> = itoa(n / 10);
        r.push(0x30 + (n % 10) as u8);
        r
    }
}

/// The sequence that moves the terminal cursor left by `n` cells without
/// touching what is drawn there.
pub open spec fn left(n: int) -> Seq<u8> {
    if n <= 0 {
        Seq::empty()
    } else {
        seq![0x1bu8, 0x5b] + digits(n as nat).push(0x44)
    }
}

/// What draws a line from a place on, erases the cell after it and puts the
/// cursor back.
pub open spec fn tail(line: Seq<u8>, from: int, cursor: int) -> Seq<u8> {
    line.skip(from).push(0x20) + left(line.len() - cursor + 1)
}

/// A line with another in its place, the cursor at its end, and what shows that.
/// What does not fit beside a line feed is cut off.
pub open spec fn replaced(e: Edit, new: Seq<u8>) -> (Edit, Seq<u8>) {
    let kept = if new.len() < e.max {
        new
    } else {
        new.take(e.max - 1)
    };
    (
        Edit { line: kept, cursor: kept.len() as int, ..e },
        left(e.cursor) + Seq::new(e.line.len(), |i: int| 0x20u8) + left(e.line.len() as int) + kept,
    )
}

/// What an action does to a line, and what shows that.
pub open spec fn acted(e: Edit, h: Seq<Seq<u8>>, action: EditAction) -> (Edit, Seq<u8>) {
    match action {
        EditAction::Left => if e.cursor > 0 {
            (Edit { cursor: e.cursor - 1, ..e }, left(1))
        } else {
            (e, Seq::empty())
        },
        EditAction::Right => if e.cursor < e.line.len() {
            (Edit { cursor: e.cursor + 1, ..e }, seq![e.line[e.cursor]])
        } else {
            (e, Seq::empty())
        },
        EditAction::Home => (Edit { cursor: 0, ..e }, left(e.cursor)),
        EditAction::End => (Edit { cursor: e.line.len() as int, ..e }, e.line.skip(e.cursor)),
        EditAction::Delete => if e.cursor < e.line.len() {
            let line = e.line.remove(e.cursor);
            (Edit { line, ..e }, tail(line, e.cursor, e.cursor))
        } else {
            (e, Seq::empty())
        },
        EditAction::Up => if h.len() == 0 {
            (e, Seq::empty())
        } else {
            let p = match e.recall {
                None => h.len() - 1,
                Some(p) => if p == 0 {
                    0
                } else {
                    p - 1
                },
            };
            replaced(Edit { recall: Some(p), ..e }, h[p])
        },
        EditAction::Down => match e.recall {
            None => (e, Seq::empty()),
            Some(p) => if p + 1 < h.len() {
                replaced(Edit { recall: Some(p + 1), ..e }, h[p + 1])
            } else {
                replaced(Edit { recall: None, ..e }, Seq::empty())
            },
        },
        EditAction::Unknown => (e, Seq::empty()),
    }
}

/// The action of the byte that ends an escape sequence, unless it goes on.
pub open spec fn action_of(byte: u8) -> Option<EditAction> {
    if byte == 0x41 {
        Some(EditAction::Up)
    } else if byte == 0x42 {
        Some(EditAction::Down)
    } else if byte == 0x43 {
        Some(EditAction::Right)
    } else if byte == 0x44 {
        Some(EditAction::Left)
    } else if byte == 0x48 {
        Some(EditAction::Home)
    } else if byte == 0x46 {
        Some(EditAction::End)
    } else if byte == 0x33 {
        None
    } else {
        Some(EditAction::Unknown)
    }
}

/// A line without the byte before the cursor.
pub open spec fn erased(e: Edit) -> (Edit, Seq<u8>) {
    if e.cursor > 0 {
        let line = e.line.remove(e.cursor - 1);
        (
            Edit { line, cursor: e.cursor - 1, ..e },
            seq![0x08u8] + tail(line, e.cursor - 1, e.cursor - 1),
        )
    } else {
        (e, Seq::empty())
    }
}

/// A line with a byte more at the cursor, where there is room for it. Within
/// the line, what comes after it is drawn again.
pub open spec fn inserted(e: Edit, byte: u8) -> (Edit, Seq<u8>) {
    if e.line.len() + 1 < e.max {
        let line = e.line.insert(e.cursor, byte);
        (
            Edit { line, cursor: e.cursor + 1, ..e },
            line.skip(e.cursor) + left(line.len() - e.cursor - 1),
        )
    } else {
        (e, Seq::empty())
    }
}

/// Whether a byte ends the line.
pub open spec fn is_end(e: Edit, byte: u8) -> bool {
    e.mode == Mode::Plain && (byte == 0x0d || byte == 0x0a)
}

/// What a byte does to a line that it does not end, and what shows that.
pub open spec fn fed(e: Edit, h: Seq<Seq<u8>>, byte: u8) -> (Edit, Seq<u8>) {
    match e.mode {
        Mode::Plain => if byte == 0x1b {
            (Edit { mode: Mode::Escape, ..e }, Seq::empty())
        } else if byte == 0x08 || byte == 0x7f {
            erased(e)
        } else {
            inserted(e, byte)
        },
        Mode::Escape => if byte == 0x5b {
            (Edit { mode: Mode::Bracket, ..e }, Seq::empty())
        } else {
            (Edit { mode: Mode::Plain, ..e }, Seq::empty())
        },
        Mode::Bracket => match action_of(byte) {
            None => (Edit { mode: Mode::Tilde, ..e }, Seq::empty()),
            Some(action) => acted(Edit { mode: Mode::Plain, ..e }, h, action),
        },
        Mode::Tilde => acted(Edit { mode: Mode::Plain, ..e }, h, EditAction::Delete),
    }
}

/// What is remembered after a line: the line too, unless it is empty or the one
/// before it.
pub open spec fn remembered(h: Seq<Seq<u8>>, line: Seq<u8>) -> Seq<Seq<u8>> {
    if line.len() == 0 || (h.len() > 0 && h.last() == line) {
        h
    } else if h.len() == HISTORY_CAP {
        h.skip(1).push(line)
    } else {
        h.push(line)
    }
}

/// Add bytes to what is to be shown.
fn show(out: &mut Vec<u8>, bytes: &[u8], from: usize)
    requires
        from <= bytes@.len(),
    ensures
        final(out)@ == old(out)@ + bytes@.skip(from as int),
{
    let n: usize = bytes.len();
    let mut i: usize = from;
    assert(out@ =~= old(out)@ + bytes@.subrange(from as int, from as int));
    while i < n
        invariant
            from <= i <= n,
            n == bytes@.len(),
            out@ == old(out)@ + bytes@.subrange(from as int, i as int),
        decreases n - i,
    {
        out.push(bytes[i]);
        i += 1;
        assert(out@ =~= old(out)@ + bytes@.subrange(from as int, i as int));
    }
    assert(bytes@.subrange(from as int, n as int) =~= bytes@.skip(from as int));
}

/// Move the terminal cursor left.
fn cursor_left(out: &mut Vec<u8>, n: usize)
    ensures
        final(out)@ == old(out)@ + left(n as int),
{
    if n != 0 {
        out.push(0x1b);
        out.push(0x5b);
        let d: Vec<u8> = itoa(n);
        show(out, d.as_slice(), 0);
        out.push(0x44);
        assert(d@.skip(0) =~= d@);
        assert(out@ =~= old(out)@ + left(n as int));
    } else {
        assert(out@ =~= old(out)@ + left(n as int));
    }
}

/// Draw the line from a place on, then put the cursor back.
fn redraw_tail(out: &mut Vec<u8>, line: &[u8], from: usize, cursor: usize)
    requires
        from <= line@.len() < usize::MAX,
        cursor <= line@.len(),
    ensures
        final(out)@ == old(out)@ + tail(line@, from as int, cursor as int),
{
    show(out, line, from);
    out.push(0x20);
    cursor_left(out, line.len() - cursor + 1);
    assert(out@ =~= old(out)@ + tail(line@, from as int, cursor as int));
}

impl LineEditor {
    /// Begin a line of at most `max` bytes.
    pub fn new(max: usize) -> (r: Self)
        requires
            max >= 1,
        ensures
            r@ == (Edit {
                max: max as int,
                line: Seq::empty(),
                cursor: 0,
                recall: None,
                mode: Mode::Plain,
            }),
    {
        LineEditor { max, line: Vec::new(), cursor: 0, recall: None, mode: Mode::Plain }
    }

    /// Show another line in place of this one.
    fn replace_line(&mut self, out: &mut Vec<u8>, new: &[u8])
        requires
            old(self)@.max >= 1,
            old(self)@.line.len() < old(self)@.max,
            old(self)@.cursor <= old(self)@.line.len(),
        ensures
            final(self)@ == replaced(old(self)@, new@).0,
            final(out)@ == old(out)@ + replaced(old(self)@, new@).1,
    {
        let ghost o = out@;
        let n: usize = self.line.len();
        cursor_left(out, self.cursor);
        let ghost a = out@;
        let mut i: usize = 0;
        assert(out@ =~= a + Seq::new(0, |k: int| 0x20u8));
        while i < n
            invariant
                i <= n,
                out@ == a + Seq::new(i as nat, |k: int| 0x20u8),
            decreases n - i,
        {
            out.push(0x20);
            i += 1;
            assert(out@ =~= a + Seq::new(i as nat, |k: int| 0x20u8));
        }
        cursor_left(out, n);
        let len: usize = if new.len() < self.max {
            new.len()
        } else {
            self.max - 1
        };
        let mut kept: Vec<u8> = Vec::new();
        let mut k: usize = 0;
        assert(kept@ =~= new@.take(0));
        while k < len
            invariant
                k <= len <= new@.len(),
                kept@ == new@.take(k as int),
            decreases len - k,
        {
            kept.push(new[k]);
            k += 1;
            assert(kept@ =~= new@.take(k as int));
        }
        proof {
            assert(new@.take(new@.len() as int) =~= new@);
            assert(kept@.skip(0) =~= kept@);
        }
        show(out, kept.as_slice(), 0);
        self.cursor = kept.len();
        self.line = kept;
        assert(out@ =~= o + replaced(old(self)@, new@).1);
    }

    fn act(&mut self, history: &History, action: EditAction, out: &mut Vec<u8>)
        requires
            old(self)@.wf(history@),
        ensures
            final(self)@ == acted(old(self)@, history@, action).0,
            final(out)@ == old(out)@ + acted(old(self)@, history@, action).1,
    {
        let ghost o = out@;
        let ghost want = acted(self@, history@, action);
        assert(o + Seq::<u8>::empty() =~= o);
        match action {
            EditAction::Left => {
                if self.cursor > 0 {
                    self.cursor = self.cursor - 1;
                    cursor_left(out, 1);
                }
            },
            EditAction::Right => {
                if self.cursor < self.line.len() {
                    out.push(self.line[self.cursor]);
                    self.cursor = self.cursor + 1;
                    assert(out@ =~= o + want.1);
                }
            },
            EditAction::Home => {
                cursor_left(out, self.cursor);
                self.cursor = 0;
            },
            EditAction::End => {
                show(out, self.line.as_slice(), self.cursor);
                self.cursor = self.line.len();
            },
            EditAction::Delete => {
                if self.cursor < self.line.len() {
                    let _gone: u8 = self.line.remove(self.cursor);
                    redraw_tail(out, self.line.as_slice(), self.cursor, self.cursor);
                }
            },
            EditAction::Up => {
                let n: usize = history.lines.len();
                if n > 0 {
                    let p: usize = match self.recall {
                        None => n - 1,
                        Some(p) => if p == 0 {
                            0
                        } else {
                            p - 1
                        },
                    };
                    self.recall = Some(p);
                    self.replace_line(out, history.lines[p].as_slice());
                }
            },
            EditAction::Down => {
                match self.recall {
                    None => {},
                    Some(p) => {
                        let n: usize = history.lines.len();
                        if p + 1 < n {
                            self.recall = Some(p + 1);
                            self.replace_line(out, history.lines[p + 1].as_slice());
                        } else {
                            self.recall = None;
                            let none: Vec<u8> = Vec::new();
                            self.replace_line(out, none.as_slice());
                        }
                    },
                }
            },
            EditAction::Unknown => {},
        }
    }
}

impl History {
    pub fn new() -> (r: Self)
        ensures
            r@ == Seq::<Seq<u8>>::empty(),
            r.wf(),
    {
        let r: History = History { lines: Vec::new() };
        assert(r@ =~= Seq::<Seq<u8>>::empty());
        r
    }

    /// Remember a line.
    fn remember(&mut self, line: Vec<u8>)
        requires
            old(self).wf(),
        ensures
            final(self).wf(),
            final(self)@ == remembered(old(self)@, line@),
    {
        let n: usize = self.lines.len();
        if line.len() == 0 {
            return ;
        }
        if n > 0 && same_bytes(self.lines[n - 1].as_slice(), line.as_slice()) {
            assert(self@.last() == self.lines@[n - 1]@);
            return ;
        }
        proof {
            if n > 0 {
                assert(self@.last() == self.lines@[n - 1]@);
            }
        }
        if n == HISTORY_CAP {
            let _oldest: Vec<u8> = self.lines.remove(0);
        }
        self.lines.push(line);
        assert(self@ =~= remembered(old(self)@, line@));
    }
}

/// A copy of a line without its last byte.
fn without_last(line: &Vec<u8>) -> (r: Vec<u8>)
    requires
        line@.len() > 0,
    ensures
        r@ == line@.drop_last(),
{
    let n: usize = line.len() - 1;
    let mut r: Vec<u8> = Vec::new();
    let mut i: usize = 0;
    assert(r@ =~= line@.take(0));
    while i < n
        invariant
            i <= n,
            n == line@.len() - 1,
            r@ == line@.take(i as int),
        decreases n - i,
    {
        r.push(line[i]);
        i += 1;
        assert(r@ =~= line@.take(i as int));
    }
    assert(r@ =~= line@.drop_last());
    r
}

impl LineEditor {
    /// Take in a byte. Where it ends the line, the line comes back, with its line
    /// feed, and is remembered.
    pub fn feed(&mut self, history: &mut History, byte: u8, out: &mut Vec<u8>) -> (r: Option<Vec<u8>>)
        requires
            old(self)@.wf(old(history)@),
            old(history).wf(),
        ensures
            final(history).wf(),
            r is Some <==> is_end(old(self)@, byte),
            r matches Some(line) ==> {
                &&& line@ == old(self)@.line.push(0x0a)
                &&& final(out)@ == old(out)@.push(0x0a)
                &&& final(history)@ == remembered(old(history)@, old(self)@.line)
            },
            r is None ==> {
                &&& final(self)@ == fed(old(self)@, old(history)@, byte).0
                &&& final(out)@ == old(out)@ + fed(old(self)@, old(history)@, byte).1
                &&& *final(history) == *old(history)
                &&& final(self)@.wf(final(history)@)
            },
    {
        let ghost o = out@;
        assert(o + Seq::<u8>::empty() =~= o);
        proof {
            lemma_fed(self@, history@, byte);
        }
        match self.mode {
            Mode::Plain => {
                if byte == 0x0d || byte == 0x0a {
                    out.push(0x0a);
                    let mut line: Vec<u8> = Vec::new();
                    std::mem::swap(&mut line, &mut self.line);
                    line.push(0x0a);
                    let stored: Vec<u8> = without_last(&line);
                    assert(stored@ =~= old(self)@.line);
                    history.remember(stored);
                    return Some(line);
                }
                if byte == 0x1b {
                    self.mode = Mode::Escape;
                } else if byte == 0x08 || byte == 0x7f {
                    if self.cursor > 0 {
                        self.cursor = self.cursor - 1;
                        let _gone: u8 = self.line.remove(self.cursor);
                        out.push(0x08);
                        redraw_tail(out, self.line.as_slice(), self.cursor, self.cursor);
                        assert(out@ =~= o + erased(old(self)@).1);
                    }
                } else if self.max - self.line.len() > 1 {
                    self.line.insert(self.cursor, byte);
                    show(out, self.line.as_slice(), self.cursor);
                    self.cursor = self.cursor + 1;
                    cursor_left(out, self.line.len() - self.cursor);
                    assert(out@ =~= o + inserted(old(self)@, byte).1);
                }
            },
            Mode::Escape => {
                if byte == 0x5b {
                    self.mode = Mode::Bracket;
                } else {
                    self.mode = Mode::Plain;
                }
            },
            Mode::Bracket => {
                match decode_escape(byte) {
                    None => {
                        self.mode = Mode::Tilde;
                    },
                    Some(action) => {
                        self.mode = Mode::Plain;
                        self.act(history, action, out);
                    },
                }
            },
            Mode::Tilde => {
                self.mode = Mode::Plain;
                self.act(history, EditAction::Delete, out);
            },
        }
        None
    }
}

/// Decode the byte after `ESC [`.
fn decode_escape(byte: u8) -> (r: Option<EditAction>)
    ensures
        r == action_of(byte),
{
    if byte == 0x41 {
        Some(EditAction::Up)
    } else if byte == 0x42 {
        Some(EditAction::Down)
    } else if byte == 0x43 {
        Some(EditAction::Right)
    } else if byte == 0x44 {
        Some(EditAction::Left)
    } else if byte == 0x48 {
        Some(EditAction::Home)
    } else if byte == 0x46 {
        Some(EditAction::End)
    } else if byte == 0x33 {
        None
    } else {
        Some(EditAction::Unknown)
    }
}

/// Editing keeps room for a line feed.
proof fn lemma_fed(e: Edit, h: Seq<Seq<u8>>, byte: u8)
    requires
        e.wf(h),
    ensures
        fed(e, h, byte).0.wf(h),
        fed(e, h, byte).0.max == e.max,
{
}

/// A line after bytes that do not end it, and all that was shown.
pub open spec fn after(e: Edit, h: Seq<Seq<u8>>, input: Seq<u8>) -> (Edit, Seq<u8>)
    decreases input.len(),
{
    if input.len() == 0 {
        (e, Seq::empty())
    } else {
        let (before, shown) = after(e, h, input.drop_last());
        let (now, more) = fed(before, h, input.last());
        (now, shown + more)
    }
}

/// A line before anything has come in.
pub open spec fn fresh(max: int) -> Edit {
    Edit { max, line: Seq::empty(), cursor: 0, recall: None, mode: Mode::Plain }
}

/// Whether the byte at a place is the first that ends the line.
pub open spec fn ends_at(e: Edit, h: Seq<Seq<u8>>, input: Seq<u8>, n: int) -> bool {
    &&& 0 <= n < input.len()
    &&& is_end(after(e, h, input.take(n)).0, input[n])
    &&& forall|k: int| 0 <= k < n ==> !is_end(after(e, h, #[trigger] input.take(k)).0, input[k])
}

/// What came of reading a line from bytes that are there.
pub struct Reading {
    /// The line, unless the bytes do not end one.
    pub line: Option<Vec<u8>>,
    /// How many bytes went into it.
    pub used: usize,
    /// What was shown meanwhile.
    pub echo: Vec<u8>,
}

/// Read one line of at most `max` bytes, with its line feed, from the bytes that
/// have come in.
pub fn read_line(max: usize, input: &[u8], history: &mut History) -> (r: Reading)
    requires
        old(history).wf(),
    ensures
        final(history).wf(),
        max == 0 ==> r.line is Some && r.line->0@.len() == 0 && r.used == 0 && r.echo@.len() == 0
            && *final(history) == *old(history),
        max > 0 ==> match r.line {
            Some(line) => {
                let n = r.used - 1;
                let (e, shown) = after(fresh(max as int), old(history)@, input@.take(n));
                &&& ends_at(fresh(max as int), old(history)@, input@, n)
                &&& line@ == e.line.push(0x0a)
                &&& line@.len() <= max
                &&& r.echo@ == shown.push(0x0a)
                &&& final(history)@ == remembered(old(history)@, e.line)
            },
            None => {
                &&& forall|n: int| !#[trigger] ends_at(fresh(max as int), old(history)@, input@, n)
                &&& r.used == input@.len()
                &&& r.echo@ == after(fresh(max as int), old(history)@, input@).1
                &&& *final(history) == *old(history)
            },
        },
{
    let mut echo: Vec<u8> = Vec::new();
    if max == 0 {
        return Reading { line: Some(Vec::new()), used: 0, echo };
    }
    let ghost e0 = fresh(max as int);
    let ghost h0 = history@;
    let mut editor: LineEditor = LineEditor::new(max);
    let len: usize = input.len();
    let mut i: usize = 0;
    assert(input@.take(0) =~= Seq::<u8>::empty());
    while i < len
        invariant
            i <= len,
            len == input@.len(),
            max > 0,
            *history == *old(history),
            history.wf(),
            h0 == history@,
            e0 == fresh(max as int),
            editor@.wf(h0),
            editor@.max == max,
            (editor@, echo@) == after(e0, h0, input@.take(i as int)),
            forall|k: int|
                0 <= k < i ==> !is_end(after(e0, h0, #[trigger] input@.take(k)).0, input@[k]),
        decreases len - i,
    {
        proof {
            lemma_fed(editor@, h0, input@[i as int]);
            assert(input@.take(i + 1).drop_last() =~= input@.take(i as int));
        }
        let done: Option<Vec<u8>> = editor.feed(history, input[i], &mut echo);
        i += 1;
        if done.is_some() {
            return Reading { line: done, used: i, echo };
        }
    }
    assert(input@.take(len as int) =~= input@);
    Reading { line: None, used: len, echo }
}

} // verus!
