//! Framebuffer text console.
//!
//! Glyphs come from a PSF1 or PSF2 bitmap font. Colour is controlled with ANSI SGR
//! escapes (`ESC [ ... m`), so the same formatted text can go to both the serial
//! port and the screen. `ESC [ n D` moves the cursor left, and a backspace erases
//! the character before it.

use vstd::prelude::*;
use self::font::{font_in, is_on, shown_glyph, Font};
use crate::framebuffer::{
    fill_rect, is_inside, lemma_painted_twice, painted, put_pixel, FbInfo, Shape,
};

pub mod effects;
pub mod font;

verus! {

pub const DEFAULT_BG: u32 = 0x0000_0000;

pub const DEFAULT_FG: u32 = 0x00ab_b2bf;

/// The most parameters of an escape sequence that are kept.
pub const MAX_PARAMS: usize = 8;

/// The 16-colour palette (0x00RRGGBB): 0-7 normal, 8-15 bright.
pub open spec fn palette(i: int) -> u32 {
    if i == 0 {
        0x001b_1f27
    } else if i == 1 {
        0x00e0_6c75
    } else if i == 2 {
        0x0098_c379
    } else if i == 3 {
        0x00e5_c07b
    } else if i == 4 {
        0x0061_afef
    } else if i == 5 {
        0x00c6_78dd
    } else if i == 6 {
        0x0056_b6c2
    } else if i == 7 {
        0x00ab_b2bf
    } else if i == 8 {
        0x004b_5263
    } else if i == 9 {
        0x00ff_7b86
    } else if i == 10 {
        0x00b5_e890
    } else if i == 11 {
        0x00ff_d98e
    } else if i == 12 {
        0x0082_c4ff
    } else if i == 13 {
        0x00e0_9bff
    } else if i == 14 {
        0x007f_dce8
    } else {
        0x00ff_ffff
    }
}

fn palette_color(i: u32) -> (r: u32)
    ensures
        r == palette(i as int),
{
    if i == 0 {
        0x001b_1f27
    } else if i == 1 {
        0x00e0_6c75
    } else if i == 2 {
        0x0098_c379
    } else if i == 3 {
        0x00e5_c07b
    } else if i == 4 {
        0x0061_afef
    } else if i == 5 {
        0x00c6_78dd
    } else if i == 6 {
        0x0056_b6c2
    } else if i == 7 {
        0x00ab_b2bf
    } else if i == 8 {
        0x004b_5263
    } else if i == 9 {
        0x00ff_7b86
    } else if i == 10 {
        0x00b5_e890
    } else if i == 11 {
        0x00ff_d98e
    } else if i == 12 {
        0x0082_c4ff
    } else if i == 13 {
        0x00e0_9bff
    } else if i == 14 {
        0x007f_dce8
    } else {
        0x00ff_ffff
    }
}

/// How far an escape sequence has come.
#[derive(Clone, Copy, Debug, PartialEq, Eq, Structural)]
pub enum EscState {
    Normal,
    /// After the escape character.
    Escape,
    /// After `ESC [`.
    Csi,
}

/// The colours that text is drawn in.
#[derive(Clone, Copy, Debug, PartialEq, Eq, Structural)]
pub struct Colors {
    pub fg: u32,
    pub bg: u32,
    pub bold: bool,
}

/// What a console has in mind: where the cursor is, the colours, and how far an
/// escape sequence has come.
#[derive(Debug)]
pub struct Pen {
    pub col: usize,
    pub row: usize,
    pub colors: Colors,
    pub esc: EscState,
    /// The parameters of the sequence that are complete.
    pub params: Vec<u32>,
    /// The parameter that is being read, if one is.
    pub cur: Option<u32>,
}

pub struct Console<'a> {
    pub shape: Shape,
    pub font: Font<'a>,
    pub cols: usize,
    pub rows: usize,
    pub pen: Pen,
}

/// A pen and what it has written on.
#[verifier::ext_equal]
pub struct Screen {
    pub col: int,
    pub row: int,
    pub colors: Colors,
    pub esc: EscState,
    pub params: Seq<u32>,
    pub cur: Option<u32>,
    pub picture: Seq<u8>,
}

/// A picture with a glyph drawn in a cell.
pub open spec fn glyph_drawn(
    b: Seq<u8>,
    s: Shape,
    f: Font,
    ch: char,
    col: int,
    row: int,
    colors: Colors,
) -> Seq<u8> {
    let left = col * f.width;
    let top = row * f.height;
    painted(
        b,
        s,
        |x: int, y: int|
            if is_inside(x, y, left, top, f.width as int, f.height as int) {
                Some(
                    if is_on(f, shown_glyph(f, ch), x - left, y - top) {
                        colors.fg
                    } else {
                        colors.bg
                    },
                )
            } else {
                None
            },
    )
}

/// Memory whose first bytes have moved down.
pub open spec fn moved_down(b: Seq<u8>, by: int, total: int) -> Seq<u8> {
    Seq::new(
        b.len(),
        |i: int|
            if i < total - by {
                b[i + by]
            } else {
                b[i]
            },
    )
}

/// A picture with its lines of text one line further up, and the last one empty.
pub open spec fn scrolled(b: Seq<u8>, s: Shape, f: Font, rows: int) -> Seq<u8> {
    let line = f.height * s.pitch;
    let top = (rows - 1) * f.height;
    painted(
        moved_down(b, line, rows * line),
        s,
        |x: int, y: int|
            if is_inside(x, y, 0, top, s.width as int, f.height as int) {
                Some(DEFAULT_BG)
            } else {
                None
            },
    )
}

impl<'a> Console<'a> {
    pub open spec fn pen_ok(self) -> bool {
        &&& self.pen.col <= self.cols
        &&& self.pen.row < self.rows
        &&& self.pen.params@.len() <= MAX_PARAMS
        &&& self.pen.cur is Some ==> self.pen.cur->0 <= 65535
    }

    /// The text has the size that fits on the screen, at least one character, and
    /// the picture has its place in memory.
    pub open spec fn wf(self, len: int) -> bool {
        &&& self.font.wf()
        &&& self.shape.fits(len)
        &&& self.cols == self.shape.width as int / self.font.width as int
        &&& self.rows == self.shape.height as int / self.font.height as int
        &&& self.cols > 0
        &&& self.rows > 0
        &&& self.pen_ok()
    }

    pub open spec fn screen(self, picture: Seq<u8>) -> Screen {
        Screen {
            col: self.pen.col as int,
            row: self.pen.row as int,
            colors: self.pen.colors,
            esc: self.pen.esc,
            params: self.pen.params@,
            cur: self.pen.cur,
            picture,
        }
    }

    /// Only the pen has moved.
    pub open spec fn is_same_console(self, other: Self) -> bool {
        &&& self.shape == other.shape
        &&& self.font == other.font
        &&& self.cols == other.cols
        &&& self.rows == other.rows
    }

    /// To the start of the next line, scrolling where it is the last.
    pub open spec fn newlined(self, s: Screen) -> Screen {
        if s.row + 1 >= self.rows {
            Screen {
                col: 0,
                picture: scrolled(s.picture, self.shape, self.font, self.rows as int),
                ..s
            }
        } else {
            Screen { col: 0, row: s.row + 1, ..s }
        }
    }

    /// A character written, on the next line where this one is full.
    pub open spec fn printed(self, s: Screen, ch: char) -> Screen {
        let t = if s.col >= self.cols {
            self.newlined(s)
        } else {
            s
        };
        Screen {
            col: t.col + 1,
            picture: glyph_drawn(
                t.picture,
                self.shape,
                self.font,
                ch,
                t.col,
                t.row,
                t.colors,
            ),
            ..t
        }
    }

    /// Blanks as far as a column of this line.
    pub open spec fn blanked(self, s: Screen, to: int) -> Screen
        decreases to - s.col,
    {
        if s.col >= to || s.col >= self.cols {
            s
        } else {
            self.blanked(self.printed(s, ' '), to)
        }
    }

    /// The character before the cursor taken away.
    pub open spec fn erased(self, s: Screen) -> Screen {
        if s.col == 0 {
            s
        } else {
            Screen {
                col: s.col - 1,
                picture: glyph_drawn(
                    s.picture,
                    self.shape,
                    self.font,
                    ' ',
                    s.col - 1,
                    s.row,
                    s.colors,
                ),
                ..s
            }
        }
    }

    /// A screen after a character.
    pub open spec fn put(self, s: Screen, ch: char) -> Screen {
        if ch == '\x1b' {
            Screen { esc: EscState::Escape, ..s }
        } else {
            match s.esc {
                EscState::Escape => if ch == '[' {
                    Screen { esc: EscState::Csi, params: seq![], cur: None, ..s }
                } else {
                    Screen { esc: EscState::Normal, ..s }
                },
                EscState::Csi => controlled(s, ch),
                EscState::Normal => if ch == '\n' {
                    self.newlined(s)
                } else if ch == '\r' {
                    Screen { col: 0, ..s }
                } else if ch == '\t' {
                    self.blanked(s, (s.col / 4 + 1) * 4)
                } else if ch == '\x08' {
                    self.erased(s)
                } else {
                    self.printed(s, ch)
                },
            }
        }
    }

    /// A screen after some text.
    pub open spec fn written(self, s: Screen, text: Seq<char>) -> Screen
        decreases text.len(),
    {
        if text.len() == 0 {
            s
        } else {
            self.put(self.written(s, text.drop_last()), text.last())
        }
    }
}

/// The parameters when the one that is being read is complete.
pub open spec fn completed(params: Seq<u32>, cur: Option<u32>) -> Seq<u32> {
    if params.len() < MAX_PARAMS {
        params.push(
            match cur {
                Some(v) => v,
                None => 0,
            },
        )
    } else {
        params
    }
}

/// A parameter with one more digit; it goes no further than 65535.
pub open spec fn digit_added(cur: Option<u32>, digit: int) -> u32 {
    let v = (match cur {
        Some(v) => v as int,
        None => 0,
    }) * 10 + digit;
    if v < 65535 {
        v as u32
    } else {
        65535
    }
}

/// How far a sequence moves the cursor to the left: its first parameter, or one.
pub open spec fn steps_left(params: Seq<u32>) -> int {
    if params[0] == 0 {
        1
    } else {
        params[0] as int
    }
}

/// A screen after a character inside a control sequence.
pub open spec fn controlled(s: Screen, ch: char) -> Screen {
    if '0' <= ch && ch <= '9' {
        Screen { cur: Some(digit_added(s.cur, ch as int - '0' as int)), ..s }
    } else if ch == ';' {
        Screen { params: completed(s.params, s.cur), cur: None, ..s }
    } else if ch == 'm' {
        let params = completed(s.params, s.cur);
        Screen { params, cur: None, esc: EscState::Normal, colors: colored(s.colors, params, 0), ..s }
    } else if ch == 'D' {
        let params = completed(s.params, s.cur);
        let n = steps_left(params);
        Screen {
            params,
            cur: None,
            esc: EscState::Normal,
            col: if s.col < n {
                0
            } else {
                s.col - n
            },
            ..s
        }
    } else {
        Screen { esc: EscState::Normal, ..s }
    }
}

/// The colour that follows a code at a place among the parameters, and how many
/// parameters it takes: red, green and blue, or one of the palette.
pub open spec fn extended(params: Seq<u32>, i: int) -> Option<(u32, int)> {
    if i + 4 < params.len() && params[i + 1] == 2 {
        Some(
            (
                (params[i + 2] % 256 * 0x1_0000 + params[i + 3] % 256 * 0x100 + params[i + 4]
                    % 256) as u32,
                4,
            ),
        )
    } else if i + 2 < params.len() && params[i + 1] == 5 {
        Some(
            (
                if params[i + 2] < 16 {
                    palette(params[i + 2] as int)
                } else {
                    DEFAULT_FG
                },
                2,
            ),
        )
    } else {
        None
    }
}

/// The colours after one code.
pub open spec fn recolored(c: Colors, p: u32) -> Colors {
    if p == 0 {
        Colors { fg: DEFAULT_FG, bg: DEFAULT_BG, bold: false }
    } else if p == 1 {
        Colors { bold: true, ..c }
    } else if p == 22 {
        Colors { bold: false, ..c }
    } else if 30 <= p <= 37 {
        Colors {
            fg: palette(
                p - 30 + if c.bold {
                    8int
                } else {
                    0
                },
            ),
            ..c
        }
    } else if p == 39 {
        Colors { fg: DEFAULT_FG, ..c }
    } else if 40 <= p <= 47 {
        Colors { bg: palette(p - 40), ..c }
    } else if p == 49 {
        Colors { bg: DEFAULT_BG, ..c }
    } else if 90 <= p <= 97 {
        Colors { fg: palette(p - 90 + 8), ..c }
    } else if 100 <= p <= 107 {
        Colors { bg: palette(p - 100 + 8), ..c }
    } else {
        c
    }
}

/// The colours after the codes from a place on.
pub open spec fn colored(c: Colors, params: Seq<u32>, i: int) -> Colors
    decreases params.len() - i,
{
    if i < 0 || i >= params.len() {
        c
    } else if params[i] == 38 || params[i] == 48 {
        match extended(params, i) {
            Some((color, used)) => {
                let next = if params[i] == 38 {
                    Colors { fg: color, ..c }
                } else {
                    Colors { bg: color, ..c }
                };
                colored(
                    next,
                    params,
                    i + 1 + if used == 4 {
                        4int
                    } else {
                        2
                    },
                )
            },
            None => colored(c, params, i + 1),
        }
    } else {
        colored(recolored(c, params[i]), params, i + 1)
    }
}

/// How far a cell is from the edges of the picture.
proof fn lemma_cell(c: Console, col: int, row: int)
    requires
        c.font.width > 0,
        c.font.height > 0,
        c.cols == c.shape.width as int / c.font.width as int,
        c.rows == c.shape.height as int / c.font.height as int,
        0 <= col < c.cols,
        0 <= row < c.rows,
    ensures
        0 <= col * c.font.width,
        col * c.font.width + c.font.width <= c.shape.width,
        0 <= row * c.font.height,
        row * c.font.height + c.font.height <= c.shape.height,
{
    lemma_part(col, c.font.width as int, c.shape.width as int);
    lemma_part(row, c.font.height as int, c.shape.height as int);
}

proof fn lemma_part(i: int, part: int, whole: int)
    requires
        part > 0,
        whole >= 0,
        0 <= i < whole / part,
    ensures
        0 <= i * part,
        i * part + part <= whole,
{
    let q = whole / part;
    assert(q * part <= whole) by (nonlinear_arith)
        requires
            q == whole / part,
            part > 0,
            whole >= 0,
    ;
    assert(0 <= i * part && i * part + part <= q * part) by (nonlinear_arith)
        requires
            0 <= i < q,
            part > 0,
    ;
}

impl<'a> Console<'a> {
    /// Console width in character cells.
    pub fn cols(&self) -> (r: usize)
        ensures
            r == self.cols,
    {
        self.cols
    }

    /// Fill the screen with the background colour, and start at its top.
    pub fn clear(&mut self, buf: &mut [u8])
        requires
            old(self).wf(old(buf)@.len() as int),
        ensures
            final(self).is_same_console(*old(self)),
            final(self).wf(final(buf)@.len() as int),
            final(self).screen(final(buf)@) == (Screen {
                col: 0,
                row: 0,
                picture: cleared(old(buf)@, old(self).shape, old(self).pen.colors.bg),
                ..old(self).screen(old(buf)@)
            }),
    {
        let bg: u32 = self.pen.colors.bg;
        let ghost before = buf@;
        fill_rect(buf, &self.shape, 0, 0, self.shape.width, self.shape.height, bg);
        assert(buf@ =~= cleared(before, self.shape, bg));
        self.pen.col = 0;
        self.pen.row = 0;
    }

    fn draw_glyph(&self, buf: &mut [u8], ch: char, col: usize, row: usize)
        requires
            self.wf(old(buf)@.len() as int),
            col < self.cols,
            row < self.rows,
        ensures
            final(buf)@ == glyph_drawn(
                old(buf)@,
                self.shape,
                self.font,
                ch,
                col as int,
                row as int,
                self.pen.colors,
            ),
    {
        let ghost before = buf@;
        let ghost s = self.shape;
        let ghost f = self.font;
        let ghost colors = self.pen.colors;
        let glyph: &[u8] = self.font.glyph(ch);
        proof {
            lemma_cell(*self, col as int, row as int);
        }
        let left: usize = col * self.font.width;
        let top: usize = row * self.font.height;
        let ghost full = |x: int, y: int|
            if is_inside(x, y, left as int, top as int, f.width as int, f.height as int) {
                Some(
                    if is_on(f, glyph@, x - left, y - top) {
                        colors.fg
                    } else {
                        colors.bg
                    },
                )
            } else {
                None
            };
        let ghost part = |n: int, m: int|
            |x: int, y: int|
                if y < top + n || (y == top + n && x < left + m) {
                    full(x, y)
                } else {
                    None::<u32>
                };
        let mut y: usize = 0;
        assert(buf@ =~= painted(before, s, part(0, 0)));
        while y < self.font.height
            invariant
                self.wf(before.len() as int),
                self.shape == s,
                self.font == f,
                self.pen.colors == colors,
                y <= f.height,
                0 <= left,
                left + f.width <= s.width,
                top + f.height <= s.height,
                glyph@.len() == f.charsize,
                buf@.len() == before.len(),
                full == (|x: int, y: int|
                    if is_inside(x, y, left as int, top as int, f.width as int, f.height as int) {
                        Some(
                            if is_on(f, glyph@, x - left, y - top) {
                                colors.fg
                            } else {
                                colors.bg
                            },
                        )
                    } else {
                        None
                    }),
                part == (|n: int, m: int|
                    |x: int, y: int|
                        if y < top + n || (y == top + n && x < left + m) {
                            full(x, y)
                        } else {
                            None::<u32>
                        }),
                buf@ == painted(before, s, part(y as int, 0)),
            decreases f.height - y,
        {
            let mut x: usize = 0;
            while x < self.font.width
                invariant
                    self.wf(before.len() as int),
                    self.shape == s,
                    self.font == f,
                    self.pen.colors == colors,
                    y < f.height,
                    x <= f.width,
                    0 <= left,
                    left + f.width <= s.width,
                    top + f.height <= s.height,
                    glyph@.len() == f.charsize,
                    buf@.len() == before.len(),
                    full == (|x: int, y: int|
                        if is_inside(
                            x,
                            y,
                            left as int,
                            top as int,
                            f.width as int,
                            f.height as int,
                        ) {
                            Some(
                                if is_on(f, glyph@, x - left, y - top) {
                                    colors.fg
                                } else {
                                    colors.bg
                                },
                            )
                        } else {
                            None
                        }),
                    part == (|n: int, m: int|
                        |x: int, y: int|
                            if y < top + n || (y == top + n && x < left + m) {
                                full(x, y)
                            } else {
                                None::<u32>
                            }),
                    buf@ == painted(before, s, part(y as int, x as int)),
                decreases f.width - x,
            {
                let per: usize = self.font.bytes_per_row;
                proof {
                    let b = f.bytes_per_row as int;
                    let h = f.height as int;
                    let i = y as int;
                    assert(0 <= i * b && i * b + b <= b * h) by (nonlinear_arith)
                        requires
                            0 <= i < h,
                            b >= 0,
                    ;
                    assert(x / 8 < b);
                }
                let total: usize = glyph.len();
                let byte: u8 = glyph[y * per + x / 8];
                let on: bool = (byte >> ((7 - x % 8) as u8)) & 1 == 1;
                let color: u32 = if on {
                    self.pen.colors.fg
                } else {
                    self.pen.colors.bg
                };
                put_pixel(buf, &self.shape, left + x, top + y, color);
                proof {
                    let one = |a: int, b: int|
                        if a == left + x && b == top + y {
                            Some(color)
                        } else {
                            None
                        };
                    lemma_painted_twice(
                        before,
                        s,
                        part(y as int, x as int),
                        one,
                        part(y as int, x + 1),
                    );
                }
                x += 1;
            }
            proof {
                assert(painted(before, s, part(y as int, f.width as int)) =~= painted(
                    before,
                    s,
                    part(y + 1, 0),
                ));
            }
            y += 1;
        }
        proof {
            assert(glyph@ == shown_glyph(f, ch));
            assert(painted(before, s, part(f.height as int, 0)) =~= glyph_drawn(
                before,
                s,
                f,
                ch,
                col as int,
                row as int,
                colors,
            ));
        }
    }

    fn scroll(&self, buf: &mut [u8])
        requires
            self.wf(old(buf)@.len() as int),
        ensures
            final(buf)@ == scrolled(old(buf)@, self.shape, self.font, self.rows as int),
    {
        let ghost before = buf@;
        proof {
            lemma_cell(*self, 0, self.rows - 1);
            let h = self.font.height as int;
            let p = self.shape.pitch as int;
            let r = self.rows as int;
            let tall = self.shape.height as int;
            assert((r - 1) * h + h == r * h) by (nonlinear_arith);
            assert(0 <= h * p <= r * (h * p) && r * (h * p) <= tall * p) by (nonlinear_arith)
                requires
                    r >= 1,
                    h >= 0,
                    p >= 0,
                    r * h <= tall,
            ;
        }
        let len: usize = buf.len();
        let line: usize = self.font.height * self.shape.pitch;
        let text: usize = self.rows * line;
        let mut i: usize = 0;
        while i < text - line
            invariant
                line <= text <= before.len(),
                before.len() == buf@.len(),
                before.len() <= usize::MAX,
                i <= text - line,
                forall|j: int| 0 <= j < i ==> #[trigger] buf@[j] == before[j + line],
                forall|j: int| i <= j < buf@.len() ==> #[trigger] buf@[j] == before[j],
            decreases text - line - i,
        {
            buf[i] = buf[i + line];
            i += 1;
        }
        assert(buf@ =~= moved_down(before, line as int, text as int));
        let top: usize = (self.rows - 1) * self.font.height;
        fill_rect(buf, &self.shape, 0, top, self.shape.width, self.font.height, DEFAULT_BG);
        assert(buf@ =~= scrolled(before, self.shape, self.font, self.rows as int));
    }

    fn newline(&mut self, buf: &mut [u8])
        requires
            old(self).wf(old(buf)@.len() as int),
        ensures
            final(self).is_same_console(*old(self)),
            final(self).wf(final(buf)@.len() as int),
            final(self).screen(final(buf)@) == old(self).newlined(old(self).screen(old(buf)@)),
    {
        self.pen.col = 0;
        if self.pen.row + 1 >= self.rows {
            self.scroll(buf);
        } else {
            self.pen.row += 1;
        }
    }

    fn put_printable(&mut self, buf: &mut [u8], ch: char)
        requires
            old(self).wf(old(buf)@.len() as int),
        ensures
            final(self).is_same_console(*old(self)),
            final(self).wf(final(buf)@.len() as int),
            final(self).screen(final(buf)@) == old(self).printed(old(self).screen(old(buf)@), ch),
    {
        if self.pen.col >= self.cols {
            self.newline(buf);
        }
        self.draw_glyph(buf, ch, self.pen.col, self.pen.row);
        self.pen.col += 1;
    }
}

/// Complete the parameter that is being read.
fn push_param(pen: &mut Pen)
    ensures
        *final(pen) == (Pen { params: final(pen).params, cur: None, ..*old(pen) }),
        final(pen).params@ == completed(old(pen).params@, old(pen).cur),
{
    let v: u32 = match pen.cur {
        Some(v) => v,
        None => 0,
    };
    if pen.params.len() < MAX_PARAMS {
        pen.params.push(v);
    }
    pen.cur = None;
}

fn extended_color(params: &Vec<u32>, i: usize) -> (r: Option<(u32, usize)>)
    requires
        i < params@.len() <= MAX_PARAMS,
    ensures
        match r {
            Some((color, used)) => extended(params@, i as int) == Some((color, used as int)),
            None => extended(params@, i as int) is None,
        },
{
    let n: usize = params.len();
    if i + 4 < n && params[i + 1] == 2 {
        let red: u32 = params[i + 2] % 256;
        let green: u32 = params[i + 3] % 256;
        let blue: u32 = params[i + 4] % 256;
        return Some((red * 0x1_0000 + green * 0x100 + blue, 4));
    }
    if i + 2 < n && params[i + 1] == 5 {
        let which: u32 = params[i + 2];
        if which < 16 {
            return Some((palette_color(which), 2));
        }
        // The cube of 256 colours is not supported.
        return Some((DEFAULT_FG, 2));
    }
    None
}

fn recolor(c: Colors, p: u32) -> (r: Colors)
    ensures
        r == recolored(c, p),
{
    let mut r: Colors = c;
    if p == 0 {
        r.fg = DEFAULT_FG;
        r.bg = DEFAULT_BG;
        r.bold = false;
    } else if p == 1 {
        r.bold = true;
    } else if p == 22 {
        r.bold = false;
    } else if 30 <= p && p <= 37 {
        r.fg = palette_color(
            p - 30 + if c.bold {
                8
            } else {
                0
            },
        );
    } else if p == 39 {
        r.fg = DEFAULT_FG;
    } else if 40 <= p && p <= 47 {
        r.bg = palette_color(p - 40);
    } else if p == 49 {
        r.bg = DEFAULT_BG;
    } else if 90 <= p && p <= 97 {
        r.fg = palette_color(p - 90 + 8);
    } else if 100 <= p && p <= 107 {
        r.bg = palette_color(p - 100 + 8);
    }
    r
}

/// The colours that the codes of a sequence select.
fn apply_sgr(c: Colors, params: &Vec<u32>) -> (r: Colors)
    requires
        params@.len() <= MAX_PARAMS,
    ensures
        r == colored(c, params@, 0),
{
    let mut now: Colors = c;
    let mut i: usize = 0;
    while i < params.len()
        invariant
            params@.len() <= MAX_PARAMS,
            i <= params@.len() + 5,
            colored(now, params@, i as int) == colored(c, params@, 0),
        decreases params@.len() + 5 - i,
    {
        let p: u32 = params[i];
        if p == 38 || p == 48 {
            match extended_color(params, i) {
                Some((color, used)) => {
                    if p == 38 {
                        now.fg = color;
                    } else {
                        now.bg = color;
                    }
                    i += used;
                },
                None => {},
            }
        } else {
            now = recolor(now, p);
        }
        i += 1;
    }
    now
}

impl<'a> Console<'a> {
    fn control(&mut self, ch: char, Ghost(picture): Ghost<Seq<u8>>)
        requires
            old(self).pen_ok(),
        ensures
            final(self).is_same_console(*old(self)),
            final(self).pen_ok(),
            final(self).screen(picture) == controlled(old(self).screen(picture), ch),
    {
        let ghost before = self.screen(picture);
        if '0' <= ch && ch <= '9' {
            let cur: u32 = match self.pen.cur {
                Some(v) => v,
                None => 0,
            };
            let v: u32 = cur * 10 + (ch as u32 - 0x30);
            self.pen.cur = Some(
                if v < 65535 {
                    v
                } else {
                    65535
                },
            );
        } else if ch == ';' {
            push_param(&mut self.pen);
        } else if ch == 'm' {
            push_param(&mut self.pen);
            self.pen.colors = apply_sgr(self.pen.colors, &self.pen.params);
            self.pen.esc = EscState::Normal;
        } else if ch == 'D' {
            push_param(&mut self.pen);
            let first: u32 = self.pen.params[0];
            let n: u32 = if first == 0 {
                1
            } else {
                first
            };
            self.pen.col = if self.pen.col < n as usize {
                0
            } else {
                self.pen.col - n as usize
            };
            self.pen.esc = EscState::Normal;
        } else {
            // A sequence that is not supported is dropped.
            self.pen.esc = EscState::Normal;
        }
        assert(self.screen(picture) =~= controlled(before, ch));
    }

    fn put_char(&mut self, buf: &mut [u8], ch: char)
        requires
            old(self).wf(old(buf)@.len() as int),
        ensures
            final(self).is_same_console(*old(self)),
            final(self).wf(final(buf)@.len() as int),
            final(self).screen(final(buf)@) == old(self).put(old(self).screen(old(buf)@), ch),
    {
        let ghost start = *self;
        let ghost before = self.screen(buf@);
        // An escape always starts a sequence, even in the middle of another.
        if ch == '\x1b' {
            self.pen.esc = EscState::Escape;
            return ;
        }
        match self.pen.esc {
            EscState::Escape => {
                if ch == '[' {
                    self.pen.esc = EscState::Csi;
                    self.pen.params = Vec::new();
                    self.pen.cur = None;
                    assert(self.screen(buf@) =~= start.put(before, ch));
                } else {
                    self.pen.esc = EscState::Normal;
                }
            },
            EscState::Csi => {
                self.control(ch, Ghost(buf@));
            },
            EscState::Normal => {
                if ch == '\n' {
                    self.newline(buf);
                } else if ch == '\r' {
                    self.pen.col = 0;
                } else if ch == '\t' {
                    self.put_blanks(buf);
                } else if ch == '\x08' {
                    if self.pen.col > 0 {
                        self.pen.col -= 1;
                        self.draw_glyph(buf, ' ', self.pen.col, self.pen.row);
                    }
                } else {
                    self.put_printable(buf, ch);
                }
            },
        }
    }

    /// Blanks up to the next column that is a multiple of four, as far as the line
    /// goes.
    fn put_blanks(&mut self, buf: &mut [u8])
        requires
            old(self).wf(old(buf)@.len() as int),
        ensures
            final(self).is_same_console(*old(self)),
            final(self).wf(final(buf)@.len() as int),
            final(self).screen(final(buf)@) == old(self).blanked(
                old(self).screen(old(buf)@),
                (old(self).pen.col as int / 4 + 1) * 4,
            ),
    {
        let ghost start = *self;
        let ghost before = self.screen(buf@);
        let ghost to = (self.pen.col as int / 4 + 1) * 4;
        let mut left: usize = 4 - self.pen.col % 4;
        while left > 0 && self.pen.col < self.cols
            invariant
                self.is_same_console(start),
                self.wf(buf@.len() as int),
                left <= 4,
                self.pen.col + left == to,
                start.blanked(self.screen(buf@), to) == start.blanked(before, to),
            decreases left,
        {
            let ghost here = self.screen(buf@);
            self.put_printable(buf, ' ');
            assert(self.screen(buf@) == start.printed(here, ' '));
            left -= 1;
        }
    }

    /// Write text.
    pub fn write_str(&mut self, buf: &mut [u8], text: &str)
        requires
            old(self).wf(old(buf)@.len() as int),
        ensures
            final(self).is_same_console(*old(self)),
            final(self).wf(final(buf)@.len() as int),
            final(self).screen(final(buf)@) == old(self).written(
                old(self).screen(old(buf)@),
                text@,
            ),
    {
        let ghost start = *self;
        let ghost before = self.screen(buf@);
        let n: usize = text.unicode_len();
        let mut i: usize = 0;
        while i < n
            invariant
                self.is_same_console(start),
                self.wf(buf@.len() as int),
                n == text@.len(),
                i <= n,
                self.screen(buf@) == start.written(before, text@.take(i as int)),
            decreases n - i,
        {
            let ghost here = self.screen(buf@);
            let ghost at = *self;
            let ch: char = text.get_char(i);
            self.put_char(buf, ch);
            proof {
                assert(text@.take(i + 1).drop_last() =~= text@.take(i as int));
                assert(text@.take(i + 1).last() == ch);
                lemma_same_put(at, start, here, ch);
            }
            i += 1;
        }
        assert(text@.take(n as int) =~= text@);
    }
}

/// What a character does rests on the shape of a console, not on its pen.
proof fn lemma_same_put(a: Console, b: Console, s: Screen, ch: char)
    requires
        a.is_same_console(b),
    ensures
        a.put(s, ch) == b.put(s, ch),
{
    lemma_same_blanks(a, b, s, (s.col / 4 + 1) * 4);
}

proof fn lemma_same_blanks(a: Console, b: Console, s: Screen, to: int)
    requires
        a.is_same_console(b),
    ensures
        a.blanked(s, to) == b.blanked(s, to),
    decreases to - s.col,
{
    if s.col < to && s.col < a.cols {
        lemma_same_blanks(a, b, a.printed(s, ' '), to);
    }
}

/// What text does rests on the shape of a console, not on its pen.
pub proof fn lemma_same_text(a: Console, b: Console, s: Screen, text: Seq<char>)
    requires
        a.is_same_console(b),
    ensures
        a.written(s, text) == b.written(s, text),
    decreases text.len(),
{
    if text.len() > 0 {
        lemma_same_text(a, b, s, text.drop_last());
        lemma_same_put(a, b, a.written(s, text.drop_last()), text.last());
    }
}

/// Text may come in pieces: an escape sequence that is cut in two works as a whole
/// one does.
pub proof fn law_text_in_pieces(c: Console, s: Screen, first: Seq<char>, second: Seq<char>)
    ensures
        c.written(c.written(s, first), second) == c.written(s, first + second),
    decreases second.len(),
{
    if second.len() == 0 {
        assert(first + second =~= first);
    } else {
        assert((first + second).drop_last() =~= first + second.drop_last());
        law_text_in_pieces(c, s, first, second.drop_last());
    }
}

/// A picture of one colour.
pub open spec fn cleared(b: Seq<u8>, s: Shape, color: u32) -> Seq<u8> {
    painted(b, s, |x: int, y: int| Some(color))
}

/// What keeps a console from being made.
#[derive(Clone, Copy, Debug, PartialEq, Eq, Structural)]
pub enum ConsoleFault {
    NoFramebuffer,
    /// Only 24 and 32 bits for each pixel are supported.
    UnsupportedBpp(u16),
    BadFont,
    /// Not one character of the font fits.
    TooSmall,
}

/// Why a framebuffer, or the lack of one, cannot carry a console.
pub open spec fn fault(fb: Option<FbInfo>, font: Seq<u8>) -> Option<ConsoleFault> {
    match fb {
        None => Some(ConsoleFault::NoFramebuffer),
        Some(fb) => if fb.bpp != 32 && fb.bpp != 24 {
            Some(ConsoleFault::UnsupportedBpp(fb.bpp))
        } else {
            match font_in(font) {
                None => Some(ConsoleFault::BadFont),
                Some(h) => if fb.width < h.width || fb.height < h.height {
                    Some(ConsoleFault::TooSmall)
                } else {
                    None
                },
            }
        },
    }
}

/// Whether the memory of a framebuffer is as large as it says.
pub open spec fn is_backed(fb: FbInfo, len: int) -> bool {
    &&& fb.width * (fb.bpp as int / 8) <= fb.pitch
    &&& fb.height * fb.pitch <= len
    &&& fb.width <= usize::MAX
    &&& fb.height <= usize::MAX
    &&& fb.pitch <= usize::MAX
}

/// Whether a console is the one that comes up: of the framebuffer's size, with the
/// font, at the top left, in the default colours.
pub open spec fn is_new(c: Console, fb: FbInfo, font: Seq<u8>) -> bool {
    &&& c.shape == Shape {
        width: fb.width as usize,
        height: fb.height as usize,
        pitch: fb.pitch as usize,
        bytes_per_pixel: (fb.bpp / 8) as usize,
    }
    &&& font_in(font) is Some
    &&& c.font.is_of(font, font_in(font)->0)
    &&& c.cols == fb.width as int / font_in(font)->0.width
    &&& c.rows == fb.height as int / font_in(font)->0.height
    &&& c.pen.col == 0
    &&& c.pen.row == 0
    &&& c.pen.colors == Colors { fg: DEFAULT_FG, bg: DEFAULT_BG, bold: false }
    &&& c.pen.esc == EscState::Normal
    &&& c.pen.params@.len() == 0
    &&& c.pen.cur is None
}

/// Bring up a console on a framebuffer, and clear the screen.
pub fn init<'a>(fb: Option<FbInfo>, buf: &mut [u8], font_data: &'a [u8]) -> (r: Result<
    Console<'a>,
    ConsoleFault,
>)
    requires
        fb is Some ==> is_backed(fb->0, old(buf)@.len() as int),
    ensures
        match r {
            Ok(c) => {
                &&& fault(fb, font_data@) is None
                &&& c.wf(final(buf)@.len() as int)
                &&& is_new(c, fb->0, font_data@)
                &&& final(buf)@ == cleared(old(buf)@, c.shape, DEFAULT_BG)
            },
            Err(e) => fault(fb, font_data@) == Some(e) && final(buf)@ == old(buf)@,
        },
{
    let fb: FbInfo = match fb {
        Some(fb) => fb,
        None => {
            return Err(ConsoleFault::NoFramebuffer);
        },
    };
    if fb.bpp != 32 && fb.bpp != 24 {
        return Err(ConsoleFault::UnsupportedBpp(fb.bpp));
    }
    let font: Font<'a> = match Font::parse(font_data) {
        Some(font) => font,
        None => {
            return Err(ConsoleFault::BadFont);
        },
    };
    let len: usize = buf.len();
    let shape: Shape = Shape {
        width: fb.width as usize,
        height: fb.height as usize,
        pitch: fb.pitch as usize,
        bytes_per_pixel: (fb.bpp / 8) as usize,
    };
    let cols: usize = shape.width / font.width;
    let rows: usize = shape.height / font.height;
    proof {
        lemma_quotient(shape.width as int, font.width as int);
        lemma_quotient(shape.height as int, font.height as int);
    }
    if cols == 0 || rows == 0 {
        return Err(ConsoleFault::TooSmall);
    }
    let pen: Pen = Pen {
        col: 0,
        row: 0,
        colors: Colors { fg: DEFAULT_FG, bg: DEFAULT_BG, bold: false },
        esc: EscState::Normal,
        params: Vec::new(),
        cur: None,
    };
    let mut console: Console<'a> = Console { shape, font, cols, rows, pen };
    console.clear(buf);
    Ok(console)
}

/// A quotient is zero where the dividend is the smaller.
proof fn lemma_quotient(a: int, b: int)
    requires
        a >= 0,
        b > 0,
    ensures
        0 <= a / b,
        a / b == 0 <==> a < b,
{
    assert(0 <= a / b && (a / b == 0 <==> a < b)) by (nonlinear_arith)
        requires
            a >= 0,
            b > 0,
    ;
}

} // verus!
