//! What text does to the screen.

use vstd::prelude::*;
use crate::framebuffer::{painted, pixel_of, Shape};
use crate::text::decimal;
use super::font::{is_on, shown_glyph, Font};
use super::{colored, glyph_drawn, palette, scrolled, Colors, Console, EscState, Screen, DEFAULT_BG};

verus! {

/// Whether a character is drawn as it is.
pub open spec fn is_drawn(ch: char) -> bool {
    ch != '\x1b' && ch != '\n' && ch != '\r' && ch != '\t' && ch != '\x08'
}

/// Where the cursor goes. A character that is drawn takes one column, and goes to the next
/// line where this one is full; a line feed goes to the start of the next line, which on the
/// last line is that line again; a carriage return goes to the start of the line; a tab goes
/// to the next column that is a multiple of four, or to the end of the line; a backspace
/// goes back by one column, as far as the line goes.
pub proof fn law_cursor(c: Console, s: Screen, ch: char)
    requires
        s.esc == EscState::Normal,
        c.cols >= 1,
        c.rows >= 1,
        0 <= s.col <= c.cols,
        0 <= s.row < c.rows,
    ensures
        is_drawn(ch) && s.col < c.cols ==> c.put(s, ch).col == s.col + 1 && c.put(s, ch).row == s.row,
        is_drawn(ch) && s.col == c.cols && s.row + 1 < c.rows ==> c.put(s, ch).col == 1 && c.put(
            s,
            ch,
        ).row == s.row + 1,
        is_drawn(ch) && s.col == c.cols && s.row + 1 == c.rows ==> c.put(s, ch).col == 1 && c.put(
            s,
            ch,
        ).row == s.row,
        c.put(s, '\n').col == 0,
        s.row + 1 < c.rows ==> c.put(s, '\n').row == s.row + 1 && c.put(s, '\n').picture == s.picture,
        s.row + 1 == c.rows ==> c.put(s, '\n').row == s.row,
        c.put(s, '\r').col == 0 && c.put(s, '\r').row == s.row && c.put(s, '\r').picture == s.picture,
        c.put(s, '\t').row == s.row,
        s.col == c.cols ==> c.put(s, '\t') == s,
        s.col < c.cols ==> s.col < c.put(s, '\t').col <= s.col + 4 && (c.put(s, '\t').col % 4 == 0
            || c.put(s, '\t').col == c.cols) && c.put(s, '\t').col <= c.cols,
        s.col > 0 ==> c.put(s, '\x08').col == s.col - 1 && c.put(s, '\x08').row == s.row,
        s.col == 0 ==> c.put(s, '\x08') == s,
{
    lemma_blanked(c, s, (s.col / 4 + 1) * 4);
}

proof fn lemma_blanked(c: Console, s: Screen, to: int)
    requires
        0 <= s.col <= c.cols,
    ensures
        c.blanked(s, to).row == s.row,
        c.blanked(s, to).col == if s.col >= to || s.col >= c.cols {
            s.col
        } else if to < c.cols {
            to
        } else {
            c.cols as int
        },
    decreases to - s.col,
{
    if s.col < to && s.col < c.cols {
        lemma_blanked(c, c.printed(s, ' '), to);
    }
}

/// Text of characters that are drawn goes along the line, one column for each.
pub proof fn law_text_goes_along_the_line(c: Console, s: Screen, text: Seq<char>)
    requires
        s.esc == EscState::Normal,
        0 <= s.col,
        s.col + text.len() <= c.cols,
        forall|i: int| 0 <= i < text.len() ==> is_drawn(#[trigger] text[i]),
    ensures
        c.written(s, text).col == s.col + text.len(),
        c.written(s, text).row == s.row,
        c.written(s, text).esc == EscState::Normal,
        c.written(s, text).colors == s.colors,
    decreases text.len(),
{
    if text.len() > 0 {
        law_text_goes_along_the_line(c, s, text.drop_last());
        assert(is_drawn(text.last()));
    }
}

/// The colour of a pixel: blue in its first byte, then green, then red.
pub open spec fn color_at(b: Seq<u8>, s: Shape, x: int, y: int) -> int {
    let at = y * s.pitch + x * s.bytes_per_pixel;
    b[at] + 0x100 * b[at + 1] + 0x1_0000 * b[at + 2]
}

proof fn lemma_place(s: Shape, len: int, x: int, y: int, k: int)
    requires
        s.fits(len),
        0 <= x < s.width,
        0 <= y < s.height,
        0 <= k < s.bytes_per_pixel,
    ensures
        pixel_of(s, y * s.pitch + x * s.bytes_per_pixel + k) == (x, y, k),
        0 <= y * s.pitch + x * s.bytes_per_pixel + k < len,
{
    let (p, n) = (s.pitch as int, s.bytes_per_pixel as int);
    let r = x * n + k;
    assert(0 <= r < p) by (nonlinear_arith)
        requires
            r == x * n + k,
            0 <= x < s.width,
            0 <= k < n,
            s.width * n <= p,
    ;
    let i = y * p + r;
    assert(i / p == y && i % p == r) by (nonlinear_arith)
        requires
            i == y * p + r,
            0 <= r < p,
    ;
    assert(r / n == x && r % n == k) by (nonlinear_arith)
        requires
            r == x * n + k,
            0 <= k < n,
    ;
    assert(0 <= i < len) by (nonlinear_arith)
        requires
            i == y * p + r,
            0 <= r < p,
            0 <= y < s.height,
            s.height * p <= len,
    ;
}

proof fn lemma_painted(b: Seq<u8>, s: Shape, paint: spec_fn(int, int) -> Option<u32>, x: int, y: int)
    requires
        s.fits(b.len() as int),
        0 <= x < s.width,
        0 <= y < s.height,
        paint(x, y) matches Some(c) ==> c < 0x100_0000,
    ensures
        color_at(painted(b, s, paint), s, x, y) == match paint(x, y) {
            Some(c) => c as int,
            None => color_at(b, s, x, y),
        },
{
    lemma_place(s, b.len() as int, x, y, 0);
    lemma_place(s, b.len() as int, x, y, 1);
    lemma_place(s, b.len() as int, x, y, 2);
}

/// A character that is written is drawn in its cell: each pixel in the colour of the text
/// where the glyph has it, and else in that of the ground. No other pixel changes.
pub proof fn law_character_is_drawn_in_its_cell(
    c: Console,
    b: Seq<u8>,
    ch: char,
    col: int,
    row: int,
    colors: Colors,
    x: int,
    y: int,
)
    requires
        c.shape.fits(b.len() as int),
        0 <= x < c.shape.width,
        0 <= y < c.shape.height,
        colors.fg < 0x100_0000,
        colors.bg < 0x100_0000,
    ensures
        ({
            let (w, h) = (c.font.width as int, c.font.height as int);
            color_at(glyph_drawn(b, c.shape, c.font, ch, col, row, colors), c.shape, x, y) == if col * w
                <= x < (col + 1) * w && row * h <= y < (row + 1) * h {
                if is_on(c.font, shown_glyph(c.font, ch), x - col * w, y - row * h) {
                    colors.fg as int
                } else {
                    colors.bg as int
                }
            } else {
                color_at(b, c.shape, x, y)
            }
        }),
{
    let (f, s) = (c.font, c.shape);
    let left = col * f.width;
    let top = row * f.height;
    let paint = |x: int, y: int|
        if crate::framebuffer::is_inside(x, y, left, top, f.width as int, f.height as int) {
            Some(
                if is_on(f, shown_glyph(f, ch), x - left, y - top) {
                    colors.fg
                } else {
                    colors.bg
                },
            )
        } else {
            None
        };
    lemma_painted(b, s, paint, x, y);
    assert((col + 1) * f.width == left + f.width && (row + 1) * f.height == top + f.height)
        by (nonlinear_arith)
        requires
            left == col * f.width,
            top == row * f.height,
    ;
    assert(glyph_drawn(b, s, f, ch, col, row, colors) =~= painted(b, s, paint));
}

/// A pixel of a glyph is on where its bit is: the glyph's rows follow each other, in whole
/// bytes, and the leftmost pixel is the highest bit.
pub proof fn law_glyph_bits(f: Font, glyph: Seq<u8>, x: int, y: int)
    requires
        f.wf(),
        0 <= x < f.width,
        0 <= y < f.height,
    ensures
        ({
            let byte = glyph[y * ((f.width + 7) / 8) + x / 8];
            is_on(f, glyph, x, y) == ((byte as int / eighth(x % 8)) % 2 == 1)
        }),
{
    let byte = glyph[y * ((f.width + 7) / 8) + x / 8];
    let k = (7 - x % 8) as u8;
    lemma_bit(byte, k);
    assert(k == 0 || k == 1 || k == 2 || k == 3 || k == 4 || k == 5 || k == 6 || k == 7);
}

/// What a pixel of a byte of a glyph counts, from the left.
pub open spec fn eighth(x: int) -> int {
    if x == 0 {
        128
    } else if x == 1 {
        64
    } else if x == 2 {
        32
    } else if x == 3 {
        16
    } else if x == 4 {
        8
    } else if x == 5 {
        4
    } else if x == 6 {
        2
    } else {
        1
    }
}

proof fn lemma_bit(b: u8, k: u8)
    by (bit_vector)
    ensures
        (b >> 7u8) & 1 == b / 128 % 2,
        (b >> 6u8) & 1 == b / 64 % 2,
        (b >> 5u8) & 1 == b / 32 % 2,
        (b >> 4u8) & 1 == b / 16 % 2,
        (b >> 3u8) & 1 == b / 8 % 2,
        (b >> 2u8) & 1 == b / 4 % 2,
        (b >> 1u8) & 1 == b / 2 % 2,
        (b >> 0u8) & 1 == b % 2,
{
}

/// The glyph of a character is the one with its number; where there is none, that of the
/// question mark.
pub proof fn law_glyph_of_a_character(f: Font, ch: char)
    requires
        f.wf(),
    ensures
        (ch as int) < f.num_glyphs ==> shown_glyph(f, ch) == f.glyphs@.subrange(
            ch as int * f.charsize,
            ch as int * f.charsize + f.charsize,
        ),
        ch as int >= f.num_glyphs && f.num_glyphs > '?' as int ==> shown_glyph(f, ch) == shown_glyph(
            f,
            '?',
        ),
{
}

/// Scrolling moves each line of text up by one: a pixel is what stood one line further down,
/// and the last line is empty.
pub proof fn law_scrolling(c: Console, b: Seq<u8>, x: int, y: int)
    requires
        c.wf(b.len() as int),
        0 <= x < c.shape.width,
        0 <= y < c.rows * c.font.height,
    ensures
        y < (c.rows - 1) * c.font.height ==> color_at(
            scrolled(b, c.shape, c.font, c.rows as int),
            c.shape,
            x,
            y,
        ) == color_at(b, c.shape, x, y + c.font.height),
        y >= (c.rows - 1) * c.font.height ==> color_at(
            scrolled(b, c.shape, c.font, c.rows as int),
            c.shape,
            x,
            y,
        ) == DEFAULT_BG,
{
    let (s, f) = (c.shape, c.font);
    let (h, p, n) = (f.height as int, s.pitch as int, s.bytes_per_pixel as int);
    let rows = c.rows as int;
    let line = h * p;
    let top = (rows - 1) * h;
    assert(rows * h <= s.height) by (nonlinear_arith)
        requires
            rows == s.height as int / h,
            h > 0,
    ;
    assert(top + h == rows * h) by (nonlinear_arith)
        requires
            top == (rows - 1) * h,
    ;
    let moved = super::moved_down(b, line, rows * line);
    let paint = |x: int, y: int|
        if crate::framebuffer::is_inside(x, y, 0, top, s.width as int, h) {
            Some(DEFAULT_BG)
        } else {
            None
        };
    lemma_painted(moved, s, paint, x, y);
    assert(scrolled(b, s, f, rows) =~= painted(moved, s, paint));
    if y < top {
        assert((y + h) * p == y * p + line) by (nonlinear_arith)
            requires
                line == h * p,
        ;
        assert(y * p + x * n + 2 < rows * line - line) by (nonlinear_arith)
            requires
                0 <= y,
                y + 1 <= top,
                top == (rows - 1) * h,
                line == h * p,
                0 <= x < s.width,
                s.width * n <= p,
                n >= 3,
        ;
        lemma_place(s, b.len() as int, x, y, 0);
        lemma_place(s, b.len() as int, x, y + h, 0);
        lemma_place(s, b.len() as int, x, y + h, 2);
    }
}

/// The sixteen colours, the normal ones first: black, red, green, yellow, blue, magenta,
/// cyan and white.
pub open spec fn colours() -> Seq<u32> {
    seq![
        0x001b_1f27,
        0x00e0_6c75,
        0x0098_c379,
        0x00e5_c07b,
        0x0061_afef,
        0x00c6_78dd,
        0x0056_b6c2,
        0x00ab_b2bf,
        0x004b_5263,
        0x00ff_7b86,
        0x00b5_e890,
        0x00ff_d98e,
        0x0082_c4ff,
        0x00e0_9bff,
        0x007f_dce8,
        0x00ff_ffff,
    ]
}

/// The control sequence with one number and a last letter.
pub open spec fn sequence(n: nat, last: char) -> Seq<char> {
    seq!['\x1b', '['] + decimal(n) + seq![last]
}

proof fn lemma_digits(c: Console, s: Screen, n: nat)
    requires
        s.esc == EscState::Csi,
        s.cur is None,
        n < 65535,
    ensures
        c.written(s, decimal(n)) == (Screen { cur: Some(n as u32), ..s }),
    decreases n,
{
    let d = decimal(n);
    if n < 10 {
        assert(d.drop_last() =~= Seq::<char>::empty());
        assert(c.written(s, d.drop_last()) == s);
        crate::text::lemma_char_range(d.last());
    } else {
        lemma_digits(c, s, n / 10);
        assert(d.drop_last() =~= decimal(n / 10));
        crate::text::lemma_char_range(d.last());
    }
}

proof fn lemma_sequence(c: Console, s: Screen, n: nat, last: char)
    requires
        s.esc == EscState::Normal,
        n < 65535,
        last != '\x1b',
    ensures
        c.written(s, sequence(n, last)) == super::controlled(
            Screen { esc: EscState::Csi, params: seq![], cur: Some(n as u32), ..s },
            last,
        ),
{
    let head = seq!['\x1b', '['];
    let d = decimal(n);
    let t = Screen { esc: EscState::Csi, params: seq![], cur: None, ..s };
    assert(c.written(s, head) == t) by {
        reveal_with_fuel(Console::written, 3);
        assert(head.drop_last().drop_last() =~= Seq::<char>::empty());
        assert(head.drop_last().last() == '\x1b');
    }
    super::law_text_in_pieces(c, s, head, d);
    lemma_digits(c, t, n);
    let all = sequence(n, last);
    assert(all.drop_last() =~= head + d);
    assert(all.last() == last);
}

/// What a colour code does: 30 to 37 and 90 to 97 set the colour of the text, 40 to 47 and
/// 100 to 107 that of the ground, to the colours in their order; bold text is bright; 39 and
/// 49 bring the default colours back, and 0 everything. The cursor and the picture stay.
pub proof fn law_colour_codes(c: Console, s: Screen, p: nat)
    requires
        s.esc == EscState::Normal,
        p < 65535,
    ensures
        ({
            let t = c.written(s, sequence(p, 'm'));
            let old_colors = s.colors;
            &&& t.col == s.col && t.row == s.row && t.picture == s.picture && t.esc
                == EscState::Normal
            &&& p == 0 ==> t.colors == (Colors { fg: colours()[7], bg: DEFAULT_BG, bold: false })
            &&& p == 1 ==> t.colors == (Colors { bold: true, ..old_colors })
            &&& p == 22 ==> t.colors == (Colors { bold: false, ..old_colors })
            &&& 30 <= p <= 37 && !old_colors.bold ==> t.colors == (Colors {
                fg: colours()[p - 30],
                ..old_colors
            })
            &&& 30 <= p <= 37 && old_colors.bold ==> t.colors == (Colors {
                fg: colours()[p - 22],
                ..old_colors
            })
            &&& 90 <= p <= 97 ==> t.colors == (Colors { fg: colours()[p - 82], ..old_colors })
            &&& 40 <= p <= 47 ==> t.colors == (Colors { bg: colours()[p - 40], ..old_colors })
            &&& 100 <= p <= 107 ==> t.colors == (Colors { bg: colours()[p - 92], ..old_colors })
            &&& p == 39 ==> t.colors == (Colors { fg: colours()[7], ..old_colors })
            &&& p == 49 ==> t.colors == (Colors { bg: DEFAULT_BG, ..old_colors })
        }),
{
    lemma_sequence(c, s, p, 'm');
    let params = seq![p as u32];
    assert(super::completed(seq![], Some(p as u32)) =~= params);
    reveal_with_fuel(colored, 3);
    lemma_palette();
}

proof fn lemma_palette()
    ensures
        forall|i: int| 0 <= i < 16 ==> palette(i) == #[trigger] colours()[i],
{
    assert forall|i: int| 0 <= i < 16 implies palette(i) == #[trigger] colours()[i] by {
        assert(i == 0 || i == 1 || i == 2 || i == 3 || i == 4 || i == 5 || i == 6 || i == 7 || i == 8
            || i == 9 || i == 10 || i == 11 || i == 12 || i == 13 || i == 14 || i == 15);
    }
}

/// The sequence for cursor left moves the cursor by as many columns, or one where the number
/// is zero, as far as the line goes, and leaves all else alone. One that there is no meaning
/// for does nothing.
pub proof fn law_cursor_left(c: Console, s: Screen, n: nat, other: char)
    requires
        s.esc == EscState::Normal,
        n < 65535,
        0 <= s.col,
        other != '\x1b' && other != 'm' && other != 'D' && other != ';' && !('0' <= other <= '9'),
    ensures
        ({
            let t = c.written(s, sequence(n, 'D'));
            let k = if n == 0 {
                1
            } else {
                n as int
            };
            &&& t.row == s.row && t.picture == s.picture && t.colors == s.colors && t.esc
                == EscState::Normal
            &&& k <= s.col ==> t.col == s.col - k
            &&& k > s.col ==> t.col == 0
        }),
        ({
            let t = c.written(s, sequence(n, other));
            t.row == s.row && t.col == s.col && t.picture == s.picture && t.colors == s.colors && t.esc
                == EscState::Normal
        }),
{
    lemma_sequence(c, s, n, 'D');
    lemma_sequence(c, s, n, other);
    assert(super::completed(seq![], Some(n as u32)) =~= seq![n as u32]);
}

/// The codes 38 and 48 with 2 take red, green and blue, and with 5 one of the sixteen
/// colours, for the text and for the ground.
pub proof fn law_extended_colours(old_colors: Colors, r: u32, g: u32, b: u32, i: u32)
    requires
        r < 256,
        g < 256,
        b < 256,
        i < 16,
    ensures
        colored(old_colors, seq![38u32, 2, r, g, b], 0) == (Colors {
            fg: (0x1_0000 * r + 0x100 * g + b) as u32,
            ..old_colors
        }),
        colored(old_colors, seq![48u32, 2, r, g, b], 0) == (Colors {
            bg: (0x1_0000 * r + 0x100 * g + b) as u32,
            ..old_colors
        }),
        colored(old_colors, seq![38u32, 5, i], 0) == (Colors {
            fg: colours()[i as int],
            ..old_colors
        }),
        colored(old_colors, seq![48u32, 5, i], 0) == (Colors {
            bg: colours()[i as int],
            ..old_colors
        }),
{
    reveal_with_fuel(colored, 2);
    lemma_palette();
    assert(palette(i as int) == colours()[i as int]);
}

} // verus!
