//! The screen that says that the kernel cannot go on.

use vstd::prelude::*;
use crate::console::{cleared, lemma_same_text, Console, Screen};
use crate::text::{chars_of, decimal, push_decimal, push_text};

verus! {

/// A character many times.
pub open spec fn repeated(c: char, n: int) -> Seq<char> {
    Seq::new(n as nat, |i: int| c)
}

/// A line across the screen.
pub open spec fn rule_text(cols: int, c: char) -> Seq<char> {
    repeated(c, cols) + "\n"@
}

/// A line in the middle of the screen, or at its left where it is too long.
pub open spec fn centered_text(cols: int, s: Seq<char>) -> Seq<char> {
    repeated(
        ' ',
        if s.len() < cols {
            (cols - s.len()) / 2
        } else {
            0
        },
    ) + s + "\n"@
}

/// The escape sequences for white on a colour.
pub open spec fn ground_text(r: u8, g: u8, b: u8) -> Seq<char> {
    "\x1b[48;2;"@ + decimal(r as nat) + ";"@ + decimal(g as nat) + ";"@ + decimal(b as nat)
        + "m\x1b[97m"@
}

/// All that the screen says.
pub open spec fn message(cols: int, title: Seq<char>, body: Seq<char>) -> Seq<char> {
    rule_text(cols, '=') + centered_text(cols, title) + rule_text(cols, '=') + "\n"@ + body + "\n"@
        + rule_text(cols, '-') + centered_text(
        cols,
        "System halted -- power off or reset the machine."@,
    ) + "\x1b[0m"@
}

fn push_repeated(s: &mut String, c: char, n: usize)
    ensures
        final(s)@ == old(s)@ + repeated(c, n as int),
{
    let mut i: usize = 0;
    while i < n
        invariant
            i <= n,
            s@ == old(s)@ + repeated(c, i as int),
        decreases n - i,
    {
        s.push(c);
        i += 1;
        assert(repeated(c, i as int) =~= repeated(c, i - 1).push(c));
    }
}

fn rule(s: &mut String, cols: usize, c: char)
    ensures
        final(s)@ == old(s)@ + rule_text(cols as int, c),
{
    push_repeated(s, c, cols);
    push_text(s, "\n");
    assert(s@ =~= old(s)@ + rule_text(cols as int, c));
}

fn centered(s: &mut String, cols: usize, text: &str)
    ensures
        final(s)@ == old(s)@ + centered_text(cols as int, text@),
{
    let n: usize = chars_of(text).len();
    let pad: usize = if n < cols {
        (cols - n) / 2
    } else {
        0
    };
    push_repeated(s, ' ', pad);
    push_text(s, text);
    push_text(s, "\n");
    assert(s@ =~= old(s)@ + centered_text(cols as int, text@));
}

/// Clear the screen to a colour and say what happened.
pub fn show(console: &mut Console, buf: &mut [u8], title: &str, rgb: (u8, u8, u8), body: &str)
    requires
        old(console).wf(old(buf)@.len() as int),
    ensures
        final(console).is_same_console(*old(console)),
        final(console).wf(final(buf)@.len() as int),
        final(console).screen(final(buf)@) == ({
            let colored = old(console).written(
                old(console).screen(old(buf)@),
                ground_text(rgb.0, rgb.1, rgb.2),
            );
            old(console).written(
                Screen {
                    col: 0,
                    row: 0,
                    picture: cleared(colored.picture, old(console).shape, colored.colors.bg),
                    ..colored
                },
                message(old(console).cols as int, title@, body@),
            )
        }),
{
    let ghost start = *console;
    let mut ground: String = String::new();
    push_text(&mut ground, "\x1b[48;2;");
    push_decimal(&mut ground, rgb.0 as u64);
    push_text(&mut ground, ";");
    push_decimal(&mut ground, rgb.1 as u64);
    push_text(&mut ground, ";");
    push_decimal(&mut ground, rgb.2 as u64);
    push_text(&mut ground, "m\x1b[97m");
    assert(ground@ =~= ground_text(rgb.0, rgb.1, rgb.2));
    console.write_str(buf, ground.as_str());
    console.clear(buf);
    let cols: usize = console.cols();
    let mut text: String = String::new();
    rule(&mut text, cols, '=');
    centered(&mut text, cols, title);
    rule(&mut text, cols, '=');
    push_text(&mut text, "\n");
    push_text(&mut text, body);
    push_text(&mut text, "\n");
    rule(&mut text, cols, '-');
    centered(&mut text, cols, "System halted -- power off or reset the machine.");
    push_text(&mut text, "\x1b[0m");
    assert(text@ =~= message(cols as int, title@, body@));
    let ghost at = *console;
    let ghost here = console.screen(buf@);
    console.write_str(buf, text.as_str());
    proof {
        lemma_same_text(at, start, here, text@);
    }
}

/// A line that fits is put in the middle: as many blanks before it as after it, or one fewer.
/// One that does not fit starts at the left.
pub proof fn law_middle(cols: int, s: Seq<char>, i: int)
    ensures
        ({
            let t = centered_text(cols, s);
            let before = t.len() - 1 - s.len();
            let after = cols - s.len() - before;
            &&& before >= 0
            &&& t.last() == '\n'
            &&& t.subrange(before, t.len() - 1) == s
            &&& 0 <= i < before ==> t[i] == ' '
            &&& s.len() <= cols ==> after - 1 <= before <= after
            &&& s.len() > cols ==> before == 0
        }),
{
    reveal_strlit("\n");
    let t = centered_text(cols, s);
    assert(t.subrange(t.len() - 1 - s.len(), t.len() - 1) =~= s);
}

/// A rule is one character across the whole screen.
pub proof fn law_rule(cols: int, c: char, i: int)
    requires
        0 <= i < cols,
    ensures
        rule_text(cols, c).len() == cols + 1,
        rule_text(cols, c)[i] == c,
        rule_text(cols, c)[cols] == '\n',
{
    reveal_strlit("\n");
}

} // verus!
