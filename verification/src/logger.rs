//! The kernel log: one line for each event, on the serial port and on the screen.
//! What is logged before there is a screen is kept, and shown when there is one.

use vstd::prelude::*;
use vstd::utf8::{decode_utf8, encode_utf8, valid_utf8};
use crate::console::{law_text_in_pieces, lemma_same_text, Console};
use crate::text::{push_text, strict};

verus! {

#[derive(Clone, Copy, Debug, PartialEq, Eq, Structural)]
pub enum Status {
    Okay,
    Busy,
    Fail,
    Critical,
    Debug,
}

impl Status {
    pub open spec fn word(self) -> Seq<char> {
        match self {
            Status::Okay => "OK"@,
            Status::Busy => "BUSY"@,
            Status::Fail => "FAIL"@,
            Status::Critical => "CRITICAL"@,
            Status::Debug => "DEBUG"@,
        }
    }

    pub open spec fn word_color(self) -> Seq<char> {
        match self {
            Status::Okay => "\x1b[92m"@,
            Status::Busy => "\x1b[93m"@,
            Status::Fail => "\x1b[91m"@,
            Status::Critical => "\x1b[97;41m"@,
            Status::Debug => "\x1b[94m"@,
        }
    }

    pub open spec fn output_color(self) -> Seq<char> {
        if self == Status::Fail || self == Status::Critical {
            "\x1b[91m"@
        } else {
            "\x1b[37m"@
        }
    }

    pub fn as_str(self) -> (r: &'static str)
        ensures
            r@ == self.word(),
    {
        match self {
            Status::Okay => "OK",
            Status::Busy => "BUSY",
            Status::Fail => "FAIL",
            Status::Critical => "CRITICAL",
            Status::Debug => "DEBUG",
        }
    }

    /// The escape sequence for the colour of the word.
    pub fn color(self) -> (r: &'static str)
        ensures
            r@ == self.word_color(),
    {
        match self {
            Status::Okay => "\x1b[92m",
            Status::Busy => "\x1b[93m",
            Status::Fail => "\x1b[91m",
            Status::Critical => "\x1b[97;41m",
            Status::Debug => "\x1b[94m",
        }
    }

    /// The escape sequence for the colour of what is logged.
    pub fn text_color(self) -> (r: &'static str)
        ensures
            r@ == self.output_color(),
    {
        match self {
            Status::Fail | Status::Critical => "\x1b[91m",
            _ => "\x1b[37m",
        }
    }
}

pub const EARLY_LOG_CAPACITY: usize = 32;

pub const MAX_LINE_LEN: usize = 256;

/// A part of a line that is left out where there are no colours.
pub open spec fn paint(colors: bool, sequence: Seq<char>) -> Seq<char> {
    if colors {
        sequence
    } else {
        seq![]
    }
}

/// A line of the log: `module:function > output | STATUS`.
pub open spec fn line(
    colors: bool,
    module: Seq<char>,
    function: Seq<char>,
    output: Seq<char>,
    status: Status,
) -> Seq<char> {
    let dim = paint(colors, "\x1b[90m"@);
    let reset = paint(colors, "\x1b[0m"@);
    paint(colors, "\x1b[96m"@) + module + dim + ":"@ + paint(colors, "\x1b[95m"@) + function + dim
        + " > "@ + reset + paint(colors, status.output_color()) + output + reset + " "@ + dim + "|"@
        + reset + " "@ + paint(colors, status.word_color()) + status.word() + reset + "\n"@
}

/// Put a line of the log together.
pub fn emit(colors: bool, module: &str, function: &str, output: &str, status: Status) -> (r: String)
    ensures
        r@ == line(colors, module@, function@, output@, status),
{
    let dim: &str = if colors {
        "\x1b[90m"
    } else {
        ""
    };
    let reset: &str = if colors {
        "\x1b[0m"
    } else {
        ""
    };
    let modc: &str = if colors {
        "\x1b[96m"
    } else {
        ""
    };
    let func: &str = if colors {
        "\x1b[95m"
    } else {
        ""
    };
    let text: &str = if colors {
        status.text_color()
    } else {
        ""
    };
    let stc: &str = if colors {
        status.color()
    } else {
        ""
    };
    proof {
        reveal_strlit("");
        assert(""@ =~= seq![]);
    }
    let mut s: String = String::new();
    push_text(&mut s, modc);
    push_text(&mut s, module);
    push_text(&mut s, dim);
    push_text(&mut s, ":");
    push_text(&mut s, func);
    push_text(&mut s, function);
    push_text(&mut s, dim);
    push_text(&mut s, " > ");
    push_text(&mut s, reset);
    push_text(&mut s, text);
    push_text(&mut s, output);
    push_text(&mut s, reset);
    push_text(&mut s, " ");
    push_text(&mut s, dim);
    push_text(&mut s, "|");
    push_text(&mut s, reset);
    push_text(&mut s, " ");
    push_text(&mut s, stc);
    push_text(&mut s, status.as_str());
    push_text(&mut s, reset);
    push_text(&mut s, "\n");
    assert(s@ =~= line(colors, module@, function@, output@, status));
    s
}

/// The log, with what was logged before there was a screen.
pub struct Logger {
    /// Whether the serial port gets colours; the screen always does.
    pub use_color: bool,
    pub early: Vec<Vec<u8>>,
}

/// What a log entry gives each of the two places it goes to.
pub struct Emitted {
    pub serial: String,
    pub console: Option<String>,
}

/// The bytes of a line that are kept.
pub open spec fn kept(text: Seq<char>) -> Seq<u8> {
    let bytes = encode_utf8(text);
    if bytes.len() <= MAX_LINE_LEN {
        bytes
    } else {
        bytes.take(MAX_LINE_LEN as int)
    }
}

/// What the kept lines show: each that is whole, and a reset of the colours behind
/// it, since the line may have been cut.
pub open spec fn replayed(early: Seq<Seq<u8>>) -> Seq<char>
    decreases early.len(),
{
    if early.len() == 0 {
        seq![]
    } else {
        let before = replayed(early.drop_last());
        if valid_utf8(early.last()) {
            before + decode_utf8(early.last()) + "\x1b[0m"@
        } else {
            before
        }
    }
}

pub open spec fn contents(v: Seq<Vec<u8>>) -> Seq<Seq<u8>> {
    v.map_values(|e: Vec<u8>| e@)
}

/// The first bytes of a text.
fn keep(text: &str) -> (v: Vec<u8>)
    ensures
        v@ == kept(text@),
{
    let bytes: &[u8] = text.as_bytes();
    let n: usize = if bytes.len() <= MAX_LINE_LEN {
        bytes.len()
    } else {
        MAX_LINE_LEN
    };
    let mut v: Vec<u8> = Vec::new();
    let mut i: usize = 0;
    while i < n
        invariant
            n <= bytes@.len(),
            i <= n,
            v@ == bytes@.take(i as int),
        decreases n - i,
    {
        v.push(bytes[i]);
        i += 1;
        assert(bytes@.take(i as int) =~= bytes@.take(i - 1).push(bytes@[i - 1]));
    }
    assert(v@ =~= kept(text@));
    v
}

impl Logger {
    pub open spec fn wf(self) -> bool {
        self.early@.len() <= EARLY_LOG_CAPACITY
    }

    pub fn new() -> (r: Logger)
        ensures
            r.wf(),
            r.use_color,
            r.early@.len() == 0,
    {
        Logger { use_color: true, early: Vec::new() }
    }

    /// Log an event. Where there is no screen yet the line is kept for it, as long
    /// as there is room.
    pub fn log(
        &mut self,
        module: &str,
        function: &str,
        output: &str,
        status: Status,
        has_console: bool,
    ) -> (r: Emitted)
        requires
            old(self).wf(),
        ensures
            final(self).wf(),
            final(self).use_color == old(self).use_color,
            r.serial@ == line(old(self).use_color, module@, function@, output@, status),
            r.console is Some <==> has_console,
            r.console is Some ==> r.console->0@ == line(true, module@, function@, output@, status),
            contents(final(self).early@) == if has_console || old(self).early@.len()
                == EARLY_LOG_CAPACITY {
                contents(old(self).early@)
            } else {
                contents(old(self).early@).push(
                    kept(line(true, module@, function@, output@, status)),
                )
            },
    {
        let serial: String = emit(self.use_color, module, function, output, status);
        let mut console: Option<String> = None;
        let ghost before = self.early@;
        if has_console {
            console = Some(emit(true, module, function, output, status));
        } else if self.early.len() < EARLY_LOG_CAPACITY {
            let text: String = emit(true, module, function, output, status);
            let entry: Vec<u8> = keep(text.as_str());
            self.early.push(entry);
            assert(contents(self.early@) =~= contents(before).push(entry@));
        }
        Emitted { serial, console }
    }
}

/// Show on a new console what was logged before there was one.
pub fn flush_to_console(logger: &mut Logger, console: &mut Console, buf: &mut [u8])
    requires
        old(console).wf(old(buf)@.len() as int),
    ensures
        final(logger).wf(),
        final(logger).use_color == old(logger).use_color,
        final(logger).early@.len() == 0,
        final(console).is_same_console(*old(console)),
        final(console).wf(final(buf)@.len() as int),
        final(console).screen(final(buf)@) == old(console).written(
            old(console).screen(old(buf)@),
            replayed(contents(old(logger).early@)),
        ),
{
    let ghost entries = contents(logger.early@);
    let ghost start = *console;
    let ghost before = console.screen(buf@);
    let mut i: usize = 0;
    assert(entries.take(0) =~= seq![]);
    while i < logger.early.len()
        invariant
            i <= logger.early@.len(),
            entries == contents(logger.early@),
            logger.use_color == old(logger).use_color,
            console.is_same_console(start),
            console.wf(buf@.len() as int),
            console.screen(buf@) == start.written(before, replayed(entries.take(i as int))),
        decreases logger.early@.len() - i,
    {
        let ghost shown = replayed(entries.take(i as int));
        proof {
            assert(entries.take(i + 1).drop_last() =~= entries.take(i as int));
            assert(entries.take(i + 1).last() == logger.early@[i as int]@);
        }
        match strict(logger.early[i].as_slice()) {
            Some(text) => {
                let ghost at = *console;
                console.write_str(buf, text.as_str());
                proof {
                    lemma_same_text(at, start, start.written(before, shown), text@);
                    law_text_in_pieces(start, before, shown, text@);
                }
                let ghost at = *console;
                console.write_str(buf, "\x1b[0m");
                proof {
                    lemma_same_text(at, start, start.written(before, shown + text@), "\x1b[0m"@);
                    law_text_in_pieces(start, before, shown + text@, "\x1b[0m"@);
                }
            },
            None => {},
        }
        i += 1;
    }
    assert(entries.take(i as int) =~= entries);
    logger.early = Vec::new();
}

/// A line of the log says where it is from, what it says and how that went:
/// `module:function > output | STATUS`; nothing else where there are no colours.
pub proof fn law_plain_line(
    module: Seq<char>,
    function: Seq<char>,
    output: Seq<char>,
    status: Status,
)
    ensures
        line(false, module, function, output, status) == module + seq![':'] + function + seq![
            ' ',
            '>',
            ' ',
        ] + output + seq![' ', '|', ' '] + status.word() + seq!['\n'],
{
    reveal_strlit(":");
    reveal_strlit(" > ");
    reveal_strlit(" ");
    reveal_strlit("|");
    reveal_strlit("\n");
    assert(line(false, module, function, output, status) =~= module + seq![':'] + function + seq![
        ' ',
        '>',
        ' ',
    ] + output + seq![' ', '|', ' '] + status.word() + seq!['\n']);
}

/// The words for how it went.
pub proof fn law_status_words()
    ensures
        Status::Okay.word() == seq!['O', 'K'],
        Status::Busy.word() == seq!['B', 'U', 'S', 'Y'],
        Status::Fail.word() == seq!['F', 'A', 'I', 'L'],
        Status::Critical.word() == seq!['C', 'R', 'I', 'T', 'I', 'C', 'A', 'L'],
        Status::Debug.word() == seq!['D', 'E', 'B', 'U', 'G'],
{
    reveal_strlit("OK");
    reveal_strlit("BUSY");
    reveal_strlit("FAIL");
    reveal_strlit("CRITICAL");
    reveal_strlit("DEBUG");
    assert(Status::Okay.word() =~= seq!['O', 'K']);
    assert(Status::Busy.word() =~= seq!['B', 'U', 'S', 'Y']);
    assert(Status::Fail.word() =~= seq!['F', 'A', 'I', 'L']);
    assert(Status::Critical.word() =~= seq!['C', 'R', 'I', 'T', 'I', 'C', 'A', 'L']);
    assert(Status::Debug.word() =~= seq!['D', 'E', 'B', 'U', 'G']);
}

/// Of a line that is kept for the screen the first 256 bytes stay.
pub proof fn law_kept_lines(text: Seq<char>)
    ensures
        kept(text).len() <= 256,
        kept(text).is_prefix_of(encode_utf8(text)),
        encode_utf8(text).len() <= 256 ==> kept(text) == encode_utf8(text),
        encode_utf8(text).len() > 256 ==> kept(text).len() == 256,
{
}

/// Lines that were kept are shown in their order, each as it was; one that was cut inside a
/// character is left out.
pub proof fn law_replayed_lines(early: Seq<Seq<u8>>, text: Seq<char>)
    ensures
        replayed(Seq::empty()).len() == 0,
        encode_utf8(text).len() <= 256 ==> replayed(early.push(kept(text))) == replayed(early) + text
            + seq!['\x1b', '[', '0', 'm'],
{
    reveal_strlit("\x1b[0m");
    let all = early.push(kept(text));
    assert(all.drop_last() =~= early);
    vstd::utf8::encode_utf8_valid_utf8(text);
    vstd::utf8::encode_utf8_decode_utf8(text);
    if encode_utf8(text).len() <= 256 {
        assert(replayed(all) =~= replayed(early) + text + seq!['\x1b', '[', '0', 'm']);
    }
}

} // verus!
