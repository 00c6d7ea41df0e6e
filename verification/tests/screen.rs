use eonos::console::font::Font;
use eonos::console::{init, Console, ConsoleFault, DEFAULT_BG, DEFAULT_FG};
use eonos::framebuffer::{self, bench_pixel, fill_rect, put_pixel, FbInfo, FramebufferFault, Shape};
use eonos::logger::{emit, flush_to_console, Logger, Status};
use eonos::panic_screen;
use eonos::pic::PortWrite;
use eonos::serial::{SerialPort, COM1};

/// A font of 256 glyphs, eight by two pixels, where glyph `n` is the byte `n` twice.
fn font() -> Vec<u8> {
    let mut f = vec![0x36, 0x04, 0, 2];
    for n in 0..=255u8 {
        f.push(n);
        f.push(n);
    }
    f
}

fn fb(width: u64, height: u64, bpp: u16) -> FbInfo {
    FbInfo { width, height, pitch: width * (bpp as u64 / 8), bpp }
}

fn pixel(buf: &[u8], c: &Console, x: usize, y: usize) -> u32 {
    let at = y * c.shape.pitch + x * c.shape.bytes_per_pixel;
    buf[at] as u32 + 256 * buf[at + 1] as u32 + 65536 * buf[at + 2] as u32
}

/// The byte of the glyph in a cell, read off the screen.
fn cell(buf: &[u8], c: &Console, col: usize, row: usize) -> u8 {
    let mut b = 0u8;
    for x in 0..8 {
        b = b * 2 + (pixel(buf, c, col * 8 + x, row * 2) == DEFAULT_FG) as u8;
    }
    b
}

fn text(buf: &[u8], c: &Console, row: usize) -> String {
    (0..c.cols).map(|col| cell(buf, c, col, row) as char).collect()
}

#[test]
fn fonts_of_both_kinds_are_read() {
    let f1 = font();
    let f = Font::parse(&f1).unwrap();
    assert_eq!((f.width, f.height, f.num_glyphs, f.charsize), (8, 2, 256, 2));
    assert_eq!(f.glyph('A'), &[0x41, 0x41]);
    assert_eq!(f.glyph('\u{4e00}'), &[0x3f, 0x3f]);
    let mut f2 = vec![0x72, 0xb5, 0x4a, 0x86, 0, 0, 0, 0, 32, 0, 0, 0, 0, 0, 0, 0];
    f2.extend_from_slice(&[2, 0, 0, 0, 6, 0, 0, 0, 3, 0, 0, 0, 9, 0, 0, 0]);
    f2.extend_from_slice(&[1, 2, 3, 4, 5, 6, 7, 8, 9, 10, 11, 12]);
    let f = Font::parse(&f2).unwrap();
    assert_eq!((f.width, f.height, f.bytes_per_row), (9, 3, 2));
    assert_eq!(f.glyph('\u{1}'), &[7, 8, 9, 10, 11, 12]);
    assert_eq!(f.glyph('z'), &[1, 2, 3, 4, 5, 6]);
    assert!(Font::parse(&f2[..43]).is_none());
    assert!(Font::parse(&[1, 2, 3, 4]).is_none());
}

#[test]
fn a_console_needs_a_screen_and_a_font() {
    let f = font();
    let mut buf = vec![0u8; 64 * 16 * 4];
    assert_eq!(init(None, &mut buf, &f).err(), Some(ConsoleFault::NoFramebuffer));
    assert_eq!(
        init(Some(fb(64, 16, 16)), &mut buf, &f).err(),
        Some(ConsoleFault::UnsupportedBpp(16))
    );
    assert_eq!(init(Some(fb(64, 16, 32)), &mut buf, &[0]).err(), Some(ConsoleFault::BadFont));
    assert_eq!(init(Some(fb(7, 16, 32)), &mut buf, &f).err(), Some(ConsoleFault::TooSmall));
    let c = init(Some(fb(64, 16, 32)), &mut buf, &f).unwrap();
    assert_eq!((c.cols(), c.rows), (8, 8));
}

#[test]
fn text_wraps_and_scrolls() {
    let f = font();
    for bpp in [24u16, 32] {
        let info = fb(32, 6, bpp);
        let mut buf = vec![0xffu8; (info.pitch * info.height) as usize];
        let mut c = init(Some(info), &mut buf, &f).unwrap();
        assert!(buf.iter().all(|&b| b == 0));
        c.write_str(&mut buf, "abcdefgh");
        assert_eq!(text(&buf, &c, 0), "abcd");
        assert_eq!(text(&buf, &c, 1), "efgh");
        c.write_str(&mut buf, "\nij\nk");
        assert_eq!(text(&buf, &c, 0), "efgh");
        assert_eq!(text(&buf, &c, 1), "ij\0\0");
        assert_eq!(text(&buf, &c, 2), "k\0\0\0");
        c.write_str(&mut buf, "\rL");
        assert_eq!(text(&buf, &c, 2), "L\0\0\0");
    }
}

#[test]
fn tabs_go_to_the_next_stop() {
    let f = font();
    let info = fb(80, 4, 32);
    let mut buf = vec![0u8; (info.pitch * info.height) as usize];
    let mut c = init(Some(info), &mut buf, &f).unwrap();
    c.write_str(&mut buf, "a\tb");
    assert_eq!(text(&buf, &c, 0), "a   b\0\0\0\0\0");
    c.write_str(&mut buf, "\t\t");
    assert_eq!((c.pen.col, c.pen.row), (10, 0));
}

#[test]
fn colours_come_from_escape_sequences() {
    let f = font();
    let info = fb(64, 4, 32);
    let mut buf = vec![0u8; (info.pitch * info.height) as usize];
    let mut c = init(Some(info), &mut buf, &f).unwrap();
    c.write_str(&mut buf, "\x1b[31;44m");
    assert_eq!((c.pen.colors.fg, c.pen.colors.bg), (0x00e0_6c75, 0x0061_afef));
    c.write_str(&mut buf, "\x1b[1;32m");
    assert_eq!(c.pen.colors.fg, 0x00b5_e890);
    c.write_str(&mut buf, "\x1b[38;2;1;2;3");
    c.write_str(&mut buf, "m\x1b[48;5;9m");
    assert_eq!((c.pen.colors.fg, c.pen.colors.bg), (0x0001_0203, 0x00ff_7b86));
    c.write_str(&mut buf, "\x1b[48;5;200m");
    assert_eq!(c.pen.colors.bg, DEFAULT_FG);
    c.write_str(&mut buf, "\x1b[m");
    assert_eq!((c.pen.colors.fg, c.pen.colors.bg), (DEFAULT_FG, DEFAULT_BG));
    assert_eq!((c.pen.col, c.pen.row), (0, 0));
    c.write_str(&mut buf, "\x1b[7Qx\x1b[97mA");
    assert_eq!(pixel(&buf, &c, 9, 0), 0x00ff_ffff);
    assert_eq!(pixel(&buf, &c, 8, 0), DEFAULT_BG);
}

#[test]
fn the_cursor_goes_left_and_erases() {
    let f = font();
    let info = fb(64, 4, 32);
    let mut buf = vec![0u8; (info.pitch * info.height) as usize];
    let mut c = init(Some(info), &mut buf, &f).unwrap();
    c.write_str(&mut buf, "abcd\x1b[2DX");
    assert_eq!(text(&buf, &c, 0), "abXd\0\0\0\0");
    assert_eq!(c.pen.col, 3);
    c.write_str(&mut buf, "\x1b[D\x1b[99D");
    assert_eq!(c.pen.col, 0);
    c.write_str(&mut buf, "\x08abc\x08");
    assert_eq!(text(&buf, &c, 0), "ab d\0\0\0\0");
    assert_eq!(c.pen.col, 2);
}

#[test]
fn text_may_come_in_pieces() {
    let f = font();
    let info = fb(64, 8, 32);
    let whole = "a\x1b[31mb\tc\n\x1b[0md\x08e";
    let mut one = vec![0u8; (info.pitch * info.height) as usize];
    let mut c = init(Some(info), &mut one, &f).unwrap();
    c.write_str(&mut one, whole);
    for cut in 0..whole.len() {
        let mut two = vec![0u8; one.len()];
        let mut d = init(Some(info), &mut two, &f).unwrap();
        d.write_str(&mut two, &whole[..cut]);
        d.write_str(&mut two, &whole[cut..]);
        assert_eq!(one, two);
    }
}

#[test]
fn log_lines_have_their_parts() {
    assert_eq!(emit(false, "PMM", "Init", "ready", Status::Okay), "PMM:Init > ready | OK\n");
    assert_eq!(
        emit(true, "A", "B", "c", Status::Fail),
        "\x1b[96mA\x1b[90m:\x1b[95mB\x1b[90m > \x1b[0m\x1b[91mc\x1b[0m \x1b[90m|\x1b[0m \x1b[91mFAIL\x1b[0m\n"
    );
    assert_eq!(Status::Critical.color(), "\x1b[97;41m");
    assert_eq!(Status::Debug.as_str(), "DEBUG");
    assert_eq!(Status::Busy.text_color(), "\x1b[37m");
}

#[test]
fn early_lines_are_kept_for_the_screen() {
    let mut l = Logger::new();
    for i in 0..40 {
        let e = l.log("M", "F", &format!("{}", i), Status::Okay, false);
        assert!(e.serial.starts_with("\x1b[96mM"));
        assert!(e.console.is_none());
    }
    assert_eq!(l.early.len(), 32);
    let mut l = Logger::new();
    let _ = l.log("M", "F", &"x".repeat(400), Status::Okay, false);
    assert_eq!(l.early[0].len(), 256);
    let mut cut = Logger::new();
    let _ = cut.log("M", "F", &"é".repeat(400), Status::Okay, false);
    let f = font();
    let info = fb(8 * 320, 4, 32);
    let mut buf = vec![0u8; (info.pitch * info.height) as usize];
    let mut c = init(Some(info), &mut buf, &f).unwrap();
    flush_to_console(&mut l, &mut c, &mut buf);
    assert!(l.early.is_empty());
    assert!(c.pen.col > 200);
    assert_eq!(c.pen.colors.fg, DEFAULT_FG);
    assert!(l.log("M", "F", "now", Status::Okay, true).console.is_some());
    let col = c.pen.col;
    let whole = std::str::from_utf8(&cut.early[0]).is_ok();
    flush_to_console(&mut cut, &mut c, &mut buf);
    assert_eq!(c.pen.col != col, whole);
}

#[test]
fn the_last_screen_says_what_happened() {
    let f = font();
    let info = fb(8 * 50, 40, 32);
    let mut buf = vec![0u8; (info.pitch * info.height) as usize];
    let mut c = init(Some(info), &mut buf, &f).unwrap();
    panic_screen::show(&mut c, &mut buf, "OH NO", (130, 0, 0), "body\n");
    assert_eq!(pixel(&buf, &c, 0, 39), 130 * 65536);
    assert_eq!(c.pen.row, 8);
    assert_eq!(c.pen.colors.bg, DEFAULT_BG);
}

#[test]
fn the_serial_port_gets_carriage_returns() {
    let p = SerialPort::new(COM1);
    assert_eq!(p.write_str("a\nb"), b"a\r\nb");
    assert_eq!(p.write_str("é"), "é".as_bytes());
    assert_eq!(p.init()[1], PortWrite { port: 0x3fb, value: 0x80 });
    assert_eq!(p.init().len(), 7);
    assert!(p.is_transmit_empty(0x60));
    assert!(!p.is_transmit_empty(0x5f));
    assert_eq!(p.try_read_byte(|port| if port == 0x3fd { 1 } else { 65 }), Some(65));
    assert_eq!(p.try_read_byte(|_| 0xfe), None);
    assert_eq!(p.write_byte(0x41, 0x5f), None);
    let sent = p.write_byte(0x41, 0x60).unwrap();
    assert_eq!((sent.port, sent.value), (COM1, 0x41));
    let (sent, shown) = eonos::syscall::console_write(&p, b"a\n\xff");
    assert_eq!(sent, b"a\r\n\xef\xbf\xbd");
    assert_eq!(shown, "a\n\u{fffd}");
}

#[test]
fn pixels_stay_in_the_picture() {
    let s = Shape { width: 3, height: 2, pitch: 16, bytes_per_pixel: 4 };
    let mut buf = vec![0u8; 32];
    put_pixel(&mut buf, &s, 1, 1, 0x0102_0304);
    assert_eq!(&buf[20..24], &[4, 3, 2, 1]);
    let before = buf.clone();
    put_pixel(&mut buf, &s, 3, 0, 0xffff_ffff);
    assert_eq!(buf, before);
    fill_rect(&mut buf, &s, 2, 0, 10, 10, 0x0a0a_0a0a);
    assert_eq!(&buf[8..16], &[10, 10, 10, 10, 0, 0, 0, 0]);
    assert_eq!(&buf[24..28], &[10, 10, 10, 10]);
    assert_eq!(framebuffer::init(None), Err(FramebufferFault::NoResponse));
    assert_eq!(framebuffer::init(Some(&[])), Err(FramebufferFault::NoFramebuffer));
    assert_eq!(framebuffer::init(Some(&[fb(1, 2, 32), fb(3, 4, 24)])), Ok(fb(1, 2, 32)));
    assert_eq!(bench_pixel(&s, 0), Some((0, 1)));
    assert_eq!(bench_pixel(&s, 3), None);
}
