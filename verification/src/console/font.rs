//! PSF bitmap fonts.

use vstd::prelude::*;
use vstd::slice::slice_subrange;
use crate::bytes::{le32, u32le};

verus! {

/// A font: its glyphs, one after the other.
#[derive(Clone, Copy, Debug)]
pub struct Font<'a> {
    pub glyphs: &'a [u8],
    pub num_glyphs: usize,
    /// Bytes per glyph.
    pub charsize: usize,
    pub width: usize,
    pub height: usize,
    pub bytes_per_row: usize,
}

/// What the header of a font file says: the size of the header, the number of
/// glyphs, the bytes of each, and its width and height.
pub struct Header {
    pub size: int,
    pub num_glyphs: int,
    pub charsize: int,
    pub width: int,
    pub height: int,
}

/// The header of a font file: that of PSF2, or that of PSF1, whose glyphs are
/// eight pixels wide.
pub open spec fn header_of(d: Seq<u8>) -> Option<Header> {
    if d.len() >= 32 && d[0] == 0x72 && d[1] == 0xb5 && d[2] == 0x4a && d[3] == 0x86 {
        Some(
            Header {
                size: le32(d, 8),
                num_glyphs: le32(d, 16),
                charsize: le32(d, 20),
                width: le32(d, 28),
                height: le32(d, 24),
            },
        )
    } else if d.len() >= 4 && d[0] == 0x36 && d[1] == 0x04 {
        Some(
            Header {
                size: 4,
                num_glyphs: if d[2] % 2 == 1 {
                    512
                } else {
                    256
                },
                charsize: d[3] as int,
                width: 8,
                height: d[3] as int,
            },
        )
    } else {
        None
    }
}

/// Bytes for a row of pixels.
pub open spec fn row_bytes(width: int) -> int {
    (width + 7) / 8
}

/// Whether a header describes a font in a file of `len` bytes.
pub open spec fn is_sound(h: Header, len: int) -> bool {
    &&& h.width > 0
    &&& h.height > 0
    &&& h.num_glyphs > 0
    &&& h.charsize >= row_bytes(h.width) * h.height
    &&& h.size + h.num_glyphs * h.charsize <= len
}

/// The font in a file.
pub open spec fn font_in(d: Seq<u8>) -> Option<Header> {
    match header_of(d) {
        Some(h) => if is_sound(h, d.len() as int) {
            Some(h)
        } else {
            None
        },
        None => None,
    }
}

impl<'a> Font<'a> {
    /// Every glyph is there, and as large as it has to be.
    pub open spec fn wf(self) -> bool {
        &&& self.width > 0
        &&& self.height > 0
        &&& self.num_glyphs > 0
        &&& self.bytes_per_row == row_bytes(self.width as int)
        &&& self.charsize >= self.bytes_per_row * self.height
        &&& self.glyphs@.len() == self.num_glyphs * self.charsize
    }

    /// Whether this is the font that a header describes.
    pub open spec fn is_of(self, d: Seq<u8>, h: Header) -> bool {
        &&& self.glyphs@ == d.subrange(h.size, h.size + h.num_glyphs * h.charsize)
        &&& self.num_glyphs == h.num_glyphs
        &&& self.charsize == h.charsize
        &&& self.width == h.width
        &&& self.height == h.height
    }

    pub fn parse(data: &'a [u8]) -> (r: Option<Font<'a>>)
        ensures
            match r {
                Some(f) => f.wf() && font_in(data@) is Some && f.is_of(data@, font_in(data@)->0),
                None => font_in(data@) is None,
            },
    {
        let len: usize = data.len();
        let size: u64;
        let num_glyphs: u64;
        let charsize: u64;
        let width: u64;
        let height: u64;
        if len >= 32 && data[0] == 0x72 && data[1] == 0xb5 && data[2] == 0x4a && data[3] == 0x86 {
            size = u32le(data, 8) as u64;
            num_glyphs = u32le(data, 16) as u64;
            charsize = u32le(data, 20) as u64;
            width = u32le(data, 28) as u64;
            height = u32le(data, 24) as u64;
        } else if len >= 4 && data[0] == 0x36 && data[1] == 0x04 {
            size = 4;
            num_glyphs = if data[2] % 2 == 1 {
                512
            } else {
                256
            };
            charsize = data[3] as u64;
            width = 8;
            height = data[3] as u64;
        } else {
            return None;
        }
        let bytes_per_row: u64 = (width + 7) / 8;
        proof {
            let x = bytes_per_row as int;
            let y = height as int;
            assert(0 <= x * y <= 0x2000_0001 * 0xffff_ffff) by (nonlinear_arith)
                requires
                    0 <= x <= 0x2000_0001,
                    0 <= y <= 0xffff_ffff,
            ;
            let n = num_glyphs as int;
            let c = charsize as int;
            assert(0 <= n * c <= 0xffff_ffff * 0xffff_ffff) by (nonlinear_arith)
                requires
                    0 <= n <= 0xffff_ffff,
                    0 <= c <= 0xffff_ffff,
            ;
        }
        if width == 0 || height == 0 || num_glyphs == 0 || charsize < bytes_per_row * height {
            return None;
        }
        let end: u64 = size + num_glyphs * charsize;
        if end > len as u64 {
            return None;
        }
        proof {
            let n = num_glyphs as int;
            let c = charsize as int;
            let b = bytes_per_row as int;
            let h = height as int;
            assert(b * h >= b && b * h >= h) by (nonlinear_arith)
                requires
                    b >= 1,
                    h >= 1,
            ;
            assert(n * c >= n && n * c >= c) by (nonlinear_arith)
                requires
                    n >= 1,
                    c >= 1,
            ;
            assert(width <= b * 8);
        }
        // On a machine of 32 bits a width of this size is more than a file can have.
        if width > 0xffff_fff0 {
            assert(bytes_per_row >= 0x1fff_fffe);
        }
        let glyphs: &'a [u8] = slice_subrange(data, size as usize, end as usize);
        Some(
            Font {
                glyphs,
                num_glyphs: num_glyphs as usize,
                charsize: charsize as usize,
                width: width as usize,
                height: height as usize,
                bytes_per_row: bytes_per_row as usize,
            },
        )
    }

    /// Bitmap for a character. Glyph N is codepoint N (true for ASCII in every
    /// common PSF); anything the font lacks falls back to a question mark.
    pub fn glyph(&self, ch: char) -> (r: &'a [u8])
        requires
            self.wf(),
        ensures
            r@ == shown_glyph(*self, ch),
            r@.len() == self.charsize,
    {
        let code: u32 = ch as u32;
        let mut idx: usize = code as usize;
        if idx >= self.num_glyphs {
            idx = 0x3f;
        }
        if idx >= self.num_glyphs {
            idx = 0;
        }
        proof {
            let n = self.num_glyphs as int;
            let c = self.charsize as int;
            let i = idx as int;
            assert(0 <= i * c && i * c + c <= n * c) by (nonlinear_arith)
                requires
                    0 <= i < n,
                    c >= 0,
            ;
            assert((i + 1) * c == i * c + c) by (nonlinear_arith);
        }
        let total: usize = self.glyphs.len();
        let at: usize = idx * self.charsize;
        slice_subrange(self.glyphs, at, at + self.charsize)
    }
}

/// The glyph that shows a character.
pub open spec fn shown_glyph(f: Font, ch: char) -> Seq<u8> {
    let code = ch as int;
    let i = if code < f.num_glyphs {
        code
    } else if 0x3f < f.num_glyphs {
        0x3f
    } else {
        0
    };
    f.glyphs@.subrange(i * f.charsize, i * f.charsize + f.charsize)
}

/// Whether a pixel of a glyph is on.
pub open spec fn is_on(f: Font, glyph: Seq<u8>, x: int, y: int) -> bool {
    (glyph[y * f.bytes_per_row + x / 8] >> ((7 - x % 8) as u8)) & 1 == 1
}

/// Where a file of the newer format has its numbers, and that of the older one: its glyphs
/// are eight pixels wide and follow a header of four bytes.
pub proof fn law_font_header(d: Seq<u8>)
    requires
        font_in(d) is Some,
    ensures
        ({
            let h = font_in(d)->0;
            let newer = d.len() >= 32 && d[0] == 0x72 && d[1] == 0xb5 && d[2] == 0x4a && d[3] == 0x86;
            &&& newer ==> h.size == le32(d, 8) && h.num_glyphs == le32(d, 16) && h.charsize == le32(
                d,
                20,
            ) && h.height == le32(d, 24) && h.width == le32(d, 28)
            &&& !newer ==> d[0] == 0x36 && d[1] == 0x04 && h.size == 4 && h.width == 8 && h.height
                == d[3] && h.charsize == d[3] && (d[2] % 2 == 1 ==> h.num_glyphs == 512) && (d[2] % 2
                == 0 ==> h.num_glyphs == 256)
        }),
{
}

/// A font has each pixel of each of its glyphs: the byte that holds it is in the glyph, and
/// the glyph is in the file, where its number puts it.
pub proof fn law_glyphs_are_there(d: Seq<u8>, f: Font, i: int, x: int, y: int)
    requires
        f.wf(),
        font_in(d) is Some,
        f.is_of(d, font_in(d)->0),
        0 <= i < f.num_glyphs,
        0 <= x < f.width,
        0 <= y < f.height,
    ensures
        ({
            let h = font_in(d)->0;
            let k = y * ((f.width + 7) / 8) + x / 8;
            &&& 0 <= k < f.charsize
            &&& 0 <= h.size + i * f.charsize + k < d.len()
            &&& f.glyphs@[i * f.charsize + k] == d[h.size + i * f.charsize + k]
        }),
{
    let h = font_in(d)->0;
    let w = (f.width + 7) / 8;
    let k = y * w + x / 8;
    let n = f.num_glyphs as int;
    let c = f.charsize as int;
    assert(x / 8 < w);
    assert(k < w * f.height && 0 <= k) by (nonlinear_arith)
        requires
            k == y * w + x / 8,
            0 <= x / 8 < w,
            0 <= y < f.height,
    ;
    assert(0 <= i * c && i * c + c <= n * c) by (nonlinear_arith)
        requires
            0 <= i < n,
            0 <= c,
    ;
}

/// A file that is shorter than its glyphs, or whose glyphs are too small for their pixels,
/// holds no font.
pub proof fn law_broken_fonts_are_refused(d: Seq<u8>)
    requires
        d.len() >= 32,
        d[0] == 0x72,
        d[1] == 0xb5,
        d[2] == 0x4a,
        d[3] == 0x86,
    ensures
        font_in(d) is Some <==> le32(d, 16) > 0 && le32(d, 24) > 0 && le32(d, 28) > 0 && le32(d, 20)
            >= (le32(d, 28) + 7) / 8 * le32(d, 24) && le32(d, 8) + le32(d, 16) * le32(d, 20)
            <= d.len(),
{
}

} // verus!
