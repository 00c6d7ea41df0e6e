//! The framebuffer: a picture in memory, row by row.

use vstd::prelude::*;

verus! {

/// What the bootloader says of a framebuffer.
#[derive(Clone, Copy, Debug, PartialEq, Eq, Structural)]
pub struct FbInfo {
    pub width: u64,
    pub height: u64,
    /// Bytes from one row to the next.
    pub pitch: u64,
    pub bpp: u16,
}

/// The shape of a picture, with three or four bytes for each pixel.
#[derive(Clone, Copy, Debug, PartialEq, Eq, Structural)]
pub struct Shape {
    pub width: usize,
    pub height: usize,
    pub pitch: usize,
    pub bytes_per_pixel: usize,
}

#[derive(Clone, Copy, Debug, PartialEq, Eq, Structural)]
pub enum FramebufferFault {
    /// The bootloader did not answer.
    NoResponse,
    /// It has no framebuffer.
    NoFramebuffer,
}

/// Take the first framebuffer that the bootloader reports, if it does.
pub fn init(reported: Option<&[FbInfo]>) -> (r: Result<FbInfo, FramebufferFault>)
    ensures
        r == match reported {
            None => Err::<FbInfo, FramebufferFault>(FramebufferFault::NoResponse),
            Some(list) => if list@.len() == 0 {
                Err(FramebufferFault::NoFramebuffer)
            } else {
                Ok(list@[0])
            },
        },
{
    match reported {
        None => Err(FramebufferFault::NoResponse),
        Some(list) => if list.len() == 0 {
            Err(FramebufferFault::NoFramebuffer)
        } else {
            Ok(list[0])
        },
    }
}

impl Shape {
    /// Rows do not run into each other, and the picture fits in memory of a size.
    pub open spec fn fits(self, len: int) -> bool {
        &&& self.bytes_per_pixel == 3 || self.bytes_per_pixel == 4
        &&& self.width * self.bytes_per_pixel <= self.pitch
        &&& self.height * self.pitch <= len
        &&& len <= usize::MAX
    }

    /// Where a pixel starts.
    pub open spec fn offset(self, x: int, y: int) -> int {
        y * self.pitch + x * self.bytes_per_pixel
    }
}

/// A byte of a colour, least significant first.
pub open spec fn color_byte(color: u32, k: int) -> u8 {
    if k == 0 {
        (color % 256) as u8
    } else if k == 1 {
        (color / 256 % 256) as u8
    } else if k == 2 {
        (color / 0x1_0000 % 256) as u8
    } else {
        (color / 0x100_0000) as u8
    }
}

/// The pixel that a byte belongs to, and which byte of it.
pub open spec fn pixel_of(s: Shape, i: int) -> (int, int, int) {
    (
        i % (s.pitch as int) / (s.bytes_per_pixel as int),
        i / (s.pitch as int),
        i % (s.pitch as int) % (s.bytes_per_pixel as int),
    )
}

/// A picture with some of its pixels painted.
pub open spec fn painted(b: Seq<u8>, s: Shape, paint: spec_fn(int, int) -> Option<u32>) -> Seq<u8> {
    Seq::new(
        b.len(),
        |i: int|
            {
                let (x, y, k) = pixel_of(s, i);
                if y < s.height && x < s.width && paint(x, y) is Some {
                    color_byte(paint(x, y)->0, k)
                } else {
                    b[i]
                }
            },
    )
}

/// Painting twice.
pub proof fn lemma_painted_twice(
    b: Seq<u8>,
    s: Shape,
    first: spec_fn(int, int) -> Option<u32>,
    second: spec_fn(int, int) -> Option<u32>,
    both: spec_fn(int, int) -> Option<u32>,
)
    requires
        forall|x: int, y: int|
            #[trigger] both(x, y) == if second(x, y) is Some {
                second(x, y)
            } else {
                first(x, y)
            },
    ensures
        painted(painted(b, s, first), s, second) == painted(b, s, both),
{
    assert(painted(painted(b, s, first), s, second) =~= painted(b, s, both));
}

/// Where the bytes of a pixel are.
proof fn lemma_pixel(s: Shape, len: int, x: int, y: int, i: int)
    requires
        s.fits(len),
        0 <= x < s.width,
        0 <= y < s.height,
        0 <= i,
    ensures
        0 <= s.offset(x, y),
        s.offset(x, y) + s.bytes_per_pixel <= len,
        (s.offset(x, y) <= i < s.offset(x, y) + s.bytes_per_pixel) == (pixel_of(s, i).0 == x
            && pixel_of(s, i).1 == y),
        s.offset(x, y) <= i < s.offset(x, y) + s.bytes_per_pixel ==> pixel_of(s, i).2 == i - s.offset(
            x,
            y,
        ),
{
    let p = s.pitch as int;
    let n = s.bytes_per_pixel as int;
    let w = s.width as int;
    let h = s.height as int;
    assert(x * n + n <= w * n && w * n <= p && 0 <= x * n) by (nonlinear_arith)
        requires
            0 <= x < w,
            n > 0,
            w * n <= p,
    ;
    assert(p > 0);
    assert(y * p + p <= h * p && 0 <= y * p) by (nonlinear_arith)
        requires
            0 <= y < h,
            p > 0,
    ;
    let q = i / p;
    let r = i % p;
    assert(i == q * p + r && 0 <= r < p) by (nonlinear_arith)
        requires
            q == i / p,
            r == i % p,
            p > 0,
            i >= 0,
    ;
    let a = r / n;
    let k = r % n;
    assert(r == a * n + k && 0 <= k < n) by (nonlinear_arith)
        requires
            a == r / n,
            k == r % n,
            n > 0,
            r >= 0,
    ;
    let o = y * p + x * n;
    if o <= i < o + n {
        assert(q == y) by (nonlinear_arith)
            requires
                i == q * p + r,
                0 <= r < p,
                y * p <= i < y * p + p,
                p > 0,
        ;
        assert(r == i - y * p);
        assert(a == x) by (nonlinear_arith)
            requires
                r == a * n + k,
                0 <= k < n,
                x * n <= r < x * n + n,
                n > 0,
        ;
    }
}

/// Put one pixel in its place; one outside the picture is left out.
pub fn put_pixel(buf: &mut [u8], s: &Shape, x: usize, y: usize, color: u32)
    requires
        s.fits(old(buf)@.len() as int),
    ensures
        final(buf)@ == painted(
            old(buf)@,
            *s,
            |a: int, b: int|
                if a == x && b == y {
                    Some(color)
                } else {
                    None
                },
        ),
{
    let ghost before = buf@;
    let ghost paint = |a: int, b: int|
        if a == x && b == y {
            Some(color)
        } else {
            None
        };
    if x >= s.width || y >= s.height {
        assert(buf@ =~= painted(before, *s, paint));
        return ;
    }
    proof {
        lemma_pixel(*s, before.len() as int, x as int, y as int, 0);
        let o = s.offset(x as int, y as int);
        assert(0 <= y * s.pitch) by (nonlinear_arith)
            requires
                y >= 0,
                s.pitch >= 0,
        ;
        assert(0 <= x * s.bytes_per_pixel) by (nonlinear_arith)
            requires
                x >= 0,
                s.bytes_per_pixel >= 0,
        ;
    }
    let at: usize = y * s.pitch + x * s.bytes_per_pixel;
    buf[at] = (color % 256) as u8;
    buf[at + 1] = (color / 256 % 256) as u8;
    buf[at + 2] = (color / 0x1_0000 % 256) as u8;
    if s.bytes_per_pixel == 4 {
        buf[at + 3] = (color / 0x100_0000) as u8;
    }
    proof {
        assert forall|i: int| 0 <= i < before.len() implies #[trigger] buf@[i] == painted(
            before,
            *s,
            paint,
        )[i] by {
            lemma_pixel(*s, before.len() as int, x as int, y as int, i);
        }
        assert(buf@ =~= painted(before, *s, paint));
    }
}

/// The smaller of two numbers.
pub open spec fn least(a: int, b: int) -> int {
    if a < b {
        a
    } else {
        b
    }
}

/// Whether a pixel lies in a rectangle.
pub open spec fn is_inside(x: int, y: int, left: int, top: int, w: int, h: int) -> bool {
    left <= x < left + w && top <= y < top + h
}

/// Fill a rectangle, as far as it lies in the picture.
pub fn fill_rect(buf: &mut [u8], s: &Shape, left: usize, top: usize, w: usize, h: usize, color: u32)
    requires
        s.fits(old(buf)@.len() as int),
        left + w <= usize::MAX,
        top + h <= usize::MAX,
    ensures
        final(buf)@ == painted(
            old(buf)@,
            *s,
            |x: int, y: int|
                if is_inside(x, y, left as int, top as int, w as int, h as int) {
                    Some(color)
                } else {
                    None
                },
        ),
{
    let ghost before = buf@;
    let right: usize = if left + w < s.width {
        left + w
    } else {
        s.width
    };
    let bottom: usize = if top + h < s.height {
        top + h
    } else {
        s.height
    };
    let ghost none = |x: int, y: int| None::<u32>;
    assert(painted(before, *s, none) =~= before);
    let mut y: usize = top;
    let ghost rows = |n: int|
        |a: int, b: int|
            if left <= a < right && top <= b < n {
                Some(color)
            } else {
                None::<u32>
            };
    assert(buf@ =~= painted(before, *s, rows(top as int)));
    while y < bottom
        invariant
            top <= y,
            y <= bottom || y == top,
            bottom <= s.height,
            right <= s.width,
            s.fits(before.len() as int),
            buf@.len() == before.len(),
            rows == (|n: int|
                |a: int, b: int|
                    if left <= a < right && top <= b < n {
                        Some(color)
                    } else {
                        None::<u32>
                    }),
            buf@ == painted(before, *s, rows(y as int)),
        decreases s.height - y,
    {
        let ghost start = buf@;
        let ghost part = |n: int|
            |a: int, b: int|
                if left <= a < n && b == y {
                    Some(color)
                } else {
                    None::<u32>
                };
        let mut x: usize = left;
        assert(buf@ =~= painted(start, *s, part(left as int)));
        while x < right
            invariant
                left <= x,
                x <= right || x == left,
                right <= s.width,
                s.fits(before.len() as int),
                start.len() == before.len(),
                buf@.len() == before.len(),
                part == (|n: int|
                    |a: int, b: int|
                        if left <= a < n && b == y {
                            Some(color)
                        } else {
                            None::<u32>
                        }),
                buf@ == painted(start, *s, part(x as int)),
            decreases s.width - x,
        {
            put_pixel(buf, s, x, y, color);
            proof {
                let one = |a: int, b: int|
                    if a == x && b == y {
                        Some(color)
                    } else {
                        None
                    };
                lemma_painted_twice(start, *s, part(x as int), one, part(x + 1));
            }
            x += 1;
        }
        proof {
            if left < right {
                assert(x == right);
            }
            let done = part(right as int);
            assert(painted(start, *s, part(x as int)) =~= painted(start, *s, done));
            lemma_painted_twice(before, *s, rows(y as int), done, rows(y + 1));
        }
        y += 1;
    }
    proof {
        let want = |a: int, b: int|
            if is_inside(a, b, left as int, top as int, w as int, h as int) {
                Some(color)
            } else {
                None
            };
        assert(buf@ =~= painted(before, *s, want));
    }
}

/// How many pixels are written to see how fast that goes.
pub const BENCH_PIXELS: usize = 4096;

/// Where the `i`th pixel of a trial of speed goes: from a row well below the top
/// on, as long as it lies in the picture.
pub fn bench_pixel(s: &Shape, i: usize) -> (r: Option<(usize, usize)>)
    requires
        s.width > 0,
        i < BENCH_PIXELS,
    ensures
        ({
            let first = least(16, if s.height > 0 {
                s.height - 1
            } else {
                0
            });
            let y = first + i as int / (s.width as int);
            r == if y >= s.height {
                None::<(usize, usize)>
            } else {
                Some(((i as int % (s.width as int)) as usize, y as usize))
            }
        }),
{
    let last: usize = if s.height > 0 {
        s.height - 1
    } else {
        0
    };
    let first: usize = if last < 16 {
        last
    } else {
        16
    };
    proof {
        assert(i as int / (s.width as int) <= i) by (nonlinear_arith)
            requires
                s.width > 0,
                i >= 0,
        ;
    }
    let y: usize = first + i / s.width;
    if y >= s.height {
        None
    } else {
        Some((i % s.width, y))
    }
}

/// White, with the byte of a pixel that is not shown as it is.
pub open spec fn white_over(b: Seq<u8>, s: Shape, x: int, y: int) -> u32 {
    if s.bytes_per_pixel == 4 {
        (0xff_ffff + b[s.offset(x, y) + 3] * 0x100_0000) as u32
    } else {
        0xff_ffff
    }
}

/// Draw a white block of eight by eight pixels in the corner.
pub fn self_test(buf: &mut [u8], s: &Shape)
    requires
        s.fits(old(buf)@.len() as int),
        s.width >= 8,
        s.height >= 8,
    ensures
        final(buf)@ == painted(
            old(buf)@,
            *s,
            |x: int, y: int|
                if is_inside(x, y, 0, 0, 8, 8) {
                    Some(white_over(old(buf)@, *s, x, y))
                } else {
                    None
                },
        ),
{
    let ghost before = buf@;
    let ghost upto = |n: int|
        |x: int, y: int|
            if is_inside(x, y, 0, 0, 8, 8) && y * 8 + x < n {
                Some(white_over(before, *s, x, y))
            } else {
                None::<u32>
            };
    let mut n: usize = 0;
    assert(buf@ =~= painted(before, *s, upto(0)));
    while n < 64
        invariant
            n <= 64,
            s.fits(before.len() as int),
            s.width >= 8,
            s.height >= 8,
            buf@.len() == before.len(),
            upto == (|n: int|
                |x: int, y: int|
                    if is_inside(x, y, 0, 0, 8, 8) && y * 8 + x < n {
                        Some(white_over(before, *s, x, y))
                    } else {
                        None::<u32>
                    }),
            buf@ == painted(before, *s, upto(n as int)),
        decreases 64 - n,
    {
        let x: usize = n % 8;
        let y: usize = n / 8;
        proof {
            let o = s.offset(x as int, y as int);
            lemma_pixel(*s, before.len() as int, x as int, y as int, o);
            assert(0 <= y * s.pitch && 0 <= x * s.bytes_per_pixel) by (nonlinear_arith)
                requires
                    y >= 0,
                    x >= 0,
                    s.pitch >= 0,
                    s.bytes_per_pixel >= 0,
            ;
            if s.bytes_per_pixel == 4 {
                lemma_pixel(*s, before.len() as int, x as int, y as int, o + 3);
                assert(buf@[o + 3] == before[o + 3]);
            }
        }
        let color: u32 = if s.bytes_per_pixel == 4 {
            let at: usize = y * s.pitch + x * s.bytes_per_pixel;
            0xff_ffff + buf[at + 3] as u32 * 0x100_0000
        } else {
            0xff_ffff
        };
        put_pixel(buf, s, x, y, color);
        proof {
            let one = |a: int, b: int|
                if a == x && b == y {
                    Some(color)
                } else {
                    None
                };
            lemma_painted_twice(before, *s, upto(n as int), one, upto(n + 1));
        }
        n += 1;
    }
    proof {
        let want = |x: int, y: int|
            if is_inside(x, y, 0, 0, 8, 8) {
                Some(white_over(before, *s, x, y))
            } else {
                None
            };
        assert(buf@ =~= painted(before, *s, want));
    }
}

/// A pixel that is painted holds its colour, blue first, green and red behind it, where its
/// row and its column put it.
pub proof fn law_pixel_is_painted(
    b: Seq<u8>,
    s: Shape,
    paint: spec_fn(int, int) -> Option<u32>,
    x: int,
    y: int,
)
    requires
        s.fits(b.len() as int),
        0 <= x < s.width,
        0 <= y < s.height,
    ensures
        ({
            let p = painted(b, s, paint);
            let at = y * s.pitch + x * s.bytes_per_pixel;
            &&& p.len() == b.len()
            &&& 0 <= at && at + s.bytes_per_pixel <= b.len()
            &&& paint(x, y) matches Some(color) ==> p[at] == color % 256 && p[at + 1] == color / 256
                % 256 && p[at + 2] == color / 0x1_0000 % 256 && (s.bytes_per_pixel == 4 ==> p[at + 3]
                == color / 0x100_0000)
            &&& paint(x, y) is None ==> forall|k: int|
                0 <= k < s.bytes_per_pixel ==> #[trigger] p[at + k] == b[at + k]
        }),
{
    let len = b.len() as int;
    let p = painted(b, s, paint);
    let at = s.offset(x, y);
    assert forall|k: int| 0 <= k < s.bytes_per_pixel implies pixel_of(s, #[trigger] (at + k)) == (x, y, k) by {
        lemma_pixel(s, len, x, y, at + k);
    }
    lemma_pixel(s, len, x, y, 0);
    assert(pixel_of(s, at + 0) == (x, y, 0int));
    assert(pixel_of(s, at + 1) == (x, y, 1int));
    assert(pixel_of(s, at + 2) == (x, y, 2int));
    if s.bytes_per_pixel == 4 {
        assert(pixel_of(s, at + 3) == (x, y, 3int));
    }
}

} // verus!
