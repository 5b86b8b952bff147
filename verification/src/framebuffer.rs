use vstd::prelude::*;

use crate::color::Color;

verus! {

/// Channel `k` (0 red, 1 green, 2 blue, 3 alpha) of a colour.
pub open spec fn channel(c: Color, k: int) -> u8 {
    if k == 0 {
        c.r
    } else if k == 1 {
        c.g
    } else if k == 2 {
        c.b
    } else {
        c.a
    }
}

/// The bytes of `n` pixels of colour `c`, four bytes (RGBA) per pixel.
pub open spec fn solid(n: nat, c: Color) -> Seq<u8> {
    Seq::new(n * 4, |i: int| channel(c, i % 4))
}

/// The byte offset of pixel `(x, y)` in a buffer of rows `w` pixels wide.
pub open spec fn pixel_offset(w: int, x: int, y: int) -> int {
    (y * w + x) * 4
}

/// The buffer with the four bytes at `off` replaced by the colour `c`.
pub open spec fn paint(bytes: Seq<u8>, off: int, c: Color) -> Seq<u8> {
    bytes.update(off, c.r).update(off + 1, c.g).update(off + 2, c.b).update(off + 3, c.a)
}

/// The colour stored at byte offset `off`.
pub open spec fn color_at(bytes: Seq<u8>, off: int) -> Color {
    Color { r: bytes[off], g: bytes[off + 1], b: bytes[off + 2], a: bytes[off + 3] }
}

/// A software framebuffer: `width` by `height` pixels stored row by row,
/// four bytes (RGBA) per pixel, with a background colour used by `clear`
/// and a current colour used by `set_pixel`.
pub struct Framebuffer {
    width: u32,
    height: u32,
    color_buffer: Vec<u8>,
    background_color: Color,
    current_color: Color,
}

proof fn lemma_offset_in_buffer(w: int, h: int, x: int, y: int)
    by (nonlinear_arith)
    requires
        0 <= x < w,
        0 <= y < h,
    ensures
        0 <= y * w + x,
        y * w + x + 1 <= w * h,
        0 <= pixel_offset(w, x, y),
        pixel_offset(w, x, y) + 4 <= w * h * 4,
{
    assert(y * w + x + 1 <= y * w + w);
    assert(y * w + w == (y + 1) * w);
    assert((y + 1) * w <= h * w);
}

proof fn lemma_offsets_apart(w: int, a: int, b: int, x: int, y: int)
    requires
        0 <= a < w,
        0 <= x < w,
        0 <= b,
        0 <= y,
        (a, b) != (x, y),
    ensures
        pixel_offset(w, a, b) + 4 <= pixel_offset(w, x, y) || pixel_offset(w, x, y) + 4
            <= pixel_offset(w, a, b),
{
    if b == y {
    } else if b < y {
        assert(b * w + a < (b + 1) * w) by (nonlinear_arith)
            requires
                a < w,
        ;
        assert((b + 1) * w <= y * w) by (nonlinear_arith)
            requires
                b + 1 <= y,
                0 <= w,
        ;
    } else {
        assert(y * w + x < (y + 1) * w) by (nonlinear_arith)
            requires
                x < w,
        ;
        assert((y + 1) * w <= b * w) by (nonlinear_arith)
            requires
                y + 1 <= b,
                0 <= w,
        ;
    }
}

impl Framebuffer {
    #[verifier::type_invariant]
    spec fn buffer_fits(self) -> bool {
        &&& self.width * self.height * 4 <= u32::MAX
        &&& self.color_buffer@.len() == self.width * self.height * 4
    }

    /// The width in pixels.
    pub closed spec fn frame_width(self) -> nat {
        self.width as nat
    }

    /// The height in pixels.
    pub closed spec fn frame_height(self) -> nat {
        self.height as nat
    }

    /// The pixel bytes, row by row, RGBA.
    pub closed spec fn bytes(self) -> Seq<u8> {
        self.color_buffer@
    }

    /// The colour that `clear` fills with.
    pub closed spec fn background(self) -> Color {
        self.background_color
    }

    /// The colour that `set_pixel` writes.
    pub closed spec fn current(self) -> Color {
        self.current_color
    }

    /// The colour of pixel `(x, y)`.
    pub open spec fn pixel(self, x: int, y: int) -> Color {
        color_at(self.bytes(), pixel_offset(self.frame_width() as int, x, y))
    }

    /// Whether `(x, y)` is a pixel of the frame.
    pub open spec fn in_frame(self, x: int, y: int) -> bool {
        0 <= x < self.frame_width() && 0 <= y < self.frame_height()
    }

    /// A `width` by `height` frame filled with `background_color`; the
    /// current colour starts white.
    pub fn new(width: u32, height: u32, background_color: Color) -> (fb: Framebuffer)
        requires
            width <= i32::MAX,
            height <= i32::MAX,
            width * height * 4 <= u32::MAX,
        ensures
            fb.frame_width() == width,
            fb.frame_height() == height,
            fb.bytes() == solid((width * height) as nat, background_color),
            fb.background() == background_color,
            fb.current() == (Color { r: 255, g: 255, b: 255, a: 255 }),
    {
        let n = (width as usize) * (height as usize);
        let color_buffer = solid_buffer(n, background_color);
        Framebuffer { width, height, color_buffer, background_color, current_color: Color::white() }
    }

    /// The width in pixels.
    pub fn width(&self) -> (w: u32)
        ensures
            w == self.frame_width(),
            self.frame_width() * self.frame_height() * 4 <= u32::MAX,
            self.bytes().len() == self.frame_width() * self.frame_height() * 4,
    {
        proof {
            use_type_invariant(self);
        }
        self.width
    }

    /// The height in pixels.
    pub fn height(&self) -> (h: u32)
        ensures
            h == self.frame_height(),
            self.frame_width() * self.frame_height() * 4 <= u32::MAX,
            self.bytes().len() == self.frame_width() * self.frame_height() * 4,
    {
        proof {
            use_type_invariant(self);
        }
        self.height
    }

    /// The pixel bytes, row by row, RGBA.
    pub fn color_buffer(&self) -> (b: &Vec<u8>)
        ensures
            b@ == self.bytes(),
    {
        &self.color_buffer
    }

    /// The colour that `clear` fills with.
    pub fn background_color(&self) -> (c: Color)
        ensures
            c == self.background(),
    {
        self.background_color
    }

    /// The colour that `set_pixel` writes.
    pub fn current_color(&self) -> (c: Color)
        ensures
            c == self.current(),
    {
        self.current_color
    }

    /// The colour of pixel `(x, y)`, if it lies in the frame.
    pub fn get_pixel(&self, x: u32, y: u32) -> (c: Option<Color>)
        ensures
            c == if self.in_frame(x as int, y as int) {
                Some(self.pixel(x as int, y as int))
            } else {
                None::<Color>
            },
    {
        proof {
            use_type_invariant(self);
        }
        if x < self.width && y < self.height {
            proof {
                lemma_offset_in_buffer(self.width as int, self.height as int, x as int, y as int);
            }
            let offset = ((y * self.width + x) * 4) as usize;
            Some(
                Color {
                    r: self.color_buffer[offset],
                    g: self.color_buffer[offset + 1],
                    b: self.color_buffer[offset + 2],
                    a: self.color_buffer[offset + 3],
                },
            )
        } else {
            None
        }
    }

    /// Fills the whole frame with the background colour.
    pub fn clear(&mut self)
        ensures
            final(self).bytes() == solid(
                (old(self).frame_width() * old(self).frame_height()) as nat,
                old(self).background(),
            ),
            final(self).frame_width() == old(self).frame_width(),
            final(self).frame_height() == old(self).frame_height(),
            final(self).background() == old(self).background(),
            final(self).current() == old(self).current(),
    {
        proof {
            use_type_invariant(&*self);
        }
        let n = (self.width as usize) * (self.height as usize);
        let fresh = solid_buffer(n, self.background_color);
        self.color_buffer = fresh;
    }

    /// Writes the current colour at `(x, y)`; a pixel outside the frame is
    /// ignored.
    pub fn set_pixel(&mut self, x: u32, y: u32)
        ensures
            final(self).bytes() == if old(self).in_frame(x as int, y as int) {
                paint(
                    old(self).bytes(),
                    pixel_offset(old(self).frame_width() as int, x as int, y as int),
                    old(self).current(),
                )
            } else {
                old(self).bytes()
            },
            forall|a: int, b: int|
                #![trigger final(self).pixel(a, b)]
                old(self).in_frame(a, b) ==> final(self).pixel(a, b) == if a == x && b == y {
                    old(self).current()
                } else {
                    old(self).pixel(a, b)
                },
            final(self).frame_width() == old(self).frame_width(),
            final(self).frame_height() == old(self).frame_height(),
            final(self).background() == old(self).background(),
            final(self).current() == old(self).current(),
    {
        let c = self.current_color;
        self.set_pixel_color(x, y, c);
    }

    /// Writes `color` at `(x, y)`; a pixel outside the frame is ignored.
    pub fn set_pixel_color(&mut self, x: u32, y: u32, color: Color)
        ensures
            final(self).bytes() == if old(self).in_frame(x as int, y as int) {
                paint(
                    old(self).bytes(),
                    pixel_offset(old(self).frame_width() as int, x as int, y as int),
                    color,
                )
            } else {
                old(self).bytes()
            },
            forall|a: int, b: int|
                #![trigger final(self).pixel(a, b)]
                old(self).in_frame(a, b) ==> final(self).pixel(a, b) == if a == x && b == y {
                    color
                } else {
                    old(self).pixel(a, b)
                },
            final(self).frame_width() == old(self).frame_width(),
            final(self).frame_height() == old(self).frame_height(),
            final(self).background() == old(self).background(),
            final(self).current() == old(self).current(),
    {
        proof {
            use_type_invariant(&*self);
        }
        if x < self.width && y < self.height {
            proof {
                lemma_offset_in_buffer(self.width as int, self.height as int, x as int, y as int);
            }
            let offset = ((y * self.width + x) * 4) as usize;
            self.color_buffer[offset] = color.r;
            self.color_buffer[offset + 1] = color.g;
            self.color_buffer[offset + 2] = color.b;
            self.color_buffer[offset + 3] = color.a;
            proof {
                let w = self.width as int;
                let h = self.height as int;
                assert(self.color_buffer@ =~= paint(old(self).color_buffer@, offset as int, color));
                assert forall|a: int, b: int|
                    #![trigger self.pixel(a, b)]
                    old(self).in_frame(a, b) implies self.pixel(a, b) == if a == x && b == y {
                        color
                    } else {
                        old(self).pixel(a, b)
                    } by {
                    lemma_offset_in_buffer(w, h, a, b);
                    if !(a == x && b == y) {
                        lemma_offsets_apart(w, a, b, x as int, y as int);
                    }
                }
            }
        }
    }

    /// Mixes `foreground` into the pixel at `(x, y)`: nothing happens outside
    /// the frame or for a fully transparent foreground, a fully opaque one is
    /// written as it is, and otherwise each of red, green and blue becomes
    /// `mix(old channel, foreground channel, foreground alpha)` with alpha 255.
    pub fn blend_pixel<F: Fn(u8, u8, u8) -> u8>(&mut self, x: u32, y: u32, foreground: Color, mix: F)
        requires
            forall|b: u8, f: u8, a: u8| #[trigger] mix.requires((b, f, a)),
        ensures
            final(self).frame_width() == old(self).frame_width(),
            final(self).frame_height() == old(self).frame_height(),
            final(self).background() == old(self).background(),
            final(self).current() == old(self).current(),
            !old(self).in_frame(x as int, y as int) || foreground.a == 0 ==> final(self).bytes()
                == old(self).bytes(),
            old(self).in_frame(x as int, y as int) && foreground.a == 255 ==> final(self).bytes()
                == paint(
                old(self).bytes(),
                pixel_offset(old(self).frame_width() as int, x as int, y as int),
                foreground,
            ),
            old(self).in_frame(x as int, y as int) && foreground.a != 0 && foreground.a != 255
                ==> ({
                let before = old(self).pixel(x as int, y as int);
                let after = final(self).pixel(x as int, y as int);
                &&& final(self).bytes() == paint(
                    old(self).bytes(),
                    pixel_offset(old(self).frame_width() as int, x as int, y as int),
                    after,
                )
                &&& mix.ensures((before.r, foreground.r, foreground.a), after.r)
                &&& mix.ensures((before.g, foreground.g, foreground.a), after.g)
                &&& mix.ensures((before.b, foreground.b, foreground.a), after.b)
                &&& after.a == 255
            }),
    {
        proof {
            use_type_invariant(&*self);
        }
        if x >= self.width || y >= self.height || foreground.a == 0 {
            return;
        }
        if foreground.a == 255 {
            self.set_pixel_color(x, y, foreground);
            return;
        }
        proof {
            lemma_offset_in_buffer(self.width as int, self.height as int, x as int, y as int);
        }
        let offset = ((y * self.width + x) * 4) as usize;
        let r = mix(self.color_buffer[offset], foreground.r, foreground.a);
        let g = mix(self.color_buffer[offset + 1], foreground.g, foreground.a);
        let b = mix(self.color_buffer[offset + 2], foreground.b, foreground.a);
        self.color_buffer[offset] = r;
        self.color_buffer[offset + 1] = g;
        self.color_buffer[offset + 2] = b;
        self.color_buffer[offset + 3] = 255;
        proof {
            assert(self.color_buffer@ =~= paint(
                old(self).color_buffer@,
                offset as int,
                Color { r, g, b, a: 255 },
            ));
        }
    }

    /// Sets the colour that `clear` fills with.
    pub fn set_background_color(&mut self, color: Color)
        ensures
            final(self).background() == color,
            final(self).bytes() == old(self).bytes(),
            final(self).frame_width() == old(self).frame_width(),
            final(self).frame_height() == old(self).frame_height(),
            final(self).current() == old(self).current(),
    {
        proof {
            use_type_invariant(&*self);
        }
        self.background_color = color;
    }

    /// Sets the colour that `set_pixel` writes.
    pub fn set_current_color(&mut self, color: Color)
        ensures
            final(self).current() == color,
            final(self).bytes() == old(self).bytes(),
            final(self).frame_width() == old(self).frame_width(),
            final(self).frame_height() == old(self).frame_height(),
            final(self).background() == old(self).background(),
    {
        proof {
            use_type_invariant(&*self);
        }
        self.current_color = color;
    }
}

/// `n` pixels of colour `c`.
fn solid_buffer(n: usize, c: Color) -> (buf: Vec<u8>)
    requires
        n * 4 <= u32::MAX,
    ensures
        buf@ == solid(n as nat, c),
{
    let mut buf: Vec<u8> = Vec::new();
    let mut i: usize = 0;
    while i < n
        invariant
            i <= n,
            n * 4 <= u32::MAX,
            buf@ =~= solid(i as nat, c),
        decreases n - i,
    {
        buf.push(c.r);
        buf.push(c.g);
        buf.push(c.b);
        buf.push(c.a);
        proof {
            assert forall|k: int| 0 <= k < (i + 1) * 4 implies #[trigger] buf@[k] == channel(c, k % 4) by {
                if k >= i * 4 {
                    assert(k - i * 4 == k % 4);
                }
            }
        }
        i += 1;
    }
    buf
}

} // verus!

verus! {

/// A pixel written inside the frame reads back as the colour written.
pub proof fn lemma_read_after_write(before: Framebuffer, after: Framebuffer, x: int, y: int, c: Color)
    requires
        before.in_frame(x, y),
        after.frame_width() == before.frame_width(),
        after.bytes() == paint(before.bytes(), pixel_offset(before.frame_width() as int, x, y), c),
        before.bytes().len() == before.frame_width() * before.frame_height() * 4,
    ensures
        after.pixel(x, y) == c,
{
    lemma_offset_in_buffer(before.frame_width() as int, before.frame_height() as int, x, y);
}

/// After `clear` every pixel shows the background colour.
pub proof fn lemma_cleared_pixel(fb: Framebuffer, x: int, y: int)
    requires
        fb.in_frame(x, y),
        fb.bytes() == solid((fb.frame_width() * fb.frame_height()) as nat, fb.background()),
    ensures
        fb.pixel(x, y) == fb.background(),
{
    let w = fb.frame_width() as int;
    let h = fb.frame_height() as int;
    lemma_offset_in_buffer(w, h, x, y);
    let o = pixel_offset(w, x, y);
    assert(o % 4 == 0) by {
        assert(o == (y * w + x) * 4);
    }
    assert((o + 1) % 4 == 1);
    assert((o + 2) % 4 == 2);
    assert((o + 3) % 4 == 3);
}

} // verus!
