//! Colours and 32-bit BGRA bitmaps.
use vstd::prelude::*;

verus! {

/// How a filled path decides what is inside.
#[derive(Clone, Copy, PartialEq, Eq, Debug, Structural)]
pub enum WindingRule {
    Nonzero,
    EvenOdd,
}

/// A colour with straight (not premultiplied) alpha.
#[derive(Clone, Copy, PartialEq, Eq, Debug, Structural)]
pub struct Color {
    pub red: u8,
    pub green: u8,
    pub blue: u8,
    pub alpha: u8,
}

/// One channel of `src` drawn over `dst`: the channels weighted by their
/// alphas, over the combined coverage `d`.
pub open spec fn blend_channel(dc: u8, da: u8, sc: u8, sa: u8) -> int {
    (dc * da * (255 - sa) + 255 * sa * sc) / coverage(da, sa)
}

/// `255` times the alpha of `src` drawn over `dst`.
pub open spec fn coverage(da: u8, sa: u8) -> int {
    255 * (da + sa) - da * sa
}

/// `src` drawn over `dst`. A transparent `dst` or an opaque `src` gives `src`; a
/// transparent `src` gives `dst`.
pub open spec fn blend_spec(dst: Color, src: Color) -> Color {
    if dst.alpha == 0 || src.alpha == 255 {
        src
    } else if src.alpha == 0 {
        dst
    } else {
        Color {
            red: blend_channel(dst.red, dst.alpha, src.red, src.alpha) as u8,
            green: blend_channel(dst.green, dst.alpha, src.green, src.alpha) as u8,
            blue: blend_channel(dst.blue, dst.alpha, src.blue, src.alpha) as u8,
            alpha: (coverage(dst.alpha, src.alpha) / 255) as u8,
        }
    }
}

proof fn lemma_coverage_bounds(da: u8, sa: u8)
    requires
        da > 0,
    ensures
        255 <= coverage(da, sa) <= 255 * 255,
{
    let a = da as int;
    let b = sa as int;
    assert(255 * (a + b) - a * b == 255 * 255 - (255 - a) * (255 - b)) by (nonlinear_arith);
    assert(0 <= (255 - a) * (255 - b) <= (255 - a) * 255) by (nonlinear_arith)
        requires
            0 <= 255 - a <= 254,
            0 <= 255 - b <= 255,
    ;
}

/// The weighted sum never exceeds 255 times the coverage.
proof fn lemma_channel_bounds(dc: u8, da: u8, sc: u8, sa: u8)
    requires
        da > 0,
    ensures
        0 <= dc * da * (255 - sa) + 255 * sa * sc <= 255 * coverage(da, sa),
        dc * da * (255 - sa) + 255 * sa * sc <= 255 * 255 * 255,
        0 <= blend_channel(dc, da, sc, sa) <= 255,
{
    lemma_coverage_bounds(da, sa);
    let (c, a, s, t) = (dc as int, da as int, sc as int, sa as int);
    assert(0 <= c * a * (255 - t) <= 255 * a * (255 - t)) by (nonlinear_arith)
        requires
            0 <= c <= 255,
            0 <= a,
            0 <= 255 - t,
    ;
    assert(0 <= 255 * t * s <= 255 * t * 255) by (nonlinear_arith)
        requires
            0 <= s <= 255,
            0 <= t,
    ;
    assert(255 * a * (255 - t) + 255 * t * 255 == 255 * (255 * (a + t) - a * t)) by (nonlinear_arith);
    let num = c * a * (255 - t) + 255 * t * s;
    let d = coverage(da, sa);
    assert(num / d <= 255) by (nonlinear_arith)
        requires
            0 <= num <= 255 * d,
            d > 0,
    ;
    assert(0 <= num / d) by (nonlinear_arith)
        requires
            0 <= num,
            d > 0,
    ;
}

/// One channel of a colour with coverage `sa` drawn over one with coverage `da`.
fn blend_one(dc: u8, da: u8, sc: u8, sa: u8) -> (r: u8)
    requires
        da > 0,
    ensures
        r == blend_channel(dc, da, sc, sa) as u8,
{
    proof {
        lemma_coverage_bounds(da, sa);
        lemma_channel_bounds(dc, da, sc, sa);
    }
    let (c, a, s, t) = (dc as u64, da as u64, sc as u64, sa as u64);
    proof {
        assert(c * a <= 255 * 255 && c * a * (255 - t) <= 255 * 255 * 255 && 255 * t * s <= 255
            * 255 * 255 && a * t <= 255 * 255) by (nonlinear_arith)
            requires
                c <= 255,
                a <= 255,
                s <= 255,
                t <= 255,
        ;
    }
    let d: u64 = 255 * (a + t) - a * t;
    let num: u64 = c * a * (255 - t) + 255 * t * s;
    (num / d) as u8
}

impl Color {
    /// An opaque colour.
    pub fn from_rgb(red: u8, green: u8, blue: u8) -> (r: Color)
        ensures
            r == (Color { red, green, blue, alpha: 255 }),
    {
        Color { red, green, blue, alpha: 255 }
    }

    pub fn from_rgba(red: u8, green: u8, blue: u8, alpha: u8) -> (r: Color)
        ensures
            r == (Color { red, green, blue, alpha }),
    {
        Color { red, green, blue, alpha }
    }

    /// This colour with another alpha.
    pub fn with_alpha(&self, alpha: u8) -> (r: Color)
        ensures
            r == (Color { alpha, ..*self }),
    {
        Color { red: self.red, green: self.green, blue: self.blue, alpha }
    }

    /// `source` drawn over this colour.
    pub fn blend(&self, source: &Color) -> (r: Color)
        ensures
            r == blend_spec(*self, *source),
    {
        if self.alpha == 0 || source.alpha == 255 {
            return *source;
        }
        if source.alpha == 0 {
            return *self;
        }
        proof {
            lemma_coverage_bounds(self.alpha, source.alpha);
            lemma_channel_bounds(self.red, self.alpha, source.red, source.alpha);
            lemma_channel_bounds(self.green, self.alpha, source.green, source.alpha);
            lemma_channel_bounds(self.blue, self.alpha, source.blue, source.alpha);
        }
        let r = blend_one(self.red, self.alpha, source.red, source.alpha);
        let g = blend_one(self.green, self.alpha, source.green, source.alpha);
        let b = blend_one(self.blue, self.alpha, source.blue, source.alpha);
        let da = self.alpha as u32;
        let sa = source.alpha as u32;
        proof {
            assert(da * sa <= 255 * 255) by (nonlinear_arith)
                requires
                    da <= 255,
                    sa <= 255,
            ;
        }
        let d: u32 = 255 * (da + sa) - da * sa;
        let a = d / 255;
        Color::from_rgba(r, g, b, a as u8)
    }
}

/// A 32-bit bitmap: each pixel is four bytes, blue, green, red, alpha; rows
/// are `pitch` bytes apart.
pub struct Bitmap {
    pub data: Vec<u8>,
    pub width: u32,
    pub height: u32,
    pub pitch: u32,
}

/// The offset of pixel `(x, y)` in a bitmap whose rows are `pitch` bytes apart.
pub open spec fn pixel_offset(pitch: u32, x: int, y: int) -> int {
    y * pitch + x * 4
}

/// The colour stored at byte `base` of `data`.
pub open spec fn pixel_at(data: Seq<u8>, base: int) -> Color {
    Color { blue: data[base], green: data[base + 1], red: data[base + 2], alpha: data[base + 3] }
}

/// `data` with the colour `c` stored at byte `base`.
pub open spec fn with_pixel(data: Seq<u8>, base: int, c: Color) -> Seq<u8> {
    data.update(base, c.blue).update(base + 1, c.green).update(base + 2, c.red).update(
        base + 3,
        c.alpha,
    )
}

impl Bitmap {
    /// Whether pixel `(x, y)` lies inside the pixel data, at an offset that fits a `u32`.
    pub open spec fn addressable(&self, x: i32, y: i32) -> bool {
        &&& 0 <= x
        &&& 0 <= y
        &&& pixel_offset(self.pitch, x as int, y as int) + 4 <= self.data@.len()
        &&& pixel_offset(self.pitch, x as int, y as int) + 4 <= u32::MAX
    }

    /// A transparent black bitmap of `width` by `height` pixels; an error when
    /// its size in bytes does not fit a `usize`.
    pub fn new(width: u32, height: u32) -> (r: Result<Bitmap, String>)
        ensures
            r is Ok <==> 4 * width <= u32::MAX && 4 * width * height <= usize::MAX,
            r matches Ok(b) ==> b.width == width && b.height == height && b.pitch as int == 4
                * width && b.data@ == Seq::new((4 * width * height) as nat, |i: int| 0u8),
    {
        let pitch: u64 = width as u64 * 4;
        if pitch > u32::MAX as u64 {
            return Err(String::from_str("bitmap too large"));
        }
        proof {
            assert(pitch * height <= 0xFFFF_FFFF * 0xFFFF_FFFF) by (nonlinear_arith)
                requires
                    pitch <= 0xFFFF_FFFF,
                    height <= 0xFFFF_FFFF,
            ;
        }
        let size: u128 = pitch as u128 * height as u128;
        if size > usize::MAX as u128 {
            return Err(String::from_str("bitmap too large"));
        }
        let data = vec![0u8; size as usize];
        assert(data@ =~= Seq::new((4 * width * height) as nat, |i: int| 0u8));
        Ok(Bitmap { data, width, height, pitch: pitch as u32 })
    }

    /// Stores `color` at pixel `(x, y)`.
    pub fn set_pixel(&mut self, x: i32, y: i32, color: &Color)
        requires
            old(self).addressable(x, y),
        ensures
            final(self).data@ == with_pixel(
                old(self).data@,
                pixel_offset(old(self).pitch, x as int, y as int),
                *color,
            ),
            final(self).width == old(self).width,
            final(self).height == old(self).height,
            final(self).pitch == old(self).pitch,
    {
        proof {
            assert(0 <= y * self.pitch <= y * self.pitch + x * 4) by (nonlinear_arith)
                requires
                    0 <= y,
                    0 <= x,
            ;
        }
        let base = (y as u32 * self.pitch + x as u32 * 4) as usize;
        self.data.set(base, color.blue);
        self.data.set(base + 1, color.green);
        self.data.set(base + 2, color.red);
        self.data.set(base + 3, color.alpha);
    }

    /// The colour at pixel `(x, y)`.
    pub fn get_pixel(&mut self, x: i32, y: i32) -> (r: Color)
        requires
            old(self).addressable(x, y),
        ensures
            r == pixel_at(old(self).data@, pixel_offset(old(self).pitch, x as int, y as int)),
            *final(self) == *old(self),
    {
        proof {
            assert(0 <= y * self.pitch <= y * self.pitch + x * 4) by (nonlinear_arith)
                requires
                    0 <= y,
                    0 <= x,
            ;
        }
        let base = (y as u32 * self.pitch + x as u32 * 4) as usize;
        Color {
            blue: self.data[base],
            green: self.data[base + 1],
            red: self.data[base + 2],
            alpha: self.data[base + 3],
        }
    }

    /// Draws `color` over pixel `(x, y)`: an opaque colour replaces it.
    pub fn blend_pixel(&mut self, x: i32, y: i32, color: &Color)
        requires
            old(self).addressable(x, y),
        ensures
            final(self).data@ == with_pixel(
                old(self).data@,
                pixel_offset(old(self).pitch, x as int, y as int),
                blend_spec(
                    pixel_at(old(self).data@, pixel_offset(old(self).pitch, x as int, y as int)),
                    *color,
                ),
            ),
            final(self).width == old(self).width,
            final(self).height == old(self).height,
            final(self).pitch == old(self).pitch,
    {
        if color.alpha == 255 {
            self.set_pixel(x, y, color);
        } else {
            let current = self.get_pixel(x, y);
            self.set_pixel(x, y, &current.blend(color));
        }
    }
}

} // verus!
