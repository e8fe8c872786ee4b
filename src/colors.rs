//! Colours with an alpha channel.
use vstd::prelude::*;

verus! {

/// A colour: alpha, red, green and blue channels.
#[derive(Copy, Clone, PartialEq, Eq, Debug, Structural)]
pub struct Color {
    pub a: u8,
    pub r: u8,
    pub g: u8,
    pub b: u8,
}

/// A channel scaled by three quarters, rounded to the nearest integer (halves up).
pub open spec fn three_quarters(c: u8) -> int {
    (3 * c + 2) / 4
}

impl Color {
    // The named colours of the palette.
    pub fn black() -> (res: Color)
        ensures
            res == (Color { a: 255, r: 0, g: 0, b: 0 }),
    {
        Color { a: 255, r: 0, g: 0, b: 0 }
    }

    pub fn darker_green() -> (res: Color)
        ensures
            res == (Color { a: 255, r: 0, g: 127, b: 0 }),
    {
        Color { a: 255, r: 0, g: 127, b: 0 }
    }

    pub fn yellow() -> (res: Color)
        ensures
            res == (Color { a: 255, r: 255, g: 255, b: 0 }),
    {
        Color { a: 255, r: 255, g: 255, b: 0 }
    }

    pub fn light_yellow() -> (res: Color)
        ensures
            res == (Color { a: 255, r: 255, g: 255, b: 127 }),
    {
        Color { a: 255, r: 255, g: 255, b: 127 }
    }

    pub fn desaturated_green() -> (res: Color)
        ensures
            res == (Color { a: 255, r: 63, g: 127, b: 63 }),
    {
        Color { a: 255, r: 63, g: 127, b: 63 }
    }

    pub fn dark_red() -> (res: Color)
        ensures
            res == (Color { a: 255, r: 191, g: 0, b: 0 }),
    {
        Color { a: 255, r: 191, g: 0, b: 0 }
    }

    pub fn white() -> (res: Color)
        ensures
            res == (Color { a: 255, r: 255, g: 255, b: 255 }),
    {
        Color { a: 255, r: 255, g: 255, b: 255 }
    }

    pub fn dark_grey() -> (res: Color)
        ensures
            res == (Color { a: 255, r: 0x22, g: 0x22, b: 0x22 }),
    {
        Color { a: 255, r: 0x22, g: 0x22, b: 0x22 }
    }

    pub fn magenta() -> (res: Color)
        ensures
            res == (Color { a: 255, r: 255, g: 0, b: 255 }),
    {
        Color { a: 255, r: 255, g: 0, b: 255 }
    }

    pub fn purple() -> (res: Color)
        ensures
            res == (Color { a: 255, r: 128, g: 0, b: 128 }),
    {
        Color { a: 255, r: 128, g: 0, b: 128 }
    }

    pub fn new(a: u8, r: u8, g: u8, b: u8) -> (res: Self)
        ensures
            res == (Color { a, r, g, b }),
    {
        Color { a, r, g, b }
    }

    /// Reads `0xAARRGGBB`.
    pub fn from_argb(argb: u32) -> (res: Self)
        ensures
            res.a == argb / 0x100_0000,
            res.r == (argb / 0x1_0000) % 0x100,
            res.g == (argb / 0x100) % 0x100,
            res.b == argb % 0x100,
    {
        let a = (argb >> 24) as u8;
        let r = (argb >> 16 & 0xff) as u8;
        let g = (argb >> 8 & 0xff) as u8;
        let b = (argb & 0xff) as u8;
        proof {
            assert(argb >> 24 == argb / 0x100_0000) by (bit_vector);
            assert(argb >> 16 & 0xff == (argb / 0x1_0000) % 0x100) by (bit_vector);
            assert(argb >> 8 & 0xff == (argb / 0x100) % 0x100) by (bit_vector);
            assert(argb & 0xff == argb % 0x100) by (bit_vector);
        }
        Color { a, r, g, b }
    }

    /// Reads `0xRRGGBB`, fully opaque; the top byte is ignored.
    pub fn from_rgb(rgb: u32) -> (res: Self)
        ensures
            res.a == 255,
            res.r == (rgb / 0x1_0000) % 0x100,
            res.g == (rgb / 0x100) % 0x100,
            res.b == rgb % 0x100,
    {
        let r = (rgb >> 16 & 0xff) as u8;
        let g = (rgb >> 8 & 0xff) as u8;
        let b = (rgb & 0xff) as u8;
        proof {
            assert(rgb >> 16 & 0xff == (rgb / 0x1_0000) % 0x100) by (bit_vector);
            assert(rgb >> 8 & 0xff == (rgb / 0x100) % 0x100) by (bit_vector);
            assert(rgb & 0xff == rgb % 0x100) by (bit_vector);
        }
        Color { a: 255, r, g, b }
    }

    /// The same colour with each of red, green and blue at three quarters, rounded.
    pub fn darker(self) -> (res: Self)
        ensures
            res.a == self.a,
            res.r == three_quarters(self.r),
            res.g == three_quarters(self.g),
            res.b == three_quarters(self.b),
    {
        Color {
            a: self.a,
            r: ((3 * self.r as u16 + 2) / 4) as u8,
            g: ((3 * self.g as u16 + 2) / 4) as u8,
            b: ((3 * self.b as u16 + 2) / 4) as u8,
        }
    }
}

} // verus!
