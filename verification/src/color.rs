use vstd::prelude::*;

verus! {

/// An RGBA colour with 8 bits per channel.
#[derive(Clone, Copy, Debug, PartialEq, Eq, Structural)]
pub struct Color {
    pub r: u8,
    pub g: u8,
    pub b: u8,
    pub a: u8,
}

impl Color {
    /// The colour with the given channels.
    pub fn new(r: u8, g: u8, b: u8, a: u8) -> (c: Color)
        ensures
            c == (Color { r, g, b, a }),
    {
        Color { r, g, b, a }
    }

    /// Opaque white, (255, 255, 255, 255).
    pub fn white() -> (c: Color)
        ensures
            c == (Color { r: 255, g: 255, b: 255, a: 255 }),
    {
        Color { r: 255, g: 255, b: 255, a: 255 }
    }

    /// Opaque blue, (0, 0, 255, 255).
    pub fn blue() -> (c: Color)
        ensures
            c == (Color { r: 0, g: 0, b: 255, a: 255 }),
    {
        Color { r: 0, g: 0, b: 255, a: 255 }
    }

    /// Opaque green, (0, 128, 0, 255).
    pub fn green() -> (c: Color)
        ensures
            c == (Color { r: 0, g: 128, b: 0, a: 255 }),
    {
        Color { r: 0, g: 128, b: 0, a: 255 }
    }

    /// Opaque red, (255, 0, 0, 255).
    pub fn red() -> (c: Color)
        ensures
            c == (Color { r: 255, g: 0, b: 0, a: 255 }),
    {
        Color { r: 255, g: 0, b: 0, a: 255 }
    }

    /// Opaque yellow, (255, 255, 0, 255).
    pub fn yellow() -> (c: Color)
        ensures
            c == (Color { r: 255, g: 255, b: 0, a: 255 }),
    {
        Color { r: 255, g: 255, b: 0, a: 255 }
    }

    /// Opaque magenta, (255, 0, 255, 255).
    pub fn magenta() -> (c: Color)
        ensures
            c == (Color { r: 255, g: 0, b: 255, a: 255 }),
    {
        Color { r: 255, g: 0, b: 255, a: 255 }
    }
}

} // verus!
