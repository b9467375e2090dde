use vstd::prelude::*;

verus! {

/// An 8-bit RGB color.
#[derive(Clone, Copy, Debug, PartialEq, Eq, Structural)]
pub struct Color {
    pub red: u8,
    pub green: u8,
    pub blue: u8,
}

/// The color used for points that carry none.
pub open spec fn white_color() -> Color {
    Color { red: 255, green: 255, blue: 255 }
}

impl Default for Color {
    fn default() -> (c: Self)
        ensures
            c == white_color(),
    {
        Self::white()
    }
}

impl Color {
    pub fn white() -> (c: Self)
        ensures
            c == white_color(),
    {
        Color { red: 255, green: 255, blue: 255 }
    }

    pub fn new(red: u8, green: u8, blue: u8) -> (c: Self)
        ensures
            c.red == red,
            c.green == green,
            c.blue == blue,
    {
        Self { red, green, blue }
    }

    pub fn r(&self) -> (v: u8)
        ensures
            v == self.red,
    {
        self.red
    }

    pub fn g(&self) -> (v: u8)
        ensures
            v == self.green,
    {
        self.green
    }

    pub fn b(&self) -> (v: u8)
        ensures
            v == self.blue,
    {
        self.blue
    }
}

} // verus!
