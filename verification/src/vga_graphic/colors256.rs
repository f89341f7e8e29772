//! The colors that the kernel uses, out of the 256-color palette.

use vstd::prelude::*;

verus! {

/// A named entry of the 256-color palette.
#[derive(Debug, Clone, Copy, PartialEq, Eq, Hash, Structural)]
pub enum Color {
    Black,
    Blue,
    Green,
    Cyan,
    Red,
    Magenta,
    Brown,
    LightGrey,
    DarkBlue,
    LightBlue,
    LightGreen,
    Sky,
    WineRed,
    Purple,
    DullYellow,
    White,
}

impl Color {
    /// The palette index of the color.
    pub open spec fn spec_code(self) -> u8 {
        match self {
            Color::Black => 0x0,
            Color::Blue => 0x1,
            Color::Green => 0x2,
            Color::Cyan => 0x3,
            Color::Red => 0x4,
            Color::Magenta => 0x5,
            Color::Brown => 0x6,
            Color::LightGrey => 0x7,
            Color::DarkBlue => 0x8,
            Color::LightBlue => 0x9,
            Color::LightGreen => 0xA,
            Color::Sky => 0xB,
            Color::WineRed => 0xC,
            Color::Purple => 0xD,
            Color::DullYellow => 0xE,
            Color::White => 65,
        }
    }

    /// The palette index of the color.
    #[verifier::when_used_as_spec(spec_code)]
    pub fn code(self) -> (code: u8)
        ensures
            code == self.spec_code(),
    {
        match self {
            Color::Black => 0x0,
            Color::Blue => 0x1,
            Color::Green => 0x2,
            Color::Cyan => 0x3,
            Color::Red => 0x4,
            Color::Magenta => 0x5,
            Color::Brown => 0x6,
            Color::LightGrey => 0x7,
            Color::DarkBlue => 0x8,
            Color::LightBlue => 0x9,
            Color::LightGreen => 0xA,
            Color::Sky => 0xB,
            Color::WineRed => 0xC,
            Color::Purple => 0xD,
            Color::DullYellow => 0xE,
            Color::White => 65,
        }
    }
}

} // verus!
