//! Bitmap fonts of 8 by 16 pixels.

use vstd::prelude::*;

verus! {

/// Width of a glyph in pixels.
pub const FONT_WIDTH: isize = 8;

/// Height of a glyph in pixels.
pub const FONT_HEIGHT: isize = 16;

/// Number of glyphs of a font: one for each character below U+0100.
pub const FONT_GLYPHS: usize = 256;

/// A font: for each character code sixteen rows, top row first. In a row,
/// bit 7 is the leftmost pixel and bit 0 the rightmost.
pub struct Font {
    pub glyphs: Vec<[u16; 16]>,
}

/// Whether pixel `bit` of a glyph row is set, counted from the left.
pub open spec fn row_bit(row: u16, bit: int) -> bool {
    0 <= bit < FONT_WIDTH && row & (1u16 << ((FONT_WIDTH - bit - 1) as u16)) != 0
}

impl Font {
    /// A font holds a glyph for every character code.
    pub open spec fn wf(self) -> bool {
        self.glyphs@.len() == FONT_GLYPHS
    }

    /// Whether the font has a glyph for `chara`.
    pub open spec fn has_glyph(chara: char) -> bool {
        (chara as u32) < FONT_GLYPHS
    }

    /// Whether the glyph of `chara` sets the pixel in column `bit` of row `line`.
    pub open spec fn lit(self, chara: char, bit: int, line: int) -> bool {
        &&& Self::has_glyph(chara)
        &&& 0 <= line < FONT_HEIGHT
        &&& row_bit(self.glyphs@[chara as u32 as int]@[line], bit)
    }

    /// Makes a font of `glyphs`, which must number `FONT_GLYPHS`.
    pub fn new(glyphs: Vec<[u16; 16]>) -> (font: Option<Font>)
        ensures
            font is Some <==> glyphs@.len() == FONT_GLYPHS,
            font matches Some(f) ==> f.wf() && f.glyphs == glyphs,
    {
        if glyphs.len() == FONT_GLYPHS {
            Some(Font { glyphs })
        } else {
            None
        }
    }

    /// The sixteen rows of the glyph of `chara`.
    pub fn glyph(&self, chara: char) -> (rows: [u16; 16])
        requires
            self.wf(),
            Self::has_glyph(chara),
        ensures
            rows == self.glyphs@[chara as u32 as int],
    {
        self.glyphs[chara as usize]
    }
}

/// Tests pixel `bit` of a glyph row, counted from the left.
pub fn row_bit_set(row: u16, bit: isize) -> (set: bool)
    requires
        0 <= bit < FONT_WIDTH,
    ensures
        set == row_bit(row, bit as int),
{
    row & (1u16 << ((FONT_WIDTH - bit - 1) as u16)) != 0
}

} // verus!
