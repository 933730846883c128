//! Bitmap fonts: one byte per glyph row, the highest bit leftmost.

use vstd::prelude::*;

verus! {

/// How many glyphs a font holds at least: one for each ASCII code.
pub const GLYPH_COUNT: usize = 128;

/// A fixed-size bitmap font. The rows of glyph `ch` are the `height` bytes that
/// start at `ch * height`.
#[derive(Clone, Copy)]
pub struct Font<'a> {
    pub width: usize,
    pub height: usize,
    pub rows: &'a [u8],
}

/// A font as a value: the size of a glyph and the rows of all glyphs.
pub struct FontView {
    pub width: int,
    pub height: int,
    pub rows: Seq<u8>,
}

impl FontView {
    /// A glyph is one to eight pixels wide, at least one high, and every ASCII
    /// code has one.
    pub open spec fn wf(self) -> bool {
        &&& 1 <= self.width <= 8
        &&& 1 <= self.height
        &&& GLYPH_COUNT * self.height <= self.rows.len()
    }

    /// Whether glyph `ch` has ink `dx` pixels from its left edge in row `dy`.
    pub open spec fn lit(self, ch: u8, dx: int, dy: int) -> bool {
        self.rows[ch * self.height + dy] & (0x80u8 >> dx) != 0
    }
}

impl<'a> View for Font<'a> {
    type V = FontView;

    open spec fn view(&self) -> FontView {
        FontView { width: self.width as int, height: self.height as int, rows: self.rows@ }
    }
}

impl<'a> Font<'a> {
    /// Whether glyph `ch` has ink at (`dx`, `dy`).
    pub fn lit(&self, ch: u8, dx: usize, dy: usize) -> (ink: bool)
        requires
            self@.wf(),
            ch < GLYPH_COUNT,
            dx < self.width,
            dy < self.height,
        ensures
            ink == self@.lit(ch, dx as int, dy as int),
    {
        proof {
            assert(ch * self.height + self.height <= GLYPH_COUNT * self.height) by (nonlinear_arith)
                requires
                    ch < GLYPH_COUNT,
                    self.height >= 0,
            ;
            assert(self.rows.len() == self.rows@.len());
        }
        let row: u8 = self.rows[ch as usize * self.height + dy];
        row & (0x80u8 >> dx) != 0
    }
}

/// A pixel has ink exactly if its bit is set in the glyph's row, the leftmost pixel
/// being the highest bit of the byte.
pub proof fn lemma_ink_is_a_bit(font: FontView, ch: u8, dx: u8, dy: int)
    requires
        dx < 8,
    ensures
        font.lit(ch, dx as int, dy) <==> (font.rows[ch * font.height + dy] >> ((7 - dx) as u8)) & 1
            == 1,
{
    let r = font.rows[ch * font.height + dy];
    assert((r & (0x80u8 >> dx) != 0) == ((r >> ((7 - dx) as u8)) & 1 == 1)) by (bit_vector)
        requires
            dx < 8,
    ;
}

/// Which fonts can be drawn: glyphs of one to eight pixels a row, at least one row,
/// and 128 of them.
pub proof fn lemma_drawable_fonts(font: FontView)
    ensures
        font.wf() <==> 0 < font.width < 9 && 0 < font.height && font.rows.len() >= 128
            * font.height,
{
}

} // verus!
