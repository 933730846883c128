//! Drawing on pixel memory: 32-bit pixels, little-endian, in rows of `pitch`
//! bytes. A row may be longer than its pixels; the bytes past the last pixel
//! are never touched here.

use crate::font::{Font, FontView};
use vstd::prelude::*;

verus! {

/// Byte `k` of a colour as it lies in memory, lowest address first.
pub open spec fn color_byte(color: u32, k: int) -> u8 {
    if k == 0 {
        (color % 256) as u8
    } else if k == 1 {
        (color / 256 % 256) as u8
    } else if k == 2 {
        (color / 65536 % 256) as u8
    } else {
        (color / 16777216) as u8
    }
}

/// What a drawing does: the colour it gives to pixel (x, y), or `None` where it
/// leaves the pixel alone.
pub type Ink = spec_fn(int, int) -> Option<u32>;

/// Pixel memory after a drawing. Byte `i` belongs to row `i / pitch` and there
/// to pixel `i % pitch / 4`.
pub open spec fn inked(mem: Seq<u8>, pitch: int, ink: Ink) -> Seq<u8> {
    Seq::new(
        mem.len(),
        |i: int|
            match ink(i % pitch / 4, i / pitch) {
                Some(color) => color_byte(color, i % pitch % 4),
                None => mem[i],
            },
    )
}

/// One pixel.
pub open spec fn dot(x: int, y: int, color: u32) -> Ink {
    |px: int, py: int|
        if px == x && py == y {
            Some(color)
        } else {
            None
        }
}

/// A filled rectangle: columns x0 to x1 and rows y0 to y1, both without the end.
pub open spec fn block(x0: int, y0: int, x1: int, y1: int, color: u32) -> Ink {
    |px: int, py: int|
        if x0 <= px < x1 && y0 <= py < y1 {
            Some(color)
        } else {
            None
        }
}

/// A glyph with its top left corner at (x, y): ink in `fg`, the rest of the cell
/// in `bg`.
pub open spec fn stamp(font: FontView, ch: u8, x: int, y: int, fg: u32, bg: u32) -> Ink {
    |px: int, py: int|
        if x <= px < x + font.width && y <= py < y + font.height {
            Some(
                if font.lit(ch, px - x, py - y) {
                    fg
                } else {
                    bg
                },
            )
        } else {
            None
        }
}

/// Whether pixels left of `x1` and above `y1` lie inside the memory.
pub open spec fn in_bounds(len: nat, pitch: int, x1: int, y1: int) -> bool {
    &&& 0 < pitch
    &&& 4 * x1 <= pitch
    &&& y1 * pitch <= len
}

/// The four bytes of pixel (x, y) are exactly those that row and column name.
proof fn lemma_pixel_bytes(pitch: int, x: int, y: int, i: int)
    requires
        0 <= x,
        0 <= y,
        4 * x + 4 <= pitch,
        0 <= i,
    ensures
        (y * pitch + 4 * x <= i < y * pitch + 4 * x + 4) <==> (i / pitch == y && i % pitch / 4 == x),
        y * pitch + 4 * x <= i < y * pitch + 4 * x + 4 ==> i % pitch % 4 == i - (y * pitch + 4 * x),
{
    let off = y * pitch + 4 * x;
    vstd::arithmetic::div_mod::lemma_fundamental_div_mod(i, pitch);
    vstd::arithmetic::div_mod::lemma_mod_bound(i, pitch);
    if off <= i < off + 4 {
        vstd::arithmetic::div_mod::lemma_fundamental_div_mod_converse(
            i,
            pitch,
            y,
            i - y * pitch,
        );
    }
    if i / pitch == y && i % pitch / 4 == x {
        assert(pitch * (i / pitch) == y * pitch) by (nonlinear_arith)
            requires
                i / pitch == y,
        ;
    }
}

/// Where pixel (x, y) lies, for pixels inside the memory.
proof fn lemma_offset(len: nat, pitch: int, x: int, y: int, x1: int, y1: int)
    requires
        in_bounds(len, pitch, x1, y1),
        0 <= x < x1,
        0 <= y < y1,
    ensures
        0 <= y * pitch,
        y * pitch + 4 * x + 4 <= len,
{
    assert(0 <= y * pitch && y * pitch + pitch <= y1 * pitch) by (nonlinear_arith)
        requires
            0 <= y < y1,
            0 < pitch,
    ;
}

/// Sets pixel (x, y).
pub fn put_pixel(mem: &mut [u8], pitch: usize, x: usize, y: usize, color: u32)
    requires
        in_bounds(old(mem)@.len(), pitch as int, x + 1, y + 1),
    ensures
        final(mem)@ == inked(old(mem)@, pitch as int, dot(x as int, y as int, color)),
{
    proof {
        lemma_offset(mem@.len(), pitch as int, x as int, y as int, x + 1, y + 1);
        assert(mem.len() == mem@.len());
    }
    let off: usize = y * pitch + x * 4;
    mem[off] = (color % 256) as u8;
    mem[off + 1] = (color / 256 % 256) as u8;
    mem[off + 2] = (color / 65536 % 256) as u8;
    mem[off + 3] = (color / 16777216) as u8;
    proof {
        let after = inked(old(mem)@, pitch as int, dot(x as int, y as int, color));
        assert forall|i: int| 0 <= i < mem@.len() implies mem@[i] == after[i] by {
            lemma_pixel_bytes(pitch as int, x as int, y as int, i);
        }
        assert(mem@ =~= after);
    }
}

/// Fills columns x0 to x1 of rows y0 to y1, both without the end.
pub fn fill_rect(mem: &mut [u8], pitch: usize, x0: usize, y0: usize, x1: usize, y1: usize, color: u32)
    requires
        in_bounds(old(mem)@.len(), pitch as int, x1 as int, y1 as int),
        x0 <= x1,
        y0 <= y1,
    ensures
        final(mem)@ == inked(
            old(mem)@,
            pitch as int,
            block(x0 as int, y0 as int, x1 as int, y1 as int, color),
        ),
{
    let ghost start = mem@;
    let ghost p = pitch as int;
    let mut y: usize = y0;
    assert(mem@ =~= inked(start, p, block(x0 as int, y0 as int, x1 as int, y as int, color)));
    while y < y1
        invariant
            p == pitch,
            mem@.len() == start.len(),
            in_bounds(start.len(), p, x1 as int, y1 as int),
            x0 <= x1,
            y0 <= y <= y1,
            mem@ == inked(start, p, block(x0 as int, y0 as int, x1 as int, y as int, color)),
        decreases y1 - y,
    {
        let ghost above = mem@;
        let mut x: usize = x0;
        assert(mem@ =~= inked(above, p, block(x0 as int, y as int, x as int, y + 1, color)));
        while x < x1
            invariant
                p == pitch,
                mem@.len() == start.len(),
                above.len() == start.len(),
                in_bounds(start.len(), p, x1 as int, y1 as int),
                x0 <= x <= x1,
                y0 <= y < y1,
                mem@ == inked(above, p, block(x0 as int, y as int, x as int, y + 1, color)),
            decreases x1 - x,
        {
            proof {
                lemma_offset(mem@.len(), p, x as int, y as int, x1 as int, y1 as int);
                assert((y + 1) * p <= y1 * p) by (nonlinear_arith)
                    requires
                        y < y1,
                        0 < p,
                ;
            }
            put_pixel(mem, pitch, x, y, color);
            x = x + 1;
            assert(mem@ =~= inked(above, p, block(x0 as int, y as int, x as int, y + 1, color)));
        }
        y = y + 1;
        assert(mem@ =~= inked(start, p, block(x0 as int, y0 as int, x1 as int, y as int, color)));
    }
}

/// Draws glyph `ch` with its top left corner at (x, y).
pub fn draw_glyph(
    mem: &mut [u8],
    pitch: usize,
    font: &Font,
    ch: u8,
    x: usize,
    y: usize,
    fg: u32,
    bg: u32,
)
    requires
        font@.wf(),
        ch < crate::font::GLYPH_COUNT,
        in_bounds(old(mem)@.len(), pitch as int, x + font.width, y + font.height),
    ensures
        final(mem)@ == inked(
            old(mem)@,
            pitch as int,
            stamp(font@, ch, x as int, y as int, fg, bg),
        ),
{
    let ghost start = mem@;
    let ghost p = pitch as int;
    let ghost whole = stamp(font@, ch, x as int, y as int, fg, bg);
    let mut dy: usize = 0;
    assert(mem@ =~= inked(start, p, clipped(whole, x + font.width, y + dy)));
    while dy < font.height
        invariant
            p == pitch,
            font@.wf(),
            ch < crate::font::GLYPH_COUNT,
            mem@.len() == start.len(),
            in_bounds(start.len(), p, x + font.width, y + font.height),
            dy <= font.height,
            whole == stamp(font@, ch, x as int, y as int, fg, bg),
            mem@ == inked(start, p, clipped(whole, x + font.width, y + dy)),
        decreases font.height - dy,
    {
        let ghost above = mem@;
        let mut dx: usize = 0;
        assert(mem@ =~= inked(above, p, row_of(whole, x + dx, y + dy)));
        while dx < font.width
            invariant
                p == pitch,
                font@.wf(),
                ch < crate::font::GLYPH_COUNT,
                mem@.len() == start.len(),
                above.len() == start.len(),
                in_bounds(start.len(), p, x + font.width, y + font.height),
                dy < font.height,
                dx <= font.width,
                whole == stamp(font@, ch, x as int, y as int, fg, bg),
                mem@ == inked(above, p, row_of(whole, x + dx, y + dy)),
            decreases font.width - dx,
        {
            proof {
                lemma_offset(mem@.len(), p, x + dx, y + dy, x + font.width, y + font.height);
                assert((y + dy + 1) * p <= (y + font.height) * p) by (nonlinear_arith)
                    requires
                        dy < font.height,
                        0 < p,
                ;
                assert(mem.len() == mem@.len());
                assert(y + dy <= (y + dy) * p) by (nonlinear_arith)
                    requires
                        0 < p,
                        0 <= y + dy,
                ;
            }
            let color: u32 = if font.lit(ch, dx, dy) {
                fg
            } else {
                bg
            };
            put_pixel(mem, pitch, x + dx, y + dy, color);
            dx = dx + 1;
            assert(mem@ =~= inked(above, p, row_of(whole, x + dx, y + dy)));
        }
        dy = dy + 1;
        assert(mem@ =~= inked(start, p, clipped(whole, x + font.width, y + dy)));
    }
    assert(mem@ =~= inked(start, p, whole));
}

/// A line of text with its top left corner at (x, y), glyph after glyph.
pub open spec fn caption(font: FontView, s: Seq<u8>, x: int, y: int, fg: u32, bg: u32) -> Ink {
    |px: int, py: int|
        if x <= px < x + s.len() * font.width && y <= py < y + font.height {
            Some(
                if font.lit(s[(px - x) / font.width], (px - x) % font.width, py - y) {
                    fg
                } else {
                    bg
                },
            )
        } else {
            None
        }
}

/// A line of text and one glyph more are the longer line.
proof fn lemma_caption_grows(
    mem: Seq<u8>,
    pitch: int,
    font: FontView,
    s: Seq<u8>,
    n: int,
    x: int,
    y: int,
    fg: u32,
    bg: u32,
)
    requires
        font.wf(),
        0 <= n < s.len(),
        0 < pitch,
    ensures
        inked(
            inked(mem, pitch, caption(font, s.take(n), x, y, fg, bg)),
            pitch,
            stamp(font, s[n], x + n * font.width, y, fg, bg),
        ) == inked(mem, pitch, caption(font, s.take(n + 1), x, y, fg, bg)),
{
    let w = font.width;
    let short = caption(font, s.take(n), x, y, fg, bg);
    let glyph = stamp(font, s[n], x + n * w, y, fg, bg);
    let long = caption(font, s.take(n + 1), x, y, fg, bg);
    assert((n + 1) * w == n * w + w) by (nonlinear_arith);
    assert forall|px: int, py: int|
        #![trigger long(px, py)]
        long(px, py) == (match glyph(px, py) {
            Some(c) => Some(c),
            None => short(px, py),
        }) by {
        let d = px - x;
        if n * w <= d < n * w + w {
            vstd::arithmetic::div_mod::lemma_fundamental_div_mod_converse(d, w, n, d - n * w);
        } else if 0 <= d < n * w {
            assert(0 <= d / w < n) by (nonlinear_arith)
                requires
                    0 <= d < n * w,
                    1 <= w,
            ;
        } else if d < 0 {
            assert(0 <= n * w) by (nonlinear_arith)
                requires
                    0 <= n,
                    1 <= w,
            ;
        }
    }
    let a = inked(inked(mem, pitch, short), pitch, glyph);
    let b = inked(mem, pitch, long);
    assert forall|i: int| 0 <= i < mem.len() implies a[i] == b[i] by {
        let px = i % pitch / 4;
        let py = i / pitch;
        assert(long(px, py) == (match glyph(px, py) {
            Some(c) => Some(c),
            None => short(px, py),
        }));
    }
    assert(a =~= b);
}

/// Draws a line of text with its top left corner at (x, y).
pub fn draw_text(
    mem: &mut [u8],
    pitch: usize,
    font: &Font,
    s: &[u8],
    x: usize,
    y: usize,
    fg: u32,
    bg: u32,
)
    requires
        font@.wf(),
        forall|i: int| 0 <= i < s@.len() ==> #[trigger] s@[i] < crate::font::GLYPH_COUNT,
        in_bounds(old(mem)@.len(), pitch as int, x + s@.len() * font.width, y + font.height),
    ensures
        final(mem)@ == inked(
            old(mem)@,
            pitch as int,
            caption(font@, s@, x as int, y as int, fg, bg),
        ),
{
    let ghost start = mem@;
    let ghost p = pitch as int;
    let mut i: usize = 0;
    assert(mem@ =~= inked(start, p, caption(font@, s@.take(0), x as int, y as int, fg, bg)));
    while i < s.len()
        invariant
            p == pitch,
            font@.wf(),
            forall|i: int| 0 <= i < s@.len() ==> #[trigger] s@[i] < crate::font::GLYPH_COUNT,
            mem@.len() == start.len(),
            in_bounds(start.len(), p, x + s@.len() * font.width, y + font.height),
            i <= s@.len(),
            mem@ == inked(start, p, caption(font@, s@.take(i as int), x as int, y as int, fg, bg)),
        decreases s@.len() - i,
    {
        proof {
            assert(0 <= i * font.width && i * font.width + font.width <= s@.len() * font.width)
                by (nonlinear_arith)
                requires
                    0 <= i < s@.len(),
                    0 <= font.width,
            ;
            lemma_caption_grows(
                start,
                p,
                font@,
                s@,
                i as int,
                x as int,
                y as int,
                fg,
                bg,
            );
        }
        draw_glyph(mem, pitch, font, s[i], x + i * font.width, y, fg, bg);
        i = i + 1;
    }
    assert(s@.take(i as int) =~= s@);
}

/// The part of a drawing left of `x1` and above `y1`.
spec fn clipped(ink: Ink, x1: int, y1: int) -> Ink {
    |px: int, py: int|
        if px < x1 && py < y1 {
            ink(px, py)
        } else {
            None
        }
}

/// The part of a drawing in row `y`, left of `x1`.
spec fn row_of(ink: Ink, x1: int, y: int) -> Ink {
    |px: int, py: int|
        if px < x1 && py == y {
            ink(px, py)
        } else {
            None
        }
}

/// The pixel that stands at (x, y) in memory, its four bytes read lowest first.
pub open spec fn pixel_at(mem: Seq<u8>, pitch: int, x: int, y: int) -> int {
    let i = y * pitch + 4 * x;
    mem[i] + mem[i + 1] * 0x100 + mem[i + 2] * 0x1_0000 + mem[i + 3] * 0x100_0000
}

/// Where a drawing puts a colour, reading the pixel gives that colour; where it
/// puts none, the pixel is as it was.
pub proof fn lemma_ink_reads_back(mem: Seq<u8>, pitch: int, ink: Ink, x: int, y: int)
    requires
        0 <= x,
        0 <= y,
        4 * x + 4 <= pitch,
        y * pitch + 4 * x + 4 <= mem.len(),
    ensures
        pixel_at(inked(mem, pitch, ink), pitch, x, y) == match ink(x, y) {
            Some(color) => color as int,
            None => pixel_at(mem, pitch, x, y),
        },
{
    let i = y * pitch + 4 * x;
    assert(0 <= y * pitch) by (nonlinear_arith)
        requires
            0 <= y,
            0 <= pitch,
    ;
    lemma_pixel_bytes(pitch, x, y, i);
    lemma_pixel_bytes(pitch, x, y, i + 1);
    lemma_pixel_bytes(pitch, x, y, i + 2);
    lemma_pixel_bytes(pitch, x, y, i + 3);
    if let Some(color) = ink(x, y) {
        assert(color == color % 256 + color / 256 % 256 * 256 + color / 65536 % 256 * 65536 + color
            / 16777216 * 16777216);
    }
}

/// What a filled rectangle is: every pixel inside has its colour, and every byte
/// that belongs to no pixel inside is as it was.
pub proof fn lemma_rectangle_reads_back(
    mem: Seq<u8>,
    pitch: int,
    x0: int,
    y0: int,
    x1: int,
    y1: int,
    color: u32,
    x: int,
    y: int,
    i: int,
)
    requires
        0 <= x,
        0 <= y,
        4 * x + 4 <= pitch,
        y * pitch + 4 * x + 4 <= mem.len(),
        0 <= i < mem.len(),
    ensures
        inked(mem, pitch, block(x0, y0, x1, y1, color)).len() == mem.len(),
        x0 <= x < x1 && y0 <= y < y1 ==> pixel_at(
            inked(mem, pitch, block(x0, y0, x1, y1, color)),
            pitch,
            x,
            y,
        ) == color,
        x0 <= x < x1 && y0 <= y < y1 ==> ({
            let m = inked(mem, pitch, block(x0, y0, x1, y1, color));
            let at = y * pitch + 4 * x;
            &&& m[at] == color % 256
            &&& m[at + 1] == color / 256 % 256
            &&& m[at + 2] == color / 65536 % 256
            &&& m[at + 3] == color / 16777216
        }),
        !(y0 <= i / pitch < y1 && 4 * x0 <= i % pitch < 4 * x1) ==> inked(
            mem,
            pitch,
            block(x0, y0, x1, y1, color),
        )[i] == mem[i],
{
    let at = y * pitch + 4 * x;
    assert(0 <= y * pitch) by (nonlinear_arith)
        requires
            0 <= y,
            0 <= pitch,
    ;
    lemma_ink_reads_back(mem, pitch, block(x0, y0, x1, y1, color), x, y);
    lemma_pixel_bytes(pitch, x, y, at);
    lemma_pixel_bytes(pitch, x, y, at + 1);
    lemma_pixel_bytes(pitch, x, y, at + 2);
    lemma_pixel_bytes(pitch, x, y, at + 3);
}

/// What a glyph is: inside its box a pixel has the one colour where the font has
/// ink and the other where it has none, and every byte outside is as it was.
pub proof fn lemma_glyph_reads_back(
    mem: Seq<u8>,
    pitch: int,
    font: FontView,
    ch: u8,
    x: int,
    y: int,
    fg: u32,
    bg: u32,
    dx: int,
    dy: int,
    i: int,
)
    requires
        0 <= x,
        0 <= y,
        0 <= dx < font.width,
        0 <= dy < font.height,
        4 * (x + dx) + 4 <= pitch,
        (y + dy) * pitch + 4 * (x + dx) + 4 <= mem.len(),
        0 <= i < mem.len(),
    ensures
        inked(mem, pitch, stamp(font, ch, x, y, fg, bg)).len() == mem.len(),
        font.lit(ch, dx, dy) ==> pixel_at(
            inked(mem, pitch, stamp(font, ch, x, y, fg, bg)),
            pitch,
            x + dx,
            y + dy,
        ) == fg,
        !font.lit(ch, dx, dy) ==> pixel_at(
            inked(mem, pitch, stamp(font, ch, x, y, fg, bg)),
            pitch,
            x + dx,
            y + dy,
        ) == bg,
        !(y <= i / pitch < y + font.height && 4 * x <= i % pitch < 4 * (x + font.width)) ==> inked(
            mem,
            pitch,
            stamp(font, ch, x, y, fg, bg),
        )[i] == mem[i],
{
    lemma_ink_reads_back(mem, pitch, stamp(font, ch, x, y, fg, bg), x + dx, y + dy);
}

/// What a line of text is: one glyph after the other, each as wide as the font, and
/// nothing else.
pub proof fn lemma_text_is_its_glyphs(
    mem: Seq<u8>,
    pitch: int,
    font: FontView,
    s: Seq<u8>,
    b: u8,
    x: int,
    y: int,
    fg: u32,
    bg: u32,
)
    requires
        font.wf(),
        0 < pitch,
    ensures
        inked(mem, pitch, caption(font, Seq::empty(), x, y, fg, bg)) == mem,
        inked(mem, pitch, caption(font, s.push(b), x, y, fg, bg)) == inked(
            inked(mem, pitch, caption(font, s, x, y, fg, bg)),
            pitch,
            stamp(font, b, x + s.len() * font.width, y, fg, bg),
        ),
{
    assert(inked(mem, pitch, caption(font, Seq::empty(), x, y, fg, bg)) =~= mem);
    lemma_caption_grows(mem, pitch, font, s.push(b), s.len() as int, x, y, fg, bg);
    assert(s.push(b).take(s.len() as int) =~= s);
    assert(s.push(b).take((s.len() + 1) as int) =~= s.push(b));
}

} // verus!
