//! A text console on a framebuffer: glyphs in a grid of cells, a cursor, line
//! wrap and scrolling.

use crate::boot::Framebuffer;
use crate::canvas::{draw_glyph, fill_rect};
#[allow(unused_imports)]
use crate::canvas::{block, color_byte, in_bounds, inked, stamp};
use crate::font::Font;
#[allow(unused_imports)]
use crate::font::FontView;
use vstd::prelude::*;
#[allow(unused_imports)]
use vstd::string::StringSliceAdditionalSpecFns;

verus! {

/// A console: the screen's memory and measures, the cursor, the colours and the
/// font. `cols` and `rows` count cells, `width` and `height` pixels, `pitch` the
/// bytes of a pixel row.
pub struct Console<'a> {
    pub base: &'a mut [u8],
    pub width: usize,
    pub height: usize,
    pub pitch: usize,
    pub cols: usize,
    pub rows: usize,
    pub col: usize,
    pub row: usize,
    pub fg: u32,
    pub bg: u32,
    pub font: Font<'a>,
}

/// A console as a value.
#[verifier::ext_equal]
pub struct ConsoleView {
    pub mem: Seq<u8>,
    pub width: int,
    pub height: int,
    pub pitch: int,
    pub cols: int,
    pub rows: int,
    pub col: int,
    pub row: int,
    pub fg: u32,
    pub bg: u32,
    pub font: FontView,
}

impl<'a> View for Console<'a> {
    type V = ConsoleView;

    open spec fn view(&self) -> ConsoleView {
        ConsoleView {
            mem: self.base@,
            width: self.width as int,
            height: self.height as int,
            pitch: self.pitch as int,
            cols: self.cols as int,
            rows: self.rows as int,
            col: self.col as int,
            row: self.row as int,
            fg: self.fg,
            bg: self.bg,
            font: self.font@,
        }
    }
}

impl ConsoleView {
    /// The memory holds the whole screen, the screen holds at least one cell, and
    /// the grid covers all whole cells of it.
    pub open spec fn screen_wf(self) -> bool {
        &&& self.font.wf()
        &&& 0 < self.pitch
        &&& 0 <= self.height
        &&& 0 <= self.width
        &&& 4 * self.width <= self.pitch
        &&& self.mem.len() == self.pitch * self.height
        &&& self.cols == self.width / self.font.width
        &&& self.rows == self.height / self.font.height
        &&& 1 <= self.cols
        &&& 1 <= self.rows
    }

    /// In addition the cursor stands on a cell.
    pub open spec fn wf(self) -> bool {
        &&& self.screen_wf()
        &&& 0 <= self.col < self.cols
        &&& 0 <= self.row < self.rows
    }

    /// Bytes in the pixel rows of one row of cells.
    pub open spec fn row_bytes(self) -> int {
        self.font.height * self.pitch
    }

    /// The whole screen in the background colour.
    pub open spec fn cleared(self) -> ConsoleView {
        ConsoleView {
            mem: inked(self.mem, self.pitch, block(0, 0, self.width, self.height, self.bg)),
            ..self
        }
    }

    /// A glyph in one cell.
    pub open spec fn drawn(self, col: int, row: int, ch: u8) -> ConsoleView {
        ConsoleView {
            mem: inked(
                self.mem,
                self.pitch,
                stamp(
                    self.font,
                    ch,
                    col * self.font.width,
                    row * self.font.height,
                    self.fg,
                    self.bg,
                ),
            ),
            ..self
        }
    }

    /// One row of cells in the background colour, over the whole width.
    pub open spec fn row_cleared(self, row: int) -> ConsoleView {
        ConsoleView {
            mem: inked(
                self.mem,
                self.pitch,
                block(
                    0,
                    row * self.font.height,
                    self.width,
                    (row + 1) * self.font.height,
                    self.bg,
                ),
            ),
            ..self
        }
    }

    /// Every row of cells where the next one was, the last one still there too.
    pub open spec fn shifted(self) -> ConsoleView {
        let moved = (self.rows - 1) * self.row_bytes();
        ConsoleView {
            mem: Seq::new(
                self.mem.len(),
                |i: int|
                    if i < moved {
                        self.mem[i + self.row_bytes()]
                    } else {
                        self.mem[i]
                    },
            ),
            ..self
        }
    }

    /// The text one line up, the last line empty.
    pub open spec fn scrolled(self) -> ConsoleView {
        self.shifted().row_cleared(self.rows - 1)
    }

    /// The cursor at the start of the next line, the text scrolled if there is no
    /// next line.
    pub open spec fn line_fed(self) -> ConsoleView {
        let home = ConsoleView { col: 0, ..self };
        if self.row + 1 < self.rows {
            ConsoleView { row: self.row + 1, ..home }
        } else {
            home.scrolled()
        }
    }

    /// The cursor one cell back and that cell blank; at the start of a line
    /// nothing happens.
    pub open spec fn stepped_back(self) -> ConsoleView {
        if self.col > 0 {
            ConsoleView { col: self.col - 1, ..self }.drawn(self.col - 1, self.row, 0x20)
        } else {
            self
        }
    }

    /// What a byte does: a line feed or a backspace acts, a printable character
    /// is drawn and moves the cursor on, any other byte does nothing.
    pub open spec fn put(self, b: u8) -> ConsoleView {
        if b == 0x0A {
            self.line_fed()
        } else if b == 0x08 {
            self.stepped_back()
        } else if 0x20 <= b <= 0x7E {
            let next = ConsoleView { col: self.col + 1, ..self.drawn(self.col, self.row, b) };
            if next.col >= next.cols {
                next.line_fed()
            } else {
                next
            }
        } else {
            self
        }
    }

    /// What a text does: its bytes in order.
    pub open spec fn written(self, s: Seq<u8>) -> ConsoleView
        decreases s.len(),
    {
        if s.len() == 0 {
            self
        } else {
            self.written(s.drop_last()).put(s.last())
        }
    }
}

/// Whether a framebuffer of this shape, with this much memory, carries a console
/// in the given font.
pub open spec fn fits(fb: &Framebuffer, len: nat, font: FontView) -> bool {
    &&& font.wf()
    &&& 0 < fb.pitch
    &&& 4 * fb.width <= fb.pitch
    &&& len == fb.pitch * fb.height
    &&& font.width <= fb.width
    &&& font.height <= fb.height
}

/// A cell of the grid lies on the screen.
proof fn lemma_cell(c: ConsoleView, col: int, row: int)
    requires
        c.screen_wf(),
        0 <= col < c.cols,
        0 <= row < c.rows,
    ensures
        0 <= col * c.font.width,
        0 <= row * c.font.height,
        col * c.font.width + c.font.width <= c.width,
        (row + 1) * c.font.height == row * c.font.height + c.font.height,
        row * c.font.height + c.font.height <= c.height,
        in_bounds(
            c.mem.len(),
            c.pitch,
            col * c.font.width + c.font.width,
            row * c.font.height + c.font.height,
        ),
{
    let fw = c.font.width;
    let fh = c.font.height;
    vstd::arithmetic::div_mod::lemma_fundamental_div_mod(c.width, fw);
    vstd::arithmetic::div_mod::lemma_fundamental_div_mod(c.height, fh);
    assert(0 <= col * fw && col * fw + fw <= fw * c.cols) by (nonlinear_arith)
        requires
            0 <= col < c.cols,
            1 <= fw,
    ;
    assert(0 <= row * fh && row * fh + fh <= fh * c.rows && (row + 1) * fh == row * fh + fh)
        by (nonlinear_arith)
        requires
            0 <= row < c.rows,
            1 <= fh,
    ;
    assert((row * fh + fh) * c.pitch <= c.height * c.pitch) by (nonlinear_arith)
        requires
            row * fh + fh <= c.height,
            0 < c.pitch,
    ;
    assert(c.height * c.pitch == c.pitch * c.height) by (nonlinear_arith);
}

/// The rows of cells lie inside the memory.
proof fn lemma_rows(c: ConsoleView)
    requires
        c.screen_wf(),
    ensures
        0 < c.row_bytes(),
        0 <= (c.rows - 1) * c.row_bytes(),
        (c.rows - 1) * c.row_bytes() + c.row_bytes() <= c.mem.len(),
{
    let rb = c.row_bytes();
    let fh = c.font.height;
    vstd::arithmetic::div_mod::lemma_fundamental_div_mod(c.height, fh);
    assert(0 < rb) by (nonlinear_arith)
        requires
            rb == fh * c.pitch,
            1 <= fh,
            0 < c.pitch,
    ;
    assert(0 <= (c.rows - 1) * rb) by (nonlinear_arith)
        requires
            1 <= c.rows,
            0 < rb,
    ;
    assert((c.rows - 1) * rb + rb <= c.pitch * c.height) by (nonlinear_arith)
        requires
            rb == fh * c.pitch,
            fh * c.rows <= c.height,
            0 < c.pitch,
            1 <= fh,
    ;
}

/// Bytes keep a console well-formed: its measures stay and the cursor stays on
/// the grid.
pub proof fn lemma_put_wf(c: ConsoleView, b: u8)
    requires
        c.wf(),
    ensures
        c.put(b).wf(),
        c.put(b).mem.len() == c.mem.len(),
        c.put(b).width == c.width && c.put(b).height == c.height && c.put(b).pitch == c.pitch,
{
}

/// A text keeps a console well-formed.
pub proof fn lemma_written_wf(c: ConsoleView, s: Seq<u8>)
    requires
        c.wf(),
    ensures
        c.written(s).wf(),
        c.written(s).mem.len() == c.mem.len(),
        c.written(s).width == c.width && c.written(s).height == c.height && c.written(s).pitch
            == c.pitch,
    decreases s.len(),
{
    if s.len() > 0 {
        lemma_written_wf(c, s.drop_last());
        lemma_put_wf(c.written(s.drop_last()), s.last());
    }
}

/// Writing two texts one after the other is writing them joined.
pub proof fn lemma_written_joins(c: ConsoleView, s: Seq<u8>, t: Seq<u8>)
    ensures
        c.written(s).written(t) == c.written(s + t),
    decreases t.len(),
{
    if t.len() == 0 {
        assert(s + t =~= s);
    } else {
        assert((s + t).drop_last() =~= s + t.drop_last());
        lemma_written_joins(c, s, t.drop_last());
    }
}

impl<'a> Console<'a> {
    /// A console over a screen's memory, white on black, the cursor in the corner.
    pub fn new(fb: &Framebuffer, memory: &'a mut [u8], font: Font<'a>) -> (console: Self)
        requires
            fb.width <= usize::MAX,
            fb.height <= usize::MAX,
            fb.pitch <= usize::MAX,
            0 < font.width,
            0 < font.height,
        ensures
            console.base@ == old(memory)@,
            console.width == fb.width,
            console.height == fb.height,
            console.pitch == fb.pitch,
            console.cols == fb.width as int / font.width as int,
            console.rows == fb.height as int / font.height as int,
            console.col == 0,
            console.row == 0,
            console.fg == 0x00FFFFFF,
            console.bg == 0x00000000,
            console.font == font,
            fits(fb, old(memory)@.len(), font@) ==> console@.wf(),
    {
        proof {
            if fits(fb, memory@.len(), font@) {
                vstd::arithmetic::div_mod::lemma_div_non_zero(fb.width as int, font.width as int);
                vstd::arithmetic::div_mod::lemma_div_non_zero(fb.height as int, font.height as int);
            }
        }
        Console {
            base: memory,
            width: fb.width as usize,
            height: fb.height as usize,
            pitch: fb.pitch as usize,
            cols: fb.width as usize / font.width,
            rows: fb.height as usize / font.height,
            col: 0,
            row: 0,
            fg: 0x00FFFFFF,
            bg: 0x00000000,
            font,
        }
    }

    /// Paints the whole screen in the background colour.
    pub fn clear(&mut self)
        requires
            in_bounds(
                old(self).base@.len(),
                old(self).pitch as int,
                old(self).width as int,
                old(self).height as int,
            ),
        ensures
            final(self)@ == old(self)@.cleared(),
    {
        fill_rect(self.base, self.pitch, 0, 0, self.width, self.height, self.bg);
    }

    /// Draws `ch` into a cell.
    pub fn draw_char(&mut self, col: usize, row: usize, ch: u8)
        requires
            old(self)@.screen_wf(),
            col < old(self).cols,
            row < old(self).rows,
            ch < crate::font::GLYPH_COUNT,
        ensures
            final(self)@ == old(self)@.drawn(col as int, row as int, ch),
    {
        proof {
            lemma_cell(self@, col as int, row as int);
        }
        let x: usize = col * self.font.width;
        let y: usize = row * self.font.height;
        draw_glyph(self.base, self.pitch, &self.font, ch, x, y, self.fg, self.bg);
    }

    /// Copies a finished picture onto the screen in one go.
    pub fn blit(&mut self, buf: &[u8])
        requires
            old(self).base@.len() == old(self).pitch * old(self).height,
            old(self).base@.len() <= buf@.len(),
        ensures
            final(self)@ == (ConsoleView {
                mem: buf@.take(old(self).pitch * old(self).height),
                ..old(self)@
            }),
    {
        let n: usize = self.base.len();
        let ghost start = self@;
        let mut i: usize = 0;
        while i < n
            invariant
                n == self.base@.len(),
                n <= buf@.len(),
                i <= n,
                forall|j: int| 0 <= j < i ==> self.base@[j] == buf@[j],
                self@ == (ConsoleView { mem: self.base@, ..start }),
            decreases n - i,
        {
            self.base[i] = buf[i];
            i = i + 1;
        }
        assert(self.base@ =~= buf@.take(n as int));
    }

    /// Width and height in pixels.
    pub fn pixel_size(&self) -> (size: (usize, usize))
        ensures
            size == (self.width, self.height),
    {
        (self.width, self.height)
    }

    /// Paints a row of cells in the background colour.
    pub fn clear_char_row(&mut self, row: usize)
        requires
            old(self)@.screen_wf(),
            row < old(self).rows,
        ensures
            final(self)@ == old(self)@.row_cleared(row as int),
    {
        proof {
            lemma_cell(self@, 0, row as int);
            assert(in_bounds(
                self.base@.len(),
                self.pitch as int,
                self.width as int,
                (row + 1) * self.font.height,
            ));
        }
        let y0: usize = row * self.font.height;
        fill_rect(
            self.base,
            self.pitch,
            0,
            y0,
            self.width,
            y0 + self.font.height,
            self.bg,
        );
    }

    /// Moves the text up by one line and empties the last one.
    pub fn scroll(&mut self)
        requires
            old(self)@.screen_wf(),
        ensures
            final(self)@ == old(self)@.scrolled(),
    {
        let ghost start = self@;
        proof {
            lemma_rows(start);
            assert(self.base.len() == self.base@.len());
            assert(start.row_bytes() <= start.mem.len());
        }
        let char_row: usize = self.font.height * self.pitch;
        let moved: usize = (self.rows - 1) * char_row;
        let mut i: usize = 0;
        while i < moved
            invariant
                i <= moved,
                start.screen_wf(),
                char_row == start.row_bytes(),
                moved == (start.rows - 1) * start.row_bytes(),
                moved + char_row <= start.mem.len(),
                start.mem.len() == self.base@.len(),
                0 < char_row,
                forall|j: int| 0 <= j < i ==> self.base@[j] == start.mem[j + char_row],
                forall|j: int| i <= j < self.base@.len() ==> self.base@[j] == start.mem[j],
                self@ == (ConsoleView { mem: self.base@, ..start }),
            decreases moved - i,
        {
            assert(self.base.len() == self.base@.len());
            self.base[i] = self.base[i + char_row];
            i = i + 1;
        }
        assert(self.base@ =~= start.shifted().mem);
        let last: usize = self.rows - 1;
        self.clear_char_row(last);
    }

    /// Ends the line: the cursor goes to the start of the next one, and the text
    /// scrolls when there is none.
    pub fn newline(&mut self)
        requires
            old(self)@.screen_wf(),
            old(self).row < old(self).rows,
        ensures
            final(self)@ == old(self)@.line_fed(),
    {
        self.col = 0;
        if self.row + 1 < self.rows {
            self.row = self.row + 1;
        } else {
            self.scroll();
        }
    }

    /// Takes the last character of the line back.
    pub fn backspace(&mut self)
        requires
            old(self)@.wf(),
        ensures
            final(self)@ == old(self)@.stepped_back(),
    {
        if self.col > 0 {
            self.col = self.col - 1;
            let col: usize = self.col;
            let row: usize = self.row;
            self.draw_char(col, row, 0x20);
        }
    }

    /// Handles one byte of text.
    pub fn put_byte(&mut self, b: u8)
        requires
            old(self)@.wf(),
        ensures
            final(self)@ == old(self)@.put(b),
            final(self)@.wf(),
    {
        proof {
            lemma_put_wf(self@, b);
        }
        if b == 0x0A {
            self.newline();
        } else if b == 0x08 {
            self.backspace();
        } else if 0x20 <= b && b <= 0x7E {
            let col: usize = self.col;
            let row: usize = self.row;
            self.draw_char(col, row, b);
            self.col = self.col + 1;
            if self.col >= self.cols {
                self.newline();
            }
        }
    }

    /// Writes a text given as bytes.
    pub fn write_bytes(&mut self, s: &[u8])
        requires
            old(self)@.wf(),
        ensures
            final(self)@ == old(self)@.written(s@),
            final(self)@.wf(),
    {
        let ghost start = self@;
        let mut i: usize = 0;
        assert(s@.take(0) =~= Seq::<u8>::empty());
        while i < s.len()
            invariant
                i <= s@.len(),
                self@.wf(),
                self@ == start.written(s@.take(i as int)),
            decreases s@.len() - i,
        {
            assert(s@.take(i + 1).drop_last() =~= s@.take(i as int));
            self.put_byte(s[i]);
            i = i + 1;
        }
        assert(s@.take(i as int) =~= s@);
    }

    /// Writes a text.
    pub fn write_str(&mut self, s: &str)
        requires
            old(self)@.wf(),
        ensures
            final(self)@ == old(self)@.written(s.spec_bytes()),
            final(self)@.wf(),
    {
        self.write_bytes(s.as_bytes());
    }
}

/// The screen as a value; there is none before it has been set up.
pub open spec fn screen_of(con: Option<Console>) -> Option<ConsoleView> {
    match con {
        Some(c) => Some(c@),
        None => None,
    }
}

/// Whether there is no screen or a well-formed one.
pub open spec fn ready(con: Option<Console>) -> bool {
    match con {
        Some(c) => c@.wf(),
        None => true,
    }
}

/// The screen after a text. Without a screen the text is dropped.
pub open spec fn after_text(screen: Option<ConsoleView>, s: Seq<u8>) -> Option<ConsoleView> {
    match screen {
        Some(c) => Some(c.written(s)),
        None => None,
    }
}

/// Sets the screen up and clears it.
pub fn init<'a>(
    con: &mut Option<Console<'a>>,
    fb: &Framebuffer,
    memory: &'a mut [u8],
    font: Font<'a>,
)
    requires
        fb.width <= usize::MAX,
        fb.height <= usize::MAX,
        fb.pitch <= usize::MAX,
        fits(fb, old(memory)@.len(), font@),
    ensures
        *final(con) is Some,
        final(con)->0@.wf(),
        final(con)->0@ == (ConsoleView {
            mem: old(memory)@,
            width: fb.width as int,
            height: fb.height as int,
            pitch: fb.pitch as int,
            cols: fb.width as int / font.width as int,
            rows: fb.height as int / font.height as int,
            col: 0,
            row: 0,
            fg: 0x00FFFFFF,
            bg: 0x00000000,
            font: font@,
        }).cleared(),
{
    let mut c = Console::new(fb, memory, font);
    proof {
        assert(c.height * c.pitch == c.pitch * c.height) by (nonlinear_arith);
    }
    c.clear();
    *con = Some(c);
}

/// Writes a text to the screen.
pub fn print(con: &mut Option<Console>, s: &str)
    requires
        ready(*old(con)),
    ensures
        ready(*final(con)),
        screen_of(*final(con)) == after_text(screen_of(*old(con)), s.spec_bytes()),
{
    print_bytes(con, s.as_bytes());
}

/// Writes a text given as bytes to the screen.
pub fn print_bytes(con: &mut Option<Console>, s: &[u8])
    requires
        ready(*old(con)),
    ensures
        ready(*final(con)),
        screen_of(*final(con)) == after_text(screen_of(*old(con)), s@),
{
    if let Some(c) = con {
        c.write_bytes(s);
    }
}

/// The character for a hexadecimal digit.
pub open spec fn hex_digit(d: int) -> u8 {
    if d < 10 {
        (0x30 + d) as u8
    } else {
        (0x41 + d - 10) as u8
    }
}

/// A number in hexadecimal, upper case, without leading zeros.
pub open spec fn hex_text(v: nat) -> Seq<u8>
    decreases v,
{
    if v < 16 {
        seq![hex_digit(v as int)]
    } else {
        hex_text(v / 16).push(hex_digit((v % 16) as int))
    }
}

/// The number that hexadecimal characters stand for.
pub open spec fn hex_value(s: Seq<u8>) -> nat
    decreases s.len(),
{
    if s.len() == 0 {
        0
    } else {
        16 * hex_value(s.drop_last()) + if s.last() < 0x41 {
            (s.last() - 0x30) as nat
        } else {
            (s.last() - 0x41 + 10) as nat
        }
    }
}

/// Reading a hexadecimal number back gives the number, and a leading zero stands
/// only in the text of zero itself.
pub proof fn lemma_hex_text_reads_back(v: nat)
    ensures
        hex_value(hex_text(v)) == v,
        hex_text(v).len() >= 1,
        hex_text(v)[0] == 0x30 <==> v == 0,
    decreases v,
{
    reveal_with_fuel(hex_value, 2);
    if v >= 16 {
        lemma_hex_text_reads_back(v / 16);
        assert(hex_text(v).drop_last() =~= hex_text(v / 16));
    } else {
        assert(hex_text(v).drop_last() =~= Seq::<u8>::empty());
    }
}

/// Sixteen to the power of `n`.
spec fn pow16(n: nat) -> nat
    decreases n,
{
    if n == 0 {
        1
    } else {
        16 * pow16((n - 1) as nat)
    }
}

/// The character for a hexadecimal digit.
pub fn hex_char(d: u8) -> (c: u8)
    requires
        d < 16,
    ensures
        c == hex_digit(d as int),
{
    if d < 10 {
        0x30 + d
    } else {
        0x41 + (d - 10)
    }
}

/// The hexadecimal digits of `value`, at the end of a buffer, and where they
/// start there.
pub fn hex_digits(value: u64) -> (r: ([u8; 16], usize))
    ensures
        r.1 < 16,
        r.0@.skip(r.1 as int) == hex_text(value as nat),
{
    let mut buf: [u8; 16] = [0x30; 16];
    let mut i: usize = 15;
    let mut v: u64 = value / 16;
    buf[15] = hex_char((value % 16) as u8);
    proof {
        reveal_with_fuel(pow16, 17);
        assert(buf@.skip(15) =~= seq![hex_digit((value % 16) as int)]);
        if v > 0 {
            assert(hex_text(value as nat) =~= hex_text(v as nat) + buf@.skip(15));
        }
    }
    while v > 0
        invariant
            i < 16,
            v < pow16(i as nat),
            v > 0 ==> hex_text(value as nat) == hex_text(v as nat) + buf@.skip(i as int),
            v == 0 ==> hex_text(value as nat) == buf@.skip(i as int),
        decreases v,
    {
        let ghost v0 = v;
        let ghost before = buf@.skip(i as int);
        i = i - 1;
        buf[i] = hex_char((v % 16) as u8);
        v = v / 16;
        proof {
            assert(buf@.skip(i as int) =~= seq![hex_digit((v0 % 16) as int)] + before);
            if v > 0 {
                assert(hex_text(v0 as nat) + before =~= hex_text(v as nat) + buf@.skip(i as int));
            }
        }
    }
    (buf, i)
}

/// Writes a number in hexadecimal to the screen.
pub fn print_hex(con: &mut Option<Console>, value: u64)
    requires
        ready(*old(con)),
    ensures
        ready(*final(con)),
        screen_of(*final(con)) == after_text(screen_of(*old(con)), hex_text(value as nat)),
{
    let (buf, start) = hex_digits(value);
    print_bytes(con, vstd::slice::slice_subrange(buf.as_slice(), start, 16));
}

/// Two texts in a row are one text.
pub proof fn lemma_texts_join(screen: Option<ConsoleView>, a: Seq<u8>, b: Seq<u8>)
    ensures
        after_text(after_text(screen, a), b) == after_text(screen, a + b),
{
    if let Some(s) = screen {
        lemma_written_joins(s, a, b);
    }
}

/// Prints a text. The ghost arguments are a screen and what has been printed on
/// it since.
pub(crate) fn say(
    con: &mut Option<Console>,
    s: &str,
    Ghost(screen): Ghost<Option<ConsoleView>>,
    Ghost(sofar): Ghost<Seq<u8>>,
)
    requires
        ready(*old(con)),
        screen_of(*old(con)) == after_text(screen, sofar),
    ensures
        ready(*final(con)),
        screen_of(*final(con)) == after_text(screen, sofar + s.spec_bytes()),
{
    proof {
        lemma_texts_join(screen, sofar, s.spec_bytes());
    }
    print(con, s);
}

/// Prints a number in hexadecimal.
pub(crate) fn say_hex(
    con: &mut Option<Console>,
    value: u64,
    Ghost(screen): Ghost<Option<ConsoleView>>,
    Ghost(sofar): Ghost<Seq<u8>>,
)
    requires
        ready(*old(con)),
        screen_of(*old(con)) == after_text(screen, sofar),
    ensures
        ready(*final(con)),
        screen_of(*final(con)) == after_text(screen, sofar + hex_text(value as nat)),
{
    proof {
        lemma_texts_join(screen, sofar, hex_text(value as nat));
    }
    print_hex(con, value);
}

/// Prints a number in hexadecimal between two texts.
pub fn print_field(con: &mut Option<Console>, before: &str, value: u64, after: &str)
    requires
        ready(*old(con)),
    ensures
        ready(*final(con)),
        screen_of(*final(con)) == after_text(
            screen_of(*old(con)),
            before.spec_bytes() + hex_text(value as nat) + after.spec_bytes(),
        ),
{
    proof {
        let a = before.spec_bytes();
        let b = hex_text(value as nat);
        lemma_texts_join(screen_of(*con), a, b);
        lemma_texts_join(screen_of(*con), a + b, after.spec_bytes());
    }
    print(con, before);
    print_hex(con, value);
    print(con, after);
}

/// Width and height of the screen in pixels, zero without a screen.
pub fn pixel_size(con: &Option<Console>) -> (size: (usize, usize))
    ensures
        size == (match *con {
            Some(c) => (c.width, c.height),
            None => (0, 0),
        }),
{
    match con {
        Some(c) => c.pixel_size(),
        None => (0, 0),
    }
}

/// What a picture of the whole screen takes: the bytes of a pixel row and the
/// bytes in all. Zero without a screen.
pub fn canvas(con: &Option<Console>) -> (shape: (usize, usize))
    requires
        ready(*con),
    ensures
        match *con {
            Some(c) => shape.0 == c.pitch && shape.1 == c.pitch * c.height,
            None => shape == (0usize, 0usize),
        },
{
    match con {
        Some(c) => {
            assert(c.base.len() == c.base@.len());
            (c.pitch, c.pitch * c.height)
        },
        None => (0, 0),
    }
}

/// Copies a finished picture onto the screen, if there is one.
pub fn blit(con: &mut Option<Console>, buf: &[u8])
    requires
        ready(*old(con)),
        *old(con) is Some ==> old(con)->0.base@.len() <= buf@.len(),
    ensures
        ready(*final(con)),
        screen_of(*final(con)) == after_blit(screen_of(*old(con)), buf@),
{
    if let Some(c) = con {
        c.blit(buf);
    }
}

/// The screen after a picture has been copied onto it.
pub open spec fn after_blit(screen: Option<ConsoleView>, buf: Seq<u8>) -> Option<ConsoleView> {
    match screen {
        Some(c) => Some(ConsoleView { mem: buf.take(c.pitch * c.height), ..c }),
        None => None,
    }
}

/// Drawing a character and taking it back leaves the cursor where it was and the
/// cell blank, and changes nothing else, unless the character ended its line.
pub proof fn lemma_backspace_takes_back(c: ConsoleView, b: u8)
    requires
        c.wf(),
        0x20 <= b <= 0x7E,
        c.col + 1 < c.cols,
    ensures
        c.put(b).put(0x08) == c.drawn(c.col, c.row, 0x20),
{
    assert(c.put(b).put(0x08).mem =~= c.drawn(c.col, c.row, 0x20).mem);
}

/// The character that fills a line also ends it: the cursor goes to the start of
/// the next line, and on the last line the text scrolls instead.
pub proof fn lemma_full_line_wraps(c: ConsoleView, b: u8)
    requires
        c.wf(),
        0x20 <= b <= 0x7E,
        c.col + 1 == c.cols,
    ensures
        c.put(b) == (ConsoleView { col: c.cols, ..c.drawn(c.col, c.row, b) }).line_fed(),
        c.put(b).col == 0,
        c.row + 1 < c.rows ==> c.put(b).row == c.row + 1,
        c.row + 1 == c.rows ==> c.put(b).row == c.row,
{
}

/// A character that does not end its line is drawn where the cursor stands, and the
/// cursor moves one cell on; nothing else changes.
pub proof fn lemma_character_is_drawn(c: ConsoleView, b: u8)
    requires
        0x20 <= b <= 0x7E,
        c.col + 1 < c.cols,
    ensures
        c.put(b) == (ConsoleView {
            mem: inked(
                c.mem,
                c.pitch,
                stamp(c.font, b, c.col * c.font.width, c.row * c.font.height, c.fg, c.bg),
            ),
            col: c.col + 1,
            ..c
        }),
{
}

/// A character that ends its line is drawn where the cursor stands, and then the
/// line is fed.
pub proof fn lemma_last_character_feeds_the_line(c: ConsoleView, b: u8)
    requires
        0x20 <= b <= 0x7E,
        c.col + 1 >= c.cols,
    ensures
        c.put(b) == (ConsoleView {
            mem: inked(
                c.mem,
                c.pitch,
                stamp(c.font, b, c.col * c.font.width, c.row * c.font.height, c.fg, c.bg),
            ),
            ..c
        }).put(0x0A),
{
}

/// A line feed above the last line moves only the cursor, to the start of the next
/// line.
pub proof fn lemma_line_feed_moves_down(c: ConsoleView)
    requires
        c.row + 1 < c.rows,
    ensures
        c.put(0x0A) == (ConsoleView { col: 0, row: c.row + 1, ..c }),
{
}

/// A line feed on the last line moves every line of cells up by one, byte for byte,
/// fills the last line with the background colour over the width of the screen,
/// and leaves what lies below the last line alone.
pub proof fn lemma_line_feed_scrolls(c: ConsoleView, i: int)
    requires
        c.wf(),
        c.row + 1 == c.rows,
        0 <= i < c.mem.len(),
    ensures
        c.put(0x0A) == (ConsoleView { mem: c.put(0x0A).mem, col: 0, ..c }),
        c.put(0x0A).mem.len() == c.mem.len(),
        i / c.pitch < (c.rows - 1) * c.font.height ==> c.put(0x0A).mem[i] == c.mem[i
            + c.font.height * c.pitch],
        (c.rows - 1) * c.font.height <= i / c.pitch < c.rows * c.font.height && i % c.pitch < 4
            * c.width ==> c.put(0x0A).mem[i] == color_byte(c.bg, i % c.pitch % 4),
        (c.rows - 1) * c.font.height <= i / c.pitch && (i % c.pitch >= 4 * c.width || i / c.pitch
            >= c.rows * c.font.height) ==> c.put(0x0A).mem[i] == c.mem[i],
{
    let moved = (c.rows - 1) * c.row_bytes();
    let y = i / c.pitch;
    let edge = (c.rows - 1) * c.font.height;
    vstd::arithmetic::div_mod::lemma_fundamental_div_mod(i, c.pitch);
    vstd::arithmetic::div_mod::lemma_mod_bound(i, c.pitch);
    assert(moved == edge * c.pitch) by (nonlinear_arith)
        requires
            moved == (c.rows - 1) * (c.font.height * c.pitch),
            edge == (c.rows - 1) * c.font.height,
    ;
    assert(i < moved <==> y < edge) by (nonlinear_arith)
        requires
            i == c.pitch * y + i % c.pitch,
            0 <= i % c.pitch < c.pitch,
            moved == edge * c.pitch,
    ;
    lemma_rows(c);
}

/// A backspace blanks the cell before the cursor and moves back onto it; at the
/// start of a line it does nothing.
pub proof fn lemma_backspace_blanks_one_cell(c: ConsoleView)
    ensures
        c.col > 0 ==> c.put(0x08) == (ConsoleView {
            mem: inked(
                c.mem,
                c.pitch,
                stamp(
                    c.font,
                    0x20,
                    (c.col - 1) * c.font.width,
                    c.row * c.font.height,
                    c.fg,
                    c.bg,
                ),
            ),
            col: c.col - 1,
            ..c
        }),
        c.col <= 0 ==> c.put(0x08) == c,
{
}

/// Bytes that are neither printable nor a line feed or backspace do nothing.
pub proof fn lemma_other_bytes_do_nothing(c: ConsoleView, b: u8)
    requires
        b != 0x0A,
        b != 0x08,
        b < 0x20 || b > 0x7E,
    ensures
        c.put(b) == c,
{
}

/// A text does what its bytes do one after the other, and without a screen there is
/// nothing to do it to.
pub proof fn lemma_text_is_its_bytes(c: ConsoleView, s: Seq<u8>, b: u8)
    ensures
        c.written(Seq::empty()) == c,
        c.written(s.push(b)) == c.written(s).put(b),
        after_text(Some(c), s) == Some(c.written(s)),
        after_text(None, s) is None,
{
    assert(s.push(b).drop_last() =~= s);
}

/// Clearing fills the screen from corner to corner and changes nothing else.
pub proof fn lemma_clearing_fills_the_screen(c: ConsoleView)
    ensures
        c.cleared() == (ConsoleView {
            mem: inked(c.mem, c.pitch, block(0, 0, c.width, c.height, c.bg)),
            ..c
        }),
{
}

/// After a picture has been copied the screen shows it byte for byte, and the cursor
/// stands where it stood.
pub proof fn lemma_picture_is_shown(c: ConsoleView, buf: Seq<u8>, i: int)
    requires
        c.screen_wf(),
        c.mem.len() <= buf.len(),
        0 <= i < c.mem.len(),
    ensures
        after_blit(Some(c), buf) is Some,
        after_blit(Some(c), buf)->0.mem.len() == c.mem.len(),
        after_blit(Some(c), buf)->0.mem[i] == buf[i],
        after_blit(Some(c), buf)->0 == (ConsoleView { mem: after_blit(Some(c), buf)->0.mem, ..c }),
        after_blit(None, buf) is None,
{
}

/// The digits of a hexadecimal number are the characters 0 to 9 and A to F, and the
/// last one is the number modulo sixteen; those before it are the number divided by
/// sixteen.
pub proof fn lemma_hex_digits(v: nat)
    ensures
        v % 16 < 10 ==> hex_text(v).last() == '0' as u8 + v % 16,
        v % 16 >= 10 ==> hex_text(v).last() == 'A' as u8 + v % 16 - 10,
        v < 16 ==> hex_text(v).len() == 1,
        v >= 16 ==> hex_text(v).drop_last() == hex_text(v / 16),
{
    if v >= 16 {
        assert(hex_text(v).drop_last() =~= hex_text(v / 16));
    }
}

/// Which framebuffers carry a console: those with memory for just their rows, room
/// for four bytes a pixel in each, and at least one cell of the font.
pub proof fn lemma_framebuffers_for_a_console(fb: &Framebuffer, len: nat, font: FontView)
    ensures
        fits(fb, len, font) <==> font.wf() && fb.pitch >= 4 * fb.width && fb.pitch >= 1 && len
            == fb.pitch * fb.height && fb.width >= font.width && fb.height >= font.height,
{
}

/// The grid covers the screen but for what is narrower than a cell.
pub proof fn lemma_grid_covers_the_screen(c: ConsoleView)
    requires
        c.screen_wf(),
    ensures
        c.font.width * c.cols <= c.width < c.font.width * c.cols + c.font.width,
        c.font.height * c.rows <= c.height < c.font.height * c.rows + c.font.height,
        c.row_bytes() == c.font.height * c.pitch,
{
    vstd::arithmetic::div_mod::lemma_fundamental_div_mod(c.width, c.font.width);
    vstd::arithmetic::div_mod::lemma_fundamental_div_mod(c.height, c.font.height);
    vstd::arithmetic::div_mod::lemma_mod_bound(c.width, c.font.width);
    vstd::arithmetic::div_mod::lemma_mod_bound(c.height, c.font.height);
}

/// With a screen a text is written on it, and a picture needs one too; without one
/// nothing happens.
pub proof fn lemma_with_and_without_a_screen(c: Console, s: Seq<u8>, buf: Seq<u8>)
    ensures
        screen_of(Some(c)) == Some(c@),
        screen_of(None) is None,
        after_text(Some(c@), s) == Some(c@.written(s)),
        after_text(None, s) is None,
        after_blit(None, buf) is None,
        ready(Some(c)) <==> c@.wf(),
        ready(None),
{
}

} // verus!
