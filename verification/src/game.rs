//! The snake game. The main loop hands it the keys and the ticks; it paints every
//! frame into a canvas of its own and copies the finished frame onto the screen,
//! so that no half-painted frame is ever seen.

use crate::board::{holds, pick_cell, Cell};
#[allow(unused_imports)]
use crate::board::{
    can_land, cell_of, lemma_cell_is_picked, lemma_land_or_full, lemma_room_to_land, on_board,
};
#[allow(unused_imports)]
use crate::canvas::{block, caption, in_bounds, inked};
use crate::canvas::{draw_text, fill_rect};
use crate::console::{blit, canvas, hex_char, pixel_size, print, Console};
#[allow(unused_imports)]
use crate::console::{after_blit, after_text, hex_digit, ready, screen_of, ConsoleView};
use crate::font::Font;
#[allow(unused_imports)]
use crate::font::{FontView, GLYPH_COUNT};
use crate::keyboard::{pop_key, Keyboard, KEY_DOWN, KEY_LEFT, KEY_RIGHT, KEY_UP};
#[allow(unused_imports)]
use crate::keyboard::KeyboardView;
use crate::rng::draw;
#[allow(unused_imports)]
use crate::rng::{drawn, lemma_every_number_is_drawn, lemma_one_more_draw, nth_drawn};
use vstd::prelude::*;
use vstd::slice::slice_subrange;
#[allow(unused_imports)]
use vstd::string::StringSliceAdditionalSpecFns;

verus! {

/// The side of a cell in pixels.
pub const CELL: usize = 16;

/// Red: the food and the title of the end screen.
pub const FOOD_COLOR: u32 = 0x00CC0000;

/// Green.
pub const SNAKE_COLOR: u32 = 0x0000CC00;

/// Black.
pub const BG_COLOR: u32 = 0x00000000;

/// White.
pub const TEXT_COLOR: u32 = 0x00FFFFFF;

/// Grey: hints.
pub const DIM_COLOR: u32 = 0x00888888;

/// The snake moves once in this many ticks.
pub const STEP_INTERVAL: u64 = 10;

/// How long the snake is at the start.
pub const START_LEN: usize = 4;

/// "SCORE "
pub open spec fn score_label() -> Seq<u8> {
    seq![0x53u8, 0x43, 0x4F, 0x52, 0x45, 0x20]
}

/// "GAME OVER"
pub open spec fn over_title() -> Seq<u8> {
    seq![0x47u8, 0x41, 0x4D, 0x45, 0x20, 0x4F, 0x56, 0x45, 0x52]
}

/// "SPACE TO RESTART"
pub open spec fn restart_hint() -> Seq<u8> {
    seq![
        0x53u8, 0x50, 0x41, 0x43, 0x45, 0x20, 0x54, 0x4F, 0x20, 0x52, 0x45, 0x53, 0x54, 0x41, 0x52,
        0x54,
    ]
}

/// A number in decimal.
pub open spec fn dec_text(n: nat) -> Seq<u8>
    decreases n,
{
    if n < 10 {
        seq![(0x30 + n) as u8]
    } else {
        dec_text(n / 10).push((0x30 + n % 10) as u8)
    }
}

/// The number that decimal digits stand for.
pub open spec fn dec_value(s: Seq<u8>) -> nat
    decreases s.len(),
{
    if s.len() == 0 {
        0
    } else {
        10 * dec_value(s.drop_last()) + (s.last() - 0x30) as nat
    }
}

/// Reading a decimal number back gives the number; its characters are digits, and
/// a leading zero stands only in the text of zero itself.
pub proof fn lemma_dec_text_reads_back(n: nat)
    ensures
        dec_value(dec_text(n)) == n,
        dec_text(n).len() >= 1,
        forall|i: int| 0 <= i < dec_text(n).len() ==> 0x30 <= #[trigger] dec_text(n)[i] <= 0x39,
        dec_text(n)[0] == 0x30 <==> n == 0,
    decreases n,
{
    reveal_with_fuel(dec_value, 2);
    if n >= 10 {
        lemma_dec_text_reads_back(n / 10);
        assert(dec_text(n).drop_last() =~= dec_text(n / 10));
    } else {
        assert(dec_text(n).drop_last() =~= Seq::<u8>::empty());
    }
}

/// Ten to the power of `n`.
pub open spec fn pow10(n: nat) -> nat
    decreases n,
{
    if n == 0 {
        1
    } else {
        10 * pow10((n - 1) as nat)
    }
}

/// A number below ten to the power of `k` has at most `k` digits.
pub proof fn lemma_dec_text_len(n: nat, k: nat)
    requires
        k >= 1,
        n < pow10(k),
    ensures
        dec_text(n).len() <= k,
    decreases k,
{
    if n >= 10 {
        assert(k >= 2) by {
            reveal_with_fuel(pow10, 2);
        }
        lemma_dec_text_len(n / 10, (k - 1) as nat);
    }
}

/// Every number that fits 64 bits has at most twenty digits.
proof fn lemma_twenty_digits(n: nat)
    requires
        n <= u64::MAX,
    ensures
        dec_text(n).len() <= 20,
{
    reveal_with_fuel(pow10, 21);
    lemma_dec_text_len(n, 20);
}

/// Writes `n` in decimal into `out` from `at` on and gives the number of digits.
pub fn fmt_num(n: usize, out: &mut [u8], at: usize) -> (digits: usize)
    requires
        at + dec_text(n as nat).len() <= old(out)@.len(),
    ensures
        digits == dec_text(n as nat).len(),
        final(out)@ == old(out)@.take(at as int) + dec_text(n as nat) + old(out)@.skip(
            at + digits,
        ),
{
    let mut tmp: [u8; 20] = [0; 20];
    let mut i: usize = 19;
    let mut v: usize = n / 10;
    tmp[19] = 0x30 + (n % 10) as u8;
    proof {
        reveal_with_fuel(pow10, 21);
        assert(tmp@.skip(19) =~= seq![(0x30 + n % 10) as u8]);
        if v > 0 {
            assert(dec_text(n as nat) =~= dec_text(v as nat) + tmp@.skip(19));
        }
    }
    while v > 0
        invariant
            i < 20,
            v < pow10(i as nat),
            v > 0 ==> dec_text(n as nat) == dec_text(v as nat) + tmp@.skip(i as int),
            v == 0 ==> dec_text(n as nat) == tmp@.skip(i as int),
        decreases v,
    {
        let ghost v0 = v;
        let ghost before = tmp@.skip(i as int);
        i = i - 1;
        tmp[i] = 0x30 + (v % 10) as u8;
        v = v / 10;
        proof {
            assert(tmp@.skip(i as int) =~= seq![(0x30 + v0 % 10) as u8] + before);
            if v > 0 {
                assert(dec_text(v0 as nat) + before =~= dec_text(v as nat) + tmp@.skip(i as int));
            }
        }
    }
    let len: usize = 20 - i;
    let mut j: usize = 0;
    assert(out.len() == out@.len());
    while j < len
        invariant
            i < 20,
            len == 20 - i,
            j <= len,
            at + len <= out@.len(),
            out@.len() <= usize::MAX,
            out@.len() == old(out)@.len(),
            forall|k: int| 0 <= k < at ==> out@[k] == old(out)@[k],
            forall|k: int| at <= k < at + j ==> out@[k] == tmp@[i + k - at],
            forall|k: int| at + j <= k < out@.len() ==> out@[k] == old(out)@[k],
        decreases len - j,
    {
        out[at + j] = tmp[i + j];
        j = j + 1;
    }
    assert(out@ =~= old(out)@.take(at as int) + dec_text(n as nat) + old(out)@.skip(at + len));
    len
}

/// Whether the snake is under way or has come to its end.
#[derive(Clone, Copy, PartialEq, Eq, Structural)]
pub enum Phase {
    Play,
    Over,
}

/// The state of a game. The board is the screen cut into square cells; the head of
/// the snake is the last cell of its body. `buf` is the canvas, with pixel rows of
/// `pitch` bytes as on the screen.
pub struct Game<'a> {
    pub cols: usize,
    pub rows: usize,
    pub body: Vec<Cell>,
    pub dir: (i32, i32),
    pub food: Cell,
    pub rng: u64,
    pub phase: Phase,
    pub score: usize,
    pub buf: Vec<u8>,
    pub pitch: usize,
    pub font: Font<'a>,
}

/// A game as a value.
#[verifier::ext_equal]
pub struct GameView {
    pub cols: int,
    pub rows: int,
    pub body: Seq<Cell>,
    pub dir: (i32, i32),
    pub food: Cell,
    pub rng: u64,
    pub phase: Phase,
    pub score: int,
    pub buf: Seq<u8>,
    pub pitch: int,
    pub font: FontView,
}

impl<'a> View for Game<'a> {
    type V = GameView;

    open spec fn view(&self) -> GameView {
        GameView {
            cols: self.cols as int,
            rows: self.rows as int,
            body: self.body@,
            dir: self.dir,
            food: self.food,
            rng: self.rng,
            phase: self.phase,
            score: self.score as int,
            buf: self.buf@,
            pitch: self.pitch as int,
            font: self.font@,
        }
    }
}

/// What the diagnostic line shows: the ticks since boot, whether the timer chip
/// counts, whether its line is blocked, the interrupts that wait at the
/// controller, and whether another timer has taken the line over.
#[derive(Clone, Copy)]
pub struct Diag {
    pub ticks: u64,
    pub pit_ok: bool,
    pub irq0_masked: bool,
    pub irr: u8,
    pub legacy: Option<bool>,
}

impl Diag {
    /// The seconds have at most eight digits, for which the line has room.
    pub open spec fn wf(self) -> bool {
        self.ticks / 100 < 100_000_000
    }

    /// What stands on the line after the seconds: " P", " M", " I=" and " L", each
    /// with its value.
    pub open spec fn tail(self) -> Seq<u8> {
        seq![
            0x20u8,
            0x50,
            if self.pit_ok {
                0x2Bu8
            } else {
                0x2D
            },
            0x20,
            0x4D,
            if self.irq0_masked {
                0x31u8
            } else {
                0x30
            },
            0x20,
            0x49,
            0x3D,
            hex_digit(self.irr as int / 16),
            hex_digit(self.irr as int % 16),
            0x20,
            0x4C,
            match self.legacy {
                Some(true) => 0x31u8,
                Some(false) => 0x30,
                None => 0x2D,
            },
        ]
    }

    /// The diagnostic line: "T=", the seconds since boot, and the rest.
    pub open spec fn text(self) -> Seq<u8> {
        seq![0x54u8, 0x3D] + dec_text((self.ticks / 100) as nat) + self.tail()
    }
}

/// The score line.
pub open spec fn score_text(score: int) -> Seq<u8> {
    score_label() + dec_text(score as nat)
}

impl GameView {
    /// The canvas holds the whole board, and the board the snake at its start.
    pub open spec fn layout_wf(self) -> bool {
        &&& 5 <= self.cols <= i32::MAX
        &&& 1 <= self.rows <= i32::MAX
        &&& self.font.wf()
        &&& in_bounds(self.buf.len(), self.pitch, self.cols * CELL, self.rows * CELL)
    }

    /// A line of `n` characters at (x, y) lies on the canvas.
    pub open spec fn text_fits(self, x: int, y: int, n: int) -> bool {
        &&& 0 <= x
        &&& 0 <= y
        &&& in_bounds(self.buf.len(), self.pitch, x + n * self.font.width, y + self.font.height)
    }

    /// All cells of the body are on the board.
    pub open spec fn body_on_board(self) -> bool {
        forall|i: int| 0 <= i < self.body.len() ==> on_board(#[trigger] self.body[i], self.cols, self.rows)
    }

    /// A colour in a cell.
    pub open spec fn painted(self, p: Cell, color: u32) -> GameView {
        GameView {
            buf: inked(
                self.buf,
                self.pitch,
                block(
                    p.0 * CELL,
                    p.1 * CELL,
                    p.0 * CELL + CELL,
                    p.1 * CELL + CELL,
                    color,
                ),
            ),
            ..self
        }
    }

    /// A line of text.
    pub open spec fn captioned(self, x: int, y: int, s: Seq<u8>, fg: u32) -> GameView {
        GameView {
            buf: inked(self.buf, self.pitch, caption(self.font, s, x, y, fg, BG_COLOR)),
            ..self
        }
    }

    /// The score and the diagnostic line in the upper left corner.
    pub open spec fn with_hud(self, diag: Diag) -> GameView {
        self.captioned(8, 8, score_text(self.score), TEXT_COLOR).captioned(
            8,
            28,
            diag.text(),
            DIM_COLOR,
        )
    }

    /// Both lines have room.
    pub open spec fn hud_fits(self, diag: Diag) -> bool {
        &&& diag.wf()
        &&& self.text_fits(8, 8, score_text(self.score).len() as int)
        &&& self.text_fits(8, 28, diag.text().len() as int)
    }

    /// An all black canvas.
    pub open spec fn blank(self) -> GameView {
        GameView { buf: Seq::new(self.buf.len(), |i: int| 0u8), ..self }
    }
}

/// A cell of the board lies on the canvas.
proof fn lemma_cell_on_canvas(g: GameView, p: Cell)
    requires
        g.layout_wf(),
        on_board(p, g.cols, g.rows),
    ensures
        p.0 * CELL + CELL <= g.cols * CELL,
        p.1 * CELL + CELL <= g.rows * CELL,
        in_bounds(g.buf.len(), g.pitch, p.0 * CELL + CELL, p.1 * CELL + CELL),
        g.buf.len() <= usize::MAX ==> p.1 * CELL + CELL <= usize::MAX,
{
    assert((p.1 * CELL + CELL) * g.pitch <= g.rows * CELL * g.pitch) by (nonlinear_arith)
        requires
            p.1 < g.rows,
            0 < g.pitch,
            CELL == 16,
    ;
    assert(p.1 * CELL + CELL <= (p.1 * CELL + CELL) * g.pitch) by (nonlinear_arith)
        requires
            0 < g.pitch,
            0 <= p.1 * CELL + CELL,
    ;
}

impl<'a> Game<'a> {
    /// Draws a random number.
    pub fn next_rand(&mut self) -> (r: u64)
        ensures
            r == drawn(old(self).rng),
            final(self)@ == (GameView { rng: r, ..old(self)@ }),
    {
        self.rng = draw(self.rng);
        self.rng
    }

    /// Paints a cell.
    pub fn paint(&mut self, p: Cell, color: u32)
        requires
            old(self)@.layout_wf(),
            on_board(p, old(self).cols as int, old(self).rows as int),
        ensures
            final(self)@ == old(self)@.painted(p, color),
    {
        proof {
            lemma_cell_on_canvas(self@, p);
            assert(self.buf.len() == self.buf@.len());
        }
        let x: usize = p.0 * CELL;
        let y: usize = p.1 * CELL;
        fill_rect(self.buf.as_mut_slice(), self.pitch, x, y, x + CELL, y + CELL, color);
    }

    /// Draws a line of text on the background colour.
    pub fn text(&mut self, x: usize, y: usize, s: &[u8], fg: u32)
        requires
            old(self)@.layout_wf(),
            old(self)@.text_fits(x as int, y as int, s@.len() as int),
            forall|i: int| 0 <= i < s@.len() ==> #[trigger] s@[i] < GLYPH_COUNT,
        ensures
            final(self)@ == old(self)@.captioned(x as int, y as int, s@, fg),
    {
        draw_text(self.buf.as_mut_slice(), self.pitch, &self.font, s, x, y, fg, BG_COLOR);
    }

    /// Makes the canvas black.
    fn wipe(&mut self)
        ensures
            final(self)@ == old(self)@.blank(),
    {
        let ghost start = self@;
        let n: usize = self.buf.len();
        let mut i: usize = 0;
        while i < n
            invariant
                i <= n,
                n == self.buf@.len(),
                n == start.buf.len(),
                forall|j: int| 0 <= j < i ==> self.buf@[j] == 0,
                self@ == (GameView { buf: self.buf@, ..start }),
            decreases n - i,
        {
            self.buf[i] = 0;
            i = i + 1;
        }
        assert(self.buf@ =~= start.blank().buf);
    }

    /// The score line and its length.
    fn score_line(&self) -> (r: ([u8; 26], usize))
        ensures
            r.1 <= 26,
            r.0@.take(r.1 as int) == score_text(self.score as int),
            score_text(self.score as int).len() == r.1,
            forall|i: int| 0 <= i < r.1 ==> #[trigger] r.0@[i] < GLYPH_COUNT,
    {
        let mut line: [u8; 26] = [
            0x53, 0x43, 0x4F, 0x52, 0x45, 0x20, 0, 0, 0, 0, 0, 0, 0, 0, 0, 0, 0, 0, 0, 0, 0, 0, 0,
            0, 0, 0,
        ];
        proof {
            lemma_twenty_digits(self.score as nat);
            lemma_dec_text_reads_back(self.score as nat);
        }
        let ghost start = line@;
        let digits: usize = fmt_num(self.score, &mut line, 6);
        proof {
            assert(line@ == start.take(6) + dec_text(self.score as nat) + start.skip(6 + digits));
            assert(line@.take(6 + digits) =~= score_text(self.score as int));
            assert forall|i: int| 0 <= i < 6 + digits implies #[trigger] line@[i] < GLYPH_COUNT by {
                assert(line@[i] == line@.take(6 + digits)[i]);
                if i >= 6 {
                    assert(line@[i] == dec_text(self.score as nat)[i - 6]);
                }
            }
        }
        (line, 6 + digits)
    }
}

impl Diag {
    /// What stands on the line after the seconds.
    fn flags(&self) -> (r: [u8; 14])
        ensures
            r@ == self.tail(),
            forall|i: int| 0 <= i < 14 ==> #[trigger] r@[i] < GLYPH_COUNT,
    {
        let r: [u8; 14] = [
            0x20,
            0x50,
            if self.pit_ok {
                0x2B
            } else {
                0x2D
            },
            0x20,
            0x4D,
            if self.irq0_masked {
                0x31
            } else {
                0x30
            },
            0x20,
            0x49,
            0x3D,
            hex_char(self.irr / 16),
            hex_char(self.irr % 16),
            0x20,
            0x4C,
            match self.legacy {
                Some(true) => 0x31,
                Some(false) => 0x30,
                None => 0x2D,
            },
        ];
        assert(r@ =~= self.tail());
        r
    }

    /// The diagnostic line and its length.
    fn line(&self) -> (r: ([u8; 24], usize))
        requires
            self.wf(),
        ensures
            r.1 <= 24,
            r.0@.take(r.1 as int) == self.text(),
            self.text().len() == r.1,
            forall|i: int| 0 <= i < r.1 ==> #[trigger] r.0@[i] < GLYPH_COUNT,
    {
        let mut line: [u8; 24] = [
            0x54, 0x3D, 0, 0, 0, 0, 0, 0, 0, 0, 0, 0, 0, 0, 0, 0, 0, 0, 0, 0, 0, 0, 0, 0,
        ];
        let seconds: usize = (self.ticks / 100) as usize;
        let ghost digits = dec_text(seconds as nat);
        proof {
            reveal_with_fuel(pow10, 9);
            lemma_dec_text_len(seconds as nat, 8);
            lemma_dec_text_reads_back(seconds as nat);
        }
        let ghost start = line@;
        let w: usize = 2 + fmt_num(seconds, &mut line, 2);
        let ghost head = seq![0x54u8, 0x3D] + digits;
        assert(line@.take(w as int) =~= head) by {
            assert(line@ == start.take(2) + digits + start.skip(w as int));
            assert(start.take(2) =~= seq![0x54u8, 0x3D]);
        }
        let flags = self.flags();
        let mut i: usize = 0;
        while i < 14
            invariant
                i <= 14,
                w <= 10,
                line@.take(w as int) == head,
                forall|j: int| 0 <= j < i ==> line@[w + j] == #[trigger] flags@[j],
            decreases 14 - i,
        {
            let ghost before = line@;
            line[w + i] = flags[i];
            assert(line@.take(w as int) =~= before.take(w as int));
            i = i + 1;
        }
        assert(line@.take(w + 14) =~= head + flags@);
        assert forall|i: int| 0 <= i < w + 14 implies #[trigger] line@[i] < GLYPH_COUNT by {
            assert(line@[i] == (head + flags@)[i]);
        }
        (line, w + 14)
    }
}

impl<'a> Game<'a> {
    /// Draws the score and the diagnostic line.
    pub fn paint_score(&mut self, diag: &Diag)
        requires
            old(self)@.layout_wf(),
            old(self)@.hud_fits(*diag),
        ensures
            final(self)@ == old(self)@.with_hud(*diag),
    {
        let (line, n) = self.score_line();
        let s = slice_subrange(&line, 0, n);
        assert(s@ =~= line@.take(n as int));
        self.text(8, 8, s, TEXT_COLOR);
        let (line, n) = diag.line();
        let s = slice_subrange(&line, 0, n);
        assert(s@ =~= line@.take(n as int));
        self.text(8, 28, s, DIM_COLOR);
    }
}

/// Whether the number drawn at last of `n` is the first to pick a cell that the
/// body leaves free.
pub open spec fn lands_first(g: GameView, n: nat) -> bool {
    &&& n >= 1
    &&& !g.body.contains(cell_of(nth_drawn(g.rng, n), g.cols, g.rows))
    &&& forall|m: nat|
        1 <= m < n ==> g.body.contains(cell_of(#[trigger] nth_drawn(g.rng, m), g.cols, g.rows))
}

impl GameView {
    /// Food in the first free cell that the drawn numbers pick.
    pub open spec fn food_placed(self) -> GameView {
        let n = choose|n: nat| lands_first(self, n);
        let r = nth_drawn(self.rng, n);
        let p = cell_of(r, self.cols, self.rows);
        (GameView { rng: r, food: p, ..self }).painted(p, FOOD_COLOR)
    }

    /// Column and row that a step in a direction leads to.
    pub open spec fn ahead(self, dir: (i32, i32)) -> (int, int) {
        (self.body.last().0 + dir.0, self.body.last().1 + dir.1)
    }

    /// Whether the next step leads off the board.
    pub open spec fn hits_wall(self) -> bool {
        let (x, y) = self.ahead(self.dir);
        !(0 <= x < self.cols && 0 <= y < self.rows)
    }

    /// Whether the next step leads to the food.
    pub open spec fn eats(self) -> bool {
        self.ahead(self.dir) == (self.food.0 as int, self.food.1 as int)
    }

    /// The cell that the next step leads to.
    pub open spec fn next_head(self) -> Cell {
        let (x, y) = self.ahead(self.dir);
        (x as usize, y as usize)
    }

    /// The tail leaves its cell, unless the snake grows.
    pub open spec fn tail_moved(self) -> GameView {
        if self.eats() {
            self
        } else {
            (GameView { body: self.body.skip(1), ..self }).painted(self.body[0], BG_COLOR)
        }
    }

    /// Whether the next step leads onto the snake, its tail having moved on.
    pub open spec fn bites_itself(self) -> bool {
        self.tail_moved().body.contains(self.next_head())
    }

    /// The snake one step on, with the food still to be placed if it was eaten.
    pub open spec fn crept(self) -> GameView {
        let g = self.tail_moved();
        let p = self.next_head();
        let g = (GameView { body: g.body.push(p), ..g }).painted(p, SNAKE_COLOR);
        if self.eats() {
            GameView { score: g.score + 1, ..g }
        } else {
            g
        }
    }

    /// The game after a step: over at a wall or on the snake itself.
    pub open spec fn stepped(self, diag: Diag) -> GameView {
        if self.hits_wall() {
            self.over()
        } else if self.bites_itself() {
            self.tail_moved().over()
        } else if self.eats() {
            self.crept().food_placed().with_hud(diag)
        } else {
            self.crept().with_hud(diag)
        }
    }

    /// What a step draws lies on the canvas, and new food finds a cell.
    pub open spec fn step_fits(self, diag: Diag) -> bool {
        if self.hits_wall() || self.bites_itself() {
            self.over_fits()
        } else {
            &&& self.crept().hud_fits(diag)
            &&& self.eats() ==> can_land(self.crept().body, self.cols, self.rows)
        }
    }

    /// The middle of the board in pixels.
    pub open spec fn middle(self) -> (int, int) {
        (self.cols * CELL / 2, self.rows * CELL / 2)
    }

    /// The end screen: three lines around the middle.
    pub open spec fn over(self) -> GameView {
        let (cx, cy) = self.middle();
        let w = self.font.width;
        let h = self.font.height;
        let s = score_text(self.score);
        (GameView { phase: Phase::Over, ..self }).blank().captioned(
            cx - 9 * w / 2,
            cy - 3 * h,
            over_title(),
            FOOD_COLOR,
        ).captioned(cx - s.len() * w / 2, cy, s, TEXT_COLOR).captioned(
            cx - 16 * w / 2,
            cy + 2 * h,
            restart_hint(),
            DIM_COLOR,
        )
    }

    /// The three lines lie on the canvas.
    pub open spec fn over_fits(self) -> bool {
        let (cx, cy) = self.middle();
        let w = self.font.width;
        let h = self.font.height;
        let n = score_text(self.score).len();
        &&& self.text_fits(cx - 9 * w / 2, cy - 3 * h, 9)
        &&& self.text_fits(cx - n * w / 2, cy, n as int)
        &&& self.text_fits(cx - 16 * w / 2, cy + 2 * h, 16)
    }

    /// The snake at the start.
    pub open spec fn first_body(self) -> Seq<Cell> {
        Seq::new(
            START_LEN as nat,
            |i: int| ((self.cols / 4 + i) as usize, (self.rows / 2) as usize),
        )
    }

    /// The snake's first `n` cells, from the tail on.
    pub open spec fn snake_painted(self, n: nat) -> GameView
        decreases n,
    {
        if n == 0 {
            self
        } else {
            self.snake_painted((n - 1) as nat).painted(self.body[n - 1], SNAKE_COLOR)
        }
    }

    /// The snake at the start on an empty board, not yet painted.
    pub open spec fn laid_out(self) -> GameView {
        (GameView {
            body: self.first_body(),
            dir: (1, 0),
            score: 0,
            phase: Phase::Play,
            ..self
        }).blank()
    }

    /// The snake at the start on an otherwise empty board.
    pub open spec fn fresh(self) -> GameView {
        self.laid_out().snake_painted(START_LEN as nat)
    }

    /// A new game.
    pub open spec fn restarted(self, diag: Diag) -> GameView {
        self.fresh().food_placed().with_hud(diag)
    }

    /// What the first frame draws lies on the canvas.
    pub open spec fn restart_fits(self, diag: Diag) -> bool {
        self.fresh().hud_fits(diag)
    }
}

/// There is at most one number of draws after which the food lands.
pub(crate) proof fn lemma_lands_once(g: GameView, n: nat)
    requires
        lands_first(g, n),
    ensures
        forall|m: nat| lands_first(g, m) ==> m == n,
        lands_first(g, choose|m: nat| lands_first(g, m)),
{
    assert forall|m: nat| lands_first(g, m) implies m == n by {
        if m < n {
            assert(g.body.contains(cell_of(nth_drawn(g.rng, m), g.cols, g.rows)));
        } else if n < m {
            assert(g.body.contains(cell_of(nth_drawn(g.rng, n), g.cols, g.rows)));
        }
    }
}

impl<'a> Game<'a> {
    /// Puts the food into a random free cell.
    pub fn place_food(&mut self)
        requires
            old(self)@.layout_wf(),
            can_land(old(self)@.body, old(self)@.cols, old(self)@.rows),
        ensures
            final(self)@ == old(self)@.food_placed(),
    {
        let ghost start = self@;
        let ghost target = choose|r: u64|
            !start.body.contains(#[trigger] cell_of(r, start.cols, start.rows));
        let ghost mut bound: nat = 0;
        let ghost mut n: nat = 0;
        proof {
            bound = lemma_every_number_is_drawn(start.rng, target);
        }
        loop
            invariant
                start.layout_wf(),
                self@ == (GameView { rng: self.rng, ..start }),
                self.rng == nth_drawn(start.rng, n),
                n < bound,
                !start.body.contains(
                    cell_of(nth_drawn(start.rng, bound), start.cols, start.rows),
                ),
                forall|m: nat|
                    1 <= m <= n ==> start.body.contains(
                        cell_of(#[trigger] nth_drawn(start.rng, m), start.cols, start.rows),
                    ),
                start == old(self)@,
            decreases bound - n,
        {
            let r: u64 = self.next_rand();
            proof {
                lemma_one_more_draw(start.rng, n);
                n = n + 1;
            }
            let p = pick_cell(r, self.cols, self.rows);
            if !holds(&self.body, p) {
                proof {
                    assert(lands_first(start, n));
                    lemma_lands_once(start, n);
                }
                self.food = p;
                self.paint(p, FOOD_COLOR);
                return;
            }
            proof {
                assert(n != bound);
            }
        }
    }
}

/// One step along a column or a row.
pub open spec fn straight(dir: (i32, i32)) -> bool {
    ||| dir.0 == 0 && (dir.1 == 1 || dir.1 == -1)
    ||| dir.1 == 0 && (dir.0 == 1 || dir.0 == -1)
}

/// Whether cell `i` of a body and the next one lie side by side.
pub open spec fn linked(body: Seq<Cell>, i: int) -> bool {
    let p = body[i];
    let q = body[i + 1];
    ||| p.0 == q.0 && (p.1 + 1 == q.1 || q.1 + 1 == p.1)
    ||| p.1 == q.1 && (p.0 + 1 == q.0 || q.0 + 1 == p.0)
}

impl GameView {
    /// The snake lies on the board, its cells are all different, it is as long as the
    /// score says, and the food lies on the board beside it.
    pub open spec fn snake_wf(self) -> bool {
        &&& self.body_on_board()
        &&& self.body.no_duplicates()
        &&& 0 <= self.score
        &&& self.body.len() == self.score + START_LEN
        &&& on_board(self.food, self.cols, self.rows)
        &&& !self.body.contains(self.food)
    }

    /// A game under way: in addition the snake is a chain, and the next step does not
    /// lead onto its neck.
    pub open spec fn play_wf(self) -> bool {
        &&& self.snake_wf()
        &&& forall|i: int| 0 <= i < self.body.len() - 1 ==> #[trigger] linked(self.body, i)
        &&& !self.faces_neck(self.dir)
    }

    /// Whether the board has a cell that neither the snake nor the food takes.
    pub open spec fn has_spare_cell(self) -> bool {
        exists|p: Cell|
            #![trigger on_board(p, self.cols, self.rows)]
            on_board(p, self.cols, self.rows) && !self.body.contains(p) && p != self.food
    }

    /// Whether two games have the same board, the same canvas in size, and the same
    /// font.
    pub open spec fn same_table(self, other: GameView) -> bool {
        &&& self.cols == other.cols
        &&& self.rows == other.rows
        &&& self.buf.len() == other.buf.len()
        &&& self.pitch == other.pitch
        &&& self.font == other.font
    }

    /// Whether a step in a direction leads onto the cell behind the head.
    pub open spec fn faces_neck(self, dir: (i32, i32)) -> bool {
        let neck = self.body[self.body.len() - 2];
        self.body.len() >= 2 && self.ahead(dir) == (neck.0 as int, neck.1 as int)
    }

    /// What holds of every game.
    pub open spec fn wf(self) -> bool {
        &&& self.layout_wf()
        &&& self.body_on_board()
        &&& 0 <= self.score
        &&& straight(self.dir)
        &&& self.phase == Phase::Play ==> self.play_wf()
    }

    /// The game after a direction has been asked for: refused if it is the opposite
    /// of the current one or leads onto the neck.
    pub open spec fn turned(self, dir: (i32, i32)) -> GameView {
        if (dir.0 == -self.dir.0 && dir.1 == -self.dir.1) || self.faces_neck(dir) {
            self
        } else {
            GameView { dir, ..self }
        }
    }

    /// The game after several directions have been asked for.
    pub open spec fn all_turned(self, dirs: Seq<(i32, i32)>) -> GameView
        decreases dirs.len(),
    {
        if dirs.len() == 0 {
            self
        } else {
            self.turned(dirs[0]).all_turned(dirs.skip(1))
        }
    }
}

/// However many directions are asked for between two steps, the snake never turns
/// back onto its neck, and nothing but its direction changes.
pub proof fn lemma_no_turning_back(g: GameView, dirs: Seq<(i32, i32)>)
    requires
        g.wf(),
        g.phase == Phase::Play,
        forall|i: int| 0 <= i < dirs.len() ==> straight(#[trigger] dirs[i]),
    ensures
        g.all_turned(dirs).wf(),
        g.all_turned(dirs) == (GameView { dir: g.all_turned(dirs).dir, ..g }),
        !g.all_turned(dirs).faces_neck(g.all_turned(dirs).dir),
    decreases dirs.len(),
{
    if dirs.len() > 0 {
        lemma_no_turning_back(g.turned(dirs[0]), dirs.skip(1));
    }
}

/// The food lands in a free cell of the board, and only it, the random numbers and
/// the canvas change.
pub(crate) proof fn lemma_food_placed(g: GameView)
    requires
        g.layout_wf(),
        can_land(g.body, g.cols, g.rows),
    ensures
        on_board(g.food_placed().food, g.cols, g.rows),
        !g.body.contains(g.food_placed().food),
        g.food_placed().buf.len() == g.buf.len(),
{
    let target = choose|r: u64| !g.body.contains(#[trigger] cell_of(r, g.cols, g.rows));
    let n = lemma_every_number_is_drawn(g.rng, target);
    let first = lemma_first_landing(g, n);
    lemma_lands_once(g, first);
    let r = nth_drawn(g.rng, first);
    vstd::arithmetic::div_mod::lemma_mod_bound(r as int, g.cols);
    vstd::arithmetic::div_mod::lemma_mod_bound(r as int / 0x1_0000_0000, g.rows);
}

/// If some draw lands, there is a first one that does.
pub(crate) proof fn lemma_first_landing(g: GameView, n: nat) -> (first: nat)
    requires
        n >= 1,
        !g.body.contains(cell_of(nth_drawn(g.rng, n), g.cols, g.rows)),
    ensures
        lands_first(g, first),
    decreases n,
{
    if lands_first(g, n) {
        n
    } else {
        let m = choose|m: nat|
            1 <= m < n && !g.body.contains(
                cell_of(#[trigger] nth_drawn(g.rng, m), g.cols, g.rows),
            );
        lemma_first_landing(g, m)
    }
}

/// A step that ends nothing leaves a chain of different cells on the board, with
/// the old head behind the new one.
proof fn lemma_crept(g: GameView)
    requires
        g.wf(),
        g.phase == Phase::Play,
        !g.hits_wall(),
        !g.bites_itself(),
    ensures
        g.crept().layout_wf(),
        g.crept().body_on_board(),
        g.crept().body.no_duplicates(),
        g.crept().body.len() == g.crept().score + START_LEN,
        forall|i: int| 0 <= i < g.crept().body.len() - 1 ==> #[trigger] linked(g.crept().body, i),
        !g.crept().faces_neck(g.dir),
{
    let t = g.tail_moved();
    let c = g.crept();
    lemma_tail_moved(g);
    assert forall|i: int| 0 <= i < c.body.len() - 1 implies #[trigger] linked(c.body, i) by {
        if i < t.body.len() - 1 {
            assert(linked(t.body, i));
        } else {
            assert(t.body.last() == g.body.last());
        }
    }
    assert(c.body[c.body.len() - 2] == g.body.last());
}

/// Food that is eaten finds a new cell exactly if there was a spare one.
proof fn lemma_spare_cell(g: GameView)
    requires
        g.layout_wf(),
        g.snake_wf(),
        g.eats(),
    ensures
        g.has_spare_cell() <==> can_land(g.crept().body, g.cols, g.rows),
{
    let body = g.crept().body;
    assert(g.next_head() == g.food);
    assert(body == g.body.push(g.food));
    if g.has_spare_cell() {
        let p = choose|p: Cell|
            #![trigger on_board(p, g.cols, g.rows)]
            on_board(p, g.cols, g.rows) && !g.body.contains(p) && p != g.food;
        let r = lemma_cell_is_picked(p, g.cols, g.rows);
        assert(!body.contains(cell_of(r, g.cols, g.rows)));
    }
    if can_land(body, g.cols, g.rows) {
        let r = choose|r: u64| !body.contains(#[trigger] cell_of(r, g.cols, g.rows));
        let p = cell_of(r, g.cols, g.rows);
        vstd::arithmetic::div_mod::lemma_mod_bound(r as int, g.cols);
        vstd::arithmetic::div_mod::lemma_mod_bound(r as int / 0x1_0000_0000, g.rows);
        assert(on_board(p, g.cols, g.rows));
        assert(body[body.len() - 1] == g.food);
        if g.body.contains(p) {
            let k = choose|k: int| 0 <= k < g.body.len() && g.body[k] == p;
            assert(body[k] == p);
        }
    }
}

/// As long as the board has a spare cell, a step either ends the game or leaves a
/// snake of different cells on the board, as long as the score says, with the food
/// beside it. Even at the end the cells are different and on the board, and the
/// board and the canvas never change in size.
pub proof fn lemma_step_keeps_snake(g: GameView, diag: Diag)
    requires
        g.layout_wf(),
        g.phase == Phase::Play,
        g.snake_wf(),
        g.has_spare_cell(),
    ensures
        g.stepped(diag).phase == Phase::Over || (g.stepped(diag).phase == Phase::Play && g.stepped(
            diag,
        ).snake_wf()),
        g.stepped(diag).body_on_board(),
        g.stepped(diag).body.no_duplicates(),
        g.stepped(diag).same_table(g),
{
    let t = g.tail_moved();
    let c = g.crept();
    assert(t.body_on_board());
    assert(t.body.no_duplicates());
    if !g.hits_wall() && !g.bites_itself() {
        assert(c.body == t.body.push(g.next_head()));
        assert(c.body_on_board());
        assert(c.body.no_duplicates());
        if g.eats() {
            lemma_spare_cell(g);
            lemma_food_placed(c);
        } else if c.body.contains(c.food) {
            let k = choose|k: int| 0 <= k < c.body.len() && c.body[k] == c.food;
            if k < t.body.len() {
                assert(g.body[k + 1] == c.food);
                assert(g.body.contains(c.food));
            }
        }
    }
}

/// A step keeps what holds of every game, as long as food that is eaten finds a
/// spare cell.
pub proof fn lemma_step_keeps_game(g: GameView, diag: Diag)
    requires
        g.wf(),
        g.phase == Phase::Play,
        g.eats() ==> g.has_spare_cell(),
    ensures
        g.stepped(diag).wf(),
{
    lemma_tail_moved(g);
    if !g.hits_wall() && !g.bites_itself() {
        let t = g.tail_moved();
        let c = g.crept();
        lemma_crept(g);
        if g.eats() {
            lemma_spare_cell(g);
            lemma_food_placed(c);
        } else if c.body.contains(c.food) {
            let k = choose|k: int| 0 <= k < c.body.len() && c.body[k] == c.food;
            if k < t.body.len() {
                assert(g.body[k + 1] == c.food);
                assert(g.body.contains(c.food));
            }
        }
    }
}

/// What the snake still is once its tail has moved on.
proof fn lemma_tail_moved(g: GameView)
    requires
        g.wf(),
        g.phase == Phase::Play,
    ensures
        g.tail_moved().layout_wf(),
        g.tail_moved().body_on_board(),
        g.tail_moved().body.no_duplicates(),
        g.tail_moved().body.last() == g.body.last(),
        g.tail_moved().body.len() == g.body.len() - (if g.eats() {
            0int
        } else {
            1int
        }),
        forall|i: int|
            0 <= i < g.tail_moved().body.len() - 1 ==> #[trigger] linked(g.tail_moved().body, i),
{
    let t = g.tail_moved();
    assert forall|i: int| 0 <= i < t.body.len() - 1 implies #[trigger] linked(t.body, i) by {
        if g.eats() {
            assert(linked(g.body, i));
        } else {
            assert(linked(g.body, i + 1));
        }
    }
}

/// Painting the snake changes nothing but the canvas.
pub(crate) proof fn lemma_snake_painted(g: GameView, n: nat)
    ensures
        g.snake_painted(n) == (GameView { buf: g.snake_painted(n).buf, ..g }),
        g.snake_painted(n).buf.len() == g.buf.len(),
    decreases n,
{
    if n > 0 {
        lemma_snake_painted(g, (n - 1) as nat);
    }
}

/// A new game is one, wherever the last one ended.
pub proof fn lemma_restart_gives_game(g: GameView, diag: Diag)
    requires
        g.layout_wf(),
    ensures
        g.restarted(diag).wf(),
        g.restarted(diag).phase == Phase::Play,
        can_land(g.fresh().body, g.cols, g.rows),
{
    let f = g.fresh();
    lemma_snake_painted(g.laid_out(), START_LEN as nat);
    assert(f.cols * f.rows >= 5) by (nonlinear_arith)
        requires
            f.cols >= 5,
            f.rows >= 1,
    ;
    lemma_room_to_land(f.body, f.cols, f.rows);
    lemma_food_placed(f);
    assert forall|i: int| 0 <= i < f.body.len() - 1 implies #[trigger] linked(f.body, i) by {}
}

/// Whether a canvas covers the screen, if there is one.
pub open spec fn covers(buf: Seq<u8>, con: Option<Console>) -> bool {
    con is Some ==> con->0.base@.len() <= buf.len()
}

impl<'a> Game<'a> {
    /// Ends the game and shows the end screen.
    pub fn game_over(&mut self, con: &mut Option<Console>)
        requires
            old(self)@.layout_wf(),
            old(self)@.over_fits(),
            ready(*old(con)),
            covers(old(self).buf@, *old(con)),
        ensures
            final(self)@ == old(self)@.over(),
            ready(*final(con)),
            screen_of(*final(con)) == after_blit(screen_of(*old(con)), final(self).buf@),
    {
        self.phase = Phase::Over;
        self.wipe();
        proof {
            lemma_cell_on_canvas(self@, ((self.cols - 1) as usize, (self.rows - 1) as usize));
            assert(self.buf.len() == self.buf@.len());
            assert(self.cols * CELL <= self.pitch);
        }
        let cx: usize = self.cols * CELL / 2;
        let cy: usize = self.rows * CELL / 2;
        let w: usize = self.font.width;
        let h: usize = self.font.height;
        let title: [u8; 9] = [0x47, 0x41, 0x4D, 0x45, 0x20, 0x4F, 0x56, 0x45, 0x52];
        assert(title@ =~= over_title());
        self.text(cx - 9 * w / 2, cy - 3 * h, &title, FOOD_COLOR);
        let (line, n) = self.score_line();
        let s = slice_subrange(&line, 0, n);
        assert(s@ =~= line@.take(n as int));
        self.text(cx - n * w / 2, cy, s, TEXT_COLOR);
        let hint: [u8; 16] = [
            0x53, 0x50, 0x41, 0x43, 0x45, 0x20, 0x54, 0x4F, 0x20, 0x52, 0x45, 0x53, 0x54, 0x41,
            0x52, 0x54,
        ];
        assert(hint@ =~= restart_hint());
        self.text(cx - 16 * w / 2, cy + 2 * h, &hint, DIM_COLOR);
        blit(con, self.buf.as_slice());
    }

    /// Starts a new game on the same canvas.
    pub fn reset(&mut self, con: &mut Option<Console>, diag: &Diag)
        requires
            old(self)@.layout_wf(),
            old(self)@.restart_fits(*diag),
            ready(*old(con)),
            covers(old(self).buf@, *old(con)),
        ensures
            final(self)@ == old(self)@.restarted(*diag),
            final(self)@.wf(),
            ready(*final(con)),
            screen_of(*final(con)) == after_blit(screen_of(*old(con)), final(self).buf@),
    {
        let ghost start = self@;
        proof {
            lemma_restart_gives_game(start, *diag);
        }
        self.body.clear();
        let y: usize = self.rows / 2;
        let mut i: usize = 0;
        while i < START_LEN
            invariant
                i <= START_LEN,
                y == start.rows / 2,
                start.layout_wf(),
                self@ == (GameView { body: self.body@, ..start }),
                self.body@ == start.first_body().take(i as int),
            decreases START_LEN - i,
        {
            self.body.push((self.cols / 4 + i, y));
            i = i + 1;
            assert(self.body@ =~= start.first_body().take(i as int));
        }
        assert(self.body@ =~= start.first_body());
        self.dir = (1, 0);
        self.score = 0;
        self.phase = Phase::Play;
        self.wipe();
        let ghost bare = self@;
        let mut k: usize = 0;
        while k < START_LEN
            invariant
                k <= START_LEN,
                bare.layout_wf(),
                bare.body_on_board(),
                bare.body.len() == START_LEN,
                self@ == bare.snake_painted(k as nat),
            decreases START_LEN - k,
        {
            proof {
                lemma_snake_painted(bare, k as nat);
                assert(on_board(bare.body[k as int], bare.cols, bare.rows));
            }
            let p = self.body[k];
            self.paint(p, SNAKE_COLOR);
            k = k + 1;
        }
        proof {
            lemma_snake_painted(bare, START_LEN as nat);
            lemma_food_placed(self@);
        }
        self.place_food();
        self.paint_score(diag);
        blit(con, self.buf.as_slice());
    }

    /// Moves the snake one step: ends the game at a wall or on the snake itself,
    /// moves the tail and the head, eats, and shows the new frame.
    pub fn tick(&mut self, con: &mut Option<Console>, diag: &Diag)
        requires
            old(self)@.wf(),
            old(self)@.phase == Phase::Play,
            old(self)@.step_fits(*diag),
            ready(*old(con)),
            covers(old(self).buf@, *old(con)),
        ensures
            final(self)@ == old(self)@.stepped(*diag),
            final(self)@.wf(),
            ready(*final(con)),
            screen_of(*final(con)) == after_blit(screen_of(*old(con)), final(self).buf@),
    {
        let ghost start = self@;
        proof {
            if start.eats() {
                lemma_spare_cell(start);
                assert(!start.hits_wall() && !start.bites_itself());
            }
            lemma_step_keeps_game(start, *diag);
            lemma_tail_moved(start);
        }
        let head = self.body[self.body.len() - 1];
        assert(on_board(start.body[start.body.len() - 1], start.cols, start.rows));
        let x: i32 = head.0 as i32 + self.dir.0;
        let y: i32 = head.1 as i32 + self.dir.1;
        if x < 0 || y < 0 || x >= self.cols as i32 || y >= self.rows as i32 {
            self.game_over(con);
            return;
        }
        let p: Cell = (x as usize, y as usize);
        let ate: bool = p.0 == self.food.0 && p.1 == self.food.1;
        if !ate {
            let tail = self.body.remove(0);
            assert(self.body@ =~= start.body.skip(1));
            self.paint(tail, BG_COLOR);
        }
        assert(self@ == start.tail_moved());
        if holds(&self.body, p) {
            self.game_over(con);
            return;
        }
        self.body.push(p);
        self.paint(p, SNAKE_COLOR);
        if ate {
            self.score = self.score + 1;
            self.place_food();
        }
        self.paint_score(diag);
        blit(con, self.buf.as_slice());
    }

    /// Asks for a direction.
    pub fn set_dir(&mut self, dc: i32, dr: i32)
        requires
            old(self)@.wf(),
            straight((dc, dr)),
        ensures
            final(self)@ == old(self)@.turned((dc, dr)),
            final(self)@.wf(),
    {
        if dc == -self.dir.0 && dr == -self.dir.1 {
            return;
        }
        let n: usize = self.body.len();
        if n >= 2 {
            let head = self.body[n - 1];
            let neck = self.body[n - 2];
            proof {
                assert(on_board(self.body@[n - 1], self@.cols, self@.rows));
                assert(on_board(self.body@[n - 2], self@.cols, self@.rows));
            }
            if head.0 as i32 + dc == neck.0 as i32 && head.1 as i32 + dr == neck.1 as i32 {
                return;
            }
        }
        self.dir = (dc, dr);
    }
}

/// What a key asks for outside the game.
#[derive(Clone, Copy, PartialEq, Eq, Structural)]
pub enum Wish {
    /// Look for the other timer.
    Probe,
    /// Take the timer line back from it.
    Clear,
}

/// The direction that a key asks for: the arrows, or w, s, a and d.
pub open spec fn direction_of(k: u8) -> Option<(i32, i32)> {
    if k == KEY_UP || k == 0x77 {
        Some((0i32, -1i32))
    } else if k == KEY_DOWN || k == 0x73 {
        Some((0i32, 1i32))
    } else if k == KEY_LEFT || k == 0x61 {
        Some((-1i32, 0i32))
    } else if k == KEY_RIGHT || k == 0x64 {
        Some((1i32, 0i32))
    } else {
        None
    }
}

/// The game as a value, if there is one.
pub open spec fn game_of(game: Option<Game>) -> Option<GameView> {
    match game {
        Some(g) => Some(g@),
        None => None,
    }
}

/// What is left when the waiting keys have been worked off up to a wish.
#[verifier::ext_equal]
pub struct Drained {
    pub game: Option<GameView>,
    pub restart: bool,
    pub keys: Seq<u8>,
    pub wish: Option<Wish>,
}

/// Works off keys, oldest first: directions turn the snake, the space bar asks for
/// a new game, h and c are wishes, and every other key does nothing.
pub open spec fn drained(game: Option<GameView>, restart: bool, keys: Seq<u8>) -> Drained
    decreases keys.len(),
{
    if keys.len() == 0 {
        Drained { game, restart, keys, wish: None }
    } else {
        let k = keys[0];
        let rest = keys.skip(1);
        if k == 0x68 {
            Drained { game, restart, keys: rest, wish: Some(Wish::Probe) }
        } else if k == 0x63 {
            Drained { game, restart, keys: rest, wish: Some(Wish::Clear) }
        } else {
            let turned = match (game, direction_of(k)) {
                (Some(g), Some(dir)) => Some(g.turned(dir)),
                _ => game,
            };
            drained(turned, restart || k == 0x20, rest)
        }
    }
}

/// Whether there is no game or a well-formed one.
pub open spec fn game_ready(game: Option<Game>) -> bool {
    match game {
        Some(g) => g@.wf(),
        None => true,
    }
}

/// Asks the game, if there is one, for a direction.
pub fn set_dir(game: &mut Option<Game>, dc: i32, dr: i32)
    requires
        game_ready(*old(game)),
        straight((dc, dr)),
    ensures
        game_ready(*final(game)),
        game_of(*final(game)) == (match game_of(*old(game)) {
            Some(g) => Some(g.turned((dc, dr))),
            None => None,
        }),
{
    if let Some(g) = game {
        g.set_dir(dc, dr);
    }
}

/// Works off the waiting keys. Where one of them is a wish, it stops behind it and
/// gives the wish; the caller grants it and calls again.
pub fn drain_keys(game: &mut Option<Game>, kb: &mut Keyboard, restart: &mut bool) -> (wish: Option<
    Wish,
>)
    requires
        game_ready(*old(game)),
        old(kb).wf(),
    ensures
        game_ready(*final(game)),
        final(kb).wf(),
        ({
            let d = drained(game_of(*old(game)), *old(restart), old(kb)@.queue);
            &&& game_of(*final(game)) == d.game
            &&& *final(restart) == d.restart
            &&& final(kb)@ == (KeyboardView { queue: d.keys, ..old(kb)@ })
            &&& wish == d.wish
        }),
        *final(game) is Some <==> *old(game) is Some,
        *old(game) is Some ==> final(game)->0.buf@ == old(game)->0.buf@,
{
    let ghost all = drained(game_of(*game), *restart, kb@.queue);
    let ghost start = kb@;
    loop
        invariant
            game_ready(*game),
            kb.wf(),
            all == drained(game_of(*old(game)), *old(restart), old(kb)@.queue),
            start == old(kb)@,
            drained(game_of(*game), *restart, kb@.queue) == all,
            kb@ == (KeyboardView { queue: kb@.queue, ..start }),
            *game is Some <==> *old(game) is Some,
            *old(game) is Some ==> game->0.buf@ == old(game)->0.buf@,
        decreases kb@.queue.len(),
    {
        match pop_key(kb) {
            None => {
                return None;
            },
            Some(k) => {
                if k == KEY_UP || k == 0x77 {
                    set_dir(game, 0, -1);
                } else if k == KEY_DOWN || k == 0x73 {
                    set_dir(game, 0, 1);
                } else if k == KEY_LEFT || k == 0x61 {
                    set_dir(game, -1, 0);
                } else if k == KEY_RIGHT || k == 0x64 {
                    set_dir(game, 1, 0);
                } else if k == 0x20 {
                    *restart = true;
                } else if k == 0x68 {
                    return Some(Wish::Probe);
                } else if k == 0x63 {
                    return Some(Wish::Clear);
                }
            },
        }
    }
}

impl GameView {
    /// The game after a tick, the keys having been worked off: a step at every
    /// tenth tick, or a new game if one was asked for after the end.
    pub open spec fn ticked(self, t: u64, restart: bool, diag: Diag) -> GameView {
        if self.phase == Phase::Over && restart {
            self.restarted(diag)
        } else if self.phase == Phase::Play && t % STEP_INTERVAL == 0 {
            self.stepped(diag)
        } else {
            self
        }
    }

    /// Whether a tick shows a new frame.
    pub open spec fn shows(self, t: u64, restart: bool) -> bool {
        match self.phase {
            Phase::Over => restart,
            Phase::Play => t % STEP_INTERVAL == 0,
        }
    }

    /// What a tick draws lies on the canvas, and new food finds a cell.
    pub open spec fn tick_fits(self, t: u64, restart: bool, diag: Diag) -> bool {
        self.shows(t, restart) ==> match self.phase {
            Phase::Over => self.restart_fits(diag),
            Phase::Play => self.step_fits(diag),
        }
    }
}

/// Whether a tick will show a new frame, for which the devices have to be read.
pub fn shows_frame(game: &Option<Game>, t: u64, restart: bool) -> (b: bool)
    ensures
        b == (*game is Some && game->0@.shows(t, restart)),
{
    match game {
        None => false,
        Some(g) => match g.phase {
            Phase::Over => restart,
            Phase::Play => t % STEP_INTERVAL == 0,
        },
    }
}

/// Whatever a tick does, the canvas stays as large as it is.
pub proof fn lemma_canvas_keeps_its_size(g: GameView, t: u64, restart: bool, diag: Diag)
    ensures
        g.ticked(t, restart, diag).buf.len() == g.buf.len(),
{
    lemma_snake_painted(g.laid_out(), START_LEN as nat);
}

/// What the main loop does at every tick, the keys having been worked off.
pub fn on_tick(
    game: &mut Option<Game>,
    con: &mut Option<Console>,
    t: u64,
    restart: bool,
    diag: &Diag,
)
    requires
        game_ready(*old(game)),
        ready(*old(con)),
        *old(game) is Some ==> {
            &&& old(game)->0@.tick_fits(t, restart, *diag)
            &&& covers(old(game)->0.buf@, *old(con))
        },
    ensures
        game_ready(*final(game)),
        ready(*final(con)),
        game_of(*final(game)) == (match game_of(*old(game)) {
            Some(g) => Some(g.ticked(t, restart, *diag)),
            None => None,
        }),
        screen_of(*final(con)) == (match game_of(*old(game)) {
            Some(g) => if g.shows(t, restart) {
                after_blit(screen_of(*old(con)), g.ticked(t, restart, *diag).buf)
            } else {
                screen_of(*old(con))
            },
            None => screen_of(*old(con)),
        }),
        *final(game) is Some ==> covers(final(game)->0.buf@, *final(con)),
{
    proof {
        if let Some(g) = game {
            lemma_canvas_keeps_its_size(g@, t, restart, *diag);
        }
    }
    if let Some(g) = game {
        match g.phase {
            Phase::Over => {
                if restart {
                    g.reset(con, diag);
                }
            },
            Phase::Play => {
                if t % STEP_INTERVAL == 0 {
                    g.tick(con, diag);
                }
            },
        }
    }
}

/// "game: canvas alloc FAILED!" and a line feed.
pub open spec fn no_canvas_text() -> Seq<u8> {
    "game: canvas alloc FAILED!\n".spec_bytes()
}

/// A game on a screen before its first frame.
pub open spec fn unstarted(c: ConsoleView, ticks: u64, buf: Seq<u8>, font: FontView) -> GameView {
    GameView {
        cols: c.width / CELL as int,
        rows: c.height / CELL as int,
        body: Seq::empty(),
        dir: (1, 0),
        food: (0, 0),
        rng: ticks | 1,
        phase: Phase::Play,
        score: 0,
        buf,
        pitch: c.pitch,
        font,
    }
}

/// Whether a screen has room for the board and the first frame of a game.
pub open spec fn start_fits(c: ConsoleView, font: FontView, diag: Diag) -> bool {
    let g = unstarted(c, 0, c.mem, font);
    g.layout_wf() && g.restart_fits(diag)
}

/// The size of the canvas that a game on this screen needs, if there is a screen.
pub fn wants_canvas(con: &Option<Console>) -> (size: Option<usize>)
    requires
        ready(*con),
    ensures
        match *con {
            Some(c) => size is Some && size->0 == c.pitch * c.height,
            None => size is None,
        },
{
    let (w, h) = pixel_size(con);
    let (_, size) = canvas(con);
    proof {
        if let Some(c) = con {
            lemma_screen_is_not_empty(c@);
        }
    }
    if w == 0 || h == 0 || size == 0 {
        return None;
    }
    Some(size)
}

/// A screen has pixels.
proof fn lemma_screen_is_not_empty(c: ConsoleView)
    requires
        c.screen_wf(),
    ensures
        c.width > 0,
        c.height > 0,
        c.pitch * c.height > 0,
{
    if c.width == 0 {
        vstd::arithmetic::div_mod::lemma_basic_div(0, c.font.width);
    }
    if c.height == 0 {
        vstd::arithmetic::div_mod::lemma_basic_div(0, c.font.height);
    }
    assert(c.pitch * c.height > 0) by (nonlinear_arith)
        requires
            c.pitch > 0,
            c.height > 0,
    ;
}

/// Starts a game on the screen and shows its first frame. Without a screen nothing
/// happens; without a canvas the screen says so.
pub fn init<'a>(
    game: &mut Option<Game<'a>>,
    con: &mut Option<Console>,
    buf: Option<Vec<u8>>,
    ticks: u64,
    diag: &Diag,
    font: Font<'a>,
)
    requires
        ready(*old(con)),
        *old(con) is Some && buf is Some ==> {
            &&& buf->0@.len() == old(con)->0.base@.len()
            &&& start_fits(old(con)->0@, font@, *diag)
        },
    ensures
        ready(*final(con)),
        *old(con) is None || buf is None ==> *final(game) == *old(game),
        *old(con) is None ==> screen_of(*final(con)) is None,
        *old(con) is Some && buf is None ==> screen_of(*final(con)) == after_text(
            screen_of(*old(con)),
            no_canvas_text(),
        ),
        *old(con) is Some && buf is Some ==> {
            let g = unstarted(old(con)->0@, ticks, buf->0@, font@);
            &&& game_of(*final(game)) == Some(g.restarted(*diag))
            &&& game_ready(*final(game))
            &&& screen_of(*final(con)) == after_blit(
                screen_of(*old(con)),
                g.restarted(*diag).buf,
            )
            &&& covers(final(game)->0.buf@, *final(con))
        },
{
    if wants_canvas(con).is_none() {
        return;
    }
    let (w, h) = pixel_size(con);
    let (pitch, _) = canvas(con);
    match buf {
        None => {
            print(con, "game: canvas alloc FAILED!\n");
        },
        Some(buf) => {
            let mut g = Game {
                cols: w / CELL,
                rows: h / CELL,
                body: Vec::new(),
                dir: (1, 0),
                food: (0, 0),
                rng: ticks | 1,
                phase: Phase::Play,
                score: 0,
                buf,
                pitch,
                font,
            };
            proof {
                let c = con->0@;
                lemma_snake_painted(unstarted(c, 0, c.mem, font@).laid_out(), START_LEN as nat);
                lemma_snake_painted(g@.laid_out(), START_LEN as nat);
            }
            g.reset(con, diag);
            *game = Some(g);
        },
    }
}

/// How many digits a number has in decimal.
fn digit_count(n: usize) -> (digits: usize)
    ensures
        digits == dec_text(n as nat).len(),
        digits <= 20,
{
    proof {
        lemma_twenty_digits(n as nat);
    }
    let mut v: usize = n;
    let mut digits: usize = 1;
    while v >= 10
        invariant
            digits >= 1,
            dec_text(n as nat).len() == dec_text(v as nat).len() + digits - 1,
            dec_text(n as nat).len() <= 20,
        decreases v,
    {
        proof {
            lemma_dec_text_reads_back((v / 10) as nat);
        }
        v = v / 10;
        digits = digits + 1;
    }
    digits
}

/// Whether a line of at most 26 characters at (x, y) lies on a canvas.
fn line_fits(len: usize, pitch: usize, font: &Font, x: i128, y: i128, n: usize) -> (fits: bool)
    requires
        font@.wf(),
        n <= 26,
        -0x10_0000_0000_0000_0000 <= x <= 0x10_0000_0000_0000_0000,
        -0x100_0000_0000_0000_0000 <= y <= 0x100_0000_0000_0000_0000,
    ensures
        fits == (0 <= x && 0 <= y && in_bounds(
            len as nat,
            pitch as int,
            x + n * font.width,
            y + font.height,
        )),
{
    if x < 0 || y < 0 || pitch == 0 {
        return false;
    }
    assert(n * font.width <= 26 * 8) by (nonlinear_arith)
        requires
            n <= 26,
            font.width <= 8,
    ;
    let x1: i128 = x + (n * font.width) as i128;
    let y1: i128 = y + font.height as i128;
    let rows: i128 = (len / pitch) as i128;
    assert(y1 <= rows <==> y1 * pitch <= len) by (nonlinear_arith)
        requires
            rows == len as int / pitch as int,
            pitch > 0,
            len >= 0,
    ;
    4 * x1 <= pitch as i128 && y1 <= rows
}

/// Whether the score and the diagnostic line lie on a canvas.
fn hud_room(len: usize, pitch: usize, font: &Font, score: usize, diag: &Diag) -> (fits: bool)
    requires
        font@.wf(),
    ensures
        forall|g: GameView|
            g.buf.len() == len && g.pitch == pitch && g.font == font@ && g.score == score
                ==> fits == #[trigger] g.hud_fits(*diag),
{
    if diag.ticks / 100 >= 100_000_000 {
        return false;
    }
    let (_, n) = diag.line();
    let digits: usize = digit_count(score);
    assert(score_text(score as int).len() == 6 + digits);
    line_fits(len, pitch, font, 8, 8, 6 + digits) && line_fits(len, pitch, font, 8, 28, n)
}

impl<'a> Game<'a> {
    /// Whether the end screen lies on the canvas.
    fn over_room(&self) -> (fits: bool)
        requires
            self@.layout_wf(),
        ensures
            fits == self@.over_fits(),
    {
        let cx: i128 = self.cols as i128 * 16 / 2;
        let cy: i128 = self.rows as i128 * 16 / 2;
        let w: i128 = self.font.width as i128;
        let h: i128 = self.font.height as i128;
        let n: usize = 6 + digit_count(self.score);
        assert(score_text(self.score as int).len() == n);
        assert(0 <= n * w <= 26 * 8) by (nonlinear_arith)
            requires
                n <= 26,
                0 <= w <= 8,
        ;
        let len: usize = self.buf.len();
        let pitch: usize = self.pitch;
        line_fits(len, pitch, &self.font, cx - 9 * w / 2, cy - 3 * h, 9) && line_fits(
            len,
            pitch,
            &self.font,
            cx - n as i128 * w / 2,
            cy,
            n,
        ) && line_fits(len, pitch, &self.font, cx - 16 * w / 2, cy + 2 * h, 16)
    }

    /// Whether the next step can be shown: what it draws lies on the canvas, and
    /// food, if it is eaten, finds a new cell.
    pub fn step_room(&self, diag: &Diag) -> (fits: bool)
        requires
            self@.wf(),
            self@.phase == Phase::Play,
        ensures
            fits == self@.step_fits(*diag),
    {
        proof {
            lemma_tail_moved(self@);
            assert(on_board(self@.body[self@.body.len() - 1], self@.cols, self@.rows));
        }
        let n: usize = self.body.len();
        let head = self.body[n - 1];
        let x: i32 = head.0 as i32 + self.dir.0;
        let y: i32 = head.1 as i32 + self.dir.1;
        if x < 0 || y < 0 || x >= self.cols as i32 || y >= self.rows as i32 {
            return self.over_room();
        }
        let p: Cell = (x as usize, y as usize);
        let eats: bool = p.0 == self.food.0 && p.1 == self.food.1;
        let tail = self.body[0];
        let held: bool = holds(&self.body, p);
        let bites: bool = held && (eats || !(p.0 == tail.0 && p.1 == tail.1));
        proof {
            lemma_bite(self@);
        }
        if bites {
            return self.over_room();
        }
        let score: usize = if eats {
            self.score + 1
        } else {
            self.score
        };
        proof {
            lemma_crept(self@);
            let c = self@.crept();
            lemma_land_or_full(c.body, c.cols, c.rows);
            assert(self.cols * self.rows <= 0x4000_0000_0000_0000) by (nonlinear_arith)
                requires
                    0 <= self.cols <= 0x8000_0000,
                    0 <= self.rows <= 0x8000_0000,
            ;
        }
        let room: bool = !eats || n as u128 + 1 < self.cols as u128 * self.rows as u128;
        hud_room(self.buf.len(), self.pitch, &self.font, score, diag) && room
    }

    /// Whether the first frame of a new game lies on the canvas.
    pub fn restart_room(&self, diag: &Diag) -> (fits: bool)
        requires
            self@.layout_wf(),
        ensures
            fits == self@.restart_fits(*diag),
    {
        proof {
            lemma_snake_painted(self@.laid_out(), START_LEN as nat);
        }
        hud_room(self.buf.len(), self.pitch, &self.font, 0, diag)
    }
}

/// The next step leads onto the snake if its cell is held by it, other than by a
/// tail that is about to leave.
proof fn lemma_bite(g: GameView)
    requires
        g.wf(),
        g.phase == Phase::Play,
        !g.hits_wall(),
    ensures
        g.bites_itself() <==> g.body.contains(g.next_head()) && (g.eats() || g.next_head()
            != g.body[0]),
{
    let p = g.next_head();
    let t = g.tail_moved();
    if !g.eats() {
        if t.body.contains(p) {
            let k = choose|k: int| 0 <= k < t.body.len() && t.body[k] == p;
            assert(g.body[k + 1] == p);
        }
        if g.body.contains(p) && p != g.body[0] {
            let k = choose|k: int| 0 <= k < g.body.len() && g.body[k] == p;
            assert(t.body[k - 1] == p);
        }
    }
}

/// Whether the game can take a tick: what it draws lies on the canvas, and new
/// food finds a cell.
pub fn tick_room(game: &Option<Game>, t: u64, restart: bool, diag: &Diag) -> (fits: bool)
    requires
        game_ready(*game),
    ensures
        fits == (*game is Some ==> game->0@.tick_fits(t, restart, *diag)),
{
    match game {
        None => true,
        Some(g) => {
            match g.phase {
                Phase::Over => !restart || g.restart_room(diag),
                Phase::Play => t % STEP_INTERVAL != 0 || g.step_room(diag),
            }
        },
    }
}

/// Whether a screen has room for the board and the first frame of a game.
pub fn start_room(con: &Option<Console>, font: &Font, diag: &Diag) -> (fits: bool)
    requires
        ready(*con),
        font@.wf(),
    ensures
        fits == (*con is Some ==> start_fits(con->0@, font@, *diag)),
{
    match con {
        None => true,
        Some(c) => {
            let cols: usize = c.width / CELL;
            let rows: usize = c.height / CELL;
            proof {
                let g = unstarted(c@, 0, c.base@, font@);
                assert(in_bounds(g.buf.len(), g.pitch, g.cols * CELL, g.rows * CELL)) by {
                    assert(g.rows * CELL * g.pitch <= c.pitch * c.height) by (nonlinear_arith)
                        requires
                            g.rows * CELL <= c.height,
                            g.pitch == c.pitch,
                            g.pitch >= 0,
                    ;
                }
                lemma_snake_painted(g.laid_out(), START_LEN as nat);
                assert(c.base.len() == c.base@.len());
            }
            5 <= cols && cols <= 0x7FFF_FFFF && 1 <= rows && rows <= 0x7FFF_FFFF && hud_room(
                c.base.len(),
                c.pitch,
                font,
                0,
                diag,
            )
        },
    }
}

/// A step ends the game exactly at a wall or on the snake itself; otherwise it
/// brings the head to the next cell and earns a point exactly for food.
pub proof fn lemma_step_outcome(g: GameView, diag: Diag)
    requires
        g.wf(),
        g.phase == Phase::Play,
    ensures
        g.stepped(diag).phase == Phase::Over <==> g.hits_wall() || g.bites_itself(),
        g.stepped(diag).phase == Phase::Play ==> {
            &&& g.stepped(diag).body.last() == g.next_head()
            &&& g.stepped(diag).score == g.score + (if g.eats() {
                1int
            } else {
                0int
            })
        },
        g.stepped(diag).phase == Phase::Over ==> g.stepped(diag).score == g.score,
{
}

/// The snake may follow its own tail: the cell that the tail leaves is free.
pub proof fn lemma_tail_may_be_followed(g: GameView)
    requires
        g.wf(),
        g.phase == Phase::Play,
        !g.hits_wall(),
        g.next_head() == g.body[0],
    ensures
        !g.bites_itself(),
{
    lemma_bite(g);
    assert(g.body.contains(g.body[0]));
}

/// Where neither h nor c was pressed, no wish is ever granted, and all keys are
/// worked off.
pub proof fn lemma_no_wish_without_its_key(game: Option<GameView>, restart: bool, keys: Seq<u8>)
    requires
        !keys.contains(0x68),
        !keys.contains(0x63),
    ensures
        drained(game, restart, keys).wish is None,
        drained(game, restart, keys).keys.len() == 0,
        drained(game, restart, keys).restart <==> restart || keys.contains(0x20),
    decreases keys.len(),
{
    if keys.len() > 0 {
        let k = keys[0];
        let rest = keys.skip(1);
        assert(keys.contains(k));
        assert forall|x: u8| rest.contains(x) implies keys.contains(x) by {
            let j = choose|j: int| 0 <= j < rest.len() && rest[j] == x;
            assert(keys[j + 1] == x);
        }
        if keys.contains(0x20) && k != 0x20 {
            let j = choose|j: int| 0 <= j < keys.len() && keys[j] == 0x20;
            assert(rest[j - 1] == 0x20);
        }
        let turned = match (game, direction_of(k)) {
            (Some(g), Some(dir)) => Some(g.turned(dir)),
            _ => game,
        };
        lemma_no_wish_without_its_key(turned, restart || k == 0x20, rest);
    }
}

} // verus!
