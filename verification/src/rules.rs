//! The rules of the snake game, said in columns, rows and pixels: what a step, a key
//! and a tick do, and what is then to be seen on the canvas.

#[allow(unused_imports)]
use crate::board::{can_land, cell_of, lemma_cell_is_picked, lemma_picked_cell, Cell};
#[allow(unused_imports)]
use crate::canvas::{block, caption, inked, lemma_ink_reads_back, pixel_at};
#[allow(unused_imports)]
use crate::console::{hex_digit, ConsoleView};
#[allow(unused_imports)]
use crate::font::FontView;
#[allow(unused_imports)]
use crate::game::{
    dec_text, drained, game_of, lemma_first_landing, lemma_food_placed, lemma_lands_once,
    lemma_restart_gives_game, lemma_snake_painted, linked, start_fits, straight, unstarted, Diag,
    Drained, Game, GameView, Phase, Wish,
};
#[allow(unused_imports)]
use crate::rng::{lemma_every_number_is_drawn, nth_drawn};
use vstd::prelude::*;
#[allow(unused_imports)]
use vstd::string::StringSliceAdditionalSpecFns;

verus! {

/// A step onto a free cell of the board: the game goes on, every cell of the snake
/// takes the place of the one before it, the head is on that cell, and nothing else
/// changes.
pub proof fn lemma_step_to_a_free_cell(g: GameView, diag: Diag, p: Cell)
    requires
        g.phase == Phase::Play,
        g.body.len() >= 1,
        p.0 == g.body[g.body.len() - 1].0 + g.dir.0,
        p.1 == g.body[g.body.len() - 1].1 + g.dir.1,
        p.0 < g.cols,
        p.1 < g.rows,
        p != g.food,
        forall|i: int| 1 <= i < g.body.len() ==> #[trigger] g.body[i] != p,
    ensures
        ({
            let s = g.stepped(diag);
            &&& s == (GameView { body: s.body, buf: s.buf, ..g })
            &&& s.phase == Phase::Play
            &&& s.body.len() == g.body.len()
            &&& s.body.last() == p
            &&& forall|i: int| 0 <= i < g.body.len() - 1 ==> #[trigger] s.body[i] == g.body[i + 1]
            &&& s.buf.len() == g.buf.len()
        }),
{
}

/// A step onto the food: the snake keeps all its cells and has one more, which is
/// the food's, a point is earned, and the food moves on to the first of the drawn
/// numbers' cells that the snake leaves free.
pub proof fn lemma_step_to_the_food(g: GameView, diag: Diag, p: Cell)
    requires
        g.phase == Phase::Play,
        g.layout_wf(),
        g.body.len() >= 1,
        p.0 == g.body[g.body.len() - 1].0 + g.dir.0,
        p.1 == g.body[g.body.len() - 1].1 + g.dir.1,
        p.0 < g.cols,
        p.1 < g.rows,
        p == g.food,
        forall|i: int| 0 <= i < g.body.len() ==> #[trigger] g.body[i] != p,
        exists|q: Cell|
            #![trigger g.body.contains(q)]
            q.0 < g.cols && q.1 < g.rows && q != p && !g.body.contains(q),
    ensures
        ({
            let s = g.stepped(diag);
            &&& s == (GameView {
                body: s.body,
                buf: s.buf,
                rng: s.rng,
                food: s.food,
                score: g.score + 1,
                ..g
            })
            &&& s.phase == Phase::Play
            &&& s.body == g.body.push(p)
            &&& s.buf.len() == g.buf.len()
            &&& s.food.0 == s.rng as int % g.cols
            &&& s.food.1 == s.rng as int / 0x1_0000_0000 % g.rows
            &&& !s.body.contains(s.food)
            &&& exists|n: nat|
                n >= 1 && s.rng == #[trigger] nth_drawn(g.rng, n) && forall|m: nat|
                    1 <= m < n ==> s.body.contains(
                        cell_of(#[trigger] nth_drawn(g.rng, m), g.cols, g.rows),
                    )
        }),
{
    let c = g.crept();
    lemma_land_beside(g, p);
    lemma_where_food_lands(c);
    lemma_picked_cell(g.stepped(diag).rng, g.cols, g.rows);
    vstd::arithmetic::div_mod::lemma_mod_bound(g.stepped(diag).rng as int, g.cols);
    vstd::arithmetic::div_mod::lemma_mod_bound(
        g.stepped(diag).rng as int / 0x1_0000_0000,
        g.rows,
    );
}

/// A free cell beside the snake and its new head is one that a number picks.
proof fn lemma_land_beside(g: GameView, p: Cell)
    requires
        g.layout_wf(),
        exists|q: Cell|
            #![trigger g.body.contains(q)]
            q.0 < g.cols && q.1 < g.rows && q != p && !g.body.contains(q),
    ensures
        can_land(g.body.push(p), g.cols, g.rows),
{
    let q = choose|q: Cell|
        #![trigger g.body.contains(q)]
        q.0 < g.cols && q.1 < g.rows && q != p && !g.body.contains(q);
    let r = lemma_cell_is_picked(q, g.cols, g.rows);
    assert(!g.body.push(p).contains(cell_of(r, g.cols, g.rows)));
}

/// The food lands where the first drawn number that picks a free cell puts it.
proof fn lemma_where_food_lands(g: GameView)
    requires
        g.layout_wf(),
        can_land(g.body, g.cols, g.rows),
    ensures
        ({
            let s = g.food_placed();
            &&& s == (GameView { buf: s.buf, rng: s.rng, food: s.food, ..g })
            &&& s.buf.len() == g.buf.len()
            &&& s.food == cell_of(s.rng, g.cols, g.rows)
            &&& !g.body.contains(s.food)
            &&& exists|n: nat|
                n >= 1 && s.rng == #[trigger] nth_drawn(g.rng, n) && forall|m: nat|
                    1 <= m < n ==> g.body.contains(
                        cell_of(#[trigger] nth_drawn(g.rng, m), g.cols, g.rows),
                    )
        }),
{
    lemma_food_placed(g);
    let target = choose|r: u64| !g.body.contains(#[trigger] cell_of(r, g.cols, g.rows));
    let n = lemma_every_number_is_drawn(g.rng, target);
    let first = lemma_first_landing(g, n);
    lemma_lands_once(g, first);
    assert(g.food_placed().rng == nth_drawn(g.rng, first));
}

/// A step off the board: the game is over, and but for the canvas all is as it was.
pub proof fn lemma_step_off_the_board(g: GameView, diag: Diag, x: int, y: int)
    requires
        g.body.len() >= 1,
        x == g.body[g.body.len() - 1].0 + g.dir.0,
        y == g.body[g.body.len() - 1].1 + g.dir.1,
        x < 0 || x >= g.cols || y < 0 || y >= g.rows,
    ensures
        ({
            let s = g.stepped(diag);
            &&& s == (GameView { phase: Phase::Over, buf: s.buf, ..g })
            &&& s.buf == g.over().buf
        }),
{
}

/// A step onto the snake, any of its cells but the tail, which moves away: the game is
/// over, with the tail already moved.
pub proof fn lemma_step_onto_the_snake(g: GameView, diag: Diag, i: int)
    requires
        1 <= i < g.body.len(),
        g.body[i].0 == g.body[g.body.len() - 1].0 + g.dir.0,
        g.body[i].1 == g.body[g.body.len() - 1].1 + g.dir.1,
        g.body[i].0 < g.cols,
        g.body[i].1 < g.rows,
        g.body[i] != g.food,
    ensures
        ({
            let s = g.stepped(diag);
            &&& s == (GameView { phase: Phase::Over, body: s.body, buf: s.buf, ..g })
            &&& s.body.len() == g.body.len() - 1
            &&& forall|k: int| 0 <= k < g.body.len() - 1 ==> #[trigger] s.body[k] == g.body[k + 1]
            &&& s.buf == g.over().buf
        }),
{
    assert(g.body.skip(1)[i - 1] == g.body[i]);
}

/// A cell is a square of sixteen pixels, and painting it changes just those.
proof fn lemma_painted_pixel(g: GameView, p: Cell, color: u32, x: int, y: int)
    requires
        0 <= x,
        0 <= y,
        4 * x + 4 <= g.pitch,
        y * g.pitch + 4 * x + 4 <= g.buf.len(),
    ensures
        pixel_at(g.painted(p, color).buf, g.pitch, x, y) == if x / 16 == p.0 && y / 16 == p.1 {
            color as int
        } else {
            pixel_at(g.buf, g.pitch, x, y)
        },
{
    lemma_ink_reads_back(
        g.buf,
        g.pitch,
        block(16 * p.0, 16 * p.1, 16 * p.0 + 16, 16 * p.1 + 16, color),
        x,
        y,
    );
}

/// Beside the score and the diagnostic line they change nothing.
proof fn lemma_beside_the_lines(g: GameView, diag: Diag, x: int, y: int)
    requires
        0 <= x,
        0 <= y,
        4 * x + 4 <= g.pitch,
        y * g.pitch + 4 * x + 4 <= g.buf.len(),
        !(8 <= x < 8 + (6 + dec_text(g.score as nat).len()) * g.font.width && 8 <= y < 8
            + g.font.height),
        !(8 <= x < 8 + diag.text().len() * g.font.width && 28 <= y < 28 + g.font.height),
    ensures
        pixel_at(g.with_hud(diag).buf, g.pitch, x, y) == pixel_at(g.buf, g.pitch, x, y),
{
    let s = crate::game::score_text(g.score);
    let one = caption(g.font, s, 8, 8, 0x00FFFFFF, 0);
    let two = caption(g.font, diag.text(), 8, 28, 0x00888888, 0);
    assert(s.len() == 6 + dec_text(g.score as nat).len());
    lemma_ink_reads_back(g.buf, g.pitch, one, x, y);
    lemma_ink_reads_back(inked(g.buf, g.pitch, one), g.pitch, two, x, y);
}

/// What is seen of a step onto a free cell, beside the two lines of text: that cell
/// turns green, the one that the tail has left black, and no other pixel changes.
pub proof fn lemma_step_is_seen(g: GameView, diag: Diag, p: Cell, x: int, y: int)
    requires
        g.body.len() >= 1,
        p.0 == g.body[g.body.len() - 1].0 + g.dir.0,
        p.1 == g.body[g.body.len() - 1].1 + g.dir.1,
        p.0 < g.cols,
        p.1 < g.rows,
        p != g.food,
        forall|i: int| 1 <= i < g.body.len() ==> #[trigger] g.body[i] != p,
        0 <= x,
        0 <= y,
        4 * x + 4 <= g.pitch,
        y * g.pitch + 4 * x + 4 <= g.buf.len(),
        !(8 <= x < 8 + (6 + dec_text(g.score as nat).len()) * g.font.width && 8 <= y < 8
            + g.font.height),
        !(8 <= x < 8 + diag.text().len() * g.font.width && 28 <= y < 28 + g.font.height),
    ensures
        pixel_at(g.stepped(diag).buf, g.pitch, x, y) == if x / 16 == p.0 && y / 16 == p.1 {
            0x0000CC00
        } else if x / 16 == g.body[0].0 && y / 16 == g.body[0].1 {
            0
        } else {
            pixel_at(g.buf, g.pitch, x, y)
        },
{
    let t = GameView { body: g.body.skip(1), ..g };
    lemma_painted_pixel(t, g.body[0], 0, x, y);
    let c = GameView { body: t.body.push(p), ..t.painted(g.body[0], 0) };
    assert(g.next_head() == p);
    assert(g.crept() == c.painted(p, 0x0000CC00));
    lemma_painted_pixel(c, p, 0x0000CC00, x, y);
    lemma_beside_the_lines(g.crept(), diag, x, y);
}

/// What is seen of a step onto the food, beside the two lines of text: its cell turns
/// green, that of the new food red, and no other pixel changes.
pub proof fn lemma_meal_is_seen(g: GameView, diag: Diag, p: Cell, x: int, y: int)
    requires
        g.layout_wf(),
        g.body.len() >= 1,
        p.0 == g.body[g.body.len() - 1].0 + g.dir.0,
        p.1 == g.body[g.body.len() - 1].1 + g.dir.1,
        p.0 < g.cols,
        p.1 < g.rows,
        p == g.food,
        forall|i: int| 0 <= i < g.body.len() ==> #[trigger] g.body[i] != p,
        exists|q: Cell|
            #![trigger g.body.contains(q)]
            q.0 < g.cols && q.1 < g.rows && q != p && !g.body.contains(q),
        0 <= x,
        0 <= y,
        4 * x + 4 <= g.pitch,
        y * g.pitch + 4 * x + 4 <= g.buf.len(),
        !(8 <= x < 8 + (6 + dec_text((g.score + 1) as nat).len()) * g.font.width && 8 <= y < 8
            + g.font.height),
        !(8 <= x < 8 + diag.text().len() * g.font.width && 28 <= y < 28 + g.font.height),
    ensures
        ({
            let food = g.stepped(diag).food;
            pixel_at(g.stepped(diag).buf, g.pitch, x, y) == if x / 16 == p.0 && y / 16 == p.1 {
                0x0000CC00
            } else if x / 16 == food.0 && y / 16 == food.1 {
                0x00CC0000
            } else {
                pixel_at(g.buf, g.pitch, x, y)
            }
        }),
{
    let c = GameView { body: g.body.push(p), ..g };
    assert(g.next_head() == p);
    assert(g.crept() == (GameView { score: g.score + 1, ..c.painted(p, 0x0000CC00) }));
    lemma_land_beside(g, p);
    lemma_where_food_lands(g.crept());
    assert(g.crept().body[g.body.len() as int] == p);
    lemma_painted_pixel(c, p, 0x0000CC00, x, y);
    let f = g.crept().food_placed();
    let r = GameView { rng: f.rng, food: f.food, ..g.crept() };
    assert(f == r.painted(f.food, 0x00CC0000));
    lemma_painted_pixel(r, f.food, 0x00CC0000, x, y);
    lemma_beside_the_lines(f, diag, x, y);
}

/// The two lines of text: "SCORE " and the score in white at (8, 8), and over it the
/// diagnostic line in grey at (8, 28), both on black.
pub proof fn lemma_two_lines(g: GameView, diag: Diag)
    ensures
        ({
            let score = seq!['S', 'C', 'O', 'R', 'E', ' '].map_values(|c: char| c as u8) + dec_text(
                g.score as nat,
            );
            let one = inked(g.buf, g.pitch, caption(g.font, score, 8, 8, 0x00FFFFFF, 0));
            let two = inked(one, g.pitch, caption(g.font, diag.text(), 8, 28, 0x00888888, 0));
            g.with_hud(diag) == (GameView { buf: two, ..g })
        }),
{
    assert(seq!['S', 'C', 'O', 'R', 'E', ' '].map_values(|c: char| c as u8)
        =~= crate::game::score_label());
}

/// The diagnostic line: "T=" and the whole seconds, "P" with a plus or a minus, "M"
/// with one or zero, "I=" with two hexadecimal digits, and "L" with one, zero or a
/// dash.
pub proof fn lemma_diagnostic_line(d: Diag)
    ensures
        ({
            let secs = dec_text((d.ticks / 100) as nat);
            let n = secs.len() as int;
            let t = d.text();
            &&& t.len() == n + 16
            &&& t[0] == 'T' as u8 && t[1] == '=' as u8
            &&& t.subrange(2, n + 2) == secs
            &&& t[n + 2] == ' ' as u8 && t[n + 3] == 'P' as u8
            &&& t[n + 4] == if d.pit_ok {
                '+' as u8
            } else {
                '-' as u8
            }
            &&& t[n + 5] == ' ' as u8 && t[n + 6] == 'M' as u8
            &&& t[n + 7] == if d.irq0_masked {
                '1' as u8
            } else {
                '0' as u8
            }
            &&& t[n + 8] == ' ' as u8 && t[n + 9] == 'I' as u8 && t[n + 10] == '=' as u8
            &&& t[n + 11] == hex_digit(d.irr as int / 16)
            &&& t[n + 12] == hex_digit(d.irr as int % 16)
            &&& t[n + 13] == ' ' as u8 && t[n + 14] == 'L' as u8
            &&& d.legacy == Some(true) ==> t[n + 15] == '1' as u8
            &&& d.legacy == Some(false) ==> t[n + 15] == '0' as u8
            &&& d.legacy is None ==> t[n + 15] == '-' as u8
            &&& d.wf() <==> d.ticks < 10_000_000_000
        }),
{
    let secs = dec_text((d.ticks / 100) as nat);
    let n = secs.len() as int;
    assert(d.text().subrange(2, n + 2) =~= secs);
    let tail = d.tail();
    assert(tail.len() == 14);
    assert forall|k: int| 0 <= k < 14 implies d.text()[n + 2 + k] == #[trigger] tail[k] by {}
    assert(tail[0] == d.text()[n + 2] && tail[1] == d.text()[n + 3] && tail[2] == d.text()[n + 4]);
    assert(tail[3] == d.text()[n + 5] && tail[4] == d.text()[n + 6] && tail[5] == d.text()[n + 7]);
    assert(tail[6] == d.text()[n + 8] && tail[7] == d.text()[n + 9] && tail[8] == d.text()[n + 10]);
    assert(tail[9] == d.text()[n + 11] && tail[10] == d.text()[n + 12]);
    assert(tail[11] == d.text()[n + 13] && tail[12] == d.text()[n + 14]);
    assert(tail[13] == d.text()[n + 15]);
}

/// Decimal digits: a number below ten is its one digit, and a further digit behind a
/// number other than zero makes it ten times as much and that digit.
pub proof fn lemma_decimal_digits(n: nat, d: nat)
    requires
        d <= 9,
    ensures
        dec_text(d).len() == 1,
        dec_text(d)[0] == '0' as u8 + d,
        n > 0 ==> dec_text(10 * n + d) == dec_text(n).push(('0' as u8 + d) as u8),
{
}

/// The end screen: black, with "GAME OVER" in red three lines above the middle of the
/// board, the score in white on the middle and "SPACE TO RESTART" in grey two lines
/// below it, each centred.
pub proof fn lemma_end_screen(g: GameView)
    ensures
        ({
            let title = seq!['G', 'A', 'M', 'E', ' ', 'O', 'V', 'E', 'R'].map_values(
                |c: char| c as u8,
            );
            let score = seq!['S', 'C', 'O', 'R', 'E', ' '].map_values(|c: char| c as u8) + dec_text(
                g.score as nat,
            );
            let hint = seq![
                'S', 'P', 'A', 'C', 'E', ' ', 'T', 'O', ' ', 'R', 'E', 'S', 'T', 'A', 'R', 'T',
            ].map_values(|c: char| c as u8);
            let f = g.font;
            let x = g.cols * 16 / 2;
            let y = g.rows * 16 / 2;
            let n = 6 + dec_text(g.score as nat).len();
            let b0 = Seq::new(g.buf.len(), |i: int| 0u8);
            let b1 = inked(
                b0,
                g.pitch,
                caption(f, title, x - 9 * f.width / 2, y - 3 * f.height, 0x00CC0000, 0),
            );
            let b2 = inked(b1, g.pitch, caption(f, score, x - n * f.width / 2, y, 0x00FFFFFF, 0));
            let b3 = inked(
                b2,
                g.pitch,
                caption(f, hint, x - 16 * f.width / 2, y + 2 * f.height, 0x00888888, 0),
            );
            g.over() == (GameView { phase: Phase::Over, buf: b3, ..g })
        }),
{
    let title = seq!['G', 'A', 'M', 'E', ' ', 'O', 'V', 'E', 'R'].map_values(|c: char| c as u8);
    let score = seq!['S', 'C', 'O', 'R', 'E', ' '].map_values(|c: char| c as u8);
    let hint = seq![
        'S', 'P', 'A', 'C', 'E', ' ', 'T', 'O', ' ', 'R', 'E', 'S', 'T', 'A', 'R', 'T',
    ].map_values(|c: char| c as u8);
    assert(title =~= crate::game::over_title());
    assert(score =~= crate::game::score_label());
    assert(hint =~= crate::game::restart_hint());
    assert(crate::game::score_text(g.score).len() == 6 + dec_text(g.score as nat).len());
}

/// A new game: a snake of four cells in the middle row, the first a quarter of the
/// board in, headed right, no points, and food on the first of the drawn numbers'
/// cells that the snake leaves free.
pub proof fn lemma_new_game(g: GameView, diag: Diag)
    requires
        g.layout_wf(),
    ensures
        ({
            let s = g.restarted(diag);
            &&& s == (GameView {
                body: s.body,
                dir: (1, 0),
                score: 0,
                phase: Phase::Play,
                rng: s.rng,
                food: s.food,
                buf: s.buf,
                ..g
            })
            &&& s.body.len() == 4
            &&& forall|i: int|
                0 <= i < 4 ==> (#[trigger] s.body[i]).0 == g.cols / 4 + i && s.body[i].1 == g.rows / 2
            &&& s.buf.len() == g.buf.len()
            &&& s.food.0 == s.rng as int % g.cols
            &&& s.food.1 == s.rng as int / 0x1_0000_0000 % g.rows
            &&& !s.body.contains(s.food)
            &&& exists|n: nat|
                n >= 1 && s.rng == #[trigger] nth_drawn(g.rng, n) && forall|m: nat|
                    1 <= m < n ==> s.body.contains(
                        cell_of(#[trigger] nth_drawn(g.rng, m), g.cols, g.rows),
                    )
        }),
{
    lemma_restart_gives_game(g, diag);
    lemma_snake_painted(g.laid_out(), 4);
    lemma_where_food_lands(g.fresh());
    lemma_picked_cell(g.restarted(diag).rng, g.cols, g.rows);
    vstd::arithmetic::div_mod::lemma_mod_bound(g.restarted(diag).rng as int, g.cols);
    vstd::arithmetic::div_mod::lemma_mod_bound(
        g.restarted(diag).rng as int / 0x1_0000_0000,
        g.rows,
    );
}

/// Painting the first cells of the snake turns just those green.
proof fn lemma_snake_is_green(g: GameView, n: nat, x: int, y: int)
    requires
        n <= g.body.len(),
        0 <= x,
        0 <= y,
        4 * x + 4 <= g.pitch,
        y * g.pitch + 4 * x + 4 <= g.buf.len(),
    ensures
        (exists|i: int|
            0 <= i < n && (#[trigger] g.body[i]).0 == x / 16 && g.body[i].1 == y / 16) ==> pixel_at(
            g.snake_painted(n).buf,
            g.pitch,
            x,
            y,
        ) == 0x0000CC00,
        (forall|i: int|
            0 <= i < n ==> (#[trigger] g.body[i]).0 != x / 16 || g.body[i].1 != y / 16) ==> pixel_at(
            g.snake_painted(n).buf,
            g.pitch,
            x,
            y,
        ) == pixel_at(g.buf, g.pitch, x, y),
    decreases n,
{
    if n > 0 {
        let m = (n - 1) as nat;
        lemma_snake_is_green(g, m, x, y);
        lemma_snake_painted(g, m);
        lemma_painted_pixel(g.snake_painted(m), g.body[n - 1], 0x0000CC00, x, y);
        if exists|i: int| 0 <= i < n && (#[trigger] g.body[i]).0 == x / 16 && g.body[i].1 == y / 16 {
            let i = choose|i: int|
                0 <= i < n && (#[trigger] g.body[i]).0 == x / 16 && g.body[i].1 == y / 16;
            if i < m {
                assert(g.body[i].0 == x / 16);
            }
        }
    }
}

/// What is seen of a new game beside the two lines of text: a green snake, red food
/// and black everywhere else.
pub proof fn lemma_new_game_is_seen(g: GameView, diag: Diag, x: int, y: int)
    requires
        g.layout_wf(),
        0 <= x,
        0 <= y,
        4 * x + 4 <= g.pitch,
        y * g.pitch + 4 * x + 4 <= g.buf.len(),
        !(8 <= x < 8 + 7 * g.font.width && 8 <= y < 8 + g.font.height),
        !(8 <= x < 8 + diag.text().len() * g.font.width && 28 <= y < 28 + g.font.height),
    ensures
        ({
            let s = g.restarted(diag);
            pixel_at(s.buf, g.pitch, x, y) == if y / 16 == g.rows / 2 && g.cols / 4 <= x / 16
                <= g.cols / 4 + 3 {
                0x0000CC00int
            } else if x / 16 == s.food.0 && y / 16 == s.food.1 {
                0x00CC0000
            } else {
                0
            }
        }),
{
    let l = g.laid_out();
    let f = g.fresh();
    lemma_restart_gives_game(g, diag);
    lemma_snake_painted(l, 4);
    lemma_where_food_lands(f);
    assert(0 <= y * g.pitch) by (nonlinear_arith)
        requires
            0 <= y,
            0 <= g.pitch,
    ;
    assert(pixel_at(l.buf, g.pitch, x, y) == 0);
    lemma_snake_is_green(l, 4, x, y);
    let i = x / 16 - g.cols / 4;
    let e = f.food_placed();
    if y / 16 == g.rows / 2 && 0 <= i <= 3 {
        assert(l.body[i].0 == x / 16 && l.body[i].1 == y / 16);
        assert(e.food != l.body[i]);
    }
    let r = GameView { rng: e.rng, food: e.food, ..f };
    assert(e == r.painted(e.food, 0x00CC0000));
    lemma_painted_pixel(r, e.food, 0x00CC0000, x, y);
    assert(dec_text(0).len() == 1);
    lemma_beside_the_lines(e, diag, x, y);
}

/// A turn: refused if it is straight back or leads onto the cell behind the head, and
/// otherwise taken; nothing but the direction changes.
pub proof fn lemma_turn(g: GameView, dx: i32, dy: i32)
    requires
        g.body.len() >= 2,
    ensures
        ({
            let head = g.body[g.body.len() - 1];
            let neck = g.body[g.body.len() - 2];
            let back = dx + g.dir.0 == 0 && dy + g.dir.1 == 0;
            let onto_neck = head.0 + dx == neck.0 && head.1 + dy == neck.1;
            &&& back || onto_neck ==> g.turned((dx, dy)) == g
            &&& !back && !onto_neck ==> g.turned((dx, dy)) == (GameView { dir: (dx, dy), ..g })
            &&& g.faces_neck((dx, dy)) <==> onto_neck
        }),
{
}

/// Directions are taken one after the other.
pub proof fn lemma_turns_in_order(g: GameView, dirs: Seq<(i32, i32)>, dir: (i32, i32))
    ensures
        g.all_turned(Seq::empty()) == g,
        g.all_turned(seq![dir] + dirs) == g.turned(dir).all_turned(dirs),
{
    assert((seq![dir] + dirs).skip(1) =~= dirs);
}

/// What each key does, the oldest first.
pub proof fn lemma_keys_one_by_one(game: Option<GameView>, restart: bool, k: u8, rest: Seq<u8>)
    ensures
        ({
            let d = drained(game, restart, seq![k] + rest);
            let asked = |dx: i32, dy: i32|
                match game {
                    Some(g) => Some(g.turned((dx, dy))),
                    None => None,
                };
            &&& k == 'h' as u8 ==> d == (Drained {
                game,
                restart,
                keys: rest,
                wish: Some(Wish::Probe),
            })
            &&& k == 'c' as u8 ==> d == (Drained {
                game,
                restart,
                keys: rest,
                wish: Some(Wish::Clear),
            })
            &&& k == ' ' as u8 ==> d == drained(game, true, rest)
            &&& k == 'w' as u8 || k == 0x83 ==> d == drained(asked(0, -1i32), restart, rest)
            &&& k == 's' as u8 || k == 0x84 ==> d == drained(asked(0, 1), restart, rest)
            &&& k == 'a' as u8 || k == 0x81 ==> d == drained(asked(-1i32, 0), restart, rest)
            &&& k == 'd' as u8 || k == 0x82 ==> d == drained(asked(1, 0), restart, rest)
            &&& !(0x81 <= k <= 0x84) && k != 'h' as u8 && k != 'c' as u8 && k != ' ' as u8 && k
                != 'w' as u8 && k != 's' as u8 && k != 'a' as u8 && k != 'd' as u8 ==> d == drained(
                game,
                restart,
                rest,
            )
            &&& drained(game, restart, Seq::empty()) == (Drained {
                game,
                restart,
                keys: Seq::empty(),
                wish: None,
            })
        }),
{
    assert((seq![k] + rest).skip(1) =~= rest);
}

/// Ticks: a game under way steps when the tick is a multiple of ten and rests at all
/// others, whether or not a new game is asked for; a game that is over starts anew
/// when asked for, at whatever tick. A frame is shown just then.
pub proof fn lemma_ticks(g: GameView, t: u64, k: int, r: int, restart: bool, diag: Diag)
    requires
        t == 10 * k + r,
        0 <= r <= 9,
    ensures
        g.phase == Phase::Play && r == 0 ==> g.ticked(t, restart, diag)
            == g.stepped(diag) && g.shows(t, restart),
        g.phase == Phase::Play && r != 0 ==> g.ticked(t, restart, diag) == g && !g.shows(t, restart),
        g.phase == Phase::Over && restart ==> g.ticked(t, restart, diag) == g.restarted(diag)
            && g.shows(t, restart),
        g.phase == Phase::Over && !restart ==> g.ticked(t, restart, diag) == g && !g.shows(
            t,
            restart,
        ),
        g.phase == Phase::Play || g.phase == Phase::Over,
{
}

/// What a game is before its first frame: the board has as many whole cells of sixteen
/// pixels as the screen holds, and the random numbers start odd, at the ticks or one
/// above.
pub proof fn lemma_board_fills_the_screen(
    c: ConsoleView,
    ticks: u64,
    buf: Seq<u8>,
    font: FontView,
)
    ensures
        ({
            let g = unstarted(c, ticks, buf, font);
            &&& 16 * g.cols <= c.width < 16 * g.cols + 16
            &&& 16 * g.rows <= c.height < 16 * g.rows + 16
            &&& g.pitch == c.pitch
            &&& g.buf == buf
            &&& g.font == font
            &&& g.rng % 2 == 1
            &&& g.rng == ticks || g.rng == ticks + 1
        }),
{
    assert((ticks | 1) % 2 == 1 && (ticks | 1 == ticks || ticks | 1 == ticks + 1)) by (bit_vector);
}

/// Which boards a game can be played on.
pub proof fn lemma_playable_boards(g: GameView)
    ensures
        g.layout_wf() <==> {
            &&& 5 <= g.cols < 0x8000_0000
            &&& 1 <= g.rows < 0x8000_0000
            &&& g.font.wf()
            &&& 0 < g.pitch
            &&& 64 * g.cols <= g.pitch
            &&& g.rows * 16 * g.pitch <= g.buf.len()
        },
{
}

/// A direction is one cell along a column or a row, and neighbours in a body lie one
/// such step apart.
pub proof fn lemma_steps_of_one_cell(dir: (i32, i32), body: Seq<Cell>, i: int)
    ensures
        ({
            let abs = |n: int|
                if n < 0 {
                    -n
                } else {
                    n
                };
            &&& straight(dir) <==> abs(dir.0 as int) + abs(dir.1 as int) == 1
            &&& linked(body, i) <==> abs(body[i].0 - body[i + 1].0) + abs(
                body[i].1 - body[i + 1].1,
            ) == 1
        }),
{
}

/// Where a line of text has room: on the canvas, with all four bytes of each of its
/// pixels.
pub proof fn lemma_room_for_text(g: GameView, x: int, y: int, n: int)
    ensures
        g.text_fits(x, y, n) <==> {
            &&& 0 <= x
            &&& 0 <= y
            &&& 0 < g.pitch
            &&& 4 * (x + n * g.font.width) <= g.pitch
            &&& (y + g.font.height) * g.pitch <= g.buf.len()
        },
{
}

/// Where the two lines and the end screen have room.
pub proof fn lemma_room_for_the_lines(g: GameView, diag: Diag)
    ensures
        ({
            let n = 6 + dec_text(g.score as nat).len();
            let x = g.cols * 16 / 2;
            let y = g.rows * 16 / 2;
            let w = g.font.width;
            let h = g.font.height;
            &&& g.hud_fits(diag) <==> {
                &&& diag.ticks < 10_000_000_000
                &&& g.text_fits(8, 8, n as int)
                &&& g.text_fits(8, 28, diag.text().len() as int)
            }
            &&& g.over_fits() <==> {
                &&& g.text_fits(x - 9 * w / 2, y - 3 * h, 9)
                &&& g.text_fits(x - n * w / 2, y, n as int)
                &&& g.text_fits(x - 16 * w / 2, y + 2 * h, 16)
            }
        }),
{
    assert(crate::game::score_text(g.score).len() == 6 + dec_text(g.score as nat).len());
}

/// When a tick has room for what it draws: always if it draws nothing; the two lines
/// of a new game; and of a step either the end screen, or the two lines with the new
/// score and, if the food was eaten, a cell for the next.
pub proof fn lemma_room_for_a_tick(g: GameView, t: u64, restart: bool, diag: Diag)
    ensures
        !g.shows(t, restart) ==> g.tick_fits(t, restart, diag),
        g.phase == Phase::Over && g.shows(t, restart) ==> (g.tick_fits(t, restart, diag) <==> (
        GameView { score: 0, ..g }).hud_fits(diag)),
        g.phase == Phase::Play && g.shows(t, restart) && g.stepped(diag).phase == Phase::Over ==> (
        g.tick_fits(t, restart, diag) <==> g.over_fits()),
        g.phase == Phase::Play && g.shows(t, restart) && g.stepped(diag).phase == Phase::Play ==> (
        g.tick_fits(t, restart, diag) <==> {
            let score = g.stepped(diag).score;
            &&& (GameView { score, ..g }).hud_fits(diag)
            &&& score > g.score ==> can_land(g.stepped(diag).body, g.cols, g.rows)
        }),
{
    lemma_snake_painted(g.laid_out(), 4);
}

/// Which screens a game can start on: those whose whole cells of sixteen pixels make
/// a playable board, with room for the two lines of a new game.
pub proof fn lemma_screens_to_start_on(c: ConsoleView, font: FontView, diag: Diag)
    ensures
        start_fits(c, font, diag) <==> {
            let g = unstarted(c, 0, c.mem, font);
            &&& g.layout_wf()
            &&& g.hud_fits(diag)
        },
{
    lemma_snake_painted(unstarted(c, 0, c.mem, font).laid_out(), 4);
}

/// A game as a value is the game field by field.
pub proof fn lemma_game_as_a_value(g: Game)
    ensures
        g@.cols == g.cols && g@.rows == g.rows && g@.pitch == g.pitch,
        g@.body == g.body@ && g@.buf == g.buf@,
        g@.dir == g.dir && g@.food == g.food && g@.rng == g.rng,
        g@.phase == g.phase && g@.score == g.score && g@.font == g.font@,
        game_of(Some(g)) == Some(g@),
        game_of(None) is None,
{
}

/// What is said where there is no room for the canvas.
pub proof fn lemma_without_a_canvas()
    ensures
        crate::game::no_canvas_text() == "game: canvas alloc FAILED!\n".spec_bytes(),
{
}

} // verus!
