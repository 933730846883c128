use mos_kernel::board::{holds, pick_cell};
use mos_kernel::boot::Framebuffer;
use mos_kernel::console::{init as screen_init, Console};
use mos_kernel::font::{Font, GLYPH_COUNT};
use mos_kernel::game::{
    drain_keys, fmt_num, init, on_tick, set_dir, shows_frame, start_room, tick_room, wants_canvas,
    Diag, Game, Phase, Wish, BG_COLOR, DIM_COLOR, FOOD_COLOR, SNAKE_COLOR, TEXT_COLOR,
};
use mos_kernel::keyboard::{Keyboard, KEY_DOWN, KEY_LEFT, KEY_RIGHT, KEY_UP};
use mos_kernel::rng::draw;

const WIDTH: usize = 320;
const HEIGHT: usize = 160;
const PITCH: usize = WIDTH * 4;

const DIAG: Diag =
    Diag { ticks: 1234, pit_ok: true, irq0_masked: false, irr: 0x1C, legacy: None };

/// Where the food goes after the first bite of the game that starts at tick 4.
const FOOD_AFTER: (usize, usize) = (19, 7);
const RNG_AFTER: u64 = 0x23E6E93B8C88D2BF;

/// A font whose glyph rows are the codes of their characters.
fn glyph_rows() -> Vec<u8> {
    let mut rows = Vec::new();
    for ch in 0..GLYPH_COUNT {
        rows.extend([ch as u8; 16]);
    }
    rows
}

fn framebuffer(width: usize, height: usize) -> Framebuffer {
    Framebuffer {
        address: 0,
        width: width as u64,
        height: height as u64,
        pitch: width as u64 * 4,
        bpp: 32,
        memory_model: 1,
        red_mask_size: 8,
        red_mask_shift: 16,
        green_mask_size: 8,
        green_mask_shift: 8,
        blue_mask_size: 8,
        blue_mask_shift: 0,
    }
}

fn screen<'a>(mem: &'a mut [u8], rows: &'a [u8]) -> Option<Console<'a>> {
    let mut con = None;
    let font = Font { width: 8, height: 16, rows };
    screen_init(&mut con, &framebuffer(WIDTH, HEIGHT), mem, font);
    con
}

fn start<'a>(con: &mut Option<Console>, rows: &'a [u8], ticks: u64) -> Option<Game<'a>> {
    let font = Font { width: 8, height: 16, rows };
    assert!(start_room(con, &font, &DIAG));
    let size = wants_canvas(con).unwrap();
    assert_eq!(size, PITCH * HEIGHT);
    let mut game = None;
    init(&mut game, con, Some(vec![0xEE; size]), ticks, &DIAG, font);
    game
}

fn pixel(mem: &[u8], x: usize, y: usize) -> u32 {
    let o = y * PITCH + 4 * x;
    u32::from_le_bytes([mem[o], mem[o + 1], mem[o + 2], mem[o + 3]])
}

/// The colour of a cell, all of whose pixels must have it.
fn cell(mem: &[u8], col: usize, row: usize) -> u32 {
    let color = pixel(mem, col * 16, row * 16);
    for y in 0..16 {
        for x in 0..16 {
            assert_eq!(pixel(mem, col * 16 + x, row * 16 + y), color);
        }
    }
    color
}

/// The characters of a line of text at (x, y) in a colour.
fn text_at(mem: &[u8], x: usize, y: usize, n: usize, fg: u32) -> String {
    (0..n)
        .map(|i| {
            let mut code = 0u8;
            for dx in 0..8 {
                let p = pixel(mem, x + i * 8 + dx, y);
                for dy in 0..16 {
                    assert_eq!(pixel(mem, x + i * 8 + dx, y + dy), p);
                }
                assert!(p == fg || p == BG_COLOR);
                if p == fg {
                    code |= 0x80 >> dx;
                }
            }
            code as char
        })
        .collect()
}

fn press(kb: &mut Keyboard, keys: &[u8]) {
    for &k in keys {
        kb.queue.push_key(k);
    }
}

fn step(game: &mut Option<Game>, con: &mut Option<Console>) {
    assert!(tick_room(game, 10, false, &DIAG));
    on_tick(game, con, 10, false, &DIAG);
}

#[test]
fn random_numbers_are_reproducible() {
    assert_eq!(draw(0), 1442695040888963407);
    assert_eq!(draw(1), 7806831264735756412);
    assert_eq!(draw(draw(1)), 9396908728118811419);
}

#[test]
fn a_number_picks_a_cell() {
    assert_eq!(pick_cell(0x6C57_6FAC_43FD_007C, 20, 10), (12, 8));
    assert_eq!(pick_cell(0, 5, 1), (0, 0));
    assert_eq!(pick_cell(u64::MAX, 1, 1), (0, 0));
    assert!(holds(&vec![(1, 2), (3, 4)], (3, 4)));
    assert!(!holds(&vec![(1, 2), (3, 4)], (3, 2)));
}

#[test]
fn numbers_are_written_in_decimal() {
    for n in [0usize, 7, 10, 99, 100, 12345, u32::MAX as usize, usize::MAX] {
        let mut out = [b'.'; 24];
        let digits = fmt_num(n, &mut out, 2);
        assert_eq!(String::from_utf8(out[2..2 + digits].to_vec()).unwrap(), format!("{}", n));
        assert_eq!(&out[..2], b"..");
        assert!(out[2 + digits..].iter().all(|&b| b == b'.'));
    }
}

#[test]
fn a_game_starts_with_four_cells_and_food() {
    let rows = glyph_rows();
    let mut mem = vec![0u8; PITCH * HEIGHT];
    {
        let mut con = screen(&mut mem, &rows);
        let game = start(&mut con, &rows, 0).unwrap();
        assert_eq!((game.cols, game.rows), (20, 10));
        assert_eq!(game.body, [(5, 5), (6, 5), (7, 5), (8, 5)]);
        assert_eq!(game.dir, (1, 0));
        assert_eq!(game.food, (12, 8));
        assert_eq!(game.rng, 0x6C57_6FAC_43FD_007C);
        assert_eq!(game.score, 0);
        assert!(game.phase == Phase::Play);
    }
    for col in 5..9 {
        assert_eq!(cell(&mem, col, 5), SNAKE_COLOR);
    }
    assert_eq!(cell(&mem, 12, 8), FOOD_COLOR);
    assert_eq!(cell(&mem, 9, 5), BG_COLOR);
    assert_eq!(cell(&mem, 4, 5), BG_COLOR);
    assert_eq!(text_at(&mem, 8, 8, 7, TEXT_COLOR), "SCORE 0");
    assert_eq!(text_at(&mem, 8, 28, 18, DIM_COLOR), "T=12 P+ M0 I=1C L-");
}

#[test]
fn the_seed_is_odd_and_food_avoids_the_snake() {
    let rows = glyph_rows();
    let mut mem = vec![0u8; PITCH * HEIGHT];
    let mut con = screen(&mut mem, &rows);
    let a = start(&mut con, &rows, 2).unwrap();
    let b = start(&mut con, &rows, 3).unwrap();
    assert_eq!((a.food, a.rng), ((6, 8), 0x1CFB_5806_DD27_FED6));
    assert_eq!((b.food, b.rng), (a.food, a.rng));
    // The first number picks a cell of the snake, the second does not.
    let c = start(&mut con, &rows, 598).unwrap();
    assert!(holds(&c.body, pick_cell(draw(599), 20, 10)));
    assert_eq!((c.food, c.rng), ((9, 1), 0x51B7_1123_2BEA_5961));
}

#[test]
fn the_diagnostic_line_shows_every_flag() {
    let rows = glyph_rows();
    let mut mem = vec![0u8; PITCH * HEIGHT];
    let font = Font { width: 8, height: 16, rows: &rows };
    {
        let mut con = screen(&mut mem, &rows);
        let mut game = start(&mut con, &rows, 0);
        let diag =
            Diag { ticks: 0, pit_ok: false, irq0_masked: true, irr: 0xFA, legacy: Some(true) };
        game.as_mut().unwrap().paint_score(&diag);
        mos_kernel::console::blit(&mut con, &game.as_ref().unwrap().buf);
    }
    assert_eq!(text_at(&mem, 8, 28, 17, DIM_COLOR), "T=0 P- M1 I=FA L1");
    {
        let mut con = screen(&mut mem, &rows);
        let mut game = start(&mut con, &rows, 0);
        let diag = Diag {
            ticks: 9_999_999_999,
            pit_ok: true,
            irq0_masked: false,
            irr: 0,
            legacy: Some(false),
        };
        game.as_mut().unwrap().paint_score(&diag);
        mos_kernel::console::blit(&mut con, &game.as_ref().unwrap().buf);
        // One digit more has no room.
        let late = Diag { ticks: 10_000_000_000, ..diag };
        assert!(start_room(&con, &font, &diag));
        assert!(!start_room(&con, &font, &late));
    }
    assert_eq!(text_at(&mem, 8, 28, 24, DIM_COLOR), "T=99999999 P+ M0 I=00 L0");
}

#[test]
fn the_snake_moves_only_at_every_tenth_tick() {
    let rows = glyph_rows();
    let mut mem = vec![0u8; PITCH * HEIGHT];
    {
        let mut con = screen(&mut mem, &rows);
        let mut game = start(&mut con, &rows, 0);
        for t in 1..10 {
            on_tick(&mut game, &mut con, t, true, &DIAG);
            assert_eq!(game.as_ref().unwrap().body[3], (8, 5));
        }
        on_tick(&mut game, &mut con, 10, false, &DIAG);
        assert_eq!(game.as_ref().unwrap().body, [(6, 5), (7, 5), (8, 5), (9, 5)]);
    }
    assert_eq!(cell(&mem, 5, 5), BG_COLOR);
    assert_eq!(cell(&mem, 9, 5), SNAKE_COLOR);
}

#[test]
fn eating_earns_a_point_and_a_cell() {
    let rows = glyph_rows();
    let mut mem = vec![0u8; PITCH * HEIGHT];
    {
        let mut con = screen(&mut mem, &rows);
        let mut game = start(&mut con, &rows, 4);
        assert_eq!(game.as_ref().unwrap().food, (16, 5));
        for _ in 0..8 {
            step(&mut game, &mut con);
        }
        let g = game.as_ref().unwrap();
        assert_eq!(g.body, [(12, 5), (13, 5), (14, 5), (15, 5), (16, 5)]);
        assert_eq!(g.score, 1);
        assert_eq!((g.food, g.rng), (FOOD_AFTER, RNG_AFTER));
        assert!(g.phase == Phase::Play);
    }
    assert_eq!(text_at(&mem, 8, 8, 7, TEXT_COLOR), "SCORE 1");
    assert_eq!(cell(&mem, FOOD_AFTER.0, FOOD_AFTER.1), FOOD_COLOR);
    assert_eq!(cell(&mem, 16, 5), SNAKE_COLOR);
}

#[test]
fn a_wall_ends_the_game_until_the_space_bar() {
    let rows = glyph_rows();
    let mut mem = vec![0u8; PITCH * HEIGHT];
    {
        let mut con = screen(&mut mem, &rows);
        let mut game = start(&mut con, &rows, 0);
        for _ in 0..11 {
            step(&mut game, &mut con);
            assert!(game.as_ref().unwrap().phase == Phase::Play);
        }
        assert_eq!(game.as_ref().unwrap().body[3], (19, 5));
        step(&mut game, &mut con);
        assert!(game.as_ref().unwrap().phase == Phase::Over);
        // Nothing moves any more.
        step(&mut game, &mut con);
        assert_eq!(game.as_ref().unwrap().body[3], (19, 5));
    }
    // 320 by 160: the middle is (160, 80).
    assert_eq!(text_at(&mem, 160 - 36, 80 - 48, 9, FOOD_COLOR), "GAME OVER");
    assert_eq!(text_at(&mem, 160 - 28, 80, 7, TEXT_COLOR), "SCORE 0");
    assert_eq!(text_at(&mem, 160 - 64, 80 + 32, 16, DIM_COLOR), "SPACE TO RESTART");
    assert_eq!(cell(&mem, 19, 5), BG_COLOR);
    assert_eq!(cell(&mem, 0, 0), BG_COLOR);
}

#[test]
fn a_new_game_keeps_the_random_numbers_going() {
    let rows = glyph_rows();
    let mut mem = vec![0u8; PITCH * HEIGHT];
    {
        let mut con = screen(&mut mem, &rows);
        let mut game = start(&mut con, &rows, 0);
        for _ in 0..12 {
            step(&mut game, &mut con);
        }
        let before = game.as_ref().unwrap().rng;
        assert!(tick_room(&game, 13, true, &DIAG));
        on_tick(&mut game, &mut con, 13, true, &DIAG);
        let g = game.as_ref().unwrap();
        assert!(g.phase == Phase::Play);
        assert_eq!(g.body, [(5, 5), (6, 5), (7, 5), (8, 5)]);
        assert_eq!((g.dir, g.score), ((1, 0), 0));
        assert_eq!(g.rng, draw(before));
        assert_eq!(g.food, pick_cell(draw(before), 20, 10));
    }
    assert_eq!(cell(&mem, 8, 5), SNAKE_COLOR);
}

#[test]
fn the_snake_cannot_turn_back() {
    let rows = glyph_rows();
    let mut mem = vec![0u8; PITCH * HEIGHT];
    let mut con = screen(&mut mem, &rows);
    let mut game = start(&mut con, &rows, 0);
    set_dir(&mut game, -1, 0);
    assert_eq!(game.as_ref().unwrap().dir, (1, 0));
    // Two keys within one step do not add up to a turn back.
    set_dir(&mut game, 0, -1);
    assert_eq!(game.as_ref().unwrap().dir, (0, -1));
    set_dir(&mut game, -1, 0);
    assert_eq!(game.as_ref().unwrap().dir, (0, -1));
    step(&mut game, &mut con);
    assert_eq!(game.as_ref().unwrap().body[3], (8, 4));
    set_dir(&mut game, -1, 0);
    assert_eq!(game.as_ref().unwrap().dir, (-1, 0));
    let mut none: Option<Game> = None;
    set_dir(&mut none, 1, 0);
    assert!(none.is_none());
}

#[test]
fn biting_ends_the_game_but_following_the_tail_does_not() {
    let rows = glyph_rows();
    let mut mem = vec![0u8; PITCH * HEIGHT];
    let mut con = screen(&mut mem, &rows);
    // A square of four cells can turn on the spot: each step takes the cell that
    // the tail leaves.
    let mut game = start(&mut con, &rows, 0);
    for (dc, dr) in [(0, -1), (-1, 0), (0, 1), (1, 0)].iter().cycle().take(9) {
        set_dir(&mut game, *dc, *dr);
        step(&mut game, &mut con);
        assert!(game.as_ref().unwrap().phase == Phase::Play);
    }
    // A snake of five bites itself there.
    let mut game = start(&mut con, &rows, 4);
    for _ in 0..8 {
        step(&mut game, &mut con);
    }
    assert_eq!(game.as_ref().unwrap().body.len(), 5);
    for (dc, dr) in [(0, -1), (-1, 0)] {
        set_dir(&mut game, dc, dr);
        step(&mut game, &mut con);
        assert!(game.as_ref().unwrap().phase == Phase::Play);
    }
    set_dir(&mut game, 0, 1);
    step(&mut game, &mut con);
    assert!(game.as_ref().unwrap().phase == Phase::Over);
    // The tail has moved before the bite.
    assert_eq!(game.as_ref().unwrap().body.len(), 4);
    assert_eq!(game.as_ref().unwrap().score, 1);
}

#[test]
fn keys_are_worked_off_in_order() {
    let rows = glyph_rows();
    let mut mem = vec![0u8; PITCH * HEIGHT];
    let mut con = screen(&mut mem, &rows);
    let mut game = start(&mut con, &rows, 0);
    let mut kb = Keyboard::new();
    let mut restart = false;
    assert!(drain_keys(&mut game, &mut kb, &mut restart).is_none());
    press(&mut kb, &[KEY_UP, b'x', b' ', b'h', b'd', b'c', KEY_DOWN]);
    assert!(drain_keys(&mut game, &mut kb, &mut restart) == Some(Wish::Probe));
    assert!(restart);
    assert_eq!(game.as_ref().unwrap().dir, (0, -1));
    assert!(drain_keys(&mut game, &mut kb, &mut restart) == Some(Wish::Clear));
    assert_eq!(game.as_ref().unwrap().dir, (1, 0));
    assert!(drain_keys(&mut game, &mut kb, &mut restart).is_none());
    assert_eq!(game.as_ref().unwrap().dir, (0, 1));
    assert!(kb.queue.pop_key().is_none());
}

#[test]
fn arrows_and_letters_mean_the_same() {
    let rows = glyph_rows();
    let mut mem = vec![0u8; PITCH * HEIGHT];
    let mut con = screen(&mut mem, &rows);
    let cases = [
        (KEY_UP, b'w', (0, -1)),
        (KEY_DOWN, b's', (0, 1)),
        (KEY_RIGHT, b'd', (1, 0)),
        (KEY_LEFT, b'a', (1, 0)),
    ];
    for (arrow, letter, dir) in cases {
        for k in [arrow, letter] {
            let mut game = start(&mut con, &rows, 0);
            let mut kb = Keyboard::new();
            let mut restart = false;
            press(&mut kb, &[k]);
            assert!(drain_keys(&mut game, &mut kb, &mut restart).is_none());
            // Left is refused: the snake starts to the right.
            assert_eq!(game.as_ref().unwrap().dir, dir);
            assert!(!restart);
        }
    }
    // Letters in upper case do nothing.
    let mut game = start(&mut con, &rows, 0);
    let mut kb = Keyboard::new();
    let mut restart = false;
    press(&mut kb, b"WSHC");
    assert!(drain_keys(&mut game, &mut kb, &mut restart).is_none());
    assert_eq!(game.as_ref().unwrap().dir, (1, 0));
}

#[test]
fn frames_are_shown_at_steps_and_at_a_restart() {
    let rows = glyph_rows();
    let mut mem = vec![0u8; PITCH * HEIGHT];
    let mut con = screen(&mut mem, &rows);
    let mut game = start(&mut con, &rows, 0);
    assert!(shows_frame(&game, 20, false) && !shows_frame(&game, 21, true));
    for _ in 0..12 {
        step(&mut game, &mut con);
    }
    assert!(game.as_ref().unwrap().phase == Phase::Over);
    assert!(!shows_frame(&game, 20, false) && shows_frame(&game, 21, true));
    assert!(!shows_frame(&None, 20, true));
}

#[test]
fn a_step_keeps_the_snake_whole() {
    let rows = glyph_rows();
    let mut mem = vec![0u8; PITCH * HEIGHT];
    let mut con = screen(&mut mem, &rows);
    let mut game = start(&mut con, &rows, 4);
    let size = game.as_ref().unwrap().buf.len();
    for i in 0..40 {
        if i % 5 == 4 {
            set_dir(&mut game, 0, if i % 2 == 0 { -1 } else { 1 });
        } else if i % 5 == 1 {
            set_dir(&mut game, if i % 2 == 0 { -1 } else { 1 }, 0);
        }
        step(&mut game, &mut con);
        let g = game.as_ref().unwrap();
        for (j, p) in g.body.iter().enumerate() {
            assert!(p.0 < 20 && p.1 < 10);
            assert!(!g.body[..j].contains(p));
        }
        assert_eq!((g.cols, g.rows, g.pitch, g.buf.len()), (20, 10, PITCH, size));
        if g.phase == Phase::Play {
            assert_eq!(g.body.len(), g.score + 4);
            assert!(!holds(&g.body, g.food));
        }
    }
}

#[test]
fn without_a_screen_or_a_canvas_there_is_no_game() {
    let rows = glyph_rows();
    let font = Font { width: 8, height: 16, rows: &rows };
    let mut none = None;
    let mut game: Option<Game> = None;
    assert_eq!(wants_canvas(&none), None);
    init(&mut game, &mut none, None, 0, &DIAG, font);
    init(&mut game, &mut none, Some(vec![0; 4]), 0, &DIAG, font);
    assert!(game.is_none());
    on_tick(&mut game, &mut none, 10, true, &DIAG);
    assert!(game.is_none());

    let mut mem = vec![0u8; PITCH * HEIGHT];
    {
        let mut con = screen(&mut mem, &rows);
        init(&mut game, &mut con, None, 0, &DIAG, font);
        assert!(game.is_none());
    }
    let said = "game: canvas alloc FAILED!";
    assert_eq!(text_at(&mem, 0, 0, said.len(), TEXT_COLOR), said);
}

#[test]
fn a_screen_can_be_too_small() {
    let rows = glyph_rows();
    let font = Font { width: 8, height: 16, rows: &rows };
    for (w, h, fits) in [(320, 160, true), (152, 44, true), (151, 44, false), (152, 43, false)] {
        let mut mem = vec![0u8; w * 4 * h];
        let mut con = None;
        screen_init(&mut con, &framebuffer(w, h), &mut mem, font);
        // "T=12 P+ M0 I=1C L-" takes 18 characters from column 8 on.
        assert_eq!(start_room(&con, &font, &DIAG), fits);
    }
}

#[test]
fn a_snake_that_fills_the_board_has_no_room_for_food() {
    let rows = glyph_rows();
    // Five columns of one row; the canvas is wider, so that the lines fit.
    let mut game = Some(Game {
        cols: 5,
        rows: 1,
        body: vec![(0, 0), (1, 0), (2, 0), (3, 0)],
        dir: (1, 0),
        food: (4, 0),
        rng: 1,
        phase: Phase::Play,
        score: 0,
        buf: vec![0; PITCH * HEIGHT],
        pitch: PITCH,
        font: Font { width: 8, height: 16, rows: &rows },
    });
    assert!(!tick_room(&game, 10, false, &DIAG));
    assert!(tick_room(&game, 11, false, &DIAG));
    // One row more gives room.
    game.as_mut().unwrap().rows = 2;
    assert!(tick_room(&game, 10, false, &DIAG));
}
