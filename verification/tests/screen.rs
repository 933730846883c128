use mos_kernel::boot::Framebuffer;
use mos_kernel::canvas::{draw_glyph, draw_text, fill_rect, put_pixel};
use mos_kernel::console::{
    blit, canvas, hex_char, hex_digits, init, pixel_size, print, print_bytes, print_field,
    print_hex, Console,
};
use mos_kernel::font::{Font, GLYPH_COUNT};

const WHITE: u32 = 0x00FF_FFFF;

/// A font in which every row of a glyph is its own code.
fn glyph_rows(height: usize) -> Vec<u8> {
    let mut rows = vec![0u8; GLYPH_COUNT * height];
    for ch in 0..GLYPH_COUNT {
        for dy in 0..height {
            rows[ch * height + dy] = ch as u8;
        }
    }
    rows
}

fn framebuffer(width: u64, height: u64, pitch: u64) -> Framebuffer {
    Framebuffer {
        address: 0xFFFF_8000_FD00_0000,
        width,
        height,
        pitch,
        bpp: 32,
        memory_model: 1,
        red_mask_size: 8,
        red_mask_shift: 16,
        green_mask_size: 8,
        green_mask_shift: 8,
        blue_mask_size: 8,
        blue_mask_shift: 0,
    }
}

fn pixel(mem: &[u8], pitch: usize, x: usize, y: usize) -> u32 {
    let o = y * pitch + 4 * x;
    u32::from_le_bytes([mem[o], mem[o + 1], mem[o + 2], mem[o + 3]])
}

/// Which character a cell of an 8x2 font shows, given that rows are codes.
fn shown(mem: &[u8], pitch: usize, col: usize, row: usize) -> u8 {
    let mut bits = 0u8;
    for dx in 0..8 {
        let p = pixel(mem, pitch, col * 8 + dx, row * 2);
        assert_eq!(p, pixel(mem, pitch, col * 8 + dx, row * 2 + 1));
        assert!(p == WHITE || p == 0);
        if p == WHITE {
            bits |= 0x80 >> dx;
        }
    }
    bits
}

fn line(mem: &[u8], pitch: usize, row: usize, cols: usize) -> Vec<u8> {
    (0..cols).map(|c| shown(mem, pitch, c, row)).collect()
}

#[test]
fn a_pixel_is_four_bytes_lowest_first() {
    let mut mem = vec![0u8; 40];
    put_pixel(&mut mem, 20, 2, 1, 0x1122_3344);
    let mut expected = vec![0u8; 40];
    expected[28..32].copy_from_slice(&[0x44, 0x33, 0x22, 0x11]);
    assert_eq!(mem, expected);
}

#[test]
fn a_rectangle_leaves_everything_else_alone() {
    let mut mem = vec![7u8; 5 * 24];
    fill_rect(&mut mem, 24, 1, 1, 3, 4, 0x0000_CC00);
    for y in 0..5 {
        for x in 0..6 {
            let inside = (1..3).contains(&x) && (1..4).contains(&y);
            let expected = if inside { 0x0000_CC00 } else { 0x0707_0707 };
            assert_eq!(pixel(&mem, 24, x, y), expected);
        }
    }
}

#[test]
fn a_glyph_shows_its_highest_bit_leftmost() {
    let rows = glyph_rows(3);
    let font = Font { width: 8, height: 3, rows: &rows };
    assert!(!font.lit(b'A', 0, 0));
    assert!(font.lit(b'A', 1, 2));
    assert!(font.lit(b'A', 7, 1));
    let mut mem = vec![9u8; 4 * 48];
    draw_glyph(&mut mem, 48, &font, b'A', 2, 1, 0xAA, 0xBB);
    // 'A' is 0100_0001.
    for dx in 0..8 {
        let ink = dx == 1 || dx == 7;
        let expected = if ink { 0xAA } else { 0xBB };
        assert_eq!(pixel(&mem, 48, 2 + dx, 1), expected);
        assert_eq!(pixel(&mem, 48, 2 + dx, 3), expected);
    }
    assert_eq!(pixel(&mem, 48, 1, 1), 0x0909_0909);
    assert_eq!(pixel(&mem, 48, 10, 1), 0x0909_0909);
    assert_eq!(pixel(&mem, 48, 2, 0), 0x0909_0909);
}

#[test]
fn text_puts_glyphs_side_by_side() {
    let rows = glyph_rows(2);
    let font = Font { width: 8, height: 2, rows: &rows };
    let mut mem = vec![0u8; 2 * 64];
    draw_text(&mut mem, 64, &font, b"Hi", 0, 0, WHITE, 0);
    assert_eq!(line(&mem, 64, 0, 2), b"Hi");
}

#[test]
fn a_new_screen_is_black_up_to_the_padding() {
    let rows = glyph_rows(2);
    let font = Font { width: 8, height: 2, rows: &rows };
    // 17 pixels wide, rows of 72 bytes: four bytes of padding each.
    let fb = framebuffer(17, 5, 72);
    let mut mem = vec![0x55u8; 72 * 5];
    {
        let mut con = None;
        init(&mut con, &fb, &mut mem, font);
        assert_eq!(pixel_size(&con), (17, 5));
        assert_eq!(canvas(&con), (72, 360));
        let c = con.as_ref().unwrap();
        assert_eq!((c.cols, c.rows), (2, 2));
        assert_eq!((c.fg, c.bg), (WHITE, 0));
    }
    for y in 0..5 {
        for x in 0..17 {
            assert_eq!(pixel(&mem, 72, x, y), 0);
        }
        assert_eq!(pixel(&mem, 72, 17, y), 0x5555_5555);
    }
}

#[test]
fn lines_wrap_scroll_and_take_back() {
    let rows = glyph_rows(2);
    let font = Font { width: 8, height: 2, rows: &rows };
    let fb = framebuffer(24, 4, 96);
    let mut mem = vec![0u8; 96 * 4];
    {
        let mut con = None;
        init(&mut con, &fb, &mut mem, font);
        print(&mut con, "ab");
        assert_eq!((con.as_ref().unwrap().col, con.as_ref().unwrap().row), (2, 0));
        // The third character fills the line.
        print(&mut con, "c");
        assert_eq!((con.as_ref().unwrap().col, con.as_ref().unwrap().row), (0, 1));
        // At the start of a line there is nothing to take back.
        print(&mut con, "\u{8}");
        assert_eq!((con.as_ref().unwrap().col, con.as_ref().unwrap().row), (0, 1));
        print(&mut con, "de\u{8}\tf\r");
        assert_eq!((con.as_ref().unwrap().col, con.as_ref().unwrap().row), (2, 1));
    }
    assert_eq!(line(&mem, 96, 0, 3), b"abc");
    assert_eq!(line(&mem, 96, 1, 3), [b'd', b'f', 0]);
}

#[test]
fn scrolling_moves_lines_up_and_blanks_the_last() {
    let rows = glyph_rows(2);
    let font = Font { width: 8, height: 2, rows: &rows };
    let fb = framebuffer(24, 4, 96);
    let mut mem = vec![0u8; 96 * 4];
    {
        let mut con = None;
        init(&mut con, &fb, &mut mem, font);
        print(&mut con, "one\ntwo\n");
        assert_eq!((con.as_ref().unwrap().col, con.as_ref().unwrap().row), (0, 1));
    }
    // "one" wraps by itself, so its line feed leaves an empty line behind.
    assert_eq!(line(&mem, 96, 0, 3), [0, 0, 0]);
    assert_eq!(line(&mem, 96, 1, 3), [0, 0, 0]);
    {
        let mut con = None;
        init(&mut con, &fb, &mut mem, font);
        print(&mut con, "a\nb\nc");
    }
    assert_eq!(line(&mem, 96, 0, 3), [b'b', 0, 0]);
    assert_eq!(line(&mem, 96, 1, 3), [b'c', 0, 0]);
}

#[test]
fn taking_a_character_back_leaves_a_blank() {
    let rows = glyph_rows(2);
    let font = Font { width: 8, height: 2, rows: &rows };
    let fb = framebuffer(32, 2, 128);
    let mut mem = vec![0u8; 128 * 2];
    {
        let mut con = None;
        init(&mut con, &fb, &mut mem, font);
        print(&mut con, "xy\u{8}");
        assert_eq!(con.as_ref().unwrap().col, 1);
    }
    // The blank's glyph is its code, as all others.
    assert_eq!(line(&mem, 128, 0, 2), [b'x', b' ']);
}

#[test]
fn hexadecimal_has_no_leading_zeros() {
    let text = |v: u64| {
        let (buf, at) = hex_digits(v);
        String::from_utf8(buf[at..].to_vec()).unwrap()
    };
    assert_eq!(text(0), "0");
    assert_eq!(text(0xF), "F");
    assert_eq!(text(0x10), "10");
    assert_eq!(text(0xDEAD_BEEF), "DEADBEEF");
    assert_eq!(text(u64::MAX), "FFFFFFFFFFFFFFFF");
    for d in 0..16u8 {
        assert_eq!(hex_char(d), b"0123456789ABCDEF"[d as usize]);
    }
    for v in [1u64, 0x1234_5678_9ABC_DEF0, 0x8000_0000_0000_0000] {
        assert_eq!(u64::from_str_radix(&text(v), 16), Ok(v));
        assert_eq!(text(v), format!("{:X}", v));
    }
}

#[test]
fn numbers_and_bytes_reach_the_screen() {
    let rows = glyph_rows(2);
    let font = Font { width: 8, height: 2, rows: &rows };
    let fb = framebuffer(80, 4, 320);
    let mut mem = vec![0u8; 320 * 4];
    {
        let mut con = None;
        init(&mut con, &fb, &mut mem, font);
        print_hex(&mut con, 0xA0);
        print_bytes(&mut con, b"-z\n");
        print_field(&mut con, "n=", 0x2F, ";");
    }
    assert_eq!(&line(&mem, 320, 0, 10)[..4], b"A0-z");
    assert_eq!(&line(&mem, 320, 1, 10)[..5], b"n=2F;");
}

#[test]
fn a_picture_is_copied_as_a_whole() {
    let rows = glyph_rows(2);
    let font = Font { width: 8, height: 2, rows: &rows };
    let fb = framebuffer(8, 2, 36);
    let mut mem = vec![0u8; 72];
    let picture: Vec<u8> = (0..80u8).collect();
    {
        let mut con = None;
        init(&mut con, &fb, &mut mem, font);
        blit(&mut con, &picture);
    }
    assert_eq!(mem, picture[..72]);
}

#[test]
fn without_a_screen_nothing_happens() {
    let mut con: Option<Console> = None;
    print(&mut con, "lost");
    print_hex(&mut con, 1);
    blit(&mut con, &[]);
    assert!(con.is_none());
    assert_eq!(pixel_size(&con), (0, 0));
    assert_eq!(canvas(&con), (0, 0));
}
