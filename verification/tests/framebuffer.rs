use ssd1306_bitbang::sim::SimRegisters;
use ssd1306_bitbang::ssd1306::{
    clear, draw_bytes, draw_char, draw_string, fill_rect, set_pixel, Font, Ssd1306,
};

const WIDTH: i32 = 128;
const HEIGHT: i32 = 64;

/// A font in which every column of the glyph of a character is the
/// character's code; the space is blank.
fn code_font() -> Font {
    let mut font = [[0u8; 5]; 95];
    for (i, glyph) in font.iter_mut().enumerate().skip(1) {
        *glyph = [i as u8 + 32; 5];
    }
    font
}

/// A font with a drawn letter A and a full block for every other character
/// but the space.
fn letter_font() -> Font {
    let mut font = [[0x7Fu8; 5]; 95];
    font[0] = [0; 5];
    font['A' as usize - 32] = [0x7E, 0x11, 0x11, 0x11, 0x7E];
    font
}

fn display(font: Font) -> Ssd1306<SimRegisters> {
    Ssd1306::new(SimRegisters::new(Vec::new(), 0), font)
}

fn lit(d: &Ssd1306<SimRegisters>, x: i32, y: i32) -> bool {
    let byte = d.framebuffer()[(x + (y / 8) * WIDTH) as usize];
    byte & (1 << (y % 8)) != 0
}

fn lit_pixels(d: &Ssd1306<SimRegisters>) -> Vec<(i32, i32)> {
    let mut all = Vec::new();
    for y in 0..HEIGHT {
        for x in 0..WIDTH {
            if lit(d, x, y) {
                all.push((x, y));
            }
        }
    }
    all
}

/// The pixels of a glyph whose five columns are `columns`, with its corner
/// at `(x, y)`, as far as they are on the display.
fn glyph_pixels(columns: [u8; 5], x: i32, y: i32) -> Vec<(i32, i32)> {
    let mut all = Vec::new();
    for j in 0..7 {
        for i in 0..5 {
            let (px, py) = (x + i, y + j);
            if columns[i as usize] & (1 << j) != 0 && (0..WIDTH).contains(&px) && (0..HEIGHT).contains(&py) {
                all.push((px, py));
            }
        }
    }
    all
}

fn sorted(mut pixels: Vec<(i32, i32)>) -> Vec<(i32, i32)> {
    pixels.sort_by_key(|(x, y)| (*y, *x));
    pixels.dedup();
    pixels
}

#[test]
fn a_new_display_is_blank() {
    let d = display(letter_font());
    assert_eq!(d.framebuffer().len(), 1024);
    assert!(d.framebuffer().iter().all(|b| *b == 0));
    assert_eq!(d.address(), 0);
}

#[test]
fn set_pixel_sets_the_bit_of_the_row_in_the_byte_of_the_column_and_page() {
    for (x, y, index, bit) in [
        (0, 0, 0usize, 0x01u8),
        (0, 7, 0, 0x80),
        (0, 8, 128, 0x01),
        (5, 12, 133, 0x10),
        (127, 0, 127, 0x01),
        (127, 63, 1023, 0x80),
        (64, 33, 4 * 128 + 64, 0x02),
    ] {
        let mut d = display(letter_font());
        set_pixel(&mut d, x, y, 1);
        for (i, byte) in d.framebuffer().iter().enumerate() {
            assert_eq!(*byte, if i == index { bit } else { 0 }, "pixel ({x}, {y}), byte {i}");
        }
        set_pixel(&mut d, x, y, 0);
        assert!(d.framebuffer().iter().all(|b| *b == 0));
    }
}

#[test]
fn any_color_but_zero_lights_the_pixel() {
    let mut d = display(letter_font());
    for color in [1u8, 2, 0x80, 0xFF] {
        set_pixel(&mut d, 9, 9, 0);
        assert!(!lit(&d, 9, 9));
        set_pixel(&mut d, 9, 9, color);
        assert!(lit(&d, 9, 9));
    }
}

#[test]
fn set_then_clear_restores_the_byte_of_a_dark_pixel() {
    let mut d = display(letter_font());
    fill_rect(&mut d, 3, 3, 40, 17, 1);
    draw_string(&mut d, 50, 40, "AAAA");
    for y in 0..HEIGHT {
        for x in 0..WIDTH {
            if lit(&d, x, y) {
                continue;
            }
            let before = *d.framebuffer();
            set_pixel(&mut d, x, y, 1);
            assert!(lit(&d, x, y));
            let index = (x + (y / 8) * WIDTH) as usize;
            assert_eq!(d.framebuffer()[index], before[index] | (1 << (y % 8)));
            set_pixel(&mut d, x, y, 0);
            assert_eq!(*d.framebuffer(), before, "pixel ({x}, {y})");
        }
    }
}

#[test]
fn set_then_clear_leaves_a_pixel_dark_that_was_lit() {
    let mut d = display(letter_font());
    set_pixel(&mut d, 4, 4, 1);
    set_pixel(&mut d, 4, 5, 1);
    set_pixel(&mut d, 4, 4, 1);
    set_pixel(&mut d, 4, 4, 0);
    assert_eq!(lit_pixels(&d), [(4, 5)]);
}

#[test]
fn set_pixel_outside_the_display_changes_nothing() {
    let mut d = display(letter_font());
    fill_rect(&mut d, 0, 0, 128, 64, 1);
    set_pixel(&mut d, 17, 17, 0);
    let before = *d.framebuffer();
    for (x, y) in [
        (-1, 0),
        (128, 0),
        (0, -1),
        (0, 64),
        (-1, -1),
        (128, 64),
        (i32::MIN, 0),
        (i32::MAX, 0),
        (0, i32::MIN),
        (0, i32::MAX),
        (i32::MIN, i32::MAX),
        (256, 8),
        (127, 65),
    ] {
        set_pixel(&mut d, x, y, 1);
        assert_eq!(*d.framebuffer(), before, "lighting ({x}, {y})");
        set_pixel(&mut d, x, y, 0);
        assert_eq!(*d.framebuffer(), before, "clearing ({x}, {y})");
    }
}

#[test]
fn clear_turns_every_pixel_off() {
    let mut d = display(letter_font());
    fill_rect(&mut d, 0, 0, 128, 64, 1);
    assert!(d.framebuffer().iter().all(|b| *b == 0xFF));
    clear(&mut d);
    assert!(d.framebuffer().iter().all(|b| *b == 0));
    clear(&mut d);
    assert!(d.framebuffer().iter().all(|b| *b == 0));
}

#[test]
fn draw_char_plots_the_glyph_column_by_column() {
    let mut d = display(letter_font());
    draw_char(&mut d, 10, 20, 'A');
    let a = [0x7E, 0x11, 0x11, 0x11, 0x7E];
    assert_eq!(lit_pixels(&d), sorted(glyph_pixels(a, 10, 20)));
    assert!(!lit(&d, 10, 20));
    assert!(lit(&d, 11, 20));
    assert!(lit(&d, 10, 21));
    assert!(lit(&d, 12, 24));
    assert!(!lit(&d, 12, 23));
    assert!(!lit(&d, 12, 26));
    assert_eq!(lit_pixels(&d).len(), 2 * 6 + 3 * 2);
}

#[test]
fn draw_char_uses_the_glyph_of_the_character() {
    for c in ['!', '0', 'A', 'z', '~', ' '] {
        let mut d = display(code_font());
        draw_char(&mut d, 0, 0, c);
        let code = if c == ' ' { 0 } else { c as u8 };
        assert_eq!(lit_pixels(&d), sorted(glyph_pixels([code; 5], 0, 0)), "character {c:?}");
    }
}

#[test]
fn draw_char_lights_pixels_and_clears_none() {
    let mut d = display(letter_font());
    fill_rect(&mut d, 0, 0, 20, 20, 1);
    let before = lit_pixels(&d);
    draw_char(&mut d, 18, 18, 'A');
    let mut expected = before.clone();
    expected.extend(glyph_pixels([0x7E, 0x11, 0x11, 0x11, 0x7E], 18, 18));
    assert_eq!(lit_pixels(&d), sorted(expected));
}

#[test]
fn a_character_that_is_not_printable_is_drawn_as_a_space() {
    let mut font = code_font();
    font[0] = [0x2A; 5];
    for c in ['\0', '\x07', '\n', '\x1f', '\x7f', '\u{80}', '\u{e9}', '\u{141}', '\u{1F600}'] {
        let mut d = display(font);
        draw_char(&mut d, 30, 30, c);
        assert_eq!(lit_pixels(&d), sorted(glyph_pixels([0x2A; 5], 30, 30)), "character {c:?}");
    }
}

#[test]
fn draw_char_drops_what_lies_outside_the_display() {
    let block = [0x7F; 5];
    for (x, y) in [
        (-2, -3),
        (126, 60),
        (-4, 0),
        (-5, 0),
        (0, -6),
        (0, -7),
        (127, 63),
        (128, 0),
        (0, 64),
        (i32::MAX, i32::MAX),
        (i32::MIN, i32::MIN),
        (i32::MAX - 3, 5),
        (5, i32::MAX - 5),
    ] {
        let mut d = display(letter_font());
        draw_char(&mut d, x, y, 'B');
        let expected = if x.checked_add(4).is_some() && y.checked_add(6).is_some() {
            glyph_pixels(block, x, y)
        } else {
            Vec::new()
        };
        assert_eq!(lit_pixels(&d), sorted(expected), "at ({x}, {y})");
    }
}

#[test]
fn draw_string_puts_the_characters_six_columns_apart() {
    let mut d = display(code_font());
    draw_string(&mut d, 3, 5, "Hi!");
    let mut expected = glyph_pixels([b'H'; 5], 3, 5);
    expected.extend(glyph_pixels([b'i'; 5], 9, 5));
    expected.extend(glyph_pixels([b'!'; 5], 15, 5));
    assert_eq!(lit_pixels(&d), sorted(expected));
}

#[test]
fn a_newline_continues_in_the_first_column_eight_rows_down() {
    let mut d = display(code_font());
    draw_string(&mut d, 3, 5, "ab\nc\n\nd");
    let mut expected = glyph_pixels([b'a'; 5], 3, 5);
    expected.extend(glyph_pixels([b'b'; 5], 9, 5));
    expected.extend(glyph_pixels([b'c'; 5], 3, 13));
    expected.extend(glyph_pixels([b'd'; 5], 3, 29));
    assert_eq!(lit_pixels(&d), sorted(expected));
}

#[test]
fn the_cursor_wraps_when_it_reaches_the_right_edge() {
    let mut d = display(code_font());
    let text = "A".repeat(21) + "B";
    draw_string(&mut d, 0, 0, &text);
    let mut expected = Vec::new();
    for k in 0..21 {
        expected.extend(glyph_pixels([b'A'; 5], 6 * k, 0));
    }
    expected.extend(glyph_pixels([b'B'; 5], 126, 0));
    assert_eq!(lit_pixels(&d), sorted(expected));

    let mut d = display(code_font());
    let text = "A".repeat(22) + "B";
    draw_string(&mut d, 0, 0, &text);
    let mut expected = Vec::new();
    for k in 0..22 {
        expected.extend(glyph_pixels([b'A'; 5], 6 * k, 0));
    }
    expected.extend(glyph_pixels([b'B'; 5], 0, 8));
    assert_eq!(lit_pixels(&d), sorted(expected));
    assert!(lit_pixels(&d).iter().all(|(x, _)| *x < 128));
}

#[test]
fn a_wrapped_line_continues_in_the_column_where_the_text_began() {
    let mut d = display(code_font());
    draw_string(&mut d, 110, 16, "abcde");
    let mut expected = glyph_pixels([b'a'; 5], 110, 16);
    expected.extend(glyph_pixels([b'b'; 5], 116, 16));
    expected.extend(glyph_pixels([b'c'; 5], 122, 16));
    expected.extend(glyph_pixels([b'd'; 5], 110, 24));
    expected.extend(glyph_pixels([b'e'; 5], 116, 24));
    assert_eq!(lit_pixels(&d), sorted(expected));
}

#[test]
fn a_text_beyond_the_right_edge_wraps_after_every_character() {
    let mut d = display(code_font());
    draw_string(&mut d, 200, 0, "abc");
    assert!(lit_pixels(&d).is_empty());

    let mut d = display(code_font());
    draw_string(&mut d, -3, 0, "ab");
    let mut expected = glyph_pixels([b'a'; 5], -3, 0);
    expected.extend(glyph_pixels([b'b'; 5], 3, 0));
    assert_eq!(lit_pixels(&d), sorted(expected));
}

#[test]
fn text_below_the_display_is_dropped() {
    let mut d = display(code_font());
    draw_string(&mut d, 0, 56, "a\nb\nc\nd");
    assert_eq!(lit_pixels(&d), sorted(glyph_pixels([b'a'; 5], 0, 56)));

    for (x, y) in [(0, 64), (0, i32::MAX), (i32::MAX, i32::MAX), (i32::MAX, 0), (i32::MIN, i32::MIN)] {
        let mut d = display(code_font());
        draw_string(&mut d, x, y, &"line\n".repeat(40));
        assert!(lit_pixels(&d).is_empty(), "from ({x}, {y})");
    }

    let mut d = display(code_font());
    draw_string(&mut d, 0, -16, "a\nb\nc");
    assert_eq!(lit_pixels(&d), sorted(glyph_pixels([b'c'; 5], 0, 0)));
}

#[test]
fn draw_bytes_draws_the_text_before_the_first_zero_byte() {
    let mut by_bytes = display(code_font());
    draw_bytes(&mut by_bytes, 2, 9, b"two\nlines\0not this");
    let mut by_string = display(code_font());
    draw_string(&mut by_string, 2, 9, "two\nlines");
    assert_eq!(by_bytes.framebuffer(), by_string.framebuffer());
    assert!(!lit_pixels(&by_bytes).is_empty());

    let mut d = display(code_font());
    draw_bytes(&mut d, 0, 0, b"\0abc");
    assert!(lit_pixels(&d).is_empty());

    let mut d = display(code_font());
    draw_bytes(&mut d, 0, 0, b"ab");
    let mut expected = glyph_pixels([b'a'; 5], 0, 0);
    expected.extend(glyph_pixels([b'b'; 5], 6, 0));
    assert_eq!(lit_pixels(&d), sorted(expected));
}

#[test]
fn fill_rect_sets_exactly_the_pixels_of_the_rectangle() {
    let mut d = display(letter_font());
    fill_rect(&mut d, 0, 0, 8, 8, 1);
    let mut by_pixel = display(letter_font());
    for x in 0..8 {
        for y in 0..8 {
            set_pixel(&mut by_pixel, x, y, 1);
        }
    }
    assert_eq!(d.framebuffer(), by_pixel.framebuffer());
    for y in 0..HEIGHT {
        for x in 0..WIDTH {
            assert_eq!(lit(&d, x, y), x < 8 && y < 8, "pixel ({x}, {y})");
        }
    }
    for (i, byte) in d.framebuffer().iter().enumerate() {
        assert_eq!(*byte, if i < 8 { 0xFF } else { 0 });
    }
}

#[test]
fn fill_rect_clears_with_color_zero() {
    let mut d = display(letter_font());
    fill_rect(&mut d, 0, 0, 128, 64, 7);
    fill_rect(&mut d, 10, 20, 30, 5, 0);
    for y in 0..HEIGHT {
        for x in 0..WIDTH {
            let inside = (10..40).contains(&x) && (20..25).contains(&y);
            assert_eq!(lit(&d, x, y), !inside, "pixel ({x}, {y})");
        }
    }
}

#[test]
fn fill_rect_drops_what_lies_outside_the_display() {
    for (x, y, w, h) in [
        (-4, -4, 8, 8),
        (124, 60, 8, 8),
        (-10, 30, 300, 2),
        (60, -100, 3, 1000),
        (0, 0, 0, 5),
        (0, 0, 5, 0),
        (5, 5, -3, 4),
        (5, 5, 4, -3),
        (128, 0, 5, 5),
        (0, 64, 5, 5),
        (i32::MIN, i32::MIN, i32::MAX, i32::MAX),
        (-5, -5, i32::MAX, i32::MAX),
        (i32::MAX, i32::MAX, i32::MAX, i32::MAX),
        (100, 50, i32::MAX, i32::MAX),
        (i32::MIN, 10, i32::MIN, 10),
    ] {
        let mut d = display(letter_font());
        fill_rect(&mut d, x, y, w, h, 1);
        let (x, y, w, h) = (x as i64, y as i64, w as i64, h as i64);
        for py in 0..HEIGHT {
            for px in 0..WIDTH {
                let (a, b) = (px as i64, py as i64);
                let inside = x <= a && a < x + w && y <= b && b < y + h;
                assert_eq!(lit(&d, px, py), inside, "rect ({x}, {y}, {w}, {h}), pixel ({px}, {py})");
            }
        }
    }
}

#[test]
fn drawing_sends_nothing_to_the_display() {
    let mut d = display(letter_font());
    set_pixel(&mut d, 1, 1, 1);
    draw_char(&mut d, 0, 0, 'A');
    draw_string(&mut d, 0, 8, "text");
    draw_bytes(&mut d, 0, 16, b"bytes");
    fill_rect(&mut d, 0, 24, 5, 5, 1);
    clear(&mut d);
    assert!(d.registers().log().is_empty());
}
