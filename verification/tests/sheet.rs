use haribote::font::{row_bit_set, Font};
use haribote::util::clip;
use haribote::vga_graphic::colors256::Color;
use haribote::vga_graphic::{Sheet, CLOSE_BUTTON, CURSOR};

fn test_font() -> Font {
    let mut glyphs = vec![[0u16; 16]; 256];
    // 'A': the top left and the bottom right pixel
    glyphs['A' as usize][0] = 0x80;
    glyphs['A' as usize][15] = 0x01;
    // 'B': every pixel
    glyphs['B' as usize] = [0xff; 16];
    // 'C': the second row, alternating pixels
    glyphs['C' as usize][1] = 0xaa;
    Font::new(glyphs).unwrap()
}

fn count(sheet: &Sheet, color: Option<Color>) -> usize {
    sheet.buf.iter().map(|row| row.iter().filter(|&&p| p == color).count()).sum()
}

#[test]
fn clip_limits_to_the_interval() {
    assert_eq!(clip(5, 0, 10), 5);
    assert_eq!(clip(-5, 0, 10), 0);
    assert_eq!(clip(15, 0, 10), 10);
    assert_eq!(clip(0, 0, 10), 0);
    assert_eq!(clip(10, 0, 10), 10);
    assert_eq!(clip(7, -1, 3), 3);
    assert_eq!(clip(-9, -1, 3), -1);
    // crossed bounds give the lower bound
    assert_eq!(clip(5, 10, 0), 10);
}

#[test]
fn font_needs_256_glyphs() {
    assert!(Font::new(vec![[0u16; 16]; 255]).is_none());
    assert!(Font::new(vec![[0u16; 16]; 257]).is_none());
    let font = Font::new(vec![[3u16; 16]; 256]).unwrap();
    assert_eq!(font.glyph('x'), [3u16; 16]);
    assert_eq!(test_font().glyph('A')[0], 0x80);
}

#[test]
fn bit_7_of_a_row_is_the_leftmost_pixel() {
    assert!(row_bit_set(0x80, 0));
    assert!(!row_bit_set(0x80, 1));
    assert!(row_bit_set(0x01, 7));
    assert!(!row_bit_set(0x01, 6));
    for bit in 0..8 {
        assert_eq!(row_bit_set(0xa5, bit), [true, false, true, false, false, true, false, true][bit as usize]);
        // the upper byte of a row is not shown
        assert!(!row_bit_set(0xff00, bit));
    }
}

#[test]
fn color_codes() {
    assert_eq!(Color::Black.code(), 0);
    assert_eq!(Color::Blue.code(), 1);
    assert_eq!(Color::Green.code(), 2);
    assert_eq!(Color::Cyan.code(), 3);
    assert_eq!(Color::Red.code(), 4);
    assert_eq!(Color::Magenta.code(), 5);
    assert_eq!(Color::Brown.code(), 6);
    assert_eq!(Color::LightGrey.code(), 7);
    assert_eq!(Color::DarkBlue.code(), 8);
    assert_eq!(Color::LightBlue.code(), 9);
    assert_eq!(Color::LightGreen.code(), 10);
    assert_eq!(Color::Sky.code(), 11);
    assert_eq!(Color::WineRed.code(), 12);
    assert_eq!(Color::Purple.code(), 13);
    assert_eq!(Color::DullYellow.code(), 14);
    assert_eq!(Color::White.code(), 65);
}

#[test]
fn new_sheet_is_hidden_and_black() {
    let sheet = Sheet::new((5, 6), (4, 3), (1, 2));
    assert_eq!(sheet.position(), ((5, 6), (4, 3)));
    assert_eq!(sheet.area(), ((5, 6), (9, 9)));
    assert_eq!(sheet.column_position, (1, 2));
    assert_eq!(sheet.initial_column_position, (3, 23));
    assert_eq!(sheet.height, -1);
    assert!(!sheet.used);
    assert_eq!(sheet.foreground, Color::White);
    assert_eq!(sheet.background, Color::Black);
    assert_eq!(sheet.buf.len(), 3);
    assert!(sheet.buf.iter().all(|row| row.len() == 4));
    assert_eq!(count(&sheet, Some(Color::Black)), 12);
    assert!(sheet.areas_to_refresh.is_empty());
}

#[test]
fn line_area_spans_the_sheet() {
    let mut sheet = Sheet::new((10, 20), (100, 50), (0, 0));
    sheet.column_position = (8, 16);
    assert_eq!(sheet.line_area(), ((10, 16), (110, 32)));
}

#[test]
fn adjust_gives_a_new_buffer_in_background_color() {
    let mut sheet = Sheet::new((0, 0), (2, 2), (0, 0));
    sheet.change_color(Color::Red, Color::Green);
    sheet.write_pixel_to_buf((1, 1), None);
    sheet.adjust((3, 5));
    assert_eq!(sheet.position(), ((0, 0), (3, 5)));
    assert_eq!(sheet.buf.len(), 5);
    assert!(sheet.buf.iter().all(|row| row.len() == 3));
    assert_eq!(count(&sheet, Some(Color::Green)), 15);
    sheet.adjust((0, 0));
    assert_eq!(sheet.buf.len(), 0);
}

#[test]
fn moves_stop_at_the_screen_edges() {
    let mut sheet = Sheet::new((0, 0), (16, 16), (0, 0));
    sheet.moveto((30, 40));
    assert_eq!(sheet.position().0, (30, 40));
    sheet.moveby((5, -10));
    assert_eq!(sheet.position().0, (35, 30));
    sheet.moveby((-100, -100));
    assert_eq!(sheet.position().0, (0, 0));
    sheet.moveby((1000, 1000));
    assert_eq!(sheet.position().0, (320, 200));
    sheet.moveto((-1, 500));
    assert_eq!(sheet.position().0, (0, 200));
    sheet.moveto((320, 0));
    assert_eq!(sheet.position().0, (320, 0));
}

#[test]
fn change_color_fills_with_the_background() {
    let mut sheet = Sheet::new((0, 0), (3, 2), (0, 0));
    sheet.change_color(Color::White, Color::Cyan);
    assert_eq!(sheet.foreground, Color::White);
    assert_eq!(sheet.background, Color::Cyan);
    assert_eq!(count(&sheet, Some(Color::Cyan)), 6);
}

#[test]
fn create_buffer_has_rows_of_the_width() {
    let buf = Sheet::create_buffer((3, 2), Color::Red);
    assert_eq!(buf, vec![vec![Some(Color::Red); 3]; 2]);
    assert!(Sheet::create_buffer((0, 4), Color::Red).iter().all(|row| row.is_empty()));
}

#[test]
fn write_pixel_addresses_column_then_row() {
    let mut sheet = Sheet::new((0, 0), (4, 3), (0, 0));
    sheet.write_pixel_to_buf((3, 1), Some(Color::Red));
    sheet.write_pixel_to_buf((0, 2), None);
    assert_eq!(sheet.buf[1][3], Some(Color::Red));
    assert_eq!(sheet.buf[2][0], None);
    assert_eq!(count(&sheet, Some(Color::Black)), 10);
}

#[test]
fn boxfill_includes_both_corners() {
    let mut sheet = Sheet::new((0, 0), (6, 5), (0, 0));
    sheet.boxfill(Color::Red, ((1, 2), (3, 4)));
    for y in 0..5usize {
        for x in 0..6usize {
            let inside = (1..=3).contains(&x) && (2..=4).contains(&y);
            let expect = if inside { Color::Red } else { Color::Black };
            assert_eq!(sheet.buf[y][x], Some(expect));
        }
    }
    // corners out of order: nothing happens
    sheet.boxfill(Color::Green, ((3, 2), (1, 4)));
    sheet.boxfill(Color::Green, ((1, 4), (3, 2)));
    sheet.boxfill(Color::Green, ((100, 100), (-100, -100)));
    assert_eq!(count(&sheet, Some(Color::Green)), 0);
    // a single pixel
    sheet.boxfill(Color::Green, ((5, 0), (5, 0)));
    assert_eq!(sheet.buf[0][5], Some(Color::Green));
    assert_eq!(count(&sheet, Some(Color::Green)), 1);
}

#[test]
fn fill_boxes_paints_later_boxes_over_earlier() {
    let mut sheet = Sheet::new((0, 0), (4, 4), (0, 0));
    sheet.fill_boxes(&vec![(Color::Red, ((0, 0), (2, 2))), (Color::Blue, ((1, 1), (3, 3)))]);
    assert_eq!(sheet.buf[0][0], Some(Color::Red));
    assert_eq!(sheet.buf[1][1], Some(Color::Blue));
    assert_eq!(sheet.buf[2][2], Some(Color::Blue));
    assert_eq!(sheet.buf[3][3], Some(Color::Blue));
    assert_eq!(sheet.buf[0][3], Some(Color::Black));
    assert_eq!(count(&sheet, Some(Color::Red)), 5);
    assert_eq!(count(&sheet, Some(Color::Blue)), 9);
}

#[test]
fn draw_character_sets_the_glyphs_pixels() {
    let font = test_font();
    let mut sheet = Sheet::new((0, 0), (20, 20), (0, 0));
    sheet.draw_character(&font, (2, 3), 'A', Color::Red);
    assert_eq!(sheet.buf[3][2], Some(Color::Red));
    assert_eq!(sheet.buf[18][9], Some(Color::Red));
    assert_eq!(count(&sheet, Some(Color::Red)), 2);
    sheet.draw_character(&font, (0, 0), 'C', Color::Green);
    for bit in 0..8usize {
        let expect = if bit % 2 == 0 { Color::Green } else { Color::Black };
        assert_eq!(sheet.buf[1][bit], Some(expect));
    }
    assert_eq!(count(&sheet, Some(Color::Green)), 4);
    // a blank glyph draws nothing, wherever it stands
    sheet.draw_character(&font, (1000, -1000), ' ', Color::Blue);
    assert_eq!(count(&sheet, Some(Color::Blue)), 0);
    // the glyph of 'A' fits where its two pixels fit
    let mut small = Sheet::new((0, 0), (8, 16), (0, 0));
    small.draw_character(&font, (0, 0), 'A', Color::Red);
    assert_eq!(small.buf[0][0], Some(Color::Red));
    assert_eq!(small.buf[15][7], Some(Color::Red));
}

#[test]
fn write_str_moves_the_cursor_and_wraps() {
    let font = test_font();
    let mut sheet = Sheet::new((0, 0), (30, 64), (0, 0));
    sheet.initial_column_position = (1, 0);
    sheet.column_position = (1, 0);
    sheet.change_color(Color::Red, Color::Black);
    sheet.write_str(&font, "B");
    assert_eq!(sheet.column_position, (9, 0));
    assert_eq!(count(&sheet, Some(Color::Red)), 128);
    // the second glyph still fits (9 + 8 <= 30), a third would not (17 + 8 + 8 > 30)
    sheet.write_str(&font, "B");
    assert_eq!(sheet.column_position, (17, 0));
    sheet.write_str(&font, "B");
    assert_eq!(sheet.column_position, (1, 16));
    assert_eq!(count(&sheet, Some(Color::Red)), 3 * 128);
    assert_eq!(sheet.buf[0][1], Some(Color::Red));
    assert_eq!(sheet.buf[15][24], Some(Color::Red));
    assert_eq!(sheet.buf[0][25], Some(Color::Black));
    assert_eq!(sheet.buf[16][1], Some(Color::Black));
}

#[test]
fn line_feed_goes_to_the_start_column() {
    let font = test_font();
    let mut sheet = Sheet::new((0, 0), (100, 100), (0, 0));
    sheet.initial_column_position = (3, 23);
    sheet.column_position = (50, 7);
    sheet.write_str(&font, "\n");
    assert_eq!(sheet.column_position, (3, 23));
    sheet.write_str(&font, "A\nA");
    assert_eq!(sheet.column_position, (11, 39));
    assert_eq!(sheet.buf[23][3], Some(Color::White));
    assert_eq!(sheet.buf[39][3], Some(Color::White));
    assert_eq!(count(&sheet, Some(Color::White)), 4);
    sheet.write_char(&font, '\n');
    assert_eq!(sheet.column_position, (3, 55));
}

#[test]
fn text_at_the_lower_edge_clears_the_sheet() {
    let font = test_font();
    let mut sheet = Sheet::new((0, 0), (17, 40), (0, 0));
    sheet.initial_column_position = (2, 4);
    sheet.column_position = (2, 4);
    sheet.change_color(Color::White, Color::Blue);
    sheet.write_str(&font, "B");
    // (10, 4): another glyph would pass the right edge, so the cursor wraps to (2, 20)
    assert_eq!(sheet.column_position, (2, 20));
    assert_eq!(count(&sheet, Some(Color::White)), 128);
    sheet.write_str(&font, "B");
    // after the wrap to line 36 no line fits (36 + 16 > 40): the buffer is cleared
    assert_eq!(sheet.column_position, (2, 4));
    assert_eq!(count(&sheet, Some(Color::Blue)), 17 * 40);
}

#[test]
fn empty_text_changes_nothing() {
    let font = test_font();
    let mut sheet = Sheet::new((0, 0), (10, 10), (4, 5));
    sheet.write_str(&font, "");
    assert_eq!(sheet.column_position, (4, 5));
    assert_eq!(count(&sheet, Some(Color::Black)), 100);
}

#[test]
fn make_background_paints_desktop_and_task_bar() {
    let mut sheet = Sheet::new((0, 0), (320, 200), (0, 0));
    sheet.change_color(Color::White, Color::Cyan);
    sheet.make_background();
    let px = |x: usize, y: usize| sheet.buf[y][x];
    assert_eq!(px(0, 0), Some(Color::Cyan));
    assert_eq!(px(319, 171), Some(Color::Cyan));
    assert_eq!(px(0, 172), Some(Color::LightGrey));
    assert_eq!(px(319, 172), Some(Color::LightGrey));
    assert_eq!(px(100, 173), Some(Color::White));
    assert_eq!(px(100, 174), Some(Color::LightGrey));
    assert_eq!(px(100, 199), Some(Color::LightGrey));
    // the button on the left
    assert_eq!(px(3, 176), Some(Color::White));
    assert_eq!(px(59, 176), Some(Color::White));
    assert_eq!(px(2, 176), Some(Color::White));
    assert_eq!(px(2, 196), Some(Color::White));
    assert_eq!(px(3, 196), Some(Color::DarkBlue));
    assert_eq!(px(59, 177), Some(Color::DarkBlue));
    assert_eq!(px(59, 195), Some(Color::DarkBlue));
    assert_eq!(px(2, 197), Some(Color::Black));
    assert_eq!(px(59, 197), Some(Color::Black));
    assert_eq!(px(60, 176), Some(Color::Black));
    assert_eq!(px(60, 197), Some(Color::Black));
    assert_eq!(px(61, 176), Some(Color::LightGrey));
    // the tray on the right
    assert_eq!(px(273, 176), Some(Color::DarkBlue));
    assert_eq!(px(316, 176), Some(Color::DarkBlue));
    assert_eq!(px(273, 196), Some(Color::DarkBlue));
    assert_eq!(px(273, 197), Some(Color::White));
    assert_eq!(px(316, 197), Some(Color::White));
    assert_eq!(px(317, 176), Some(Color::White));
    assert_eq!(px(317, 197), Some(Color::White));
    assert_eq!(px(318, 176), Some(Color::LightGrey));
    assert_eq!(px(272, 176), Some(Color::LightGrey));
}

#[test]
fn make_background_on_the_smallest_sheet() {
    let mut sheet = Sheet::new((0, 0), (61, 28), (0, 0));
    sheet.make_background();
    assert_eq!(sheet.buf[0][0], Some(Color::LightGrey));
    assert_eq!(sheet.buf[4][60], Some(Color::Black));
    assert_eq!(count(&sheet, None), 0);
}

#[test]
fn make_sheet_paints_a_window() {
    let font = test_font();
    let mut sheet = Sheet::new((0, 0), (190, 100), (0, 0));
    sheet.make_sheet(&font, "AB");
    let px = |x: usize, y: usize| sheet.buf[y][x];
    assert_eq!(sheet.column_position, (3, 23));
    // the frame
    assert_eq!(px(0, 0), Some(Color::LightGrey));
    assert_eq!(px(188, 0), Some(Color::LightGrey));
    assert_eq!(px(189, 0), Some(Color::Black));
    assert_eq!(px(0, 98), Some(Color::LightGrey));
    assert_eq!(px(0, 99), Some(Color::Black));
    assert_eq!(px(1, 1), Some(Color::White));
    assert_eq!(px(187, 1), Some(Color::White));
    assert_eq!(px(188, 1), Some(Color::Black));
    assert_eq!(px(1, 97), Some(Color::White));
    assert_eq!(px(1, 98), Some(Color::Black));
    assert_eq!(px(188, 98), Some(Color::Black));
    assert_eq!(px(189, 99), Some(Color::Black));
    // the body and the title bar
    assert_eq!(px(2, 21), Some(Color::LightGrey));
    assert_eq!(px(100, 50), Some(Color::LightGrey));
    assert_eq!(px(187, 97), Some(Color::LightGrey));
    assert_eq!(px(3, 20), Some(Color::Blue));
    assert_eq!(px(186, 3), Some(Color::Blue));
    assert_eq!(px(100, 10), Some(Color::Blue));
    assert_eq!(px(2, 10), Some(Color::LightGrey));
    // the title: 'A' at (2, 2), 'B' at (10, 2), in white
    assert_eq!(px(2, 2), Some(Color::White));
    assert_eq!(px(9, 17), Some(Color::White));
    assert_eq!(px(3, 3), Some(Color::Blue));
    for y in 2..18 {
        for x in 10..18 {
            assert_eq!(px(x, y), Some(Color::White));
        }
    }
    assert_eq!(px(18, 5), Some(Color::Blue));
    // the close button, from (169, 5)
    for y in 0..14usize {
        for x in 0..16usize {
            let expect = match CLOSE_BUTTON[y][x] {
                b'@' => Color::Black,
                b'$' => Color::DarkBlue,
                b'Q' => Color::LightGrey,
                _ => Color::White,
            };
            assert_eq!(px(169 + x, 5 + y), Some(expect));
        }
    }
    assert_eq!(px(169, 5), Some(Color::White));
    assert_eq!(px(184, 5), Some(Color::Black));
    assert_eq!(px(170, 6), Some(Color::LightGrey));
    assert_eq!(px(183, 6), Some(Color::DarkBlue));
    assert_eq!(px(168, 5), Some(Color::Blue));
    assert_eq!(px(185, 5), Some(Color::Blue));
}

#[test]
fn pictures_are_the_ascii_drawings() {
    let cursor = [
        "**************..",
        "*OOOOOOOOOOO*...",
        "*OOOOOOOOOO*....",
        "*OOOOOOOOO*.....",
        "*OOOOOOOO*......",
        "*OOOOOOO*.......",
        "*OOOOOOO*.......",
        "*OOOOOOOO*......",
        "*OOOO**OOO*.....",
        "*OOO*..*OOO*....",
        "*OO*....*OOO*...",
        "*O*......*OOO*..",
        "**........*OOO*.",
        "*..........*OOO*",
        "............*OO*",
        ".............***",
    ];
    for (row, text) in cursor.iter().enumerate() {
        assert_eq!(&CURSOR[row][..], text.as_bytes());
    }
    let button = [
        "OOOOOOOOOOOOOOO@",
        "OQQQQQQQQQQQQQ$@",
        "OQQQQQQQQQQQQQ$@",
        "OQQ@@QQQQ@@QQQ$@",
        "OQQQ@@QQ@@QQQQ$@",
        "OQQQQ@@@@QQQQQ$@",
        "OQQQQQ@@QQQQQQ$@",
        "OQQQQ@@@@QQQQQ$@",
        "OQQQ@@QQ@@QQQQ$@",
        "OQQ@@QQQQ@@QQQ$@",
        "OQQQQQQQQQQQQQ$@",
        "OQQQQQQQQQQQQQ$@",
        "O$$$$$$$$$$$$$$@",
        "@@@@@@@@@@@@@@@@",
    ];
    for (row, text) in button.iter().enumerate() {
        assert_eq!(&CLOSE_BUTTON[row][..], text.as_bytes());
    }
}

#[test]
fn draw_cursor_stores_the_picture_by_columns() {
    let mut sheet = Sheet::new((0, 0), (16, 16), (0, 0));
    sheet.draw_cursor();
    for y in 0..16usize {
        for x in 0..16usize {
            let expect = match CURSOR[x][y] {
                b'*' => Some(Color::Black),
                b'O' => Some(Color::White),
                _ => None,
            };
            assert_eq!(sheet.buf[y][x], expect);
        }
    }
    assert_eq!(sheet.buf[0][0], Some(Color::Black));
    assert_eq!(sheet.buf[1][1], Some(Color::White));
    assert_eq!(sheet.buf[0][14], None);
    assert_eq!(sheet.buf[14][0], None);
    assert_eq!(sheet.buf[15][15], Some(Color::Black));
}

#[test]
fn clear_buf_fills_with_the_background() {
    let mut sheet = Sheet::new((0, 0), (5, 4), (0, 0));
    sheet.boxfill(Color::Red, ((0, 0), (4, 3)));
    sheet.background = Color::Green;
    sheet.clear_buf();
    assert_eq!(count(&sheet, Some(Color::Green)), 20);
}
