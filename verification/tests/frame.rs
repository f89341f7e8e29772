use haribote::font::Font;
use haribote::memory::{BootInfoFrameAllocator, MemoryRegion, MAX_REGIONS};
use haribote::vga::{
    boxfill8, init_palette, init_screen, set_palette, Color, ScreenInfo, ScreenStringWriter, BASIC_RGB_TABLE,
};

fn frame(screenx: u16, screeny: u16) -> ScreenInfo {
    ScreenInfo { screenx, screeny, vram: vec![0xee; screenx as usize * screeny as usize] }
}

fn test_font() -> Font {
    let mut glyphs = vec![[0u16; 16]; 256];
    glyphs['A' as usize][0] = 0x80;
    glyphs['A' as usize][15] = 0x01;
    glyphs['B' as usize] = [0xff; 16];
    glyphs['N' as usize][3] = 0x18;
    Font::new(glyphs).unwrap()
}

fn count(sinfo: &ScreenInfo, color: u8) -> usize {
    sinfo.vram.iter().filter(|&&p| p == color).count()
}

#[test]
fn palette_is_sent_entry_by_entry() {
    let writes = init_palette();
    assert_eq!(writes.len(), 1 + 3 * 16);
    assert_eq!(writes[0], (0x03c8, 0));
    // black, then light red with its red at full strength in six bits
    assert_eq!(writes[1..4], [(0x03c9, 0), (0x03c9, 0), (0x03c9, 0)]);
    assert_eq!(writes[4..7], [(0x03c9, 0x3f), (0x03c9, 0), (0x03c9, 0)]);
    // light gray
    assert_eq!(writes[25..28], [(0x03c9, 0x31), (0x03c9, 0x31), (0x03c9, 0x31)]);
    // dark gray, the last
    assert_eq!(writes[46..49], [(0x03c9, 0x21), (0x03c9, 0x21), (0x03c9, 0x21)]);
    for (i, entry) in BASIC_RGB_TABLE.iter().enumerate() {
        for (j, &value) in entry.iter().enumerate() {
            assert_eq!(writes[1 + 3 * i + j], (0x03c9, value >> 2));
        }
    }
}

#[test]
fn part_of_the_palette() {
    let writes = set_palette(7, 8, BASIC_RGB_TABLE);
    assert_eq!(
        writes,
        vec![
            (0x03c8, 7),
            (0x03c9, 0x3f),
            (0x03c9, 0x3f),
            (0x03c9, 0x3f),
            (0x03c9, 0x31),
            (0x03c9, 0x31),
            (0x03c9, 0x31)
        ]
    );
    assert_eq!(set_palette(15, 15, BASIC_RGB_TABLE).len(), 4);
    // an empty range selects the entry and sets nothing
    assert_eq!(set_palette(9, 3, BASIC_RGB_TABLE), vec![(0x03c8, 9)]);
    assert_eq!(set_palette(100, 3, BASIC_RGB_TABLE), vec![(0x03c8, 100)]);
}

#[test]
fn palette_indices_of_the_colors() {
    assert_eq!(Color::Black.code(), 0);
    assert_eq!(Color::LightRed.code(), 1);
    assert_eq!(Color::White.code(), 7);
    assert_eq!(Color::LightGray.code(), 8);
    assert_eq!(Color::DarkCyan.code(), 14);
    assert_eq!(Color::DarkGray.code(), 15);
}

#[test]
fn boxfill8_fills_rows_of_the_frame() {
    let mut sinfo = frame(10, 6);
    boxfill8(&mut sinfo, Color::White, 2, 1, 4, 3);
    for y in 0..6usize {
        for x in 0..10usize {
            let inside = (2..=4).contains(&x) && (1..=3).contains(&y);
            assert_eq!(sinfo.vram[y * 10 + x], if inside { 7 } else { 0xee });
        }
    }
    boxfill8(&mut sinfo, Color::Black, 4, 1, 2, 3);
    boxfill8(&mut sinfo, Color::Black, 2, 3, 4, 1);
    assert_eq!(count(&sinfo, 0), 0);
    boxfill8(&mut sinfo, Color::Black, 9, 5, 9, 5);
    assert_eq!(sinfo.vram[59], 0);
    assert_eq!(count(&sinfo, 0), 1);
    // a box that is wider than the frame runs on into the next row
    boxfill8(&mut sinfo, Color::LightRed, 8, 0, 11, 0);
    assert_eq!(sinfo.vram[8..12], [1, 1, 1, 1]);
}

#[test]
fn init_screen_paints_the_desktop() {
    let mut sinfo = frame(320, 200);
    init_screen(&mut sinfo);
    let px = |x: usize, y: usize| sinfo.vram[y * 320 + x];
    assert_eq!(px(0, 0), Color::DarkCyan.code());
    assert_eq!(px(319, 171), Color::DarkCyan.code());
    assert_eq!(px(0, 172), Color::LightGray.code());
    assert_eq!(px(5, 173), Color::White.code());
    assert_eq!(px(319, 199), Color::LightGray.code());
    assert_eq!(px(3, 176), Color::White.code());
    assert_eq!(px(2, 196), Color::White.code());
    assert_eq!(px(3, 196), Color::DarkGray.code());
    assert_eq!(px(59, 177), Color::DarkGray.code());
    assert_eq!(px(2, 197), Color::Black.code());
    assert_eq!(px(60, 176), Color::Black.code());
    assert_eq!(px(273, 176), Color::DarkGray.code());
    assert_eq!(px(273, 196), Color::DarkGray.code());
    assert_eq!(px(273, 197), Color::White.code());
    assert_eq!(px(317, 176), Color::White.code());
    assert_eq!(px(318, 176), Color::LightGray.code());
    assert_eq!(count(&sinfo, 0xee), 0);
    // the smallest frame
    let mut small = frame(61, 29);
    init_screen(&mut small);
    assert_eq!(small.vram[0], Color::DarkCyan.code());
    assert_eq!(count(&small, 0xee), 0);
}

#[test]
fn writer_starts_lines_at_its_first_column() {
    let mut writer = ScreenStringWriter::new(frame(40, 40), 5, 3, Color::White);
    assert_eq!((writer.x, writer.x0, writer.y), (5, 5, 3));
    writer.x = 21;
    writer.newline();
    assert_eq!((writer.x, writer.x0, writer.y), (5, 5, 19));
}

#[test]
fn putfont8_draws_at_the_cursor() {
    let font = test_font();
    let mut writer = ScreenStringWriter::new(frame(40, 40), 5, 3, Color::LightRed);
    writer.putfont8(&font, b'A');
    assert_eq!(writer.sinfo.vram[3 * 40 + 5], 1);
    assert_eq!(writer.sinfo.vram[18 * 40 + 12], 1);
    assert_eq!(count(&writer.sinfo, 1), 2);
    assert_eq!((writer.x, writer.y), (5, 3));
    writer.putfont8(&font, b' ');
    assert_eq!(count(&writer.sinfo, 1), 2);
}

#[test]
fn text_moves_right_and_wraps_at_the_edge() {
    let font = test_font();
    let mut writer = ScreenStringWriter::new(frame(30, 64), 2, 0, Color::White);
    writer.putfonts8_ascii(&font, "B");
    assert_eq!((writer.x, writer.y), (10, 0));
    writer.putfonts8_ascii(&font, "B");
    assert_eq!((writer.x, writer.y), (18, 0));
    // 30 <= 18 + 8 does not hold, so the third glyph is followed by a step to the right
    writer.putfonts8_ascii(&font, "B");
    assert_eq!((writer.x, writer.y), (26, 0));
    assert_eq!(count(&writer.sinfo, 7), 3 * 128);
    writer.putfonts8_ascii(&font, "\n");
    assert_eq!((writer.x, writer.y), (2, 16));
    writer.x = 22;
    // 30 <= 22 + 8: after this glyph the line is broken
    writer.putfonts8_ascii(&font, "A");
    assert_eq!((writer.x, writer.y), (2, 32));
    assert_eq!(writer.sinfo.vram[16 * 30 + 22], 7);
    assert_eq!(writer.sinfo.vram[31 * 30 + 29], 7);
}

#[test]
fn text_beyond_ascii_is_refused_in_words() {
    let font = test_font();
    let mut writer = ScreenStringWriter::new(frame(320, 32), 0, 0, Color::White);
    writer.write_str(&font, "caf\u{e9}");
    // "NOT ASCII!!!" has twelve characters; in this font the glyphs of 'N' and 'A' have
    // two pixels each and the others none
    assert_eq!((writer.x, writer.y), (96, 0));
    assert_eq!(writer.sinfo.vram[3 * 320 + 3], 7);
    assert_eq!(writer.sinfo.vram[3 * 320 + 4], 7);
    assert_eq!(writer.sinfo.vram[4 * 8], 7);
    assert_eq!(writer.sinfo.vram[15 * 320 + 4 * 8 + 7], 7);
    assert_eq!(count(&writer.sinfo, 7), 4);
    let mut plain = ScreenStringWriter::new(frame(320, 32), 0, 0, Color::White);
    plain.write_str(&font, "AB\nA");
    assert_eq!((plain.x, plain.y), (8, 16));
    assert_eq!(count(&plain.sinfo, 7), 2 + 128 + 2);
}

fn region(start: u64, end: u64, usable: bool) -> MemoryRegion {
    MemoryRegion { start_frame_number: start, end_frame_number: end, usable }
}

#[test]
fn frames_come_from_the_usable_regions_in_order() {
    let mut map = [region(0, 0, false); MAX_REGIONS];
    map[0] = region(0, 2, false);
    map[1] = region(2, 4, true);
    map[2] = region(4, 4, true);
    map[3] = region(9, 7, true);
    map[4] = region(16, 17, true);
    map[5] = region(20, 30, false);
    map[6] = region(256, 258, true);
    // a region beyond the entries in use
    map[7] = region(1000, 2000, true);
    let mut frames = BootInfoFrameAllocator::init(map, 7);
    assert_eq!(frames.next, 0);
    assert_eq!(frames.allocate_frame(), Some(0x2000));
    assert_eq!(frames.allocate_frame(), Some(0x3000));
    assert_eq!(frames.allocate_frame(), Some(0x10000));
    assert_eq!(frames.allocate_frame(), Some(0x100000));
    assert_eq!(frames.allocate_frame(), Some(0x101000));
    assert_eq!(frames.next, 5);
    assert_eq!(frames.allocate_frame(), None);
    assert_eq!(frames.allocate_frame(), None);
    assert_eq!(frames.next, 7);
}

#[test]
fn no_regions_no_frames() {
    let map = [region(5, 50, true); MAX_REGIONS];
    let mut frames = BootInfoFrameAllocator::init(map, 0);
    assert_eq!(frames.allocate_frame(), None);
    let mut frames = BootInfoFrameAllocator::init(map, 1);
    frames.next = 44;
    assert_eq!(frames.allocate_frame(), Some(49 * 4096));
    assert_eq!(frames.allocate_frame(), None);
}
