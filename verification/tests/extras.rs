use haribote::allocator::{align_up, BumpAllocator, HEAP_SIZE, HEAP_START};
use haribote::dsc_tbl::gdt::SegmentDescriptor;
use haribote::dsc_tbl::idt::GateDescriptor;
use haribote::vga_text::{Buffer, Color, ColorCode, ScreenChar, Writer, BUFFER_HEIGHT, BUFFER_WIDTH};

#[test]
fn align_up_to_powers_of_two() {
    assert_eq!(align_up(0, 1), 0);
    assert_eq!(align_up(13, 1), 13);
    assert_eq!(align_up(0, 8), 0);
    assert_eq!(align_up(1, 8), 8);
    assert_eq!(align_up(8, 8), 8);
    assert_eq!(align_up(9, 8), 16);
    assert_eq!(align_up(4095, 4096), 4096);
    assert_eq!(align_up(4097, 4096), 8192);
    assert_eq!(align_up(0x12345, 2), 0x12346);
}

#[test]
fn bump_allocator_walks_through_its_window() {
    let mut bump = BumpAllocator::new();
    assert_eq!(bump.allocate(1, 1), None);
    assert_eq!(bump.allocate(0, 1), Some(0));
    bump.deallocate();
    bump.init(1000, 100);
    assert_eq!(bump.allocate(10, 1), Some(1000));
    assert_eq!(bump.allocate(4, 8), Some(1016));
    assert_eq!(bump.allocate(80, 4), Some(1020));
    assert_eq!(bump.allocate(1, 1), None);
    assert_eq!(bump.allocate(0, 1), Some(1100));
    assert_eq!(bump.allocate(usize::MAX, 1), None);
    assert_eq!(bump.allocations(), 4);
    // an alignment that would carry the cursor beyond the addresses
    assert_eq!(bump.allocate(0, 1 << (usize::BITS - 1)), None);
    // the window is free again when the last allocation has come back
    bump.deallocate();
    bump.deallocate();
    bump.deallocate();
    assert_eq!(bump.allocate(1, 1), None);
    bump.deallocate();
    assert_eq!(bump.allocate(100, 1), Some(1000));
}

#[test]
fn heap_window() {
    assert_eq!(HEAP_START, 0x4444_4444_0000);
    assert_eq!(HEAP_SIZE, 1_024_000);
}

#[test]
fn segment_descriptor_packs_its_fields() {
    let d = SegmentDescriptor::new(0x0007ffff, 0x00280000, 0x409a);
    assert_eq!(d.limit_low, 0xffff);
    assert_eq!(d.base_low, 0x0000);
    assert_eq!(d.base_mid, 0x28);
    assert_eq!(d.access_right, 0x9a);
    assert_eq!(d.limit_high, 0x47);
    assert_eq!(d.base_high, 0x00);
    // a limit of more than twenty bits is stored in pages, with the granularity bit
    let d = SegmentDescriptor::new(0xffffffff, 0x12345678, 0x4092);
    assert_eq!(d.limit_low, 0xffff);
    assert_eq!(d.base_low, 0x5678);
    assert_eq!(d.base_mid, 0x34);
    assert_eq!(d.access_right, 0x92);
    assert_eq!(d.limit_high, 0xcf);
    assert_eq!(d.base_high, 0x12);
    let d = SegmentDescriptor::new(0x100000, 0, 0);
    assert_eq!(d.limit_low, 0x0100);
    assert_eq!(d.limit_high, 0x80);
    let d = SegmentDescriptor::new(0xfffff, 0, 0);
    assert_eq!(d.limit_low, 0xffff);
    assert_eq!(d.limit_high, 0x0f);
    let d = SegmentDescriptor::new(0, 0, 0);
    assert_eq!((d.limit_low, d.base_low, d.base_mid, d.access_right, d.limit_high, d.base_high), (0, 0, 0, 0, 0, 0));
}

#[test]
fn gate_descriptor_packs_its_fields() {
    let d = GateDescriptor::new(0x12345678, 2 * 8, 0x008e);
    assert_eq!(d.offset_low, 0x5678);
    assert_eq!(d.selector, 16);
    assert_eq!(d.dw_count, 0x00);
    assert_eq!(d.access_right, 0x8e);
    assert_eq!(d.offset_high, 0x1234);
    let d = GateDescriptor::new(0xffff0000, 0xffff, 0xaabbccdd);
    assert_eq!(d.offset_low, 0);
    assert_eq!(d.dw_count, 0xcc);
    assert_eq!(d.access_right, 0xdd);
    assert_eq!(d.offset_high, 0xffff);
}

#[test]
fn color_code_holds_two_colors() {
    assert_eq!(ColorCode::new(Color::Black, Color::Yellow), ColorCode(0x0e));
    assert_eq!(ColorCode::new(Color::Yellow, Color::Black), ColorCode(0xe0));
    assert_eq!(ColorCode::new(Color::White, Color::White), ColorCode(0xff));
    assert_eq!(ColorCode::new(Color::LightGray, Color::Blue), ColorCode(0x71));
    assert_eq!(Color::Pink.code(), 13);
}

fn line(writer: &Writer, row: usize) -> String {
    writer.buffer.chars[row].iter().map(|c| c.ascii_character as char).collect::<String>().trim_end().to_string()
}

fn text_writer() -> Writer {
    let color = ColorCode::new(Color::Black, Color::Yellow);
    Writer::new(0, color, Buffer::new(ScreenChar { ascii_character: b'.', color_code: color }))
}

#[test]
fn text_goes_to_the_bottom_line() {
    let mut writer = text_writer();
    assert_eq!(writer.buffer.chars.len(), BUFFER_HEIGHT);
    assert!(writer.buffer.chars.iter().all(|l| l.len() == BUFFER_WIDTH));
    writer.write_string("Hi");
    assert_eq!(writer.column_position, 2);
    assert_eq!(&line(&writer, 24)[..4], "Hi..");
    assert_eq!(writer.buffer.chars[24][0].color_code, ColorCode(0x0e));
    writer.write_byte(b'!');
    assert_eq!(&line(&writer, 24)[..4], "Hi!.");
}

#[test]
fn line_feed_scrolls_the_screen() {
    let mut writer = text_writer();
    writer.write_string("one\ntwo\n");
    assert_eq!(line(&writer, 22), "one.............................................................................");
    assert_eq!(line(&writer, 23), "two");
    assert_eq!(line(&writer, 24), "");
    assert_eq!(writer.column_position, 0);
    writer.write_string("Some test string that fits on a single line");
    writer.new_line();
    assert_eq!(line(&writer, 24), "");
    assert_eq!(line(&writer, 23), "Some test string that fits on a single line");
    assert_eq!(line(&writer, 22), "two");
    assert_eq!(&line(&writer, 21)[..5], "one..");
}

#[test]
fn a_full_line_breaks_before_the_next_byte() {
    let mut writer = text_writer();
    writer.new_line();
    for _ in 0..80 {
        writer.write_byte(b'x');
    }
    assert_eq!(writer.column_position, 80);
    assert_eq!(line(&writer, 24), "x".repeat(80));
    writer.write_byte(b'y');
    assert_eq!(writer.column_position, 1);
    assert_eq!(line(&writer, 23), "x".repeat(80));
    assert_eq!(line(&writer, 24), "y");
}

#[test]
fn unprintable_bytes_are_replaced() {
    let mut writer = text_writer();
    writer.new_line();
    writer.write_string("a\tb\u{e9}~ ");
    let shown: Vec<u8> = writer.buffer.chars[24][..7].iter().map(|c| c.ascii_character).collect();
    // the tabulator is one byte, the accented letter two
    assert_eq!(shown, vec![b'a', 0xfe, b'b', 0xfe, 0xfe, b'~', b' ']);
    assert_eq!(writer.column_position, 7);
}

#[test]
fn many_lines_keep_the_last_25() {
    let mut writer = text_writer();
    for i in 0..200 {
        writer.write_string(&format!("line {}\n", i));
    }
    assert_eq!(line(&writer, 0), "line 176");
    assert_eq!(line(&writer, 23), "line 199");
    assert_eq!(line(&writer, 24), "");
}

#[test]
fn clear_line_blanks_one_line() {
    let mut writer = text_writer();
    writer.clear_line(3);
    assert!(writer.buffer.chars[3].iter().all(|c| c.ascii_character == b' ' && c.color_code == ColorCode(0x0e)));
    assert!(writer.buffer.chars[2].iter().all(|c| c.ascii_character == b'.'));
    assert!(writer.buffer.chars[4].iter().all(|c| c.ascii_character == b'.'));
}
