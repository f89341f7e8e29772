use haribote::fifo::FIFO;
use haribote::font::Font;
use haribote::interrupts::on_tick;
use haribote::timer::{TimerState, TIMERCTL};
use haribote::vga_graphic::colors256::Color;
use haribote::vga_graphic::{Screen, SheetControl, CURSOR};
use haribote::desktop::{
    init_background, init_mouse, init_test_sheet, Desktop, Dispatch, TEST_SHEET_SIZE, TICK_BOX, UPTIME_BOX,
};
use haribote::schedule::{arm, init_timers, rearm_ticking, ONE_SECOND, TEN_SECONDS, THREE_SECONDS};
use haribote::uptime::uptime_text;
use haribote::QemuExitCode;

/// A font in which every printable character is a full block, but for the
/// blank.
fn block_font() -> Font {
    let mut glyphs = vec![[0u16; 16]; 256];
    for code in 0x21..0x7f {
        glyphs[code] = [0xff; 16];
    }
    Font::new(glyphs).unwrap()
}

fn window_pixel(desktop: &Desktop, x: usize, y: usize) -> Option<Color> {
    desktop.sheets.sheets[desktop.test_sheet_id].buf[y][x]
}

/// Whether the glyph cell of column `col` on text line `line` of the window
/// is white all over.
fn cell_is_written(desktop: &Desktop, col: usize, line: usize) -> bool {
    let x0 = 3 + 8 * col;
    let y0 = 23 + 16 * line;
    (0..16).all(|dy| (0..8).all(|dx| window_pixel(desktop, x0 + dx, y0 + dy) == Some(Color::White)))
}

#[test]
fn exit_codes() {
    assert_eq!(QemuExitCode::Success.code(), 0x10);
    assert_eq!(QemuExitCode::Failed.code(), 0x11);
}

#[test]
fn uptime_has_at_least_eight_digits() {
    assert_eq!(uptime_text(0), "Uptime:00000000");
    assert_eq!(uptime_text(7), "Uptime:00000007");
    assert_eq!(uptime_text(123), "Uptime:00000123");
    assert_eq!(uptime_text(1000), "Uptime:00001000");
    assert_eq!(uptime_text(12345678), "Uptime:12345678");
    assert_eq!(uptime_text(99999999), "Uptime:99999999");
    assert_eq!(uptime_text(100000000), "Uptime:100000000");
    assert_eq!(uptime_text(4294967295), "Uptime:4294967295");
    for count in [0u32, 9, 10, 99, 100, 65535, 10000000, 987654321] {
        assert_eq!(uptime_text(count), format!("Uptime:{:>08}", count));
    }
}

#[test]
fn constants_of_the_main_loop() {
    assert_eq!(TEST_SHEET_SIZE, (190, 100));
    assert_eq!(UPTIME_BOX, ((3, 23), (3 + 8 * 15, 23 + 16)));
    assert_eq!(TICK_BOX, ((3, 23 + 16 * 3), (3 + 8 * 1, 23 + 16 * 4)));
    assert_eq!((TEN_SECONDS, THREE_SECONDS, ONE_SECOND), (1000, 300, 100));
}

#[test]
fn the_three_sheets_are_set_up_one_by_one() {
    let mut sheets = SheetControl::new(Screen::new(0));
    assert_eq!(init_mouse(&mut sheets), Some(0));
    assert_eq!(sheets.sheets[0].position(), ((0, 0), (16, 16)));
    assert_eq!(sheets.sheets[0].height, 0);
    assert_eq!(sheets.sheets[0].buf[0][0], Some(Color::Black));
    assert_eq!(sheets.sheets[0].buf[0][15], None);
    assert_eq!(init_background(&mut sheets), Some(1));
    assert_eq!(sheets.sheets[1].position(), ((0, 0), (320, 200)));
    assert_eq!(sheets.sheets[1].height, 0);
    assert_eq!(sheets.sheets[0].height, 1);
    assert_eq!(sheets.sheets[1].foreground, Color::White);
    assert_eq!(sheets.sheets[1].background, Color::Cyan);
    assert_eq!(sheets.sheets[1].buf[0][0], Some(Color::Cyan));
    assert_eq!(sheets.sheets[1].buf[199][0], Some(Color::LightGrey));
    assert_eq!(init_test_sheet(&mut sheets, &block_font()), Some(2));
    assert_eq!(sheets.sheets[2].position(), ((30, 30), (190, 100)));
    assert_eq!(sheets.sheets[2].height, 1);
    assert_eq!(sheets.sheets[0].height, 2);
    assert_eq!(sheets.sheets[2].column_position, (3, 23));
    assert_eq!(sheets.top, 2);
}

#[test]
fn setting_up_fails_on_an_exhausted_pool() {
    let mut sheets = SheetControl::new(Screen::new(0));
    while sheets.allocate((1, 1)).is_some() {}
    assert_eq!(init_mouse(&mut sheets), None);
    assert_eq!(init_background(&mut sheets), None);
    assert_eq!(init_test_sheet(&mut sheets, &block_font()), None);
    assert_eq!(sheets.top, -1);
}

#[test]
fn new_desktop_is_painted() {
    let desktop = Desktop::new(block_font());
    assert_eq!((desktop.mouse_id, desktop.background_id, desktop.test_sheet_id), (0, 1, 2));
    let screen = &desktop.sheets.screen;
    // the mouse cursor on top, at the origin
    for y in 0..16usize {
        for x in 0..16usize {
            match CURSOR[x][y] {
                b'*' => assert_eq!(screen.pixel(x, y), Color::Black.code()),
                b'O' => assert_eq!(screen.pixel(x, y), Color::White.code()),
                _ => assert_eq!(screen.pixel(x, y), Color::Cyan.code()),
            }
        }
    }
    // the background
    assert_eq!(screen.pixel(200, 10), Color::Cyan.code());
    assert_eq!(screen.pixel(319, 171), Color::Cyan.code());
    assert_eq!(screen.pixel(319, 199), Color::LightGrey.code());
    assert_eq!(screen.pixel(60, 197), Color::Black.code());
    // the window at (30, 30)
    assert_eq!(screen.pixel(30, 30), Color::LightGrey.code());
    assert_eq!(screen.pixel(31, 31), Color::White.code());
    assert_eq!(screen.pixel(219, 129), Color::Black.code());
    assert_eq!(screen.pixel(220, 130), Color::Cyan.code());
    assert_eq!(screen.pixel(29, 30), Color::Cyan.code());
    assert_eq!(screen.pixel(130, 100), Color::LightGrey.code());
    // the title "counting up..." in the title bar: 14 glyphs from (2, 2), a blank among them
    assert_eq!(screen.pixel(32, 32), Color::White.code());
    assert_eq!(screen.pixel(30 + 2 + 8 * 8, 32), Color::LightGrey.code());
    assert_eq!(screen.pixel(30 + 2 + 8 * 8, 33), Color::Blue.code());
    assert_eq!(screen.pixel(30 + 2 + 8 * 9, 32), Color::White.code());
    assert_eq!(screen.pixel(30 + 2 + 8 * 14 - 1, 30 + 17), Color::White.code());
    assert_eq!(screen.pixel(30 + 2 + 8 * 14, 35), Color::Blue.code());
    // the map
    assert_eq!(desktop.sheets.map[0][0], 2);
    assert_eq!(desktop.sheets.map[0][15], 0);
    assert_eq!(desktop.sheets.map[100][130], 1);
    assert_eq!(desktop.sheets.map[199][319], 0);
}

#[test]
fn idle_turn_redraws_the_uptime() {
    let mut desktop = Desktop::new(block_font());
    assert_eq!(desktop.handle(123, None), Dispatch::Idle);
    let sheet = &desktop.sheets.sheets[desktop.test_sheet_id];
    assert_eq!(sheet.column_position, (3 + 8 * 15, 23));
    for col in 0..15 {
        assert!(cell_is_written(&desktop, col, 0));
    }
    // behind the text the cleared box shows
    assert_eq!(window_pixel(&desktop, 123, 23), Some(Color::LightGrey));
    assert_eq!(window_pixel(&desktop, 123, 39), Some(Color::LightGrey));
    // the screen is untouched until the turn is finished
    assert_eq!(desktop.sheets.screen.pixel(33, 53), Color::LightGrey.code());
    assert_eq!(desktop.finish(), ((30, 30), (220, 130)));
    assert_eq!(desktop.sheets.screen.pixel(33, 53), Color::White.code());
    assert_eq!(desktop.sheets.screen.pixel(33 + 8 * 15 - 1, 53 + 15), Color::White.code());
    assert_eq!(desktop.sheets.screen.pixel(33 + 8 * 15, 53), Color::LightGrey.code());
}

#[test]
fn long_uptime_takes_more_cells() {
    let mut desktop = Desktop::new(block_font());
    assert_eq!(desktop.handle(4294967295, None), Dispatch::Idle);
    assert_eq!(desktop.sheets.sheets[2].column_position, (3 + 8 * 17, 23));
    assert!(cell_is_written(&desktop, 16, 0));
    assert!(!cell_is_written(&desktop, 17, 0));
    // the next turn clears the box of the display only: the cells behind it stay
    assert_eq!(desktop.handle(1, None), Dispatch::Idle);
    assert!(cell_is_written(&desktop, 14, 0));
    assert_eq!(window_pixel(&desktop, 3 + 8 * 15, 23), Some(Color::LightGrey));
    assert_eq!(window_pixel(&desktop, 3 + 8 * 15 + 1, 23), Some(Color::White));
    assert!(cell_is_written(&desktop, 16, 0));
}

#[test]
fn keyboard_character_is_written_behind_the_uptime() {
    let mut desktop = Desktop::new(block_font());
    assert_eq!(desktop.handle(5, Some(256 + 'k' as u32)), Dispatch::Drawn);
    assert_eq!(desktop.sheets.sheets[2].column_position, (3 + 8 * 16, 23));
    assert!(cell_is_written(&desktop, 15, 0));
    assert!(!cell_is_written(&desktop, 16, 0));
    // a blank moves the cursor and draws nothing
    assert_eq!(desktop.handle(5, Some(256 + ' ' as u32)), Dispatch::Drawn);
    assert_eq!(desktop.sheets.sheets[2].column_position, (3 + 8 * 16, 23));
    // a line feed goes to the next line
    assert_eq!(desktop.handle(5, Some(256 + 10)), Dispatch::Drawn);
    assert_eq!(desktop.sheets.sheets[2].column_position, (3, 39));
    // a character without pixels in the font
    assert_eq!(desktop.handle(5, Some(511)), Dispatch::Drawn);
    assert_eq!(desktop.sheets.sheets[2].column_position, (3 + 8 * 16, 23));
}

#[test]
fn mouse_byte_is_handed_on() {
    let mut desktop = Desktop::new(block_font());
    assert_eq!(desktop.handle(0, Some(512)), Dispatch::Mouse(0));
    assert_eq!(desktop.handle(0, Some(512 + 0x28)), Dispatch::Mouse(0x28));
    assert_eq!(desktop.handle(0, Some(767)), Dispatch::Mouse(255));
    assert_eq!(desktop.sheets.sheets[2].column_position, (3 + 8 * 15, 23));
}

#[test]
fn timer_signals_write_their_texts() {
    let mut desktop = Desktop::new(block_font());
    assert_eq!(desktop.handle(1000, Some(10)), Dispatch::Drawn);
    // "10 secs have passed" two lines below the uptime: 19 characters, blanks at 2, 7 and 12
    assert_eq!(desktop.sheets.sheets[2].column_position, (3 + 8 * 19, 23 + 32));
    for col in 0..19 {
        assert_eq!(cell_is_written(&desktop, col, 2), col != 2 && col != 7 && col != 12);
    }
    assert!(!cell_is_written(&desktop, 0, 1));
    assert_eq!(desktop.handle(300, Some(3)), Dispatch::Drawn);
    // "3 secs have passed" one line below: 18 characters, blanks at 1, 6 and 11
    assert_eq!(desktop.sheets.sheets[2].column_position, (3 + 8 * 18, 23 + 16));
    for col in 0..18 {
        assert_eq!(cell_is_written(&desktop, col, 1), col != 1 && col != 6 && col != 11);
    }
    // what the ten-second timer wrote stays
    assert!(cell_is_written(&desktop, 18, 2));
}

#[test]
fn ticking_timer_writes_its_mark() {
    let mut desktop = Desktop::new(block_font());
    assert_eq!(desktop.handle(100, Some(1)), Dispatch::Tick(1));
    assert_eq!(desktop.sheets.sheets[2].column_position, (3 + 8, 23 + 48));
    assert!(cell_is_written(&desktop, 0, 3));
    // the cleared box reaches one pixel beyond the glyph
    assert_eq!(window_pixel(&desktop, 11, 71), Some(Color::LightGrey));
    assert_eq!(window_pixel(&desktop, 11, 87), Some(Color::LightGrey));
    assert_eq!(window_pixel(&desktop, 3, 87), Some(Color::LightGrey));
    assert_eq!(desktop.handle(200, Some(0)), Dispatch::Tick(0));
    assert!(cell_is_written(&desktop, 0, 3));
}

#[test]
fn unknown_codes_are_reported() {
    let mut desktop = Desktop::new(block_font());
    assert_eq!(desktop.handle(0, Some(2)), Dispatch::Unexpected(2));
    assert_eq!(desktop.handle(0, Some(255)), Dispatch::Unexpected(255));
    assert_eq!(desktop.handle(0, Some(768)), Dispatch::Unexpected(768));
    assert_eq!(desktop.handle(0, Some(u32::MAX)), Dispatch::Unexpected(u32::MAX));
    // the uptime was redrawn all the same
    assert!(cell_is_written(&desktop, 0, 0));
}

#[test]
fn mouse_moves_its_sheet() {
    let mut desktop = Desktop::new(block_font());
    // the refreshed rectangle spans the old place and the old place moved by (10, -20)
    assert_eq!(desktop.on_mouse_process_complete(10, -20), ((0, 0), (26, 16)));
    assert_eq!(desktop.sheets.sheets[0].position().0, (10, 20));
    assert_eq!(desktop.on_mouse_process_complete(-100, 5), ((0, 20), (26, 41)));
    assert_eq!(desktop.sheets.sheets[0].position().0, (0, 15));
    desktop.on_mouse_process_complete(i16::MAX, i16::MIN);
    assert_eq!(desktop.sheets.sheets[0].position().0, (320, 200));
    desktop.on_mouse_process_complete(i16::MIN, i16::MAX);
    assert_eq!(desktop.sheets.sheets[0].position().0, (0, 0));
}

#[test]
fn mouse_refresh_goes_by_the_map_as_it_stands() {
    let mut desktop = Desktop::new(block_font());
    desktop.on_mouse_process_complete(4, 0);
    // the map still names the cursor's level for the pixels where the cursor was: there
    // the cursor's sheet is painted as it stands now, four pixels further right
    assert_eq!(desktop.sheets.screen.pixel(4, 0), Color::Black.code());
    assert_eq!(desktop.sheets.screen.pixel(5, 1), Color::White.code());
    // the pixels that the sheet has left keep what they showed
    assert_eq!(desktop.sheets.screen.pixel(0, 0), Color::Black.code());
    assert_eq!(desktop.sheets.screen.pixel(0, 1), Color::Black.code());
    // after a refresh of the map the cursor shows where it is
    desktop.sheets.refresh_sheet_map(None, None);
    desktop.sheets.refresh_screen(None, None);
    assert_eq!(desktop.sheets.screen.pixel(0, 0), Color::Cyan.code());
    assert_eq!(desktop.sheets.screen.pixel(0, 1), Color::Cyan.code());
    assert_eq!(desktop.sheets.screen.pixel(4, 0), Color::Black.code());
    assert_eq!(desktop.sheets.screen.pixel(0, 16), Color::Cyan.code());
    assert_eq!(desktop.sheets.screen.pixel(19, 15), Color::Black.code());
}

#[test]
fn three_timers_are_armed() {
    let mut timers: TIMERCTL<u32> = TIMERCTL::new(0);
    assert_eq!(init_timers(&mut timers), Some(2));
    assert_eq!(timers.used_timers, vec![2, 1, 0]);
    assert_eq!((timers.timers[0].timeout, timers.timers[0].data), (1000, 10));
    assert_eq!((timers.timers[1].timeout, timers.timers[1].data), (300, 3));
    assert_eq!((timers.timers[2].timeout, timers.timers[2].data), (100, 1));
    assert!(timers.timers[..3].iter().all(|t| t.flag == TimerState::Using));
    assert_eq!(timers.next, 100);
}

#[test]
fn three_timers_fall_in_among_the_waiting() {
    let mut timers: TIMERCTL<u32> = TIMERCTL::new(0);
    let early = timers.allocate().unwrap();
    let equal = timers.allocate().unwrap();
    let late = timers.allocate().unwrap();
    timers.set_time(early, 50);
    timers.set_time(equal, 300);
    timers.set_time(late, 5000);
    assert_eq!(init_timers(&mut timers), Some(5));
    assert_eq!(timers.used_timers, vec![early, 5, equal, 4, 3, late]);
}

#[test]
fn too_few_timers_leave_the_pool_as_it_was() {
    let mut timers: TIMERCTL<u32> = TIMERCTL::new(0);
    for _ in 0..98 {
        timers.allocate().unwrap();
    }
    assert_eq!(init_timers(&mut timers), None);
    assert_eq!(timers.timers[98].flag, TimerState::Unused);
    assert_eq!(timers.timers[99].flag, TimerState::Unused);
    assert!(timers.used_timers.is_empty());
    timers.deallocate(3);
    assert_eq!(init_timers(&mut timers), Some(99));
    assert_eq!(timers.used_timers, vec![99, 98, 3]);
}

#[test]
fn ticking_timer_alternates_its_payload() {
    let mut timers: TIMERCTL<u32> = TIMERCTL::new(0);
    let mut queue: FIFO<u32> = FIFO::new(8, 0);
    let id = timers.allocate().unwrap();
    arm(&mut timers, id, 2, 1);
    assert_eq!((timers.timers[id].timeout, timers.timers[id].data), (2, 1));
    let mut seen = Vec::new();
    for _ in 0..5 * ONE_SECOND + 2 {
        on_tick(&mut timers, &mut queue).unwrap();
        if let Ok(fired) = queue.pop() {
            seen.push((timers.count, fired));
            rearm_ticking(&mut timers, id, fired);
        }
    }
    assert_eq!(seen, vec![(2, 1), (102, 0), (202, 1), (302, 0), (402, 1), (502, 0)]);
    rearm_ticking(&mut timers, id, 7);
    assert_eq!(timers.timers[id].data, 0);
}

#[test]
fn a_session_of_the_main_loop() {
    let mut desktop = Desktop::new(block_font());
    let mut timers: TIMERCTL<u32> = TIMERCTL::new(0);
    let mut queue: FIFO<u32> = FIFO::new(2048, 0);
    let ticking = init_timers(&mut timers).unwrap();
    let mut actions = Vec::new();
    for _ in 0..1000 {
        on_tick(&mut timers, &mut queue).unwrap();
        let popped = haribote::event::pop_event(&mut queue);
        let action = desktop.handle(timers.count, popped);
        if let Dispatch::Tick(fired) = action {
            rearm_ticking(&mut timers, ticking, fired);
        }
        desktop.finish();
        if action != Dispatch::Idle {
            actions.push((timers.count, action));
        }
    }
    // the three-second timer was armed before the ticking timer was armed for the same
    // tick, so its signal comes first; the tick is handled one turn later, and so the
    // ticking timer runs one tick late from then on
    let expect = vec![
        (100, Dispatch::Tick(1)),
        (200, Dispatch::Tick(0)),
        (300, Dispatch::Drawn),
        (301, Dispatch::Tick(1)),
        (401, Dispatch::Tick(0)),
        (501, Dispatch::Tick(1)),
        (601, Dispatch::Tick(0)),
        (701, Dispatch::Tick(1)),
        (801, Dispatch::Tick(0)),
        (901, Dispatch::Tick(1)),
        (1000, Dispatch::Drawn),
    ];
    assert_eq!(actions, expect);
    assert_eq!(queue.status(), 0);
    assert_eq!(timers.used_timers, vec![ticking]);
    assert_eq!(timers.next, 1001);
}
