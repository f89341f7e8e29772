//! The desktop of the main loop: a background, a window that shows the
//! uptime and the events, and the mouse cursor.

use crate::event::Event;
use crate::font::{Font, FONT_HEIGHT};
use crate::uptime::{lemma_uptime_chars, uptime_chars, uptime_text};
use crate::util::{clip, clip_spec};
use crate::vga_graphic::colors256::Color;
use crate::vga_graphic::{
    background_boxes, boxes_pixel, cursor_color, in_box, on_screen, stack_after_change, stack_without,
    lemma_sheet_edit, window_pixel, Area,
    Point, Screen, Sheet, SheetControl, CURSOR_HEIGHT, CURSOR_WIDTH, MAX_WIN_NUM, SCREEN_HEIGHT, SCREEN_WIDTH,
};
use vstd::prelude::*;

verus! {

/// Takes a sheet for the mouse cursor from the pool, paints the cursor's
/// picture into it, and asks for level 1 for it. Returns the sheet's index,
/// or `None`, with nothing changed, when the pool is exhausted.
pub fn init_mouse(sheets: &mut SheetControl) -> (res: Option<usize>)
    requires
        old(sheets).wf(),
    ensures
        final(sheets).wf(),
        final(sheets).screen == old(sheets).screen,
        final(sheets).map == old(sheets).map,
        res is None <==> forall|i: int| 0 <= i < MAX_WIN_NUM ==> (#[trigger] old(sheets).sheets@[i]).used,
        res is None ==> *final(sheets) == *old(sheets),
        res matches Some(id) ==> {
            &&& id < MAX_WIN_NUM
            &&& !old(sheets).sheets@[id as int].used
            &&& forall|k: int| 0 <= k < id ==> (#[trigger] old(sheets).sheets@[k]).used
            &&& final(sheets).stack() == stack_after_change(
                stack_without(old(sheets).stack(), id),
                id,
                1,
            )
            &&& final(sheets).sheets@[id as int] == (Sheet {
                used: true,
                height: final(sheets).sheets@[id as int].height,
                size: (CURSOR_WIDTH as isize, CURSOR_HEIGHT as isize),
                buf: final(sheets).sheets@[id as int].buf,
                ..old(sheets).sheets@[id as int]
            })
            &&& forall|x: int, y: int|
                final(sheets).sheets@[id as int].contains(x, y)
                    ==> #[trigger] final(sheets).sheets@[id as int].pixel(
                    x,
                    y,
                ) == cursor_color(x, y)
            &&& forall|i: int|
                0 <= i < MAX_WIN_NUM && i != id ==> #[trigger] final(sheets).sheets@[i] == (Sheet {
                    height: final(sheets).sheets@[i].height,
                    ..old(sheets).sheets@[i]
                })
        },
{
    let mouse_id = match sheets.allocate((CURSOR_WIDTH as isize, CURSOR_HEIGHT as isize)) {
        Some(id) => id,
        None => {
            return None;
        },
    };
    let ghost allocated = *sheets;
    sheets.sheets[mouse_id].draw_cursor();
    let ghost drawn = *sheets;
    proof {
        lemma_sheet_edit(allocated, drawn, mouse_id as int);
    }
    sheets.change_sheet_height(mouse_id, 1);
    proof {
        assert forall|i: int| 0 <= i < MAX_WIN_NUM && i != mouse_id implies #[trigger] sheets.sheets@[i] == (
        Sheet { height: sheets.sheets@[i].height, ..old(sheets).sheets@[i] }) by {
            assert(sheets.sheets@[i] == (Sheet { height: sheets.sheets@[i].height, ..drawn.sheets@[i] }));
            assert(drawn.sheets@[i] == allocated.sheets@[i]);
        }
        let id = mouse_id as int;
        assert(sheets.sheets@[id] == (Sheet { height: sheets.sheets@[id].height, ..drawn.sheets@[id] }));
        assert forall|x: int, y: int| sheets.sheets@[id].contains(x, y)
            implies #[trigger] sheets.sheets@[id].pixel(
            x,
            y,
        ) == cursor_color(x, y) by {
            assert(drawn.sheets@[id].pixel(x, y) == cursor_color(x, y));
        }
    }
    Some(mouse_id)
}

/// Takes a sheet of the screen's size from the pool, paints the desktop
/// background into it in white on cyan, and asks for level 0 for it.
/// Returns the sheet's index, or `None`, with nothing changed, when the pool
/// is exhausted.
pub fn init_background(sheets: &mut SheetControl) -> (res: Option<usize>)
    requires
        old(sheets).wf(),
    ensures
        final(sheets).wf(),
        final(sheets).screen == old(sheets).screen,
        final(sheets).map == old(sheets).map,
        res is None <==> forall|i: int| 0 <= i < MAX_WIN_NUM ==> (#[trigger] old(sheets).sheets@[i]).used,
        res is None ==> *final(sheets) == *old(sheets),
        res matches Some(id) ==> {
            &&& id < MAX_WIN_NUM
            &&& !old(sheets).sheets@[id as int].used
            &&& forall|k: int| 0 <= k < id ==> (#[trigger] old(sheets).sheets@[k]).used
            &&& final(sheets).stack() == stack_after_change(
                stack_without(old(sheets).stack(), id),
                id,
                0,
            )
            &&& final(sheets).sheets@[id as int] == (Sheet {
                used: true,
                height: final(sheets).sheets@[id as int].height,
                size: (SCREEN_WIDTH, SCREEN_HEIGHT),
                buf: final(sheets).sheets@[id as int].buf,
                foreground: Color::White,
                background: Color::Cyan,
                ..old(sheets).sheets@[id as int]
            })
            &&& forall|x: int, y: int|
                final(sheets).sheets@[id as int].contains(x, y)
                    ==> #[trigger] final(sheets).sheets@[id as int].pixel(
                    x,
                    y,
                ) == boxes_pixel(background_boxes((SCREEN_WIDTH, SCREEN_HEIGHT)), Some(Color::Cyan), x, y)
            &&& forall|i: int|
                0 <= i < MAX_WIN_NUM && i != id ==> #[trigger] final(sheets).sheets@[i] == (Sheet {
                    height: final(sheets).sheets@[i].height,
                    ..old(sheets).sheets@[i]
                })
        },
{
    let background_id = match sheets.allocate((SCREEN_WIDTH, SCREEN_HEIGHT)) {
        Some(id) => id,
        None => {
            return None;
        },
    };
    let ghost allocated = *sheets;
    sheets.sheets[background_id].change_color(Color::White, Color::Cyan);
    let ghost colored = *sheets;
    sheets.sheets[background_id].make_background();
    let ghost painted = *sheets;
    proof {
        lemma_sheet_edit(allocated, painted, background_id as int);
    }
    sheets.change_sheet_height(background_id, 0);
    proof {
        assert forall|i: int| 0 <= i < MAX_WIN_NUM && i != background_id implies #[trigger] sheets.sheets@[i]
            == (Sheet { height: sheets.sheets@[i].height, ..old(sheets).sheets@[i] }) by {
            assert(sheets.sheets@[i] == (Sheet { height: sheets.sheets@[i].height, ..painted.sheets@[i] }));
            assert(painted.sheets@[i] == allocated.sheets@[i]);
        }
        let id = background_id as int;
        assert(sheets.sheets@[id] == (Sheet { height: sheets.sheets@[id].height, ..painted.sheets@[id] }));
        assert forall|x: int, y: int| sheets.sheets@[id].contains(x, y)
            implies #[trigger] sheets.sheets@[id].pixel(
            x,
            y,
        ) == boxes_pixel(background_boxes((SCREEN_WIDTH, SCREEN_HEIGHT)), Some(Color::Cyan), x, y) by {
            assert(colored.sheets@[id].contains(x, y));
            assert(colored.sheets@[id].pixel(x, y) == Some(Color::Cyan));
            assert(painted.sheets@[id].pixel(x, y) == boxes_pixel(
                background_boxes(colored.sheets@[id].size),
                colored.sheets@[id].pixel(x, y),
                x,
                y,
            ));
        }
    }
    Some(background_id)
}

/// The title of the window that shows the uptime and the events.
pub open spec fn test_sheet_title() -> Seq<char> {
    "counting up..."@
}

/// The title of the window can be written into the title bar of a sheet of
/// the window's size.
pub proof fn lemma_title_fits(sheet: Sheet, font: Font)
    requires
        sheet.wf(),
        sheet.size == TEST_SHEET_SIZE,
    ensures
        sheet.with_cursor((2isize, 2isize)).str_ok(font, test_sheet_title()),
{
    reveal_strlit("counting up...");
    let s = test_sheet_title();
    assert(s.len() == 14);
    assert forall|i: int| 0 <= i < s.len() implies (#[trigger] s[i]) != '\n' && Font::has_glyph(s[i]) by {
        if i == 0 {
        } else if i == 1 {
        } else if i == 2 {
        } else if i == 3 {
        } else if i == 4 {
        } else if i == 5 {
        } else if i == 6 {
        } else if i == 7 {
        } else if i == 8 {
        } else if i == 9 {
        } else if i == 10 {
        } else if i == 11 {
        } else if i == 12 {
        } else {
        }
    }
    sheet.with_cursor((2isize, 2isize)).lemma_text_block(font, s, 0);
}

/// Takes a sheet of the window's size from the pool, asks for level 1 for
/// it, paints it as a window with its title, and moves it to `(30, 30)`.
/// Returns the sheet's index, or `None`, with nothing changed, when the pool
/// is exhausted.
pub fn init_test_sheet(sheets: &mut SheetControl, font: &Font) -> (res: Option<usize>)
    requires
        old(sheets).wf(),
        font.wf(),
    ensures
        final(sheets).wf(),
        final(sheets).screen == old(sheets).screen,
        final(sheets).map == old(sheets).map,
        res is None <==> forall|i: int| 0 <= i < MAX_WIN_NUM ==> (#[trigger] old(sheets).sheets@[i]).used,
        res is None ==> *final(sheets) == *old(sheets),
        res matches Some(id) ==> {
            &&& id < MAX_WIN_NUM
            &&& !old(sheets).sheets@[id as int].used
            &&& forall|k: int| 0 <= k < id ==> (#[trigger] old(sheets).sheets@[k]).used
            &&& final(sheets).stack() == stack_after_change(
                stack_without(old(sheets).stack(), id),
                id,
                1,
            )
            &&& final(sheets).sheets@[id as int] == (Sheet {
                used: true,
                height: final(sheets).sheets@[id as int].height,
                size: TEST_SHEET_SIZE,
                buf: final(sheets).sheets@[id as int].buf,
                top_left: (30isize, 30isize),
                column_position: old(sheets).sheets@[id as int].initial_column_position,
                ..old(sheets).sheets@[id as int]
            })
            &&& forall|x: int, y: int|
                final(sheets).sheets@[id as int].contains(x, y)
                    ==> #[trigger] final(sheets).sheets@[id as int].pixel(
                    x,
                    y,
                ) == final(sheets).sheets@[id as int].with_cursor((2isize, 2isize)).text_pixel(
                    *font,
                    test_sheet_title(),
                    window_pixel(TEST_SHEET_SIZE, Some(old(sheets).sheets@[id as int].background), x, y),
                    x,
                    y,
                )
            &&& forall|i: int|
                0 <= i < MAX_WIN_NUM && i != id ==> #[trigger] final(sheets).sheets@[i] == (Sheet {
                    height: final(sheets).sheets@[i].height,
                    ..old(sheets).sheets@[i]
                })
        },
{
    let test_sheet_id = match sheets.allocate(TEST_SHEET_SIZE) {
        Some(id) => id,
        None => {
            return None;
        },
    };
    let ghost allocated = *sheets;
    sheets.change_sheet_height(test_sheet_id, 1);
    let ghost raised = *sheets;
    proof {
        let id = test_sheet_id as int;
        assert(raised.sheets@[id] == (Sheet { height: raised.sheets@[id].height, ..allocated.sheets@[id] }));
        assert(raised.sheets@[id].wf());
        lemma_title_fits(raised.sheets@[id], *font);
    }
    sheets.sheets[test_sheet_id].make_sheet(font, "counting up...");
    let ghost titled = *sheets;
    sheets.sheets[test_sheet_id].moveto((30, 30));
    proof {
        let id = test_sheet_id as int;
        lemma_sheet_edit(raised, *sheets, id);
        assert forall|i: int| 0 <= i < MAX_WIN_NUM && i != id implies #[trigger] sheets.sheets@[i] == (Sheet {
            height: sheets.sheets@[i].height,
            ..old(sheets).sheets@[i]
        }) by {
            assert(raised.sheets@[i] == (Sheet { height: raised.sheets@[i].height, ..allocated.sheets@[i] }));
        }
        let start = raised.sheets@[id].with_cursor((2isize, 2isize));
        let end = sheets.sheets@[id].with_cursor((2isize, 2isize));
        assert forall|x: int, y: int| sheets.sheets@[id].contains(x, y)
            implies #[trigger] sheets.sheets@[id].pixel(
            x,
            y,
        ) == end.text_pixel(
            *font,
            test_sheet_title(),
            window_pixel(TEST_SHEET_SIZE, Some(old(sheets).sheets@[id].background), x, y),
            x,
            y,
        ) by {
            assert(allocated.sheets@[id].contains(x, y));
            assert(allocated.sheets@[id].pixel(x, y) == Some(old(sheets).sheets@[id].background));
            assert(raised.sheets@[id].pixel(x, y) == allocated.sheets@[id].pixel(x, y));
            assert(raised.sheets@[id].contains(x, y));
            assert(titled.sheets@[id].pixel(x, y) == start.text_pixel(
                *font,
                test_sheet_title(),
                window_pixel(TEST_SHEET_SIZE, raised.sheets@[id].pixel(x, y), x, y),
                x,
                y,
            ));
            assert(sheets.sheets@[id].pixel(x, y) == titled.sheets@[id].pixel(x, y));
            lemma_text_pixel_moved(
                start,
                end,
                *font,
                test_sheet_title(),
                window_pixel(TEST_SHEET_SIZE, raised.sheets@[id].pixel(x, y), x, y),
                x,
                y,
            );
        }
    }
    Some(test_sheet_id)
}

/// Writing text does not depend on where a sheet stands on the screen, nor
/// on its level or its buffer.
pub proof fn lemma_text_pixel_moved(
    a: Sheet,
    b: Sheet,
    font: Font,
    s: Seq<char>,
    base: Option<Color>,
    x: int,
    y: int,
)
    requires
        a.size == b.size,
        a.column_position == b.column_position,
        a.initial_column_position == b.initial_column_position,
        a.foreground == b.foreground,
        a.background == b.background,
    ensures
        a.cursor_after_str(s) == b.cursor_after_str(s),
        a.text_pixel(font, s, base, x, y) == b.text_pixel(font, s, base, x, y),
    decreases s.len(),
{
    if s.len() > 0 {
        lemma_text_pixel_moved(a, b, font, s.drop_last(), base, x, y);
    }
}

/// What is left to do after the main loop has handled what it popped from
/// the queue.
#[derive(Debug, Clone, Copy, PartialEq, Eq, Structural)]
pub enum Dispatch {
    /// The queue was empty.
    Idle,
    /// The event was shown in the window; nothing is left to do.
    Drawn,
    /// The byte goes to the decoder of mouse packets.
    Mouse(u8),
    /// The ticking timer fired with this payload and is to be armed again.
    Tick(u32),
    /// The code stands for nothing that the main loop knows.
    Unexpected(u32),
}

/// The box of the uptime display in the window, cleared before the uptime
/// is written.
pub const UPTIME_BOX: Area = ((3, 23), (123, 39));

/// The box of the tick mark in the window, cleared before the mark is written.
pub const TICK_BOX: Area = ((3, 71), (11, 87));

/// What the main loop does with a popped code.
pub open spec fn dispatch_of(popped: Option<u32>) -> Dispatch {
    match popped {
        None => Dispatch::Idle,
        Some(code) => match Event::spec_decode(code) {
            Some(Event::Keyboard(_)) => Dispatch::Drawn,
            Some(Event::Mouse(byte)) => Dispatch::Mouse(byte),
            Some(Event::Signal(signal)) => if signal == 10 || signal == 3 {
                Dispatch::Drawn
            } else if signal == 1 || signal == 0 {
                Dispatch::Tick(code)
            } else {
                Dispatch::Unexpected(code)
            },
            None => Dispatch::Unexpected(code),
        },
    }
}

/// Whether the main loop writes something into the window for a popped code.
pub open spec fn writes_for(popped: Option<u32>) -> bool {
    dispatch_of(popped) is Drawn || dispatch_of(popped) is Tick
}

/// The number of line feeds that the main loop writes before the text of an
/// event.
pub open spec fn event_lines(code: u32) -> nat {
    match Event::spec_decode(code) {
        Some(Event::Signal(signal)) => if signal == 10 {
            2
        } else if signal == 3 {
            1
        } else {
            3
        },
        _ => 0,
    }
}

/// The text that the main loop writes for an event, after the line feeds.
pub open spec fn event_label(code: u32) -> Seq<char> {
    match Event::spec_decode(code) {
        Some(Event::Keyboard(character)) => seq![character as char],
        Some(Event::Signal(signal)) => if signal == 10 {
            "10 secs have passed"@
        } else if signal == 3 {
            "3 secs have passed"@
        } else if signal == 0 {
            "x"@
        } else {
            "y"@
        },
        _ => Seq::empty(),
    }
}

/// The window's sheet with the cursor where the uptime display starts.
pub open spec fn at_uptime(sheet: Sheet) -> Sheet {
    sheet.with_cursor(sheet.initial_column_position)
}

/// The window's sheet with the cursor where the text of an event starts:
/// behind the uptime display, or at the start column as many lines below
/// it as the event has line feeds.
pub open spec fn at_event(sheet: Sheet, uptime: u32, code: u32) -> Sheet {
    let behind = at_uptime(sheet).cursor_after_str(uptime_chars(uptime as nat));
    if event_lines(code) == 0 {
        sheet.with_cursor(behind)
    } else {
        sheet.with_cursor(
            (sheet.initial_column_position.0, (behind.1 + FONT_HEIGHT * event_lines(code)) as isize),
        )
    }
}

/// The window's cursor after the main loop has handled `popped` at tick
/// `uptime`.
pub open spec fn handled_cursor(sheet: Sheet, uptime: u32, popped: Option<u32>) -> Point {
    if writes_for(popped) {
        at_event(sheet, uptime, popped->0).cursor_after_str(event_label(popped->0))
    } else {
        at_uptime(sheet).cursor_after_str(uptime_chars(uptime as nat))
    }
}

/// The window's pixel at `(x, y)` after the uptime display is redrawn for
/// tick `uptime`, where the pixel was `base` before.
pub open spec fn uptime_pixel(sheet: Sheet, font: Font, uptime: u32, base: Option<Color>, x: int, y: int) -> Option<
    Color,
> {
    at_uptime(sheet).text_pixel(
        font,
        uptime_chars(uptime as nat),
        if in_box(UPTIME_BOX, x, y) {
            Some(Color::LightGrey)
        } else {
            base
        },
        x,
        y,
    )
}

/// The window's pixel at `(x, y)` after the main loop has handled `popped`
/// at tick `uptime`, where the pixel was `base` before: the uptime display
/// is redrawn, then the box of the tick mark is cleared if the ticking timer
/// fired, then the text of the event is written.
pub open spec fn handled_pixel(
    sheet: Sheet,
    font: Font,
    uptime: u32,
    popped: Option<u32>,
    base: Option<Color>,
    x: int,
    y: int,
) -> Option<Color> {
    let shown = uptime_pixel(sheet, font, uptime, base, x, y);
    if writes_for(popped) {
        at_event(sheet, uptime, popped->0).text_pixel(
            font,
            event_label(popped->0),
            if dispatch_of(popped) is Tick && in_box(TICK_BOX, x, y) {
                Some(Color::LightGrey)
            } else {
                shown
            },
            x,
            y,
        )
    } else {
        shown
    }
}

/// Redraws the uptime display of the window: the cursor goes to where text
/// starts, the box of the display is cleared, and the uptime is written.
fn draw_uptime(sheet: &mut Sheet, font: &Font, uptime: u32)
    requires
        old(sheet).wf(),
        font.wf(),
        old(sheet).size == TEST_SHEET_SIZE,
        old(sheet).initial_column_position == (3isize, 23isize),
    ensures
        final(sheet).wf(),
        *final(sheet) == (Sheet {
            buf: final(sheet).buf,
            column_position: at_uptime(*old(sheet)).cursor_after_str(uptime_chars(uptime as nat)),
            ..*old(sheet)
        }),
        0 <= final(sheet).column_position.0 <= 139,
        final(sheet).column_position.1 == 23,
        forall|x: int, y: int|
            old(sheet).contains(x, y) ==> #[trigger] final(sheet).pixel(x, y) == uptime_pixel(
                *old(sheet),
                *font,
                uptime,
                old(sheet).pixel(x, y),
                x,
                y,
            ),
{
    let initial_column_position = sheet.initial_column_position;
    sheet.column_position = initial_column_position;
    sheet.boxfill(Color::LightGrey, ((3, 23), (3 + 8 * 15, 23 + 16)));
    let ghost cleared = *sheet;
    let text = uptime_text(uptime);
    proof {
        lemma_uptime_chars(uptime as nat);
        cleared.lemma_text_block(*font, text@, 0);
        cleared.lemma_text_same(at_uptime(*old(sheet)), *font, text@);
    }
    sheet.write_str(font, text.as_str());
    proof {
        assert forall|x: int, y: int| old(sheet).contains(x, y) implies #[trigger] sheet.pixel(x, y)
            == uptime_pixel(*old(sheet), *font, uptime, old(sheet).pixel(x, y), x, y) by {
            assert(cleared.contains(x, y));
            assert(cleared.pixel(x, y) == (if in_box(UPTIME_BOX, x, y) {
                Some(Color::LightGrey)
            } else {
                old(sheet).pixel(x, y)
            }));
            cleared.lemma_text_pixel_same(at_uptime(*old(sheet)), *font, text@, cleared.pixel(x, y), x, y);
        }
    }
}

/// Whether a text has no line feed and a glyph for each of its characters.
pub open spec fn plain(s: Seq<char>) -> bool {
    forall|i: int| 0 <= i < s.len() ==> (#[trigger] s[i]) != '\n' && Font::has_glyph(s[i])
}

/// Whether a text is made of line feeds only.
pub open spec fn line_feeds(s: Seq<char>) -> bool {
    forall|i: int| 0 <= i < s.len() ==> #[trigger] s[i] == '\n'
}

/// The texts that the main loop writes for the signals of the timers are
/// plain, and what it writes in front of them are line feeds.
pub proof fn lemma_signal_texts()
    ensures
        plain("10 secs have passed"@) && "10 secs have passed"@.len() == 19,
        plain("3 secs have passed"@) && "3 secs have passed"@.len() == 18,
        plain("x"@) && "x"@.len() == 1,
        plain("y"@) && "y"@.len() == 1,
        line_feeds("\n"@) && "\n"@.len() == 1,
        line_feeds("\n\n"@) && "\n\n"@.len() == 2,
        line_feeds("\n\n\n"@) && "\n\n\n"@.len() == 3,
{
    reveal_strlit("10 secs have passed");
    reveal_strlit("3 secs have passed");
    reveal_strlit("x");
    reveal_strlit("y");
    reveal_strlit("\n");
    reveal_strlit("\n\n");
    reveal_strlit("\n\n\n");
    let ten = "10 secs have passed"@;
    assert forall|i: int| 0 <= i < ten.len() implies (#[trigger] ten[i]) != '\n' && Font::has_glyph(ten[i]) by {
        if i == 0 {
        } else if i == 1 {
        } else if i == 2 {
        } else if i == 3 {
        } else if i == 4 {
        } else if i == 5 {
        } else if i == 6 {
        } else if i == 7 {
        } else if i == 8 {
        } else if i == 9 {
        } else if i == 10 {
        } else if i == 11 {
        } else if i == 12 {
        } else if i == 13 {
        } else if i == 14 {
        } else if i == 15 {
        } else if i == 16 {
        } else if i == 17 {
        } else {
        }
    }
    let three = "3 secs have passed"@;
    assert forall|i: int| 0 <= i < three.len() implies (#[trigger] three[i]) != '\n' && Font::has_glyph(
        three[i],
    ) by {
        if i == 0 {
        } else if i == 1 {
        } else if i == 2 {
        } else if i == 3 {
        } else if i == 4 {
        } else if i == 5 {
        } else if i == 6 {
        } else if i == 7 {
        } else if i == 8 {
        } else if i == 9 {
        } else if i == 10 {
        } else if i == 11 {
        } else if i == 12 {
        } else if i == 13 {
        } else if i == 14 {
        } else if i == 15 {
        } else if i == 16 {
        } else {
        }
    }
    let feeds = "\n\n\n"@;
    assert forall|i: int| 0 <= i < feeds.len() implies #[trigger] feeds[i] == '\n' by {
        if i == 0 {
        } else if i == 1 {
        } else {
        }
    }
    let two = "\n\n"@;
    assert forall|i: int| 0 <= i < two.len() implies #[trigger] two[i] == '\n' by {
        if i == 0 {
        } else {
        }
    }
}

/// Writes line feeds and then a plain text of at most 19 characters into
/// the window, from a cursor on the line of the uptime display.
fn write_below(sheet: &mut Sheet, font: &Font, feeds: &str, label: &str)
    requires
        old(sheet).wf(),
        font.wf(),
        old(sheet).size == TEST_SHEET_SIZE,
        old(sheet).initial_column_position == (3isize, 23isize),
        0 <= old(sheet).column_position.0 <= 139,
        old(sheet).column_position.1 == 23,
        line_feeds(feeds@),
        1 <= feeds@.len() <= 3,
        plain(label@),
        label@.len() <= 19,
    ensures
        final(sheet).wf(),
        ({
            let fed = old(sheet).with_cursor(
                (3isize, (old(sheet).column_position.1 + FONT_HEIGHT * feeds@.len()) as isize),
            );
            &&& *final(sheet) == (Sheet {
                buf: final(sheet).buf,
                column_position: fed.cursor_after_str(label@),
                ..*old(sheet)
            })
            &&& forall|x: int, y: int|
                old(sheet).contains(x, y) ==> #[trigger] final(sheet).pixel(x, y) == fed.text_pixel(
                    *font,
                    label@,
                    old(sheet).pixel(x, y),
                    x,
                    y,
                )
        }),
{
    proof {
        sheet.lemma_line_feeds(*font, feeds@, None, 0, 0);
    }
    sheet.write_str(font, feeds);
    let ghost fed = *sheet;
    proof {
        fed.lemma_text_block(*font, label@, 0);
    }
    sheet.write_str(font, label);
    proof {
        let target = old(sheet).with_cursor(
            (3isize, (old(sheet).column_position.1 + FONT_HEIGHT * feeds@.len()) as isize),
        );
        fed.lemma_text_same(target, *font, label@);
        assert forall|x: int, y: int| old(sheet).contains(x, y) implies #[trigger] sheet.pixel(x, y)
            == target.text_pixel(*font, label@, old(sheet).pixel(x, y), x, y) by {
            old(sheet).lemma_line_feeds(*font, feeds@, old(sheet).pixel(x, y), x, y);
            assert(fed.contains(x, y));
            assert(fed.pixel(x, y) == old(sheet).pixel(x, y));
            fed.lemma_text_pixel_same(target, *font, label@, fed.pixel(x, y), x, y);
        }
    }
}

/// Shows the event of `code` in the window, behind the uptime display or
/// below it, and says what is left to do.
fn show_event(sheet: &mut Sheet, font: &Font, code: u32) -> (action: Dispatch)
    requires
        old(sheet).wf(),
        font.wf(),
        old(sheet).size == TEST_SHEET_SIZE,
        old(sheet).initial_column_position == (3isize, 23isize),
        0 <= old(sheet).column_position.0 <= 139,
        old(sheet).column_position.1 == 23,
    ensures
        final(sheet).wf(),
        action == dispatch_of(Some(code)),
        !writes_for(Some(code)) ==> *final(sheet) == *old(sheet),
        writes_for(Some(code)) ==> ({
            let fed = if event_lines(code) == 0 {
                *old(sheet)
            } else {
                old(sheet).with_cursor(
                    (3isize, (old(sheet).column_position.1 + FONT_HEIGHT * event_lines(code)) as isize),
                )
            };
            &&& *final(sheet) == (Sheet {
                buf: final(sheet).buf,
                column_position: fed.cursor_after_str(event_label(code)),
                ..*old(sheet)
            })
            &&& forall|x: int, y: int|
                old(sheet).contains(x, y) ==> #[trigger] final(sheet).pixel(x, y) == fed.text_pixel(
                    *font,
                    event_label(code),
                    if dispatch_of(Some(code)) is Tick && in_box(TICK_BOX, x, y) {
                        Some(Color::LightGrey)
                    } else {
                        old(sheet).pixel(x, y)
                    },
                    x,
                    y,
                )
        }),
{
    proof {
        lemma_signal_texts();
    }
    match Event::decode(code) {
        Some(Event::Keyboard(character)) => {
            let c = character as char;
            proof {
                old(sheet).lemma_text_block(*font, seq![c], 1);
                old(sheet).lemma_text_of_char(*font, c, None, 0, 0);
            }
            sheet.write_char(font, c);
            proof {
                assert(event_label(code) =~= seq![c]);
                assert forall|x: int, y: int| old(sheet).contains(x, y) implies #[trigger] sheet.pixel(x, y)
                    == old(sheet).text_pixel(*font, event_label(code), old(sheet).pixel(x, y), x, y) by {
                    old(sheet).lemma_text_of_char(*font, c, old(sheet).pixel(x, y), x, y);
                }
            }
            Dispatch::Drawn
        },
        Some(Event::Mouse(byte)) => Dispatch::Mouse(byte),
        Some(Event::Signal(signal)) => {
            if signal == 10 {
                write_below(sheet, font, "\n\n", "10 secs have passed");
                Dispatch::Drawn
            } else if signal == 3 {
                write_below(sheet, font, "\n", "3 secs have passed");
                Dispatch::Drawn
            } else if signal == 1 || signal == 0 {
                sheet.boxfill(Color::LightGrey, ((3, 23 + 16 * 3), (3 + 8 * 1, 23 + 16 * 4)));
                let ghost cleared = *sheet;
                if signal == 0 {
                    write_below(sheet, font, "\n\n\n", "x");
                } else {
                    write_below(sheet, font, "\n\n\n", "y");
                }
                proof {
                    let fed = old(sheet).with_cursor(
                        (3isize, (old(sheet).column_position.1 + FONT_HEIGHT * 3) as isize),
                    );
                    assert forall|x: int, y: int| old(sheet).contains(x, y) implies #[trigger] sheet.pixel(
                        x,
                        y,
                    ) == fed.text_pixel(
                        *font,
                        event_label(code),
                        if in_box(TICK_BOX, x, y) {
                            Some(Color::LightGrey)
                        } else {
                            old(sheet).pixel(x, y)
                        },
                        x,
                        y,
                    ) by {
                        assert(cleared.contains(x, y));
                        assert(cleared.pixel(x, y) == (if in_box(TICK_BOX, x, y) {
                            Some(Color::LightGrey)
                        } else {
                            old(sheet).pixel(x, y)
                        }));
                        let below = cleared.with_cursor(
                            (3isize, (cleared.column_position.1 + FONT_HEIGHT * 3) as isize),
                        );
                        assert(sheet.pixel(x, y) == below.text_pixel(
                            *font,
                            event_label(code),
                            cleared.pixel(x, y),
                            x,
                            y,
                        ));
                        below.lemma_text_pixel_same(fed, *font, event_label(code), cleared.pixel(x, y), x, y);
                    }
                    let below = cleared.with_cursor(
                        (3isize, (cleared.column_position.1 + FONT_HEIGHT * 3) as isize),
                    );
                    below.lemma_text_same(fed, *font, event_label(code));
                }
                Dispatch::Tick(code)
            } else {
                Dispatch::Unexpected(code)
            }
        },
        None => Dispatch::Unexpected(code),
    }
}

/// The sheets of the desktop: the compositor, the font for its texts, and
/// the indices of the three sheets that the main loop works with.
pub struct Desktop {
    pub sheets: SheetControl,
    pub font: Font,
    /// The sheet of the mouse cursor.
    pub mouse_id: usize,
    /// The sheet of the desktop background.
    pub background_id: usize,
    /// The window that shows the uptime and the events.
    pub test_sheet_id: usize,
}

/// Size of the window that shows the uptime and the events.
pub const TEST_SHEET_SIZE: Point = (190, 100);

impl Desktop {
    /// The window that shows the uptime and the events.
    pub open spec fn test_sheet(self) -> Sheet {
        self.sheets.sheets@[self.test_sheet_id as int]
    }

    /// The sheet of the mouse cursor.
    pub open spec fn mouse_sheet(self) -> Sheet {
        self.sheets.sheets@[self.mouse_id as int]
    }

    /// The desktop's invariant: the compositor and the font are in order,
    /// the three sheets are three sheets of the pool, the window has its
    /// size and its text start and is visible, and so is the mouse cursor.
    pub open spec fn wf(self) -> bool {
        &&& self.sheets.wf()
        &&& self.font.wf()
        &&& self.mouse_id < MAX_WIN_NUM
        &&& self.background_id < MAX_WIN_NUM
        &&& self.test_sheet_id < MAX_WIN_NUM
        &&& self.mouse_id != self.background_id
        &&& self.mouse_id != self.test_sheet_id
        &&& self.background_id != self.test_sheet_id
        &&& self.test_sheet().size == TEST_SHEET_SIZE
        &&& self.test_sheet().initial_column_position == (3isize, 23isize)
        &&& self.test_sheet().height >= 0
        &&& self.mouse_sheet().height >= 0
    }


    /// Sets up the desktop on a black screen: the mouse cursor's sheet, the
    /// background and the window are taken from a new pool, in this order,
    /// and painted; the background stands at the bottom, the window above
    /// it and the cursor on top; then the map and the screen are refreshed.
    pub fn new(font: Font) -> (desktop: Self)
        requires
            font.wf(),
        ensures
            desktop.wf(),
            desktop.font == font,
            desktop.mouse_id == 0,
            desktop.background_id == 1,
            desktop.test_sheet_id == 2,
            desktop.sheets.stack() == seq![1usize, 2usize, 0usize],
            desktop.mouse_sheet().size == (CURSOR_WIDTH as isize, CURSOR_HEIGHT as isize),
            desktop.mouse_sheet().top_left == (0isize, 0isize),
            forall|x: int, y: int|
                desktop.mouse_sheet().contains(x, y) ==> #[trigger] desktop.mouse_sheet().pixel(x, y)
                    == cursor_color(x, y),
            desktop.sheets.sheets@[1].size == (SCREEN_WIDTH, SCREEN_HEIGHT),
            desktop.sheets.sheets@[1].top_left == (0isize, 0isize),
            forall|x: int, y: int|
                desktop.sheets.sheets@[1].contains(x, y) ==> #[trigger] desktop.sheets.sheets@[1].pixel(x, y)
                    == boxes_pixel(background_boxes((SCREEN_WIDTH, SCREEN_HEIGHT)), Some(Color::Cyan), x, y),
            desktop.test_sheet().top_left == (30isize, 30isize),
            desktop.test_sheet().column_position == (3isize, 23isize),
            desktop.test_sheet().foreground == Color::White,
            desktop.test_sheet().background == Color::Black,
            forall|x: int, y: int|
                desktop.test_sheet().contains(x, y) ==> #[trigger] desktop.test_sheet().pixel(x, y)
                    == desktop.test_sheet().with_cursor((2isize, 2isize)).text_pixel(
                    font,
                    test_sheet_title(),
                    window_pixel(TEST_SHEET_SIZE, Some(Color::Black), x, y),
                    x,
                    y,
                ),
            desktop.sheets.shows_sheets(Color::Black.code()),
    {
        let screen = Screen::new(Color::Black.code());
        let mut sheets = SheetControl::new(screen);
        let ghost fresh = sheets;
        assert(fresh.stack() =~= Seq::<usize>::empty());
        let mouse = init_mouse(&mut sheets);
        let ghost with_mouse = sheets;
        proof {
            assert(!fresh.sheets@[0].used);
            assert(mouse is Some);
            if mouse->0 > 0 {
                assert(fresh.sheets@[0].used);
            }
            assert(mouse == Some(0usize));
            assert(with_mouse.stack() =~= seq![0usize]);
        }
        let background = init_background(&mut sheets);
        let ghost with_background = sheets;
        proof {
            assert(!fresh.sheets@[1].used);
            assert(with_mouse.sheets@[1]
                == (Sheet { height: with_mouse.sheets@[1].height, ..fresh.sheets@[1] }));
            assert(with_mouse.sheets@[0].used);
            assert(background is Some);
            if background->0 > 1 {
                assert(with_mouse.sheets@[1].used);
            }
            assert(background == Some(1usize));
            assert(with_mouse.stack().contains(0usize)) by {
                assert(with_mouse.stack()[0] == 0usize);
            }
            assert(!with_mouse.stack().contains(1usize)) by {
                if with_mouse.stack().contains(1usize) {
                    let k = with_mouse.stack().index_of(1usize);
                    assert(with_mouse.stack()[k] == 1usize);
                }
            }
            assert(with_background.stack() =~= seq![1usize, 0usize]);
        }
        let test_sheet = init_test_sheet(&mut sheets, &font);
        let ghost with_window = sheets;
        proof {
            assert(!fresh.sheets@[2].used);
            assert(with_mouse.sheets@[2]
                == (Sheet { height: with_mouse.sheets@[2].height, ..fresh.sheets@[2] }));
            assert(with_background.sheets@[2] == (Sheet {
                height: with_background.sheets@[2].height,
                ..with_mouse.sheets@[2]
            }));
            assert(with_background.sheets@[0] == (Sheet {
                height: with_background.sheets@[0].height,
                ..with_mouse.sheets@[0]
            }));
            assert(with_background.sheets@[1].used);
            assert(with_background.sheets@[0].used);
            assert(test_sheet is Some);
            if test_sheet->0 > 2 {
                assert(with_background.sheets@[2].used);
            }
            assert(test_sheet == Some(2usize));
            assert(!with_background.stack().contains(2usize)) by {
                if with_background.stack().contains(2usize) {
                    let k = with_background.stack().index_of(2usize);
                    assert(with_background.stack()[k] == 2usize);
                }
            }
            assert(with_window.stack() =~= seq![1usize, 2usize, 0usize]);
        }
        sheets.refresh_sheet_map(None, None);
        let ghost mapped = sheets;
        sheets.refresh_screen(None, None);
        let desktop = Desktop { sheets, font, mouse_id: 0, background_id: 1, test_sheet_id: 2 };
        proof {
            assert(with_window.top == 2) by {
                assert(with_window.stack().len() == 3);
            }
            assert(with_window.sheets@[0] == (Sheet {
                height: with_window.sheets@[0].height,
                ..with_background.sheets@[0]
            }));
            assert(with_window.sheets@[1] == (Sheet {
                height: with_window.sheets@[1].height,
                ..with_background.sheets@[1]
            }));
            assert(with_window.heights()[2] == with_window.sheets@[2].height);
            assert(with_window.heights()[0] == with_window.sheets@[0].height);
            assert(with_window.stack()[1] == 2usize);
            assert(with_window.stack()[2] == 0usize);
            assert(with_window.heights()[with_window.stack()[1] as int] == 1);
            assert(with_window.heights()[with_window.stack()[2] as int] == 2);
            assert forall|x: int, y: int| desktop.mouse_sheet().contains(x, y)
                implies #[trigger] desktop.mouse_sheet().pixel(
                x,
                y,
            ) == cursor_color(x, y) by {
                assert(with_mouse.sheets@[0].contains(x, y));
                assert(with_mouse.sheets@[0].pixel(x, y) == cursor_color(x, y));
            }
            assert forall|x: int, y: int| desktop.sheets.sheets@[1].contains(x, y)
                implies #[trigger] desktop.sheets.sheets@[1].pixel(
                x,
                y,
            ) == boxes_pixel(background_boxes((SCREEN_WIDTH, SCREEN_HEIGHT)), Some(Color::Cyan), x, y) by {
                assert(with_background.sheets@[1].contains(x, y));
                assert(with_background.sheets@[1].pixel(x, y) == boxes_pixel(
                    background_boxes((SCREEN_WIDTH, SCREEN_HEIGHT)),
                    Some(Color::Cyan),
                    x,
                    y,
                ));
            }
            assert forall|x: int, y: int| desktop.test_sheet().contains(x, y)
                implies #[trigger] desktop.test_sheet().pixel(
                x,
                y,
            ) == desktop.test_sheet().with_cursor((2isize, 2isize)).text_pixel(
                font,
                test_sheet_title(),
                window_pixel(TEST_SHEET_SIZE, Some(Color::Black), x, y),
                x,
                y,
            ) by {
                assert(with_window.sheets@[2].contains(x, y));
                assert(with_window.sheets@[2].pixel(x, y) == with_window.sheets@[2].with_cursor(
                    (2isize, 2isize),
                ).text_pixel(
                    font,
                    test_sheet_title(),
                    window_pixel(TEST_SHEET_SIZE, Some(with_background.sheets@[2].background), x, y),
                    x,
                    y,
                ));
            }
            assert forall|x: int, y: int| on_screen(x, y) implies #[trigger] with_window.owner(x, y) == -1 by {
                assert(with_window.owner(x, y) == fresh.owner(x, y));
            }
            assert forall|x: int, y: int| on_screen(x, y) implies #[trigger] with_window.screen.at(x, y)
                == Color::Black.code() by {
                assert(with_window.screen.at(x, y) == fresh.screen.at(x, y));
            }
            with_window.lemma_painted_afresh(mapped, desktop.sheets, Color::Black.code());
        }
        desktop
    }

    /// Handles what the main loop popped from the queue at tick `uptime`.
    ///
    /// The uptime display of the window is redrawn in any case. A keyboard
    /// character is written behind it; the signals 3 and 10 write their
    /// texts below it; the signals 0 and 1 of the ticking timer write their
    /// mark further below. All of this changes the window's buffer only: the
    /// screen is refreshed by `finish`. The result says what is left to do.
    pub fn handle(&mut self, uptime: u32, popped: Option<u32>) -> (action: Dispatch)
        requires
            old(self).wf(),
        ensures
            final(self).wf(),
            action == dispatch_of(popped),
            *final(self) == (Desktop {
                sheets: SheetControl { sheets: final(self).sheets.sheets, ..old(self).sheets },
                ..*old(self)
            }),
            forall|i: int|
                0 <= i < MAX_WIN_NUM && i != old(self).test_sheet_id
                    ==> #[trigger] final(self).sheets.sheets@[i]
                    == old(self).sheets.sheets@[i],
            final(self).test_sheet() == (Sheet {
                buf: final(self).test_sheet().buf,
                column_position: handled_cursor(old(self).test_sheet(), uptime, popped),
                ..old(self).test_sheet()
            }),
            forall|x: int, y: int|
                old(self).test_sheet().contains(x, y) ==> #[trigger] final(self).test_sheet().pixel(x, y)
                    == handled_pixel(
                    old(self).test_sheet(),
                    old(self).font,
                    uptime,
                    popped,
                    old(self).test_sheet().pixel(x, y),
                    x,
                    y,
                ),
    {
        let id = self.test_sheet_id;
        let ghost before = old(self).test_sheet();
        assert(before.wf());
        draw_uptime(&mut self.sheets.sheets[id], &self.font, uptime);
        let ghost shown = self.sheets.sheets@[id as int];
        let action = match popped {
            Some(code) => show_event(&mut self.sheets.sheets[id], &self.font, code),
            None => Dispatch::Idle,
        };
        proof {
            lemma_sheet_edit(old(self).sheets, self.sheets, id as int);
            let after = self.sheets.sheets@[id as int];
            if writes_for(popped) {
                let code = popped->0;
                let fed = if event_lines(code) == 0 {
                    shown
                } else {
                    shown.with_cursor((3isize, (shown.column_position.1 + FONT_HEIGHT * event_lines(code)) as isize))
                };
                let target = at_event(before, uptime, code);
                assert(fed == Sheet { buf: fed.buf, ..target });
                fed.lemma_text_same(target, self.font, event_label(code));
                assert forall|x: int, y: int| before.contains(x, y) implies #[trigger] after.pixel(x, y)
                    == handled_pixel(before, self.font, uptime, popped, before.pixel(x, y), x, y) by {
                    assert(shown.contains(x, y));
                    assert(shown.pixel(x, y)
                        == uptime_pixel(before, self.font, uptime, before.pixel(x, y), x, y));
                    let base = if dispatch_of(popped) is Tick && in_box(TICK_BOX, x, y) {
                        Some(Color::LightGrey)
                    } else {
                        shown.pixel(x, y)
                    };
                    assert(after.pixel(x, y) == fed.text_pixel(self.font, event_label(code), base, x, y));
                    fed.lemma_text_pixel_same(target, self.font, event_label(code), base, x, y);
                }
            } else {
                assert forall|x: int, y: int| before.contains(x, y) implies #[trigger] after.pixel(x, y)
                    == handled_pixel(before, self.font, uptime, popped, before.pixel(x, y), x, y) by {
                    assert(shown.contains(x, y));
                    assert(shown.pixel(x, y)
                        == uptime_pixel(before, self.font, uptime, before.pixel(x, y), x, y));
                }
            }
        }
        action
    }

    /// Ends a turn of the main loop: the screen is refreshed over the
    /// window's rectangle, from the window's level upwards. Returns the
    /// rectangle.
    pub fn finish(&mut self) -> (area: Area)
        requires
            old(self).wf(),
        ensures
            final(self).wf(),
            area == (
                old(self).test_sheet().top_left,
                (
                    (old(self).test_sheet().top_left.0 + old(self).test_sheet().size.0) as isize,
                    (old(self).test_sheet().top_left.1 + old(self).test_sheet().size.1) as isize,
                ),
            ),
            final(self).font == old(self).font,
            final(self).mouse_id == old(self).mouse_id,
            final(self).background_id == old(self).background_id,
            final(self).test_sheet_id == old(self).test_sheet_id,
            old(self).sheets.screen_refreshed(
                final(self).sheets,
                Some(
                    (
                        old(self).test_sheet().top_left,
                        (
                            (old(self).test_sheet().top_left.0 + old(self).test_sheet().size.0) as isize,
                            (old(self).test_sheet().top_left.1 + old(self).test_sheet().size.1) as isize,
                        ),
                    ),
                ),
                old(self).test_sheet().height as int,
            ),
    {
        let test_sheet_height = self.sheets.sheets[self.test_sheet_id].height as isize;
        let test_sheet_area = self.sheets.sheets[self.test_sheet_id].area();
        self.sheets.refresh_screen(Some(test_sheet_area), Some(test_sheet_height));
        test_sheet_area
    }

    /// The rectangle that is refreshed after the mouse has moved by
    /// `(dx, dy)` from `prev`: it spans the cursor at `prev` and the cursor
    /// at `prev` displaced by `(dx, dy)`, the displaced position limited to
    /// the screen.
    pub open spec fn mouse_area(prev: Point, dx: i16, dy: i16) -> Area {
        let new_x = clip_spec(prev.0 + dx, 0, SCREEN_WIDTH as int);
        let new_y = clip_spec(prev.1 + dy, 0, SCREEN_HEIGHT as int);
        (
            (
                (if prev.0 <= new_x {
                    prev.0 as int
                } else {
                    new_x
                }) as isize,
                (if prev.1 <= new_y {
                    prev.1 as int
                } else {
                    new_y
                }) as isize,
            ),
            (
                ((if prev.0 >= new_x {
                    prev.0 as int
                } else {
                    new_x
                }) + CURSOR_WIDTH) as isize,
                ((if prev.1 >= new_y {
                    prev.1 as int
                } else {
                    new_y
                }) + CURSOR_HEIGHT) as isize,
            ),
        )
    }

    /// A mouse packet is complete: the mouse has moved by `x` to the right
    /// and by `y` upwards. The cursor's sheet moves accordingly, stopping at
    /// the edges of the screen, and the screen is refreshed over
    /// `mouse_area`, from the level of the cursor's sheet upwards. Returns
    /// the refreshed rectangle.
    pub fn on_mouse_process_complete(&mut self, x: i16, y: i16) -> (area: Area)
        requires
            old(self).wf(),
        ensures
            final(self).wf(),
            area == Self::mouse_area(old(self).mouse_sheet().top_left, x, y),
            final(self).font == old(self).font,
            final(self).mouse_id == old(self).mouse_id,
            final(self).background_id == old(self).background_id,
            final(self).test_sheet_id == old(self).test_sheet_id,
            forall|i: int|
                0 <= i < MAX_WIN_NUM && i != old(self).mouse_id ==> #[trigger] final(self).sheets.sheets@[i]
                    == old(self).sheets.sheets@[i],
            final(self).mouse_sheet() == (Sheet {
                top_left: (
                    clip_spec(old(self).mouse_sheet().top_left.0 + x, 0, SCREEN_WIDTH as int) as isize,
                    clip_spec(old(self).mouse_sheet().top_left.1 - y, 0, SCREEN_HEIGHT as int) as isize,
                ),
                ..old(self).mouse_sheet()
            }),
            (SheetControl { sheets: final(self).sheets.sheets, ..old(self).sheets }).screen_refreshed(
                final(self).sheets,
                Some(Self::mouse_area(old(self).mouse_sheet().top_left, x, y)),
                old(self).mouse_sheet().height as int,
            ),
    {
        let mouse_id = self.mouse_id;
        proof {
            assert(old(self).mouse_sheet().wf() && old(self).mouse_sheet().positioned());
        }
        let (prev_position, _) = self.sheets.sheets[mouse_id].position();
        let movement = (x as isize, y as isize);
        self.sheets.sheets[mouse_id].moveby((movement.0, -movement.1));
        proof {
            lemma_sheet_edit(old(self).sheets, self.sheets, mouse_id as int);
        }
        let mut new_position = (prev_position.0 + movement.0, prev_position.1 + movement.1);
        new_position.0 = clip(new_position.0, 0, SCREEN_WIDTH);
        new_position.1 = clip(new_position.1, 0, SCREEN_HEIGHT);
        let min_x = if prev_position.0 <= new_position.0 {
            prev_position.0
        } else {
            new_position.0
        };
        let max_x = (if prev_position.0 >= new_position.0 {
            prev_position.0
        } else {
            new_position.0
        }) + CURSOR_WIDTH as isize;
        let min_y = if prev_position.1 <= new_position.1 {
            prev_position.1
        } else {
            new_position.1
        };
        let max_y = (if prev_position.1 >= new_position.1 {
            prev_position.1
        } else {
            new_position.1
        }) + CURSOR_HEIGHT as isize;
        let mouse_window_height = self.sheets.sheets[mouse_id].height as isize;
        self.sheets.refresh_screen(Some(((min_x, min_y), (max_x, max_y))), Some(mouse_window_height));
        ((min_x, min_y), (max_x, max_y))
    }
}

} // verus!
