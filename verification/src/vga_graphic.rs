//! Sheets and their compositor.
//!
//! A sheet is a rectangular surface with a pixel buffer of its own. The
//! compositor keeps the sheets in a stack, records for each screen pixel
//! which level of the stack owns it, and repaints rectangles of the screen
//! from the buffers.

pub mod colors256;

use crate::font::{Font, FONT_HEIGHT, FONT_WIDTH};
use crate::util::{clip, clip_spec};
use colors256::Color;
use vstd::prelude::*;

verus! {

/// Width of the screen in pixels.
pub const SCREEN_WIDTH: isize = 320;

/// Height of the screen in pixels.
pub const SCREEN_HEIGHT: isize = 200;

/// Width of the mouse cursor's picture.
pub const CURSOR_WIDTH: usize = 16;

/// Height of the mouse cursor's picture.
pub const CURSOR_HEIGHT: usize = 16;

/// Number of sheets in the pool.
pub const MAX_WIN_NUM: usize = 256;

/// The byte `*` of a picture.
pub const S: u8 = 42;

/// The byte `O` of a picture.
pub const O: u8 = 79;

/// The byte `.` of a picture.
pub const D: u8 = 46;

/// The byte `@` of a picture.
pub const A: u8 = 64;

/// The byte `$` of a picture.
pub const L: u8 = 36;

/// The byte `Q` of a picture.
pub const Q: u8 = 81;

/// The picture of the mouse cursor: `*` is black, `O` is white, anything
/// else is transparent.
pub const CURSOR: [[u8; 16]; 16] = [
    [S, S, S, S, S, S, S, S, S, S, S, S, S, S, D, D],
    [S, O, O, O, O, O, O, O, O, O, O, O, S, D, D, D],
    [S, O, O, O, O, O, O, O, O, O, O, S, D, D, D, D],
    [S, O, O, O, O, O, O, O, O, O, S, D, D, D, D, D],
    [S, O, O, O, O, O, O, O, O, S, D, D, D, D, D, D],
    [S, O, O, O, O, O, O, O, S, D, D, D, D, D, D, D],
    [S, O, O, O, O, O, O, O, S, D, D, D, D, D, D, D],
    [S, O, O, O, O, O, O, O, O, S, D, D, D, D, D, D],
    [S, O, O, O, O, S, S, O, O, O, S, D, D, D, D, D],
    [S, O, O, O, S, D, D, S, O, O, O, S, D, D, D, D],
    [S, O, O, S, D, D, D, D, S, O, O, O, S, D, D, D],
    [S, O, S, D, D, D, D, D, D, S, O, O, O, S, D, D],
    [S, S, D, D, D, D, D, D, D, D, S, O, O, O, S, D],
    [S, D, D, D, D, D, D, D, D, D, D, S, O, O, O, S],
    [D, D, D, D, D, D, D, D, D, D, D, D, S, O, O, S],
    [D, D, D, D, D, D, D, D, D, D, D, D, D, S, S, S],
];

/// Width of the close button's picture.
pub const CLOSE_BUTTON_WIDTH: usize = 16;

/// Height of the close button's picture.
pub const CLOSE_BUTTON_HEIGHT: usize = 14;

/// The picture of a window's close button: `@` is black, `$` is dark blue,
/// `Q` is light grey, anything else is white.
pub const CLOSE_BUTTON: [[u8; 16]; 14] = [
    [O, O, O, O, O, O, O, O, O, O, O, O, O, O, O, A],
    [O, Q, Q, Q, Q, Q, Q, Q, Q, Q, Q, Q, Q, Q, L, A],
    [O, Q, Q, Q, Q, Q, Q, Q, Q, Q, Q, Q, Q, Q, L, A],
    [O, Q, Q, A, A, Q, Q, Q, Q, A, A, Q, Q, Q, L, A],
    [O, Q, Q, Q, A, A, Q, Q, A, A, Q, Q, Q, Q, L, A],
    [O, Q, Q, Q, Q, A, A, A, A, Q, Q, Q, Q, Q, L, A],
    [O, Q, Q, Q, Q, Q, A, A, Q, Q, Q, Q, Q, Q, L, A],
    [O, Q, Q, Q, Q, A, A, A, A, Q, Q, Q, Q, Q, L, A],
    [O, Q, Q, Q, A, A, Q, Q, A, A, Q, Q, Q, Q, L, A],
    [O, Q, Q, A, A, Q, Q, Q, Q, A, A, Q, Q, Q, L, A],
    [O, Q, Q, Q, Q, Q, Q, Q, Q, Q, Q, Q, Q, Q, L, A],
    [O, Q, Q, Q, Q, Q, Q, Q, Q, Q, Q, Q, Q, Q, L, A],
    [O, L, L, L, L, L, L, L, L, L, L, L, L, L, L, A],
    [A, A, A, A, A, A, A, A, A, A, A, A, A, A, A, A],
];

/// A point: horizontal coordinate first.
pub type Point = (isize, isize);

/// A rectangle, given by two corners.
pub type Area = (Point, Point);

/// A rectangular surface that is composited onto the screen.
pub struct Sheet {
    /// Screen position of the sheet's top left pixel.
    pub top_left: Point,
    /// Width and height of the buffer.
    pub size: Point,
    /// Where the next character is written, in buffer coordinates.
    pub column_position: Point,
    /// Where text starts again after a line break or a clearing.
    pub initial_column_position: Point,
    /// The pixels, row by row; `None` is transparent.
    pub buf: Vec<Vec<Option<Color>>>,
    pub foreground: Color,
    pub background: Color,
    /// Level in the compositor's stack, -1 while the sheet is hidden.
    pub height: i32,
    /// Whether the sheet is taken from the pool.
    pub used: bool,
    pub areas_to_refresh: Vec<Area>,
}

/// Whether a buffer of this size can be placed anywhere on the screen
/// without its far corner leaving the range of the coordinates.
pub open spec fn valid_size(size: Point) -> bool {
    &&& 0 <= size.0 <= isize::MAX - SCREEN_WIDTH
    &&& 0 <= size.1 <= isize::MAX - SCREEN_HEIGHT
}

/// Whether `(x, y)` lies in the rectangle that starts at the first corner of
/// `area` and ends before the second.
pub open spec fn in_area(area: Area, x: int, y: int) -> bool {
    area.0.0 <= x < area.1.0 && area.0.1 <= y < area.1.1
}

/// Whether `(x, y)` lies in the rectangle from the first corner of `area` to
/// the second, both included.
pub open spec fn in_box(area: Area, x: int, y: int) -> bool {
    area.0.0 <= x <= area.1.0 && area.0.1 <= y <= area.1.1
}

/// The pixel at `(x, y)` after `boxes` are filled one after the other, where
/// the pixel was `base` before: the color of the last box that holds the
/// pixel.
pub open spec fn boxes_pixel(boxes: Seq<(Color, Area)>, base: Option<Color>, x: int, y: int) -> Option<
    Color,
>
    decreases boxes.len(),
{
    if boxes.len() == 0 {
        base
    } else if in_box(boxes.last().1, x, y) {
        Some(boxes.last().0)
    } else {
        boxes_pixel(boxes.drop_last(), base, x, y)
    }
}

/// The color of the close button's picture at column `x` of row `y`.
pub open spec fn close_button_color(x: int, y: int) -> Color {
    let c = CLOSE_BUTTON[y][x];
    if c == A {
        Color::Black
    } else if c == L {
        Color::DarkBlue
    } else if c == Q {
        Color::LightGrey
    } else {
        Color::White
    }
}

/// The color of the cursor's picture at `(x, y)`, `None` where it is
/// transparent. The picture is stored column by column.
pub open spec fn cursor_color(x: int, y: int) -> Option<Color> {
    let c = CURSOR[x][y];
    if c == S {
        Some(Color::Black)
    } else if c == O {
        Some(Color::White)
    } else {
        None
    }
}

/// The boxes of the desktop background on a sheet of the given size: the
/// cyan desktop, the task bar with its raised button on the left and its
/// sunken tray on the right.
pub open spec fn background_boxes(size: Point) -> Seq<(Color, Area)> {
    let xsize = size.0;
    let ysize = size.1;
    seq![
        (Color::Cyan, ((0isize, 0isize), ((xsize - 1) as isize, (ysize - 29) as isize))),
        (Color::LightGrey, ((0isize, (ysize - 28) as isize), ((xsize - 1) as isize, (ysize - 28) as isize))),
        (Color::White, ((0isize, (ysize - 27) as isize), ((xsize - 1) as isize, (ysize - 27) as isize))),
        (Color::LightGrey, ((0isize, (ysize - 26) as isize), ((xsize - 1) as isize, (ysize - 1) as isize))),
        (Color::White, ((3isize, (ysize - 24) as isize), (59isize, (ysize - 24) as isize))),
        (Color::White, ((2isize, (ysize - 24) as isize), (2isize, (ysize - 4) as isize))),
        (Color::DarkBlue, ((3isize, (ysize - 4) as isize), (59isize, (ysize - 4) as isize))),
        (Color::DarkBlue, ((59isize, (ysize - 23) as isize), (59isize, (ysize - 5) as isize))),
        (Color::Black, ((2isize, (ysize - 3) as isize), (59isize, (ysize - 3) as isize))),
        (Color::Black, ((60isize, (ysize - 24) as isize), (60isize, (ysize - 3) as isize))),
        (Color::DarkBlue, (((xsize - 47) as isize, (ysize - 24) as isize), ((xsize - 4) as isize, (ysize - 24) as isize))),
        (Color::DarkBlue, (((xsize - 47) as isize, (ysize - 23) as isize), ((xsize - 47) as isize, (ysize - 4) as isize))),
        (Color::White, (((xsize - 47) as isize, (ysize - 3) as isize), ((xsize - 4) as isize, (ysize - 3) as isize))),
        (Color::White, (((xsize - 3) as isize, (ysize - 24) as isize), ((xsize - 3) as isize, (ysize - 3) as isize))),
    ]
}

/// The boxes of a window on a sheet of the given size: the bevelled frame,
/// the grey body and the blue title bar.
pub open spec fn window_boxes(size: Point) -> Seq<(Color, Area)> {
    let xsize = size.0;
    let ysize = size.1;
    seq![
        (Color::LightGrey, ((0isize, 0isize), ((xsize - 1) as isize, 0isize))),
        (Color::White, ((1isize, 1isize), ((xsize - 2) as isize, 1isize))),
        (Color::LightGrey, ((0isize, 0isize), (0isize, (ysize - 1) as isize))),
        (Color::White, ((1isize, 1isize), (1isize, (ysize - 2) as isize))),
        (Color::Black, (((xsize - 2) as isize, 1isize), ((xsize - 2) as isize, (ysize - 2) as isize))),
        (Color::Black, (((xsize - 1) as isize, 0isize), ((xsize - 1) as isize, (ysize - 1) as isize))),
        (Color::LightGrey, ((2isize, 2isize), ((xsize - 3) as isize, (ysize - 3) as isize))),
        (Color::Blue, ((3isize, 3isize), ((xsize - 4) as isize, 20isize))),
        (Color::Black, ((1isize, (ysize - 2) as isize), ((xsize - 2) as isize, (ysize - 2) as isize))),
        (Color::Black, ((0isize, (ysize - 1) as isize), ((xsize - 1) as isize, (ysize - 1) as isize))),
    ]
}

/// The pixel at `(x, y)` of a window of the given size before its title is
/// written, where the pixel was `base` before: the close button, 21 pixels
/// from the right edge and 5 from the top, over the window's boxes.
pub open spec fn window_pixel(size: Point, base: Option<Color>, x: int, y: int) -> Option<Color> {
    if size.0 - 21 <= x < size.0 - 21 + CLOSE_BUTTON_WIDTH && 5 <= y < 5 + CLOSE_BUTTON_HEIGHT {
        Some(close_button_color(x - (size.0 - 21), y - 5))
    } else {
        boxes_pixel(window_boxes(size), base, x, y)
    }
}

impl Sheet {
    /// Whether a box lies in the buffer, or is empty because its corners
    /// are out of order.
    pub open spec fn box_ok(self, area: Area) -> bool {
        area.0.0 <= area.1.0 && area.0.1 <= area.1.1 ==> self.contains(area.0.0 as int, area.0.1 as int)
            && self.contains(area.1.0 as int, area.1.1 as int)
    }

    /// The buffer has the sheet's size, and the sheet's far corner is a
    /// valid coordinate wherever on the screen the sheet is moved.
    pub open spec fn wf(self) -> bool {
        &&& valid_size(self.size)
        &&& self.top_left.0 + self.size.0 <= isize::MAX
        &&& self.top_left.1 + self.size.1 <= isize::MAX
        &&& self.buf@.len() == self.size.1
        &&& forall|y: int| 0 <= y < self.size.1 ==> (#[trigger] self.buf@[y])@.len() == self.size.0
    }

    /// The top left pixel is on the screen or on the line just beyond its
    /// right or lower edge: where `moveto` and `moveby` leave a sheet.
    pub open spec fn positioned(self) -> bool {
        &&& 0 <= self.top_left.0 <= SCREEN_WIDTH
        &&& 0 <= self.top_left.1 <= SCREEN_HEIGHT
    }

    /// A sheet as the pool holds it before its first use: unused, hidden,
    /// empty, at the screen's origin, white on black.
    pub open spec fn is_blank(self) -> bool {
        &&& !self.used
        &&& self.height == -1
        &&& self.top_left == (0isize, 0isize)
        &&& self.size == (0isize, 0isize)
        &&& self.column_position == (0isize, 0isize)
        &&& self.initial_column_position == (3isize, 23isize)
        &&& self.foreground == Color::White
        &&& self.background == Color::Black
        &&& self.areas_to_refresh@.len() == 0
    }

    /// Whether `(x, y)` is a coordinate of the buffer.
    pub open spec fn contains(self, x: int, y: int) -> bool {
        0 <= x < self.size.0 && 0 <= y < self.size.1
    }

    /// The pixel at buffer coordinate `(x, y)`.
    pub open spec fn pixel(self, x: int, y: int) -> Option<Color> {
        self.buf@[y]@[x]
    }

    /// Whether the sheet covers screen coordinate `(x, y)`.
    pub open spec fn covers(self, x: int, y: int) -> bool {
        self.contains(x - self.top_left.0, y - self.top_left.1)
    }

    /// What the sheet shows at screen coordinate `(x, y)`: the color of its
    /// pixel there, or `None` where it is transparent or does not reach.
    pub open spec fn shows(self, x: int, y: int) -> Option<Color> {
        if self.covers(x, y) {
            self.pixel(x - self.top_left.0, y - self.top_left.1)
        } else {
            None
        }
    }

    /// Every pixel of the buffer is `color`.
    pub open spec fn filled_with(self, color: Option<Color>) -> bool {
        forall|x: int, y: int| self.contains(x, y) ==> #[trigger] self.pixel(x, y) == color
    }

    /// A hidden, unused sheet of the given position and size, white on black,
    /// its buffer filled with black.
    pub fn new(top_left: Point, size: Point, column_position: Point) -> (sheet: Self)
        requires
            valid_size(size),
            top_left.0 + size.0 <= isize::MAX,
            top_left.1 + size.1 <= isize::MAX,
        ensures
            sheet.wf(),
            sheet.top_left == top_left,
            sheet.size == size,
            sheet.column_position == column_position,
            sheet.initial_column_position == (3isize, 23isize),
            sheet.foreground == Color::White,
            sheet.background == Color::Black,
            sheet.height == -1,
            !sheet.used,
            sheet.areas_to_refresh@.len() == 0,
            sheet.filled_with(Some(Color::Black)),
    {
        Self {
            foreground: Color::White,
            background: Color::Black,
            top_left,
            size,
            buf: Self::create_buffer(size, Color::Black),
            column_position,
            initial_column_position: (3, 23),
            height: -1,
            used: false,
            areas_to_refresh: Vec::new(),
        }
    }

    /// Position and size of the sheet.
    pub fn position(&self) -> (res: (Point, Point))
        ensures
            res == (self.top_left, self.size),
    {
        return (self.top_left, self.size);
    }

    /// The screen rectangle of the sheet: its top left corner and the corner
    /// just beyond its bottom right pixel.
    pub fn area(&self) -> (res: Area)
        requires
            self.wf(),
        ensures
            res.0 == self.top_left,
            res.1.0 == self.top_left.0 + self.size.0,
            res.1.1 == self.top_left.1 + self.size.1,
            forall|x: int, y: int| in_area(res, x, y) <==> self.covers(x, y),
    {
        (self.top_left, (self.top_left.0 + self.size.0, self.top_left.1 + self.size.1))
    }

    /// The rectangle of the text line at the cursor, over the sheet's width.
    pub fn line_area(&self) -> (res: Area)
        requires
            self.wf(),
            self.column_position.1 + FONT_HEIGHT <= isize::MAX,
        ensures
            res.0 == (self.top_left.0, self.column_position.1),
            res.1.0 == self.top_left.0 + self.size.0,
            res.1.1 == self.column_position.1 + FONT_HEIGHT,
    {
        (
            (self.top_left.0, self.column_position.1),
            (self.top_left.0 + self.size.0, self.column_position.1 + FONT_HEIGHT),
        )
    }

    /// Gives the sheet a new size and a new buffer, filled with the
    /// background color.
    pub fn adjust(&mut self, new_size: Point)
        requires
            valid_size(new_size),
            old(self).top_left.0 + new_size.0 <= isize::MAX,
            old(self).top_left.1 + new_size.1 <= isize::MAX,
        ensures
            final(self).wf(),
            final(self).size == new_size,
            final(self).filled_with(Some(old(self).background)),
            *final(self) == (Sheet { size: new_size, buf: final(self).buf, ..*old(self) }),
    {
        self.size = new_size;
        self.buf = Self::create_buffer(new_size, self.background);
    }

    /// Moves the sheet by `movement`, stopping at the edges of the screen.
    pub fn moveby(&mut self, movement: Point)
        requires
            old(self).wf(),
            isize::MIN <= old(self).top_left.0 + movement.0 <= isize::MAX,
            isize::MIN <= old(self).top_left.1 + movement.1 <= isize::MAX,
        ensures
            final(self).wf(),
            final(self).positioned(),
            final(self).top_left.0 == clip_spec(old(self).top_left.0 + movement.0, 0, SCREEN_WIDTH as int),
            final(self).top_left.1 == clip_spec(old(self).top_left.1 + movement.1, 0, SCREEN_HEIGHT as int),
            *final(self) == (Sheet { top_left: final(self).top_left, ..*old(self) }),
    {
        self.top_left.0 += movement.0;
        self.top_left.0 = clip(self.top_left.0, 0, SCREEN_WIDTH);
        self.top_left.1 += movement.1;
        self.top_left.1 = clip(self.top_left.1, 0, SCREEN_HEIGHT);
    }

    /// Moves the sheet to `coordinate`, stopping at the edges of the screen.
    pub fn moveto(&mut self, coordinate: Point)
        requires
            old(self).wf(),
        ensures
            final(self).wf(),
            final(self).positioned(),
            final(self).top_left.0 == clip_spec(coordinate.0 as int, 0, SCREEN_WIDTH as int),
            final(self).top_left.1 == clip_spec(coordinate.1 as int, 0, SCREEN_HEIGHT as int),
            *final(self) == (Sheet { top_left: final(self).top_left, ..*old(self) }),
    {
        self.top_left.0 = coordinate.0;
        self.top_left.0 = clip(self.top_left.0, 0, SCREEN_WIDTH);
        self.top_left.1 = coordinate.1;
        self.top_left.1 = clip(self.top_left.1, 0, SCREEN_HEIGHT);
    }

    /// Sets the two colors of the sheet and fills the buffer with the new
    /// background color.
    pub fn change_color(&mut self, foreground: Color, background: Color)
        requires
            old(self).wf(),
        ensures
            final(self).wf(),
            final(self).filled_with(Some(background)),
            *final(self) == (Sheet { foreground, background, buf: final(self).buf, ..*old(self) }),
    {
        self.foreground = foreground;
        self.background = background;
        self.clear_buf();
    }

    /// A buffer of the given size, filled with `background`.
    pub fn create_buffer(size: Point, background: Color) -> (buf: Vec<Vec<Option<Color>>>)
        requires
            0 <= size.0,
            0 <= size.1,
        ensures
            buf@.len() == size.1,
            forall|y: int| 0 <= y < size.1 ==> (#[trigger] buf@[y])@.len() == size.0,
            forall|x: int, y: int|
                0 <= x < size.0 && 0 <= y < size.1 ==> (#[trigger] buf@[y]@[x]) == Some(background),
    {
        let mut buf: Vec<Vec<Option<Color>>> = Vec::new();
        let mut y: isize = 0;
        while y < size.1
            invariant
                0 <= y <= size.1,
                0 <= size.0,
                buf@.len() == y,
                forall|j: int| 0 <= j < y ==> (#[trigger] buf@[j])@.len() == size.0,
                forall|i: int, j: int|
                    0 <= i < size.0 && 0 <= j < y ==> (#[trigger] buf@[j]@[i]) == Some(background),
            decreases size.1 - y,
        {
            let mut line: Vec<Option<Color>> = Vec::new();
            let mut x: isize = 0;
            while x < size.0
                invariant
                    0 <= x <= size.0,
                    line@.len() == x,
                    forall|i: int| 0 <= i < x ==> (#[trigger] line@[i]) == Some(background),
                decreases size.0 - x,
            {
                line.push(Some(background));
                x += 1;
            }
            buf.push(line);
            y += 1;
        }
        buf
    }

    /// Writes `color` to the buffer at `coord`.
    pub fn write_pixel_to_buf(&mut self, coord: Point, color: Option<Color>)
        requires
            old(self).wf(),
            old(self).contains(coord.0 as int, coord.1 as int),
        ensures
            final(self).wf(),
            *final(self) == (Sheet { buf: final(self).buf, ..*old(self) }),
            forall|x: int, y: int|
                old(self).contains(x, y) ==> #[trigger] final(self).pixel(x, y) == (if x == coord.0 && y
                    == coord.1 {
                    color
                } else {
                    old(self).pixel(x, y)
                }),
    {
        self.buf[coord.1 as usize][coord.0 as usize] = color;
    }

    /// Fills the buffer with the background color.
    pub fn clear_buf(&mut self)
        requires
            old(self).wf(),
        ensures
            final(self).wf(),
            final(self).filled_with(Some(old(self).background)),
            *final(self) == (Sheet { buf: final(self).buf, ..*old(self) }),
    {
        let mut i: usize = 0;
        while i < self.buf.len()
            invariant
                self.wf(),
                *self == (Sheet { buf: self.buf, ..*old(self) }),
                i <= self.buf@.len(),
                forall|x: int, y: int|
                    0 <= x < self.size.0 && 0 <= y < i ==> #[trigger] self.pixel(x, y) == Some(
                        self.background,
                    ),
            decreases self.buf@.len() - i,
        {
            let mut j: usize = 0;
            while j < self.buf[i].len()
                invariant
                    self.wf(),
                    *self == (Sheet { buf: self.buf, ..*old(self) }),
                    i < self.buf@.len(),
                    j <= self.buf@[i as int]@.len(),
                    forall|x: int, y: int|
                        0 <= x < self.size.0 && 0 <= y < i ==> #[trigger] self.pixel(x, y) == Some(
                            self.background,
                        ),
                    forall|x: int| 0 <= x < j ==> #[trigger] self.pixel(x, i as int) == Some(self.background),
                decreases self.buf@[i as int]@.len() - j,
            {
                let ghost prev = *self;
                self.buf[i][j] = Some(self.background);
                proof {
                    assert forall|x: int, y: int| 0 <= x < self.size.0 && 0 <= y < i
                        implies #[trigger] self.pixel(
                        x,
                        y,
                    ) == Some(self.background) by {
                        assert(prev.pixel(x, y) == Some(self.background));
                    }
                    assert forall|x: int| 0 <= x < j + 1 implies #[trigger] self.pixel(x, i as int) == Some(
                        self.background,
                    ) by {
                        if x < j {
                            assert(prev.pixel(x, i as int) == Some(self.background));
                        }
                    }
                }
                j += 1;
            }
            i += 1;
        }
    }

    /// Fills the box from the first corner of `area` to the second, both
    /// included, with `color`. A box whose corners are out of order is empty.
    pub fn boxfill(&mut self, color: Color, area: Area)
        requires
            old(self).wf(),
            old(self).box_ok(area),
        ensures
            final(self).wf(),
            *final(self) == (Sheet { buf: final(self).buf, ..*old(self) }),
            forall|x: int, y: int|
                old(self).contains(x, y) ==> #[trigger] final(self).pixel(x, y) == (if in_box(area, x, y) {
                    Some(color)
                } else {
                    old(self).pixel(x, y)
                }),
    {
        let (topleft, bottomright) = area;
        if topleft.0 > bottomright.0 || topleft.1 > bottomright.1 {
            return ;
        }
        let mut x: isize = topleft.0;
        while x <= bottomright.0
            invariant
                self.wf(),
                *self == (Sheet { buf: self.buf, ..*old(self) }),
                area == (topleft, bottomright),
                topleft.0 <= x <= bottomright.0 + 1,
                topleft.1 <= bottomright.1,
                old(self).contains(topleft.0 as int, topleft.1 as int),
                old(self).contains(bottomright.0 as int, bottomright.1 as int),
                forall|i: int, j: int|
                    old(self).contains(i, j) ==> #[trigger] self.pixel(i, j) == (if in_box(area, i, j) && i
                        < x {
                        Some(color)
                    } else {
                        old(self).pixel(i, j)
                    }),
            decreases bottomright.0 + 1 - x,
        {
            let mut y: isize = topleft.1;
            while y <= bottomright.1
                invariant
                    self.wf(),
                    *self == (Sheet { buf: self.buf, ..*old(self) }),
                    area == (topleft, bottomright),
                    topleft.0 <= x <= bottomright.0,
                    topleft.1 <= y <= bottomright.1 + 1,
                    old(self).contains(topleft.0 as int, topleft.1 as int),
                    old(self).contains(bottomright.0 as int, bottomright.1 as int),
                    forall|i: int, j: int|
                        old(self).contains(i, j) ==> #[trigger] self.pixel(i, j) == (if in_box(area, i, j)
                            && (i < x || (i == x && j < y)) {
                            Some(color)
                        } else {
                            old(self).pixel(i, j)
                        }),
                decreases bottomright.1 + 1 - y,
            {
                self.write_pixel_to_buf((x, y), Some(color));
                y += 1;
            }
            x += 1;
        }
    }

    /// Whether every pixel that the glyph of `chara` sets lands in the
    /// buffer when the glyph is drawn with its top left corner at `coord`.
    pub open spec fn glyph_fits(self, font: Font, coord: Point, chara: char) -> bool {
        forall|bit: int, line: int| #[trigger]
            font.lit(chara, bit, line) ==> self.contains(coord.0 + bit, coord.1 + line)
    }

    /// Draws the glyph of `chara` with its top left corner at `coord`: the
    /// pixels that the glyph sets get `color`, the others stay.
    pub fn draw_character(&mut self, font: &Font, coord: Point, chara: char, color: Color)
        requires
            old(self).wf(),
            font.wf(),
            Font::has_glyph(chara),
            old(self).glyph_fits(*font, coord, chara),
        ensures
            final(self).wf(),
            *final(self) == (Sheet { buf: final(self).buf, ..*old(self) }),
            forall|x: int, y: int|
                old(self).contains(x, y) ==> #[trigger] final(self).pixel(x, y) == (if font.lit(
                    chara,
                    x - coord.0,
                    y - coord.1,
                ) {
                    Some(color)
                } else {
                    old(self).pixel(x, y)
                }),
    {
        let glyph = font.glyph(chara);
        let mut i: isize = 0;
        while i < FONT_HEIGHT
            invariant
                0 <= i <= FONT_HEIGHT,
                self.wf(),
                font.wf(),
                Font::has_glyph(chara),
                glyph == font.glyphs@[chara as u32 as int],
                old(self).glyph_fits(*font, coord, chara),
                *self == (Sheet { buf: self.buf, ..*old(self) }),
                forall|x: int, y: int|
                    old(self).contains(x, y) ==> #[trigger] self.pixel(x, y) == (if font.lit(
                        chara,
                        x - coord.0,
                        y - coord.1,
                    ) && y - coord.1 < i {
                        Some(color)
                    } else {
                        old(self).pixel(x, y)
                    }),
            decreases FONT_HEIGHT - i,
        {
            let d = glyph[i as usize];
            let mut bit: isize = 0;
            while bit < FONT_WIDTH
                invariant
                    0 <= i < FONT_HEIGHT,
                    0 <= bit <= FONT_WIDTH,
                    self.wf(),
                    font.wf(),
                    Font::has_glyph(chara),
                    glyph == font.glyphs@[chara as u32 as int],
                    d == glyph@[i as int],
                    old(self).glyph_fits(*font, coord, chara),
                    *self == (Sheet { buf: self.buf, ..*old(self) }),
                    forall|x: int, y: int|
                        old(self).contains(x, y) ==> #[trigger] self.pixel(x, y) == (if font.lit(
                            chara,
                            x - coord.0,
                            y - coord.1,
                        ) && (y - coord.1 < i || (y - coord.1 == i && x - coord.0 < bit)) {
                            Some(color)
                        } else {
                            old(self).pixel(x, y)
                        }),
                decreases FONT_WIDTH - bit,
            {
                if crate::font::row_bit_set(d, bit) {
                    assert(font.lit(chara, bit as int, i as int));
                    self.write_pixel_to_buf((coord.0 + bit, coord.1 + i), Some(color));
                }
                bit += 1;
            }
            i += 1;
        }
    }

    /// The cursor after `c` is written at the cursor.
    ///
    /// A line feed goes to the start column, one line down. Any other
    /// character moves the cursor one glyph to the right; if a further glyph
    /// would not fit in the width, the cursor goes to the start column, one
    /// line down; and if a line would then not fit in the height, the cursor
    /// goes back to where text starts.
    pub open spec fn cursor_after_char(self, c: char) -> Point {
        if c == '\n' {
            (self.initial_column_position.0, (self.column_position.1 + FONT_HEIGHT) as isize)
        } else if self.clears_after_char(c) {
            self.initial_column_position
        } else {
            self.advanced(c)
        }
    }

    /// The cursor after a character other than a line feed, before the test
    /// for the lower edge.
    pub open spec fn advanced(self, c: char) -> Point {
        if self.column_position.0 + FONT_WIDTH + FONT_WIDTH > self.size.0 {
            (self.initial_column_position.0, (self.column_position.1 + FONT_HEIGHT) as isize)
        } else {
            ((self.column_position.0 + FONT_WIDTH) as isize, self.column_position.1)
        }
    }

    /// Whether writing `c` ends with the buffer cleared: `c` is no line feed
    /// and after it no line fits below the cursor.
    pub open spec fn clears_after_char(self, c: char) -> bool {
        c != '\n' && self.advanced(c).1 + FONT_HEIGHT > self.size.1
    }

    /// Whether `c` can be written at the cursor: its glyph exists and sets
    /// pixels of the buffer only, and the cursor's coordinates stay in range.
    pub open spec fn char_ok(self, font: Font, c: char) -> bool {
        if c == '\n' {
            self.column_position.1 + FONT_HEIGHT <= isize::MAX
        } else {
            &&& Font::has_glyph(c)
            &&& self.glyph_fits(font, self.column_position, c)
            &&& self.column_position.0 + FONT_WIDTH + FONT_WIDTH <= isize::MAX
            &&& self.column_position.1 + FONT_HEIGHT <= isize::MAX
            &&& self.advanced(c).1 + FONT_HEIGHT <= isize::MAX
        }
    }

    /// The pixel at `(x, y)` after `c` is written at the cursor, where the
    /// pixel was `prev` before.
    pub open spec fn char_pixel(self, font: Font, c: char, prev: Option<Color>, x: int, y: int) -> Option<
        Color,
    > {
        if c == '\n' {
            prev
        } else if self.clears_after_char(c) {
            Some(self.background)
        } else if font.lit(c, x - self.column_position.0, y - self.column_position.1) {
            Some(self.foreground)
        } else {
            prev
        }
    }

    /// Writes one character at the cursor, in the foreground color, and
    /// moves the cursor on.
    pub fn write_char(&mut self, font: &Font, c: char)
        requires
            old(self).wf(),
            font.wf(),
            old(self).char_ok(*font, c),
        ensures
            final(self).wf(),
            *final(self) == (Sheet {
                buf: final(self).buf,
                column_position: old(self).cursor_after_char(c),
                ..*old(self)
            }),
            forall|x: int, y: int|
                old(self).contains(x, y) ==> #[trigger] final(self).pixel(x, y) == old(self).char_pixel(
                    *font,
                    c,
                    old(self).pixel(x, y),
                    x,
                    y,
                ),
    {
        if c == '\n' {
            self.column_position = (self.initial_column_position.0, self.column_position.1 + FONT_HEIGHT);
            return ;
        } else {
            self.draw_character(font, (self.column_position.0, self.column_position.1), c, self.foreground);
        }
        let ghost drawn = *self;
        self.column_position.0 += FONT_WIDTH;
        if self.column_position.0 + FONT_WIDTH > self.size.0 {
            self.column_position.0 = self.initial_column_position.0;
            self.column_position.1 += FONT_HEIGHT;
        }
        let ghost moved = *self;
        if self.column_position.1 + FONT_HEIGHT > self.size.1 {
            self.clear_buf();
            self.column_position = self.initial_column_position;
        }
        proof {
            assert(moved.column_position == old(self).advanced(c));
            assert forall|x: int, y: int| old(self).contains(x, y) implies #[trigger] self.pixel(x, y) == old(
                self,
            ).char_pixel(*font, c, old(self).pixel(x, y), x, y) by {
                if old(self).clears_after_char(c) {
                    let cleared = Sheet { column_position: moved.column_position, ..*self };
                    assert(cleared.contains(x, y));
                    assert(cleared.pixel(x, y) == Some(old(self).background));
                }
                assert(drawn.pixel(x, y) == (if font.lit(
                    c,
                    x - old(self).column_position.0,
                    y - old(self).column_position.1,
                ) {
                    Some(old(self).foreground)
                } else {
                    old(self).pixel(x, y)
                }));
            }
        }
    }

    /// This sheet with the cursor at `cursor`.
    pub open spec fn with_cursor(self, cursor: Point) -> Sheet {
        Sheet { column_position: cursor, ..self }
    }

    /// The cursor after the characters of `s` are written, one after the other.
    pub open spec fn cursor_after_str(self, s: Seq<char>) -> Point
        decreases s.len(),
    {
        if s.len() == 0 {
            self.column_position
        } else {
            self.with_cursor(self.cursor_after_str(s.drop_last())).cursor_after_char(s.last())
        }
    }

    /// Whether the characters of `s` can be written, one after the other.
    pub open spec fn str_ok(self, font: Font, s: Seq<char>) -> bool
        decreases s.len(),
    {
        s.len() == 0 || (self.str_ok(font, s.drop_last()) && self.with_cursor(
            self.cursor_after_str(s.drop_last()),
        ).char_ok(font, s.last()))
    }

    /// The pixel at `(x, y)` after the characters of `s` are written, one
    /// after the other, where the pixel was `base` before.
    pub open spec fn text_pixel(self, font: Font, s: Seq<char>, base: Option<Color>, x: int, y: int) -> Option<
        Color,
    >
        decreases s.len(),
    {
        if s.len() == 0 {
            base
        } else {
            self.with_cursor(self.cursor_after_str(s.drop_last())).char_pixel(
                font,
                s.last(),
                self.text_pixel(font, s.drop_last(), base, x, y),
                x,
                y,
            )
        }
    }

    /// What can be written can be written up to any point.
    pub proof fn lemma_str_ok_prefix(self, font: Font, s: Seq<char>, n: int)
        requires
            self.str_ok(font, s),
            0 <= n <= s.len(),
        ensures
            self.str_ok(font, s.take(n)),
        decreases s.len(),
    {
        if n == s.len() {
            assert(s.take(n) =~= s);
        } else {
            self.lemma_str_ok_prefix(font, s.drop_last(), n);
            assert(s.drop_last().take(n) =~= s.take(n));
        }
    }

    /// A text of few lines and few columns can be written.
    ///
    /// Let the line feeds of `s` all stand among its first `k` characters,
    /// and let every other character have a glyph. If one glyph more than
    /// `s` has characters fits between the cursor's column and the right
    /// edge, and also between the start column and the right edge in case
    /// `s` may hold a line feed, and one line more than `k` fits between the
    /// cursor's line and the lower edge, then `s` can be written, the buffer
    /// is not cleared on the way, and the cursor ends within these bounds.
    pub proof fn lemma_text_block(self, font: Font, s: Seq<char>, k: int)
        requires
            self.wf(),
            0 <= k,
            0 <= self.column_position.0,
            0 <= self.column_position.1,
            forall|i: int| 0 <= i < s.len() && s[i] != '\n' ==> Font::has_glyph(#[trigger] s[i]),
            forall|i: int| k <= i < s.len() ==> #[trigger] s[i] != '\n',
            self.column_position.0 + FONT_WIDTH * (s.len() + 1) <= self.size.0,
            k > 0 ==> 0 <= self.initial_column_position.0 && self.initial_column_position.0 + FONT_WIDTH * (
            s.len() + 1) <= self.size.0,
            self.column_position.1 + FONT_HEIGHT * (k + 1) <= self.size.1,
        ensures
            self.str_ok(font, s),
            0 <= self.cursor_after_str(s).0,
            self.cursor_after_str(s).0 <= self.column_position.0 + FONT_WIDTH * s.len()
                || (k > 0 && self.cursor_after_str(s).0 <= self.initial_column_position.0 + FONT_WIDTH
                * s.len()),
            self.column_position.1 <= self.cursor_after_str(s).1 <= self.column_position.1 + FONT_HEIGHT * k,
            s.len() < k ==> self.cursor_after_str(s).1 <= self.column_position.1 + FONT_HEIGHT * s.len(),
            forall|i: int| 0 <= i < s.len() ==> !self.with_cursor(
                self.cursor_after_str(#[trigger] s.take(i)),
            ).clears_after_char(s[i]),
        decreases s.len(),
    {
        if s.len() > 0 {
            let head = s.drop_last();
            let c = s.last();
            self.lemma_text_block(font, head, k);
            let at = self.with_cursor(self.cursor_after_str(head));
            if c != '\n' {
                assert(Font::has_glyph(s[s.len() - 1]));
                assert(at.column_position.0 + FONT_WIDTH + FONT_WIDTH <= at.size.0);
                assert(at.column_position.1 + FONT_HEIGHT <= at.size.1);
                assert forall|bit: int, line: int| #[trigger] font.lit(c, bit, line) implies at.contains(
                    at.column_position.0 + bit,
                    at.column_position.1 + line,
                ) by {}
            } else {
                assert(s.len() - 1 < k) by {
                    if k <= s.len() - 1 {
                        assert(s[s.len() - 1] != '\n');
                    }
                }
            }
            assert forall|i: int| 0 <= i < s.len() implies !self.with_cursor(
                self.cursor_after_str(#[trigger] s.take(i)),
            ).clears_after_char(s[i]) by {
                if i < s.len() - 1 {
                    assert(head.take(i) =~= s.take(i));
                    assert(head[i] == s[i]);
                } else {
                    assert(s.take(i) =~= head);
                }
            }
        }
    }

    /// Line feeds alone move the cursor to the start column, one line down
    /// for each, and leave the pixels as they are. They can be written as
    /// long as the cursor's line stays in the range of the coordinates.
    pub proof fn lemma_line_feeds(self, font: Font, s: Seq<char>, base: Option<Color>, x: int, y: int)
        requires
            forall|i: int| 0 <= i < s.len() ==> #[trigger] s[i] == '\n',
            self.column_position.1 + FONT_HEIGHT * s.len() <= isize::MAX,
        ensures
            self.str_ok(font, s),
            self.cursor_after_str(s) == (if s.len() == 0 {
                self.column_position
            } else {
                (self.initial_column_position.0, (self.column_position.1 + FONT_HEIGHT * s.len()) as isize)
            }),
            self.text_pixel(font, s, base, x, y) == base,
        decreases s.len(),
    {
        if s.len() > 0 {
            self.lemma_line_feeds(font, s.drop_last(), base, x, y);
            assert(s.last() == '\n');
        }
    }

    /// Writing one character is writing the text of that character.
    pub proof fn lemma_text_of_char(self, font: Font, c: char, base: Option<Color>, x: int, y: int)
        ensures
            self.str_ok(font, seq![c]) == self.char_ok(font, c),
            self.cursor_after_str(seq![c]) == self.cursor_after_char(c),
            self.text_pixel(font, seq![c], base, x, y) == self.char_pixel(font, c, base, x, y),
    {
        let s = seq![c];
        assert(s.drop_last() =~= Seq::<char>::empty());
        assert(s.last() == c);
        assert(self.cursor_after_str(s.drop_last()) == self.column_position);
        assert(self.with_cursor(self.column_position) == self);
        assert(self.str_ok(font, s.drop_last()));
        assert(self.text_pixel(font, s.drop_last(), base, x, y) == base);
    }

    /// Writes `string` at the cursor, character by character.
    ///
    /// Text wraps at the right edge of the sheet. When it reaches the lower
    /// edge, the buffer is cleared to the background color and writing goes
    /// on from where text starts.
    pub fn write_str(&mut self, font: &Font, string: &str)
        requires
            old(self).wf(),
            font.wf(),
            old(self).str_ok(*font, string@),
        ensures
            final(self).wf(),
            *final(self) == (Sheet {
                buf: final(self).buf,
                column_position: old(self).cursor_after_str(string@),
                ..*old(self)
            }),
            forall|x: int, y: int|
                old(self).contains(x, y) ==> #[trigger] final(self).pixel(x, y) == old(self).text_pixel(
                    *font,
                    string@,
                    old(self).pixel(x, y),
                    x,
                    y,
                ),
    {
        let ghost o = *self;
        let n = string.unicode_len();
        let mut i: usize = 0;
        while i < n
            invariant
                i <= n,
                n == string@.len(),
                o == *old(self),
                o.wf(),
                self.wf(),
                font.wf(),
                o.str_ok(*font, string@),
                *self == (Sheet {
                    buf: self.buf,
                    column_position: o.cursor_after_str(string@.take(i as int)),
                    ..o
                }),
                forall|x: int, y: int|
                    o.contains(x, y) ==> #[trigger] self.pixel(x, y) == o.text_pixel(
                        *font,
                        string@.take(i as int),
                        o.pixel(x, y),
                        x,
                        y,
                    ),
            decreases n - i,
        {
            let c = string.get_char(i);
            let ghost prev = *self;
            let ghost head = string@.take(i as int);
            let ghost next = string@.take(i + 1);
            proof {
                o.lemma_str_ok_prefix(*font, string@, i + 1);
                assert(next.drop_last() =~= head);
                assert(next.last() == c);
                let at = o.with_cursor(o.cursor_after_str(head));
                assert(at.char_ok(*font, c));
                assert(prev.char_ok(*font, c)) by {
                    assert(prev.glyph_fits(*font, prev.column_position, c) == at.glyph_fits(
                        *font,
                        at.column_position,
                        c,
                    ));
                }
            }
            self.write_char(font, c);
            proof {
                let at = o.with_cursor(o.cursor_after_str(head));
                assert(prev.cursor_after_char(c) == at.cursor_after_char(c));
                assert forall|x: int, y: int| o.contains(x, y) implies #[trigger] self.pixel(x, y)
                    == o.text_pixel(*font, next, o.pixel(x, y), x, y) by {
                    assert(self.pixel(x, y) == prev.char_pixel(*font, c, prev.pixel(x, y), x, y));
                    assert(prev.pixel(x, y) == o.text_pixel(*font, head, o.pixel(x, y), x, y));
                }
            }
            i += 1;
        }
        proof {
            assert(string@.take(n as int) =~= string@);
        }
    }

    /// Fills `boxes` one after the other, as `boxfill` does.
    pub fn fill_boxes(&mut self, boxes: &Vec<(Color, Area)>)
        requires
            old(self).wf(),
            forall|k: int| 0 <= k < boxes@.len() ==> old(self).box_ok((#[trigger] boxes@[k]).1),
        ensures
            final(self).wf(),
            *final(self) == (Sheet { buf: final(self).buf, ..*old(self) }),
            forall|x: int, y: int|
                old(self).contains(x, y) ==> #[trigger] final(self).pixel(x, y) == boxes_pixel(
                    boxes@,
                    old(self).pixel(x, y),
                    x,
                    y,
                ),
    {
        let mut k: usize = 0;
        while k < boxes.len()
            invariant
                k <= boxes@.len(),
                self.wf(),
                *self == (Sheet { buf: self.buf, ..*old(self) }),
                forall|j: int| 0 <= j < boxes@.len() ==> old(self).box_ok((#[trigger] boxes@[j]).1),
                forall|x: int, y: int|
                    old(self).contains(x, y) ==> #[trigger] self.pixel(x, y) == boxes_pixel(
                        boxes@.take(k as int),
                        old(self).pixel(x, y),
                        x,
                        y,
                    ),
            decreases boxes@.len() - k,
        {
            let ghost prev = *self;
            let (color, area) = boxes[k];
            assert(old(self).box_ok(boxes@[k as int].1));
            self.boxfill(color, area);
            proof {
                let head = boxes@.take(k as int);
                let next = boxes@.take(k + 1);
                assert(next.drop_last() =~= head);
                assert(next.last() == boxes@[k as int]);
                assert forall|x: int, y: int| old(self).contains(x, y) implies #[trigger] self.pixel(x, y)
                    == boxes_pixel(next, old(self).pixel(x, y), x, y) by {
                    assert(prev.pixel(x, y) == boxes_pixel(head, old(self).pixel(x, y), x, y));
                }
            }
            k += 1;
        }
        proof {
            assert(boxes@.take(boxes@.len() as int) =~= boxes@);
        }
    }

    /// Paints the desktop background: a cyan desktop above a grey task bar
    /// with a button on its left and a tray on its right. The sheet must be
    /// at least 61 pixels wide and 28 high.
    pub fn make_background(&mut self)
        requires
            old(self).wf(),
            old(self).size.0 >= 61,
            old(self).size.1 >= 28,
        ensures
            final(self).wf(),
            *final(self) == (Sheet { buf: final(self).buf, ..*old(self) }),
            forall|x: int, y: int|
                old(self).contains(x, y) ==> #[trigger] final(self).pixel(x, y) == boxes_pixel(
                    background_boxes(old(self).size),
                    old(self).pixel(x, y),
                    x,
                    y,
                ),
    {
        let (xsize, ysize) = self.size;
        let mut boxes: Vec<(Color, Area)> = Vec::new();
        boxes.push((Color::Cyan, ((0, 0), (xsize - 1, ysize - 29))));
        boxes.push((Color::LightGrey, ((0, ysize - 28), (xsize - 1, ysize - 28))));
        boxes.push((Color::White, ((0, ysize - 27), (xsize - 1, ysize - 27))));
        boxes.push((Color::LightGrey, ((0, ysize - 26), (xsize - 1, ysize - 1))));
        boxes.push((Color::White, ((3, ysize - 24), (59, ysize - 24))));
        boxes.push((Color::White, ((2, ysize - 24), (2, ysize - 4))));
        boxes.push((Color::DarkBlue, ((3, ysize - 4), (59, ysize - 4))));
        boxes.push((Color::DarkBlue, ((59, ysize - 23), (59, ysize - 5))));
        boxes.push((Color::Black, ((2, ysize - 3), (59, ysize - 3))));
        boxes.push((Color::Black, ((60, ysize - 24), (60, ysize - 3))));
        boxes.push((Color::DarkBlue, ((xsize - 47, ysize - 24), (xsize - 4, ysize - 24))));
        boxes.push((Color::DarkBlue, ((xsize - 47, ysize - 23), (xsize - 47, ysize - 4))));
        boxes.push((Color::White, ((xsize - 47, ysize - 3), (xsize - 4, ysize - 3))));
        boxes.push((Color::White, ((xsize - 3, ysize - 24), (xsize - 3, ysize - 3))));
        assert(boxes@ =~= background_boxes(self.size));
        self.fill_boxes(&boxes);
    }

    /// Paints the close button with its top left corner 21 pixels from the
    /// right edge and 5 from the top.
    fn draw_close_button(&mut self)
        requires
            old(self).wf(),
            old(self).size.0 >= 21,
            old(self).size.1 >= 19,
        ensures
            final(self).wf(),
            *final(self) == (Sheet { buf: final(self).buf, ..*old(self) }),
            forall|x: int, y: int|
                old(self).contains(x, y) ==> #[trigger] final(self).pixel(x, y) == (if old(self).size.0 - 21
                    <= x < old(self).size.0 - 21 + CLOSE_BUTTON_WIDTH && 5 <= y < 5 + CLOSE_BUTTON_HEIGHT {
                    Some(close_button_color(x - (old(self).size.0 - 21), y - 5))
                } else {
                    old(self).pixel(x, y)
                }),
    {
        let xsize = self.size.0;
        let mut y: usize = 0;
        while y < CLOSE_BUTTON_HEIGHT
            invariant
                y <= CLOSE_BUTTON_HEIGHT,
                self.wf(),
                xsize == old(self).size.0,
                xsize >= 21,
                self.size.1 >= 19,
                *self == (Sheet { buf: self.buf, ..*old(self) }),
                forall|i: int, j: int|
                    old(self).contains(i, j) ==> #[trigger] self.pixel(i, j) == (if xsize - 21 <= i < xsize - 21
                        + CLOSE_BUTTON_WIDTH && 5 <= j < 5 + y {
                        Some(close_button_color(i - (xsize - 21), j - 5))
                    } else {
                        old(self).pixel(i, j)
                    }),
            decreases CLOSE_BUTTON_HEIGHT - y,
        {
            let mut x: usize = 0;
            while x < CLOSE_BUTTON_WIDTH
                invariant
                    y < CLOSE_BUTTON_HEIGHT,
                    x <= CLOSE_BUTTON_WIDTH,
                    self.wf(),
                    xsize == old(self).size.0,
                    xsize >= 21,
                    self.size.1 >= 19,
                    *self == (Sheet { buf: self.buf, ..*old(self) }),
                    forall|i: int, j: int|
                        old(self).contains(i, j) ==> #[trigger] self.pixel(i, j) == (if xsize - 21 <= i < xsize
                            - 21 + CLOSE_BUTTON_WIDTH && (5 <= j < 5 + y || (j == 5 + y
                                && i < xsize - 21 + x)) {
                            Some(close_button_color(i - (xsize - 21), j - 5))
                        } else {
                            old(self).pixel(i, j)
                        }),
                decreases CLOSE_BUTTON_WIDTH - x,
            {
                let c = CLOSE_BUTTON[y][x];
                let color = if c == A {
                    Color::Black
                } else if c == L {
                    Color::DarkBlue
                } else if c == Q {
                    Color::LightGrey
                } else {
                    Color::White
                };
                self.write_pixel_to_buf((xsize - 21 + x as isize, y as isize + 5), Some(color));
                x += 1;
            }
            y += 1;
        }
    }

    /// Paints the sheet as a window: frame, body, title bar and close
    /// button, and `title` in the title bar. Afterwards the cursor is where
    /// text starts. The sheet must be at least 21 pixels wide and 21 high,
    /// and the title must be writable from the cursor position `(2, 2)`.
    pub fn make_sheet(&mut self, font: &Font, title: &str)
        requires
            old(self).wf(),
            font.wf(),
            old(self).size.0 >= 21,
            old(self).size.1 >= 21,
            old(self).with_cursor((2isize, 2isize)).str_ok(*font, title@),
        ensures
            final(self).wf(),
            *final(self) == (Sheet {
                buf: final(self).buf,
                column_position: old(self).initial_column_position,
                ..*old(self)
            }),
            forall|x: int, y: int|
                old(self).contains(x, y) ==> #[trigger] final(self).pixel(x, y) == old(self).with_cursor(
                    (2isize, 2isize),
                ).text_pixel(*font, title@, window_pixel(old(self).size, old(self).pixel(x, y), x, y), x, y),
    {
        let (xsize, ysize) = self.size;
        let mut boxes: Vec<(Color, Area)> = Vec::new();
        boxes.push((Color::LightGrey, ((0, 0), (xsize - 1, 0))));
        boxes.push((Color::White, ((1, 1), (xsize - 2, 1))));
        boxes.push((Color::LightGrey, ((0, 0), (0, ysize - 1))));
        boxes.push((Color::White, ((1, 1), (1, ysize - 2))));
        boxes.push((Color::Black, ((xsize - 2, 1), (xsize - 2, ysize - 2))));
        boxes.push((Color::Black, ((xsize - 1, 0), (xsize - 1, ysize - 1))));
        boxes.push((Color::LightGrey, ((2, 2), (xsize - 3, ysize - 3))));
        boxes.push((Color::Blue, ((3, 3), (xsize - 4, 20))));
        boxes.push((Color::Black, ((1, ysize - 2), (xsize - 2, ysize - 2))));
        boxes.push((Color::Black, ((0, ysize - 1), (xsize - 1, ysize - 1))));
        assert(boxes@ =~= window_boxes(self.size));
        self.fill_boxes(&boxes);
        let ghost boxed = *self;
        self.draw_close_button();
        let ghost framed = *self;
        self.column_position = (2, 2);
        let ghost titled = *self;
        proof {
            let start = old(self).with_cursor((2isize, 2isize));
            assert(titled == Sheet { buf: titled.buf, ..start });
            titled.lemma_text_same(start, *font, title@);
        }
        self.write_str(font, title);
        let ghost written = *self;
        self.column_position = self.initial_column_position;
        proof {
            let start = old(self).with_cursor((2isize, 2isize));
            assert forall|x: int, y: int| old(self).contains(x, y) implies #[trigger] self.pixel(x, y)
                == start.text_pixel(
                *font,
                title@,
                window_pixel(old(self).size, old(self).pixel(x, y), x, y),
                x,
                y,
            ) by {
                assert(boxed.pixel(x, y) == boxes_pixel(
                    window_boxes(old(self).size),
                    old(self).pixel(x, y),
                    x,
                    y,
                ));
                assert(framed.pixel(x, y) == window_pixel(old(self).size, old(self).pixel(x, y), x, y));
                assert(titled.pixel(x, y) == framed.pixel(x, y));
                assert(titled.contains(x, y));
                assert(written.pixel(x, y) == titled.text_pixel(*font, title@, titled.pixel(x, y), x, y));
                assert(self.pixel(x, y) == written.pixel(x, y));
                titled.lemma_text_pixel_same(start, *font, title@, titled.pixel(x, y), x, y);
            }
        }
    }

    /// Writing text depends on a sheet's size, colors and cursor only: the
    /// cursor moves alike, and the same text can be written, on two sheets
    /// that differ in nothing but their buffers.
    pub proof fn lemma_text_same(self, other: Sheet, font: Font, s: Seq<char>)
        requires
            self == (Sheet { buf: self.buf, ..other }),
        ensures
            self.cursor_after_str(s) == other.cursor_after_str(s),
            self.str_ok(font, s) == other.str_ok(font, s),
        decreases s.len(),
    {
        if s.len() > 0 {
            self.lemma_text_same(other, font, s.drop_last());
            let a = self.with_cursor(self.cursor_after_str(s.drop_last()));
            let b = other.with_cursor(other.cursor_after_str(s.drop_last()));
            assert(a.glyph_fits(font, a.column_position, s.last()) == b.glyph_fits(
                font,
                b.column_position,
                s.last(),
            ));
        }
    }

    /// On two sheets that differ in nothing but their buffers, the same text
    /// over the same pixel gives the same pixel.
    pub proof fn lemma_text_pixel_same(
        self,
        other: Sheet,
        font: Font,
        s: Seq<char>,
        base: Option<Color>,
        x: int,
        y: int,
    )
        requires
            self == (Sheet { buf: self.buf, ..other }),
        ensures
            self.text_pixel(font, s, base, x, y) == other.text_pixel(font, s, base, x, y),
        decreases s.len(),
    {
        if s.len() > 0 {
            self.lemma_text_same(other, font, s.drop_last());
            self.lemma_text_pixel_same(other, font, s.drop_last(), base, x, y);
        }
    }

    /// Paints the mouse cursor's picture into the top left 16 by 16 pixels
    /// of the buffer; the pixels around the arrow become transparent.
    pub fn draw_cursor(&mut self)
        requires
            old(self).wf(),
            old(self).size.0 >= CURSOR_WIDTH,
            old(self).size.1 >= CURSOR_HEIGHT,
        ensures
            final(self).wf(),
            *final(self) == (Sheet { buf: final(self).buf, ..*old(self) }),
            forall|x: int, y: int|
                old(self).contains(x, y) ==> #[trigger] final(self).pixel(x, y) == (if x < CURSOR_WIDTH && y
                    < CURSOR_HEIGHT {
                    cursor_color(x, y)
                } else {
                    old(self).pixel(x, y)
                }),
    {
        let mut y: usize = 0;
        while y < CURSOR_HEIGHT
            invariant
                y <= CURSOR_HEIGHT,
                self.wf(),
                self.size.0 >= CURSOR_WIDTH,
                self.size.1 >= CURSOR_HEIGHT,
                *self == (Sheet { buf: self.buf, ..*old(self) }),
                forall|i: int, j: int|
                    old(self).contains(i, j) ==> #[trigger] self.pixel(i, j) == (if i < CURSOR_WIDTH && j < y {
                        cursor_color(i, j)
                    } else {
                        old(self).pixel(i, j)
                    }),
            decreases CURSOR_HEIGHT - y,
        {
            let mut x: usize = 0;
            while x < CURSOR_WIDTH
                invariant
                    y < CURSOR_HEIGHT,
                    x <= CURSOR_WIDTH,
                    self.wf(),
                    self.size.0 >= CURSOR_WIDTH,
                    self.size.1 >= CURSOR_HEIGHT,
                    *self == (Sheet { buf: self.buf, ..*old(self) }),
                    forall|i: int, j: int|
                        old(self).contains(i, j) ==> #[trigger] self.pixel(i, j) == (if i < CURSOR_WIDTH && (j
                            < y || (j == y && i < x)) {
                            cursor_color(i, j)
                        } else {
                            old(self).pixel(i, j)
                        }),
                decreases CURSOR_WIDTH - x,
            {
                let c = CURSOR[x][y];
                let color = if c == S {
                    Some(Color::Black)
                } else if c == O {
                    Some(Color::White)
                } else {
                    None
                };
                self.write_pixel_to_buf((x as isize, y as isize), color);
                x += 1;
            }
            y += 1;
        }
    }
}

/// The image that stands for the graphics device: one palette index for each
/// pixel of the screen, row by row.
pub struct Screen {
    pub pixels: Vec<Vec<u8>>,
}

/// Whether `(x, y)` is a pixel of the screen.
pub open spec fn on_screen(x: int, y: int) -> bool {
    0 <= x < SCREEN_WIDTH && 0 <= y < SCREEN_HEIGHT
}

impl Screen {
    /// The image has the dimensions of the screen.
    pub open spec fn wf(self) -> bool {
        &&& self.pixels@.len() == SCREEN_HEIGHT
        &&& forall|y: int| 0 <= y < SCREEN_HEIGHT ==> (#[trigger] self.pixels@[y])@.len() == SCREEN_WIDTH
    }

    /// The palette index at `(x, y)`.
    pub open spec fn at(self, x: int, y: int) -> u8 {
        self.pixels@[y]@[x]
    }

    /// A screen cleared to `color`.
    pub fn new(color: u8) -> (screen: Self)
        ensures
            screen.wf(),
            forall|x: int, y: int| on_screen(x, y) ==> #[trigger] screen.at(x, y) == color,
    {
        let mut pixels: Vec<Vec<u8>> = Vec::new();
        let mut y: isize = 0;
        while y < SCREEN_HEIGHT
            invariant
                0 <= y <= SCREEN_HEIGHT,
                pixels@.len() == y,
                forall|j: int| 0 <= j < y ==> (#[trigger] pixels@[j])@.len() == SCREEN_WIDTH,
                forall|i: int, j: int| 0 <= i < SCREEN_WIDTH && 0 <= j < y
                    ==> (#[trigger] pixels@[j]@[i]) == color,
            decreases SCREEN_HEIGHT - y,
        {
            let mut line: Vec<u8> = Vec::new();
            let mut x: isize = 0;
            while x < SCREEN_WIDTH
                invariant
                    0 <= x <= SCREEN_WIDTH,
                    line@.len() == x,
                    forall|i: int| 0 <= i < x ==> (#[trigger] line@[i]) == color,
                decreases SCREEN_WIDTH - x,
            {
                line.push(color);
                x += 1;
            }
            pixels.push(line);
            y += 1;
        }
        Screen { pixels }
    }

    /// Sets the pixel at `(x, y)`.
    pub fn set_pixel(&mut self, x: usize, y: usize, color: u8)
        requires
            old(self).wf(),
            on_screen(x as int, y as int),
        ensures
            final(self).wf(),
            forall|i: int, j: int|
                on_screen(i, j) ==> #[trigger] final(self).at(i, j) == (if i == x && j == y {
                    color
                } else {
                    old(self).at(i, j)
                }),
    {
        self.pixels[y][x] = color;
    }

    /// Reads the pixel at `(x, y)`.
    pub fn pixel(&self, x: usize, y: usize) -> (color: u8)
        requires
            self.wf(),
            on_screen(x as int, y as int),
        ensures
            color == self.at(x as int, y as int),
    {
        self.pixels[y][x]
    }

    /// Sets every pixel to `color`.
    pub fn clear_screen(&mut self, color: u8)
        ensures
            final(self).wf(),
            forall|x: int, y: int| on_screen(x, y) ==> #[trigger] final(self).at(x, y) == color,
    {
        *self = Screen::new(color);
    }
}

/// The invariant of the stack of sheets, over the sheet at each level and
/// the level of each sheet (-1 for a hidden one): the sheet at level `h`
/// knows that its level is `h`, and a sheet with a level stands at that
/// level.
pub open spec fn z_ordered(stack: Seq<usize>, heights: Seq<int>) -> bool {
    &&& forall|h: int|
        0 <= h < stack.len() ==> (#[trigger] stack[h]) < heights.len() && heights[stack[h] as int] == h
    &&& forall|id: int|
        0 <= id < heights.len() ==> -1 <= (#[trigger] heights[id]) < stack.len() && (heights[id] >= 0
            ==> stack[heights[id]] == id)
}

/// In an ordered stack every visible sheet stands exactly once, at its own
/// level, and only visible sheets stand in it.
pub proof fn lemma_z_ordered_once(stack: Seq<usize>, heights: Seq<int>)
    requires
        z_ordered(stack, heights),
    ensures
        stack.no_duplicates(),
        forall|id: usize|
            id < heights.len() && heights[id as int] >= 0 ==> stack.contains(id) && stack.index_of(id)
                == heights[id as int],
        forall|id: usize| id < heights.len() && heights[id as int] < 0 ==> !stack.contains(id),
        forall|h: int| 0 <= h < stack.len() ==> heights[(#[trigger] stack[h]) as int] >= 0,
{
    assert forall|id: usize| id < heights.len() && heights[id as int] >= 0 implies stack.contains(id)
        && stack.index_of(id) == heights[id as int] by {
        assert(stack[heights[id as int]] == id);
        let k = stack.index_of(id);
        assert(stack[k] == id);
    }
    assert forall|id: usize| id < heights.len() && heights[id as int] < 0 implies !stack.contains(
        id,
    ) by {
        if stack.contains(id) {
            let k = stack.index_of(id);
            assert(stack[k] == id);
        }
    }
}

/// A sequence without duplicates whose items are all below `n` has at most
/// `n` items.
pub proof fn lemma_distinct_bounded(s: Seq<usize>, n: nat)
    requires
        s.no_duplicates(),
        forall|i: int| 0 <= i < s.len() ==> (#[trigger] s[i]) < n,
    ensures
        s.len() <= n,
    decreases n,
{
    if n == 0 {
        if s.len() > 0 {
            assert(s[0] < 0);
        }
    } else {
        let last = (n - 1) as usize;
        if s.contains(last) {
            let k = s.index_of(last);
            let rest = s.remove(k);
            assert forall|i: int| 0 <= i < rest.len() implies (#[trigger] rest[i]) < n - 1 by {
                if i < k {
                    assert(rest[i] == s[i]);
                } else {
                    assert(rest[i] == s[i + 1]);
                }
            }
            assert(rest.no_duplicates()) by {
                assert forall|i: int, j: int|
                    0 <= i < rest.len() && 0 <= j < rest.len() && i != j implies rest[i] != rest[j] by {
                    let i0 = if i < k { i } else { i + 1 };
                    let j0 = if j < k { j } else { j + 1 };
                    assert(rest[i] == s[i0]);
                    assert(rest[j] == s[j0]);
                }
            }
            lemma_distinct_bounded(rest, (n - 1) as nat);
        } else {
            assert forall|i: int| 0 <= i < s.len() implies (#[trigger] s[i]) < n - 1 by {
                assert(s.contains(s[i]));
            }
            lemma_distinct_bounded(s, (n - 1) as nat);
        }
    }
}

/// The stack without sheet `id`.
pub open spec fn stack_without(stack: Seq<usize>, id: usize) -> Seq<usize> {
    if stack.contains(id) {
        stack.remove(stack.index_of(id))
    } else {
        stack
    }
}

/// The stack after sheet `id` is asked to stand at level `requested`.
///
/// The sheet leaves the stack, the request is limited to the range from -1
/// to the number of the other sheets in the stack, and the sheet goes in
/// again at that level unless the level is -1. The sheets that stood at or
/// above that level stand one level higher than they would without it.
pub open spec fn stack_after_change(stack: Seq<usize>, id: usize, requested: int) -> Seq<usize> {
    let others = stack_without(stack, id);
    let level = clip_spec(requested, -1, others.len() as int);
    if level < 0 {
        others
    } else {
        others.insert(level, id)
    }
}

/// Whether column `x` is one of the columns from `r.0` up to `r.1` and row
/// `y` one of the rows from `r.2` up to `r.3`.
pub open spec fn in_range(r: (isize, isize, isize, isize), x: int, y: int) -> bool {
    r.0 <= x < r.1 && r.2 <= y < r.3
}

/// Whether one of the first `n` areas holds `(x, y)`.
pub open spec fn pending(areas: Seq<Area>, n: int, x: int, y: int) -> bool
    decreases n,
{
    n > 0 && (in_area(areas[n - 1], x, y) || pending(areas, n - 1, x, y))
}

/// Whether the sheets of `after` are those of `before` but for their levels.
pub open spec fn only_heights_changed(before: Seq<Sheet>, after: Seq<Sheet>) -> bool {
    &&& after.len() == before.len()
    &&& forall|i: int|
        0 <= i < before.len() ==> #[trigger] after[i] == (Sheet { height: after[i].height, ..before[i] })
}

/// The compositor: the pool of sheets, their stack, the map of pixel owners
/// and the screen.
pub struct SheetControl {
    /// The image that the sheets are painted to.
    pub screen: Screen,
    /// The pool of sheets.
    pub sheets: Vec<Sheet>,
    /// For each level from 0 to `top`, the index of the sheet at that level.
    pub height_to_sheets_idx: [usize; MAX_WIN_NUM],
    /// The highest level in use, -1 while no sheet is visible.
    pub top: isize,
    /// For each screen pixel the level that owns it, -1 for none.
    pub map: Vec<Vec<isize>>,
}

impl SheetControl {
    /// The sheets of the stack, lowest first.
    pub open spec fn stack(self) -> Seq<usize> {
        self.height_to_sheets_idx@.subrange(0, self.top + 1)
    }

    /// The level of each sheet of the pool, by index.
    pub open spec fn heights(self) -> Seq<int> {
        Seq::new(self.sheets@.len(), |i: int| self.sheets@[i].height as int)
    }

    /// The sheet at level `h`.
    pub open spec fn sheet_at(self, h: int) -> Sheet {
        self.sheets@[self.height_to_sheets_idx@[h] as int]
    }

    /// The level that owns screen pixel `(x, y)` according to the map.
    pub open spec fn owner(self, x: int, y: int) -> int {
        self.map@[y]@[x] as int
    }

    /// The compositor's invariant.
    pub open spec fn wf(self) -> bool {
        &&& self.screen.wf()
        &&& self.sheets@.len() == MAX_WIN_NUM
        &&& forall|i: int| 0 <= i < MAX_WIN_NUM ==> (#[trigger] self.sheets@[i]).wf()
        &&& forall|i: int| 0 <= i < MAX_WIN_NUM ==> (#[trigger] self.sheets@[i]).positioned()
        &&& -1 <= self.top < MAX_WIN_NUM
        &&& z_ordered(self.stack(), self.heights())
        &&& self.map@.len() == SCREEN_HEIGHT
        &&& forall|y: int| 0 <= y < SCREEN_HEIGHT ==> (#[trigger] self.map@[y])@.len() == SCREEN_WIDTH
    }

    /// A compositor over `screen` with no sheet in use and no pixel owned.
    pub fn new(screen: Screen) -> (ctl: Self)
        requires
            screen.wf(),
        ensures
            ctl.wf(),
            ctl.screen == screen,
            ctl.top == -1,
            forall|i: int| 0 <= i < MAX_WIN_NUM ==> (#[trigger] ctl.sheets@[i]).is_blank(),
            forall|x: int, y: int| on_screen(x, y) ==> #[trigger] ctl.owner(x, y) == -1,
    {
        let mut sheets: Vec<Sheet> = Vec::with_capacity(MAX_WIN_NUM);
        let mut i: usize = 0;
        while i < MAX_WIN_NUM
            invariant
                i <= MAX_WIN_NUM,
                sheets@.len() == i,
                forall|k: int|
                    0 <= k < i ==> (#[trigger] sheets@[k]).wf() && sheets@[k].positioned()
                        && sheets@[k].is_blank(),
            decreases MAX_WIN_NUM - i,
        {
            sheets.push(Sheet::new((0, 0), (0, 0), (0, 0)));
            i += 1;
        }
        let mut map: Vec<Vec<isize>> = Vec::new();
        let mut y: isize = 0;
        while y < SCREEN_HEIGHT
            invariant
                0 <= y <= SCREEN_HEIGHT,
                map@.len() == y,
                forall|j: int| 0 <= j < y ==> (#[trigger] map@[j])@.len() == SCREEN_WIDTH,
                forall|i: int, j: int| 0 <= i < SCREEN_WIDTH && 0 <= j < y ==> (#[trigger] map@[j]@[i]) == -1,
            decreases SCREEN_HEIGHT - y,
        {
            let mut line: Vec<isize> = Vec::new();
            let mut x: isize = 0;
            while x < SCREEN_WIDTH
                invariant
                    0 <= x <= SCREEN_WIDTH,
                    line@.len() == x,
                    forall|i: int| 0 <= i < x ==> (#[trigger] line@[i]) == -1,
                decreases SCREEN_WIDTH - x,
            {
                line.push(-1);
                x += 1;
            }
            map.push(line);
            y += 1;
        }
        Self { screen, sheets, height_to_sheets_idx: [0; MAX_WIN_NUM], top: -1, map }
    }

    /// Moves the visible sheet `idx` from level `from` down to level `to`:
    /// the sheets between go up by one level.
    fn lower_sheet(&mut self, idx: usize, from: usize, to: usize)
        requires
            old(self).wf(),
            idx < MAX_WIN_NUM,
            to < from <= old(self).top,
            old(self).sheets@[idx as int].height == from,
        ensures
            final(self).wf(),
            final(self).screen == old(self).screen,
            final(self).map == old(self).map,
            final(self).top == old(self).top,
            only_heights_changed(old(self).sheets@, final(self).sheets@),
            final(self).stack() == old(self).stack().remove(from as int).insert(to as int, idx),
    {
        let ghost o = *self;
        let ghost a0 = self.height_to_sheets_idx@;
        assert(a0[from as int] == idx) by {
            assert(o.heights()[idx as int] == from);
            assert(o.stack()[from as int] == idx);
        }
        self.sheets[idx].height = to as i32;
        let mut h: usize = from;
        while h > to
            invariant
                o.wf(),
                o == *old(self),
                a0 == o.height_to_sheets_idx@,
                idx < MAX_WIN_NUM,
                to <= h <= from <= o.top,
                o.sheets@[idx as int].height == from,
                self.screen == o.screen,
                self.map == o.map,
                self.top == o.top,
                self.sheets@.len() == MAX_WIN_NUM,
                forall|k: int|
                    0 <= k < MAX_WIN_NUM ==> #[trigger] self.height_to_sheets_idx@[k] == (if h < k <= from {
                        a0[k - 1]
                    } else {
                        a0[k]
                    }),
                forall|i: int|
                    0 <= i < MAX_WIN_NUM ==> #[trigger] self.sheets@[i] == (Sheet {
                        height: (if i == idx {
                            to as int
                        } else if h <= o.sheets@[i].height < from {
                            o.sheets@[i].height + 1
                        } else {
                            o.sheets@[i].height as int
                        }) as i32,
                        ..o.sheets@[i]
                    }),
            decreases h,
        {
            let ghost prev = *self;
            self.height_to_sheets_idx[h] = self.height_to_sheets_idx[h - 1];
            let id = self.height_to_sheets_idx[h];
            assert(id == a0[h - 1] && id == o.stack()[h - 1]);
            assert(o.heights()[id as int] == h - 1);
            self.sheets[id].height = h as i32;
            proof {
                assert forall|i: int| 0 <= i < MAX_WIN_NUM implies #[trigger] self.sheets@[i] == (Sheet {
                    height: (if i == idx {
                        to as int
                    } else if h - 1 <= o.sheets@[i].height < from {
                        o.sheets@[i].height + 1
                    } else {
                        o.sheets@[i].height as int
                    }) as i32,
                    ..o.sheets@[i]
                }) by {
                    assert(self.sheets@[i] == if i == id { self.sheets@[id as int] } else { prev.sheets@[i] });
                    if i != id && o.sheets@[i].height == h - 1 {
                        assert(o.heights()[i] == h - 1);
                        assert(o.stack()[h - 1] == i);
                    }
                }
            }
            h -= 1;
        }
        self.height_to_sheets_idx[to] = idx;
        proof {
            let target = o.stack().remove(from as int).insert(to as int, idx);
            assert(self.stack() =~= target);
            lemma_z_ordered_once(o.stack(), o.heights());
            assert forall|k: int| 0 <= k < self.stack().len() implies (#[trigger] self.stack()[k])
                < self.heights().len() && self.heights()[self.stack()[k] as int] == k by {
                if k < to || k > from {
                    assert(self.stack()[k] == o.stack()[k]);
                    assert(o.heights()[o.stack()[k] as int] == k);
                } else if k > to {
                    assert(self.stack()[k] == o.stack()[k - 1]);
                    assert(o.heights()[o.stack()[k - 1] as int] == k - 1);
                }
            }
            assert forall|i: int| 0 <= i < self.heights().len() implies -1 <= (#[trigger] self.heights()[i])
                < self.stack().len() && (self.heights()[i] >= 0 ==> self.stack()[self.heights()[i]] == i) by {
                assert(-1 <= o.heights()[i] < o.stack().len());
                if o.heights()[i] >= 0 {
                    assert(o.stack()[o.heights()[i]] == i);
                }
            }
            assert forall|i: int| 0 <= i < MAX_WIN_NUM implies (#[trigger] self.sheets@[i]).wf() by {
                assert(o.sheets@[i].wf());
            }
        }
    }

    /// Moves the visible sheet `idx` from level `from` up to level `to`: the
    /// sheets between go down by one level.
    fn raise_sheet(&mut self, idx: usize, from: usize, to: usize)
        requires
            old(self).wf(),
            idx < MAX_WIN_NUM,
            from < to <= old(self).top,
            old(self).sheets@[idx as int].height == from,
        ensures
            final(self).wf(),
            final(self).screen == old(self).screen,
            final(self).map == old(self).map,
            final(self).top == old(self).top,
            only_heights_changed(old(self).sheets@, final(self).sheets@),
            final(self).stack() == old(self).stack().remove(from as int).insert(to as int, idx),
    {
        let ghost o = *self;
        let ghost a0 = self.height_to_sheets_idx@;
        assert(a0[from as int] == idx) by {
            assert(o.heights()[idx as int] == from);
            assert(o.stack()[from as int] == idx);
        }
        self.sheets[idx].height = to as i32;
        self.shift_down(idx, from, to, Ghost(o));
        self.height_to_sheets_idx[to] = idx;
        proof {
            let target = o.stack().remove(from as int).insert(to as int, idx);
            assert(self.stack() =~= target);
            lemma_z_ordered_once(o.stack(), o.heights());
            assert forall|k: int| 0 <= k < self.stack().len() implies (#[trigger] self.stack()[k])
                < self.heights().len() && self.heights()[self.stack()[k] as int] == k by {
                if k < from || k > to {
                    assert(self.stack()[k] == o.stack()[k]);
                    assert(o.heights()[o.stack()[k] as int] == k);
                } else if k < to {
                    assert(self.stack()[k] == o.stack()[k + 1]);
                    assert(o.heights()[o.stack()[k + 1] as int] == k + 1);
                }
            }
            assert forall|i: int| 0 <= i < self.heights().len() implies -1 <= (#[trigger] self.heights()[i])
                < self.stack().len() && (self.heights()[i] >= 0 ==> self.stack()[self.heights()[i]] == i) by {
                assert(-1 <= o.heights()[i] < o.stack().len());
                if o.heights()[i] >= 0 {
                    assert(o.stack()[o.heights()[i]] == i);
                }
            }
            assert forall|i: int| 0 <= i < MAX_WIN_NUM implies (#[trigger] self.sheets@[i]).wf()
                && self.sheets@[i].positioned() by {
                assert(o.sheets@[i].wf() && o.sheets@[i].positioned());
            }
        }
    }

    /// Takes the visible sheet `idx` out of the stack: the sheets above it
    /// go down by one level.
    fn hide_sheet(&mut self, idx: usize, from: usize)
        requires
            old(self).wf(),
            idx < MAX_WIN_NUM,
            from <= old(self).top,
            old(self).sheets@[idx as int].height == from,
        ensures
            final(self).wf(),
            final(self).screen == old(self).screen,
            final(self).map == old(self).map,
            final(self).top == old(self).top - 1,
            only_heights_changed(old(self).sheets@, final(self).sheets@),
            final(self).stack() == old(self).stack().remove(from as int),
    {
        let ghost o = *self;
        let ghost a0 = self.height_to_sheets_idx@;
        assert(a0[from as int] == idx) by {
            assert(o.heights()[idx as int] == from);
            assert(o.stack()[from as int] == idx);
        }
        self.sheets[idx].height = -1;
        let top = self.top as usize;
        self.shift_down(idx, from, top, Ghost(o));
        self.top -= 1;
        proof {
            let target = o.stack().remove(from as int);
            assert(self.stack() =~= target);
            lemma_z_ordered_once(o.stack(), o.heights());
            assert forall|k: int| 0 <= k < self.stack().len() implies (#[trigger] self.stack()[k])
                < self.heights().len() && self.heights()[self.stack()[k] as int] == k by {
                if k < from {
                    assert(self.stack()[k] == o.stack()[k]);
                    assert(o.heights()[o.stack()[k] as int] == k);
                } else {
                    assert(self.stack()[k] == o.stack()[k + 1]);
                    assert(o.heights()[o.stack()[k + 1] as int] == k + 1);
                }
            }
            assert forall|i: int| 0 <= i < self.heights().len() implies -1 <= (#[trigger] self.heights()[i])
                < self.stack().len() && (self.heights()[i] >= 0 ==> self.stack()[self.heights()[i]] == i) by {
                assert(-1 <= o.heights()[i] < o.stack().len());
                if o.heights()[i] >= 0 {
                    assert(o.stack()[o.heights()[i]] == i);
                }
            }
            assert forall|i: int| 0 <= i < MAX_WIN_NUM implies (#[trigger] self.sheets@[i]).wf()
                && self.sheets@[i].positioned() by {
                assert(o.sheets@[i].wf() && o.sheets@[i].positioned());
            }
        }
    }

    /// Moves the sheets of the levels above `from`, up to `to`, down by one
    /// level each. `o` is the compositor before sheet `idx` left level `from`.
    fn shift_down(&mut self, idx: usize, from: usize, to: usize, Ghost(o): Ghost<SheetControl>)
        requires
            o.wf(),
            idx < MAX_WIN_NUM,
            from <= to <= o.top,
            o.sheets@[idx as int].height == from,
            old(self).screen == o.screen,
            old(self).map == o.map,
            old(self).top == o.top,
            old(self).height_to_sheets_idx == o.height_to_sheets_idx,
            old(self).sheets@.len() == MAX_WIN_NUM,
            forall|i: int|
                0 <= i < MAX_WIN_NUM && i != idx ==> #[trigger] old(self).sheets@[i] == o.sheets@[i],
            old(self).sheets@[idx as int] == (Sheet {
                height: old(self).sheets@[idx as int].height,
                ..o.sheets@[idx as int]
            }),
        ensures
            final(self).screen == o.screen,
            final(self).map == o.map,
            final(self).top == o.top,
            final(self).sheets@.len() == MAX_WIN_NUM,
            forall|k: int|
                0 <= k < MAX_WIN_NUM ==> #[trigger] final(self).height_to_sheets_idx@[k] == (if from <= k
                    < to {
                    o.height_to_sheets_idx@[k + 1]
                } else {
                    o.height_to_sheets_idx@[k]
                }),
            forall|i: int|
                0 <= i < MAX_WIN_NUM ==> #[trigger] final(self).sheets@[i] == (Sheet {
                    height: (if i == idx {
                        old(self).sheets@[idx as int].height as int
                    } else if from < o.sheets@[i].height <= to {
                        o.sheets@[i].height - 1
                    } else {
                        o.sheets@[i].height as int
                    }) as i32,
                    ..o.sheets@[i]
                }),
    {
        let ghost a0 = o.height_to_sheets_idx@;
        let mut h: usize = from;
        while h < to
            invariant
                o.wf(),
                idx < MAX_WIN_NUM,
                from <= h <= to <= o.top,
                o.sheets@[idx as int].height == from,
                a0 == o.height_to_sheets_idx@,
                self.screen == o.screen,
                self.map == o.map,
                self.top == o.top,
                self.sheets@.len() == MAX_WIN_NUM,
                forall|k: int|
                    0 <= k < MAX_WIN_NUM ==> #[trigger] self.height_to_sheets_idx@[k] == (if from <= k < h {
                        a0[k + 1]
                    } else {
                        a0[k]
                    }),
                forall|i: int|
                    0 <= i < MAX_WIN_NUM ==> #[trigger] self.sheets@[i] == (Sheet {
                        height: (if i == idx {
                            old(self).sheets@[idx as int].height as int
                        } else if from < o.sheets@[i].height <= h {
                            o.sheets@[i].height - 1
                        } else {
                            o.sheets@[i].height as int
                        }) as i32,
                        ..o.sheets@[i]
                    }),
            decreases to - h,
        {
            let ghost prev = *self;
            self.height_to_sheets_idx[h] = self.height_to_sheets_idx[h + 1];
            let id = self.height_to_sheets_idx[h];
            assert(id == a0[h + 1] && id == o.stack()[h + 1]);
            assert(o.heights()[id as int] == h + 1);
            self.sheets[id].height = h as i32;
            proof {
                assert forall|i: int| 0 <= i < MAX_WIN_NUM implies #[trigger] self.sheets@[i] == (Sheet {
                    height: (if i == idx {
                        old(self).sheets@[idx as int].height as int
                    } else if from < o.sheets@[i].height <= h + 1 {
                        o.sheets@[i].height - 1
                    } else {
                        o.sheets@[i].height as int
                    }) as i32,
                    ..o.sheets@[i]
                }) by {
                    assert(self.sheets@[i] == if i == id { self.sheets@[id as int] } else { prev.sheets@[i] });
                    if i != id && o.sheets@[i].height == h + 1 {
                        assert(o.heights()[i] == h + 1);
                        assert(o.stack()[h + 1] == i);
                    }
                }
            }
            h += 1;
        }
    }

    /// Puts the hidden sheet `idx` into the stack at level `to`: the sheets
    /// at that level and above go up by one level.
    fn show_sheet(&mut self, idx: usize, to: usize)
        requires
            old(self).wf(),
            idx < MAX_WIN_NUM,
            to <= old(self).top + 1,
            old(self).sheets@[idx as int].height == -1,
        ensures
            final(self).wf(),
            final(self).screen == old(self).screen,
            final(self).map == old(self).map,
            final(self).top == old(self).top + 1,
            only_heights_changed(old(self).sheets@, final(self).sheets@),
            final(self).stack() == old(self).stack().insert(to as int, idx),
    {
        let ghost o = *self;
        let ghost a0 = self.height_to_sheets_idx@;
        proof {
            lemma_z_ordered_once(o.stack(), o.heights());
            assert(o.heights()[idx as int] == -1);
            assert(!o.stack().contains(idx));
            let with_idx = o.stack().push(idx);
            assert(with_idx.no_duplicates()) by {
                assert forall|i: int, j: int|
                    0 <= i < with_idx.len() && 0 <= j < with_idx.len() && i != j implies with_idx[i]
                    != with_idx[j] by {
                    if i < o.stack().len() {
                        assert(o.stack().contains(with_idx[i]));
                    }
                    if j < o.stack().len() {
                        assert(o.stack().contains(with_idx[j]));
                    }
                }
            }
            assert forall|i: int| 0 <= i < with_idx.len() implies (#[trigger] with_idx[i]) < MAX_WIN_NUM by {
                if i < o.stack().len() {
                    assert(with_idx[i] == o.stack()[i]);
                }
            }
            lemma_distinct_bounded(with_idx, MAX_WIN_NUM as nat);
        }
        self.sheets[idx].height = to as i32;
        let mut h: usize = (self.top + 1) as usize;
        proof {
            assert forall|i: int| 0 <= i < MAX_WIN_NUM implies #[trigger] self.sheets@[i] == (Sheet {
                height: (if i == idx {
                    to as int
                } else {
                    o.sheets@[i].height as int
                }) as i32,
                ..o.sheets@[i]
            }) && o.sheets@[i].height < h by {
                assert(-1 <= o.heights()[i] < o.stack().len());
            }
        }
        while h > to
            invariant
                o.wf(),
                o == *old(self),
                a0 == o.height_to_sheets_idx@,
                idx < MAX_WIN_NUM,
                to <= h <= o.top + 1 < MAX_WIN_NUM,
                o.sheets@[idx as int].height == -1,
                self.screen == o.screen,
                self.map == o.map,
                self.top == o.top,
                self.sheets@.len() == MAX_WIN_NUM,
                forall|k: int|
                    0 <= k < MAX_WIN_NUM ==> #[trigger] self.height_to_sheets_idx@[k] == (if h < k <= o.top
                        + 1 {
                        a0[k - 1]
                    } else {
                        a0[k]
                    }),
                forall|i: int|
                    0 <= i < MAX_WIN_NUM ==> #[trigger] self.sheets@[i] == (Sheet {
                        height: (if i == idx {
                            to as int
                        } else if h <= o.sheets@[i].height {
                            o.sheets@[i].height + 1
                        } else {
                            o.sheets@[i].height as int
                        }) as i32,
                        ..o.sheets@[i]
                    }),
            decreases h,
        {
            let ghost prev = *self;
            self.height_to_sheets_idx[h] = self.height_to_sheets_idx[h - 1];
            let id = self.height_to_sheets_idx[h];
            assert(id == a0[h - 1] && id == o.stack()[h - 1]);
            assert(o.heights()[id as int] == h - 1);
            self.sheets[id].height = h as i32;
            proof {
                assert forall|i: int| 0 <= i < MAX_WIN_NUM implies #[trigger] self.sheets@[i] == (Sheet {
                    height: (if i == idx {
                        to as int
                    } else if h - 1 <= o.sheets@[i].height {
                        o.sheets@[i].height + 1
                    } else {
                        o.sheets@[i].height as int
                    }) as i32,
                    ..o.sheets@[i]
                }) by {
                    assert(self.sheets@[i] == if i == id { self.sheets@[id as int] } else { prev.sheets@[i] });
                    assert(-1 <= o.heights()[i] < o.stack().len());
                    if i != id && o.sheets@[i].height == h - 1 {
                        assert(o.heights()[i] == h - 1);
                        assert(o.stack()[h - 1] == i);
                    }
                }
            }
            h -= 1;
        }
        self.height_to_sheets_idx[to] = idx;
        self.top += 1;
        proof {
            let target = o.stack().insert(to as int, idx);
            assert(self.stack() =~= target);
            assert forall|k: int| 0 <= k < self.stack().len() implies (#[trigger] self.stack()[k])
                < self.heights().len() && self.heights()[self.stack()[k] as int] == k by {
                if k < to {
                    assert(self.stack()[k] == o.stack()[k]);
                    assert(o.heights()[o.stack()[k] as int] == k);
                } else if k > to {
                    assert(self.stack()[k] == o.stack()[k - 1]);
                    assert(o.heights()[o.stack()[k - 1] as int] == k - 1);
                }
            }
            assert forall|i: int| 0 <= i < self.heights().len() implies -1 <= (#[trigger] self.heights()[i])
                < self.stack().len() && (self.heights()[i] >= 0 ==> self.stack()[self.heights()[i]] == i) by {
                assert(-1 <= o.heights()[i] < o.stack().len());
                if o.heights()[i] >= 0 {
                    assert(o.stack()[o.heights()[i]] == i);
                }
            }
            assert forall|i: int| 0 <= i < MAX_WIN_NUM implies (#[trigger] self.sheets@[i]).wf()
                && self.sheets@[i].positioned() by {
                assert(o.sheets@[i].wf() && o.sheets@[i].positioned());
            }
        }
    }

    /// Puts sheet `idx_to_move` at level `new_height` of the stack, or hides
    /// it if the level is -1 or below.
    ///
    /// The level is limited to the number of the other visible sheets, so
    /// that the stack stays without gaps. The sheets between the old and the
    /// new level move by one level to make room; no other sheet moves.
    /// Neither the map nor the screen is refreshed.
    pub fn change_sheet_height(&mut self, idx_to_move: usize, new_height: i32)
        requires
            old(self).wf(),
            idx_to_move < MAX_WIN_NUM,
        ensures
            final(self).wf(),
            final(self).screen == old(self).screen,
            final(self).map == old(self).map,
            only_heights_changed(old(self).sheets@, final(self).sheets@),
            final(self).stack() == stack_after_change(old(self).stack(), idx_to_move, new_height as int),
    {
        proof {
            lemma_z_ordered_once(self.stack(), self.heights());
            assert(self.heights()[idx_to_move as int] == self.sheets@[idx_to_move as int].height);
            assert(-1 <= self.heights()[idx_to_move as int] < self.stack().len());
        }
        let old_height = self.sheets[idx_to_move].height;
        let ceiling = if old_height >= 0 {
            self.top
        } else {
            self.top + 1
        };
        let new_height = clip(new_height as isize, -1, ceiling);
        let ghost stack = self.stack();
        if new_height < old_height as isize {
            if new_height > -1 {
                self.lower_sheet(idx_to_move, old_height as usize, new_height as usize);
            } else {
                self.hide_sheet(idx_to_move, old_height as usize);
            }
        } else if (old_height as isize) < new_height {
            if old_height >= 0 {
                self.raise_sheet(idx_to_move, old_height as usize, new_height as usize);
            } else {
                self.show_sheet(idx_to_move, new_height as usize);
            }
        } else {
            proof {
                if old_height >= 0 {
                    assert(stack.remove(old_height as int).insert(old_height as int, idx_to_move) =~= stack);
                }
                assert forall|i: int| 0 <= i < self.sheets@.len() implies #[trigger] self.sheets@[i] == (Sheet {
                    height: self.sheets@[i].height,
                    ..self.sheets@[i]
                }) by {}
            }
        }
    }

    /// Takes the unused sheet with the lowest index from the pool: it is
    /// marked as used and hidden, and gets the size `size` and a buffer
    /// filled with its background color. Returns `None`, and changes
    /// nothing, when every sheet of the pool is in use.
    pub fn allocate(&mut self, size: Point) -> (res: Option<usize>)
        requires
            old(self).wf(),
            valid_size(size),
        ensures
            final(self).wf(),
            final(self).screen == old(self).screen,
            final(self).map == old(self).map,
            res is None <==> forall|i: int| 0 <= i < MAX_WIN_NUM ==> (#[trigger] old(self).sheets@[i]).used,
            res is None ==> *final(self) == *old(self),
            res matches Some(id) ==> {
                &&& id < MAX_WIN_NUM
                &&& !old(self).sheets@[id as int].used
                &&& forall|k: int| 0 <= k < id ==> (#[trigger] old(self).sheets@[k]).used
                &&& final(self).stack() == stack_without(old(self).stack(), id)
                &&& final(self).sheets@[id as int] == (Sheet {
                    used: true,
                    height: -1i32,
                    size,
                    buf: final(self).sheets@[id as int].buf,
                    ..old(self).sheets@[id as int]
                })
                &&& final(self).sheets@[id as int].filled_with(Some(old(self).sheets@[id as int].background))
                &&& forall|i: int|
                    0 <= i < MAX_WIN_NUM && i != id ==> #[trigger] final(self).sheets@[i] == (Sheet {
                        height: final(self).sheets@[i].height,
                        ..old(self).sheets@[i]
                    })
            },
    {
        let mut i: usize = 0;
        while i < MAX_WIN_NUM
            invariant
                i <= MAX_WIN_NUM,
                *self == *old(self),
                self.wf(),
                valid_size(size),
                forall|k: int| 0 <= k < i ==> (#[trigger] self.sheets@[k]).used,
            decreases MAX_WIN_NUM - i,
        {
            if !self.sheets[i].used {
                proof {
                    lemma_z_ordered_once(self.stack(), self.heights());
                    assert(self.heights()[i as int] == self.sheets@[i as int].height);
                }
                if self.sheets[i].height >= 0 {
                    self.change_sheet_height(i, -1);
                }
                let ghost hidden = *self;
                assert(hidden.stack() == stack_without(old(self).stack(), i));
                assert(hidden.sheets@[i as int].height == -1) by {
                    lemma_z_ordered_once(hidden.stack(), hidden.heights());
                    assert(hidden.heights()[i as int] == hidden.sheets@[i as int].height);
                    if old(self).sheets@[i as int].height >= 0 {
                        assert(!hidden.stack().contains(i)) by {
                            lemma_removed_absent(old(self).stack(), i);
                        }
                    }
                }
                assert(hidden.sheets@[i as int].wf() && hidden.sheets@[i as int].positioned());
                self.sheets[i].used = true;
                self.sheets[i].height = -1;
                self.sheets[i].adjust(size);
                proof {
                    assert(self.heights() =~= hidden.heights());
                    assert forall|k: int| 0 <= k < MAX_WIN_NUM implies (#[trigger] self.sheets@[k]).wf()
                        && self.sheets@[k].positioned() by {
                        if k != i {
                            assert(self.sheets@[k] == hidden.sheets@[k]);
                            assert(hidden.sheets@[k].wf() && hidden.sheets@[k].positioned());
                        }
                    }
                }
                return Some(i);
            }
            i += 1;
        }
        return None;
    }

    /// Returns sheet `sheet_id` to the pool: the sheet is hidden if it is
    /// visible, and marked as unused.
    pub fn free(&mut self, sheet_id: usize)
        requires
            old(self).wf(),
            sheet_id < MAX_WIN_NUM,
        ensures
            final(self).wf(),
            final(self).screen == old(self).screen,
            final(self).map == old(self).map,
            final(self).stack() == stack_without(old(self).stack(), sheet_id),
            final(self).sheets@.len() == MAX_WIN_NUM,
            !final(self).sheets@[sheet_id as int].used,
            forall|i: int|
                0 <= i < MAX_WIN_NUM ==> #[trigger] final(self).sheets@[i] == (Sheet {
                    height: final(self).sheets@[i].height,
                    used: i != sheet_id && old(self).sheets@[i].used,
                    ..old(self).sheets@[i]
                }),
    {
        proof {
            lemma_z_ordered_once(self.stack(), self.heights());
            assert(self.heights()[sheet_id as int] == self.sheets@[sheet_id as int].height);
        }
        if self.sheets[sheet_id].height >= 0 {
            self.change_sheet_height(sheet_id, -1);
        }
        let ghost hidden = *self;
        self.sheets[sheet_id].used = false;
        proof {
            assert(self.heights() =~= hidden.heights());
            assert forall|k: int| 0 <= k < MAX_WIN_NUM implies (#[trigger] self.sheets@[k]).wf()
                && self.sheets@[k].positioned() by {
                assert(hidden.sheets@[k].wf() && hidden.sheets@[k].positioned());
            }
        }
    }

    /// Whether `(x, y)` lies in the area of a refresh: everywhere, when no
    /// area is given.
    pub open spec fn within(area: Option<Area>, x: int, y: int) -> bool {
        match area {
            Some(a) => in_area(a, x, y),
            None => true,
        }
    }

    /// What a refresh over `area` takes from level `h` at screen pixel
    /// `(x, y)`: the color that the sheet of that level shows there, or
    /// nothing outside the area.
    pub open spec fn drawn(self, h: int, area: Option<Area>, x: int, y: int) -> Option<Color> {
        if Self::within(area, x, y) {
            self.sheet_at(h).shows(x, y)
        } else {
            None
        }
    }

    /// The highest level from `from` up to but not including `upto` that
    /// draws at `(x, y)` in a refresh over `area`, or -1 if none does.
    pub open spec fn topmost(self, area: Option<Area>, from: int, upto: int, x: int, y: int) -> int
        decreases upto - from,
    {
        if upto <= from {
            -1
        } else if self.drawn(upto - 1, area, x, y) is Some {
            upto - 1
        } else {
            self.topmost(area, from, upto - 1, x, y)
        }
    }

    /// The owner of `(x, y)` after a refresh of the map over `area` from
    /// level `from`: the highest level that draws there, or the owner as it
    /// was if no level does.
    pub open spec fn owner_after(self, area: Option<Area>, from: int, x: int, y: int) -> int {
        let level = self.topmost(area, from, self.top + 1, x, y);
        if level >= 0 {
            level
        } else {
            self.owner(x, y)
        }
    }

    /// The screen at `(x, y)` after a refresh of the screen over `area`
    /// from level `from`: the color that the owner of the pixel draws there,
    /// if the owner is at level `from` or above and draws there, or the
    /// screen as it was.
    pub open spec fn pixel_after(self, area: Option<Area>, from: int, x: int, y: int) -> u8 {
        let level = self.owner(x, y);
        if from <= level <= self.top {
            match self.drawn(level, area, x, y) {
                Some(color) => color.code(),
                None => self.screen.at(x, y),
            }
        } else {
            self.screen.at(x, y)
        }
    }

    /// `after` is this compositor with the map refreshed over `area` from
    /// level `from`.
    pub open spec fn map_refreshed(self, after: SheetControl, area: Option<Area>, from: int) -> bool {
        &&& after.screen == self.screen
        &&& after.sheets == self.sheets
        &&& after.height_to_sheets_idx == self.height_to_sheets_idx
        &&& after.top == self.top
        &&& forall|x: int, y: int|
            on_screen(x, y) ==> #[trigger] after.owner(x, y) == self.owner_after(area, from, x, y)
    }

    /// `after` is this compositor with the screen refreshed over `area`
    /// from level `from`.
    pub open spec fn screen_refreshed(self, after: SheetControl, area: Option<Area>, from: int) -> bool {
        &&& after.map == self.map
        &&& after.sheets == self.sheets
        &&& after.height_to_sheets_idx == self.height_to_sheets_idx
        &&& after.top == self.top
        &&& forall|x: int, y: int|
            on_screen(x, y) ==> #[trigger] after.screen.at(x, y) == self.pixel_after(area, from, x, y)
    }

    /// The part of the screen that a refresh over `area` reads from `sheet`:
    /// columns from the first result up to the second, rows from the third
    /// up to the fourth.
    fn refresh_range(sheet: &Sheet, refresh_area: Option<Area>) -> (r: (isize, isize, isize, isize))
        requires
            sheet.wf(),
        ensures
            forall|x: int, y: int|
                #[trigger] in_range(r, x, y) <==> (Self::within(refresh_area, x, y) && sheet.covers(x, y)),
    {
        let buffer_topleft = sheet.top_left;
        let buffer_bottomright = (sheet.top_left.0 + sheet.size.0, sheet.top_left.1 + sheet.size.1);
        match refresh_area {
            Some(area) => {
                let area_topleft = area.0;
                let area_bottomright = area.1;
                let x0 = if buffer_topleft.0 >= area_topleft.0 {
                    buffer_topleft.0
                } else {
                    area_topleft.0
                };
                let x1 = if buffer_bottomright.0 <= area_bottomright.0 {
                    buffer_bottomright.0
                } else {
                    area_bottomright.0
                };
                let y0 = if buffer_topleft.1 >= area_topleft.1 {
                    buffer_topleft.1
                } else {
                    area_topleft.1
                };
                let y1 = if buffer_bottomright.1 <= area_bottomright.1 {
                    buffer_bottomright.1
                } else {
                    area_bottomright.1
                };
                (x0, x1, y0, y1)
            },
            None => (buffer_topleft.0, buffer_bottomright.0, buffer_topleft.1, buffer_bottomright.1),
        }
    }

    /// Makes level `h` the owner of every screen pixel at which it draws in
    /// a refresh over `refresh_area`.
    fn map_level(&mut self, h: isize, refresh_area: Option<Area>)
        requires
            old(self).wf(),
            0 <= h <= old(self).top,
        ensures
            final(self).wf(),
            final(self).screen == old(self).screen,
            final(self).sheets == old(self).sheets,
            final(self).height_to_sheets_idx == old(self).height_to_sheets_idx,
            final(self).top == old(self).top,
            forall|x: int, y: int|
                on_screen(x, y) ==> #[trigger] final(self).owner(x, y) == (if old(self).drawn(
                    h as int,
                    refresh_area,
                    x,
                    y,
                ) is Some {
                    h as int
                } else {
                    old(self).owner(x, y)
                }),
    {
        let ghost o = *self;
        let idx = self.height_to_sheets_idx[h as usize];
        proof {
            assert(o.stack()[h as int] == idx);
            assert(idx < MAX_WIN_NUM);
            assert(o.sheets@[idx as int].wf());
        }
        let (x0, x1, y0, y1) = Self::refresh_range(&self.sheets[idx], refresh_area);
        let left = self.sheets[idx].top_left.0;
        let upper = self.sheets[idx].top_left.1;
        let ghost sheet = o.sheets@[idx as int];
        let mut y = y0;
        proof {
            assert forall|i: int, j: int| on_screen(i, j) implies !(o.drawn(h as int, refresh_area, i, j)
                is Some && j < y0) by {
                assert(in_range((x0, x1, y0, y1), i, j) <==> (Self::within(refresh_area, i, j)
                    && sheet.covers(i, j)));
            }
        }
        while y < y1
            invariant
                o.wf(),
                0 <= h <= o.top,
                idx < MAX_WIN_NUM,
                idx == o.height_to_sheets_idx@[h as int],
                sheet == o.sheets@[idx as int],
                sheet.wf(),
                left == sheet.top_left.0,
                upper == sheet.top_left.1,
                y0 <= y,
                forall|i: int, j: int|
                    #[trigger] in_range((x0, x1, y0, y1), i, j) <==> (Self::within(refresh_area, i, j)
                        && sheet.covers(i, j)),
                self.screen == o.screen,
                self.sheets == o.sheets,
                self.height_to_sheets_idx == o.height_to_sheets_idx,
                self.top == o.top,
                self.map@.len() == SCREEN_HEIGHT,
                forall|j: int| 0 <= j < SCREEN_HEIGHT ==> (#[trigger] self.map@[j])@.len() == SCREEN_WIDTH,
                forall|i: int, j: int|
                    on_screen(i, j) ==> #[trigger] self.owner(i, j) == (if o.drawn(
                        h as int,
                        refresh_area,
                        i,
                        j,
                    ) is Some && j < y {
                        h as int
                    } else {
                        o.owner(i, j)
                    }),
            decreases y1 - y,
        {
            let mut x = x0;
            proof {
                assert forall|i: int, j: int| on_screen(i, j) implies !(o.drawn(h as int, refresh_area, i, j)
                    is Some && j == y && i < x0) by {
                    assert(in_range((x0, x1, y0, y1), i, j) <==> (Self::within(refresh_area, i, j)
                        && sheet.covers(i, j)));
                }
            }
            while x < x1
                invariant
                    o.wf(),
                    0 <= h <= o.top,
                    idx < MAX_WIN_NUM,
                    idx == o.height_to_sheets_idx@[h as int],
                    sheet == o.sheets@[idx as int],
                    sheet.wf(),
                    left == sheet.top_left.0,
                    upper == sheet.top_left.1,
                    y0 <= y < y1,
                    x0 <= x,
                    forall|i: int, j: int|
                        #[trigger] in_range((x0, x1, y0, y1), i, j) <==> (Self::within(refresh_area, i, j)
                            && sheet.covers(i, j)),
                    self.screen == o.screen,
                    self.sheets == o.sheets,
                    self.height_to_sheets_idx == o.height_to_sheets_idx,
                    self.top == o.top,
                    self.map@.len() == SCREEN_HEIGHT,
                    forall|j: int| 0 <= j < SCREEN_HEIGHT ==> (#[trigger] self.map@[j])@.len() == SCREEN_WIDTH,
                    forall|i: int, j: int|
                        on_screen(i, j) ==> #[trigger] self.owner(i, j) == (if o.drawn(
                            h as int,
                            refresh_area,
                            i,
                            j,
                        ) is Some && (j < y || (j == y && i < x)) {
                            h as int
                        } else {
                            o.owner(i, j)
                        }),
                decreases x1 - x,
            {
                assert(in_range((x0, x1, y0, y1), x as int, y as int));
                let ghost prev = *self;
                if self.sheets[idx].buf[(y - upper) as usize][(x - left) as usize].is_some() {
                    if 0 <= x && x < SCREEN_WIDTH && 0 <= y && y < SCREEN_HEIGHT {
                        self.map[y as usize][x as usize] = h;
                    }
                }
                proof {
                    assert forall|i: int, j: int| on_screen(i, j) implies #[trigger] self.owner(i, j) == (
                    if o.drawn(h as int, refresh_area, i, j) is Some && (j < y || (j == y && i < x + 1)) {
                        h as int
                    } else {
                        o.owner(i, j)
                    }) by {
                        assert(in_range((x0, x1, y0, y1), i, j) <==> (Self::within(refresh_area, i, j)
                            && sheet.covers(i, j)));
                        if i == x && j == y {
                            assert(o.sheet_at(h as int) == sheet);
                        } else {
                            assert(self.owner(i, j) == prev.owner(i, j));
                        }
                    }
                }
                x += 1;
            }
            proof {
                assert forall|i: int, j: int| on_screen(i, j) implies #[trigger] self.owner(i, j) == (
                if o.drawn(h as int, refresh_area, i, j) is Some && j < y + 1 {
                    h as int
                } else {
                    o.owner(i, j)
                }) by {
                    assert(o.sheet_at(h as int) == sheet);
                    assert(in_range((x0, x1, y0, y1), i, j) <==> (Self::within(refresh_area, i, j)
                        && sheet.covers(i, j)));
                }
            }
            y += 1;
        }
        proof {
            assert forall|i: int, j: int| on_screen(i, j) implies #[trigger] self.owner(i, j) == (if o.drawn(
                h as int,
                refresh_area,
                i,
                j,
            ) is Some {
                h as int
            } else {
                o.owner(i, j)
            }) by {
                assert(o.sheet_at(h as int) == sheet);
                assert(in_range((x0, x1, y0, y1), i, j) <==> (Self::within(refresh_area, i, j)
                    && sheet.covers(i, j)));
            }
        }
    }

    /// Refreshes the map of pixel owners.
    ///
    /// Goes through the levels from `refreshed_sheet_height` (0 if not
    /// given) to the top. Each level becomes the owner of the screen pixels
    /// inside `refresh_area` (everywhere if not given) at which its sheet
    /// has an opaque pixel, so that the highest such level owns the pixel in
    /// the end. A pixel at which none of these levels is opaque keeps its
    /// owner.
    pub fn refresh_sheet_map(&mut self, refresh_area: Option<Area>, refreshed_sheet_height: Option<isize>)
        requires
            old(self).wf(),
            refreshed_sheet_height matches Some(h) ==> h >= 0,
        ensures
            final(self).wf(),
            old(self).map_refreshed(
                *final(self),
                refresh_area,
                match refreshed_sheet_height {
                    Some(h) => h as int,
                    None => 0,
                },
            ),
    {
        let ghost o = *self;
        let from: isize = match refreshed_sheet_height {
            Some(h) => h,
            None => 0,
        };
        let mut h = from;
        while h <= self.top
            invariant
                o.wf(),
                self.wf(),
                0 <= from <= h,
                h <= o.top + 1 || h == from,
                self.screen == o.screen,
                self.sheets == o.sheets,
                self.height_to_sheets_idx == o.height_to_sheets_idx,
                self.top == o.top,
                forall|x: int, y: int|
                    on_screen(x, y) ==> #[trigger] self.owner(x, y) == (if o.topmost(
                        refresh_area,
                        from as int,
                        h as int,
                        x,
                        y,
                    ) >= 0 {
                        o.topmost(refresh_area, from as int, h as int, x, y)
                    } else {
                        o.owner(x, y)
                    }),
            decreases o.top + 1 - h,
        {
            let ghost prev = *self;
            self.map_level(h, refresh_area);
            proof {
                assert forall|x: int, y: int| on_screen(x, y) implies #[trigger] self.owner(x, y) == (
                if o.topmost(refresh_area, from as int, h + 1, x, y) >= 0 {
                    o.topmost(refresh_area, from as int, h + 1, x, y)
                } else {
                    o.owner(x, y)
                }) by {
                    assert(prev.drawn(h as int, refresh_area, x, y) == o.drawn(h as int, refresh_area, x, y));
                    assert(self.owner(x, y) == if prev.drawn(h as int, refresh_area, x, y) is Some {
                        h as int
                    } else {
                        prev.owner(x, y)
                    });
                    o.lemma_topmost_bounds(refresh_area, from as int, h as int, x, y);
                }
            }
            h += 1;
        }
        proof {
            assert forall|x: int, y: int| on_screen(x, y) implies #[trigger] self.owner(x, y)
                == o.owner_after(refresh_area, from as int, x, y) by {
                if h > o.top + 1 {
                    o.lemma_topmost_empty(refresh_area, from as int, h as int, x, y);
                    o.lemma_topmost_empty(refresh_area, from as int, o.top + 1, x, y);
                }
            }
        }
    }

    /// Fills a box of sheet `id` with `color`, as `Sheet::boxfill` does. The
    /// screen is not refreshed.
    pub fn sheet_boxfill(&mut self, id: usize, color: Color, area: Area)
        requires
            old(self).wf(),
            id < MAX_WIN_NUM,
            old(self).sheets@[id as int].box_ok(area),
        ensures
            final(self).wf(),
            *final(self) == (SheetControl { sheets: final(self).sheets, ..*old(self) }),
            final(self).stack() == old(self).stack(),
            forall|i: int| 0 <= i < MAX_WIN_NUM && i != id ==> #[trigger] final(self).sheets@[i]
                == old(self).sheets@[i],
            final(self).sheets@[id as int] == (Sheet {
                buf: final(self).sheets@[id as int].buf,
                ..old(self).sheets@[id as int]
            }),
            forall|x: int, y: int|
                old(self).sheets@[id as int].contains(x, y)
                    ==> #[trigger] final(self).sheets@[id as int].pixel(x, y)
                    == (if in_box(area, x, y) {
                    Some(color)
                } else {
                    old(self).sheets@[id as int].pixel(x, y)
                }),
    {
        assert(self.sheets@[id as int].wf());
        self.sheets[id].boxfill(color, area);
        proof {
            lemma_sheet_edit(*old(self), *self, id as int);
        }
    }

    /// Writes `text` into sheet `id` at the sheet's cursor, as
    /// `Sheet::write_str` does. The screen is not refreshed.
    pub fn sheet_write(&mut self, id: usize, font: &Font, text: &str)
        requires
            old(self).wf(),
            font.wf(),
            id < MAX_WIN_NUM,
            old(self).sheets@[id as int].str_ok(*font, text@),
        ensures
            final(self).wf(),
            *final(self) == (SheetControl { sheets: final(self).sheets, ..*old(self) }),
            final(self).stack() == old(self).stack(),
            forall|i: int| 0 <= i < MAX_WIN_NUM && i != id ==> #[trigger] final(self).sheets@[i]
                == old(self).sheets@[i],
            final(self).sheets@[id as int] == (Sheet {
                buf: final(self).sheets@[id as int].buf,
                column_position: old(self).sheets@[id as int].cursor_after_str(text@),
                ..old(self).sheets@[id as int]
            }),
            forall|x: int, y: int|
                old(self).sheets@[id as int].contains(x, y)
                    ==> #[trigger] final(self).sheets@[id as int].pixel(x, y)
                    == old(self).sheets@[id as int].text_pixel(
                    *font,
                    text@,
                    old(self).sheets@[id as int].pixel(x, y),
                    x,
                    y,
                ),
    {
        assert(self.sheets@[id as int].wf() && self.sheets@[id as int].positioned());
        self.sheets[id].write_str(font, text);
        proof {
            lemma_sheet_edit(*old(self), *self, id as int);
        }
    }

    /// Refreshes the map and then the screen, both over `refresh_area` and
    /// from level `refreshed_sheet_height`: the two steps as one, so that the
    /// screen is never painted from a map that is out of date over the area.
    pub fn refresh(&mut self, refresh_area: Option<Area>, refreshed_sheet_height: Option<isize>)
        requires
            old(self).wf(),
            refreshed_sheet_height matches Some(h) ==> h >= 0,
        ensures
            final(self).wf(),
            final(self).sheets == old(self).sheets,
            final(self).height_to_sheets_idx == old(self).height_to_sheets_idx,
            final(self).top == old(self).top,
            ({
                let from = match refreshed_sheet_height {
                    Some(h) => h as int,
                    None => 0,
                };
                forall|x: int, y: int|
                    on_screen(x, y) ==> #[trigger] final(self).owner(x, y) == old(self).owner_after(
                        refresh_area,
                        from,
                        x,
                        y,
                    ) && final(self).screen.at(x, y) == old(self).refreshed_pixel(refresh_area, from, x, y)
            }),
    {
        let ghost from = match refreshed_sheet_height {
            Some(h) => h as int,
            None => 0,
        };
        self.refresh_sheet_map(refresh_area, refreshed_sheet_height);
        let ghost mapped = *self;
        self.refresh_screen(refresh_area, refreshed_sheet_height);
        proof {
            assert forall|x: int, y: int| on_screen(x, y) implies #[trigger] self.owner(x, y) == old(
                self,
            ).owner_after(refresh_area, from, x, y) && self.screen.at(x, y) == old(self).refreshed_pixel(
                refresh_area,
                from,
                x,
                y,
            ) by {
                assert(mapped.owner(x, y) == old(self).owner_after(refresh_area, from, x, y));
                assert(self.owner(x, y) == mapped.owner(x, y));
                assert(self.screen.at(x, y) == mapped.pixel_after(refresh_area, from, x, y));
                assert(mapped.screen.at(x, y) == old(self).screen.at(x, y));
                let level = mapped.owner(x, y);
                assert(mapped.drawn(level, refresh_area, x, y) == old(self).drawn(level, refresh_area, x, y));
            }
        }
    }

    /// The screen at `(x, y)` after a refresh of the map and of the screen
    /// over `area` from level `from`: the color that the new owner of the
    /// pixel draws there, if there is one among the refreshed levels, or the
    /// screen as it was.
    pub open spec fn refreshed_pixel(self, area: Option<Area>, from: int, x: int, y: int) -> u8 {
        let level = self.owner_after(area, from, x, y);
        if from <= level <= self.top {
            match self.drawn(level, area, x, y) {
                Some(color) => color.code(),
                None => self.screen.at(x, y),
            }
        } else {
            self.screen.at(x, y)
        }
    }

    /// What level `h` paints at `(x, y)` in a refresh over `refresh_area`:
    /// its color there, if it draws there and owns the pixel.
    pub open spec fn painted(self, h: int, area: Option<Area>, x: int, y: int) -> Option<Color> {
        if self.owner(x, y) == h {
            self.drawn(h, area, x, y)
        } else {
            None
        }
    }

    /// Paints to the screen every pixel that level `h` owns and draws at in
    /// a refresh over `refresh_area`.
    fn paint_level(&mut self, h: isize, refresh_area: Option<Area>)
        requires
            old(self).wf(),
            0 <= h <= old(self).top,
        ensures
            final(self).wf(),
            final(self).map == old(self).map,
            final(self).sheets == old(self).sheets,
            final(self).height_to_sheets_idx == old(self).height_to_sheets_idx,
            final(self).top == old(self).top,
            forall|x: int, y: int|
                on_screen(x, y) ==> #[trigger] final(self).screen.at(x, y) == (match old(self).painted(
                    h as int,
                    refresh_area,
                    x,
                    y,
                ) {
                    Some(color) => color.code(),
                    None => old(self).screen.at(x, y),
                }),
    {
        let ghost o = *self;
        let idx = self.height_to_sheets_idx[h as usize];
        proof {
            assert(o.stack()[h as int] == idx);
            assert(idx < MAX_WIN_NUM);
            assert(o.sheets@[idx as int].wf());
        }
        let (x0, x1, y0, y1) = Self::refresh_range(&self.sheets[idx], refresh_area);
        let left = self.sheets[idx].top_left.0;
        let upper = self.sheets[idx].top_left.1;
        let ghost sheet = o.sheets@[idx as int];
        let mut y = y0;
        proof {
            assert forall|i: int, j: int| on_screen(i, j) implies !(o.painted(h as int, refresh_area, i, j)
                is Some && j < y0) by {
                assert(in_range((x0, x1, y0, y1), i, j) <==> (Self::within(refresh_area, i, j)
                    && sheet.covers(i, j)));
            }
        }
        while y < y1
            invariant
                o.wf(),
                0 <= h <= o.top,
                idx < MAX_WIN_NUM,
                idx == o.height_to_sheets_idx@[h as int],
                sheet == o.sheets@[idx as int],
                sheet.wf(),
                left == sheet.top_left.0,
                upper == sheet.top_left.1,
                y0 <= y,
                forall|i: int, j: int|
                    #[trigger] in_range((x0, x1, y0, y1), i, j) <==> (Self::within(refresh_area, i, j)
                        && sheet.covers(i, j)),
                self.map == o.map,
                self.sheets == o.sheets,
                self.height_to_sheets_idx == o.height_to_sheets_idx,
                self.top == o.top,
                self.screen.wf(),
                forall|i: int, j: int|
                    on_screen(i, j) ==> #[trigger] self.screen.at(i, j) == (if j < y {
                        match o.painted(h as int, refresh_area, i, j) {
                            Some(color) => color.code(),
                            None => o.screen.at(i, j),
                        }
                    } else {
                        o.screen.at(i, j)
                    }),
            decreases y1 - y,
        {
            let mut x = x0;
            proof {
                assert forall|i: int, j: int| on_screen(i, j) implies !(o.painted(
                    h as int,
                    refresh_area,
                    i,
                    j,
                ) is Some && j == y && i < x0) by {
                    assert(in_range((x0, x1, y0, y1), i, j) <==> (Self::within(refresh_area, i, j)
                        && sheet.covers(i, j)));
                }
            }
            while x < x1
                invariant
                    o.wf(),
                    0 <= h <= o.top,
                    idx < MAX_WIN_NUM,
                    idx == o.height_to_sheets_idx@[h as int],
                    sheet == o.sheets@[idx as int],
                    sheet.wf(),
                    left == sheet.top_left.0,
                    upper == sheet.top_left.1,
                    y0 <= y < y1,
                    x0 <= x,
                    forall|i: int, j: int|
                        #[trigger] in_range((x0, x1, y0, y1), i, j) <==> (Self::within(refresh_area, i, j)
                            && sheet.covers(i, j)),
                    self.map == o.map,
                    self.sheets == o.sheets,
                    self.height_to_sheets_idx == o.height_to_sheets_idx,
                    self.top == o.top,
                    self.screen.wf(),
                    forall|i: int, j: int|
                        on_screen(i, j) ==> #[trigger] self.screen.at(i, j) == (if j < y || (j == y && i < x) {
                            match o.painted(h as int, refresh_area, i, j) {
                                Some(color) => color.code(),
                                None => o.screen.at(i, j),
                            }
                        } else {
                            o.screen.at(i, j)
                        }),
                decreases x1 - x,
            {
                assert(in_range((x0, x1, y0, y1), x as int, y as int));
                let ghost prev = *self;
                if let Some(color) = self.sheets[idx].buf[(y - upper) as usize][(x - left) as usize] {
                    if 0 <= x && x < SCREEN_WIDTH && 0 <= y && y < SCREEN_HEIGHT
                        && self.map[y as usize][x as usize]
                        == h {
                        self.screen.set_pixel(x as usize, y as usize, color.code());
                    }
                }
                proof {
                    assert forall|i: int, j: int| on_screen(i, j) implies #[trigger] self.screen.at(i, j) == (
                    if j < y || (j == y && i < x + 1) {
                        match o.painted(h as int, refresh_area, i, j) {
                            Some(color) => color.code(),
                            None => o.screen.at(i, j),
                        }
                    } else {
                        o.screen.at(i, j)
                    }) by {
                        assert(in_range((x0, x1, y0, y1), i, j) <==> (Self::within(refresh_area, i, j)
                            && sheet.covers(i, j)));
                        assert(o.sheet_at(h as int) == sheet);
                        if !(i == x && j == y) {
                            assert(self.screen.at(i, j) == prev.screen.at(i, j));
                        }
                    }
                }
                x += 1;
            }
            proof {
                assert forall|i: int, j: int| on_screen(i, j) implies #[trigger] self.screen.at(i, j) == (if j
                    < y + 1 {
                    match o.painted(h as int, refresh_area, i, j) {
                        Some(color) => color.code(),
                        None => o.screen.at(i, j),
                    }
                } else {
                    o.screen.at(i, j)
                }) by {
                    assert(o.sheet_at(h as int) == sheet);
                    assert(in_range((x0, x1, y0, y1), i, j) <==> (Self::within(refresh_area, i, j)
                        && sheet.covers(i, j)));
                }
            }
            y += 1;
        }
        proof {
            assert forall|i: int, j: int| on_screen(i, j) implies #[trigger] self.screen.at(i, j) == (
            match o.painted(h as int, refresh_area, i, j) {
                Some(color) => color.code(),
                None => o.screen.at(i, j),
            }) by {
                assert(o.sheet_at(h as int) == sheet);
                assert(in_range((x0, x1, y0, y1), i, j) <==> (Self::within(refresh_area, i, j)
                    && sheet.covers(i, j)));
            }
        }
    }

    /// Refreshes the screen.
    ///
    /// Goes through the levels from `refreshed_sheet_height` (0 if not
    /// given) to the top. Each level paints the screen pixels inside
    /// `refresh_area` (everywhere if not given) at which its sheet has an
    /// opaque pixel and which the map says it owns. Every other pixel of the
    /// screen stays as it is. The map is read as it stands: it is the
    /// caller's part to refresh it first where sheets have changed.
    pub fn refresh_screen(&mut self, refresh_area: Option<Area>, refreshed_sheet_height: Option<isize>)
        requires
            old(self).wf(),
            refreshed_sheet_height matches Some(h) ==> h >= 0,
        ensures
            final(self).wf(),
            old(self).screen_refreshed(
                *final(self),
                refresh_area,
                match refreshed_sheet_height {
                    Some(h) => h as int,
                    None => 0,
                },
            ),
    {
        let ghost o = *self;
        let from: isize = match refreshed_sheet_height {
            Some(h) => h,
            None => 0,
        };
        let mut h = from;
        while h <= self.top
            invariant
                o.wf(),
                self.wf(),
                0 <= from <= h,
                h <= o.top + 1 || h == from,
                self.map == o.map,
                self.sheets == o.sheets,
                self.height_to_sheets_idx == o.height_to_sheets_idx,
                self.top == o.top,
                forall|x: int, y: int|
                    on_screen(x, y) ==> #[trigger] self.screen.at(x, y) == (if from <= o.owner(x, y) < h {
                        match o.drawn(o.owner(x, y), refresh_area, x, y) {
                            Some(color) => color.code(),
                            None => o.screen.at(x, y),
                        }
                    } else {
                        o.screen.at(x, y)
                    }),
            decreases o.top + 1 - h,
        {
            let ghost prev = *self;
            self.paint_level(h, refresh_area);
            proof {
                assert forall|x: int, y: int| on_screen(x, y) implies #[trigger] self.screen.at(x, y) == (
                if from <= o.owner(x, y) < h + 1 {
                    match o.drawn(o.owner(x, y), refresh_area, x, y) {
                        Some(color) => color.code(),
                        None => o.screen.at(x, y),
                    }
                } else {
                    o.screen.at(x, y)
                }) by {
                    assert(prev.owner(x, y) == o.owner(x, y));
                    assert(prev.drawn(h as int, refresh_area, x, y) == o.drawn(h as int, refresh_area, x, y));
                    assert(self.screen.at(x, y) == match prev.painted(h as int, refresh_area, x, y) {
                        Some(color) => color.code(),
                        None => prev.screen.at(x, y),
                    });
                }
            }
            h += 1;
        }
    }

    /// Whether one of the refresh areas that the sheets of the levels from
    /// `from` up to but not including `upto` have pending holds `(x, y)`, and
    /// the owner of the pixel is at that sheet's level or above.
    pub open spec fn flushes(self, from: int, upto: int, x: int, y: int) -> bool
        decreases upto - from,
    {
        upto > from && ((upto - 1 <= self.owner(x, y) && pending(
            self.sheet_at(upto - 1).areas_to_refresh@,
            self.sheet_at(upto - 1).areas_to_refresh@.len() as int,
            x,
            y,
        )) || self.flushes(from, upto - 1, x, y))
    }

    /// Refreshes the screen over the refresh areas that the visible sheets
    /// have pending, and empties their lists.
    ///
    /// Goes through the levels from `refreshed_sheet_height` (0 if not
    /// given) to the top; each area of a sheet is refreshed from the sheet's
    /// level upwards.
    pub fn flush_printed_chars(&mut self, refreshed_sheet_height: Option<isize>)
        requires
            old(self).wf(),
            refreshed_sheet_height matches Some(h) ==> h >= 0,
        ensures
            final(self).wf(),
            final(self).map == old(self).map,
            final(self).height_to_sheets_idx == old(self).height_to_sheets_idx,
            final(self).top == old(self).top,
            ({
                let from = match refreshed_sheet_height {
                    Some(h) => h as int,
                    None => 0,
                };
                &&& forall|i: int|
                    0 <= i < MAX_WIN_NUM ==> #[trigger] final(self).sheets@[i] == (Sheet {
                        areas_to_refresh: final(self).sheets@[i].areas_to_refresh,
                        ..old(self).sheets@[i]
                    }) && final(self).sheets@[i].areas_to_refresh@ == (if from <= old(self).sheets@[i].height {
                        Seq::<Area>::empty()
                    } else {
                        old(self).sheets@[i].areas_to_refresh@
                    })
                &&& forall|x: int, y: int|
                    on_screen(x, y) ==> #[trigger] final(self).screen.at(x, y) == (if old(self).flushes(
                        from,
                        old(self).top + 1,
                        x,
                        y,
                    ) {
                        old(self).pixel_after(None, from, x, y)
                    } else {
                        old(self).screen.at(x, y)
                    })
            }),
    {
        let ghost o = *self;
        let from: isize = match refreshed_sheet_height {
            Some(h) => h,
            None => 0,
        };
        let mut h = from;
        proof {
            o.lemma_stack();
        }
        while h <= self.top
            invariant
                o.wf(),
                self.wf(),
                0 <= from <= h,
                h <= o.top + 1 || h == from,
                self.map == o.map,
                self.height_to_sheets_idx == o.height_to_sheets_idx,
                self.top == o.top,
                forall|i: int|
                    0 <= i < MAX_WIN_NUM ==> #[trigger] self.sheets@[i] == (Sheet {
                        areas_to_refresh: self.sheets@[i].areas_to_refresh,
                        ..o.sheets@[i]
                    }) && self.sheets@[i].areas_to_refresh@ == (if from <= o.sheets@[i].height < h {
                        Seq::<Area>::empty()
                    } else {
                        o.sheets@[i].areas_to_refresh@
                    }),
                forall|x: int, y: int|
                    on_screen(x, y) ==> #[trigger] self.screen.at(x, y) == (if o.flushes(
                        from as int,
                        h as int,
                        x,
                        y,
                    ) {
                        o.pixel_after(None, from as int, x, y)
                    } else {
                        o.screen.at(x, y)
                    }),
            decreases o.top + 1 - h,
        {
            let idx = self.height_to_sheets_idx[h as usize];
            proof {
                o.lemma_stack();
                assert(idx < MAX_WIN_NUM && o.sheets@[idx as int].height == h);
            }
            let n = self.sheets[idx].areas_to_refresh.len();
            let ghost areas = o.sheets@[idx as int].areas_to_refresh@;
            assert(self.sheets@[idx as int].areas_to_refresh@ == areas);
            let mut k: usize = 0;
            while k < n
                invariant
                    o.wf(),
                    self.wf(),
                    0 <= from <= h <= o.top,
                    idx < MAX_WIN_NUM,
                    idx == o.height_to_sheets_idx@[h as int],
                    o.sheets@[idx as int].height == h,
                    areas == o.sheets@[idx as int].areas_to_refresh@,
                    n == areas.len(),
                    k <= n,
                    self.map == o.map,
                    self.height_to_sheets_idx == o.height_to_sheets_idx,
                    self.top == o.top,
                    forall|i: int|
                        0 <= i < MAX_WIN_NUM ==> #[trigger] self.sheets@[i] == (Sheet {
                            areas_to_refresh: self.sheets@[i].areas_to_refresh,
                            ..o.sheets@[i]
                        }) && self.sheets@[i].areas_to_refresh@ == (if from <= o.sheets@[i].height < h {
                            Seq::<Area>::empty()
                        } else {
                            o.sheets@[i].areas_to_refresh@
                        }),
                    forall|x: int, y: int|
                        on_screen(x, y) ==> #[trigger] self.screen.at(x, y) == (if o.flushes(
                            from as int,
                            h as int,
                            x,
                            y,
                        ) || (h <= o.owner(x, y) && pending(areas, k as int, x, y)) {
                            o.pixel_after(None, from as int, x, y)
                        } else {
                            o.screen.at(x, y)
                        }),
                decreases n - k,
            {
                let area = self.sheets[idx].areas_to_refresh[k];
                let ghost prev = *self;
                self.refresh_screen(Some(area), Some(h));
                proof {
                    assert(area == areas[k as int]);
                    assert forall|x: int, y: int| on_screen(x, y) implies #[trigger] self.screen.at(x, y) == (
                    if o.flushes(from as int, h as int, x, y) || (h <= o.owner(x, y) && pending(
                        areas,
                        k + 1,
                        x,
                        y,
                    )) {
                        o.pixel_after(None, from as int, x, y)
                    } else {
                        o.screen.at(x, y)
                    }) by {
                        assert(self.screen.at(x, y) == prev.pixel_after(Some(area), h as int, x, y));
                        let m = o.owner(x, y);
                        assert(prev.owner(x, y) == m);
                        if h <= m <= o.top {
                            let at = o.height_to_sheets_idx@[m];
                            assert(at < MAX_WIN_NUM) by {
                                o.lemma_stack();
                            }
                            assert(prev.sheets@[at as int] == (Sheet {
                                areas_to_refresh: prev.sheets@[at as int].areas_to_refresh,
                                ..o.sheets@[at as int]
                            }));
                            assert(prev.sheet_at(m).shows(x, y) == o.sheet_at(m).shows(x, y));
                        }
                    }
                }
                k += 1;
            }
            let ghost flushed = *self;
            self.sheets[idx].areas_to_refresh = Vec::new();
            proof {
                assert(self.heights() =~= flushed.heights());
                assert forall|i: int| 0 <= i < MAX_WIN_NUM implies (#[trigger] self.sheets@[i]).wf()
                    && self.sheets@[i].positioned() by {
                    assert(flushed.sheets@[i].wf() && flushed.sheets@[i].positioned());
                }
                assert forall|i: int| 0 <= i < MAX_WIN_NUM implies #[trigger] self.sheets@[i] == (Sheet {
                    areas_to_refresh: self.sheets@[i].areas_to_refresh,
                    ..o.sheets@[i]
                }) && self.sheets@[i].areas_to_refresh@ == (if from <= o.sheets@[i].height < h + 1 {
                    Seq::<Area>::empty()
                } else {
                    o.sheets@[i].areas_to_refresh@
                }) by {
                    assert(flushed.sheets@[i] == (Sheet {
                        areas_to_refresh: flushed.sheets@[i].areas_to_refresh,
                        ..o.sheets@[i]
                    }));
                    if i != idx && o.sheets@[i].height == h {
                        assert(o.height_to_sheets_idx@[o.sheets@[i].height as int] == i);
                    }
                }
                assert forall|x: int, y: int| on_screen(x, y) implies #[trigger] self.screen.at(x, y) == (
                if o.flushes(from as int, h + 1, x, y) {
                    o.pixel_after(None, from as int, x, y)
                } else {
                    o.screen.at(x, y)
                }) by {
                    assert(self.screen.at(x, y) == flushed.screen.at(x, y));
                    assert(o.sheet_at(h as int) == o.sheets@[idx as int]);
                }
            }
            h += 1;
        }
        proof {
            assert forall|i: int| 0 <= i < MAX_WIN_NUM implies (from <= o.sheets@[i].height < h) == (from
                <= o.sheets@[i].height) by {
                assert(o.sheets@[i].height <= o.top) by {
                    if o.sheets@[i].height >= 0 {
                    }
                }
            }
            assert forall|x: int, y: int| on_screen(x, y) implies o.flushes(from as int, h as int, x, y)
                == o.flushes(from as int, o.top + 1, x, y) by {
                if h > o.top + 1 {
                }
            }
        }
    }

    /// `topmost` is -1 or a level of its range.
    pub proof fn lemma_topmost_bounds(self, area: Option<Area>, from: int, upto: int, x: int, y: int)
        ensures
            self.topmost(area, from, upto, x, y) == -1 || from <= self.topmost(area, from, upto, x, y) < upto,
        decreases upto - from,
    {
        if upto > from {
            self.lemma_topmost_bounds(area, from, upto - 1, x, y);
        }
    }

    /// Over an empty range of levels `topmost` is -1.
    pub proof fn lemma_topmost_empty(self, area: Option<Area>, from: int, upto: int, x: int, y: int)
        requires
            upto <= from,
        ensures
            self.topmost(area, from, upto, x, y) == -1,
    {
    }

    /// `topmost` is the highest level of its range that draws at the pixel:
    /// it draws there and no level above it does. It is -1 exactly when no
    /// level of the range draws there.
    pub proof fn lemma_topmost(self, area: Option<Area>, from: int, upto: int, x: int, y: int)
        requires
            0 <= from,
        ensures
            ({
                let t = self.topmost(area, from, upto, x, y);
                &&& t >= 0 ==> from <= t < upto && self.drawn(t, area, x, y) is Some
                &&& forall|h: int| from <= h < upto && t < h ==> self.drawn(h, area, x, y) is None
                &&& t < 0 ==> t == -1
            }),
        decreases upto - from,
    {
        if upto > from {
            self.lemma_topmost(area, from, upto - 1, x, y);
        }
    }

    /// The picture of the sheets at `(x, y)` over a backdrop: the color of
    /// the highest visible sheet that is opaque there, or `backdrop` if
    /// there is none.
    pub open spec fn composed(self, x: int, y: int, backdrop: u8) -> u8 {
        let level = self.topmost(None, 0, self.top + 1, x, y);
        if level >= 0 {
            match self.sheet_at(level).shows(x, y) {
                Some(color) => color.code(),
                None => backdrop,
            }
        } else {
            backdrop
        }
    }

    /// Whether the screen shows the picture of the sheets over `backdrop`,
    /// and the map says for every pixel which level shows there, -1 where
    /// none does.
    pub open spec fn shows_sheets(self, backdrop: u8) -> bool {
        forall|x: int, y: int|
            on_screen(x, y) ==> #[trigger] self.screen.at(x, y) == self.composed(x, y, backdrop)
                && self.owner(x, y) == self.topmost(None, 0, self.top + 1, x, y)
    }

    /// What the levels draw depends on the sheets and their stack only.
    pub proof fn lemma_topmost_same(
        self,
        other: SheetControl,
        area: Option<Area>,
        from: int,
        upto: int,
        x: int,
        y: int,
    )
        requires
            self.sheets == other.sheets,
            self.height_to_sheets_idx == other.height_to_sheets_idx,
        ensures
            self.topmost(area, from, upto, x, y) == other.topmost(area, from, upto, x, y),
        decreases upto - from,
    {
        if upto > from {
            self.lemma_topmost_same(other, area, from, upto - 1, x, y);
        }
    }

    /// Occlusion. Refresh the map and then the screen, both over the same
    /// area and from level 0. Then a screen pixel inside the area at which
    /// some visible sheet is opaque has the color of the highest such sheet,
    /// and that level owns it; a pixel at which no visible sheet is opaque,
    /// and every pixel outside the area, is as it was before.
    pub proof fn lemma_occlusion(
        self,
        mapped: SheetControl,
        shown: SheetControl,
        area: Option<Area>,
        x: int,
        y: int,
    )
        requires
            self.wf(),
            self.map_refreshed(mapped, area, 0),
            mapped.screen_refreshed(shown, area, 0),
            on_screen(x, y),
        ensures
            ({
                let t = self.topmost(area, 0, self.top + 1, x, y);
                &&& t >= 0 ==> {
                    &&& 0 <= t <= self.top
                    &&& Self::within(area, x, y)
                    &&& self.sheet_at(t).shows(x, y) matches Some(color) && shown.screen.at(x, y)
                        == color.code()
                    &&& shown.owner(x, y) == t
                    &&& forall|h: int| t < h <= self.top ==> self.sheet_at(h).shows(x, y) is None
                }
                &&& t < 0 ==> {
                    &&& shown.screen.at(x, y) == self.screen.at(x, y)
                    &&& shown.owner(x, y) == self.owner(x, y)
                    &&& forall|h: int|
                        0 <= h <= self.top && Self::within(area, x, y) ==> self.sheet_at(h).shows(x, y) is None
                }
            }),
            !Self::within(area, x, y) ==> shown.screen.at(x, y) == self.screen.at(x, y) && shown.owner(x, y)
                == self.owner(x, y),
    {
        let t = self.topmost(area, 0, self.top + 1, x, y);
        self.lemma_topmost(area, 0, self.top + 1, x, y);
        assert(mapped.owner(x, y) == self.owner_after(area, 0, x, y));
        assert(shown.screen.at(x, y) == mapped.pixel_after(area, 0, x, y));
        assert(shown.owner(x, y) == mapped.owner(x, y));
        assert forall|h: int| mapped.drawn(h, area, x, y) == self.drawn(h, area, x, y) by {}
        if t >= 0 {
            assert forall|h: int| t < h <= self.top implies self.sheet_at(h).shows(x, y) is None by {
                assert(self.drawn(h, area, x, y) is None);
            }
        } else {
            let m = self.owner(x, y);
            if 0 <= m <= self.top {
                assert(self.drawn(m, area, x, y) is None);
            }
            assert forall|h: int| 0 <= h <= self.top && Self::within(area, x, y) implies self.sheet_at(
                h,
            ).shows(x, y) is None by {
                assert(self.drawn(h, area, x, y) is None);
            }
        }
    }

    /// After a refresh of the map and of the screen, both over the whole
    /// screen and from level 0, the screen shows the picture of the sheets
    /// over what it showed before.
    pub proof fn lemma_full_refresh(self, mapped: SheetControl, shown: SheetControl, x: int, y: int)
        requires
            self.wf(),
            self.map_refreshed(mapped, None, 0),
            mapped.screen_refreshed(shown, None, 0),
            on_screen(x, y),
        ensures
            shown.screen.at(x, y) == shown.composed(x, y, self.screen.at(x, y)),
            shown.topmost(None, 0, shown.top + 1, x, y) == self.topmost(None, 0, self.top + 1, x, y),
            shown.owner(x, y) == (if self.topmost(None, 0, self.top + 1, x, y) >= 0 {
                self.topmost(None, 0, self.top + 1, x, y)
            } else {
                self.owner(x, y)
            }),
    {
        self.lemma_occlusion(mapped, shown, None, x, y);
        self.lemma_topmost_same(shown, None, 0, self.top + 1, x, y);
        let level = self.topmost(None, 0, self.top + 1, x, y);
        if level >= 0 {
            assert(shown.sheet_at(level) == self.sheet_at(level));
        }
    }

    /// A refresh of the map and of the screen, both over the whole screen
    /// and from level 0, of a compositor whose map names no owner and whose
    /// screen shows `backdrop` everywhere gives a screen that shows the
    /// sheets over `backdrop`.
    pub proof fn lemma_painted_afresh(self, mapped: SheetControl, shown: SheetControl, backdrop: u8)
        requires
            self.wf(),
            self.map_refreshed(mapped, None, 0),
            mapped.screen_refreshed(shown, None, 0),
            forall|x: int, y: int| on_screen(x, y) ==> #[trigger] self.owner(x, y) == -1,
            forall|x: int, y: int| on_screen(x, y) ==> #[trigger] self.screen.at(x, y) == backdrop,
        ensures
            shown.shows_sheets(backdrop),
    {
        assert forall|x: int, y: int| on_screen(x, y) implies #[trigger] shown.screen.at(x, y)
            == shown.composed(x, y, backdrop) && shown.owner(x, y) == shown.topmost(
            None,
            0,
            shown.top + 1,
            x,
            y,
        ) by {
            self.lemma_full_refresh(mapped, shown, x, y);
            self.lemma_topmost_bounds(None, 0, self.top + 1, x, y);
            assert(self.owner(x, y) == -1);
            assert(self.screen.at(x, y) == backdrop);
        }
    }

    /// A refresh of the screen over an area leaves every pixel outside the
    /// area as it was, and gives a pixel inside the area the color that the
    /// owner of the pixel shows there, where the owner is one of the
    /// refreshed levels and is opaque there.
    pub proof fn lemma_refresh_scope(self, after: SheetControl, area: Area, from: int, x: int, y: int)
        requires
            self.screen_refreshed(after, Some(area), from),
            on_screen(x, y),
        ensures
            !in_area(area, x, y) ==> after.screen.at(x, y) == self.screen.at(x, y),
            in_area(area, x, y) && from <= self.owner(x, y) <= self.top ==> after.screen.at(x, y) == (
            match self.sheet_at(self.owner(x, y)).shows(x, y) {
                Some(color) => color.code(),
                None => self.screen.at(x, y),
            }),
    {
        assert(after.screen.at(x, y) == self.pixel_after(Some(area), from, x, y));
    }

    /// The stack holds every visible sheet exactly once, at the index that
    /// is the sheet's level, and holds no hidden sheet.
    pub proof fn lemma_stack(self)
        requires
            self.wf(),
        ensures
            self.stack().len() == self.top + 1,
            self.stack().no_duplicates(),
            forall|id: int|
                0 <= id < MAX_WIN_NUM && (#[trigger] self.sheets@[id]).height >= 0
                    ==> self.sheets@[id].height <= self.top
                    && self.height_to_sheets_idx@[self.sheets@[id].height as int] == id,
            forall|id: int|
                0 <= id < MAX_WIN_NUM && (#[trigger] self.sheets@[id]).height < 0
                    ==> self.sheets@[id].height == -1 && !self.stack().contains(id as usize),
            forall|h: int|
                0 <= h <= self.top ==> (#[trigger] self.height_to_sheets_idx@[h]) < MAX_WIN_NUM
                    && self.sheets@[self.height_to_sheets_idx@[h] as int].height == h,
    {
        lemma_z_ordered_once(self.stack(), self.heights());
        assert forall|id: int| 0 <= id < MAX_WIN_NUM && (#[trigger] self.sheets@[id]).height >= 0 implies
            self.sheets@[id].height <= self.top && self.height_to_sheets_idx@[self.sheets@[id].height as int]
            == id by {
            assert(self.heights()[id] == self.sheets@[id].height);
            assert(self.stack()[self.heights()[id]] == id);
        }
        assert forall|id: int| 0 <= id < MAX_WIN_NUM && (#[trigger] self.sheets@[id]).height < 0 implies
            self.sheets@[id].height == -1 && !self.stack().contains(id as usize) by {
            assert(self.heights()[id] == self.sheets@[id].height);
            assert(self.heights()[id as usize as int] < 0);
        }
        assert forall|h: int| 0 <= h <= self.top implies (#[trigger] self.height_to_sheets_idx@[h])
            < MAX_WIN_NUM && self.sheets@[self.height_to_sheets_idx@[h] as int].height == h by {
            assert(self.stack()[h] == self.height_to_sheets_idx@[h]);
            assert(self.heights()[self.stack()[h] as int] == h);
        }
    }
}

/// A change of one sheet's level leaves the other sheets in the order in
/// which they were.
pub proof fn lemma_change_keeps_order(stack: Seq<usize>, id: usize, requested: int)
    requires
        stack.no_duplicates(),
    ensures
        stack_without(stack_after_change(stack, id, requested), id) == stack_without(stack, id),
{
    let others = stack_without(stack, id);
    lemma_removed_absent(stack, id);
    let level = clip_spec(requested, -1, others.len() as int);
    if level >= 0 {
        let after = others.insert(level, id);
        assert(after[level] == id);
        assert(after.contains(id));
        let k = after.index_of(id);
        assert(after[k] == id);
        if k < level {
            assert(others[k] == id);
            assert(others.contains(id));
        } else if k > level {
            assert(others[k - 1] == id);
            assert(others.contains(id));
        }
        assert(after.remove(level) =~= others);
    }
}

/// Whether `(x, y)` lies in the square of the cursor's size whose top left
/// pixel is `corner`.
pub open spec fn in_cursor(corner: Point, x: int, y: int) -> bool {
    corner.0 <= x < corner.0 + CURSOR_WIDTH && corner.1 <= y < corner.1 + CURSOR_HEIGHT
}

/// Whether the square of the cursor's size at `corner` lies on the screen.
pub open spec fn cursor_on_screen(corner: Point) -> bool {
    &&& 0 <= corner.0 && corner.0 + CURSOR_WIDTH <= SCREEN_WIDTH
    &&& 0 <= corner.1 && corner.1 + CURSOR_HEIGHT <= SCREEN_HEIGHT
}

/// Draws the mouse cursor straight onto the screen: the square at
/// `prev_location` is filled with the color `bc`, then the cursor's picture
/// is drawn at `location`, with `bc` where the picture is transparent.
pub fn draw_mouse(screen: &mut Screen, location: &Point, prev_location: &Point, bc: &Color)
    requires
        old(screen).wf(),
        cursor_on_screen(*location),
        cursor_on_screen(*prev_location),
    ensures
        final(screen).wf(),
        forall|x: int, y: int|
            on_screen(x, y) ==> #[trigger] final(screen).at(x, y) == (if in_cursor(*location, x, y) {
                match cursor_color(x - location.0, y - location.1) {
                    Some(color) => color.code(),
                    None => bc.code(),
                }
            } else if in_cursor(*prev_location, x, y) {
                bc.code()
            } else {
                old(screen).at(x, y)
            }),
{
    let mut y: usize = 0;
    while y < CURSOR_HEIGHT
        invariant
            y <= CURSOR_HEIGHT,
            screen.wf(),
            cursor_on_screen(*prev_location),
            forall|i: int, j: int|
                on_screen(i, j) ==> #[trigger] screen.at(i, j) == (if in_cursor(*prev_location, i, j) && j
                    < prev_location.1 + y {
                    bc.code()
                } else {
                    old(screen).at(i, j)
                }),
        decreases CURSOR_HEIGHT - y,
    {
        let mut x: usize = 0;
        while x < CURSOR_WIDTH
            invariant
                y < CURSOR_HEIGHT,
                x <= CURSOR_WIDTH,
                screen.wf(),
                cursor_on_screen(*prev_location),
                forall|i: int, j: int|
                    on_screen(i, j) ==> #[trigger] screen.at(i, j) == (if in_cursor(*prev_location, i, j) && (j
                        < prev_location.1 + y || (j == prev_location.1 + y && i < prev_location.0 + x)) {
                        bc.code()
                    } else {
                        old(screen).at(i, j)
                    }),
            decreases CURSOR_WIDTH - x,
        {
            let color = *bc;
            screen.set_pixel(x + prev_location.0 as usize, y + prev_location.1 as usize, color.code());
            x += 1;
        }
        y += 1;
    }
    let ghost wiped = *screen;
    let mut y: usize = 0;
    while y < CURSOR_HEIGHT
        invariant
            y <= CURSOR_HEIGHT,
            screen.wf(),
            cursor_on_screen(*location),
            forall|i: int, j: int|
                on_screen(i, j) ==> #[trigger] screen.at(i, j) == (if in_cursor(*location, i, j) && j
                    < location.1 + y {
                    match cursor_color(i - location.0, j - location.1) {
                        Some(color) => color.code(),
                        None => bc.code(),
                    }
                } else {
                    wiped.at(i, j)
                }),
        decreases CURSOR_HEIGHT - y,
    {
        let mut x: usize = 0;
        while x < CURSOR_WIDTH
            invariant
                y < CURSOR_HEIGHT,
                x <= CURSOR_WIDTH,
                screen.wf(),
                cursor_on_screen(*location),
                forall|i: int, j: int|
                    on_screen(i, j) ==> #[trigger] screen.at(i, j) == (if in_cursor(*location, i, j) && (j
                        < location.1 + y || (j == location.1 + y && i < location.0 + x)) {
                        match cursor_color(i - location.0, j - location.1) {
                            Some(color) => color.code(),
                            None => bc.code(),
                        }
                    } else {
                        wiped.at(i, j)
                    }),
            decreases CURSOR_WIDTH - x,
        {
            let c = CURSOR[x][y];
            let color = if c == S {
                Color::Black
            } else if c == O {
                Color::White
            } else {
                *bc
            };
            screen.set_pixel(x + location.0 as usize, y + location.1 as usize, color.code());
            x += 1;
        }
        y += 1;
    }
    proof {
        assert forall|x: int, y: int| on_screen(x, y) implies #[trigger] screen.at(x, y) == (if in_cursor(
            *location,
            x,
            y,
        ) {
            match cursor_color(x - location.0, y - location.1) {
                Some(color) => color.code(),
                None => bc.code(),
            }
        } else if in_cursor(*prev_location, x, y) {
            bc.code()
        } else {
            old(screen).at(x, y)
        }) by {
            assert(wiped.at(x, y) == (if in_cursor(*prev_location, x, y) {
                bc.code()
            } else {
                old(screen).at(x, y)
            }));
        }
    }
}

/// A change to one sheet that keeps the sheet's level and leaves the sheet
/// well-formed and positioned leaves the compositor in order.
pub proof fn lemma_sheet_edit(before: SheetControl, after: SheetControl, id: int)
    requires
        before.wf(),
        0 <= id < MAX_WIN_NUM,
        after == (SheetControl { sheets: after.sheets, ..before }),
        after.sheets@.len() == MAX_WIN_NUM,
        forall|i: int| 0 <= i < MAX_WIN_NUM && i != id ==> #[trigger] after.sheets@[i] == before.sheets@[i],
        after.sheets@[id].wf(),
        after.sheets@[id].positioned(),
        after.sheets@[id].height == before.sheets@[id].height,
    ensures
        after.wf(),
        after.stack() == before.stack(),
        after.heights() == before.heights(),
{
    assert(after.heights() =~= before.heights());
    assert forall|i: int| 0 <= i < MAX_WIN_NUM implies (#[trigger] after.sheets@[i]).wf()
        && after.sheets@[i].positioned() by {
        if i != id {
            assert(before.sheets@[i].wf() && before.sheets@[i].positioned());
        }
    }
}

/// A stack without duplicates does not hold a sheet that was taken out of it.
pub proof fn lemma_removed_absent(stack: Seq<usize>, id: usize)
    requires
        stack.no_duplicates(),
    ensures
        !stack_without(stack, id).contains(id),
{
    if stack.contains(id) {
        let k = stack.index_of(id);
        let rest = stack.remove(k);
        if rest.contains(id) {
            let j = rest.index_of(id);
            assert(rest[j] == id);
            if j < k {
                assert(stack[j] == id);
            } else {
                assert(stack[j + 1] == id);
            }
        }
    }
}

} // verus!
