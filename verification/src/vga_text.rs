//! The text screen: 25 lines of 80 characters, written at the bottom line
//! and scrolled upwards.

use vstd::prelude::*;
use vstd::string::StringSliceAdditionalSpecFns;

verus! {

/// The sixteen colors of the text mode.
#[derive(Copy, Clone, Debug, PartialEq, Eq, Structural)]
pub enum Color {
    Black,
    Blue,
    Green,
    Cyan,
    Red,
    Magenta,
    Brown,
    LightGray,
    DarkGray,
    LightBlue,
    LightGreen,
    LightCyan,
    LightRed,
    Pink,
    Yellow,
    White,
}

impl Color {
    /// The number of the color.
    pub open spec fn spec_code(self) -> u8 {
        match self {
            Color::Black => 0,
            Color::Blue => 1,
            Color::Green => 2,
            Color::Cyan => 3,
            Color::Red => 4,
            Color::Magenta => 5,
            Color::Brown => 6,
            Color::LightGray => 7,
            Color::DarkGray => 8,
            Color::LightBlue => 9,
            Color::LightGreen => 10,
            Color::LightCyan => 11,
            Color::LightRed => 12,
            Color::Pink => 13,
            Color::Yellow => 14,
            Color::White => 15,
        }
    }

    /// The number of the color.
    #[verifier::when_used_as_spec(spec_code)]
    pub fn code(self) -> (code: u8)
        ensures
            code == self.spec_code(),
            code < 16,
    {
        match self {
            Color::Black => 0,
            Color::Blue => 1,
            Color::Green => 2,
            Color::Cyan => 3,
            Color::Red => 4,
            Color::Magenta => 5,
            Color::Brown => 6,
            Color::LightGray => 7,
            Color::DarkGray => 8,
            Color::LightBlue => 9,
            Color::LightGreen => 10,
            Color::LightCyan => 11,
            Color::LightRed => 12,
            Color::Pink => 13,
            Color::Yellow => 14,
            Color::White => 15,
        }
    }
}

/// Two colors in one byte.
#[derive(Debug, Clone, Copy, PartialEq, Eq, Structural)]
pub struct ColorCode(pub u8);

impl ColorCode {
    /// The byte of two colors: the first in the upper four bits, the second
    /// in the lower four.
    pub fn new(foreground: Color, background: Color) -> (code: Self)
        ensures
            code.0 == foreground.code() * 16 + background.code(),
    {
        let high = foreground.code();
        let low = background.code();
        assert((high << 4) | low == high * 16 + low) by (bit_vector)
            requires
                high < 16,
                low < 16,
        ;
        ColorCode((high << 4) | low)
    }
}

/// A character of the text screen with its colors.
#[derive(Debug, Clone, Copy, PartialEq, Eq, Structural)]
pub struct ScreenChar {
    pub ascii_character: u8,
    pub color_code: ColorCode,
}

/// Number of lines of the text screen.
pub const BUFFER_HEIGHT: usize = 25;

/// Number of characters of a line.
pub const BUFFER_WIDTH: usize = 80;

/// The characters of the text screen, line by line.
pub struct Buffer {
    pub chars: Vec<Vec<ScreenChar>>,
}

/// The byte that is shown for a byte that cannot be printed.
pub const UNPRINTABLE: u8 = 0xfe;

/// The lines after a line break: every line moves up by one, the top line
/// is lost, and the bottom line is blank in the color `color_code`.
pub open spec fn scrolled(lines: Seq<Seq<ScreenChar>>, color_code: ColorCode) -> Seq<Seq<ScreenChar>> {
    Seq::new(
        BUFFER_HEIGHT as nat,
        |row: int|
            if row < BUFFER_HEIGHT - 1 {
                lines[row + 1]
            } else {
                Seq::new(BUFFER_WIDTH as nat, |col: int| ScreenChar { ascii_character: 0x20, color_code })
            },
    )
}

/// The lines and the column after `byte` is written at column `column` of
/// the bottom line: a line feed breaks the line; any other byte goes to the
/// bottom line, after a line break if the line is full.
pub open spec fn byte_written(state: (Seq<Seq<ScreenChar>>, int), color_code: ColorCode, byte: u8) -> (
    Seq<Seq<ScreenChar>>,
    int,
) {
    if byte == 0x0a {
        (scrolled(state.0, color_code), 0)
    } else {
        let broken = if state.1 >= BUFFER_WIDTH {
            (scrolled(state.0, color_code), 0int)
        } else {
            state
        };
        (
            broken.0.update(
                BUFFER_HEIGHT - 1,
                broken.0[BUFFER_HEIGHT - 1].update(broken.1, ScreenChar { ascii_character: byte, color_code }),
            ),
            broken.1 + 1,
        )
    }
}

/// The byte that is written for a byte of a string: the byte itself if it
/// is a printable character or a line feed.
pub open spec fn printable(byte: u8) -> u8 {
    if (0x20 <= byte <= 0x7e) || byte == 0x0a {
        byte
    } else {
        UNPRINTABLE
    }
}

/// The lines and the column after the bytes of a string are written.
pub open spec fn bytes_written(state: (Seq<Seq<ScreenChar>>, int), color_code: ColorCode, bytes: Seq<u8>) -> (
    Seq<Seq<ScreenChar>>,
    int,
)
    decreases bytes.len(),
{
    if bytes.len() == 0 {
        state
    } else {
        byte_written(bytes_written(state, color_code, bytes.drop_last()), color_code, printable(bytes.last()))
    }
}

impl Buffer {
    /// The lines as sequences.
    pub open spec fn view(self) -> Seq<Seq<ScreenChar>> {
        Seq::new(self.chars@.len(), |row: int| self.chars@[row]@)
    }

    /// The buffer has the dimensions of the text screen.
    pub open spec fn wf(self) -> bool {
        &&& self.chars@.len() == BUFFER_HEIGHT
        &&& forall|row: int| 0 <= row < BUFFER_HEIGHT ==> (#[trigger] self.chars@[row])@.len() == BUFFER_WIDTH
    }

    /// A text screen filled with `fill`.
    pub fn new(fill: ScreenChar) -> (buffer: Self)
        ensures
            buffer.wf(),
            forall|row: int, col: int|
                0 <= row < BUFFER_HEIGHT && 0 <= col < BUFFER_WIDTH ==> (#[trigger] buffer@[row][col]) == fill,
    {
        let mut chars: Vec<Vec<ScreenChar>> = Vec::new();
        let mut row: usize = 0;
        while row < BUFFER_HEIGHT
            invariant
                row <= BUFFER_HEIGHT,
                chars@.len() == row,
                forall|r: int| 0 <= r < row ==> (#[trigger] chars@[r])@.len() == BUFFER_WIDTH,
                forall|r: int, c: int| 0 <= r < row && 0 <= c < BUFFER_WIDTH
                    ==> (#[trigger] chars@[r]@[c]) == fill,
            decreases BUFFER_HEIGHT - row,
        {
            let mut line: Vec<ScreenChar> = Vec::new();
            let mut col: usize = 0;
            while col < BUFFER_WIDTH
                invariant
                    col <= BUFFER_WIDTH,
                    line@.len() == col,
                    forall|c: int| 0 <= c < col ==> (#[trigger] line@[c]) == fill,
                decreases BUFFER_WIDTH - col,
            {
                line.push(fill);
                col += 1;
            }
            chars.push(line);
            row += 1;
        }
        Buffer { chars }
    }
}

/// The writer of the text screen.
pub struct Writer {
    pub column_position: usize,
    pub color_code: ColorCode,
    pub buffer: Buffer,
}

impl Writer {
    /// The lines and the column of the writer.
    pub open spec fn state(self) -> (Seq<Seq<ScreenChar>>, int) {
        (self.buffer@, self.column_position as int)
    }

    /// The writer's invariant: the buffer has its dimensions and the column
    /// is a column of the line or the one behind its end.
    pub open spec fn wf(self) -> bool {
        self.buffer.wf() && self.column_position <= BUFFER_WIDTH
    }

    /// A writer at column `column_position` of the bottom line of `buffer`.
    pub fn new(column_position: usize, color_code: ColorCode, buffer: Buffer) -> (writer: Self)
        ensures
            writer.column_position == column_position,
            writer.color_code == color_code,
            writer.buffer == buffer,
    {
        Self { column_position, color_code, buffer }
    }

    /// Writes the bytes of `s`; a byte that is neither a printable
    /// character nor a line feed is shown as `UNPRINTABLE`.
    pub fn write_string(&mut self, s: &str)
        requires
            old(self).wf(),
        ensures
            final(self).wf(),
            final(self).color_code == old(self).color_code,
            final(self).state() == bytes_written(old(self).state(), old(self).color_code, s.spec_bytes()),
    {
        let bytes = s.as_bytes();
        let mut i: usize = 0;
        while i < bytes.len()
            invariant
                i <= bytes@.len(),
                bytes@ == s.spec_bytes(),
                self.wf(),
                self.color_code == old(self).color_code,
                self.state() == bytes_written(old(self).state(), old(self).color_code, bytes@.take(i as int)),
            decreases bytes@.len() - i,
        {
            let byte = bytes[i];
            proof {
                assert(bytes@.take(i + 1).drop_last() =~= bytes@.take(i as int));
                assert(bytes@.take(i + 1).last() == byte);
            }
            if (0x20 <= byte && byte <= 0x7e) || byte == 0x0a {
                self.write_byte(byte);
            } else {
                self.write_byte(0xfe);
            }
            i += 1;
        }
        proof {
            assert(bytes@.take(bytes@.len() as int) =~= bytes@);
        }
    }

    /// Writes one byte at the end of the bottom line.
    pub fn write_byte(&mut self, byte: u8)
        requires
            old(self).wf(),
        ensures
            final(self).wf(),
            final(self).color_code == old(self).color_code,
            final(self).state() == byte_written(old(self).state(), old(self).color_code, byte),
    {
        if byte == 0x0a {
            self.new_line();
        } else {
            if self.column_position >= BUFFER_WIDTH {
                self.new_line();
            }
            let ghost broken = *self;
            let row = BUFFER_HEIGHT - 1;
            let col = self.column_position;
            self.column_position += 1;
            let color_code = self.color_code;
            self.buffer.chars[row][col] = ScreenChar { ascii_character: byte, color_code };
            proof {
                assert(self.buffer@ =~= broken.buffer@.update(
                    BUFFER_HEIGHT - 1,
                    broken.buffer@[BUFFER_HEIGHT - 1].update(
                        broken.column_position as int,
                        ScreenChar { ascii_character: byte, color_code },
                    ),
                ));
            }
        }
    }

    /// Breaks the line: every line moves up by one and the bottom line is
    /// cleared.
    pub fn new_line(&mut self)
        requires
            old(self).wf(),
        ensures
            final(self).wf(),
            final(self).color_code == old(self).color_code,
            final(self).column_position == 0,
            final(self).buffer@ == scrolled(old(self).buffer@, old(self).color_code),
    {
        let mut row: usize = 0;
        while row < BUFFER_HEIGHT - 1
            invariant
                row <= BUFFER_HEIGHT - 1,
                old(self).buffer.wf(),
                self.buffer.wf(),
                self.color_code == old(self).color_code,
                self.column_position == old(self).column_position,
                forall|r: int|
                    0 <= r < BUFFER_HEIGHT ==> #[trigger] self.buffer@[r] == (if r < row {
                        old(self).buffer@[r + 1]
                    } else {
                        old(self).buffer@[r]
                    }),
            decreases BUFFER_HEIGHT - 1 - row,
        {
            let mut col: usize = 0;
            while col < BUFFER_WIDTH
                invariant
                    row < BUFFER_HEIGHT - 1,
                    col <= BUFFER_WIDTH,
                    old(self).buffer.wf(),
                    self.buffer.wf(),
                    self.color_code == old(self).color_code,
                    self.column_position == old(self).column_position,
                    forall|r: int|
                        0 <= r < BUFFER_HEIGHT && r != row ==> #[trigger] self.buffer@[r] == (if r < row {
                            old(self).buffer@[r + 1]
                        } else {
                            old(self).buffer@[r]
                        }),
                    forall|c: int|
                        0 <= c < BUFFER_WIDTH ==> #[trigger] self.buffer@[row as int][c] == (if c < col {
                            old(self).buffer@[row + 1][c]
                        } else {
                            old(self).buffer@[row as int][c]
                        }),
                decreases BUFFER_WIDTH - col,
            {
                let ghost prev = *self;
                let below = self.buffer.chars[row + 1][col];
                self.buffer.chars[row][col] = below;
                proof {
                    assert(prev.buffer@[row + 1] == old(self).buffer@[row + 1]);
                    assert forall|r: int| 0 <= r < BUFFER_HEIGHT && r != row implies #[trigger] self.buffer@[r]
                        == (if r < row {
                        old(self).buffer@[r + 1]
                    } else {
                        old(self).buffer@[r]
                    }) by {
                        assert(self.buffer@[r] == prev.buffer@[r]);
                    }
                    assert forall|c: int| 0 <= c < BUFFER_WIDTH implies #[trigger] self.buffer@[row as int][c]
                        == (if c < col + 1 {
                        old(self).buffer@[row + 1][c]
                    } else {
                        old(self).buffer@[row as int][c]
                    }) by {
                        if c != col {
                            assert(self.buffer@[row as int][c] == prev.buffer@[row as int][c]);
                        }
                    }
                }
                col += 1;
            }
            proof {
                assert(self.buffer@[row as int] =~= old(self).buffer@[row + 1]);
            }
            row += 1;
        }
        self.clear_line(BUFFER_HEIGHT - 1);
        self.column_position = 0;
        proof {
            assert(self.buffer@ =~= scrolled(old(self).buffer@, old(self).color_code));
        }
    }

    /// Fills line `row` with blanks in the writer's color.
    pub fn clear_line(&mut self, row: usize)
        requires
            old(self).buffer.wf(),
            row < BUFFER_HEIGHT,
        ensures
            final(self).buffer.wf(),
            final(self).color_code == old(self).color_code,
            final(self).column_position == old(self).column_position,
            final(self).buffer@ == old(self).buffer@.update(
                row as int,
                Seq::new(
                    BUFFER_WIDTH as nat,
                    |col: int| ScreenChar { ascii_character: 0x20, color_code: old(self).color_code },
                ),
            ),
    {
        let mut col: usize = 0;
        while col < BUFFER_WIDTH
            invariant
                col <= BUFFER_WIDTH,
                row < BUFFER_HEIGHT,
                self.buffer.wf(),
                self.color_code == old(self).color_code,
                self.column_position == old(self).column_position,
                forall|r: int| 0 <= r < BUFFER_HEIGHT && r != row ==> #[trigger] self.buffer@[r]
                    == old(self).buffer@[r],
                forall|c: int|
                    0 <= c < col ==> #[trigger] self.buffer@[row as int][c] == (ScreenChar {
                        ascii_character: 0x20,
                        color_code: self.color_code,
                    }),
            decreases BUFFER_WIDTH - col,
        {
            let ghost prev = *self;
            self.buffer.chars[row][col] = ScreenChar { ascii_character: 0x20, color_code: self.color_code };
            proof {
                assert forall|r: int| 0 <= r < BUFFER_HEIGHT && r != row implies #[trigger] self.buffer@[r]
                    == old(self).buffer@[r] by {
                    assert(self.buffer@[r] == prev.buffer@[r]);
                }
                assert forall|c: int| 0 <= c < col + 1 implies #[trigger] self.buffer@[row as int][c] == (
                ScreenChar { ascii_character: 0x20, color_code: self.color_code }) by {
                    if c != col {
                        assert(self.buffer@[row as int][c] == prev.buffer@[row as int][c]);
                    }
                }
            }
            col += 1;
        }
        proof {
            assert(self.buffer@[row as int] =~= Seq::new(
                BUFFER_WIDTH as nat,
                |col: int| ScreenChar { ascii_character: 0x20, color_code: old(self).color_code },
            ));
            assert(self.buffer@ =~= old(self).buffer@.update(
                row as int,
                Seq::new(
                    BUFFER_WIDTH as nat,
                    |col: int| ScreenChar { ascii_character: 0x20, color_code: old(self).color_code },
                ),
            ));
        }
    }
}

} // verus!
