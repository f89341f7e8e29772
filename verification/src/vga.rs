//! Drawing into a linear frame of one byte for each pixel, and the palette
//! of sixteen colors that goes with it.

use crate::font::{Font, FONT_HEIGHT, FONT_WIDTH};
use vstd::prelude::*;
use vstd::string::StrSliceExecFns;

verus! {

/// Red, green and blue of the sixteen colors, eight bits each.
pub const BASIC_RGB_TABLE: [[u32; 3]; 16] = [
    [0x00, 0x00, 0x00],  // black
    [0xff, 0x00, 0x00],  // light red
    [0x00, 0xff, 0x00],  // light green
    [0xff, 0xff, 0x00],  // light yellow
    [0x00, 0x00, 0xff],  // light blue
    [0xff, 0x00, 0xff],  // light purple
    [0x00, 0xff, 0xff],  // light cyan
    [0xff, 0xff, 0xff],  // white
    [0xc6, 0xc6, 0xc6],  // light gray
    [0x84, 0x00, 0x00],  // dark red
    [0x00, 0x84, 0x00],  // dark green
    [0x84, 0x84, 0x00],  // dark yellow
    [0x00, 0x00, 0x84],  // dark blue
    [0x84, 0x00, 0x84],  // dark purple
    [0x00, 0x84, 0x84],  // dark cyan
    [0x84, 0x84, 0x84],  // dark gray
];

/// The sixteen colors, by their index in the palette.
#[derive(Copy, Clone, Debug, PartialEq, Eq, Structural)]
pub enum Color {
    Black,
    LightRed,
    LightGreen,
    LightYellow,
    LightBlue,
    LightPurple,
    LightCyan,
    White,
    LightGray,
    DarkRed,
    DarkGreen,
    DarkYellow,
    DarkBlue,
    DarkPurple,
    DarkCyan,
    DarkGray,
}

impl Color {
    /// The index of the color in the palette.
    pub open spec fn spec_code(self) -> u8 {
        match self {
            Color::Black => 0,
            Color::LightRed => 1,
            Color::LightGreen => 2,
            Color::LightYellow => 3,
            Color::LightBlue => 4,
            Color::LightPurple => 5,
            Color::LightCyan => 6,
            Color::White => 7,
            Color::LightGray => 8,
            Color::DarkRed => 9,
            Color::DarkGreen => 10,
            Color::DarkYellow => 11,
            Color::DarkBlue => 12,
            Color::DarkPurple => 13,
            Color::DarkCyan => 14,
            Color::DarkGray => 15,
        }
    }

    /// The index of the color in the palette.
    #[verifier::when_used_as_spec(spec_code)]
    pub fn code(self) -> (code: u8)
        ensures
            code == self.spec_code(),
    {
        match self {
            Color::Black => 0,
            Color::LightRed => 1,
            Color::LightGreen => 2,
            Color::LightYellow => 3,
            Color::LightBlue => 4,
            Color::LightPurple => 5,
            Color::LightCyan => 6,
            Color::White => 7,
            Color::LightGray => 8,
            Color::DarkRed => 9,
            Color::DarkGreen => 10,
            Color::DarkYellow => 11,
            Color::DarkBlue => 12,
            Color::DarkPurple => 13,
            Color::DarkCyan => 14,
            Color::DarkGray => 15,
        }
    }
}

/// The register of the display that selects the palette entry to set.
pub const PALETTE_INDEX: u32 = 0x03c8;

/// The register of the display that takes the colors of the entries.
pub const PALETTE_DATA: u32 = 0x03c9;

/// The writes that set the palette entries from `start` to `end`: the
/// register and the value of each, in order. The first write selects the
/// entry `start`; three writes for each entry follow, with the upper six
/// bits of its red, its green and its blue.
pub open spec fn palette_writes(start: u32, end: u32, rgb: Seq<Seq<u32>>) -> Seq<(u32, u32)> {
    let entries = if start <= end {
        end - start + 1
    } else {
        0
    };
    Seq::new(
        (1 + 3 * entries) as nat,
        |k: int|
            if k == 0 {
                (PALETTE_INDEX, start)
            } else {
                (PALETTE_DATA, rgb[start + (k - 1) / 3][(k - 1) % 3] >> 2)
            },
    )
}

/// The writes that set the palette to the sixteen colors.
pub fn init_palette() -> (writes: Vec<(u32, u32)>)
    ensures
        writes@ == palette_writes(0, 15, Seq::new(16, |i: int| BASIC_RGB_TABLE[i]@)),
{
    set_palette(0, 15, BASIC_RGB_TABLE)
}

/// The writes that set the palette entries from `start` to `end`, both
/// included, to the colors of `rgb`. The caller sends them to the display
/// with interrupts off.
pub fn set_palette(start: u32, end: u32, rgb: [[u32; 3]; 16]) -> (writes: Vec<(u32, u32)>)
    requires
        start <= end ==> end < 16,
    ensures
        writes@ == palette_writes(start, end, Seq::new(16, |i: int| rgb[i]@)),
{
    let ghost table = Seq::new(16, |i: int| rgb[i]@);
    let mut writes: Vec<(u32, u32)> = Vec::new();
    writes.push((0x03c8, start));
    if start > end {
        assert(writes@ =~= palette_writes(start, end, table));
        return writes;
    }
    let mut i = start;
    while i <= end
        invariant
            start <= i <= end + 1,
            end < 16,
            table == Seq::new(16, |i: int| rgb[i]@),
            writes@.len() == 1 + 3 * (i - start),
            forall|k: int|
                0 <= k < writes@.len() ==> #[trigger] writes@[k] == palette_writes(start, end, table)[k],
        decreases end + 1 - i,
    {
        let index = i as usize;
        let ghost done = writes@.len() as int;
        writes.push((0x03c9, rgb[index][0] >> 2));
        writes.push((0x03c9, rgb[index][1] >> 2));
        writes.push((0x03c9, rgb[index][2] >> 2));
        proof {
            assert(table[i as int] == rgb[i as int]@);
            assert((done - 1) / 3 == i - start && (done - 1) % 3 == 0);
            assert(done / 3 == i - start && done % 3 == 1);
            assert((done + 1) / 3 == i - start && (done + 1) % 3 == 2);
        }
        i += 1;
    }
    assert(writes@ =~= palette_writes(start, end, table));
    writes
}

/// A frame of `screenx` by `screeny` pixels, one byte each, row by row.
pub struct ScreenInfo {
    pub screenx: u16,
    pub screeny: u16,
    pub vram: Vec<u8>,
}

/// Whether `k` is the offset of a pixel of the box from `(x0, y0)` to
/// `(x1, y1)`, both included, in a frame whose rows are `xsize` long.
pub open spec fn box_offset(xsize: int, x0: int, y0: int, x1: int, y1: int, k: int) -> bool {
    exists|x: int, y: int| x0 <= x <= x1 && y0 <= y <= y1 && k == #[trigger] pixel_offset(xsize, x, y)
}

/// The offset of the pixel `(x, y)` in a frame whose rows are `xsize` long.
pub open spec fn pixel_offset(xsize: int, x: int, y: int) -> int {
    y * xsize + x
}

/// The frame after the box from `(x0, y0)` to `(x1, y1)` is filled with `color`.
pub open spec fn box_filled(vram: Seq<u8>, xsize: int, color: u8, x0: int, y0: int, x1: int, y1: int) -> Seq<
    u8,
> {
    Seq::new(
        vram.len(),
        |k: int|
            if box_offset(xsize, x0, y0, x1, y1, k) {
                color
            } else {
                vram[k]
            },
    )
}

/// Offsets grow with the rows and the columns.
pub proof fn lemma_offset_monotone(xsize: int, x: int, y: int, x1: int, y1: int)
    requires
        0 <= xsize,
        0 <= x <= x1,
        0 <= y <= y1,
    ensures
        0 <= pixel_offset(xsize, x, y) <= pixel_offset(xsize, x1, y1),
{
    assert(0 <= y * xsize <= y1 * xsize) by (nonlinear_arith)
        requires
            0 <= xsize,
            0 <= y <= y1,
    ;
}

impl ScreenInfo {
    /// Whether the box from `(x0, y0)` to `(x1, y1)` can be filled: it is
    /// empty, or the offset of its last pixel is an offset of the frame and
    /// fits in sixteen bits.
    pub open spec fn box_ok(self, x0: u16, y0: u16, x1: u16, y1: u16) -> bool {
        x0 <= x1 && y0 <= y1 ==> pixel_offset(self.screenx as int, x1 as int, y1 as int) <= u16::MAX
            && pixel_offset(self.screenx as int, x1 as int, y1 as int) < self.vram@.len()
    }
}

/// Fills the box from `(x0, y0)` to `(x1, y1)`, both included, with `color`.
pub fn boxfill8(sinfo: &mut ScreenInfo, color: Color, x0: u16, y0: u16, x1: u16, y1: u16)
    requires
        old(sinfo).box_ok(x0, y0, x1, y1),
    ensures
        final(sinfo).screenx == old(sinfo).screenx,
        final(sinfo).screeny == old(sinfo).screeny,
        final(sinfo).vram@ == box_filled(
            old(sinfo).vram@,
            old(sinfo).screenx as int,
            color.code(),
            x0 as int,
            y0 as int,
            x1 as int,
            y1 as int,
        ),
{
    let xsize = sinfo.screenx;
    let ghost before = sinfo.vram@;
    if x0 > x1 || y0 > y1 {
        proof {
            assert forall|k: int| !box_offset(xsize as int, x0 as int, y0 as int, x1 as int, y1 as int, k) by {}
            assert(sinfo.vram@ =~= box_filled(
                before,
                xsize as int,
                color.code(),
                x0 as int,
                y0 as int,
                x1 as int,
                y1 as int,
            ));
        }
        return ;
    }
    let mut y: u32 = y0 as u32;
    while y <= y1 as u32
        invariant
            x0 <= x1,
            y0 <= y <= y1 + 1,
            xsize == sinfo.screenx,
            sinfo.screenx == old(sinfo).screenx,
            sinfo.screeny == old(sinfo).screeny,
            sinfo.vram@.len() == before.len(),
            pixel_offset(xsize as int, x1 as int, y1 as int) <= u16::MAX,
            pixel_offset(xsize as int, x1 as int, y1 as int) < before.len(),
            forall|k: int|
                0 <= k < before.len() ==> #[trigger] sinfo.vram@[k] == (if box_offset(
                    xsize as int,
                    x0 as int,
                    y0 as int,
                    x1 as int,
                    y - 1,
                    k,
                ) {
                    color.code()
                } else {
                    before[k]
                }),
        decreases y1 + 1 - y,
    {
        let mut x: u32 = x0 as u32;
        while x <= x1 as u32
            invariant
                x0 <= x <= x1 + 1,
                y0 <= y <= y1,
                xsize == sinfo.screenx,
                sinfo.screenx == old(sinfo).screenx,
                sinfo.screeny == old(sinfo).screeny,
                sinfo.vram@.len() == before.len(),
                pixel_offset(xsize as int, x1 as int, y1 as int) <= u16::MAX,
                pixel_offset(xsize as int, x1 as int, y1 as int) < before.len(),
                forall|k: int|
                    0 <= k < before.len() ==> #[trigger] sinfo.vram@[k] == (if box_offset(
                        xsize as int,
                        x0 as int,
                        y0 as int,
                        x1 as int,
                        y - 1,
                        k,
                    ) || box_offset(xsize as int, x0 as int, y as int, x - 1, y as int, k) {
                        color.code()
                    } else {
                        before[k]
                    }),
            decreases x1 + 1 - x,
        {
            proof {
                lemma_offset_monotone(xsize as int, x as int, y as int, x1 as int, y1 as int);
            }
            let row = y as u16;
            let col = x as u16;
            let offset = row * xsize + col;
            let ghost prev = sinfo.vram@;
            sinfo.vram[offset as usize] = color.code();
            proof {
                assert(offset == pixel_offset(xsize as int, x as int, y as int));
                assert forall|k: int| 0 <= k < before.len() implies #[trigger] sinfo.vram@[k] == (if box_offset(
                    xsize as int,
                    x0 as int,
                    y0 as int,
                    x1 as int,
                    y - 1,
                    k,
                ) || box_offset(xsize as int, x0 as int, y as int, x as int, y as int, k) {
                    color.code()
                } else {
                    before[k]
                }) by {
                    assert(sinfo.vram@[k] == if k == offset {
                        color.code()
                    } else {
                        prev[k]
                    });
                    lemma_box_grows_right(xsize as int, x0 as int, y as int, x as int, k);
                }
            }
            x += 1;
        }
        proof {
            assert forall|k: int| 0 <= k < before.len() implies #[trigger] sinfo.vram@[k] == (if box_offset(
                xsize as int,
                x0 as int,
                y0 as int,
                x1 as int,
                y as int,
                k,
            ) {
                color.code()
            } else {
                before[k]
            }) by {
                lemma_box_grows_down(xsize as int, x0 as int, y0 as int, x1 as int, y as int, k);
            }
        }
        y += 1;
    }
    proof {
        assert(sinfo.vram@ =~= box_filled(
            before,
            xsize as int,
            color.code(),
            x0 as int,
            y0 as int,
            x1 as int,
            y1 as int,
        ));
    }
}

/// A row of a box that reaches one pixel further holds the offsets it held
/// and the offset of that pixel.
pub proof fn lemma_box_grows_right(xsize: int, x0: int, y: int, x: int, k: int)
    ensures
        box_offset(xsize, x0, y, x, y, k) <==> (box_offset(xsize, x0, y, x - 1, y, k) || (x0 <= x && k
            == pixel_offset(xsize, x, y))),
{
    if box_offset(xsize, x0, y, x, y, k) {
        let (a, b) = choose|a: int, b: int|
            x0 <= a <= x && y <= b <= y && k == #[trigger] pixel_offset(xsize, a, b);
        if a < x {
            assert(k == pixel_offset(xsize, a, b));
        }
    }
    if box_offset(xsize, x0, y, x - 1, y, k) {
        let (a, b) = choose|a: int, b: int|
            x0 <= a <= x - 1 && y <= b <= y && k == #[trigger] pixel_offset(xsize, a, b);
        assert(x0 <= a <= x && k == pixel_offset(xsize, a, b));
    }
    if x0 <= x && k == pixel_offset(xsize, x, y) {
        assert(box_offset(xsize, x0, y, x, y, k));
    }
}

/// A box that reaches one row further holds the offsets it held and those
/// of that row.
pub proof fn lemma_box_grows_down(xsize: int, x0: int, y0: int, x1: int, y: int, k: int)
    ensures
        box_offset(xsize, x0, y0, x1, y, k) <==> (box_offset(xsize, x0, y0, x1, y - 1, k) || (y0 <= y
            && box_offset(xsize, x0, y, x1, y, k))),
{
    if box_offset(xsize, x0, y0, x1, y, k) {
        let (a, b) = choose|a: int, b: int|
            x0 <= a <= x1 && y0 <= b <= y && k == #[trigger] pixel_offset(xsize, a, b);
        if b < y {
            assert(k == pixel_offset(xsize, a, b));
        } else {
            assert(k == pixel_offset(xsize, a, y));
        }
    }
    if box_offset(xsize, x0, y0, x1, y - 1, k) {
        let (a, b) = choose|a: int, b: int|
            x0 <= a <= x1 && y0 <= b <= y - 1 && k == #[trigger] pixel_offset(xsize, a, b);
        assert(y0 <= b <= y && k == pixel_offset(xsize, a, b));
    }
    if y0 <= y && box_offset(xsize, x0, y, x1, y, k) {
        let (a, b) = choose|a: int, b: int|
            x0 <= a <= x1 && y <= b <= y && k == #[trigger] pixel_offset(xsize, a, b);
        assert(y0 <= b <= y && k == pixel_offset(xsize, a, b));
    }
}

/// The frame after `boxes` are filled one after the other: each box has a
/// color and the corners `(x0, y0)` and `(x1, y1)`.
pub open spec fn boxes_filled(vram: Seq<u8>, xsize: int, boxes: Seq<(Color, u16, u16, u16, u16)>) -> Seq<u8>
    decreases boxes.len(),
{
    if boxes.len() == 0 {
        vram
    } else {
        box_filled(
            boxes_filled(vram, xsize, boxes.drop_last()),
            xsize,
            boxes.last().0.code(),
            boxes.last().1 as int,
            boxes.last().2 as int,
            boxes.last().3 as int,
            boxes.last().4 as int,
        )
    }
}

/// The boxes of the desktop on a frame of the given size: the desktop, the
/// task bar with its raised button on the left and its sunken tray on the
/// right.
pub open spec fn screen_boxes(xsize: u16, ysize: u16) -> Seq<(Color, u16, u16, u16, u16)> {
    seq![
        (Color::DarkCyan, 0u16, 0u16, (xsize - 1) as u16, (ysize - 29) as u16),
        (Color::LightGray, 0u16, (ysize - 28) as u16, (xsize - 1) as u16, (ysize - 28) as u16),
        (Color::White, 0u16, (ysize - 27) as u16, (xsize - 1) as u16, (ysize - 27) as u16),
        (Color::LightGray, 0u16, (ysize - 26) as u16, (xsize - 1) as u16, (ysize - 1) as u16),
        (Color::White, 3u16, (ysize - 24) as u16, 59u16, (ysize - 24) as u16),
        (Color::White, 2u16, (ysize - 24) as u16, 2u16, (ysize - 4) as u16),
        (Color::DarkGray, 3u16, (ysize - 4) as u16, 59u16, (ysize - 4) as u16),
        (Color::DarkGray, 59u16, (ysize - 23) as u16, 59u16, (ysize - 5) as u16),
        (Color::Black, 2u16, (ysize - 3) as u16, 59u16, (ysize - 3) as u16),
        (Color::Black, 60u16, (ysize - 24) as u16, 60u16, (ysize - 3) as u16),
        (Color::DarkGray, (xsize - 47) as u16, (ysize - 24) as u16, (xsize - 4) as u16, (ysize - 24) as u16),
        (Color::DarkGray, (xsize - 47) as u16, (ysize - 23) as u16, (xsize - 47) as u16, (ysize - 4) as u16),
        (Color::White, (xsize - 47) as u16, (ysize - 3) as u16, (xsize - 4) as u16, (ysize - 3) as u16),
        (Color::White, (xsize - 3) as u16, (ysize - 24) as u16, (xsize - 3) as u16, (ysize - 3) as u16),
    ]
}

/// Filling a box keeps the length of the frame.
pub proof fn lemma_boxes_filled_len(vram: Seq<u8>, xsize: int, boxes: Seq<(Color, u16, u16, u16, u16)>)
    ensures
        boxes_filled(vram, xsize, boxes).len() == vram.len(),
    decreases boxes.len(),
{
    if boxes.len() > 0 {
        lemma_boxes_filled_len(vram, xsize, boxes.drop_last());
    }
}

/// Paints the desktop into the frame. The frame must be at least 61 pixels
/// wide and 29 high, and the offset of its last pixel must fit in sixteen
/// bits.
pub fn init_screen(sinfo: &mut ScreenInfo)
    requires
        old(sinfo).screenx >= 61,
        old(sinfo).screeny >= 29,
        pixel_offset(old(sinfo).screenx as int, old(sinfo).screenx - 1, old(sinfo).screeny - 1) <= u16::MAX,
        pixel_offset(old(sinfo).screenx as int, old(sinfo).screenx - 1, old(sinfo).screeny - 1) < old(
            sinfo,
        ).vram@.len(),
    ensures
        final(sinfo).screenx == old(sinfo).screenx,
        final(sinfo).screeny == old(sinfo).screeny,
        final(sinfo).vram@ == boxes_filled(
            old(sinfo).vram@,
            old(sinfo).screenx as int,
            screen_boxes(old(sinfo).screenx, old(sinfo).screeny),
        ),
{
    let xsize = sinfo.screenx;
    let ysize = sinfo.screeny;
    let mut boxes_to_draw: Vec<(Color, u16, u16, u16, u16)> = Vec::new();
    boxes_to_draw.push((Color::DarkCyan, 0, 0, xsize - 1, ysize - 29));
    boxes_to_draw.push((Color::LightGray, 0, ysize - 28, xsize - 1, ysize - 28));
    boxes_to_draw.push((Color::White, 0, ysize - 27, xsize - 1, ysize - 27));
    boxes_to_draw.push((Color::LightGray, 0, ysize - 26, xsize - 1, ysize - 1));
    boxes_to_draw.push((Color::White, 3, ysize - 24, 59, ysize - 24));
    boxes_to_draw.push((Color::White, 2, ysize - 24, 2, ysize - 4));
    boxes_to_draw.push((Color::DarkGray, 3, ysize - 4, 59, ysize - 4));
    boxes_to_draw.push((Color::DarkGray, 59, ysize - 23, 59, ysize - 5));
    boxes_to_draw.push((Color::Black, 2, ysize - 3, 59, ysize - 3));
    boxes_to_draw.push((Color::Black, 60, ysize - 24, 60, ysize - 3));
    boxes_to_draw.push((Color::DarkGray, xsize - 47, ysize - 24, xsize - 4, ysize - 24));
    boxes_to_draw.push((Color::DarkGray, xsize - 47, ysize - 23, xsize - 47, ysize - 4));
    boxes_to_draw.push((Color::White, xsize - 47, ysize - 3, xsize - 4, ysize - 3));
    boxes_to_draw.push((Color::White, xsize - 3, ysize - 24, xsize - 3, ysize - 3));
    assert(boxes_to_draw@ =~= screen_boxes(xsize, ysize));
    let mut n: usize = 0;
    while n < boxes_to_draw.len()
        invariant
            n <= boxes_to_draw@.len(),
            xsize == old(sinfo).screenx,
            ysize == old(sinfo).screeny,
            xsize >= 61,
            ysize >= 29,
            sinfo.screenx == xsize,
            sinfo.screeny == ysize,
            boxes_to_draw@ == screen_boxes(xsize, ysize),
            pixel_offset(xsize as int, xsize - 1, ysize - 1) <= u16::MAX,
            pixel_offset(xsize as int, xsize - 1, ysize - 1) < old(sinfo).vram@.len(),
            sinfo.vram@ == boxes_filled(old(sinfo).vram@, xsize as int, boxes_to_draw@.take(n as int)),
        decreases boxes_to_draw@.len() - n,
    {
        let info = boxes_to_draw[n];
        proof {
            lemma_boxes_filled_len(old(sinfo).vram@, xsize as int, boxes_to_draw@.take(n as int));
            assert(info.3 <= xsize - 1 && info.4 <= ysize - 1);
            lemma_offset_monotone(xsize as int, info.3 as int, info.4 as int, xsize - 1, ysize - 1);
            assert(boxes_to_draw@.take(n + 1).drop_last() =~= boxes_to_draw@.take(n as int));
            assert(boxes_to_draw@.take(n + 1).last() == info);
        }
        boxfill8(sinfo, info.0, info.1, info.2, info.3, info.4);
        n += 1;
    }
    proof {
        assert(boxes_to_draw@.take(boxes_to_draw@.len() as int) =~= boxes_to_draw@);
    }
}

/// A writer of text into a frame: the frame, the cursor `(x, y)`, the
/// column `x0` at which lines start, and the color of the text.
pub struct ScreenStringWriter {
    pub sinfo: ScreenInfo,
    pub x: isize,
    pub x0: isize,
    pub y: isize,
    pub color: Color,
}

/// Whether `k` is the offset of a pixel that the glyph of `id` sets when it
/// is drawn with its top left corner at `(x, y)`.
pub open spec fn glyph_offset(font: Font, id: u8, xsize: int, x: int, y: int, k: int) -> bool {
    exists|bit: int, line: int| #[trigger]
        font.lit(id as char, bit, line) && k == pixel_offset(xsize, x, y + line) + bit
}

/// The frame after the glyph of `id` is drawn in `color` with its top left
/// corner at `(x, y)`.
pub open spec fn glyph_drawn(vram: Seq<u8>, font: Font, id: u8, xsize: int, x: int, y: int, color: u8) -> Seq<
    u8,
> {
    Seq::new(
        vram.len(),
        |k: int|
            if glyph_offset(font, id, xsize, x, y, k) {
                color
            } else {
                vram[k]
            },
    )
}

/// Whether the glyph of `id` can be drawn at `(x, y)` into a frame of `len`
/// bytes: the start of each of its sixteen rows is an offset of the frame or
/// the offset behind it, the product on the way to it is in the range of the
/// coordinates, and each pixel that it sets is in the frame.
pub open spec fn glyph_ok(len: int, font: Font, id: u8, xsize: int, x: int, y: int) -> bool {
    &&& forall|line: int|
        0 <= line < FONT_HEIGHT ==> 0 <= #[trigger] pixel_offset(xsize, x, y + line) <= len
            && pixel_offset(xsize, x, y + line) <= isize::MAX && isize::MIN <= (y + line) * xsize
            <= isize::MAX
    &&& y + FONT_HEIGHT <= isize::MAX
    &&& forall|bit: int, line: int| #[trigger]
        font.lit(id as char, bit, line) ==> pixel_offset(xsize, x, y + line) + bit < len
}

/// The state of a writer that matters for its text: the frame, the cursor,
/// and the column at which lines start.
pub struct TextState {
    pub vram: Seq<u8>,
    pub x: int,
    pub y: int,
}

impl ScreenStringWriter {
    /// The frame and the cursor.
    pub open spec fn state(self) -> TextState {
        TextState { vram: self.sinfo.vram@, x: self.x as int, y: self.y as int }
    }

    /// The state after the line is broken.
    pub open spec fn broken(self, state: TextState) -> TextState {
        TextState { vram: state.vram, x: self.x0 as int, y: state.y + FONT_HEIGHT }
    }

    /// Whether `c` can be written in `state`.
    pub open spec fn char_ok(self, font: Font, state: TextState, c: char) -> bool {
        if c == '\n' {
            state.y + FONT_HEIGHT <= isize::MAX
        } else {
            &&& glyph_ok(state.vram.len() as int, font, c as u8, self.sinfo.screenx as int, state.x, state.y)
            &&& state.x + FONT_WIDTH <= isize::MAX
        }
    }

    /// The state after `c` is written in `state`: a line feed breaks the
    /// line; any other character is drawn, and the cursor moves one glyph
    /// to the right, or to the next line if the glyph has reached the right
    /// edge.
    pub open spec fn char_written(self, font: Font, state: TextState, c: char) -> TextState {
        if c == '\n' {
            self.broken(state)
        } else {
            let drawn = TextState {
                vram: glyph_drawn(
                    state.vram,
                    font,
                    c as u8,
                    self.sinfo.screenx as int,
                    state.x,
                    state.y,
                    self.color.code(),
                ),
                ..state
            };
            if self.sinfo.screenx <= state.x + FONT_WIDTH {
                self.broken(drawn)
            } else {
                TextState { x: state.x + FONT_WIDTH, ..drawn }
            }
        }
    }

    /// The state after the characters of `s` are written, one after the other.
    pub open spec fn text_written(self, font: Font, state: TextState, s: Seq<char>) -> TextState
        decreases s.len(),
    {
        if s.len() == 0 {
            state
        } else {
            self.char_written(font, self.text_written(font, state, s.drop_last()), s.last())
        }
    }

    /// Whether the characters of `s` can be written, one after the other.
    pub open spec fn text_ok(self, font: Font, state: TextState, s: Seq<char>) -> bool
        decreases s.len(),
    {
        s.len() == 0 || (self.text_ok(font, state, s.drop_last()) && self.char_ok(
            font,
            self.text_written(font, state, s.drop_last()),
            s.last(),
        ))
    }

    /// What is written for a string: the string itself if all of it is
    /// ASCII, a complaint if not.
    pub open spec fn shown_text(s: Seq<char>) -> Seq<char> {
        if vstd::utf8::is_ascii_chars(s) {
            s
        } else {
            "NOT ASCII!!!"@
        }
    }

    /// A writer at `(x, y)` whose lines start at column `x`.
    pub fn new(sinfo: ScreenInfo, x: isize, y: isize, color: Color) -> (writer: Self)
        ensures
            writer.sinfo == sinfo,
            writer.x == x,
            writer.x0 == x,
            writer.y == y,
            writer.color == color,
    {
        ScreenStringWriter { sinfo, x, x0: x, y, color }
    }

    /// Breaks the line: the cursor goes to the start column, one line down.
    pub fn newline(&mut self)
        requires
            old(self).y + FONT_HEIGHT <= isize::MAX,
        ensures
            *final(self) == (ScreenStringWriter {
                x: old(self).x0,
                y: (old(self).y + FONT_HEIGHT) as isize,
                ..*old(self)
            }),
            final(self).state() == old(self).broken(old(self).state()),
    {
        self.x = self.x0;
        self.y += FONT_HEIGHT;
    }

    /// Draws the glyph of `id` with its top left corner at the cursor.
    pub fn putfont8(&mut self, font: &Font, id: u8)
        requires
            font.wf(),
            glyph_ok(
                old(self).sinfo.vram@.len() as int,
                *font,
                id,
                old(self).sinfo.screenx as int,
                old(self).x as int,
                old(self).y as int,
            ),
        ensures
            *final(self) == (ScreenStringWriter {
                sinfo: ScreenInfo { vram: final(self).sinfo.vram, ..old(self).sinfo },
                ..*old(self)
            }),
            final(self).sinfo.vram@ == glyph_drawn(
                old(self).sinfo.vram@,
                *font,
                id,
                old(self).sinfo.screenx as int,
                old(self).x as int,
                old(self).y as int,
                old(self).color.code(),
            ),
    {
        let x = self.x;
        let y = self.y;
        let color = self.color;
        let xsize = self.sinfo.screenx;
        let glyph = font.glyph(id as char);
        let ghost before = self.sinfo.vram@;
        let ghost c = id as char;
        let mut i: isize = 0;
        while i < FONT_HEIGHT
            invariant
                0 <= i <= FONT_HEIGHT,
                font.wf(),
                c == id as char,
                glyph == font.glyphs@[c as u32 as int],
                x == old(self).x,
                y == old(self).y,
                xsize == old(self).sinfo.screenx,
                color == old(self).color,
                before == old(self).sinfo.vram@,
                glyph_ok(before.len() as int, *font, id, xsize as int, x as int, y as int),
                *self == (ScreenStringWriter {
                    sinfo: ScreenInfo { vram: self.sinfo.vram, ..old(self).sinfo },
                    ..*old(self)
                }),
                self.sinfo.vram@.len() == before.len(),
                forall|k: int|
                    0 <= k < before.len() ==> #[trigger] self.sinfo.vram@[k] == (if exists|bit: int, line: int|
                     #[trigger] font.lit(c, bit, line) && line < i && k == pixel_offset(
                        xsize as int,
                        x as int,
                        y + line,
                    ) + bit {
                        color.code()
                    } else {
                        before[k]
                    }),
            decreases FONT_HEIGHT - i,
        {
            let d = glyph[i as usize];
            assert(0 <= pixel_offset(xsize as int, x as int, y + i) <= before.len());
            assert((y + i) * (xsize as int) == pixel_offset(xsize as int, x as int, y + i) - x);
            let p = (y + i) * (xsize as isize) + x;
            let mut bit: isize = 0;
            while bit < FONT_WIDTH
                invariant
                    0 <= i < FONT_HEIGHT,
                    0 <= bit <= FONT_WIDTH,
                    font.wf(),
                    c == id as char,
                    glyph == font.glyphs@[c as u32 as int],
                    d == glyph@[i as int],
                    p == pixel_offset(xsize as int, x as int, y + i),
                    0 <= p <= before.len(),
                    xsize == old(self).sinfo.screenx,
                    color == old(self).color,
                    before == old(self).sinfo.vram@,
                    glyph_ok(before.len() as int, *font, id, xsize as int, x as int, y as int),
                    *self == (ScreenStringWriter {
                        sinfo: ScreenInfo { vram: self.sinfo.vram, ..old(self).sinfo },
                        ..*old(self)
                    }),
                    self.sinfo.vram@.len() == before.len(),
                    forall|k: int|
                        0 <= k < before.len() ==> #[trigger] self.sinfo.vram@[k] == (if exists|
                            b: int,
                            line: int,
                        |
                         #[trigger] font.lit(c, b, line) && (line < i || (line == i && b < bit)) && k
                            == pixel_offset(xsize as int, x as int, y + line) + b {
                            color.code()
                        } else {
                            before[k]
                        }),
                decreases FONT_WIDTH - bit,
            {
                let ghost prev = self.sinfo.vram@;
                if crate::font::row_bit_set(d, bit) {
                    assert(font.lit(c, bit as int, i as int));
                    self.sinfo.vram[p as usize + bit as usize] = color.code();
                }
                proof {
                    assert forall|k: int| 0 <= k < before.len() implies #[trigger] self.sinfo.vram@[k] == (
                    if exists|b: int, line: int|
                     #[trigger] font.lit(c, b, line) && (line < i || (line == i && b < bit + 1)) && k
                        == pixel_offset(xsize as int, x as int, y + line) + b {
                        color.code()
                    } else {
                        before[k]
                    }) by {
                        if font.lit(c, bit as int, i as int) && k == p + bit {
                            assert(font.lit(c, bit as int, i as int) && (i < i || (i == i
                                && bit < bit + 1)) && k
                                == pixel_offset(xsize as int, x as int, y + i) + bit);
                        } else {
                            assert(self.sinfo.vram@[k] == prev[k]);
                            if exists|b: int, line: int|
                             #[trigger] font.lit(c, b, line) && (line < i || (line == i && b < bit + 1)) && k
                                == pixel_offset(xsize as int, x as int, y + line) + b {
                                let (b, line) = choose|b: int, line: int|
                                 #[trigger] font.lit(c, b, line) && (line < i || (line == i && b < bit + 1))
                                    && k == pixel_offset(xsize as int, x as int, y + line) + b;
                                assert(font.lit(c, b, line) && (line < i || (line == i && b < bit)) && k
                                    == pixel_offset(xsize as int, x as int, y + line) + b);
                            }
                        }
                    }
                }
                bit += 1;
            }
            proof {
                assert forall|k: int| 0 <= k < before.len() implies #[trigger] self.sinfo.vram@[k] == (
                if exists|b: int, line: int|
                 #[trigger] font.lit(c, b, line) && line < i + 1 && k == pixel_offset(
                    xsize as int,
                    x as int,
                    y + line,
                ) + b {
                    color.code()
                } else {
                    before[k]
                }) by {
                    if exists|b: int, line: int|
                     #[trigger] font.lit(c, b, line) && line < i + 1 && k == pixel_offset(
                        xsize as int,
                        x as int,
                        y + line,
                    ) + b {
                        let (b, line) = choose|b: int, line: int|
                         #[trigger] font.lit(c, b, line) && line < i + 1 && k == pixel_offset(
                            xsize as int,
                            x as int,
                            y + line,
                        ) + b;
                        assert(font.lit(c, b, line) && (line < i || (line == i && b < FONT_WIDTH)) && k
                            == pixel_offset(xsize as int, x as int, y + line) + b);
                    }
                    if exists|b: int, line: int|
                     #[trigger] font.lit(c, b, line) && (line < i || (line == i && b < FONT_WIDTH)) && k
                        == pixel_offset(xsize as int, x as int, y + line) + b {
                        let (b, line) = choose|b: int, line: int|
                         #[trigger] font.lit(c, b, line) && (line < i || (line == i && b < FONT_WIDTH)) && k
                            == pixel_offset(xsize as int, x as int, y + line) + b;
                        assert(font.lit(c, b, line) && line < i + 1 && k == pixel_offset(
                            xsize as int,
                            x as int,
                            y + line,
                        ) + b);
                    }
                }
            }
            i += 1;
        }
        proof {
            assert forall|k: int| 0 <= k < before.len() implies #[trigger] self.sinfo.vram@[k] == glyph_drawn(
                before,
                *font,
                id,
                xsize as int,
                x as int,
                y as int,
                color.code(),
            )[k] by {
                if glyph_offset(*font, id, xsize as int, x as int, y as int, k) {
                    let (b, line) = choose|b: int, line: int|
                     #[trigger] font.lit(c, b, line) && k == pixel_offset(xsize as int, x as int, y + line) + b;
                    assert(font.lit(c, b, line) && line < FONT_HEIGHT && k == pixel_offset(
                        xsize as int,
                        x as int,
                        y + line,
                    ) + b);
                }
                if exists|b: int, line: int|
                 #[trigger] font.lit(c, b, line) && line < FONT_HEIGHT && k == pixel_offset(
                    xsize as int,
                    x as int,
                    y + line,
                ) + b {
                    let (b, line) = choose|b: int, line: int|
                     #[trigger] font.lit(c, b, line) && line < FONT_HEIGHT && k == pixel_offset(
                        xsize as int,
                        x as int,
                        y + line,
                    ) + b;
                    assert(font.lit(c, b, line) && k == pixel_offset(xsize as int, x as int, y + line) + b);
                }
            }
            assert(self.sinfo.vram@ =~= glyph_drawn(
                before,
                *font,
                id,
                xsize as int,
                x as int,
                y as int,
                color.code(),
            ));
        }
    }

    /// Writes `string` at the cursor if all of it is ASCII, and a complaint
    /// if not.
    pub fn putfonts8_ascii(&mut self, font: &Font, string: &str)
        requires
            font.wf(),
            old(self).text_ok(*font, old(self).state(), Self::shown_text(string@)),
        ensures
            *final(self) == (ScreenStringWriter {
                sinfo: ScreenInfo { vram: final(self).sinfo.vram, ..old(self).sinfo },
                x: final(self).x,
                y: final(self).y,
                ..*old(self)
            }),
            final(self).state() == old(self).text_written(*font, old(self).state(), Self::shown_text(string@)),
    {
        if !string.is_ascii() {
            self.put_ascii(font, "NOT ASCII!!!");
            return ;
        }
        self.put_ascii(font, string);
    }

    /// Writes the characters of `string`, which are taken for ASCII.
    fn put_ascii(&mut self, font: &Font, string: &str)
        requires
            font.wf(),
            old(self).text_ok(*font, old(self).state(), string@),
        ensures
            *final(self) == (ScreenStringWriter {
                sinfo: ScreenInfo { vram: final(self).sinfo.vram, ..old(self).sinfo },
                x: final(self).x,
                y: final(self).y,
                ..*old(self)
            }),
            final(self).state() == old(self).text_written(*font, old(self).state(), string@),
    {
        let screenx = self.sinfo.screenx;
        let n = string.unicode_len();
        let ghost o = *old(self);
        let mut i: usize = 0;
        while i < n
            invariant
                i <= n,
                n == string@.len(),
                font.wf(),
                o == *old(self),
                screenx == o.sinfo.screenx,
                o.text_ok(*font, o.state(), string@),
                *self == (ScreenStringWriter {
                    sinfo: ScreenInfo { vram: self.sinfo.vram, ..o.sinfo },
                    x: self.x,
                    y: self.y,
                    ..o
                }),
                self.state() == o.text_written(*font, o.state(), string@.take(i as int)),
            decreases n - i,
        {
            let item = string.get_char(i);
            proof {
                o.lemma_text_ok_prefix(*font, o.state(), string@, i + 1);
                assert(string@.take(i + 1).drop_last() =~= string@.take(i as int));
                assert(string@.take(i + 1).last() == item);
                assert(o.char_ok(*font, self.state(), item));
            }
            if item == '\n' {
                self.newline();
            } else {
                self.putfont8(font, item as u8);
                if screenx as isize <= self.x + FONT_WIDTH {
                    self.newline();
                } else {
                    self.x += FONT_WIDTH;
                }
            }
            i += 1;
        }
        proof {
            assert(string@.take(n as int) =~= string@);
        }
    }

    /// What can be written can be written up to any point.
    pub proof fn lemma_text_ok_prefix(self, font: Font, state: TextState, s: Seq<char>, n: int)
        requires
            self.text_ok(font, state, s),
            0 <= n <= s.len(),
        ensures
            self.text_ok(font, state, s.take(n)),
        decreases s.len(),
    {
        if n == s.len() {
            assert(s.take(n) =~= s);
        } else {
            self.lemma_text_ok_prefix(font, state, s.drop_last(), n);
            assert(s.drop_last().take(n) =~= s.take(n));
        }
    }

    /// Writes `s` as `putfonts8_ascii` does.
    pub fn write_str(&mut self, font: &Font, s: &str)
        requires
            font.wf(),
            old(self).text_ok(*font, old(self).state(), Self::shown_text(s@)),
        ensures
            *final(self) == (ScreenStringWriter {
                sinfo: ScreenInfo { vram: final(self).sinfo.vram, ..old(self).sinfo },
                x: final(self).x,
                y: final(self).y,
                ..*old(self)
            }),
            final(self).state() == old(self).text_written(*font, old(self).state(), Self::shown_text(s@)),
    {
        self.putfonts8_ascii(font, s);
    }
}

} // verus!
