use vstd::prelude::*;
use vstd::string::StringSliceAdditionalSpecFns;

verus! {

/// The sixteen colors of VGA text mode.
#[derive(Debug, Clone, Copy, PartialEq, Eq, Structural)]
pub enum Color {
    Black,
    Blue,
    Green,
    Cyan,
    Red,
    Magenta,
    Brown,
    LightGray,
    DarkGray,
    LightBlue,
    LightGreen,
    LightCyan,
    LightRed,
    Pink,
    Yellow,
    White,
}

/// The hardware number of a color.
pub open spec fn color_value(c: Color) -> u8 {
    match c {
        Color::Black => 0,
        Color::Blue => 1,
        Color::Green => 2,
        Color::Cyan => 3,
        Color::Red => 4,
        Color::Magenta => 5,
        Color::Brown => 6,
        Color::LightGray => 7,
        Color::DarkGray => 8,
        Color::LightBlue => 9,
        Color::LightGreen => 10,
        Color::LightCyan => 11,
        Color::LightRed => 12,
        Color::Pink => 13,
        Color::Yellow => 14,
        Color::White => 15,
    }
}

impl Color {
    /// The hardware number of the color, from 0 to 15.
    pub fn value(self) -> (r: u8)
        ensures
            r == color_value(self),
            r < 16,
    {
        match self {
            Color::Black => 0,
            Color::Blue => 1,
            Color::Green => 2,
            Color::Cyan => 3,
            Color::Red => 4,
            Color::Magenta => 5,
            Color::Brown => 6,
            Color::LightGray => 7,
            Color::DarkGray => 8,
            Color::LightBlue => 9,
            Color::LightGreen => 10,
            Color::LightCyan => 11,
            Color::LightRed => 12,
            Color::Pink => 13,
            Color::Yellow => 14,
            Color::White => 15,
        }
    }
}

/// A foreground and a background color packed in one attribute byte:
/// background in the high four bits, foreground in the low four.
#[derive(Debug, Clone, Copy, PartialEq, Eq, Structural)]
pub struct ColorCode(pub u8);

impl ColorCode {
    /// The attribute byte for `foreground` on `background`.
    pub fn new(foreground: Color, background: Color) -> (r: ColorCode)
        ensures
            r.0 == color_value(background) * 16 + color_value(foreground),
    {
        let bg = background.value();
        let fg = foreground.value();
        ColorCode(bg * 16 + fg)
    }
}

/// One cell of the text screen: a character and its colors.
#[derive(Debug, Clone, Copy, PartialEq, Eq, Structural)]
pub struct ScreenChar {
    pub ascii_character: u8,
    pub color_code: ColorCode,
}

/// Rows of the text screen.
pub const BUFFER_HEIGHT: usize = 25;

/// Columns of the text screen.
pub const BUFFER_WIDTH: usize = 80;

/// Cells of the whole screen, row after row.
pub const BUFFER_CELLS: usize = 2000;

/// The byte that ends a line.
pub const NEWLINE: u8 = 10;

/// The byte of a blank cell.
pub const SPACE: u8 = 32;

/// The byte shown in place of one that the screen cannot show.
pub const UNPRINTABLE: u8 = 0xfe;

/// A blank cell in the given colors.
pub open spec fn blank(color: ColorCode) -> ScreenChar {
    ScreenChar { ascii_character: 32u8, color_code: color }
}

/// Every row moves up by one; the top row is lost, the bottom row is blank.
pub open spec fn scrolled(cells: Seq<ScreenChar>, color: ColorCode) -> Seq<ScreenChar> {
    cells.subrange(BUFFER_WIDTH as int, BUFFER_CELLS as int) + Seq::new(
        BUFFER_WIDTH as nat,
        |i: int| blank(color),
    )
}

/// Cursor column and cells after writing `byte`: a newline scrolls and
/// returns to column 0; any other byte goes to the bottom row at the cursor,
/// after a scroll when the row is full.
pub open spec fn after_byte(col: nat, cells: Seq<ScreenChar>, color: ColorCode, byte: u8) -> (
    nat,
    Seq<ScreenChar>,
) {
    if byte == 10 {
        (0, scrolled(cells, color))
    } else {
        let (c, cs) = if col >= BUFFER_WIDTH {
            (0nat, scrolled(cells, color))
        } else {
            (col, cells)
        };
        (
            c + 1,
            cs.update(
                (BUFFER_CELLS - BUFFER_WIDTH) + c,
                ScreenChar { ascii_character: byte, color_code: color },
            ),
        )
    }
}

/// The byte that the screen shows for `b`: printable ASCII and newline as
/// they are, anything else as the replacement block.
pub open spec fn shown(b: u8) -> u8 {
    if (0x20 <= b && b <= 0x7e) || b == 10 {
        b
    } else {
        UNPRINTABLE
    }
}

/// Cursor column and cells after writing each byte of `bytes` in turn.
pub open spec fn after_bytes(col: nat, cells: Seq<ScreenChar>, color: ColorCode, bytes: Seq<u8>) -> (
    nat,
    Seq<ScreenChar>,
)
    decreases bytes.len(),
{
    if bytes.len() == 0 {
        (col, cells)
    } else {
        let (c, cs) = after_bytes(col, cells, color, bytes.drop_last());
        after_byte(c, cs, color, shown(bytes.last()))
    }
}

/// Writes text to the bottom row of a text screen, scrolling up as rows fill.
pub struct Writer {
    column_position: usize,
    color_code: ColorCode,
    cells: Vec<ScreenChar>,
}

impl Writer {
    /// Column of the cursor on the bottom row.
    pub closed spec fn column(&self) -> nat {
        self.column_position as nat
    }

    /// Colors of what is written.
    pub closed spec fn color(&self) -> ColorCode {
        self.color_code
    }

    /// The screen's cells, row after row.
    pub closed spec fn screen(&self) -> Seq<ScreenChar> {
        self.cells@
    }

    pub open spec fn wf(&self) -> bool {
        &&& self.screen().len() == BUFFER_CELLS
        &&& self.column() <= BUFFER_WIDTH
    }

    /// A writer on a blank screen, cursor at column 0.
    pub fn new(color_code: ColorCode) -> (r: Writer)
        ensures
            r.wf(),
            r.column() == 0,
            r.color() == color_code,
            r.screen() == Seq::new(BUFFER_CELLS as nat, |i: int| blank(color_code)),
    {
        let mut cells: Vec<ScreenChar> = Vec::new();
        let mut i: usize = 0;
        while i < BUFFER_CELLS
            invariant
                i <= BUFFER_CELLS,
                cells@ == Seq::new(i as nat, |j: int| blank(color_code)),
            decreases BUFFER_CELLS - i,
        {
            cells.push(ScreenChar { ascii_character: SPACE, color_code });
            i = i + 1;
            proof {
                assert(cells@ =~= Seq::new(i as nat, |j: int| blank(color_code)));
            }
        }
        Writer { column_position: 0, color_code, cells }
    }

    /// The cell at `row` and `col`.
    pub fn read(&self, row: usize, col: usize) -> (r: ScreenChar)
        requires
            self.wf(),
            row < BUFFER_HEIGHT,
            col < BUFFER_WIDTH,
        ensures
            r == self.screen()[row * BUFFER_WIDTH + col],
    {
        self.cells[row * BUFFER_WIDTH + col]
    }

    pub fn write_byte(&mut self, byte: u8)
        requires
            old(self).wf(),
        ensures
            final(self).wf(),
            final(self).color() == old(self).color(),
            (final(self).column(), final(self).screen()) == after_byte(
                old(self).column(),
                old(self).screen(),
                old(self).color(),
                byte,
            ),
    {
        if byte == NEWLINE {
            self.new_line();
        } else {
            if self.column_position >= BUFFER_WIDTH {
                self.new_line();
            }
            let low = BUFFER_HEIGHT - 1;
            let col = self.column_position;
            let color_code = self.color_code;
            self.cells.set(low * BUFFER_WIDTH + col, ScreenChar { ascii_character: byte, color_code });
            self.column_position = self.column_position + 1;
        }
    }

    /// Scrolls every row up by one, blanks the bottom row and returns the
    /// cursor to column 0.
    fn new_line(&mut self)
        requires
            old(self).wf(),
        ensures
            final(self).wf(),
            final(self).color() == old(self).color(),
            final(self).column() == 0,
            final(self).screen() == scrolled(old(self).screen(), old(self).color()),
    {
        let ghost pre = self.cells@;
        let mut i: usize = 0;
        while i < BUFFER_CELLS - BUFFER_WIDTH
            invariant
                i <= BUFFER_CELLS - BUFFER_WIDTH,
                self.cells@.len() == BUFFER_CELLS,
                self.column_position <= BUFFER_WIDTH,
                self.color_code == old(self).color_code,
                pre == old(self).cells@,
                forall|j: int| 0 <= j < i ==> self.cells@[j] == pre[j + BUFFER_WIDTH],
                forall|j: int| i <= j < BUFFER_CELLS ==> self.cells@[j] == pre[j],
            decreases BUFFER_CELLS - BUFFER_WIDTH - i,
        {
            let character = self.cells[i + BUFFER_WIDTH];
            self.cells.set(i, character);
            i = i + 1;
        }
        self.clear_row(BUFFER_HEIGHT - 1);
        self.column_position = 0;
        proof {
            assert(self.cells@ =~= scrolled(pre, self.color_code));
        }
    }

    /// Fills `row` with blanks in the writer's colors.
    fn clear_row(&mut self, row: usize)
        requires
            old(self).wf(),
            row < BUFFER_HEIGHT,
        ensures
            final(self).wf(),
            final(self).color() == old(self).color(),
            final(self).column() == old(self).column(),
            forall|j: int|
                0 <= j < BUFFER_CELLS ==> #[trigger] final(self).screen()[j] == if row * BUFFER_WIDTH <= j
                    < row * BUFFER_WIDTH + BUFFER_WIDTH {
                    blank(old(self).color())
                } else {
                    old(self).screen()[j]
                },
    {
        let blank_char = ScreenChar { ascii_character: SPACE, color_code: self.color_code };
        let mut col: usize = 0;
        while col < BUFFER_WIDTH
            invariant
                row < BUFFER_HEIGHT,
                col <= BUFFER_WIDTH,
                self.cells@.len() == BUFFER_CELLS,
                self.column_position == old(self).column_position,
                self.color_code == old(self).color_code,
                blank_char == blank(self.color_code),
                forall|j: int|
                    0 <= j < BUFFER_CELLS ==> #[trigger] self.cells@[j] == if row * BUFFER_WIDTH <= j
                        < row * BUFFER_WIDTH + col {
                        blank(old(self).color_code)
                    } else {
                        old(self).cells@[j]
                    },
            decreases BUFFER_WIDTH - col,
        {
            self.cells.set(row * BUFFER_WIDTH + col, blank_char);
            col = col + 1;
        }
    }

    /// Writes each byte of `s` in turn; a byte that is neither printable
    /// ASCII nor a newline shows as the replacement block.
    pub fn write_string(&mut self, s: &str)
        requires
            old(self).wf(),
        ensures
            final(self).wf(),
            final(self).color() == old(self).color(),
            (final(self).column(), final(self).screen()) == after_bytes(
                old(self).column(),
                old(self).screen(),
                old(self).color(),
                s.spec_bytes(),
            ),
    {
        let bytes = s.as_bytes();
        let mut i: usize = 0;
        while i < bytes.len()
            invariant
                i <= bytes@.len(),
                bytes@ == s.spec_bytes(),
                self.wf(),
                self.color() == old(self).color(),
                (self.column(), self.screen()) == after_bytes(
                    old(self).column(),
                    old(self).screen(),
                    old(self).color(),
                    bytes@.subrange(0, i as int),
                ),
            decreases bytes@.len() - i,
        {
            let byte = bytes[i];
            let out: u8 = if (0x20 <= byte && byte <= 0x7e) || byte == NEWLINE {
                byte
            } else {
                UNPRINTABLE
            };
            self.write_byte(out);
            proof {
                let next = bytes@.subrange(0, i + 1);
                assert(next.drop_last() =~= bytes@.subrange(0, i as int));
                assert(next.last() == byte);
            }
            i = i + 1;
        }
        proof {
            assert(bytes@.subrange(0, bytes@.len() as int) =~= bytes@);
        }
    }
}

} // verus!
