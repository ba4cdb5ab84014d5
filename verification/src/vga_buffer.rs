use vstd::string::StringSliceAdditionalSpecFns;
use vstd::prelude::*;

verus! {

/// A 4-bit VGA color.
#[derive(Debug, Clone, Copy, PartialEq, Eq, Structural)]
pub enum Color {
    /// Color 0.
    Black,
    /// Color 1.
    Blue,
    /// Color 2.
    Green,
    /// Color 3.
    Cyan,
    /// Color 4.
    Red,
    /// Color 5.
    Magenta,
    /// Color 6.
    Brown,
    /// Color 7.
    LightGray,
    /// Color 8, the light variant of color 0.
    DarkGray,
    /// Color 9, the light variant of color 1.
    LightBlue,
    /// Color 10, the light variant of color 2.
    LightGreen,
    /// Color 11, the light variant of color 3.
    LightCyan,
    /// Color 12, the light variant of color 4.
    LightRed,
    /// Color 13, the light variant of color 5.
    Pink,
    /// Color 14, the light variant of color 6.
    Yellow,
    /// Color 15, the light variant of color 7.
    White,
}

impl Color {
    /// The number of the color.
    pub open spec fn number(self) -> int {
        match self {
            Color::Black => 0,
            Color::Blue => 1,
            Color::Green => 2,
            Color::Cyan => 3,
            Color::Red => 4,
            Color::Magenta => 5,
            Color::Brown => 6,
            Color::LightGray => 7,
            Color::DarkGray => 8,
            Color::LightBlue => 9,
            Color::LightGreen => 10,
            Color::LightCyan => 11,
            Color::LightRed => 12,
            Color::Pink => 13,
            Color::Yellow => 14,
            Color::White => 15,
        }
    }

    /// The number of the color, which fits four bits.
    pub fn to_u8(self) -> (r: u8)
        ensures
            r == self.number(),
            r < 16,
    {
        match self {
            Color::Black => 0,
            Color::Blue => 1,
            Color::Green => 2,
            Color::Cyan => 3,
            Color::Red => 4,
            Color::Magenta => 5,
            Color::Brown => 6,
            Color::LightGray => 7,
            Color::DarkGray => 8,
            Color::LightBlue => 9,
            Color::LightGreen => 10,
            Color::LightCyan => 11,
            Color::LightRed => 12,
            Color::Pink => 13,
            Color::Yellow => 14,
            Color::White => 15,
        }
    }
}

/// The bit of a color code that makes the code point blink.
pub const BLINK_BIT: u8 = 0b1000_0000;

/// A VGA color code representing foreground and background colors of a single code point.
/// Meaning of bits from the least significant bit:
/// 0 - 2:  foreground color
/// 3:      if set, foreground color is their lighter variant
/// 4 - 6:  background color
/// 7:      if set, the code point blinks
#[derive(Debug, Clone, Copy, PartialEq, Eq, Structural)]
pub struct ColorCode(u8);

impl View for ColorCode {
    type V = u8;

    closed spec fn view(&self) -> u8 {
        self.0
    }
}

impl ColorCode {
    /// The code of `foreground` on `background`, not blinking: the foreground's number in the
    /// low four bits, and above them the number of the background's dark variant.
    pub open spec fn plain(foreground: Color, background: Color) -> int {
        (background.number() % 8) * 16 + foreground.number()
    }

    /// Construct a VGA color code with foreground and background color. The background color
    /// may only be the first 8 dark variants of colors. When the background color is set to one
    /// of those light variants (0x8 ~ 0xf) it is automatically converted to its dark variant.
    /// Without further modification the code point is not blinking.
    pub fn new(foreground: Color, background: Color) -> (r: Self)
        ensures
            r@ == Self::plain(foreground, background),
            r@ < BLINK_BIT,
    {
        let b = background.to_u8();
        let f = foreground.to_u8();
        assert(((b << 4u8 | f) & !0b1000_0000u8) == (b % 8) * 16 + f) by (bit_vector)
            requires
                b < 16,
                f < 16,
        ;
        let code = b << 4u8 | f;
        Self(code & !BLINK_BIT)
    }

    /// Let the VGA code point blink: the blink bit is set, the colors stay.
    pub fn blink(self) -> (r: Self)
        ensures
            r@ == self@ | BLINK_BIT,
            r@ >= BLINK_BIT,
            r@ % BLINK_BIT == self@ % BLINK_BIT,
    {
        let code = self.0;
        assert((code | 0b1000_0000u8) >= 0b1000_0000u8 && (code | 0b1000_0000u8) % 0b1000_0000u8
            == code % 0b1000_0000u8) by (bit_vector);
        Self(self.0 | BLINK_BIT)
    }

    /// The color code that the byte `code` of the text buffer stands for.
    pub fn from_u8(code: u8) -> (r: Self)
        ensures
            r@ == code,
    {
        Self(code)
    }

    /// The code as the byte that the text buffer holds.
    pub fn to_u8(self) -> (r: u8)
        ensures
            r == self@,
    {
        self.0
    }
}

/// The number of rows of the text buffer.
pub const BUFFER_HEIGHT: usize = 25;

/// The number of columns of the text buffer.
pub const BUFFER_WIDTH: usize = 80;

/// The code point that is shown in place of a byte that cannot be printed.
pub const UNPRINTABLE: u8 = 0xfe;

/// A code page 437 character with color code.
#[derive(Debug, Clone, Copy, PartialEq, Eq, Structural)]
pub struct ScreenChar {
    /// The code point.
    pub cp437_code: u8,
    /// The colors it is shown in.
    pub color_code: ColorCode,
}

/// The cells of a text buffer, `BUFFER_HEIGHT` rows of `BUFFER_WIDTH` columns.
///
/// The writer reaches the screen through this trait alone. A cell holds what was written to it
/// last.
///
/// [`Grid`] is such a buffer, proved to be one. A kernel implements the trait over the cells
/// of the screen itself; what is proved of the writer then holds as far as those cells keep to
/// what the trait says.
pub trait TextBuffer: Sized {
    /// What the cell in row `row` and column `col` holds.
    spec fn cell(&self, row: usize, col: usize) -> ScreenChar;

    /// Whether every cell can be read and written.
    spec fn backed(&self) -> bool;

    /// Reads the cell in row `row` and column `col`.
    fn read(&self, row: usize, col: usize) -> (r: ScreenChar)
        requires
            self.backed(),
            row < BUFFER_HEIGHT,
            col < BUFFER_WIDTH,
        ensures
            r == self.cell(row, col),
    ;

    /// Writes `value` to the cell in row `row` and column `col`. No other cell changes.
    fn write(&mut self, row: usize, col: usize, value: ScreenChar)
        requires
            old(self).backed(),
            row < BUFFER_HEIGHT,
            col < BUFFER_WIDTH,
        ensures
            final(self).backed(),
            final(self).cell(row, col) == value,
            forall|r: usize, c: usize|
                r < BUFFER_HEIGHT && c < BUFFER_WIDTH && (r != row || c != col)
                    ==> #[trigger] final(self).cell(r, c) == old(self).cell(r, c),
    ;
}

/// What the buffer shows: row by row, column by column.
pub open spec fn screen_of<B: TextBuffer>(buffer: &B) -> Seq<Seq<ScreenChar>> {
    Seq::new(
        BUFFER_HEIGHT as nat,
        |row: int| Seq::new(BUFFER_WIDTH as nat, |col: int| buffer.cell(row as usize, col as usize)),
    )
}

/// A text buffer that is no screen: its cells are kept in a vector.
pub struct Grid {
    cells: Vec<ScreenChar>,
}

impl Grid {
    /// A grid that shows `fill` in every cell.
    pub fn new(fill: ScreenChar) -> (r: Self)
        ensures
            r.backed(),
            forall|row: usize, col: usize|
                row < BUFFER_HEIGHT && col < BUFFER_WIDTH ==> #[trigger] r.cell(row, col) == fill,
    {
        let cells: Vec<ScreenChar> = vec![fill; 2000];
        Grid { cells }
    }
}

impl TextBuffer for Grid {
    closed spec fn cell(&self, row: usize, col: usize) -> ScreenChar {
        self.cells@[row * BUFFER_WIDTH + col]
    }

    closed spec fn backed(&self) -> bool {
        self.cells@.len() == BUFFER_HEIGHT * BUFFER_WIDTH
    }

    fn read(&self, row: usize, col: usize) -> (r: ScreenChar) {
        self.cells[row * BUFFER_WIDTH + col]
    }

    fn write(&mut self, row: usize, col: usize, value: ScreenChar) {
        self.cells[row * BUFFER_WIDTH + col] = value;
    }
}

/// What a [`Writer`] holds, as plain values: the place of the cursor, the colors, and what the
/// screen shows.
pub struct WriterState {
    /// The row of the cursor.
    pub row: usize,
    /// The column of the cursor.
    pub col: usize,
    /// The colors that are written with.
    pub color: ColorCode,
    /// What the screen shows, row by row.
    pub cells: Seq<Seq<ScreenChar>>,
}

/// The code point that is written for `byte`: the byte itself where it is a printable ASCII
/// character or a line feed, or else the code point for what cannot be printed.
pub open spec fn code_of(byte: u8) -> u8 {
    if (0x20 <= byte <= 0x7e) || byte == 0x0a {
        byte
    } else {
        UNPRINTABLE
    }
}

impl WriterState {
    /// The cursor is on the screen, or just behind the end of its row.
    pub open spec fn wf(self) -> bool {
        &&& self.row < BUFFER_HEIGHT
        &&& self.col <= BUFFER_WIDTH
        &&& self.cells.len() == BUFFER_HEIGHT
        &&& forall|row: int| 0 <= row < BUFFER_HEIGHT ==> (#[trigger] self.cells[row]).len()
            == BUFFER_WIDTH
    }

    /// A space in the colors that are written with.
    pub open spec fn blank(self) -> ScreenChar {
        ScreenChar { cp437_code: 0x20, color_code: self.color }
    }

    /// With the row `row` blank.
    pub open spec fn clear_row(self, row: int) -> WriterState {
        WriterState {
            cells: self.cells.update(row, Seq::new(BUFFER_WIDTH as nat, |col: int| self.blank())),
            ..self
        }
    }

    /// With the cursor at the start of the next row. From the last row the cursor does not
    /// move down: every row moves up by one instead, the first row is lost and the last row
    /// is blank.
    pub open spec fn new_line(self) -> WriterState {
        if self.row < BUFFER_HEIGHT - 1 {
            WriterState { row: (self.row + 1) as usize, col: 0, ..self }
        } else {
            WriterState {
                col: 0,
                cells: Seq::new(
                    BUFFER_HEIGHT as nat,
                    |row: int|
                        if row < BUFFER_HEIGHT - 1 {
                            self.cells[row + 1]
                        } else {
                            Seq::new(BUFFER_WIDTH as nat, |col: int| self.blank())
                        },
                ),
                ..self
            }
        }
    }

    /// With `byte` written at the cursor. A line feed moves the cursor to the next line and
    /// shows nothing. Any other byte is shown at the cursor, on the next line where the row
    /// is full, and the cursor moves one column to the right.
    pub open spec fn write_byte(self, byte: u8) -> WriterState {
        if byte == 0x0a {
            self.new_line()
        } else {
            let at = if self.col >= BUFFER_WIDTH {
                self.new_line()
            } else {
                self
            };
            WriterState {
                col: (at.col + 1) as usize,
                cells: at.cells.update(
                    at.row as int,
                    at.cells[at.row as int].update(
                        at.col as int,
                        ScreenChar { cp437_code: byte, color_code: at.color },
                    ),
                ),
                ..at
            }
        }
    }

    /// With the code points for `bytes` written, one after the other.
    pub open spec fn write_bytes(self, bytes: Seq<u8>) -> WriterState
        decreases bytes.len(),
    {
        if bytes.len() == 0 {
            self
        } else {
            self.write_bytes(bytes.drop_last()).write_byte(code_of(bytes.last()))
        }
    }
}

/// Writes text to a text buffer, from the top left on, and scrolls it at the bottom.
pub struct Writer<B: TextBuffer> {
    row_position: usize,
    column_position: usize,
    color_code: ColorCode,
    buffer: B,
}

impl<B: TextBuffer> View for Writer<B> {
    type V = WriterState;

    closed spec fn view(&self) -> WriterState {
        WriterState {
            row: self.row_position,
            col: self.column_position,
            color: self.color_code,
            cells: screen_of(&self.buffer),
        }
    }
}

impl<B: TextBuffer> Writer<B> {
    /// The cursor is on the screen, or just behind the end of its row, and the buffer can be
    /// read and written.
    pub closed spec fn wf(&self) -> bool {
        &&& self@.wf()
        &&& self.buffer.backed()
    }

    /// A writer on `buffer`, with the cursor at the top left. What the buffer shows stays.
    pub fn new(color_code: ColorCode, buffer: B) -> (r: Self)
        requires
            buffer.backed(),
        ensures
            r.wf(),
            r@ == (WriterState { row: 0, col: 0, color: color_code, cells: screen_of(&buffer) }),
    {
        Writer { row_position: 0, column_position: 0, color_code, buffer }
    }

    /// The row of the cursor.
    pub fn row_position(&self) -> (r: usize)
        ensures
            r == self@.row,
    {
        self.row_position
    }

    /// The column of the cursor.
    pub fn column_position(&self) -> (r: usize)
        ensures
            r == self@.col,
    {
        self.column_position
    }

    /// The colors that are written with.
    pub fn color_code(&self) -> (r: ColorCode)
        ensures
            r == self@.color,
    {
        self.color_code
    }

    /// What the cell in row `row` and column `col` shows.
    pub fn read(&self, row: usize, col: usize) -> (r: ScreenChar)
        requires
            self.wf(),
            row < BUFFER_HEIGHT,
            col < BUFFER_WIDTH,
        ensures
            r == self@.cells[row as int][col as int],
    {
        self.buffer.read(row, col)
    }

    /// The buffer that is written to.
    pub fn buffer(&self) -> (r: &B)
        ensures
            screen_of(r) == self@.cells,
    {
        &self.buffer
    }

    /// If `byte` is a line feed or the current row is full, switch to a next line by possibly
    /// moving all previous rows upwards; otherwise write the byte as a code page 437
    /// character to the buffer with the stored color code.
    pub fn write_byte(&mut self, byte: u8)
        requires
            old(self).wf(),
        ensures
            final(self).wf(),
            final(self)@ == old(self)@.write_byte(byte),
    {
        if byte == 0x0a {
            self.new_line();
        } else {
            if self.column_position >= BUFFER_WIDTH {
                self.new_line();
            }
            let ghost at = self@;
            let row = self.row_position;
            let col = self.column_position;
            self.buffer.write(row, col, ScreenChar { cp437_code: byte, color_code: self.color_code });
            self.column_position += 1;
            proof {
                let want = at.cells.update(
                    row as int,
                    at.cells[row as int].update(
                        col as int,
                        ScreenChar { cp437_code: byte, color_code: at.color },
                    ),
                );
                assert(self@.cells =~~= want);
            }
        }
    }

    /// Moves the cursor to the start of the next line. At the bottom of the screen every row
    /// moves up by one and the last row is cleared.
    pub fn new_line(&mut self)
        requires
            old(self).wf(),
        ensures
            final(self).wf(),
            final(self)@ == old(self)@.new_line(),
    {
        let ghost before = self@;
        if self.row_position < BUFFER_HEIGHT - 1 {
            self.row_position += 1;
        } else {
            let mut row: usize = 1;
            while row < BUFFER_HEIGHT
                invariant
                    1 <= row <= BUFFER_HEIGHT,
                    self.buffer.backed(),
                    self.row_position == before.row,
                    self.column_position == before.col,
                    self.color_code == before.color,
                    before == old(self)@,
                    forall|r: usize, c: usize|
                        r < row - 1 && c < BUFFER_WIDTH ==> #[trigger] self.buffer.cell(r, c)
                            == before.cells[r + 1][c as int],
                    forall|r: usize, c: usize|
                        row - 1 <= r < BUFFER_HEIGHT && c < BUFFER_WIDTH
                            ==> #[trigger] self.buffer.cell(r, c) == before.cells[r as int][c as int],
                decreases BUFFER_HEIGHT - row,
            {
                let mut col: usize = 0;
                while col < BUFFER_WIDTH
                    invariant
                        1 <= row < BUFFER_HEIGHT,
                        col <= BUFFER_WIDTH,
                        self.buffer.backed(),
                        self.row_position == before.row,
                        self.column_position == before.col,
                        self.color_code == before.color,
                        before == old(self)@,
                        forall|r: usize, c: usize|
                            r < row - 1 && c < BUFFER_WIDTH ==> #[trigger] self.buffer.cell(r, c)
                                == before.cells[r + 1][c as int],
                        forall|c: usize|
                            c < col ==> #[trigger] self.buffer.cell((row - 1) as usize, c)
                                == before.cells[row as int][c as int],
                        forall|c: usize|
                            col <= c < BUFFER_WIDTH ==> #[trigger] self.buffer.cell(
                                (row - 1) as usize,
                                c,
                            ) == before.cells[row - 1][c as int],
                        forall|r: usize, c: usize|
                            row <= r < BUFFER_HEIGHT && c < BUFFER_WIDTH
                                ==> #[trigger] self.buffer.cell(r, c)
                                == before.cells[r as int][c as int],
                    decreases BUFFER_WIDTH - col,
                {
                    let character = self.buffer.read(row, col);
                    self.buffer.write(row - 1, col, character);
                    col += 1;
                }
                row += 1;
            }
            self.clear_row(BUFFER_HEIGHT - 1);
            proof {
                assert(self@.cells =~~= before.new_line().cells);
            }
        }
        self.column_position = 0;
    }

    /// Fills the row `row` with spaces in the stored color code.
    pub fn clear_row(&mut self, row: usize)
        requires
            old(self).wf(),
            row < BUFFER_HEIGHT,
        ensures
            final(self).wf(),
            final(self)@ == old(self)@.clear_row(row as int),
    {
        let ghost before = self@;
        let blank = ScreenChar { cp437_code: 0x20, color_code: self.color_code };
        let mut col: usize = 0;
        while col < BUFFER_WIDTH
            invariant
                col <= BUFFER_WIDTH,
                row < BUFFER_HEIGHT,
                self.buffer.backed(),
                self.row_position == before.row,
                self.column_position == before.col,
                self.color_code == before.color,
                before == old(self)@,
                blank == before.blank(),
                forall|c: usize| c < col ==> #[trigger] self.buffer.cell(row, c) == blank,
                forall|r: usize, c: usize|
                    r < BUFFER_HEIGHT && c < BUFFER_WIDTH && (r != row || c >= col)
                        ==> #[trigger] self.buffer.cell(r, c) == before.cells[r as int][c as int],
            decreases BUFFER_WIDTH - col,
        {
            self.buffer.write(row, col, blank);
            col += 1;
        }
        proof {
            assert(self@.cells =~~= before.clear_row(row as int).cells);
        }
    }

    /// Writes the text `s`, byte by byte. A byte that is neither a printable ASCII character
    /// nor a line feed is shown as [`UNPRINTABLE`].
    pub fn write_str(&mut self, s: &str)
        requires
            old(self).wf(),
        ensures
            final(self).wf(),
            final(self)@ == old(self)@.write_bytes(s.spec_bytes()),
    {
        let bytes = s.as_bytes();
        let mut index: usize = 0;
        while index < bytes.len()
            invariant
                index <= bytes.len(),
                bytes@ == s.spec_bytes(),
                self.wf(),
                self@ == old(self)@.write_bytes(bytes@.subrange(0, index as int)),
            decreases bytes.len() - index,
        {
            let byte = bytes[index];
            let code = if (0x20 <= byte && byte <= 0x7e) || byte == 0x0a {
                byte
            } else {
                UNPRINTABLE
            };
            proof {
                let done = bytes@.subrange(0, index + 1);
                assert(done.drop_last() =~= bytes@.subrange(0, index as int));
                assert(done.last() == byte);
            }
            self.write_byte(code);
            index += 1;
        }
        proof {
            assert(bytes@.subrange(0, index as int) =~= bytes@);
        }
    }
}

} // verus!
