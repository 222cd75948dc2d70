//! The text-mode display: an 80 x 25 grid of character cells with a cursor,
//! line wrap, scrolling, backspace and clear.

use vstd::prelude::*;
use vstd::string::StringSliceAdditionalSpecFns;
use volatile::Volatile;

verus! {

/// Number of columns of the grid.
pub const BUFFER_WIDTH: usize = 80;

/// Number of rows of the grid.
pub const BUFFER_HEIGHT: usize = 25;

/// Number of cells of the grid.
pub const BUFFER_CELLS: usize = 2000;

/// The glyph that `write_string` puts in place of a byte that is neither
/// printable ASCII nor an interpreted control byte.
pub const PLACEHOLDER: u8 = 0xfe;

/// The sixteen colours of the text mode.
#[derive(Debug, Clone, Copy, PartialEq, Eq, Structural)]
pub enum Color {
    Black,
    Blue,
    Green,
    Cyan,
    Red,
    Magenta,
    Brown,
    LightGray,
    DarkGray,
    LightBlue,
    LightGreen,
    LightCyan,
    LightRed,
    Pink,
    Yellow,
    White,
}

impl Color {
    /// The four-bit code of the colour.
    pub open spec fn spec_code(self) -> u8 {
        match self {
            Color::Black => 0,
            Color::Blue => 1,
            Color::Green => 2,
            Color::Cyan => 3,
            Color::Red => 4,
            Color::Magenta => 5,
            Color::Brown => 6,
            Color::LightGray => 7,
            Color::DarkGray => 8,
            Color::LightBlue => 9,
            Color::LightGreen => 10,
            Color::LightCyan => 11,
            Color::LightRed => 12,
            Color::Pink => 13,
            Color::Yellow => 14,
            Color::White => 15,
        }
    }

    /// The four-bit code of the colour.
    #[verifier::when_used_as_spec(spec_code)]
    pub fn code(self) -> (c: u8)
        ensures
            c == self.spec_code(),
            c < 16,
    {
        match self {
            Color::Black => 0,
            Color::Blue => 1,
            Color::Green => 2,
            Color::Cyan => 3,
            Color::Red => 4,
            Color::Magenta => 5,
            Color::Brown => 6,
            Color::LightGray => 7,
            Color::DarkGray => 8,
            Color::LightBlue => 9,
            Color::LightGreen => 10,
            Color::LightCyan => 11,
            Color::LightRed => 12,
            Color::Pink => 13,
            Color::Yellow => 14,
            Color::White => 15,
        }
    }
}

/// The attribute byte of a cell: foreground in the low four bits, background
/// in the high four.
pub open spec fn attribute(fg: Color, bg: Color) -> u8 {
    (fg.spec_code() + 16 * bg.spec_code()) as u8
}

/// Packs a foreground and a background colour into an attribute byte.
pub fn make_color(fg: Color, bg: Color) -> (attr: u8)
    ensures
        attr == attribute(fg, bg),
        attr == fg.spec_code() | (bg.spec_code() << 4),
{
    let f = fg.code();
    let b = bg.code();
    assert(f | (b << 4) == f + 16 * b) by (bit_vector)
        requires
            f < 16,
            b < 16,
    ;
    f | (b << 4)
}

/// One cell of the grid: a glyph and its attribute byte.
#[derive(Debug, Clone, Copy, PartialEq, Eq, Structural)]
pub struct VgaChar {
    pub ascii: u8,
    pub color: u8,
}

/// A blank cell in the given attribute.
pub open spec fn blank(color: u8) -> VgaChar {
    VgaChar { ascii: 0x20, color }
}

/// The state of the display as a value: cursor, current attribute and cells,
/// row by row.
pub struct Screen {
    pub row: int,
    pub column: int,
    pub color: u8,
    pub cells: Seq<VgaChar>,
}

impl Screen {
    /// The cursor's row is on the grid, its column is on the grid or just
    /// past the last column (a wrap is then due before the next glyph), and
    /// the grid has all its cells.
    pub open spec fn wf(self) -> bool {
        &&& 0 <= self.row < BUFFER_HEIGHT
        &&& 0 <= self.column <= BUFFER_WIDTH
        &&& self.cells.len() == BUFFER_CELLS
    }

    /// The cell at a row and a column.
    pub open spec fn at(self, row: int, column: int) -> VgaChar {
        self.cells[row * 80 + column]
    }

    /// The screen after a line feed: the cursor moves to the start of the
    /// next row; on the last row every row moves up by one instead, the first
    /// row is lost and the last row is blank.
    pub open spec fn new_line(self) -> Screen {
        if self.row < BUFFER_HEIGHT - 1 {
            Screen { row: self.row + 1, column: 0, ..self }
        } else {
            Screen {
                column: 0,
                cells: Seq::new(
                    BUFFER_CELLS as nat,
                    |i: int|
                        if i < BUFFER_CELLS - BUFFER_WIDTH {
                            self.cells[i + 80]
                        } else {
                            blank(self.color)
                        },
                ),
                ..self
            }
        }
    }

    /// The screen after one byte: a line feed starts a new line; backspace
    /// and delete step one column back and blank that cell, and do nothing in
    /// column 0; any other byte is stored at the cursor, after a new line
    /// where the cursor is past the last column, and the cursor advances.
    pub open spec fn put(self, byte: u8) -> Screen {
        if byte == 0x0a {
            self.new_line()
        } else if byte == 0x08 || byte == 0x7f {
            if self.column > 0 {
                Screen {
                    column: self.column - 1,
                    cells: self.cells.update(
                        self.row * 80 + self.column - 1,
                        blank(self.color),
                    ),
                    ..self
                }
            } else {
                self
            }
        } else {
            let at = if self.column >= BUFFER_WIDTH {
                self.new_line()
            } else {
                self
            };
            Screen {
                column: at.column + 1,
                cells: at.cells.update(
                    at.row * 80 + at.column,
                    VgaChar { ascii: byte, color: at.color },
                ),
                ..at
            }
        }
    }

    /// The screen after each byte of `bytes` in turn.
    pub open spec fn put_all(self, bytes: Seq<u8>) -> Screen
        decreases bytes.len(),
    {
        if bytes.len() == 0 {
            self
        } else {
            self.put_all(bytes.drop_last()).put(bytes.last())
        }
    }

    /// The screen after a clear: every cell blank, the cursor at the origin.
    pub open spec fn cleared(self) -> Screen {
        Screen {
            row: 0,
            column: 0,
            cells: Seq::new(BUFFER_CELLS as nat, |i: int| blank(self.color)),
            ..self
        }
    }
}

/// The byte that `write_string` passes on for a byte of its string:
/// printable ASCII, line feed, backspace and delete as they are, the
/// placeholder glyph for every other byte.
pub open spec fn displayable(byte: u8) -> u8 {
    if (0x20 <= byte <= 0x7e) || byte == 0x0a || byte == 0x08 || byte == 0x7f {
        byte
    } else {
        PLACEHOLDER
    }
}

/// The bytes that `write_string` passes on for the bytes of its string.
pub open spec fn displayable_all(bytes: Seq<u8>) -> Seq<u8> {
    Seq::new(bytes.len(), |i: int| displayable(bytes[i]))
}

/// `volatile::Volatile`: a value that is read and written with volatile
/// accesses. What a cell holds is hidden here and known only through `stored`.
#[verifier::external_type_specification]
#[verifier::external_body]
#[verifier::reject_recursive_types(T)]
pub struct ExVolatile<T: Copy>(Volatile<T>);

/// The character cell that a volatile cell holds.
pub uninterp spec fn stored(cell: Volatile<VgaChar>) -> VgaChar;

/// `Volatile::new`: wraps a value for volatile access. The new cell holds
/// `ch`.
#[verifier::external_body]
fn cell_new(ch: VgaChar) -> (cell: Volatile<VgaChar>)
    ensures
        stored(cell) == ch,
{
    Volatile::new(ch)
}

/// `Volatile::read`: a volatile read of the wrapped value. The result is the
/// character cell that the cell holds.
#[verifier::external_body]
fn cell_read(cell: &Volatile<VgaChar>) -> (ch: VgaChar)
    ensures
        ch == stored(*cell),
{
    cell.read()
}

/// The display driver: a cursor, the attribute for new glyphs, and the grid.
pub struct Writer {
    row: usize,
    column: usize,
    color: u8,
    buffer: Vec<Volatile<VgaChar>>,
}

impl View for Writer {
    type V = Screen;

    closed spec fn view(&self) -> Screen {
        Screen {
            row: self.row as int,
            column: self.column as int,
            color: self.color,
            cells: Seq::new(self.buffer@.len(), |i: int| stored(self.buffer@[i])),
        }
    }
}

impl Writer {
    /// A display with every cell blank, white on black, the cursor at the
    /// origin.
    pub fn new() -> (writer: Writer)
        ensures
            writer@.wf(),
            writer@ == (Screen {
                row: 0,
                column: 0,
                color: attribute(Color::White, Color::Black),
                cells: Seq::new(BUFFER_CELLS as nat, |i: int| blank(attribute(Color::White, Color::Black))),
            }),
    {
        let color = make_color(Color::White, Color::Black);
        let mut buffer: Vec<Volatile<VgaChar>> = Vec::new();
        let mut i: usize = 0;
        while i < BUFFER_CELLS
            invariant
                i <= BUFFER_CELLS,
                buffer@.len() == i,
                forall|j: int| 0 <= j < i ==> stored(#[trigger] buffer@[j]) == blank(color),
            decreases BUFFER_CELLS - i,
        {
            buffer.push(cell_new(VgaChar { ascii: 0x20, color }));
            i += 1;
        }
        let writer = Writer { row: 0, column: 0, color, buffer };
        assert(writer@.cells =~= Seq::new(BUFFER_CELLS as nat, |i: int| blank(color)));
        writer
    }

    /// The cursor's row.
    pub fn row(&self) -> (row: usize)
        ensures
            row == self@.row,
    {
        self.row
    }

    /// The cursor's column.
    pub fn column(&self) -> (column: usize)
        ensures
            column == self@.column,
    {
        self.column
    }

    /// The attribute byte that new glyphs get.
    pub fn color(&self) -> (color: u8)
        ensures
            color == self@.color,
    {
        self.color
    }

    /// The cell at a row and a column of the grid.
    pub fn char_at(&self, row: usize, column: usize) -> (ch: VgaChar)
        requires
            self@.wf(),
            row < BUFFER_HEIGHT,
            column < BUFFER_WIDTH,
        ensures
            ch == self@.at(row as int, column as int),
    {
        cell_read(&self.buffer[row * 80 + column])
    }

    /// Writes one byte at the cursor: a line feed starts a new line,
    /// backspace and delete erase the cell before the cursor, any other byte
    /// becomes a glyph.
    pub fn write_byte(&mut self, byte: u8)
        requires
            old(self)@.wf(),
        ensures
            final(self)@.wf(),
            final(self)@ == old(self)@.put(byte),
    {
        if byte == 0x0a {
            self.new_line();
        } else if byte == 0x08 || byte == 0x7f {
            if self.column > 0 {
                self.column -= 1;
                let index = self.row * 80 + self.column;
                self.buffer[index] = cell_new(VgaChar { ascii: 0x20, color: self.color });
                assert(self@.cells =~= old(self)@.put(byte).cells);
            }
        } else {
            if self.column >= 80 {
                self.new_line();
            }
            let ghost at = self@;
            let index = self.row * 80 + self.column;
            self.buffer[index] = cell_new(VgaChar { ascii: byte, color: self.color });
            self.column += 1;
            assert(self@.cells =~= at.cells.update(
                at.row * 80 + at.column,
                VgaChar { ascii: byte, color: at.color },
            ));
        }
    }

    /// Writes a string byte by byte. Printable ASCII, line feed, backspace
    /// and delete are written as they are; every other byte becomes the
    /// placeholder glyph.
    pub fn write_string(&mut self, s: &str)
        requires
            old(self)@.wf(),
        ensures
            final(self)@.wf(),
            final(self)@ == old(self)@.put_all(displayable_all(s.spec_bytes())),
    {
        let bytes = s.as_bytes();
        let mut i: usize = 0;
        proof {
            assert(displayable_all(bytes@.take(0)) =~= Seq::<u8>::empty());
        }
        while i < bytes.len()
            invariant
                i <= bytes@.len(),
                self@.wf(),
                self@ == old(self)@.put_all(displayable_all(bytes@.take(i as int))),
            decreases bytes@.len() - i,
        {
            let byte = bytes[i];
            let shown = if (0x20 <= byte && byte <= 0x7e) || byte == 0x0a || byte == 0x08 || byte
                == 0x7f {
                byte
            } else {
                PLACEHOLDER
            };
            proof {
                let longer = displayable_all(bytes@.take(i + 1));
                assert(longer.drop_last() =~= displayable_all(bytes@.take(i as int)));
                assert(longer.last() == shown);
            }
            self.write_byte(shown);
            i += 1;
        }
        proof {
            assert(bytes@.take(i as int) =~= bytes@);
        }
    }

    /// Starts a new line, scrolling the grid up by one row where the cursor
    /// is on the last row.
    fn new_line(&mut self)
        requires
            old(self)@.wf(),
        ensures
            final(self)@.wf(),
            final(self)@ == old(self)@.new_line(),
    {
        if self.row < 24 {
            self.row += 1;
        } else {
            let ghost before = self@;
            let mut row: usize = 0;
            while row < 24
                invariant
                    row <= 24,
                    self.buffer@.len() == BUFFER_CELLS,
                    self.row == old(self).row,
                    self.column == old(self).column,
                    self.color == old(self).color,
                    before == old(self)@,
                    before.cells.len() == BUFFER_CELLS,
                    forall|i: int|
                        0 <= i < BUFFER_CELLS ==> #[trigger] self@.cells[i] == (if i < row * 80 {
                            before.cells[i + 80]
                        } else {
                            before.cells[i]
                        }),
                decreases 24 - row,
            {
                let mut col: usize = 0;
                while col < 80
                    invariant
                        row < 24,
                        col <= 80,
                        self.buffer@.len() == BUFFER_CELLS,
                        self.row == old(self).row,
                        self.column == old(self).column,
                        self.color == old(self).color,
                        before.cells.len() == BUFFER_CELLS,
                        forall|i: int|
                            0 <= i < BUFFER_CELLS ==> #[trigger] self@.cells[i] == (if i < row
                                * 80 + col {
                                before.cells[i + 80]
                            } else {
                                before.cells[i]
                            }),
                    decreases 80 - col,
                {
                    let index = row * 80 + col;
                    let next_index = (row + 1) * 80 + col;
                    let ghost prior = self@;
                    let moved = cell_read(&self.buffer[next_index]);
                    assert(moved == prior.cells[next_index as int]);
                    self.buffer[index] = cell_new(moved);
                    assert(self@.cells =~= prior.cells.update(index as int, moved));
                    col += 1;
                }
                row += 1;
            }
            let mut col: usize = 0;
            while col < 80
                invariant
                    col <= 80,
                    self.buffer@.len() == BUFFER_CELLS,
                    self.row == old(self).row,
                    self.column == old(self).column,
                    self.color == old(self).color,
                    before.cells.len() == BUFFER_CELLS,
                    before.color == self.color,
                    forall|i: int|
                        0 <= i < BUFFER_CELLS ==> #[trigger] self@.cells[i] == (if i < 1920 {
                            before.cells[i + 80]
                        } else if i < 1920 + col {
                            blank(before.color)
                        } else {
                            before.cells[i]
                        }),
                decreases 80 - col,
            {
                let ghost prior = self@;
                let cell = VgaChar { ascii: 0x20, color: self.color };
                self.buffer[24 * 80 + col] = cell_new(cell);
                assert(self@.cells =~= prior.cells.update(1920 + col, cell));
                col += 1;
            }
            assert(self@.cells =~= before.new_line().cells);
        }
        self.column = 0;
    }

    /// Blanks every cell and moves the cursor to the origin.
    pub fn clear_screen(&mut self)
        requires
            old(self)@.wf(),
        ensures
            final(self)@.wf(),
            final(self)@ == old(self)@.cleared(),
    {
        let mut row: usize = 0;
        while row < 25
            invariant
                row <= 25,
                self.buffer@.len() == BUFFER_CELLS,
                self.color == old(self).color,
                forall|i: int|
                    0 <= i < row * 80 ==> #[trigger] self@.cells[i] == blank(self.color),
            decreases 25 - row,
        {
            let mut col: usize = 0;
            while col < 80
                invariant
                    row < 25,
                    col <= 80,
                    self.buffer@.len() == BUFFER_CELLS,
                    self.color == old(self).color,
                    forall|i: int|
                        0 <= i < row * 80 + col ==> #[trigger] self@.cells[i] == blank(
                            self.color,
                        ),
                decreases 80 - col,
            {
                let ghost prior = self@;
                let cell = VgaChar { ascii: 0x20, color: self.color };
                self.buffer[row * 80 + col] = cell_new(cell);
                assert(self@.cells =~= prior.cells.update(row * 80 + col, cell));
                col += 1;
            }
            row += 1;
        }
        let ghost filled = self@.cells;
        assert(filled =~= old(self)@.cleared().cells);
        self.row = 0;
        self.column = 0;
        assert(self@.cells =~= filled);
    }
}

impl crate::shell::Writer for Writer {
    open spec fn wf(&self) -> bool {
        self@.wf()
    }

    open spec fn byte_written(pre: Self, byte: u8, post: Self) -> bool {
        post@ == pre@.put(byte)
    }

    open spec fn string_written(pre: Self, s: Seq<char>, post: Self) -> bool {
        post@ == pre@.put_all(displayable_all(vstd::utf8::encode_utf8(s)))
    }

    fn write_byte(&mut self, byte: u8) {
        self.write_byte(byte);
    }

    fn write_string(&mut self, s: &str) {
        self.write_string(s);
    }
}

/// The screen after each string of `pieces` was written in turn.
pub open spec fn put_strings(screen: Screen, pieces: Seq<Seq<char>>) -> Screen
    decreases pieces.len(),
{
    if pieces.len() == 0 {
        screen
    } else {
        put_strings(screen, pieces.drop_last()).put_all(
            displayable_all(vstd::utf8::encode_utf8(pieces.last())),
        )
    }
}

/// What a series of strings that was written to the display as an output
/// sink leaves on the screen.
pub proof fn law_strings_on_screen(pre: Writer, pieces: Seq<Seq<char>>, post: Writer)
    requires
        crate::shell::strings_written(pre, pieces, post),
    ensures
        post@ == put_strings(pre@, pieces),
    decreases pieces.len(),
{
    if pieces.len() > 0 {
        let mid = choose|mid: Writer|
            crate::shell::strings_written(pre, pieces.drop_last(), mid) && crate::shell::Writer::wf(
                &mid,
            ) && #[trigger] <Writer as crate::shell::Writer>::string_written(
                mid,
                pieces.last(),
                post,
            );
        law_strings_on_screen(pre, pieces.drop_last(), mid);
    }
}

/// Sets the colours of the display and clears it.
pub fn init_vga(writer: &mut Writer, fg: Color, bg: Color)
    requires
        old(writer)@.wf(),
    ensures
        final(writer)@.wf(),
        final(writer)@ == (Screen {
            row: 0,
            column: 0,
            color: attribute(fg, bg),
            cells: Seq::new(BUFFER_CELLS as nat, |i: int| blank(attribute(fg, bg))),
        }),
{
    writer.color = make_color(fg, bg);
    writer.clear_screen();
}

/// `n` line feeds.
pub open spec fn line_feeds(n: nat) -> Seq<u8> {
    Seq::new(n, |i: int| 0x0au8)
}

/// The number of rows by which `n` line feeds scroll a grid whose cursor is on
/// row `row`: as many as go beyond the last row.
pub open spec fn scrolled_rows(row: int, n: nat) -> int {
    if row + n <= BUFFER_HEIGHT - 1 {
        0
    } else {
        row + n - (BUFFER_HEIGHT - 1)
    }
}

/// Line feeds move the cursor down to the last row and from there on scroll:
/// after `n` of them every cell shows what stood `scrolled_rows` rows below
/// it, the rows that have no such source are blank, and the cursor is at the
/// start of its row.
pub proof fn law_line_feeds(screen: Screen, n: nat)
    requires
        screen.wf(),
    ensures
        screen.put_all(line_feeds(n)).wf(),
        screen.put_all(line_feeds(n)).color == screen.color,
        screen.put_all(line_feeds(n)).row == screen.row + n - scrolled_rows(screen.row, n),
        n > 0 ==> screen.put_all(line_feeds(n)).column == 0,
        forall|i: int|
            0 <= i < BUFFER_CELLS ==> #[trigger] screen.put_all(line_feeds(n)).cells[i] == (if i
                + 80 * scrolled_rows(screen.row, n) < BUFFER_CELLS {
                screen.cells[i + 80 * scrolled_rows(screen.row, n)]
            } else {
                blank(screen.color)
            }),
    decreases n,
{
    if n > 0 {
        let shorter = line_feeds((n - 1) as nat);
        assert(line_feeds(n).drop_last() =~= shorter);
        law_line_feeds(screen, (n - 1) as nat);
        let mid = screen.put_all(shorter);
        assert(screen.put_all(line_feeds(n)) == mid.new_line());
        let k = scrolled_rows(screen.row, (n - 1) as nat);
        assert forall|i: int| 0 <= i < BUFFER_CELLS implies #[trigger] mid.new_line().cells[i]
            == (if i + 80 * scrolled_rows(screen.row, n) < BUFFER_CELLS {
            screen.cells[i + 80 * scrolled_rows(screen.row, n)]
        } else {
            blank(screen.color)
        }) by {
            if mid.row == BUFFER_HEIGHT - 1 && i < BUFFER_CELLS - BUFFER_WIDTH {
                assert(mid.new_line().cells[i] == mid.cells[i + 80]);
            }
        }
    }
}

/// One scroll: where the line feeds go exactly one beyond the last row, the
/// first row is lost, every other row moves up by exactly one, and the last
/// row is blank.
pub proof fn law_scroll_by_one(screen: Screen, n: nat)
    requires
        screen.wf(),
        screen.row + n == BUFFER_HEIGHT,
    ensures
        screen.put_all(line_feeds(n)).row == BUFFER_HEIGHT - 1,
        screen.put_all(line_feeds(n)).column == 0,
        forall|row: int, column: int|
            0 <= row < BUFFER_HEIGHT - 1 && 0 <= column < BUFFER_WIDTH ==> #[trigger] screen.put_all(
                line_feeds(n),
            ).at(row, column) == screen.at(row + 1, column),
        forall|column: int|
            0 <= column < BUFFER_WIDTH ==> #[trigger] screen.put_all(line_feeds(n)).at(
                BUFFER_HEIGHT - 1,
                column,
            ) == blank(screen.color),
{
    law_line_feeds(screen, n);
    let after = screen.put_all(line_feeds(n));
    assert forall|row: int, column: int|
        0 <= row < BUFFER_HEIGHT - 1 && 0 <= column < BUFFER_WIDTH implies #[trigger] after.at(
        row,
        column,
    ) == screen.at(row + 1, column) by {
        assert(after.cells[row * 80 + column] == screen.cells[row * 80 + column + 80]);
    }
    assert forall|column: int| 0 <= column < BUFFER_WIDTH implies #[trigger] after.at(
        BUFFER_HEIGHT - 1,
        column,
    ) == blank(screen.color) by {
        assert(after.cells[24 * 80 + column] == blank(screen.color));
    }
}

/// Twenty-six line feeds scroll the grid by two rows more than the cursor's
/// row: the first row is lost with those below it down to that count, what
/// remains moves up by as many rows, and the last row is blank.
pub proof fn law_twenty_six_line_feeds(screen: Screen)
    requires
        screen.wf(),
    ensures
        screen.put_all(line_feeds(26)).row == BUFFER_HEIGHT - 1,
        screen.put_all(line_feeds(26)).column == 0,
        forall|row: int, column: int|
            0 <= row && row + screen.row + 2 < BUFFER_HEIGHT && 0 <= column < BUFFER_WIDTH
                ==> #[trigger] screen.put_all(line_feeds(26)).at(row, column) == screen.at(
                row + screen.row + 2,
                column,
            ),
        forall|column: int|
            0 <= column < BUFFER_WIDTH ==> #[trigger] screen.put_all(line_feeds(26)).at(
                BUFFER_HEIGHT - 1,
                column,
            ) == blank(screen.color),
{
    law_line_feeds(screen, 26);
    let after = screen.put_all(line_feeds(26));
    let k = screen.row + 2;
    assert forall|row: int, column: int|
        0 <= row && row + screen.row + 2 < BUFFER_HEIGHT && 0 <= column
            < BUFFER_WIDTH implies #[trigger] after.at(row, column) == screen.at(
        row + screen.row + 2,
        column,
    ) by {
        assert(after.cells[row * 80 + column] == screen.cells[row * 80 + column + 80 * k]);
        assert((row + k) * 80 + column == row * 80 + column + 80 * k);
    }
    assert forall|column: int| 0 <= column < BUFFER_WIDTH implies #[trigger] after.at(
        BUFFER_HEIGHT - 1,
        column,
    ) == blank(screen.color) by {
        assert(after.cells[24 * 80 + column] == blank(screen.color));
    }
}

} // verus!
