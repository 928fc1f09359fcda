//! The text-display writer.
//!
//! The kernel's screen is a fixed grid of character cells, each a byte
//! and a colour code. The real grid lives in video memory; the writer
//! here owns a modelled grid and proves what every write does to it:
//! printable bytes land at the cursor on the bottom row, a newline
//! scrolls every row up one and blanks the bottom row, writing past
//! the last column wraps first, and deleting shifts the rest of the
//! bottom row left under the cursor.

use vstd::prelude::*;

verus! {

/// Rows of the character grid.
pub const BUFFER_HEIGHT: usize = 25;

/// Columns of the character grid.
pub const BUFFER_WIDTH: usize = 80;

/// The palette of the display: each colour has a fixed 4-bit code.
#[derive(Clone, Copy, Debug)]
pub enum Color {
    Black,
    Blue,
    Green,
    Cyan,
    Red,
    Magenta,
    Brown,
    LightGray,
    DarkGray,
    LightBlue,
    LightGreen,
    LightCyan,
    LightRed,
    Pink,
    Yellow,
    White,
}

impl Color {
    /// The 4-bit hardware code of this colour.
    pub open spec fn spec_code(self) -> u8 {
        match self {
            Color::Black => 0,
            Color::Blue => 1,
            Color::Green => 2,
            Color::Cyan => 3,
            Color::Red => 4,
            Color::Magenta => 5,
            Color::Brown => 6,
            Color::LightGray => 7,
            Color::DarkGray => 8,
            Color::LightBlue => 9,
            Color::LightGreen => 10,
            Color::LightCyan => 11,
            Color::LightRed => 12,
            Color::Pink => 13,
            Color::Yellow => 14,
            Color::White => 15,
        }
    }

    /// Executable form of `spec_code`.
    pub fn code(self) -> (c: u8)
        ensures
            c == self.spec_code(),
    {
        match self {
            Color::Black => 0,
            Color::Blue => 1,
            Color::Green => 2,
            Color::Cyan => 3,
            Color::Red => 4,
            Color::Magenta => 5,
            Color::Brown => 6,
            Color::LightGray => 7,
            Color::DarkGray => 8,
            Color::LightBlue => 9,
            Color::LightGreen => 10,
            Color::LightCyan => 11,
            Color::LightRed => 12,
            Color::Pink => 13,
            Color::Yellow => 14,
            Color::White => 15,
        }
    }
}

/// A full colour code: background in the high half, foreground in the
/// low half of one byte.
#[derive(Clone, Copy, PartialEq, Eq, Structural, Debug)]
pub struct ColorCode(pub u8);

impl ColorCode {
    /// Packs a foreground and a background colour into one byte:
    /// sixteen times the background code plus the foreground code.
    pub fn new(foreground: Color, background: Color) -> (r: ColorCode)
        ensures
            r.0 == background.spec_code() * 16 + foreground.spec_code(),
    {
        let fg = foreground.code();
        let bg = background.code();
        proof {
            assert(bg < 16 && fg < 16);
            assert((bg << 4) | fg == bg * 16 + fg) by (bit_vector)
                requires bg < 16 && fg < 16,
            {}
        }
        ColorCode((bg << 4) | fg)
    }
}

/// One cell of the grid: a byte of text and its colour.
#[derive(Clone, Copy, PartialEq, Eq, Structural, Debug)]
pub struct ScreenChar {
    pub ascii_character: u8,
    pub color_code: ColorCode,
}

/// A blank cell in the given colour.
pub open spec fn blank_char(color: ColorCode) -> ScreenChar {
    ScreenChar { ascii_character: 32, color_code: color }
}

/// The grid after scrolling: every row moves up one, the bottom row
/// becomes blank.
pub open spec fn scrolled(s: Seq<ScreenChar>, color: ColorCode) -> Seq<ScreenChar> {
    Seq::new(s.len(), |i: int|
        if i < (BUFFER_HEIGHT - 1) * BUFFER_WIDTH { s[i + BUFFER_WIDTH] } else { blank_char(color) })
}

/// The grid and cursor after writing one byte: a newline scrolls; any
/// other byte lands at the cursor on the bottom row, scrolling first
/// if the cursor has run off the row's end.
pub open spec fn written_byte(s: Seq<ScreenChar>, col: int, color: ColorCode, byte: u8) -> (Seq<ScreenChar>, int) {
    if byte == 10 {
        (scrolled(s, color), 0)
    } else {
        let (s1, c1) = if col >= BUFFER_WIDTH { (scrolled(s, color), 0int) } else { (s, col) };
        (s1.update((BUFFER_HEIGHT - 1) * BUFFER_WIDTH + c1,
                   ScreenChar { ascii_character: byte, color_code: color }), c1 + 1)
    }
}

/// A byte the display shows as itself: printable ASCII or newline.
pub open spec fn displayable(b: u8) -> bool {
    (0x20 <= b <= 0x7e) || b == 10
}

/// The grid and cursor after writing a whole byte string, substituting
/// the fallback glyph for bytes the display cannot show.
pub open spec fn written_bytes(s: Seq<ScreenChar>, col: int, color: ColorCode, bytes: Seq<u8>) -> (Seq<ScreenChar>, int)
    decreases bytes.len(),
{
    if bytes.len() == 0 {
        (s, col)
    } else {
        let (s1, c1) = written_bytes(s, col, color, bytes.drop_last());
        let b = if displayable(bytes.last()) { bytes.last() } else { 0xfe };
        written_byte(s1, c1, color, b)
    }
}

/// The grid and cursor after deleting under the cursor: the bottom
/// row's tail shifts one cell left, its last cell blanks, the cursor
/// steps back. With the cursor at the row's start nothing happens.
pub open spec fn deleted_byte(s: Seq<ScreenChar>, col: int, color: ColorCode) -> (Seq<ScreenChar>, int) {
    if col <= 0 {
        (s, col)
    } else {
        let base = (BUFFER_HEIGHT - 1) * BUFFER_WIDTH;
        (Seq::new(s.len(), |i: int|
            if base + col <= i < base + BUFFER_WIDTH - 1 { s[i + 1] }
            else if i == base + BUFFER_WIDTH - 1 { blank_char(color) }
            else { s[i] }), col - 1)
    }
}

/// The text-display writer: the cursor's column on the bottom row, the
/// colour new cells take, and the character grid, stored row-major.
pub struct Writer {
    column_position: usize,
    color_code: ColorCode,
    buffer: Vec<ScreenChar>,
}

impl Writer {
    /// The character grid, row-major.
    pub closed spec fn screen(self) -> Seq<ScreenChar> {
        self.buffer@
    }

    /// The cursor's column on the bottom row.
    pub closed spec fn col(self) -> int {
        self.column_position as int
    }

    /// The colour new cells take.
    pub closed spec fn color(self) -> ColorCode {
        self.color_code
    }

    /// The grid has exactly its fixed dimensions and the cursor is at
    /// or before the row's end.
    pub open spec fn wf(self) -> bool {
        &&& self.screen().len() == BUFFER_HEIGHT * BUFFER_WIDTH
        &&& 0 <= self.col() <= BUFFER_WIDTH
    }

    /// A writer over a blank grid, cursor at the row's start.
    pub fn new(color_code: ColorCode) -> (r: Self)
        ensures
            r.wf(),
            r.col() == 0,
            r.color() == color_code,
            forall|i: int| 0 <= i < BUFFER_HEIGHT * BUFFER_WIDTH
                ==> #[trigger] r.screen()[i] == blank_char(color_code),
    {
        let mut buffer: Vec<ScreenChar> = Vec::new();
        let total = BUFFER_HEIGHT * BUFFER_WIDTH;
        let mut i: usize = 0;
        while i < total
            invariant
                i <= total,
                total == BUFFER_HEIGHT * BUFFER_WIDTH,
                buffer@.len() == i,
                forall|k: int| 0 <= k < i ==> #[trigger] buffer@[k] == blank_char(color_code),
            decreases total - i,
        {
            buffer.push(ScreenChar { ascii_character: 32, color_code });
            i += 1;
        }
        Writer { column_position: 0, color_code, buffer }
    }

    /// The cell at a row and column, for readers of the display.
    pub fn char_at(&self, row: usize, column: usize) -> (c: ScreenChar)
        requires
            self.wf(),
            row < BUFFER_HEIGHT,
            column < BUFFER_WIDTH,
        ensures
            c == self.screen()[row * BUFFER_WIDTH + column],
    {
        self.buffer[row * BUFFER_WIDTH + column]
    }

    /// Blanks one row of the grid.
    fn clear_row(&mut self, row: usize)
        requires
            old(self).wf(),
            row < BUFFER_HEIGHT,
        ensures
            final(self).wf(),
            final(self).col() == old(self).col(),
            final(self).color() == old(self).color(),
            forall|i: int| row * BUFFER_WIDTH <= i < (row + 1) * BUFFER_WIDTH
                ==> #[trigger] final(self).screen()[i] == blank_char(old(self).color()),
            forall|i: int| 0 <= i < BUFFER_HEIGHT * BUFFER_WIDTH
                && !(row * BUFFER_WIDTH <= i < (row + 1) * BUFFER_WIDTH)
                ==> #[trigger] final(self).screen()[i] == old(self).screen()[i],
    {
        let blank = ScreenChar { ascii_character: 32, color_code: self.color_code };
        let base = row * BUFFER_WIDTH;
        let mut c: usize = 0;
        while c < BUFFER_WIDTH
            invariant
                c <= BUFFER_WIDTH,
                base == row * BUFFER_WIDTH,
                row < BUFFER_HEIGHT,
                blank == blank_char(old(self).color()),
                self.wf(),
                self.col() == old(self).col(),
                self.color() == old(self).color(),
                forall|i: int| base <= i < base + c
                    ==> #[trigger] self.screen()[i] == blank_char(old(self).color()),
                forall|i: int| 0 <= i < BUFFER_HEIGHT * BUFFER_WIDTH
                    && !(base <= i < base + c)
                    ==> #[trigger] self.screen()[i] == old(self).screen()[i],
            decreases BUFFER_WIDTH - c,
        {
            self.buffer[base + c] = blank;
            c += 1;
        }
    }

    /// Scrolls: copies every row up one, blanks the bottom row, and
    /// sends the cursor back to the row's start.
    fn new_line(&mut self)
        requires
            old(self).wf(),
        ensures
            final(self).wf(),
            final(self).color() == old(self).color(),
            final(self).screen() =~= scrolled(old(self).screen(), old(self).color()),
            final(self).col() == 0,
    {
        let limit = (BUFFER_HEIGHT - 1) * BUFFER_WIDTH;
        let mut i: usize = 0;
        while i < limit
            invariant
                i <= limit,
                limit == (BUFFER_HEIGHT - 1) * BUFFER_WIDTH,
                self.wf(),
                self.col() == old(self).col(),
                self.color() == old(self).color(),
                forall|k: int| 0 <= k < i
                    ==> #[trigger] self.screen()[k] == old(self).screen()[k + BUFFER_WIDTH],
                forall|k: int| i <= k < BUFFER_HEIGHT * BUFFER_WIDTH
                    ==> #[trigger] self.screen()[k] == old(self).screen()[k],
            decreases limit - i,
        {
            let ch = self.buffer[i + BUFFER_WIDTH];
            self.buffer[i] = ch;
            i += 1;
        }
        self.clear_row(BUFFER_HEIGHT - 1);
        self.column_position = 0;
    }

    /// Writes one byte: a newline scrolls, anything else lands at the
    /// cursor on the bottom row, scrolling first when the row is full.
    pub fn write_byte(&mut self, byte: u8)
        requires
            old(self).wf(),
        ensures
            final(self).wf(),
            final(self).color() == old(self).color(),
            (final(self).screen(), final(self).col())
                =~= written_byte(old(self).screen(), old(self).col(), old(self).color(), byte),
    {
        if byte == 10 {
            self.new_line();
        } else {
            if self.column_position >= BUFFER_WIDTH {
                self.new_line();
            }
            let row = BUFFER_HEIGHT - 1;
            let col = self.column_position;
            let color_code = self.color_code;
            self.buffer[row * BUFFER_WIDTH + col] = ScreenChar {
                ascii_character: byte,
                color_code,
            };
            self.column_position = self.column_position + 1;
        }
    }

    /// Deletes the byte under the cursor, shifting the rest of the
    /// bottom row left and blanking its last cell.
    pub fn delete_byte(&mut self)
        requires
            old(self).wf(),
        ensures
            final(self).wf(),
            final(self).color() == old(self).color(),
            (final(self).screen(), final(self).col())
                =~= deleted_byte(old(self).screen(), old(self).col(), old(self).color()),
    {
        if self.column_position > 0 {
            let row = BUFFER_HEIGHT - 1;
            let col = self.column_position;
            let base = row * BUFFER_WIDTH;
            let mut c: usize = col;
            while c < BUFFER_WIDTH - 1
                invariant
                    old(self).col() >= 1,
                    col == old(self).col(),
                    col <= c <= BUFFER_WIDTH - 1 || (col > BUFFER_WIDTH - 1 && c == col),
                    base == (BUFFER_HEIGHT - 1) * BUFFER_WIDTH,
                    self.wf(),
                    self.col() == old(self).col(),
                    self.color() == old(self).color(),
                    forall|i: int| base + col <= i < base + c
                        ==> #[trigger] self.screen()[i] == old(self).screen()[i + 1],
                    forall|i: int| 0 <= i < BUFFER_HEIGHT * BUFFER_WIDTH
                        && !(base + col <= i < base + c)
                        ==> #[trigger] self.screen()[i] == old(self).screen()[i],
                decreases BUFFER_WIDTH - 1 - c,
            {
                let next_char = self.buffer[base + c + 1];
                self.buffer[base + c] = next_char;
                c += 1;
            }
            let blank = ScreenChar { ascii_character: 32, color_code: self.color_code };
            self.buffer[base + BUFFER_WIDTH - 1] = blank;
            self.column_position = self.column_position - 1;
        }
    }

    /// Writes a whole byte string, substituting the fallback glyph for
    /// bytes outside printable ASCII.
    pub fn write_string(&mut self, s: &[u8])
        requires
            old(self).wf(),
        ensures
            final(self).wf(),
            final(self).color() == old(self).color(),
            (final(self).screen(), final(self).col())
                =~= written_bytes(old(self).screen(), old(self).col(), old(self).color(), s@),
    {
        let mut i: usize = 0;
        while i < s.len()
            invariant
                i <= s@.len(),
                self.wf(),
                self.color() == old(self).color(),
                (self.screen(), self.col())
                    =~= written_bytes(old(self).screen(), old(self).col(), old(self).color(), s@.take(i as int)),
            decreases s@.len() - i,
        {
            let byte = s[i];
            proof {
                assert(s@.take(i + 1).drop_last() =~= s@.take(i as int));
                assert(s@.take(i + 1).last() == s@[i as int]);
            }
            match byte {
                0x20..=0x7e | 10 => self.write_byte(byte),
                _ => self.write_byte(0xfe),
            }
            i += 1;
        }
        proof {
            assert(s@.take(s@.len() as int) =~= s@);
        }
    }
}

} // verus!
