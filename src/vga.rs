use vstd::prelude::*;
use vstd::string::StringSliceAdditionalSpecFns;

verus! {

/// Rows of the text screen.
pub const BUFFER_HEIGHT: usize = 25;
/// Columns of the text screen.
pub const BUFFER_WIDTH: usize = 80;
/// Number of character cells on the screen.
pub const BUFFER_CELLS: usize = 2000;

/// The sixteen text-mode colours.
#[derive(Clone, Copy, Debug, PartialEq, Eq)]
pub enum Color {
    Black,
    Blue,
    Green,
    Cyan,
    Red,
    Magenta,
    Brown,
    LightGray,
    DarkGray,
    LightBlue,
    LightGreen,
    LightCyan,
    LightRed,
    Pink,
    Yellow,
    White,
}

/// The hardware code of a colour.
pub open spec fn color_value(c: Color) -> u32 {
    match c {
        Color::Black => 0x0,
        Color::Blue => 0x1,
        Color::Green => 0x2,
        Color::Cyan => 0x3,
        Color::Red => 0x4,
        Color::Magenta => 0x5,
        Color::Brown => 0x6,
        Color::LightGray => 0x7,
        Color::DarkGray => 0x8,
        Color::LightBlue => 0x9,
        Color::LightGreen => 0xa,
        Color::LightCyan => 0xb,
        Color::LightRed => 0xc,
        Color::Pink => 0xd,
        Color::Yellow => 0xe,
        Color::White => 0xf,
    }
}

impl Color {
    /// The colour with hardware code `color`; black for a code above 15.
    pub fn from_u32(color: u32) -> (r: Color)
        ensures
            color < 16 ==> color_value(r) == color,
            color >= 16 ==> r == Color::Black,
    {
        match color {
            0x0 => Color::Black,
            0x1 => Color::Blue,
            0x2 => Color::Green,
            0x3 => Color::Cyan,
            0x4 => Color::Red,
            0x5 => Color::Magenta,
            0x6 => Color::Brown,
            0x7 => Color::LightGray,
            0x8 => Color::DarkGray,
            0x9 => Color::LightBlue,
            0xa => Color::LightGreen,
            0xb => Color::LightCyan,
            0xc => Color::LightRed,
            0xd => Color::Pink,
            0xe => Color::Yellow,
            0xf => Color::White,
            _ => Color::Black,
        }
    }

    /// The hardware code of `color`.
    pub fn to_u32(color: Color) -> (r: u32)
        ensures
            r == color_value(color),
            r < 16,
    {
        match color {
            Color::Black => 0x0,
            Color::Blue => 0x1,
            Color::Green => 0x2,
            Color::Cyan => 0x3,
            Color::Red => 0x4,
            Color::Magenta => 0x5,
            Color::Brown => 0x6,
            Color::LightGray => 0x7,
            Color::DarkGray => 0x8,
            Color::LightBlue => 0x9,
            Color::LightGreen => 0xa,
            Color::LightCyan => 0xb,
            Color::LightRed => 0xc,
            Color::Pink => 0xd,
            Color::Yellow => 0xe,
            Color::White => 0xf,
        }
    }
}

/// Background colour in the high four bits, foreground in the low four.
#[derive(Clone, Copy, Debug, PartialEq, Eq)]
pub struct ColorAttribute(pub u8);

impl ColorAttribute {
    pub fn new(background: Color, foreground: Color) -> (r: ColorAttribute)
        ensures
            r.0 == color_value(background) * 16 + color_value(foreground),
    {
        let b = Color::to_u32(background);
        let f = Color::to_u32(foreground);
        ColorAttribute((b * 16 + f) as u8)
    }
}

/// One cell of the screen: a byte and its colours.
#[derive(Clone, Copy, Debug, PartialEq, Eq)]
pub struct Character {
    pub ascii: u8,
    pub attribute: ColorAttribute,
}

impl Character {
    /// An empty cell, black on white.
    pub fn null() -> (r: Character)
        ensures
            r.ascii == 0,
            r.attribute.0 == color_value(Color::White) * 16 + color_value(Color::Black),
    {
        Character { ascii: 0, attribute: ColorAttribute::new(Color::White, Color::Black) }
    }

    pub fn new(ascii: u8, attribute: ColorAttribute) -> (r: Character)
        ensures
            r.ascii == ascii,
            r.attribute == attribute,
    {
        Character { ascii, attribute }
    }
}

/// What the screen shows: its cells row after row, and the cursor.
pub type ScreenState = (Seq<Character>, int, int);

/// The cells moved up one row, with a blank last row in colours `attr`.
pub open spec fn shifted(cells: Seq<Character>, attr: ColorAttribute) -> Seq<Character> {
    Seq::new(
        BUFFER_CELLS as nat,
        |i: int|
            if i < BUFFER_CELLS - BUFFER_WIDTH {
                cells[i + BUFFER_WIDTH]
            } else {
                Character { ascii: 0, attribute: attr }
            },
    )
}

/// The screen after one byte is written in colours `attr`. A newline moves to
/// the start of the next row; any other byte is put at the cursor, which first
/// moves to the next row when the current one is full. On the last row the
/// screen scrolls up instead of moving down.
pub open spec fn put_byte(st: ScreenState, attr: ColorAttribute, b: u8) -> ScreenState {
    let (cells, x, y) = st;
    let cell = Character { ascii: b, attribute: attr };
    if y == BUFFER_HEIGHT - 1 {
        if b == 10 {
            (shifted(cells, attr), 0, y)
        } else if x >= BUFFER_WIDTH {
            (shifted(cells, attr).update(y * BUFFER_WIDTH, cell), 1, y)
        } else {
            (cells.update(y * BUFFER_WIDTH + x, cell), x + 1, y)
        }
    } else {
        if b == 10 {
            (cells, 0, y + 1)
        } else if x >= BUFFER_WIDTH {
            (cells.update((y + 1) * BUFFER_WIDTH, cell), 1, y + 1)
        } else {
            (cells.update(y * BUFFER_WIDTH + x, cell), x + 1, y)
        }
    }
}

/// The screen after `bytes` are written one after the other.
pub open spec fn put_bytes(st: ScreenState, attr: ColorAttribute, bytes: Seq<u8>) -> ScreenState
    decreases bytes.len(),
{
    if bytes.len() == 0 {
        st
    } else {
        put_bytes(put_byte(st, attr, bytes[0]), attr, bytes.drop_first())
    }
}

/// The text screen: its cells row after row, the colours of what is written
/// next, and the cursor.
pub struct Screen {
    pub buffer: Vec<Character>,
    pub attribute: ColorAttribute,
    pub cursor_x: usize,
    pub cursor_y: usize,
}

impl Screen {
    /// One cell per position, the cursor on the screen.
    pub open spec fn wf(&self) -> bool {
        &&& self.buffer@.len() == BUFFER_CELLS
        &&& self.cursor_x <= BUFFER_WIDTH
        &&& self.cursor_y < BUFFER_HEIGHT
    }

    /// The cells and the cursor.
    pub open spec fn state(&self) -> ScreenState {
        (self.buffer@, self.cursor_x as int, self.cursor_y as int)
    }

    /// A blank screen in colours `attribute`, the cursor at the top left.
    pub fn new(attribute: ColorAttribute) -> (r: Screen)
        ensures
            r.wf(),
            r.attribute == attribute,
            r.buffer@ == Seq::new(BUFFER_CELLS as nat, |i: int| (Character { ascii: 0, attribute })),
            r.cursor_x == 0,
            r.cursor_y == 0,
    {
        let mut buffer: Vec<Character> = Vec::new();
        let mut i: usize = 0;
        while i < BUFFER_CELLS
            invariant
                i <= BUFFER_CELLS,
                buffer@ == Seq::new(i as nat, |j: int| (Character { ascii: 0, attribute })),
            decreases BUFFER_CELLS - i,
        {
            buffer.push(Character { ascii: 0, attribute });
            i = i + 1;
            assert(buffer@ =~= Seq::new(i as nat, |j: int| Character { ascii: 0, attribute }));
        }
        Screen { buffer, attribute, cursor_x: 0, cursor_y: 0 }
    }

    /// Blanks every cell in the current colours and puts the cursor at the top left.
    pub fn clear(&mut self)
        requires
            old(self).wf(),
        ensures
            final(self).wf(),
            final(self).attribute == old(self).attribute,
            final(self).buffer@ == Seq::new(BUFFER_CELLS as nat, |i: int| (Character { ascii: 0, attribute: old(self).attribute })),
            final(self).cursor_x == 0,
            final(self).cursor_y == 0,
    {
        let attribute = self.attribute;
        let mut i: usize = 0;
        while i < BUFFER_CELLS
            invariant
                self.buffer@.len() == BUFFER_CELLS,
                self.attribute == attribute,
                i <= BUFFER_CELLS,
                self.cursor_x <= BUFFER_WIDTH,
                self.cursor_y < BUFFER_HEIGHT,
                forall|j: int| 0 <= j < i ==> #[trigger] self.buffer@[j] == (Character { ascii: 0, attribute }),
            decreases BUFFER_CELLS - i,
        {
            self.buffer.set(i, Character { ascii: 0, attribute });
            i = i + 1;
        }
        assert(self.buffer@ =~= Seq::new(BUFFER_CELLS as nat, |i: int| Character { ascii: 0, attribute }));
        self.cursor_x = 0;
        self.cursor_y = 0;
    }

    /// Moves every row up one, and blanks the last row in the current colours.
    pub fn shift_up(&mut self)
        requires
            old(self).wf(),
        ensures
            final(self).wf(),
            final(self).buffer@ == shifted(old(self).buffer@, old(self).attribute),
            final(self).attribute == old(self).attribute,
            final(self).cursor_x == old(self).cursor_x,
            final(self).cursor_y == old(self).cursor_y,
    {
        let attribute = self.attribute;
        let mut i: usize = 0;
        while i < BUFFER_CELLS
            invariant
                self.buffer@.len() == BUFFER_CELLS,
                self.attribute == attribute,
                self.cursor_x == old(self).cursor_x,
                self.cursor_y == old(self).cursor_y,
                i <= BUFFER_CELLS,
                forall|j: int| 0 <= j < i ==> #[trigger] self.buffer@[j] == shifted(old(self).buffer@, attribute)[j],
                forall|j: int| i <= j < BUFFER_CELLS ==> #[trigger] self.buffer@[j] == old(self).buffer@[j],
            decreases BUFFER_CELLS - i,
        {
            if i < BUFFER_CELLS - BUFFER_WIDTH {
                let c = self.buffer[i + BUFFER_WIDTH];
                self.buffer.set(i, c);
            } else {
                self.buffer.set(i, Character { ascii: 0, attribute });
            }
            i = i + 1;
        }
        assert(self.buffer@ =~= shifted(old(self).buffer@, attribute));
    }

    /// Writes one byte at the cursor; see [`put_byte`].
    pub fn write_byte(&mut self, byte: u8)
        requires
            old(self).wf(),
        ensures
            final(self).wf(),
            final(self).attribute == old(self).attribute,
            final(self).state() == put_byte(old(self).state(), old(self).attribute, byte),
    {
        let cell = Character { ascii: byte, attribute: self.attribute };
        if self.cursor_y == BUFFER_HEIGHT - 1 {
            if byte == 10u8 {
                self.shift_up();
                self.cursor_x = 0;
            } else {
                if self.cursor_x >= BUFFER_WIDTH {
                    self.shift_up();
                    self.cursor_x = 0;
                }
                let at = self.cursor_y * BUFFER_WIDTH + self.cursor_x;
                self.buffer.set(at, cell);
                self.cursor_x = self.cursor_x + 1;
            }
        } else {
            if byte == 10u8 {
                self.cursor_x = 0;
                self.cursor_y = self.cursor_y + 1;
            } else {
                if self.cursor_x >= BUFFER_WIDTH {
                    self.cursor_x = 0;
                    self.cursor_y = self.cursor_y + 1;
                }
                let at = self.cursor_y * BUFFER_WIDTH + self.cursor_x;
                self.buffer.set(at, cell);
                self.cursor_x = self.cursor_x + 1;
            }
        }
    }

    /// Writes the bytes of `buf` one after the other; see [`put_bytes`].
    pub fn write(&mut self, buf: &str)
        requires
            old(self).wf(),
        ensures
            final(self).wf(),
            final(self).attribute == old(self).attribute,
            final(self).state() == put_bytes(old(self).state(), old(self).attribute, buf.spec_bytes()),
    {
        let bytes = buf.as_bytes();
        let ghost all = bytes@;
        assert(all.subrange(0, all.len() as int) =~= all);
        let mut i: usize = 0;
        while i < bytes.len()
            invariant
                self.wf(),
                self.attribute == old(self).attribute,
                bytes@ == all,
                all == buf.spec_bytes(),
                i <= all.len(),
                put_bytes(self.state(), self.attribute, all.subrange(i as int, all.len() as int))
                    == put_bytes(old(self).state(), old(self).attribute, all),
            decreases all.len() - i,
        {
            let ghost before = self.state();
            self.write_byte(bytes[i]);
            proof {
                let rest = all.subrange(i as int, all.len() as int);
                assert(rest[0] == all[i as int]);
                assert(rest.drop_first() =~= all.subrange(i + 1, all.len() as int));
            }
            i = i + 1;
        }
        proof {
            assert(all.subrange(i as int, all.len() as int) =~= Seq::<u8>::empty());
        }
    }

    /// The cursor as an offset from the top left cell.
    pub fn get_pos(&self) -> (r: u16)
        requires
            self.wf(),
        ensures
            r == self.cursor_y * BUFFER_WIDTH + self.cursor_x,
    {
        (self.cursor_y * BUFFER_WIDTH + self.cursor_x) as u16
    }

    pub fn get_color(&self) -> (r: ColorAttribute)
        ensures
            r == self.attribute,
    {
        self.attribute
    }

    pub fn set_color(&mut self, background: Color, foreground: Color)
        ensures
            final(self).attribute.0 == color_value(background) * 16 + color_value(foreground),
            final(self).buffer@ == old(self).buffer@,
            final(self).cursor_x == old(self).cursor_x,
            final(self).cursor_y == old(self).cursor_y,
    {
        self.attribute = ColorAttribute::new(background, foreground);
    }

    /// Moves the cursor to column `x` of row `y`.
    pub fn set_cursor(&mut self, x: usize, y: usize)
        requires
            x <= BUFFER_WIDTH,
            y < BUFFER_HEIGHT,
        ensures
            final(self).cursor_x == x,
            final(self).cursor_y == y,
            final(self).buffer@ == old(self).buffer@,
            final(self).attribute == old(self).attribute,
    {
        self.cursor_x = x;
        self.cursor_y = y;
    }
}

/// Sets the screen's colours and clears it.
pub fn vga_init(screen: &mut Screen, background: Color, foreground: Color)
    requires
        old(screen).wf(),
    ensures
        final(screen).wf(),
        final(screen).attribute.0 == color_value(background) * 16 + color_value(foreground),
        final(screen).buffer@ == Seq::new(BUFFER_CELLS as nat, |i: int| (Character { ascii: 0, attribute: final(screen).attribute })),
        final(screen).cursor_x == 0,
        final(screen).cursor_y == 0,
{
    screen.set_color(background, foreground);
    screen.clear();
}

} // verus!
