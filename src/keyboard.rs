use vstd::prelude::*;

verus! {

/// Number of key codes the keyboard buffer holds.
pub const CIRC_BUFFER_SIZE: usize = 30;

/// A ring of key codes between the keyboard interrupt and the readers. When it
/// is full a new code overwrites the slot the write position is at.
pub struct CircBuffer {
    pub buffer: Vec<i32>,
    pub read: usize,
    pub write: usize,
    pub count: usize,
}

impl CircBuffer {
    /// The ring has its fixed size and both positions and the count lie in it.
    pub open spec fn wf(&self) -> bool {
        &&& self.buffer@.len() == CIRC_BUFFER_SIZE
        &&& self.read < CIRC_BUFFER_SIZE
        &&& self.write < CIRC_BUFFER_SIZE
        &&& self.count <= CIRC_BUFFER_SIZE
    }

    /// An empty buffer.
    pub fn new() -> (r: CircBuffer)
        ensures
            r.wf(),
            r.buffer@ == Seq::new(CIRC_BUFFER_SIZE as nat, |i: int| 0i32),
            r.count == 0,
            r.read == 0,
            r.write == 0,
    {
        let mut buffer: Vec<i32> = Vec::new();
        let mut i: usize = 0;
        while i < CIRC_BUFFER_SIZE
            invariant
                i <= CIRC_BUFFER_SIZE,
                buffer@ == Seq::new(i as nat, |j: int| 0i32),
            decreases CIRC_BUFFER_SIZE - i,
        {
            buffer.push(0);
            i = i + 1;
            assert(buffer@ =~= Seq::new(i as nat, |j: int| 0i32));
        }
        CircBuffer { buffer, read: 0, write: 0, count: 0 }
    }

    /// `after` is this buffer once `data` is written to it.
    pub open spec fn pushed(&self, after: &CircBuffer, data: i32) -> bool {
        &&& after.buffer@ == self.buffer@.update(self.write as int, data)
        &&& after.write == (self.write + 1) % CIRC_BUFFER_SIZE as int
        &&& after.read == self.read
        &&& after.count == if self.count < CIRC_BUFFER_SIZE { self.count + 1 } else { self.count as int }
    }

    /// `after` holds what this buffer holds.
    pub open spec fn same(&self, after: &CircBuffer) -> bool {
        &&& after.buffer@ == self.buffer@
        &&& after.write == self.write
        &&& after.read == self.read
        &&& after.count == self.count
    }

    /// Stores `data` at the write position and moves that position on; the
    /// count grows until the buffer is full.
    pub fn write(&mut self, data: i32)
        requires
            old(self).wf(),
        ensures
            final(self).wf(),
            old(self).pushed(final(self), data),
    {
        self.buffer.set(self.write, data);
        self.write = (self.write + 1) % CIRC_BUFFER_SIZE;
        if self.count < CIRC_BUFFER_SIZE {
            self.count = self.count + 1;
        }
    }

    /// Takes the code at the read position, or -1 when the buffer is empty.
    pub fn read(&mut self) -> (r: i32)
        requires
            old(self).wf(),
        ensures
            final(self).wf(),
            final(self).buffer@ == old(self).buffer@,
            final(self).write == old(self).write,
            old(self).count == 0 ==> r == -1 && final(self).read == old(self).read && final(self).count == 0,
            old(self).count > 0 ==> {
                &&& r == old(self).buffer@[old(self).read as int]
                &&& final(self).read == (old(self).read + 1) % CIRC_BUFFER_SIZE as int
                &&& final(self).count == old(self).count - 1
            },
    {
        if self.count > 0 {
            let data = self.buffer[self.read];
            self.read = (self.read + 1) % CIRC_BUFFER_SIZE;
            self.count = self.count - 1;
            data
        } else {
            -1
        }
    }

    /// Whether a key code is waiting.
    pub fn keypressed(&self) -> (r: bool)
        ensures
            r == (self.count > 0),
    {
        self.count > 0
    }
}

/// Scancodes of the two shift keys.
pub const LEFT_SHIFT: u8 = 42;
pub const RIGHT_SHIFT: u8 = 54;

/// Number of scancodes the layout tables cover.
pub const KEY_MAP_SIZE: usize = 93;

/// Character codes of the French layout by scancode, shift up.
pub open spec fn plain_keys() -> Seq<i32> {
    seq![
        0, 0, 38, 130, 34, 39, 40, 21, 138, 33, 135, 133, 41, 45, 8, 9, 97, 122, 101, 114, 116,
        121, 117, 105, 111, 112, 94, 36, 10, 0, 113, 115, 100, 102, 103, 104, 106, 107, 108,
        109, 151, 64, 0, 96, 119, 120, 99, 118, 98, 110, 44, 59, 58, 61, 0, 0, 0, 32, 0, 32, 0,
        0, 0, 0, 0, 0, 0, 0, 0, 0, 0, 0, 0, 0, 0, 0, 0, 0, 0, 0, 0, 0, 0, 0, 0, 0, 60, 0, 0, 0,
        0, 0, 0,
    ]
}

/// Character codes of the French layout by scancode, shift down.
pub open spec fn shifted_keys() -> Seq<i32> {
    seq![
        0, 0, 49, 50, 51, 52, 53, 54, 55, 56, 57, 48, 176, 95, 8, 9, 65, 90, 69, 82, 84, 89,
        85, 73, 79, 80, 0, 42, 10, 0, 81, 83, 68, 70, 71, 72, 74, 75, 76, 77, 37, 35, 0, 156,
        87, 88, 67, 86, 66, 78, 63, 46, 47, 43, 0, 0, 0, 32, 0, 32, 0, 0, 0, 0, 0, 0, 0, 0, 0,
        0, 0, 0, 0, 0, 0, 0, 0, 0, 0, 0, 0, 0, 0, 0, 0, 0, 62, 0, 0, 0, 0, 0, 0,
    ]
}

/// The table of [`plain_keys`].
pub fn key_map() -> (r: Vec<i32>)
    ensures
        r@ == plain_keys(),
{
    let r: Vec<i32> = vec![
        0, 0, 38, 130, 34, 39, 40, 21, 138, 33, 135, 133, 41, 45, 8, 9, 97, 122, 101, 114, 116,
        121, 117, 105, 111, 112, 94, 36, 10, 0, 113, 115, 100, 102, 103, 104, 106, 107, 108,
        109, 151, 64, 0, 96, 119, 120, 99, 118, 98, 110, 44, 59, 58, 61, 0, 0, 0, 32, 0, 32, 0,
        0, 0, 0, 0, 0, 0, 0, 0, 0, 0, 0, 0, 0, 0, 0, 0, 0, 0, 0, 0, 0, 0, 0, 0, 0, 60, 0, 0, 0,
        0, 0, 0,
    ];
    assert(r@ =~= plain_keys());
    r
}

/// The table of [`shifted_keys`].
pub fn shift_key_map() -> (r: Vec<i32>)
    ensures
        r@ == shifted_keys(),
{
    let r: Vec<i32> = vec![
        0, 0, 49, 50, 51, 52, 53, 54, 55, 56, 57, 48, 176, 95, 8, 9, 65, 90, 69, 82, 84, 89,
        85, 73, 79, 80, 0, 42, 10, 0, 81, 83, 68, 70, 71, 72, 74, 75, 76, 77, 37, 35, 0, 156,
        87, 88, 67, 86, 66, 78, 63, 46, 47, 43, 0, 0, 0, 32, 0, 32, 0, 0, 0, 0, 0, 0, 0, 0, 0,
        0, 0, 0, 0, 0, 0, 0, 0, 0, 0, 0, 0, 0, 0, 0, 0, 0, 62, 0, 0, 0, 0, 0, 0,
    ];
    assert(r@ =~= shifted_keys());
    r
}

/// The keyboard: the codes typed and not yet read, and whether a shift key is
/// held.
pub struct Keyboard {
    pub buffer: CircBuffer,
    pub shift: bool,
    pub key_map: Vec<i32>,
    pub shift_key_map: Vec<i32>,
}

impl Keyboard {
    /// The buffer is well formed and the tables are those of the layout.
    pub open spec fn wf(&self) -> bool {
        &&& self.buffer.wf()
        &&& self.key_map@ == plain_keys()
        &&& self.shift_key_map@ == shifted_keys()
    }

    /// No key typed, no shift held.
    pub fn new() -> (r: Keyboard)
        ensures
            r.wf(),
            r.buffer.count == 0,
            !r.shift,
    {
        Keyboard { buffer: CircBuffer::new(), shift: false, key_map: key_map(), shift_key_map: shift_key_map() }
    }

    /// What the keyboard interrupt does with the scancode `key` read from the
    /// data port. A press of a shift key holds shift; a press of another key
    /// that the layout covers queues its character code, shifted while shift is
    /// held; a release of a shift key lets shift go. Anything else changes
    /// nothing.
    pub fn keyboard_handler(&mut self, key: u8)
        requires
            old(self).wf(),
        ensures
            final(self).wf(),
            key < 0x80 && (key == LEFT_SHIFT || key == RIGHT_SHIFT) ==> final(self).shift
                && old(self).buffer.same(&final(self).buffer),
            key < 0x80 && key != LEFT_SHIFT && key != RIGHT_SHIFT && key < KEY_MAP_SIZE ==> {
                &&& final(self).shift == old(self).shift
                &&& old(self).buffer.pushed(&final(self).buffer,
                    if old(self).shift { shifted_keys()[key as int] } else { plain_keys()[key as int] })
            },
            key < 0x80 && key != LEFT_SHIFT && key != RIGHT_SHIFT && key >= KEY_MAP_SIZE ==>
                final(self).shift == old(self).shift && old(self).buffer.same(&final(self).buffer),
            key >= 0x80 ==> {
                &&& final(self).shift == if key - 0x80 == LEFT_SHIFT || key - 0x80 == RIGHT_SHIFT {
                    false
                } else {
                    old(self).shift
                }
                &&& old(self).buffer.same(&final(self).buffer)
            },
    {
        if key < 0x80 {
            if key == LEFT_SHIFT || key == RIGHT_SHIFT {
                self.shift = true;
            } else if (key as usize) < KEY_MAP_SIZE {
                let code = if self.shift { self.shift_key_map[key as usize] } else { self.key_map[key as usize] };
                self.buffer.write(code);
            }
        } else {
            let released = key - 0x80;
            if released == LEFT_SHIFT || released == RIGHT_SHIFT {
                self.shift = false;
            }
        }
    }

    /// Whether a key code is waiting.
    pub fn keypressed(&self) -> (r: bool)
        ensures
            r == (self.buffer.count > 0),
    {
        self.buffer.keypressed()
    }
}

} // verus!
