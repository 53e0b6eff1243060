//! PS/2 keyboard: set-1 scancodes to ASCII, and the queue the CLI reads.
use vstd::prelude::*;

verus! {

pub const QUEUE_SIZE: usize = 128;
pub const ESCAPE_SCANCODE: u8 = 0x01;
pub const LEFT_SHIFT_MAKE: u8 = 0x2A;
pub const RIGHT_SHIFT_MAKE: u8 = 0x36;
pub const LEFT_SHIFT_BREAK: u8 = 0xAA;
pub const RIGHT_SHIFT_BREAK: u8 = 0xB6;
pub const BACKSPACE: u8 = 0x0E;
pub const ENTER: u8 = 0x1C;
pub const EXTENDED_PREFIX_BYTE: u8 = 0xE0;
pub const ARROW_UP_SCANCODE: u8 = 0x48;
pub const ARROW_DOWN_SCANCODE: u8 = 0x50;
/// Control bytes the CLI reads for the arrow keys (DC1, DC2).
pub const ARROW_UP: u8 = 0x11;
pub const ARROW_DOWN: u8 = 0x12;

/// A ring buffer of 128 slots holding up to 127 bytes.
pub struct KeyQueue {
    buf: Vec<u8>,
    head: usize,
    tail: usize,
}

impl View for KeyQueue {
    type V = Seq<u8>;

    closed spec fn view(&self) -> Seq<u8> {
        let n = ((self.tail + QUEUE_SIZE - self.head) % (QUEUE_SIZE as int)) as nat;
        Seq::new(n, |i: int| self.buf@[(self.head + i) % (QUEUE_SIZE as int)])
    }
}

impl KeyQueue {
    pub closed spec fn wf(&self) -> bool {
        &&& self.buf@.len() == QUEUE_SIZE
        &&& self.head < QUEUE_SIZE
        &&& self.tail < QUEUE_SIZE
    }

    pub fn new() -> (r: KeyQueue)
        ensures
            r.wf(),
            r@ == Seq::<u8>::empty(),
    {
        let mut buf: Vec<u8> = Vec::new();
        let mut i: usize = 0;
        while i < QUEUE_SIZE
            invariant
                i <= QUEUE_SIZE,
                buf@.len() == i,
            decreases QUEUE_SIZE - i,
        {
            buf.push(0);
            i = i + 1;
        }
        let r = KeyQueue { buf, head: 0, tail: 0 };
        assert(r@ =~= Seq::<u8>::empty());
        r
    }

    /// Appends `byte` unless 127 bytes are already waiting.
    pub fn push(&mut self, byte: u8)
        requires
            old(self).wf(),
        ensures
            final(self).wf(),
            old(self)@.len() < QUEUE_SIZE - 1 ==> final(self)@ == old(self)@.push(byte),
            old(self)@.len() >= QUEUE_SIZE - 1 ==> final(self)@ == old(self)@,
            final(self)@.len() < QUEUE_SIZE,
    {
        let next: usize = (self.tail + 1) % QUEUE_SIZE;
        if next != self.head {
            let ghost before = self@;
            self.buf.set(self.tail, byte);
            self.tail = next;
            assert(self@ =~= before.push(byte));
        }
    }

    /// Removes and returns the oldest byte.
    pub fn pop(&mut self) -> (r: Option<u8>)
        requires
            old(self).wf(),
        ensures
            final(self).wf(),
            old(self)@.len() == 0 ==> r is None && final(self)@ == old(self)@,
            old(self)@.len() > 0 ==> r == Some(old(self)@[0]) && final(self)@ == old(self)@.drop_first(),
    {
        if self.head == self.tail {
            None
        } else {
            let ghost before = self@;
            let byte: u8 = self.buf[self.head];
            self.head = (self.head + 1) % QUEUE_SIZE;
            assert(self@ =~= before.drop_first());
            Some(byte)
        }
    }
}

/// US QWERTY characters of set-1 make codes, without Shift.
pub open spec fn ascii_plain_spec(code: u8) -> u8 {
    match code {
        0x02 => 49,
        0x03 => 50,
        0x04 => 51,
        0x05 => 52,
        0x06 => 53,
        0x07 => 54,
        0x08 => 55,
        0x09 => 56,
        0x0A => 57,
        0x0B => 48,
        0x0C => 45,
        0x0D => 61,
        0x10 => 113,
        0x11 => 119,
        0x12 => 101,
        0x13 => 114,
        0x14 => 116,
        0x15 => 121,
        0x16 => 117,
        0x17 => 105,
        0x18 => 111,
        0x19 => 112,
        0x1A => 91,
        0x1B => 93,
        0x1E => 97,
        0x1F => 115,
        0x20 => 100,
        0x21 => 102,
        0x22 => 103,
        0x23 => 104,
        0x24 => 106,
        0x25 => 107,
        0x26 => 108,
        0x27 => 59,
        0x28 => 39,
        0x29 => 96,
        0x2B => 92,
        0x2C => 122,
        0x2D => 120,
        0x2E => 99,
        0x2F => 118,
        0x30 => 98,
        0x31 => 110,
        0x32 => 109,
        0x33 => 44,
        0x34 => 46,
        0x35 => 47,
        0x39 => 32,
        _ => 0,
    }
}

/// The same with Shift held.
pub open spec fn ascii_shift_spec(code: u8) -> u8 {
    match code {
        0x02 => 33,
        0x03 => 64,
        0x04 => 35,
        0x05 => 36,
        0x06 => 37,
        0x07 => 94,
        0x08 => 38,
        0x09 => 42,
        0x0A => 40,
        0x0B => 41,
        0x0C => 95,
        0x0D => 43,
        0x10 => 81,
        0x11 => 87,
        0x12 => 69,
        0x13 => 82,
        0x14 => 84,
        0x15 => 89,
        0x16 => 85,
        0x17 => 73,
        0x18 => 79,
        0x19 => 80,
        0x1A => 123,
        0x1B => 125,
        0x1E => 65,
        0x1F => 83,
        0x20 => 68,
        0x21 => 70,
        0x22 => 71,
        0x23 => 72,
        0x24 => 74,
        0x25 => 75,
        0x26 => 76,
        0x27 => 58,
        0x28 => 34,
        0x29 => 126,
        0x2B => 124,
        0x2C => 90,
        0x2D => 88,
        0x2E => 67,
        0x2F => 86,
        0x30 => 66,
        0x31 => 78,
        0x32 => 77,
        0x33 => 60,
        0x34 => 62,
        0x35 => 63,
        0x39 => 32,
        _ => 0,
    }
}

fn ascii_plain(code: u8) -> (r: u8)
    ensures
        r == ascii_plain_spec(code),
{
    match code {
        0x02 => 49,
        0x03 => 50,
        0x04 => 51,
        0x05 => 52,
        0x06 => 53,
        0x07 => 54,
        0x08 => 55,
        0x09 => 56,
        0x0A => 57,
        0x0B => 48,
        0x0C => 45,
        0x0D => 61,
        0x10 => 113,
        0x11 => 119,
        0x12 => 101,
        0x13 => 114,
        0x14 => 116,
        0x15 => 121,
        0x16 => 117,
        0x17 => 105,
        0x18 => 111,
        0x19 => 112,
        0x1A => 91,
        0x1B => 93,
        0x1E => 97,
        0x1F => 115,
        0x20 => 100,
        0x21 => 102,
        0x22 => 103,
        0x23 => 104,
        0x24 => 106,
        0x25 => 107,
        0x26 => 108,
        0x27 => 59,
        0x28 => 39,
        0x29 => 96,
        0x2B => 92,
        0x2C => 122,
        0x2D => 120,
        0x2E => 99,
        0x2F => 118,
        0x30 => 98,
        0x31 => 110,
        0x32 => 109,
        0x33 => 44,
        0x34 => 46,
        0x35 => 47,
        0x39 => 32,
        _ => 0,
    }
}

fn ascii_shift(code: u8) -> (r: u8)
    ensures
        r == ascii_shift_spec(code),
{
    match code {
        0x02 => 33,
        0x03 => 64,
        0x04 => 35,
        0x05 => 36,
        0x06 => 37,
        0x07 => 94,
        0x08 => 38,
        0x09 => 42,
        0x0A => 40,
        0x0B => 41,
        0x0C => 95,
        0x0D => 43,
        0x10 => 81,
        0x11 => 87,
        0x12 => 69,
        0x13 => 82,
        0x14 => 84,
        0x15 => 89,
        0x16 => 85,
        0x17 => 73,
        0x18 => 79,
        0x19 => 80,
        0x1A => 123,
        0x1B => 125,
        0x1E => 65,
        0x1F => 83,
        0x20 => 68,
        0x21 => 70,
        0x22 => 71,
        0x23 => 72,
        0x24 => 74,
        0x25 => 75,
        0x26 => 76,
        0x27 => 58,
        0x28 => 34,
        0x29 => 126,
        0x2B => 124,
        0x2C => 90,
        0x2D => 88,
        0x2E => 67,
        0x2F => 86,
        0x30 => 66,
        0x31 => 78,
        0x32 => 77,
        0x33 => 60,
        0x34 => 62,
        0x35 => 63,
        0x39 => 32,
        _ => 0,
    }
}

/// Keyboard state: the queue, Shift held, an 0xE0 prefix pending, and an
/// Escape press not yet read.
pub struct KeyboardState {
    pub queue: KeyQueue,
    pub shift: bool,
    pub extended: bool,
    pub escape: bool,
}

/// The byte a scancode queues, if any, given the prefix and Shift state.
pub open spec fn queued_byte(scancode: u8, extended: bool, shift: bool) -> Option<u8> {
    if extended {
        if scancode == ARROW_UP_SCANCODE {
            Some(ARROW_UP)
        } else if scancode == ARROW_DOWN_SCANCODE {
            Some(ARROW_DOWN)
        } else {
            None
        }
    } else if scancode == ESCAPE_SCANCODE || scancode == LEFT_SHIFT_MAKE || scancode
        == RIGHT_SHIFT_MAKE || scancode == LEFT_SHIFT_BREAK || scancode == RIGHT_SHIFT_BREAK {
        None
    } else if scancode == BACKSPACE {
        Some(0x08)
    } else if scancode == ENTER {
        Some(0x0A)
    } else if scancode < 0x80 {
        let a = if shift { ascii_shift_spec(scancode) } else { ascii_plain_spec(scancode) };
        if a != 0 { Some(a) } else { None }
    } else {
        None
    }
}

impl KeyboardState {
    pub open spec fn wf(&self) -> bool {
        self.queue.wf()
    }

    pub fn new() -> (r: KeyboardState)
        ensures
            r.wf(),
            r.queue@ == Seq::<u8>::empty(),
            !r.shift && !r.extended && !r.escape,
    {
        KeyboardState { queue: KeyQueue::new(), shift: false, extended: false, escape: false }
    }
}

/// Handles one byte from the keyboard controller.
pub fn on_scancode(st: &mut KeyboardState, scancode: u8)
    requires
        old(st).wf(),
    ensures
        final(st).wf(),
        scancode == EXTENDED_PREFIX_BYTE ==> final(st).extended && final(st).queue@ == old(st).queue@
            && final(st).shift == old(st).shift && final(st).escape == old(st).escape,
        scancode != EXTENDED_PREFIX_BYTE ==> {
            &&& !final(st).extended
            &&& final(st).shift == if !old(st).extended && (scancode == LEFT_SHIFT_MAKE || scancode
                == RIGHT_SHIFT_MAKE) {
                true
            } else if !old(st).extended && (scancode == LEFT_SHIFT_BREAK || scancode
                == RIGHT_SHIFT_BREAK) {
                false
            } else {
                old(st).shift
            }
            &&& final(st).escape == (old(st).escape || (!old(st).extended && scancode
                == ESCAPE_SCANCODE))
            &&& match queued_byte(scancode, old(st).extended, old(st).shift) {
                Some(b) => if old(st).queue@.len() < QUEUE_SIZE - 1 {
                    final(st).queue@ == old(st).queue@.push(b)
                } else {
                    final(st).queue@ == old(st).queue@
                },
                None => final(st).queue@ == old(st).queue@,
            }
        },
{
    if scancode == EXTENDED_PREFIX_BYTE {
        st.extended = true;
        return;
    }
    let extended: bool = st.extended;
    st.extended = false;
    if extended {
        if scancode == ARROW_UP_SCANCODE {
            st.queue.push(ARROW_UP);
        } else if scancode == ARROW_DOWN_SCANCODE {
            st.queue.push(ARROW_DOWN);
        }
        return;
    }
    if scancode == ESCAPE_SCANCODE {
        st.escape = true;
    } else if scancode == LEFT_SHIFT_MAKE || scancode == RIGHT_SHIFT_MAKE {
        st.shift = true;
    } else if scancode == LEFT_SHIFT_BREAK || scancode == RIGHT_SHIFT_BREAK {
        st.shift = false;
    } else if scancode == BACKSPACE {
        st.queue.push(0x08);
    } else if scancode == ENTER {
        st.queue.push(0x0A);
    } else if scancode < 0x80 {
        let ascii: u8 = if st.shift { ascii_shift(scancode) } else { ascii_plain(scancode) };
        if ascii != 0 {
            st.queue.push(ascii);
        }
    }
}

/// Takes the oldest queued character, if any.
pub fn try_read_char(st: &mut KeyboardState) -> (r: Option<u8>)
    requires
        old(st).wf(),
    ensures
        final(st).wf(),
        final(st).shift == old(st).shift && final(st).extended == old(st).extended
            && final(st).escape == old(st).escape,
        old(st).queue@.len() == 0 ==> r is None && final(st).queue@ == old(st).queue@,
        old(st).queue@.len() > 0 ==> r == Some(old(st).queue@[0]) && final(st).queue@ == old(st).queue@.drop_first(),
{
    st.queue.pop()
}

/// Whether Escape was pressed since the last call; clears the flag.
pub fn try_read_escape(st: &mut KeyboardState) -> (r: bool)
    ensures
        r == old(st).escape,
        !final(st).escape,
        final(st).queue == old(st).queue,
        final(st).shift == old(st).shift && final(st).extended == old(st).extended,
{
    let r: bool = st.escape;
    st.escape = false;
    r
}

/// The letter rows of the US layout, left to right: the key at make code
/// `row_start + i` gives the `i`-th letter of its row with Shift, and the
/// same letter in lower case without.
pub proof fn lemma_letter_rows()
    ensures
        forall|i: int| 0 <= i < 10 ==> #[trigger] ascii_shift_spec((0x10 + i) as u8) == (seq!['Q', 'W', 'E', 'R', 'T', 'Y', 'U', 'I', 'O', 'P'][i] as u32) as u8,
        forall|i: int| 0 <= i < 9 ==> #[trigger] ascii_shift_spec((0x1E + i) as u8) == (seq!['A', 'S', 'D', 'F', 'G', 'H', 'J', 'K', 'L'][i] as u32) as u8,
        forall|i: int| 0 <= i < 7 ==> #[trigger] ascii_shift_spec((0x2C + i) as u8) == (seq!['Z', 'X', 'C', 'V', 'B', 'N', 'M'][i] as u32) as u8,
        forall|i: int| 0 <= i < 10 ==> #[trigger] ascii_plain_spec((0x10 + i) as u8) == (seq!['q', 'w', 'e', 'r', 't', 'y', 'u', 'i', 'o', 'p'][i] as u32) as u8,
        forall|i: int| 0 <= i < 9 ==> #[trigger] ascii_plain_spec((0x1E + i) as u8) == (seq!['a', 's', 'd', 'f', 'g', 'h', 'j', 'k', 'l'][i] as u32) as u8,
        forall|i: int| 0 <= i < 7 ==> #[trigger] ascii_plain_spec((0x2C + i) as u8) == (seq!['z', 'x', 'c', 'v', 'b', 'n', 'm'][i] as u32) as u8,
{
}

/// Shift only changes the case of a letter: a key that gives an upper
/// case letter with Shift gives that letter in lower case without, and a
/// key that gives a lower case letter without Shift gives it in upper
/// case with. No two keys give the same letter.
pub proof fn lemma_letter_case()
    ensures
        forall|c: u8| 65 <= #[trigger] ascii_shift_spec(c) <= 90 ==> ascii_plain_spec(c) == ascii_shift_spec(c) + 32,
        forall|c: u8| 97 <= #[trigger] ascii_plain_spec(c) <= 122 ==> ascii_shift_spec(c) + 32 == ascii_plain_spec(c),
        forall|c: u8| c < 0x80 && 65 <= #[trigger] ascii_shift_spec(c) <= 90 ==> queued_byte(c, false, false) == Some(
            (ascii_shift_spec(c) + 32) as u8,
        ) && queued_byte(c, false, true) == Some(ascii_shift_spec(c)),
        forall|a: u8, b: u8| a != b && 65 <= #[trigger] ascii_shift_spec(a) <= 90 ==> #[trigger] ascii_shift_spec(b) != ascii_shift_spec(a),
{
}

/// The digit row: keys 0x02..=0x0B give '1'..'9' and then '0' without
/// Shift, and the US symbols above the digits with it.
pub proof fn lemma_digit_row()
    ensures
        forall|c: u8| 0x02 <= c <= 0x0B ==> #[trigger] ascii_plain_spec(c) == 48 + (c - 1) % 10,
        forall|i: int| 0 <= i < 10 ==> #[trigger] ascii_shift_spec((0x02 + i) as u8) == (seq!['!', '@', '#', '$', '%', '^', '&', '*', '(', ')'][i] as u32) as u8,
{
}

/// Each US punctuation key gives its pair of characters: the unshifted one
/// anywhere on the keyboard comes with its shifted partner.
pub proof fn lemma_punctuation_pairs()
    ensures
        forall|c: u8| #![trigger ascii_plain_spec(c)] {
            &&& ascii_plain_spec(c) == ('-' as u32) as u8 ==> ascii_shift_spec(c) == ('_' as u32) as u8
            &&& ascii_plain_spec(c) == ('=' as u32) as u8 ==> ascii_shift_spec(c) == ('+' as u32) as u8
            &&& ascii_plain_spec(c) == ('[' as u32) as u8 ==> ascii_shift_spec(c) == ('{' as u32) as u8
            &&& ascii_plain_spec(c) == (']' as u32) as u8 ==> ascii_shift_spec(c) == ('}' as u32) as u8
            &&& ascii_plain_spec(c) == (';' as u32) as u8 ==> ascii_shift_spec(c) == (':' as u32) as u8
            &&& ascii_plain_spec(c) == ('\'' as u32) as u8 ==> ascii_shift_spec(c) == ('"' as u32) as u8
            &&& ascii_plain_spec(c) == ('`' as u32) as u8 ==> ascii_shift_spec(c) == ('~' as u32) as u8
            &&& ascii_plain_spec(c) == ('\\' as u32) as u8 ==> ascii_shift_spec(c) == ('|' as u32) as u8
            &&& ascii_plain_spec(c) == (',' as u32) as u8 ==> ascii_shift_spec(c) == ('<' as u32) as u8
            &&& ascii_plain_spec(c) == ('.' as u32) as u8 ==> ascii_shift_spec(c) == ('>' as u32) as u8
            &&& ascii_plain_spec(c) == ('/' as u32) as u8 ==> ascii_shift_spec(c) == ('?' as u32) as u8
            &&& ascii_plain_spec(c) == (' ' as u32) as u8 ==> ascii_shift_spec(c) == (' ' as u32) as u8
        },
        forall|c: u8| #![trigger ascii_plain_spec(c)] ascii_plain_spec(c) == 0 <==> ascii_shift_spec(c) == 0,
{
}

} // verus!

