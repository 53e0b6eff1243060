//! PS/2 mouse: three-byte packets to cursor position and buttons, and the
//! scaling of absolute pointer coordinates to the screen.
use vstd::prelude::*;

verus! {

/// Button bits of an absolute-pointer report.
pub const ABS_LEFT_BUTTON: u32 = 0x20;
pub const ABS_RIGHT_BUTTON: u32 = 0x10;
pub const ABS_MIDDLE_BUTTON: u32 = 0x08;

/// Cursor, buttons, the packet being assembled and the screen size.
pub struct MouseState {
    pub x: i32,
    pub y: i32,
    pub left_button: bool,
    pub right_button: bool,
    pub middle_button: bool,
    pub packet: [u8; 3],
    pub packet_index: usize,
    pub screen_width: i32,
    pub screen_height: i32,
    pub absolute: bool,
}

#[derive(Clone, Copy, Debug, PartialEq, Eq, Structural)]
pub struct MouseSnapshot {
    pub x: i32,
    pub y: i32,
    pub left_button: bool,
    pub right_button: bool,
    pub middle_button: bool,
}

pub open spec fn clamp(v: int, lo: int, hi: int) -> int {
    if v < lo {
        lo
    } else if v > hi {
        hi
    } else {
        v
    }
}

/// Signed movement in a packet byte, its sign bit taken from the flags.
pub open spec fn delta(b: u8, negative: bool) -> int {
    if negative {
        b - 256
    } else {
        b as int
    }
}

/// Half of `a`, rounded toward zero (integer division of `i32`).
pub open spec fn half(a: int) -> int {
    if a >= 0 {
        a / 2
    } else {
        -((-a) / 2)
    }
}

impl MouseState {
    /// The state at power-on: a 640x480 screen, cursor at the origin.
    pub fn new() -> (r: MouseState)
        ensures
            r.x == 0 && r.y == 0 && r.packet_index == 0 && r.screen_width == 640 && r.screen_height
                == 480 && !r.absolute && !r.left_button && !r.right_button && !r.middle_button,
    {
        MouseState {
            x: 0,
            y: 0,
            left_button: false,
            right_button: false,
            middle_button: false,
            packet: [0u8; 3],
            packet_index: 0,
            screen_width: 640,
            screen_height: 480,
            absolute: false,
        }
    }

    pub open spec fn wf(&self) -> bool {
        self.packet_index < 3
    }
}

/// Sets the screen size and centres the cursor; `absolute` records whether
/// the absolute pointer was found and enabled.
pub fn init(st: &mut MouseState, screen_width: u32, screen_height: u32, absolute: bool)
    ensures
        final(st).screen_width == screen_width as i32,
        final(st).screen_height == screen_height as i32,
        final(st).x == half(screen_width as i32 as int),
        final(st).y == half(screen_height as i32 as int),
        final(st).absolute == absolute,
        final(st).packet_index == old(st).packet_index,
        final(st).left_button == old(st).left_button,
        final(st).right_button == old(st).right_button,
        final(st).middle_button == old(st).middle_button,
{
    st.screen_width = screen_width as i32;
    st.screen_height = screen_height as i32;
    st.x = st.screen_width / 2;
    st.y = st.screen_height / 2;
    st.absolute = absolute;
}

fn clamp_i32(v: i32, lo: i32, hi: i32) -> (r: i32)
    requires
        lo <= hi,
    ensures
        r == clamp(v as int, lo as int, hi as int),
{
    if v < lo {
        lo
    } else if v > hi {
        hi
    } else {
        v
    }
}

/// Feeds one byte of a relative PS/2 packet. A first byte without bit 3 is
/// dropped; the third byte completes the packet, which moves the cursor
/// (Y inverted) inside the screen and sets the buttons.
pub fn on_data_byte(st: &mut MouseState, byte: u8)
    requires
        old(st).wf(),
        !old(st).absolute,
        old(st).screen_width >= 1,
        old(st).screen_height >= 1,
        -0x4000_0000 <= old(st).x <= 0x4000_0000,
        -0x4000_0000 <= old(st).y <= 0x4000_0000,
    ensures
        final(st).wf(),
        final(st).screen_width == old(st).screen_width,
        final(st).screen_height == old(st).screen_height,
        final(st).absolute == old(st).absolute,
        old(st).packet_index == 0 && byte & 8 == 0 ==> *final(st) == *old(st),
        (old(st).packet_index > 0 || byte & 8 != 0) && old(st).packet_index < 2 ==> final(st).packet_index == old(st).packet_index + 1 && final(st).packet[old(st).packet_index as int]
            == byte && final(st).x == old(st).x && final(st).y == old(st).y && final(st).left_button == old(st).left_button
            && final(st).right_button == old(st).right_button && final(st).middle_button == old(st).middle_button
            && forall|k: int| 0 <= k < 3 && k != old(st).packet_index ==> #[trigger] final(st).packet[k] == old(st).packet[k],
        old(st).packet_index == 2 ==> ({
            let flags = old(st).packet[0];
            let dx = delta(old(st).packet[1], flags & 0x10 != 0);
            let dy = delta(byte, flags & 0x20 != 0);
            &&& final(st).packet_index == 0
            &&& final(st).x == clamp(old(st).x + dx, 0, old(st).screen_width - 1)
            &&& final(st).y == clamp(old(st).y - dy, 0, old(st).screen_height - 1)
            &&& final(st).left_button == (flags & 1 != 0)
            &&& final(st).right_button == (flags & 2 != 0)
            &&& final(st).middle_button == (flags & 4 != 0)
        }),
{
    if st.packet_index == 0 && byte & 0x08 == 0 {
        return;
    }
    let idx: usize = st.packet_index;
    st.packet[idx] = byte;
    st.packet_index = st.packet_index + 1;
    if st.packet_index == 3 {
        st.packet_index = 0;
        let flags: u8 = st.packet[0];
        let mut dx: i32 = st.packet[1] as i32;
        let mut dy: i32 = st.packet[2] as i32;
        if flags & 0x10 != 0 {
            dx = dx - 256;
        }
        if flags & 0x20 != 0 {
            dy = dy - 256;
        }
        st.left_button = flags & 0x01 != 0;
        st.right_button = flags & 0x02 != 0;
        st.middle_button = flags & 0x04 != 0;
        st.x = clamp_i32(st.x + dx, 0, st.screen_width - 1);
        st.y = clamp_i32(st.y - dy, 0, st.screen_height - 1);
    }
}

/// Applies an absolute-pointer report: coordinates 0..=0xFFFF scaled to
/// the screen, and the buttons.
pub fn on_absolute_packet(st: &mut MouseState, px: u16, py: u16, buttons: u32)
    ensures
        final(st).x == (px as int * (if old(st).screen_width >= 1 { old(st).screen_width - 1 } else { 0 })) / 0xFFFF,
        final(st).y == (py as int * (if old(st).screen_height >= 1 { old(st).screen_height - 1 } else { 0 })) / 0xFFFF,
        final(st).left_button == (buttons & ABS_LEFT_BUTTON != 0),
        final(st).right_button == (buttons & ABS_RIGHT_BUTTON != 0),
        final(st).middle_button == (buttons & ABS_MIDDLE_BUTTON != 0),
        final(st).screen_width == old(st).screen_width,
        final(st).screen_height == old(st).screen_height,
        final(st).packet_index == old(st).packet_index,
        final(st).absolute == old(st).absolute,
{
    let w: i32 = if st.screen_width >= 1 { st.screen_width } else { 1 };
    let h: i32 = if st.screen_height >= 1 { st.screen_height } else { 1 };
    let wm: u64 = (w - 1) as u64;
    let hm: u64 = (h - 1) as u64;
    assert((px as u64) * wm <= 0xFFFF * 0x7FFF_FFFF) by (nonlinear_arith)
        requires
            px <= 0xFFFF,
            wm <= 0x7FFF_FFFF,
    ;
    assert((py as u64) * hm <= 0xFFFF * 0x7FFF_FFFF) by (nonlinear_arith)
        requires
            py <= 0xFFFF,
            hm <= 0x7FFF_FFFF,
    ;
    let sx: u64 = (px as u64 * wm) / 0xFFFF;
    let sy: u64 = (py as u64 * hm) / 0xFFFF;
    assert(sx <= wm) by (nonlinear_arith)
        requires
            sx == (px as u64 * wm) / 0xFFFF,
            px <= 0xFFFF,
    ;
    assert(sy <= hm) by (nonlinear_arith)
        requires
            sy == (py as u64 * hm) / 0xFFFF,
            py <= 0xFFFF,
    ;
    st.x = sx as i32;
    st.y = sy as i32;
    st.left_button = buttons & ABS_LEFT_BUTTON != 0;
    st.right_button = buttons & ABS_RIGHT_BUTTON != 0;
    st.middle_button = buttons & ABS_MIDDLE_BUTTON != 0;
}

/// Whether the absolute pointer is in use.
pub fn is_absolute(st: &MouseState) -> (r: bool)
    ensures
        r == st.absolute,
{
    st.absolute
}

/// Sets the screen size used for clamping and scaling.
pub fn set_screen_size(st: &mut MouseState, width: u32, height: u32)
    ensures
        final(st).screen_width == width as i32,
        final(st).screen_height == height as i32,
        final(st).x == old(st).x && final(st).y == old(st).y,
        final(st).packet_index == old(st).packet_index,
        final(st).absolute == old(st).absolute,
{
    st.screen_width = width as i32;
    st.screen_height = height as i32;
}

/// Cursor position and buttons.
pub fn snapshot(st: &MouseState) -> (r: MouseSnapshot)
    ensures
        r == (MouseSnapshot {
            x: st.x,
            y: st.y,
            left_button: st.left_button,
            right_button: st.right_button,
            middle_button: st.middle_button,
        }),
{
    MouseSnapshot {
        x: st.x,
        y: st.y,
        left_button: st.left_button,
        right_button: st.right_button,
        middle_button: st.middle_button,
    }
}

} // verus!
