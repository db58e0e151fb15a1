//! Key events as the input-method framework reports them: an X11 keysym
//! and the modifier keys held.
use vstd::prelude::*;

verus! {

/// An X11 keysym.
#[derive(Debug, Clone, Copy, PartialEq, Eq, Structural)]
pub struct Keysym(pub u32);

impl Keysym {
    // Raw keysym values of the keys the engine handles.
    pub const SPACE: u32 = 0x0020;
    pub const RETURN: u32 = 0xff0d;
    pub const ESCAPE: u32 = 0xff1b;
    pub const BACKSPACE: u32 = 0xff08;
    pub const TAB: u32 = 0xff09;
    pub const DELETE: u32 = 0xffff;
    pub const HOME: u32 = 0xff50;
    pub const LEFT: u32 = 0xff51;
    pub const UP: u32 = 0xff52;
    pub const RIGHT: u32 = 0xff53;
    pub const DOWN: u32 = 0xff54;
    pub const PAGE_UP: u32 = 0xff55;
    pub const PAGE_DOWN: u32 = 0xff56;
    pub const END: u32 = 0xff57;
    pub const F6: u32 = 0xffc3;
    pub const F7: u32 = 0xffc4;
    pub const F8: u32 = 0xffc5;
    pub const F9: u32 = 0xffc6;
    pub const F10: u32 = 0xffc7;
    pub const KEY_A: u32 = 0x0061;
    pub const KEY_A_UPPER: u32 = 0x0041;
    pub const KEY_B: u32 = 0x0062;
    pub const KEY_B_UPPER: u32 = 0x0042;
    pub const KEY_E: u32 = 0x0065;
    pub const KEY_E_UPPER: u32 = 0x0045;
    pub const KEY_F: u32 = 0x0066;
    pub const KEY_F_UPPER: u32 = 0x0046;
    pub const KEY_K: u32 = 0x006b;
    pub const KEY_K_UPPER: u32 = 0x004b;
    pub const KEY_N: u32 = 0x006e;
    pub const KEY_N_UPPER: u32 = 0x004e;
    pub const KEY_P: u32 = 0x0070;
    pub const KEY_P_UPPER: u32 = 0x0050;

    /// The printable ASCII character of this keysym, if it is one.
    pub open spec fn char_spec(self) -> Option<char> {
        if 0x20 <= self.0 && self.0 <= 0x7e { Some((self.0 as u8) as char) } else { None }
    }

    /// The printable ASCII character of this keysym, if it is one.
    pub fn to_char(self) -> (c: Option<char>)
        ensures
            c == self.char_spec(),
    {
        if 0x20 <= self.0 && self.0 <= 0x7e {
            let b: u8 = self.0 as u8;
            Some(b as char)
        } else {
            None
        }
    }

    /// The digit 1 to 9 this keysym types, if any.
    pub fn digit_value(self) -> (d: Option<usize>)
        ensures
            d == (if 0x31 <= self.0 && self.0 <= 0x39 { Some((self.0 - 0x30) as usize) } else { None::<usize> }),
    {
        if 0x31 <= self.0 && self.0 <= 0x39 {
            Some((self.0 - 0x30) as usize)
        } else {
            None
        }
    }
}

/// Modifier keys held during a key event.
#[derive(Debug, Clone, Copy, PartialEq, Eq, Structural)]
pub struct KeyModifiers {
    pub shift_key: bool,
    pub control_key: bool,
    pub alt_key: bool,
    pub super_key: bool,
}

impl KeyModifiers {
    /// No modifier held.
    pub fn new() -> (m: Self)
        ensures
            m == (KeyModifiers { shift_key: false, control_key: false, alt_key: false, super_key: false }),
    {
        KeyModifiers { shift_key: false, control_key: false, alt_key: false, super_key: false }
    }

    /// The same modifiers with Shift set to `on`.
    pub fn with_shift(self, on: bool) -> (m: Self)
        ensures
            m == (KeyModifiers { shift_key: on, ..self }),
    {
        KeyModifiers { shift_key: on, ..self }
    }

    /// The same modifiers with Control set to `on`.
    pub fn with_control(self, on: bool) -> (m: Self)
        ensures
            m == (KeyModifiers { control_key: on, ..self }),
    {
        KeyModifiers { control_key: on, ..self }
    }

    /// The same modifiers with Alt set to `on`.
    pub fn with_alt(self, on: bool) -> (m: Self)
        ensures
            m == (KeyModifiers { alt_key: on, ..self }),
    {
        KeyModifiers { alt_key: on, ..self }
    }
}

/// One key event.
#[derive(Debug, Clone, Copy, PartialEq, Eq, Structural)]
pub struct KeyEvent {
    pub keysym: Keysym,
    pub modifiers: KeyModifiers,
    /// True for a key press, false for a release.
    pub is_press: bool,
}

impl KeyEvent {
    /// An event for the raw keysym value `keysym`.
    pub fn new(keysym: u32, modifiers: KeyModifiers, is_press: bool) -> (k: Self)
        ensures
            k == (KeyEvent { keysym: Keysym(keysym), modifiers, is_press }),
    {
        KeyEvent { keysym: Keysym(keysym), modifiers, is_press }
    }

    /// The printable ASCII character of the key, if it is one.
    pub fn to_char(&self) -> (c: Option<char>)
        ensures
            c == self.keysym.char_spec(),
    {
        self.keysym.to_char()
    }
}

} // verus!
