//! PS/2 keyboard decoding: scancodes (set 1) to key events, with the
//! Shift state kept between calls.  Reading the controller's ports is the
//! caller's part.

use vstd::prelude::*;

verus! {

/// A decoded keyboard event for the shell.
#[derive(PartialEq, Eq, Structural)]
pub enum KeyEvent {
    Char(u8),
    Enter,
    Backspace,
    ArrowUp,
    ArrowDown,
    Tab,
    NoKey,
}

/// Whether each Shift key is held.
#[derive(Clone, Copy, PartialEq, Eq, Structural)]
pub struct KeyboardState {
    pub left_shift: bool,
    pub right_shift: bool,
}

/// The unshifted and shifted characters of the digit and punctuation keys.
pub open spec fn pair_key(code: u8) -> Option<(u8, u8)> {
    match code {
        0x02 => Some((49u8, 33u8)),
        0x03 => Some((50u8, 64u8)),
        0x04 => Some((51u8, 35u8)),
        0x05 => Some((52u8, 36u8)),
        0x06 => Some((53u8, 37u8)),
        0x07 => Some((54u8, 94u8)),
        0x08 => Some((55u8, 38u8)),
        0x09 => Some((56u8, 42u8)),
        0x0A => Some((57u8, 40u8)),
        0x0B => Some((48u8, 41u8)),
        0x0C => Some((45u8, 95u8)),
        0x0D => Some((61u8, 43u8)),
        0x29 => Some((96u8, 126u8)),
        0x1A => Some((91u8, 123u8)),
        0x1B => Some((93u8, 125u8)),
        0x2B => Some((92u8, 124u8)),
        0x27 => Some((59u8, 58u8)),
        0x28 => Some((39u8, 34u8)),
        0x33 => Some((44u8, 60u8)),
        0x34 => Some((46u8, 62u8)),
        0x35 => Some((47u8, 63u8)),
        _ => Option::None,
    }
}

/// The (lower-case) letter of each letter key.
pub open spec fn letter_key(code: u8) -> Option<u8> {
    match code {
        0x10 => Some(113u8),
        0x11 => Some(119u8),
        0x12 => Some(101u8),
        0x13 => Some(114u8),
        0x14 => Some(116u8),
        0x15 => Some(121u8),
        0x16 => Some(117u8),
        0x17 => Some(105u8),
        0x18 => Some(111u8),
        0x19 => Some(112u8),
        0x1E => Some(97u8),
        0x1F => Some(115u8),
        0x20 => Some(100u8),
        0x21 => Some(102u8),
        0x22 => Some(103u8),
        0x23 => Some(104u8),
        0x24 => Some(106u8),
        0x25 => Some(107u8),
        0x26 => Some(108u8),
        0x2C => Some(122u8),
        0x2D => Some(120u8),
        0x2E => Some(99u8),
        0x2F => Some(118u8),
        0x30 => Some(98u8),
        0x31 => Some(110u8),
        0x32 => Some(109u8),
        _ => Option::None,
    }
}

pub open spec fn shift_held(s: KeyboardState) -> bool {
    s.left_shift || s.right_shift
}

/// The state after `code` and the event it produces.
pub open spec fn translate_spec(s: KeyboardState, code: u8) -> (KeyboardState, KeyEvent) {
    if code >= 0x80 {
        if code == 0xAA {
            (KeyboardState { left_shift: false, ..s }, KeyEvent::NoKey)
        } else if code == 0xB6 {
            (KeyboardState { right_shift: false, ..s }, KeyEvent::NoKey)
        } else {
            (s, KeyEvent::NoKey)
        }
    } else if code == 0x2A {
        (KeyboardState { left_shift: true, ..s }, KeyEvent::NoKey)
    } else if code == 0x36 {
        (KeyboardState { right_shift: true, ..s }, KeyEvent::NoKey)
    } else if code == 0x1C {
        (s, KeyEvent::Enter)
    } else if code == 0x0E {
        (s, KeyEvent::Backspace)
    } else if code == 0x0F {
        (s, KeyEvent::Tab)
    } else if code == 0x39 {
        (s, KeyEvent::Char(32))
    } else if let Some((normal, shifted)) = pair_key(code) {
        (s, KeyEvent::Char(if shift_held(s) { shifted } else { normal }))
    } else if let Some(lower) = letter_key(code) {
        (s, KeyEvent::Char(if shift_held(s) { (lower - 32) as u8 } else { lower }))
    } else {
        (s, KeyEvent::NoKey)
    }
}

/// An extended (`0xE0`-prefixed) scancode: the arrow keys.
pub open spec fn extended_spec(code: u8) -> KeyEvent {
    if code >= 0x80 {
        KeyEvent::NoKey
    } else if code == 0x48 {
        KeyEvent::ArrowUp
    } else if code == 0x50 {
        KeyEvent::ArrowDown
    } else {
        KeyEvent::NoKey
    }
}

/// Decodes the byte that followed an `0xE0` prefix.
pub fn translate_extended(scancode: u8) -> (r: KeyEvent)
    ensures
        r == extended_spec(scancode),
{
    if scancode & 0x80 != 0 {
        assert(scancode >= 0x80) by (bit_vector)
            requires
                scancode & 0x80 != 0,
        ;
        return KeyEvent::NoKey;
    }
    assert(scancode < 0x80) by (bit_vector)
        requires
            scancode & 0x80 == 0,
    ;
    match scancode {
        0x48 => KeyEvent::ArrowUp,
        0x50 => KeyEvent::ArrowDown,
        _ => KeyEvent::NoKey,
    }
}

fn emit_pair(normal: u8, shifted: u8, shift: bool) -> (r: KeyEvent)
    ensures
        r == KeyEvent::Char(if shift { shifted } else { normal }),
{
    if shift {
        KeyEvent::Char(shifted)
    } else {
        KeyEvent::Char(normal)
    }
}

fn emit_letter(lower: u8, shift: bool) -> (r: KeyEvent)
    requires
        97u8 <= lower <= 122u8,
    ensures
        r == KeyEvent::Char(if shift { (lower - 32) as u8 } else { lower }),
{
    if shift {
        KeyEvent::Char(lower - 97u8 + 65u8)
    } else {
        KeyEvent::Char(lower)
    }
}

impl KeyboardState {
    /// No Shift key held.
    pub fn new() -> (r: Self)
        ensures
            !r.left_shift && !r.right_shift,
    {
        KeyboardState { left_shift: false, right_shift: false }
    }

    fn shift_active(&self) -> (r: bool)
        ensures
            r == shift_held(*self),
    {
        self.left_shift || self.right_shift
    }

    /// Decodes one scancode, tracking the Shift keys.
    pub fn translate_scancode(&mut self, scancode: u8) -> (r: KeyEvent)
        ensures
            (*final(self), r) == translate_spec(*old(self), scancode),
    {
        if scancode & 0x80 != 0 {
            assert(scancode >= 0x80) by (bit_vector)
                requires
                    scancode & 0x80 != 0,
            ;
            match scancode {
                0xAA => self.left_shift = false,
                0xB6 => self.right_shift = false,
                _ => {},
            }
            return KeyEvent::NoKey;
        }
        assert(scancode < 0x80) by (bit_vector)
            requires
                scancode & 0x80 == 0,
        ;
        let shift = self.shift_active();
        match scancode {
            0x2A => {
                self.left_shift = true;
                KeyEvent::NoKey
            },
            0x36 => {
                self.right_shift = true;
                KeyEvent::NoKey
            },
            0x1C => KeyEvent::Enter,
            0x0E => KeyEvent::Backspace,
            0x0F => KeyEvent::Tab,
            0x39 => KeyEvent::Char(32u8),
            0x02 => emit_pair(49u8, 33u8, shift),
            0x03 => emit_pair(50u8, 64u8, shift),
            0x04 => emit_pair(51u8, 35u8, shift),
            0x05 => emit_pair(52u8, 36u8, shift),
            0x06 => emit_pair(53u8, 37u8, shift),
            0x07 => emit_pair(54u8, 94u8, shift),
            0x08 => emit_pair(55u8, 38u8, shift),
            0x09 => emit_pair(56u8, 42u8, shift),
            0x0A => emit_pair(57u8, 40u8, shift),
            0x0B => emit_pair(48u8, 41u8, shift),
            0x0C => emit_pair(45u8, 95u8, shift),
            0x0D => emit_pair(61u8, 43u8, shift),
            0x29 => emit_pair(96u8, 126u8, shift),
            0x1A => emit_pair(91u8, 123u8, shift),
            0x1B => emit_pair(93u8, 125u8, shift),
            0x2B => emit_pair(92u8, 124u8, shift),
            0x27 => emit_pair(59u8, 58u8, shift),
            0x28 => emit_pair(39u8, 34u8, shift),
            0x33 => emit_pair(44u8, 60u8, shift),
            0x34 => emit_pair(46u8, 62u8, shift),
            0x35 => emit_pair(47u8, 63u8, shift),
            0x10 => emit_letter(113u8, shift),
            0x11 => emit_letter(119u8, shift),
            0x12 => emit_letter(101u8, shift),
            0x13 => emit_letter(114u8, shift),
            0x14 => emit_letter(116u8, shift),
            0x15 => emit_letter(121u8, shift),
            0x16 => emit_letter(117u8, shift),
            0x17 => emit_letter(105u8, shift),
            0x18 => emit_letter(111u8, shift),
            0x19 => emit_letter(112u8, shift),
            0x1E => emit_letter(97u8, shift),
            0x1F => emit_letter(115u8, shift),
            0x20 => emit_letter(100u8, shift),
            0x21 => emit_letter(102u8, shift),
            0x22 => emit_letter(103u8, shift),
            0x23 => emit_letter(104u8, shift),
            0x24 => emit_letter(106u8, shift),
            0x25 => emit_letter(107u8, shift),
            0x26 => emit_letter(108u8, shift),
            0x2C => emit_letter(122u8, shift),
            0x2D => emit_letter(120u8, shift),
            0x2E => emit_letter(99u8, shift),
            0x2F => emit_letter(118u8, shift),
            0x30 => emit_letter(98u8, shift),
            0x31 => emit_letter(110u8, shift),
            0x32 => emit_letter(109u8, shift),
            _ => KeyEvent::NoKey,
        }
    }
}

/// Releasing a key never produces a character.
pub proof fn lemma_release_is_silent(s: KeyboardState, code: u8)
    requires
        code >= 0x80,
    ensures
        translate_spec(s, code).1 == KeyEvent::NoKey,
{
}

/// Holding Shift turns a letter key into its capital: after the left
/// Shift press, `a` reads as `A`; after its release, as `a` again.
pub proof fn lemma_shift_letter(s: KeyboardState)
    requires
        !s.right_shift,
    ensures
        ({
            let (held, _) = translate_spec(s, 0x2A);
            let (_, upper) = translate_spec(held, 0x1E);
            let (released, _) = translate_spec(held, 0xAA);
            let (_, lower) = translate_spec(released, 0x1E);
            upper == KeyEvent::Char(65) && lower == KeyEvent::Char(97)
        }),
{
}

/// What a printable key types: `normal`, or `shifted` while a Shift key
/// is held.
pub open spec fn typed(s: KeyboardState, normal: char, shifted: char) -> KeyEvent {
    KeyEvent::Char(if s.left_shift || s.right_shift { shifted as u8 } else { normal as u8 })
}

/// The US layout of the digit and punctuation keys: each key types its
/// printed character, and with Shift its upper symbol (`2` and `@`,
/// `;` and `:`, ...).  The state is left as it was.
pub proof fn lemma_us_symbol_keys(s: KeyboardState)
    ensures
        translate_spec(s, 0x02) == (s, typed(s, '1', '!')),
        translate_spec(s, 0x03) == (s, typed(s, '2', '@')),
        translate_spec(s, 0x04) == (s, typed(s, '3', '#')),
        translate_spec(s, 0x05) == (s, typed(s, '4', '$')),
        translate_spec(s, 0x06) == (s, typed(s, '5', '%')),
        translate_spec(s, 0x07) == (s, typed(s, '6', '^')),
        translate_spec(s, 0x08) == (s, typed(s, '7', '&')),
        translate_spec(s, 0x09) == (s, typed(s, '8', '*')),
        translate_spec(s, 0x0A) == (s, typed(s, '9', '(')),
        translate_spec(s, 0x0B) == (s, typed(s, '0', ')')),
        translate_spec(s, 0x0C) == (s, typed(s, '-', '_')),
        translate_spec(s, 0x0D) == (s, typed(s, '=', '+')),
        translate_spec(s, 0x29) == (s, typed(s, '`', '~')),
        translate_spec(s, 0x1A) == (s, typed(s, '[', '{')),
        translate_spec(s, 0x1B) == (s, typed(s, ']', '}')),
        translate_spec(s, 0x2B) == (s, typed(s, '\\', '|')),
        translate_spec(s, 0x27) == (s, typed(s, ';', ':')),
        translate_spec(s, 0x28) == (s, typed(s, '\'', '"')),
        translate_spec(s, 0x33) == (s, typed(s, ',', '<')),
        translate_spec(s, 0x34) == (s, typed(s, '.', '>')),
        translate_spec(s, 0x35) == (s, typed(s, '/', '?')),
        translate_spec(s, 0x39) == (s, KeyEvent::Char(' ' as u8)),
{
}

/// The US layout of the letter keys (QWERTY rows): each types its lower
/// case letter, and its capital while Shift is held.
pub proof fn lemma_us_letter_keys(s: KeyboardState)
    ensures
        translate_spec(s, 0x10) == (s, typed(s, 'q', 'Q')),
        translate_spec(s, 0x11) == (s, typed(s, 'w', 'W')),
        translate_spec(s, 0x12) == (s, typed(s, 'e', 'E')),
        translate_spec(s, 0x13) == (s, typed(s, 'r', 'R')),
        translate_spec(s, 0x14) == (s, typed(s, 't', 'T')),
        translate_spec(s, 0x15) == (s, typed(s, 'y', 'Y')),
        translate_spec(s, 0x16) == (s, typed(s, 'u', 'U')),
        translate_spec(s, 0x17) == (s, typed(s, 'i', 'I')),
        translate_spec(s, 0x18) == (s, typed(s, 'o', 'O')),
        translate_spec(s, 0x19) == (s, typed(s, 'p', 'P')),
        translate_spec(s, 0x1E) == (s, typed(s, 'a', 'A')),
        translate_spec(s, 0x1F) == (s, typed(s, 's', 'S')),
        translate_spec(s, 0x20) == (s, typed(s, 'd', 'D')),
        translate_spec(s, 0x21) == (s, typed(s, 'f', 'F')),
        translate_spec(s, 0x22) == (s, typed(s, 'g', 'G')),
        translate_spec(s, 0x23) == (s, typed(s, 'h', 'H')),
        translate_spec(s, 0x24) == (s, typed(s, 'j', 'J')),
        translate_spec(s, 0x25) == (s, typed(s, 'k', 'K')),
        translate_spec(s, 0x26) == (s, typed(s, 'l', 'L')),
        translate_spec(s, 0x2C) == (s, typed(s, 'z', 'Z')),
        translate_spec(s, 0x2D) == (s, typed(s, 'x', 'X')),
        translate_spec(s, 0x2E) == (s, typed(s, 'c', 'C')),
        translate_spec(s, 0x2F) == (s, typed(s, 'v', 'V')),
        translate_spec(s, 0x30) == (s, typed(s, 'b', 'B')),
        translate_spec(s, 0x31) == (s, typed(s, 'n', 'N')),
        translate_spec(s, 0x32) == (s, typed(s, 'm', 'M')),
{
}

/// Only two extended codes are keys: `0x48` (Up) and `0x50` (Down) are
/// the presses of the arrows; every other code, and every release (high
/// bit set, such as `0xC8` and `0xD0`), is silent.
pub proof fn lemma_extended_arrows(code: u8)
    ensures
        extended_spec(code) == KeyEvent::ArrowUp <==> code == 0x48,
        extended_spec(code) == KeyEvent::ArrowDown <==> code == 0x50,
        code >= 0x80 ==> extended_spec(code) == KeyEvent::NoKey,
        extended_spec(code) == KeyEvent::NoKey || extended_spec(code) == KeyEvent::ArrowUp
            || extended_spec(code) == KeyEvent::ArrowDown,
{
}

/// The Shift keys: pressing left (`0x2A`) or right (`0x36`) Shift holds
/// it and releasing it (`0xAA`, `0xB6`) lets go, all silently; Enter,
/// Backspace and Tab are their own events; no other code changes the
/// Shift state.
pub proof fn lemma_shift_and_control_keys(s: KeyboardState, code: u8)
    ensures
        translate_spec(s, 0x2A) == (KeyboardState { left_shift: true, ..s }, KeyEvent::NoKey),
        translate_spec(s, 0x36) == (KeyboardState { right_shift: true, ..s }, KeyEvent::NoKey),
        translate_spec(s, 0xAA) == (KeyboardState { left_shift: false, ..s }, KeyEvent::NoKey),
        translate_spec(s, 0xB6) == (KeyboardState { right_shift: false, ..s }, KeyEvent::NoKey),
        translate_spec(s, 0x1C) == (s, KeyEvent::Enter),
        translate_spec(s, 0x0E) == (s, KeyEvent::Backspace),
        translate_spec(s, 0x0F) == (s, KeyEvent::Tab),
        code != 0x2A && code != 0x36 && code != 0xAA && code != 0xB6 ==> translate_spec(s, code).0
            == s,
{
}

} // verus!
