use kernel::keyboard::{translate_extended, KeyEvent, KeyboardState};

fn ch(c: char) -> KeyEvent {
    KeyEvent::Char(c as u8)
}

#[test]
fn letters_digits_and_specials() {
    let mut k = KeyboardState::new();
    assert!(k.translate_scancode(0x1E) == ch('a'));
    assert!(k.translate_scancode(0x32) == ch('m'));
    assert!(k.translate_scancode(0x02) == ch('1'));
    assert!(k.translate_scancode(0x2B) == ch('\\'));
    assert!(k.translate_scancode(0x28) == ch('\''));
    assert!(k.translate_scancode(0x39) == ch(' '));
    assert!(k.translate_scancode(0x1C) == KeyEvent::Enter);
    assert!(k.translate_scancode(0x0E) == KeyEvent::Backspace);
    assert!(k.translate_scancode(0x0F) == KeyEvent::Tab);
    assert!(k.translate_scancode(0x01) == KeyEvent::NoKey);
}

#[test]
fn shift_changes_case_and_symbols() {
    let mut k = KeyboardState::new();
    assert!(k.translate_scancode(0x2A) == KeyEvent::NoKey);
    assert!(k.left_shift);
    assert!(k.translate_scancode(0x1E) == ch('A'));
    assert!(k.translate_scancode(0x02) == ch('!'));
    assert!(k.translate_scancode(0x28) == ch('"'));
    assert!(k.translate_scancode(0x39) == ch(' '));
    assert!(k.translate_scancode(0xAA) == KeyEvent::NoKey);
    assert!(!k.left_shift);
    assert!(k.translate_scancode(0x1E) == ch('a'));
    k.translate_scancode(0x36);
    assert!(k.right_shift);
    assert!(k.translate_scancode(0x35) == ch('?'));
    k.translate_scancode(0xB6);
    assert!(k.translate_scancode(0x35) == ch('/'));
}

#[test]
fn releases_are_silent() {
    let mut k = KeyboardState::new();
    for code in 0x80..=0xFFu8 {
        assert!(k.translate_scancode(code) == KeyEvent::NoKey);
    }
}

#[test]
fn arrows() {
    assert!(translate_extended(0x48) == KeyEvent::ArrowUp);
    assert!(translate_extended(0x50) == KeyEvent::ArrowDown);
    assert!(translate_extended(0xC8) == KeyEvent::NoKey);
    assert!(translate_extended(0x4B) == KeyEvent::NoKey);
}
