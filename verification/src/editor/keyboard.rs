//! Keys, key events and keyboard layouts.

use vstd::prelude::*;

pub mod qgmlwy;

verus! {

/// A key of the keyboard, named by what a QWERTY keyboard prints on it.
#[derive(Clone, Copy, Debug, PartialEq, Eq, Structural)]
pub enum KeyCode {
    Unknown,
    N1,
    N2,
    N3,
    N4,
    N5,
    N6,
    N7,
    N8,
    N9,
    N0,
    Minus,
    Equal,
    BSlash,
    Grave,
    Q,
    W,
    E,
    R,
    T,
    Y,
    U,
    I,
    O,
    P,
    LBracket,
    RBracket,
    A,
    S,
    D,
    F,
    G,
    H,
    J,
    K,
    L,
    SColon,
    Quote,
    Z,
    X,
    C,
    V,
    B,
    N,
    M,
    Comma,
    Dot,
    Slash,
    Space,
}

/// The modifier keys that are held or locked while a key is pressed.
#[derive(Clone, Copy, Debug, PartialEq, Eq, Structural)]
pub struct Modifiers {
    pub shift: bool,
    pub capslock: bool,
}

/// A key press as a layout understands it: the place of the key in the
/// layout, the key, the character that it types, and the modifiers.
#[derive(Clone, Copy, Debug, PartialEq, Eq, Structural)]
pub struct KeyEvent {
    pub index: u8,
    pub code: KeyCode,
    pub unicode: char,
    pub modifiers: Modifiers,
}

/// What a layout with these tables makes of a key press: the key stands at
/// the first place of `keys` that names it, and types the character at
/// that place of `shifted` while shift is held or caps lock is on, else
/// the one at that place of `plain`.
pub open spec fn is_event_of(
    event: KeyEvent,
    keys: Seq<KeyCode>,
    plain: Seq<char>,
    shifted: Seq<char>,
    keycode: KeyCode,
    modifiers: Modifiers,
) -> bool {
    &&& event.code == keycode
    &&& event.modifiers == modifiers
    &&& event.index < keys.len()
    &&& keys[event.index as int] == keycode
    &&& forall|i: int| 0 <= i < event.index ==> keys[i] != keycode
    &&& event.unicode == if modifiers.capslock || modifiers.shift {
        shifted[event.index as int]
    } else {
        plain[event.index as int]
    }
}

/// A keyboard layout: which key stands where, and what it types.
pub trait KeyboardLayout {
    /// The keys of the layout, by their place.
    spec fn keys(&self) -> Seq<KeyCode>;

    /// What the keys type, by their place.
    spec fn plain(&self) -> Seq<char>;

    /// What the keys type while shift is held or caps lock is on, by their
    /// place.
    spec fn shifted(&self) -> Seq<char>;

    /// What the layout makes of a key press.
    fn map_keycode(&self, keycode: KeyCode, modifiers: Modifiers) -> (r: KeyEvent)
        ensures
            is_event_of(r, self.keys(), self.plain(), self.shifted(), keycode, modifiers),
    ;
}

/// What a layout with these tables makes of a key press.
pub fn generic_map_keycode(
    keycode_index: &[KeyCode],
    unicode_map: &[char],
    shift_map: &[char],
    keycode: KeyCode,
    modifiers: Modifiers,
) -> (r: KeyEvent)
    requires
        keycode_index@.len() <= 256,
        unicode_map@.len() == keycode_index@.len(),
        shift_map@.len() == keycode_index@.len(),
        keycode_index@.contains(keycode),
    ensures
        is_event_of(r, keycode_index@, unicode_map@, shift_map@, keycode, modifiers),
{
    let mut index: usize = 0;
    while index < keycode_index.len() && keycode_index[index] != keycode
        invariant
            index <= keycode_index@.len(),
            keycode_index@.contains(keycode),
            forall|i: int| 0 <= i < index ==> keycode_index@[i] != keycode,
        decreases keycode_index@.len() - index,
    {
        index = index + 1;
    }
    let unicode = if modifiers.capslock || modifiers.shift {
        shift_map[index]
    } else {
        unicode_map[index]
    };
    KeyEvent { index: index as u8, code: keycode, unicode, modifiers }
}

} // verus!
