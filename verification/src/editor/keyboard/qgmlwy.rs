//! The QGMLWY layout, a CARPALX keyboard variant.

use crate::editor::keyboard::{generic_map_keycode, KeyCode, KeyEvent, KeyboardLayout, Modifiers};
use vstd::prelude::*;

verus! {

/// A CARPALX keyboard variant (QGMLWY).
#[derive(Debug)]
pub struct Qgmlwy;

/// The keys of the layout: the number row, then the three letter rows,
/// then the space bar.
pub open spec fn keycode_index() -> Seq<KeyCode> {
    seq![
        KeyCode::Unknown, KeyCode::N1, KeyCode::N2, KeyCode::N3, KeyCode::N4, KeyCode::N5,
        KeyCode::N6, KeyCode::N7, KeyCode::N8, KeyCode::N9, KeyCode::N0, KeyCode::Minus,
        KeyCode::Equal, KeyCode::BSlash, KeyCode::Grave, KeyCode::Q, KeyCode::G, KeyCode::M,
        KeyCode::L, KeyCode::W, KeyCode::Y, KeyCode::F, KeyCode::U, KeyCode::B, KeyCode::SColon,
        KeyCode::LBracket, KeyCode::RBracket, KeyCode::D, KeyCode::S, KeyCode::T, KeyCode::N,
        KeyCode::R, KeyCode::I, KeyCode::A, KeyCode::E, KeyCode::O, KeyCode::H, KeyCode::Quote,
        KeyCode::Z, KeyCode::X, KeyCode::C, KeyCode::V, KeyCode::J, KeyCode::K, KeyCode::P,
        KeyCode::Comma, KeyCode::Dot, KeyCode::Slash, KeyCode::Space,
    ]
}

/// What the keys type.
pub open spec fn unicode_map() -> Seq<char> {
    seq![
        '\u{FFFD}', '1', '2', '3', '4', '5', '6', '7', '8', '9', '0', '-', '=', '\\', '`', 'q',
        'g', 'm', 'l', 'w', 'y', 'f', 'u', 'b', ';', '[', ']', 'd', 's', 't', 'n', 'r', 'i', 'a',
        'e', 'o', 'h', '\'', 'z', 'x', 'c', 'v', 'j', 'k', 'p', ',', '.', '/', ' ',
    ]
}

/// What the keys type while shift is held or caps lock is on.
pub open spec fn shift_map() -> Seq<char> {
    seq![
        '\u{FFFD}', '!', '@', '#', '$', '%', '^', '&', '*', '(', ')', '_', '+', '|', '~', 'Q',
        'G', 'M', 'L', 'W', 'Y', 'F', 'U', 'B', ':', '{', '}', 'D', 'S', 'T', 'N', 'R', 'I', 'A',
        'E', 'O', 'H', '"', 'Z', 'X', 'C', 'V', 'J', 'K', 'P', '<', '>', '?', ' ',
    ]
}

impl KeyboardLayout for Qgmlwy {
    open spec fn keys(&self) -> Seq<KeyCode> {
        keycode_index()
    }

    open spec fn plain(&self) -> Seq<char> {
        unicode_map()
    }

    open spec fn shifted(&self) -> Seq<char> {
        shift_map()
    }

    fn map_keycode(&self, keycode: KeyCode, modifiers: Modifiers) -> (r: KeyEvent) {
        let keys: [KeyCode; 49] = [
            KeyCode::Unknown, KeyCode::N1, KeyCode::N2, KeyCode::N3, KeyCode::N4, KeyCode::N5,
            KeyCode::N6, KeyCode::N7, KeyCode::N8, KeyCode::N9, KeyCode::N0, KeyCode::Minus,
            KeyCode::Equal, KeyCode::BSlash, KeyCode::Grave, KeyCode::Q, KeyCode::G, KeyCode::M,
            KeyCode::L, KeyCode::W, KeyCode::Y, KeyCode::F, KeyCode::U, KeyCode::B,
            KeyCode::SColon, KeyCode::LBracket, KeyCode::RBracket, KeyCode::D, KeyCode::S,
            KeyCode::T, KeyCode::N, KeyCode::R, KeyCode::I, KeyCode::A, KeyCode::E, KeyCode::O,
            KeyCode::H, KeyCode::Quote, KeyCode::Z, KeyCode::X, KeyCode::C, KeyCode::V,
            KeyCode::J, KeyCode::K, KeyCode::P, KeyCode::Comma, KeyCode::Dot, KeyCode::Slash,
            KeyCode::Space,
        ];
        let plain: [char; 49] = [
            '\u{FFFD}', '1', '2', '3', '4', '5', '6', '7', '8', '9', '0', '-', '=', '\\', '`',
            'q', 'g', 'm', 'l', 'w', 'y', 'f', 'u', 'b', ';', '[', ']', 'd', 's', 't', 'n', 'r',
            'i', 'a', 'e', 'o', 'h', '\'', 'z', 'x', 'c', 'v', 'j', 'k', 'p', ',', '.', '/', ' ',
        ];
        let shifted: [char; 49] = [
            '\u{FFFD}', '!', '@', '#', '$', '%', '^', '&', '*', '(', ')', '_', '+', '|', '~',
            'Q', 'G', 'M', 'L', 'W', 'Y', 'F', 'U', 'B', ':', '{', '}', 'D', 'S', 'T', 'N', 'R',
            'I', 'A', 'E', 'O', 'H', '"', 'Z', 'X', 'C', 'V', 'J', 'K', 'P', '<', '>', '?', ' ',
        ];
        proof {
            assert(keys@ =~= keycode_index());
            assert(plain@ =~= unicode_map());
            assert(shifted@ =~= shift_map());
            lemma_every_key_has_a_place(keycode);
        }
        generic_map_keycode(
            keys.as_slice(),
            plain.as_slice(),
            shifted.as_slice(),
            keycode,
            modifiers,
        )
    }
}

/// Every key stands somewhere in the layout.
pub proof fn lemma_every_key_has_a_place(keycode: KeyCode)
    ensures
        keycode_index().contains(keycode),
{
    let keys = keycode_index();
    let place: int = match keycode {
        KeyCode::Unknown => 0,
        KeyCode::N1 => 1,
        KeyCode::N2 => 2,
        KeyCode::N3 => 3,
        KeyCode::N4 => 4,
        KeyCode::N5 => 5,
        KeyCode::N6 => 6,
        KeyCode::N7 => 7,
        KeyCode::N8 => 8,
        KeyCode::N9 => 9,
        KeyCode::N0 => 10,
        KeyCode::Minus => 11,
        KeyCode::Equal => 12,
        KeyCode::BSlash => 13,
        KeyCode::Grave => 14,
        KeyCode::Q => 15,
        KeyCode::G => 16,
        KeyCode::M => 17,
        KeyCode::L => 18,
        KeyCode::W => 19,
        KeyCode::Y => 20,
        KeyCode::F => 21,
        KeyCode::U => 22,
        KeyCode::B => 23,
        KeyCode::SColon => 24,
        KeyCode::LBracket => 25,
        KeyCode::RBracket => 26,
        KeyCode::D => 27,
        KeyCode::S => 28,
        KeyCode::T => 29,
        KeyCode::N => 30,
        KeyCode::R => 31,
        KeyCode::I => 32,
        KeyCode::A => 33,
        KeyCode::E => 34,
        KeyCode::O => 35,
        KeyCode::H => 36,
        KeyCode::Quote => 37,
        KeyCode::Z => 38,
        KeyCode::X => 39,
        KeyCode::C => 40,
        KeyCode::V => 41,
        KeyCode::J => 42,
        KeyCode::K => 43,
        KeyCode::P => 44,
        KeyCode::Comma => 45,
        KeyCode::Dot => 46,
        KeyCode::Slash => 47,
        KeyCode::Space => 48,
    };
    assert(keys[place] == keycode);
}

} // verus!
