use chewing::editor::keyboard::qgmlwy::Qgmlwy;
use chewing::editor::keyboard::{generic_map_keycode, KeyCode, KeyEvent, KeyboardLayout, Modifiers};

const PLAIN: Modifiers = Modifiers {
    shift: false,
    capslock: false,
};

#[test]
fn qgmlwy_maps_keys_to_characters() {
    let layout = Qgmlwy;
    assert_eq!(
        KeyEvent {
            index: 15,
            code: KeyCode::Q,
            unicode: 'q',
            modifiers: PLAIN
        },
        layout.map_keycode(KeyCode::Q, PLAIN)
    );
    assert_eq!('g', layout.map_keycode(KeyCode::G, PLAIN).unicode);
    assert_eq!(16, layout.map_keycode(KeyCode::G, PLAIN).index);
    assert_eq!('1', layout.map_keycode(KeyCode::N1, PLAIN).unicode);
    assert_eq!(' ', layout.map_keycode(KeyCode::Space, PLAIN).unicode);
    assert_eq!(48, layout.map_keycode(KeyCode::Space, PLAIN).index);
    assert_eq!('\u{FFFD}', layout.map_keycode(KeyCode::Unknown, PLAIN).unicode);
    assert_eq!('\\', layout.map_keycode(KeyCode::BSlash, PLAIN).unicode);
}

#[test]
fn qgmlwy_shift_and_caps_lock_type_the_upper_row() {
    let layout = Qgmlwy;
    let shift = Modifiers {
        shift: true,
        capslock: false,
    };
    let caps = Modifiers {
        shift: false,
        capslock: true,
    };
    assert_eq!('Q', layout.map_keycode(KeyCode::Q, shift).unicode);
    assert_eq!('Q', layout.map_keycode(KeyCode::Q, caps).unicode);
    assert_eq!('!', layout.map_keycode(KeyCode::N1, shift).unicode);
    assert_eq!('"', layout.map_keycode(KeyCode::Quote, shift).unicode);
    assert_eq!('?', layout.map_keycode(KeyCode::Slash, caps).unicode);
    assert_eq!(shift, layout.map_keycode(KeyCode::Q, shift).modifiers);
}

#[test]
fn generic_layout_takes_the_first_place_of_a_key() {
    let keys = [KeyCode::A, KeyCode::B, KeyCode::A];
    let plain = ['x', 'y', 'z'];
    let shifted = ['X', 'Y', 'Z'];
    let event = generic_map_keycode(&keys, &plain, &shifted, KeyCode::A, PLAIN);
    assert_eq!(0, event.index);
    assert_eq!('x', event.unicode);
    let event = generic_map_keycode(&keys, &plain, &shifted, KeyCode::B, PLAIN);
    assert_eq!(1, event.index);
    assert_eq!('y', event.unicode);
}
