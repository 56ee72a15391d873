use usbdisplay::input::{
    InputAction, InputError, InputEvent, KeyAction, NamedKey, PointerButton, INPUT_EVENT_LEN,
};

#[test]
fn round_trips_pointer_event() {
    let event = InputEvent::pointer(InputAction::Down, PointerButton::Left, 2, 40_000, 12_345);
    let decoded = InputEvent::decode(&event.encode()).unwrap();
    assert_eq!(decoded, event);
}

#[test]
fn round_trips_scroll_event() {
    let event = InputEvent::scroll(100, 200, -3, 5);
    let decoded = InputEvent::decode(&event.encode()).unwrap();
    assert_eq!(decoded, event);
}

#[test]
fn round_trips_char_key() {
    let event = InputEvent::key_char(KeyAction::Down, 'A' as u16);
    let decoded = InputEvent::decode(&event.encode()).unwrap();
    assert_eq!(decoded, event);
}

#[test]
fn round_trips_named_key() {
    let event = InputEvent::key_named(KeyAction::Up, NamedKey::Enter);
    let decoded = InputEvent::decode(&event.encode()).unwrap();
    assert_eq!(decoded, event);
}

#[test]
fn encodes_to_fixed_width() {
    let event = InputEvent::pointer(InputAction::Move, PointerButton::NoButton, 0, 0, 65_535);
    assert_eq!(event.encode().len(), INPUT_EVENT_LEN);
}

#[test]
fn rejects_short_buffer() {
    assert_eq!(InputEvent::decode(&[1, 0, 0]), Err(InputError::ShortBuffer));
}

#[test]
fn rejects_unknown_kind() {
    let mut bytes = InputEvent::pointer(InputAction::Up, PointerButton::Left, 0, 1, 1).encode();
    bytes[0] = 9;
    assert_eq!(InputEvent::decode(&bytes), Err(InputError::UnknownKind(9)));
}

#[test]
fn rejects_unknown_action() {
    let mut bytes = InputEvent::pointer(InputAction::Up, PointerButton::Left, 0, 1, 1).encode();
    bytes[1] = 9;
    assert_eq!(InputEvent::decode(&bytes), Err(InputError::UnknownAction(9)));
}

#[test]
fn matches_kotlin_pointer_reference_bytes() {
    let event = InputEvent::pointer(InputAction::Down, PointerButton::Left, 2, 40_000, 12_345);
    let expected: [u8; INPUT_EVENT_LEN] = [
        1, 1, 0, 2, 0x40, 0x9C, 0x39, 0x30, 0, 0, 0, 0, 0, 0, 0, 0,
    ];
    assert_eq!(event.encode(), expected);
    assert_eq!(InputEvent::decode(&expected).unwrap(), event);
}

#[test]
fn matches_kotlin_key_reference_bytes() {
    let event = InputEvent::key_char(KeyAction::Down, 'A' as u16);
    let expected: [u8; INPUT_EVENT_LEN] = [2, 1, 0, 0, 0x41, 0x00, 0, 0, 0, 0, 0, 0, 0, 0, 0, 0];
    assert_eq!(event.encode(), expected);
    assert_eq!(InputEvent::decode(&expected).unwrap(), event);
}

#[test]
fn rejects_unknown_button_and_named_key() {
    let mut bytes = InputEvent::pointer(InputAction::Up, PointerButton::Left, 0, 1, 1).encode();
    bytes[2] = 7;
    assert_eq!(InputEvent::decode(&bytes), Err(InputError::UnknownButton(7)));
    let mut key = InputEvent::key_named(KeyAction::Down, NamedKey::Tab).encode();
    key[2] = 200;
    assert_eq!(InputEvent::decode(&key), Err(InputError::UnknownNamedKey(200)));
}
