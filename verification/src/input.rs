//! Input events returned from the Android client to the Windows host.
//!
//! Every event is a fixed 16-byte little-endian record whose first byte is a
//! kind tag (1 = pointer, 2 = key). Pointer coordinates are normalized to
//! `0..=65535` across the tablet surface; key events carry a Unicode code point
//! or a named editing key.

use vstd::prelude::*;

use crate::wire::{get16, le16, lemma_get16, read16, zeros};

verus! {

/// Fixed on-wire size of an [`InputEvent`], in bytes.
pub const INPUT_EVENT_LEN: usize = 16;

/// Record tag stored in byte 0 of every event.
#[derive(Debug, Clone, Copy, PartialEq, Eq)]
pub enum InputKind {
    Pointer,
    Key,
}

impl InputKind {
    /// The wire byte of the value.
    pub open spec fn spec_byte(self) -> u8 {
        match self {
            InputKind::Pointer => 1,
            InputKind::Key => 2,
        }
    }

    /// The wire byte of the value.
    pub fn byte(self) -> (r: u8)
        ensures
            r == self.spec_byte(),
    {
        match self {
            InputKind::Pointer => 1,
            InputKind::Key => 2,
        }
    }

    /// The value a wire byte names, or the error for an unknown byte.
    pub open spec fn spec_from_byte(value: u8) -> Result<InputKind, InputError> {
        if value == 1 {
            Ok(InputKind::Pointer)
        } else if value == 2 {
            Ok(InputKind::Key)
        } else {
            Err(InputError::UnknownKind(value))
        }
    }

    /// The value a wire byte names, or the error for an unknown byte.
    pub fn from_byte(value: u8) -> (r: Result<InputKind, InputError>)
        ensures
            r == Self::spec_from_byte(value),
    {
        if value == 1 {
            Ok(InputKind::Pointer)
        } else if value == 2 {
            Ok(InputKind::Key)
        } else {
            Err(InputError::UnknownKind(value))
        }
    }
}

/// What happened to the pointer.
#[derive(Debug, Clone, Copy, PartialEq, Eq)]
pub enum InputAction {
    /// Pointer contact began (touch down / button press).
    Down,
    /// Pointer moved while in contact.
    Move,
    /// Pointer contact ended (touch up / button release).
    Up,
    /// Discrete scroll notch(es); carried in `scroll_x`/`scroll_y`.
    Scroll,
}

impl InputAction {
    /// The wire byte of the value.
    pub open spec fn spec_byte(self) -> u8 {
        match self {
            InputAction::Down => 1,
            InputAction::Move => 2,
            InputAction::Up => 3,
            InputAction::Scroll => 4,
        }
    }

    /// The wire byte of the value.
    pub fn byte(self) -> (r: u8)
        ensures
            r == self.spec_byte(),
    {
        match self {
            InputAction::Down => 1,
            InputAction::Move => 2,
            InputAction::Up => 3,
            InputAction::Scroll => 4,
        }
    }

    /// The value a wire byte names, or the error for an unknown byte.
    pub open spec fn spec_from_byte(value: u8) -> Result<InputAction, InputError> {
        if value == 1 {
            Ok(InputAction::Down)
        } else if value == 2 {
            Ok(InputAction::Move)
        } else if value == 3 {
            Ok(InputAction::Up)
        } else if value == 4 {
            Ok(InputAction::Scroll)
        } else {
            Err(InputError::UnknownAction(value))
        }
    }

    /// The value a wire byte names, or the error for an unknown byte.
    pub fn from_byte(value: u8) -> (r: Result<InputAction, InputError>)
        ensures
            r == Self::spec_from_byte(value),
    {
        if value == 1 {
            Ok(InputAction::Down)
        } else if value == 2 {
            Ok(InputAction::Move)
        } else if value == 3 {
            Ok(InputAction::Up)
        } else if value == 4 {
            Ok(InputAction::Scroll)
        } else {
            Err(InputError::UnknownAction(value))
        }
    }
}

/// Which logical button the event applies to. Touch reports `Left`.
#[derive(Debug, Clone, Copy, PartialEq, Eq)]
pub enum PointerButton {
    Left,
    Right,
    Middle,
    /// No button (e.g. a hover move or a scroll event).
    NoButton,
}

impl PointerButton {
    /// The wire byte of the value.
    pub open spec fn spec_byte(self) -> u8 {
        match self {
            PointerButton::Left => 0,
            PointerButton::Right => 1,
            PointerButton::Middle => 2,
            PointerButton::NoButton => 255,
        }
    }

    /// The wire byte of the value.
    pub fn byte(self) -> (r: u8)
        ensures
            r == self.spec_byte(),
    {
        match self {
            PointerButton::Left => 0,
            PointerButton::Right => 1,
            PointerButton::Middle => 2,
            PointerButton::NoButton => 255,
        }
    }

    /// The value a wire byte names, or the error for an unknown byte.
    pub open spec fn spec_from_byte(value: u8) -> Result<PointerButton, InputError> {
        if value == 0 {
            Ok(PointerButton::Left)
        } else if value == 1 {
            Ok(PointerButton::Right)
        } else if value == 2 {
            Ok(PointerButton::Middle)
        } else if value == 255 {
            Ok(PointerButton::NoButton)
        } else {
            Err(InputError::UnknownButton(value))
        }
    }

    /// The value a wire byte names, or the error for an unknown byte.
    pub fn from_byte(value: u8) -> (r: Result<PointerButton, InputError>)
        ensures
            r == Self::spec_from_byte(value),
    {
        if value == 0 {
            Ok(PointerButton::Left)
        } else if value == 1 {
            Ok(PointerButton::Right)
        } else if value == 2 {
            Ok(PointerButton::Middle)
        } else if value == 255 {
            Ok(PointerButton::NoButton)
        } else {
            Err(InputError::UnknownButton(value))
        }
    }
}

/// Whether a key was pressed or released.
#[derive(Debug, Clone, Copy, PartialEq, Eq)]
pub enum KeyAction {
    Down,
    Up,
}

impl KeyAction {
    /// The wire byte of the value.
    pub open spec fn spec_byte(self) -> u8 {
        match self {
            KeyAction::Down => 1,
            KeyAction::Up => 2,
        }
    }

    /// The wire byte of the value.
    pub fn byte(self) -> (r: u8)
        ensures
            r == self.spec_byte(),
    {
        match self {
            KeyAction::Down => 1,
            KeyAction::Up => 2,
        }
    }

    /// The value a wire byte names, or the error for an unknown byte.
    pub open spec fn spec_from_byte(value: u8) -> Result<KeyAction, InputError> {
        if value == 1 {
            Ok(KeyAction::Down)
        } else if value == 2 {
            Ok(KeyAction::Up)
        } else {
            Err(InputError::UnknownKeyAction(value))
        }
    }

    /// The value a wire byte names, or the error for an unknown byte.
    pub fn from_byte(value: u8) -> (r: Result<KeyAction, InputError>)
        ensures
            r == Self::spec_from_byte(value),
    {
        if value == 1 {
            Ok(KeyAction::Down)
        } else if value == 2 {
            Ok(KeyAction::Up)
        } else {
            Err(InputError::UnknownKeyAction(value))
        }
    }
}

/// A non-character key. `Char` (0) means "use the Unicode code point".
#[derive(Debug, Clone, Copy, PartialEq, Eq)]
pub enum NamedKey {
    Char,
    Enter,
    Backspace,
    Tab,
    Escape,
    Delete,
    ArrowLeft,
    ArrowRight,
    ArrowUp,
    ArrowDown,
    Home,
    End,
}

impl NamedKey {
    /// The wire byte of the value.
    pub open spec fn spec_byte(self) -> u8 {
        match self {
            NamedKey::Char => 0,
            NamedKey::Enter => 1,
            NamedKey::Backspace => 2,
            NamedKey::Tab => 3,
            NamedKey::Escape => 4,
            NamedKey::Delete => 5,
            NamedKey::ArrowLeft => 6,
            NamedKey::ArrowRight => 7,
            NamedKey::ArrowUp => 8,
            NamedKey::ArrowDown => 9,
            NamedKey::Home => 10,
            NamedKey::End => 11,
        }
    }

    /// The wire byte of the value.
    pub fn byte(self) -> (r: u8)
        ensures
            r == self.spec_byte(),
    {
        match self {
            NamedKey::Char => 0,
            NamedKey::Enter => 1,
            NamedKey::Backspace => 2,
            NamedKey::Tab => 3,
            NamedKey::Escape => 4,
            NamedKey::Delete => 5,
            NamedKey::ArrowLeft => 6,
            NamedKey::ArrowRight => 7,
            NamedKey::ArrowUp => 8,
            NamedKey::ArrowDown => 9,
            NamedKey::Home => 10,
            NamedKey::End => 11,
        }
    }

    /// The value a wire byte names, or the error for an unknown byte.
    pub open spec fn spec_from_byte(value: u8) -> Result<NamedKey, InputError> {
        if value == 0 {
            Ok(NamedKey::Char)
        } else if value == 1 {
            Ok(NamedKey::Enter)
        } else if value == 2 {
            Ok(NamedKey::Backspace)
        } else if value == 3 {
            Ok(NamedKey::Tab)
        } else if value == 4 {
            Ok(NamedKey::Escape)
        } else if value == 5 {
            Ok(NamedKey::Delete)
        } else if value == 6 {
            Ok(NamedKey::ArrowLeft)
        } else if value == 7 {
            Ok(NamedKey::ArrowRight)
        } else if value == 8 {
            Ok(NamedKey::ArrowUp)
        } else if value == 9 {
            Ok(NamedKey::ArrowDown)
        } else if value == 10 {
            Ok(NamedKey::Home)
        } else if value == 11 {
            Ok(NamedKey::End)
        } else {
            Err(InputError::UnknownNamedKey(value))
        }
    }

    /// The value a wire byte names, or the error for an unknown byte.
    pub fn from_byte(value: u8) -> (r: Result<NamedKey, InputError>)
        ensures
            r == Self::spec_from_byte(value),
    {
        if value == 0 {
            Ok(NamedKey::Char)
        } else if value == 1 {
            Ok(NamedKey::Enter)
        } else if value == 2 {
            Ok(NamedKey::Backspace)
        } else if value == 3 {
            Ok(NamedKey::Tab)
        } else if value == 4 {
            Ok(NamedKey::Escape)
        } else if value == 5 {
            Ok(NamedKey::Delete)
        } else if value == 6 {
            Ok(NamedKey::ArrowLeft)
        } else if value == 7 {
            Ok(NamedKey::ArrowRight)
        } else if value == 8 {
            Ok(NamedKey::ArrowUp)
        } else if value == 9 {
            Ok(NamedKey::ArrowDown)
        } else if value == 10 {
            Ok(NamedKey::Home)
        } else if value == 11 {
            Ok(NamedKey::End)
        } else {
            Err(InputError::UnknownNamedKey(value))
        }
    }
}

/// A pointer (touch/mouse) event.
#[derive(Debug, Clone, Copy, PartialEq, Eq)]
pub struct PointerEvent {
    pub action: InputAction,
    pub button: PointerButton,
    pub pointer_id: u8,
    /// Normalized `0..=65535` across the surface width.
    pub x: u16,
    /// Normalized `0..=65535` across the surface height.
    pub y: u16,
    pub scroll_x: i16,
    pub scroll_y: i16,
}

/// A keyboard event.
#[derive(Debug, Clone, Copy, PartialEq, Eq)]
pub struct KeyEvent {
    pub action: KeyAction,
    /// The key identity: `NamedKey::Char` means use `unicode`.
    pub named: NamedKey,
    /// Unicode code point (BMP) when `named` is `Char`; else 0.
    pub unicode: u16,
}

/// A single input event travelling device -> host.
#[derive(Debug, Clone, Copy, PartialEq, Eq)]
pub enum InputEvent {
    Pointer(PointerEvent),
    Key(KeyEvent),
}

/// Errors from decoding an [`InputEvent`] off the wire.
#[derive(Debug, Clone, Copy, PartialEq, Eq)]
pub enum InputError {
    ShortBuffer,
    UnknownKind(u8),
    UnknownAction(u8),
    UnknownButton(u8),
    UnknownKeyAction(u8),
    UnknownNamedKey(u8),
}

/// The 16 wire bytes of an event.
pub open spec fn spec_encode_input(e: InputEvent) -> Seq<u8> {
    match e {
        InputEvent::Pointer(p) => seq![1u8, p.action.spec_byte(), p.button.spec_byte(), p.pointer_id]
            + le16(p.x) + le16(p.y) + le16(p.scroll_x as u16) + le16(p.scroll_y as u16) + zeros(4),
        InputEvent::Key(k) => seq![2u8, k.action.spec_byte(), k.named.spec_byte(), 0u8] + le16(
            k.unicode,
        ) + zeros(10),
    }
}

/// What decoding the front of `b` gives.
pub open spec fn spec_decode_input(b: Seq<u8>) -> Result<InputEvent, InputError> {
    if b.len() < INPUT_EVENT_LEN {
        Err(InputError::ShortBuffer)
    } else {
        match InputKind::spec_from_byte(b[0]) {
            Err(e) => Err(e),
            Ok(InputKind::Pointer) => match InputAction::spec_from_byte(b[1]) {
                Err(e) => Err(e),
                Ok(action) => match PointerButton::spec_from_byte(b[2]) {
                    Err(e) => Err(e),
                    Ok(button) => Ok(
                        InputEvent::Pointer(
                            PointerEvent {
                                action,
                                button,
                                pointer_id: b[3],
                                x: get16(b, 4),
                                y: get16(b, 6),
                                scroll_x: get16(b, 8) as i16,
                                scroll_y: get16(b, 10) as i16,
                            },
                        ),
                    ),
                },
            },
            Ok(InputKind::Key) => match KeyAction::spec_from_byte(b[1]) {
                Err(e) => Err(e),
                Ok(action) => match NamedKey::spec_from_byte(b[2]) {
                    Err(e) => Err(e),
                    Ok(named) => Ok(
                        InputEvent::Key(KeyEvent { action, named, unicode: get16(b, 4) }),
                    ),
                },
            },
        }
    }
}

proof fn lemma_i16_bits(v: i16)
    ensures
        (v as u16) as i16 == v,
{
    assert((v as u16) as i16 == v) by (bit_vector);
}

/// Decoding the encoding of any event gives the event back.
pub proof fn lemma_input_round_trip(e: InputEvent)
    ensures
        spec_decode_input(spec_encode_input(e)) == Ok::<InputEvent, InputError>(e),
{
    let b = spec_encode_input(e);
    match e {
        InputEvent::Pointer(p) => {
            assert(b.subrange(4, 6) =~= le16(p.x));
            assert(b.subrange(6, 8) =~= le16(p.y));
            assert(b.subrange(8, 10) =~= le16(p.scroll_x as u16));
            assert(b.subrange(10, 12) =~= le16(p.scroll_y as u16));
            lemma_get16(b, 4, p.x);
            lemma_get16(b, 6, p.y);
            lemma_get16(b, 8, p.scroll_x as u16);
            lemma_get16(b, 10, p.scroll_y as u16);
            lemma_i16_bits(p.scroll_x);
            lemma_i16_bits(p.scroll_y);
            match p.action {
                InputAction::Down => {},
                InputAction::Move => {},
                InputAction::Up => {},
                InputAction::Scroll => {},
            }
            match p.button {
                PointerButton::Left => {},
                PointerButton::Right => {},
                PointerButton::Middle => {},
                PointerButton::NoButton => {},
            }
        },
        InputEvent::Key(k) => {
            assert(b.subrange(4, 6) =~= le16(k.unicode));
            lemma_get16(b, 4, k.unicode);
            match k.action {
                KeyAction::Down => {},
                KeyAction::Up => {},
            }
        },
    }
}

impl InputEvent {
    /// A pointer event at a normalized position, with no scroll.
    pub fn pointer(action: InputAction, button: PointerButton, pointer_id: u8, x: u16, y: u16) -> (r:
        InputEvent)
        ensures
            r == InputEvent::Pointer(
                PointerEvent { action, button, pointer_id, x, y, scroll_x: 0, scroll_y: 0 },
            ),
    {
        InputEvent::Pointer(
            PointerEvent { action, button, pointer_id, x, y, scroll_x: 0, scroll_y: 0 },
        )
    }

    /// A scroll event at a normalized position: primary pointer, no button.
    pub fn scroll(x: u16, y: u16, scroll_x: i16, scroll_y: i16) -> (r: InputEvent)
        ensures
            r == InputEvent::Pointer(
                PointerEvent {
                    action: InputAction::Scroll,
                    button: PointerButton::NoButton,
                    pointer_id: 0,
                    x,
                    y,
                    scroll_x,
                    scroll_y,
                },
            ),
    {
        InputEvent::Pointer(
            PointerEvent {
                action: InputAction::Scroll,
                button: PointerButton::NoButton,
                pointer_id: 0,
                x,
                y,
                scroll_x,
                scroll_y,
            },
        )
    }

    /// A character key event carrying a Unicode code point.
    pub fn key_char(action: KeyAction, unicode: u16) -> (r: InputEvent)
        ensures
            r == InputEvent::Key(KeyEvent { action, named: NamedKey::Char, unicode }),
    {
        InputEvent::Key(KeyEvent { action, named: NamedKey::Char, unicode })
    }

    /// A named (non-character) key event; the code point is 0.
    pub fn key_named(action: KeyAction, named: NamedKey) -> (r: InputEvent)
        ensures
            r == InputEvent::Key(KeyEvent { action, named, unicode: 0 }),
    {
        InputEvent::Key(KeyEvent { action, named, unicode: 0 })
    }

    /// Serializes to 16 bytes.
    pub fn encode(&self) -> (r: [u8; 16])
        ensures
            r@ == spec_encode_input(*self),
    {
        match self {
            InputEvent::Pointer(p) => {
                let x = p.x;
                let y = p.y;
                let sx = p.scroll_x as u16;
                let sy = p.scroll_y as u16;
                let r: [u8; 16] = [
                    1u8,
                    p.action.byte(),
                    p.button.byte(),
                    p.pointer_id,
                    (x & 0xff) as u8,
                    ((x >> 8) & 0xff) as u8,
                    (y & 0xff) as u8,
                    ((y >> 8) & 0xff) as u8,
                    (sx & 0xff) as u8,
                    ((sx >> 8) & 0xff) as u8,
                    (sy & 0xff) as u8,
                    ((sy >> 8) & 0xff) as u8,
                    0u8,
                    0u8,
                    0u8,
                    0u8,
                ];
                assert(r@ =~= spec_encode_input(*self));
                r
            },
            InputEvent::Key(k) => {
                let u = k.unicode;
                let r: [u8; 16] = [
                    2u8,
                    k.action.byte(),
                    k.named.byte(),
                    0u8,
                    (u & 0xff) as u8,
                    ((u >> 8) & 0xff) as u8,
                    0u8,
                    0u8,
                    0u8,
                    0u8,
                    0u8,
                    0u8,
                    0u8,
                    0u8,
                    0u8,
                    0u8,
                ];
                assert(r@ =~= spec_encode_input(*self));
                r
            },
        }
    }

    /// Parses an event from the front of `bytes`.
    pub fn decode(bytes: &[u8]) -> (r: Result<InputEvent, InputError>)
        ensures
            r == spec_decode_input(bytes@),
    {
        if bytes.len() < INPUT_EVENT_LEN {
            return Err(InputError::ShortBuffer);
        }
        match InputKind::from_byte(bytes[0]) {
            Err(e) => Err(e),
            Ok(InputKind::Pointer) => {
                let action = match InputAction::from_byte(bytes[1]) {
                    Ok(a) => a,
                    Err(e) => {
                        return Err(e);
                    },
                };
                let button = match PointerButton::from_byte(bytes[2]) {
                    Ok(b) => b,
                    Err(e) => {
                        return Err(e);
                    },
                };
                Ok(
                    InputEvent::Pointer(
                        PointerEvent {
                            action,
                            button,
                            pointer_id: bytes[3],
                            x: read16(bytes, 4),
                            y: read16(bytes, 6),
                            scroll_x: read16(bytes, 8) as i16,
                            scroll_y: read16(bytes, 10) as i16,
                        },
                    ),
                )
            },
            Ok(InputKind::Key) => {
                let action = match KeyAction::from_byte(bytes[1]) {
                    Ok(a) => a,
                    Err(e) => {
                        return Err(e);
                    },
                };
                let named = match NamedKey::from_byte(bytes[2]) {
                    Ok(n) => n,
                    Err(e) => {
                        return Err(e);
                    },
                };
                Ok(InputEvent::Key(KeyEvent { action, named, unicode: read16(bytes, 4) }))
            },
        }
    }
}

} // verus!
