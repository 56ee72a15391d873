//! Replaying input from the Android device on the host: pointer events move
//! and click the system cursor as absolute mouse input, key events type text
//! as Unicode or press editing keys by their virtual-key codes.
//!
//! Normalised `0..=65535` coordinates span the tablet surface, which shows
//! exactly the virtual monitor, so they are first mapped into that monitor's
//! rectangle within the virtual desktop (absolute virtual-desktop mouse
//! coordinates span every monitor). Without a known monitor the coordinates
//! span the whole desktop.
//!
//! The library plans the Win32 `SendInput` records; sending them is the
//! caller's part.

use vstd::prelude::*;

use crate::input::{InputAction, InputEvent, KeyAction, KeyEvent, NamedKey, PointerButton};

verus! {

/// Injects input events into the host OS.
pub trait InputSink {
    fn inject(&mut self, event: &InputEvent);
}

/// A sink that drops every event, for hosts without input injection.
pub struct NoopInputSink;

impl InputSink for NoopInputSink {
    fn inject(&mut self, _event: &InputEvent) {
    }
}

/// Wheel delta for one notch (`WHEEL_DELTA`).
pub const WHEEL_DELTA: i32 = 120;

/// Mouse flag: move.
pub const MOUSEEVENTF_MOVE: u32 = 0x0001;

/// Mouse flag: left button down.
pub const MOUSEEVENTF_LEFTDOWN: u32 = 0x0002;

/// Mouse flag: left button up.
pub const MOUSEEVENTF_LEFTUP: u32 = 0x0004;

/// Mouse flag: right button down.
pub const MOUSEEVENTF_RIGHTDOWN: u32 = 0x0008;

/// Mouse flag: right button up.
pub const MOUSEEVENTF_RIGHTUP: u32 = 0x0010;

/// Mouse flag: middle button down.
pub const MOUSEEVENTF_MIDDLEDOWN: u32 = 0x0020;

/// Mouse flag: middle button up.
pub const MOUSEEVENTF_MIDDLEUP: u32 = 0x0040;

/// Mouse flag: vertical wheel.
pub const MOUSEEVENTF_WHEEL: u32 = 0x0800;

/// Mouse flag: horizontal wheel.
pub const MOUSEEVENTF_HWHEEL: u32 = 0x1000;

/// Mouse flag: coordinates span the virtual desktop.
pub const MOUSEEVENTF_VIRTUALDESK: u32 = 0x4000;

/// Mouse flag: absolute coordinates.
pub const MOUSEEVENTF_ABSOLUTE: u32 = 0x8000;

/// Key flag: key released.
pub const KEYEVENTF_KEYUP: u32 = 0x0002;

/// Key flag: the scan code is a Unicode code unit.
pub const KEYEVENTF_UNICODE: u32 = 0x0004;

/// Virtual key: Backspace.
pub const VK_BACK: u16 = 0x08;

/// Virtual key: Tab.
pub const VK_TAB: u16 = 0x09;

/// Virtual key: Enter.
pub const VK_RETURN: u16 = 0x0d;

/// Virtual key: Escape.
pub const VK_ESCAPE: u16 = 0x1b;

/// Virtual key: End.
pub const VK_END: u16 = 0x23;

/// Virtual key: Home.
pub const VK_HOME: u16 = 0x24;

/// Virtual key: left arrow.
pub const VK_LEFT: u16 = 0x25;

/// Virtual key: up arrow.
pub const VK_UP: u16 = 0x26;

/// Virtual key: right arrow.
pub const VK_RIGHT: u16 = 0x27;

/// Virtual key: down arrow.
pub const VK_DOWN: u16 = 0x28;

/// Virtual key: Delete.
pub const VK_DELETE: u16 = 0x2e;

/// A rectangle in virtual-desktop coordinates.
#[derive(Clone, Copy, Debug, PartialEq, Eq, Structural)]
pub struct MonitorRect {
    pub left: i32,
    pub top: i32,
    pub width: i32,
    pub height: i32,
}

/// One `SendInput` record.
#[derive(Clone, Copy, Debug, PartialEq, Eq, Structural)]
pub enum InjectAction {
    Mouse { flags: u32, dx: i32, dy: i32, data: i32 },
    Key { vk: u16, scan: u16, flags: u32 },
}

/// Division rounding toward zero, as integer division in Rust does.
pub open spec fn tdiv(a: int, b: int) -> int {
    if a >= 0 {
        a / b
    } else {
        -((-a) / b)
    }
}

/// `v` held within `lo..=hi`.
pub open spec fn clamp_int(v: int, lo: int, hi: int) -> int {
    if v < lo {
        lo
    } else if v > hi {
        hi
    } else {
        v
    }
}

/// Where normalised tablet coordinates land in absolute virtual-desktop
/// mouse coordinates: the point of the target monitor they name, as a
/// fraction of the virtual desktop, clamped to `0..=65535`.
pub open spec fn spec_map_absolute(target: Option<MonitorRect>, vscreen: MonitorRect, nx: u16, ny: u16) -> (i32, i32) {
    match target {
        None => (nx as i32, ny as i32),
        Some(m) => {
            let px = m.left + tdiv(nx * m.width, 65535);
            let py = m.top + tdiv(ny * m.height, 65535);
            let vw = if vscreen.width >= 1 {
                vscreen.width as int
            } else {
                1
            };
            let vh = if vscreen.height >= 1 {
                vscreen.height as int
            } else {
                1
            };
            let ax = tdiv((px - vscreen.left) * 65535, vw);
            let ay = tdiv((py - vscreen.top) * 65535, vh);
            (clamp_int(ax, 0, 65535) as i32, clamp_int(ay, 0, 65535) as i32)
        },
    }
}

fn div_toward_zero(a: i64, b: i64) -> (r: i64)
    requires
        b > 0,
        a > i64::MIN,
    ensures
        r == tdiv(a as int, b as int),
{
    if a >= 0 {
        a / b
    } else {
        0 - ((0 - a) / b)
    }
}

/// Map normalised `0..=65535` tablet coordinates onto absolute
/// virtual-desktop mouse coordinates.
pub fn map_absolute(target: Option<MonitorRect>, vscreen: MonitorRect, nx: u16, ny: u16) -> (r: (i32, i32))
    ensures
        r == spec_map_absolute(target, vscreen, nx, ny),
{
    let m = match target {
        None => {
            return (nx as i32, ny as i32);
        },
        Some(m) => m,
    };
    proof {
        assert(-65535 * 0x8000_0000 <= nx * m.width <= 65535 * 0x8000_0000) by (nonlinear_arith)
            requires
                0 <= nx <= 65535,
                -0x8000_0000 <= m.width < 0x8000_0000,
        ;
        assert(-65535 * 0x8000_0000 <= ny * m.height <= 65535 * 0x8000_0000) by (nonlinear_arith)
            requires
                0 <= ny <= 65535,
                -0x8000_0000 <= m.height < 0x8000_0000,
        ;
    }
    let qx = div_toward_zero(nx as i64 * m.width as i64, 65535);
    let qy = div_toward_zero(ny as i64 * m.height as i64, 65535);
    assert(-0x8000_0000 <= qx <= 0x8000_0000) by (nonlinear_arith)
        requires
            qx == tdiv(nx * m.width, 65535),
            -65535 * 0x8000_0000 <= nx * m.width <= 65535 * 0x8000_0000,
    ;
    assert(-0x8000_0000 <= qy <= 0x8000_0000) by (nonlinear_arith)
        requires
            qy == tdiv(ny * m.height, 65535),
            -65535 * 0x8000_0000 <= ny * m.height <= 65535 * 0x8000_0000,
    ;
    let px = m.left as i64 + qx;
    let py = m.top as i64 + qy;
    let vw: i64 = if vscreen.width >= 1 {
        vscreen.width as i64
    } else {
        1
    };
    let vh: i64 = if vscreen.height >= 1 {
        vscreen.height as i64
    } else {
        1
    };
    let ax = div_toward_zero((px - vscreen.left as i64) * 65535, vw);
    let ay = div_toward_zero((py - vscreen.top as i64) * 65535, vh);
    let cx = if ax < 0 {
        0
    } else if ax > 65535 {
        65535
    } else {
        ax
    };
    let cy = if ay < 0 {
        0
    } else if ay > 65535 {
        65535
    } else {
        ay
    };
    (cx as i32, cy as i32)
}


/// The mouse flag for pressing (`down`) or releasing a button; none for
/// [`PointerButton::NoButton`].
pub open spec fn spec_button_flags(button: PointerButton, down: bool) -> Option<u32> {
    match button {
        PointerButton::Left => Some(if down { MOUSEEVENTF_LEFTDOWN } else { MOUSEEVENTF_LEFTUP }),
        PointerButton::Right => Some(if down { MOUSEEVENTF_RIGHTDOWN } else { MOUSEEVENTF_RIGHTUP }),
        PointerButton::Middle => Some(if down { MOUSEEVENTF_MIDDLEDOWN } else { MOUSEEVENTF_MIDDLEUP }),
        PointerButton::NoButton => None,
    }
}

/// The mouse flags that press or release `button`; none for no button.
pub fn button_flags(button: PointerButton, down: bool) -> (r: Option<u32>)
    ensures
        r == spec_button_flags(button, down),
{
    match (button, down) {
        (PointerButton::Left, true) => Some(MOUSEEVENTF_LEFTDOWN),
        (PointerButton::Left, false) => Some(MOUSEEVENTF_LEFTUP),
        (PointerButton::Right, true) => Some(MOUSEEVENTF_RIGHTDOWN),
        (PointerButton::Right, false) => Some(MOUSEEVENTF_RIGHTUP),
        (PointerButton::Middle, true) => Some(MOUSEEVENTF_MIDDLEDOWN),
        (PointerButton::Middle, false) => Some(MOUSEEVENTF_MIDDLEUP),
        (PointerButton::NoButton, _) => None,
    }
}

/// The virtual-key code of an editing key; none for a character key.
pub open spec fn spec_named_vk(named: NamedKey) -> Option<u16> {
    match named {
        NamedKey::Char => None,
        NamedKey::Enter => Some(VK_RETURN),
        NamedKey::Backspace => Some(VK_BACK),
        NamedKey::Tab => Some(VK_TAB),
        NamedKey::Escape => Some(VK_ESCAPE),
        NamedKey::Delete => Some(VK_DELETE),
        NamedKey::ArrowLeft => Some(VK_LEFT),
        NamedKey::ArrowRight => Some(VK_RIGHT),
        NamedKey::ArrowUp => Some(VK_UP),
        NamedKey::ArrowDown => Some(VK_DOWN),
        NamedKey::Home => Some(VK_HOME),
        NamedKey::End => Some(VK_END),
    }
}

/// The virtual-key code of a named key; none for a character key.
pub fn named_vk(named: NamedKey) -> (r: Option<u16>)
    ensures
        r == spec_named_vk(named),
{
    match named {
        NamedKey::Char => None,
        NamedKey::Enter => Some(VK_RETURN),
        NamedKey::Backspace => Some(VK_BACK),
        NamedKey::Tab => Some(VK_TAB),
        NamedKey::Escape => Some(VK_ESCAPE),
        NamedKey::Delete => Some(VK_DELETE),
        NamedKey::ArrowLeft => Some(VK_LEFT),
        NamedKey::ArrowRight => Some(VK_RIGHT),
        NamedKey::ArrowUp => Some(VK_UP),
        NamedKey::ArrowDown => Some(VK_DOWN),
        NamedKey::Home => Some(VK_HOME),
        NamedKey::End => Some(VK_END),
    }
}

/// The one-record list of `a`, or nothing.
pub open spec fn maybe(a: Option<InjectAction>) -> Seq<InjectAction> {
    match a {
        Some(x) => seq![x],
        None => Seq::empty(),
    }
}

/// The `SendInput` records that replay `event`, for a target monitor and
/// virtual desktop:
/// - a move goes to the mapped point;
/// - a press first moves there, so the click lands under the finger;
/// - a release only releases the button;
/// - a scroll moves there, then turns the vertical and horizontal wheels by
///   the notches given, vertical first;
/// - an editing key is pressed or released by virtual-key code, a character
///   key typed as its Unicode code unit (nothing for code unit 0).
pub open spec fn spec_plan(event: InputEvent, target: Option<MonitorRect>, vscreen: MonitorRect) -> Seq<InjectAction> {
    match event {
        InputEvent::Pointer(p) => {
            let abs = MOUSEEVENTF_ABSOLUTE | MOUSEEVENTF_VIRTUALDESK;
            let (dx, dy) = spec_map_absolute(target, vscreen, p.x, p.y);
            let to_point = InjectAction::Mouse { flags: abs | MOUSEEVENTF_MOVE, dx, dy, data: 0 };
            match p.action {
                InputAction::Move => seq![to_point],
                InputAction::Down => seq![to_point] + maybe(
                    match spec_button_flags(p.button, true) {
                        Some(f) => Some(InjectAction::Mouse { flags: abs | f, dx, dy, data: 0 }),
                        None => None,
                    },
                ),
                InputAction::Up => maybe(
                    match spec_button_flags(p.button, false) {
                        Some(f) => Some(InjectAction::Mouse { flags: abs | f, dx, dy, data: 0 }),
                        None => None,
                    },
                ),
                InputAction::Scroll => seq![to_point] + maybe(
                    if p.scroll_y != 0 {
                        Some(
                            InjectAction::Mouse {
                                flags: MOUSEEVENTF_WHEEL,
                                dx: 0,
                                dy: 0,
                                data: (p.scroll_y * WHEEL_DELTA) as i32,
                            },
                        )
                    } else {
                        None
                    },
                ) + maybe(
                    if p.scroll_x != 0 {
                        Some(
                            InjectAction::Mouse {
                                flags: MOUSEEVENTF_HWHEEL,
                                dx: 0,
                                dy: 0,
                                data: (p.scroll_x * WHEEL_DELTA) as i32,
                            },
                        )
                    } else {
                        None
                    },
                ),
            }
        },
        InputEvent::Key(k) => {
            let up = k.action == KeyAction::Up;
            match spec_named_vk(k.named) {
                Some(vk) => seq![
                    InjectAction::Key {
                        vk,
                        scan: 0,
                        flags: if up {
                            KEYEVENTF_KEYUP
                        } else {
                            0
                        },
                    },
                ],
                None => if k.unicode != 0 {
                    seq![
                        InjectAction::Key {
                            vk: 0,
                            scan: k.unicode,
                            flags: if up {
                                KEYEVENTF_UNICODE | KEYEVENTF_KEYUP
                            } else {
                                KEYEVENTF_UNICODE
                            },
                        },
                    ]
                } else {
                    Seq::empty()
                },
            }
        },
    }
}

/// The `SendInput` records that replay `event` (see [`spec_plan`]).
pub fn injection_plan(event: &InputEvent, target: Option<MonitorRect>, vscreen: MonitorRect) -> (r: Vec<InjectAction>)
    ensures
        r@ == spec_plan(*event, target, vscreen),
{
    let mut out: Vec<InjectAction> = Vec::new();
    match event {
        InputEvent::Pointer(p) => {
            let abs = MOUSEEVENTF_ABSOLUTE | MOUSEEVENTF_VIRTUALDESK;
            let (dx, dy) = map_absolute(target, vscreen, p.x, p.y);
            let to_point = InjectAction::Mouse { flags: abs | MOUSEEVENTF_MOVE, dx, dy, data: 0 };
            match p.action {
                InputAction::Move => {
                    out.push(to_point);
                },
                InputAction::Down => {
                    out.push(to_point);
                    if let Some(flags) = button_flags(p.button, true) {
                        out.push(InjectAction::Mouse { flags: abs | flags, dx, dy, data: 0 });
                    }
                },
                InputAction::Up => {
                    if let Some(flags) = button_flags(p.button, false) {
                        out.push(InjectAction::Mouse { flags: abs | flags, dx, dy, data: 0 });
                    }
                },
                InputAction::Scroll => {
                    out.push(to_point);
                    if p.scroll_y != 0 {
                        out.push(
                            InjectAction::Mouse {
                                flags: MOUSEEVENTF_WHEEL,
                                dx: 0,
                                dy: 0,
                                data: p.scroll_y as i32 * WHEEL_DELTA,
                            },
                        );
                    }
                    if p.scroll_x != 0 {
                        out.push(
                            InjectAction::Mouse {
                                flags: MOUSEEVENTF_HWHEEL,
                                dx: 0,
                                dy: 0,
                                data: p.scroll_x as i32 * WHEEL_DELTA,
                            },
                        );
                    }
                },
            }
        },
        InputEvent::Key(k) => {
            let up = match k.action {
                KeyAction::Up => true,
                KeyAction::Down => false,
            };
            match named_vk(k.named) {
                Some(vk) => {
                    let flags = if up {
                        KEYEVENTF_KEYUP
                    } else {
                        0
                    };
                    out.push(InjectAction::Key { vk, scan: 0, flags });
                },
                None => {
                    if k.unicode != 0 {
                        let mut flags = KEYEVENTF_UNICODE;
                        if up {
                            flags = flags | KEYEVENTF_KEYUP;
                        }
                        out.push(InjectAction::Key { vk: 0, scan: k.unicode, flags });
                    }
                },
            }
        },
    }
    assert(out@ =~= spec_plan(*event, target, vscreen));
    out
}

/// A key event becomes one keyboard record at most, and the record carries
/// the key-release bit exactly when the event is a release: a character key
/// (`NamedKey::Char` with a nonzero code unit) is typed as that Unicode code
/// unit with no virtual key, pressed on `Down` and released on `Up`, so a
/// press and a release of the same key differ in that bit and nothing else.
pub proof fn lemma_key_release_sets_keyup(k: KeyEvent, target: Option<MonitorRect>, vscreen: MonitorRect)
    requires
        k.named == NamedKey::Char,
        k.unicode != 0,
    ensures
        spec_plan(InputEvent::Key(k), target, vscreen).len() == 1,
        spec_plan(InputEvent::Key(k), target, vscreen)[0] matches InjectAction::Key { vk, scan, flags }
            && vk == 0 && scan == k.unicode
            && flags & KEYEVENTF_UNICODE == KEYEVENTF_UNICODE
            && ((flags & KEYEVENTF_KEYUP == KEYEVENTF_KEYUP) <==> k.action == KeyAction::Up)
            && (flags == KEYEVENTF_UNICODE || flags == KEYEVENTF_UNICODE | KEYEVENTF_KEYUP),
        ({
            let down = KeyEvent { action: KeyAction::Down, ..k };
            let up = KeyEvent { action: KeyAction::Up, ..k };
            &&& spec_plan(InputEvent::Key(down), target, vscreen)[0] matches InjectAction::Key { vk: v1, scan: s1, flags: f1 }
            &&& spec_plan(InputEvent::Key(up), target, vscreen)[0] matches InjectAction::Key { vk: v2, scan: s2, flags: f2 }
            &&& v1 == v2 && s1 == s2
            &&& f1 ^ f2 == KEYEVENTF_KEYUP
        }),
{
    assert(spec_named_vk(NamedKey::Char) is None);
    assert((KEYEVENTF_UNICODE | KEYEVENTF_KEYUP) & KEYEVENTF_UNICODE == KEYEVENTF_UNICODE) by (bit_vector);
    assert((KEYEVENTF_UNICODE | KEYEVENTF_KEYUP) & KEYEVENTF_KEYUP == KEYEVENTF_KEYUP) by (bit_vector);
    assert(KEYEVENTF_UNICODE & KEYEVENTF_UNICODE == KEYEVENTF_UNICODE) by (bit_vector);
    assert(KEYEVENTF_UNICODE & KEYEVENTF_KEYUP != KEYEVENTF_KEYUP) by (bit_vector);
    assert(KEYEVENTF_UNICODE ^ (KEYEVENTF_UNICODE | KEYEVENTF_KEYUP) == KEYEVENTF_KEYUP) by (bit_vector);
    let r = spec_plan(InputEvent::Key(k), target, vscreen);
    if k.action == KeyAction::Up {
        assert(r[0] == InjectAction::Key { vk: 0, scan: k.unicode, flags: KEYEVENTF_UNICODE | KEYEVENTF_KEYUP });
    } else {
        assert(r[0] == InjectAction::Key { vk: 0, scan: k.unicode, flags: KEYEVENTF_UNICODE });
    }
}

/// An editing key (one with a virtual-key code) is pressed and released by
/// that code: one record, no Unicode bit, and the key-release bit exactly
/// when the event is a release.
pub proof fn lemma_named_key_release_sets_keyup(k: KeyEvent, target: Option<MonitorRect>, vscreen: MonitorRect)
    requires
        k.named != NamedKey::Char,
    ensures
        spec_plan(InputEvent::Key(k), target, vscreen).len() == 1,
        spec_plan(InputEvent::Key(k), target, vscreen)[0] matches InjectAction::Key { vk, scan, flags }
            && vk != 0 && scan == 0
            && flags & KEYEVENTF_UNICODE == 0
            && ((flags & KEYEVENTF_KEYUP == KEYEVENTF_KEYUP) <==> k.action == KeyAction::Up),
{
    assert(0x0002u32 & 0x0004u32 == 0) by (bit_vector);
    assert(0x0002u32 & 0x0002u32 == 0x0002u32) by (bit_vector);
    assert(0u32 & 0x0004u32 == 0) by (bit_vector);
    assert(0u32 & 0x0002u32 != 0x0002u32) by (bit_vector);
}

} // verus!
