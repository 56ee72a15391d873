//! Parsing the device list that `adb devices -l` prints.

use vstd::prelude::*;
use vstd::string::*;

use crate::text::{
    chars_of, line_ranges, ranges_within, span_is, span_starts_with, spans, split_lines,
    string_of, word_ranges, words,
};

verus! {

/// The state `adb devices` reports for a device.
#[derive(Debug, Clone, PartialEq, Eq)]
pub enum AdbDeviceState {
    Device,
    Unauthorized,
    Offline,
    Recovery,
    Sideload,
    Bootloader,
    Unknown(String),
}

/// One device line of `adb devices -l`.
#[derive(Debug, Clone, PartialEq, Eq)]
pub struct AdbDevice {
    pub serial: String,
    pub state: AdbDeviceState,
    pub product: Option<String>,
    pub model: Option<String>,
    pub device: Option<String>,
    pub transport_id: Option<String>,
}

/// An [`AdbDeviceState`] with its text as characters.
pub ghost enum StateView {
    Device,
    Unauthorized,
    Offline,
    Recovery,
    Sideload,
    Bootloader,
    Unknown(Seq<char>),
}

/// An [`AdbDevice`] with its text as characters.
pub ghost struct DeviceView {
    pub serial: Seq<char>,
    pub state: StateView,
    pub product: Option<Seq<char>>,
    pub model: Option<Seq<char>>,
    pub device: Option<Seq<char>>,
    pub transport_id: Option<Seq<char>>,
}

/// The characters of an optional string.
pub open spec fn opt_view(o: Option<String>) -> Option<Seq<char>> {
    match o {
        Some(s) => Some(s@),
        None => None,
    }
}

impl View for AdbDeviceState {
    type V = StateView;

    open spec fn view(&self) -> StateView {
        match self {
            AdbDeviceState::Device => StateView::Device,
            AdbDeviceState::Unauthorized => StateView::Unauthorized,
            AdbDeviceState::Offline => StateView::Offline,
            AdbDeviceState::Recovery => StateView::Recovery,
            AdbDeviceState::Sideload => StateView::Sideload,
            AdbDeviceState::Bootloader => StateView::Bootloader,
            AdbDeviceState::Unknown(s) => StateView::Unknown(s@),
        }
    }
}

impl View for AdbDevice {
    type V = DeviceView;

    open spec fn view(&self) -> DeviceView {
        DeviceView {
            serial: self.serial@,
            state: self.state@,
            product: opt_view(self.product),
            model: opt_view(self.model),
            device: opt_view(self.device),
            transport_id: opt_view(self.transport_id),
        }
    }
}

/// A device line that names a serial but no state.
#[derive(Debug, Clone, Copy, PartialEq, Eq, Structural)]
pub enum AdbParseError {
    MissingState,
}

impl AdbParseError {
    /// The message of the error.
    pub fn message(&self) -> (r: String)
        ensures
            r@ == "adb device line is missing state"@,
    {
        String::from_str("adb device line is missing state")
    }
}

/// The state a state word names.
pub open spec fn spec_state(w: Seq<char>) -> StateView {
    if w == "device"@ {
        StateView::Device
    } else if w == "unauthorized"@ {
        StateView::Unauthorized
    } else if w == "offline"@ {
        StateView::Offline
    } else if w == "recovery"@ {
        StateView::Recovery
    } else if w == "sideload"@ {
        StateView::Sideload
    } else if w == "bootloader"@ {
        StateView::Bootloader
    } else {
        StateView::Unknown(w)
    }
}

/// The value of the last word of `ws` that begins with `key`, without the
/// key.
pub open spec fn attribute(ws: Seq<Seq<char>>, key: Seq<char>) -> Option<Seq<char>>
    decreases ws.len(),
{
    if ws.len() == 0 {
        None
    } else if key.is_prefix_of(ws.last()) {
        Some(ws.last().skip(key.len() as int))
    } else {
        attribute(ws.drop_last(), key)
    }
}

/// The device that a line of at least two words describes: its serial, its
/// state, and the `key:value` attributes that follow.
pub open spec fn device_of(ws: Seq<Seq<char>>) -> DeviceView {
    let rest = ws.skip(2);
    DeviceView {
        serial: ws[0],
        state: spec_state(ws[1]),
        product: attribute(rest, "product:"@),
        model: attribute(rest, "model:"@),
        device: attribute(rest, "device:"@),
        transport_id: attribute(rest, "transport_id:"@),
    }
}

/// The devices the lines `lines` describe; blank lines are skipped and a
/// line with only a serial is an error.
pub open spec fn parse_lines(lines: Seq<Seq<char>>) -> Result<Seq<DeviceView>, AdbParseError>
    decreases lines.len(),
{
    if lines.len() == 0 {
        Ok(Seq::empty())
    } else {
        match parse_lines(lines.drop_last()) {
            Err(e) => Err(e),
            Ok(devs) => {
                let ws = words(lines.last());
                if ws.len() == 0 {
                    Ok(devs)
                } else if ws.len() == 1 {
                    Err(AdbParseError::MissingState)
                } else {
                    Ok(devs.push(device_of(ws)))
                }
            },
        }
    }
}

/// What [`parse_adb_devices`] gives for the output of `adb devices -l`: the
/// first line is a banner; every other line describes one device.
pub open spec fn spec_parse_adb(s: Seq<char>) -> Result<Seq<DeviceView>, AdbParseError> {
    parse_lines(split_lines(s).skip(1))
}


fn parse_state(cs: &Vec<char>, a: usize, b: usize) -> (r: AdbDeviceState)
    requires
        a <= b <= cs@.len(),
    ensures
        r@ == spec_state(cs@.subrange(a as int, b as int)),
{
    if span_is(cs, a, b, "device") {
        AdbDeviceState::Device
    } else if span_is(cs, a, b, "unauthorized") {
        AdbDeviceState::Unauthorized
    } else if span_is(cs, a, b, "offline") {
        AdbDeviceState::Offline
    } else if span_is(cs, a, b, "recovery") {
        AdbDeviceState::Recovery
    } else if span_is(cs, a, b, "sideload") {
        AdbDeviceState::Sideload
    } else if span_is(cs, a, b, "bootloader") {
        AdbDeviceState::Bootloader
    } else {
        AdbDeviceState::Unknown(string_of(cs, a, b))
    }
}

/// A word never begins with two of the attribute keys.
proof fn lemma_keys_exclusive(w: Seq<char>)
    ensures
        "product:"@.is_prefix_of(w) ==> !"model:"@.is_prefix_of(w) && !"device:"@.is_prefix_of(w)
            && !"transport_id:"@.is_prefix_of(w),
        "model:"@.is_prefix_of(w) ==> !"device:"@.is_prefix_of(w) && !"transport_id:"@.is_prefix_of(w),
        "device:"@.is_prefix_of(w) ==> !"transport_id:"@.is_prefix_of(w),
{
    reveal_strlit("product:");
    reveal_strlit("model:");
    reveal_strlit("device:");
    reveal_strlit("transport_id:");
    if "transport_id:"@.is_prefix_of(w) {
        assert(w.subrange(0, 13)[0] == w[0]);
    }
    if "product:"@.is_prefix_of(w) {
        assert(w.subrange(0, 8)[0] == w[0]);
        assert(w[0] == 'p');
    }
    if "model:"@.is_prefix_of(w) {
        assert(w.subrange(0, 6)[0] == w[0]);
        assert(w[0] == 'm');
    }
    if "device:"@.is_prefix_of(w) {
        assert(w.subrange(0, 7)[0] == w[0]);
        assert(w[0] == 'd');
    }
}

/// The device described by the words `ws` (at least two) of `cs`.
fn device_from(cs: &Vec<char>, ws: &Vec<(usize, usize)>) -> (r: AdbDevice)
    requires
        ws@.len() >= 2,
        ranges_within(ws@, 0, cs@.len() as int),
    ensures
        r@ == device_of(spans(cs@, ws@)),
{
    let ghost all = spans(cs@, ws@);
    let (s0, e0) = ws[0];
    let (s1, e1) = ws[1];
    let serial = string_of(cs, s0, e0);
    let state = parse_state(cs, s1, e1);
    let mut product: Option<String> = None;
    let mut model: Option<String> = None;
    let mut device: Option<String> = None;
    let mut transport_id: Option<String> = None;
    let mut t: usize = 2;
    assert(all.skip(2).take(0) =~= Seq::<Seq<char>>::empty());
    while t < ws.len()
        invariant
            all == spans(cs@, ws@),
            ranges_within(ws@, 0, cs@.len() as int),
            2 <= t <= ws@.len(),
            opt_view(product) == attribute(all.skip(2).take(t - 2), "product:"@),
            opt_view(model) == attribute(all.skip(2).take(t - 2), "model:"@),
            opt_view(device) == attribute(all.skip(2).take(t - 2), "device:"@),
            opt_view(transport_id) == attribute(all.skip(2).take(t - 2), "transport_id:"@),
        decreases ws@.len() - t,
    {
        let (a, b) = ws[t];
        let ghost w = cs@.subrange(a as int, b as int);
        let ghost next = all.skip(2).take(t - 1);
        assert(next.drop_last() =~= all.skip(2).take(t - 2));
        assert(next.last() == w);
        proof {
            lemma_keys_exclusive(w);
            reveal_strlit("product:");
            reveal_strlit("model:");
            reveal_strlit("device:");
            reveal_strlit("transport_id:");
        }
        if span_starts_with(cs, a, b, "product:") {
            product = Some(string_of(cs, a + 8, b));
            assert(cs@.subrange(a + 8, b as int) =~= w.skip(8));
        } else if span_starts_with(cs, a, b, "model:") {
            model = Some(string_of(cs, a + 6, b));
            assert(cs@.subrange(a + 6, b as int) =~= w.skip(6));
        } else if span_starts_with(cs, a, b, "device:") {
            device = Some(string_of(cs, a + 7, b));
            assert(cs@.subrange(a + 7, b as int) =~= w.skip(7));
        } else if span_starts_with(cs, a, b, "transport_id:") {
            transport_id = Some(string_of(cs, a + 13, b));
            assert(cs@.subrange(a + 13, b as int) =~= w.skip(13));
        }
        t = t + 1;
    }
    assert(all.skip(2).take(t - 2) =~= all.skip(2));
    AdbDevice { serial, state, product, model, device, transport_id }
}

/// Parse the output of `adb devices -l`: after the banner line, each
/// non-blank line is a serial, a state and `key:value` attributes.
pub fn parse_adb_devices(output: &str) -> (r: Result<Vec<AdbDevice>, AdbParseError>)
    ensures
        match r {
            Ok(v) => spec_parse_adb(output@) == Ok::<Seq<DeviceView>, AdbParseError>(
                v@.map_values(|d: AdbDevice| d@),
            ),
            Err(e) => spec_parse_adb(output@) == Err::<Seq<DeviceView>, AdbParseError>(e),
        },
{
    let cs = chars_of(output);
    let lines = line_ranges(&cs);
    let ghost ls = spans(cs@, lines@);
    let mut devices: Vec<AdbDevice> = Vec::new();
    let mut k: usize = 1;
    proof {
        assert(ls.len() >= 1) by {
            assert(ls == split_lines(cs@));
            lemma_lines_exist(cs@);
        }
    }
    assert(ls.subrange(1, 1) =~= Seq::<Seq<char>>::empty());
    assert(devices@.map_values(|d: AdbDevice| d@) =~= Seq::<DeviceView>::empty());
    while k < lines.len()
        invariant
            ls == spans(cs@, lines@),
            ls == split_lines(output@),
            ranges_within(lines@, 0, cs@.len() as int),
            1 <= k <= lines@.len(),
            parse_lines(ls.subrange(1, k as int)) == Ok::<Seq<DeviceView>, AdbParseError>(
                devices@.map_values(|d: AdbDevice| d@),
            ),
        decreases lines@.len() - k,
    {
        let (a, b) = lines[k];
        let ws = word_ranges(&cs, a, b);
        let ghost next = ls.subrange(1, k as int + 1);
        assert(next.drop_last() =~= ls.subrange(1, k as int));
        assert(next.last() == cs@.subrange(a as int, b as int));
        if ws.len() == 1 {
            assert(ls.subrange(1, k as int + 1) == next);
            proof {
                lemma_parse_error_sticks(ls.skip(1), k as int);
            }
            return Err(AdbParseError::MissingState);
        }
        if ws.len() >= 2 {
            proof {
                assert forall|q: int| 0 <= q < ws@.len() implies 0 <= (#[trigger] ws@[q]).0 <= ws@[q].1
                    <= cs@.len() by {}
            }
            let d = device_from(&cs, &ws);
            let ghost before = devices@;
            devices.push(d);
            assert(devices@.map_values(|x: AdbDevice| x@) =~= before.map_values(|x: AdbDevice| x@).push(d@));
        }
        k = k + 1;
    }
    assert(ls.subrange(1, k as int) =~= ls.skip(1));
    Ok(devices)
}

proof fn lemma_lines_exist(s: Seq<char>)
    ensures
        split_lines(s).len() >= 1,
    decreases s.len(),
{
    if s.len() > 0 {
        lemma_lines_exist(s.drop_last());
    }
}

/// Once a line fails, every longer list of lines fails with it.
proof fn lemma_parse_error_sticks(lines: Seq<Seq<char>>, k: int)
    requires
        1 <= k <= lines.len(),
        parse_lines(lines.take(k)) is Err,
    ensures
        parse_lines(lines) == parse_lines(lines.take(k)),
    decreases lines.len() - k,
{
    if k < lines.len() {
        assert(lines.take(k + 1).drop_last() =~= lines.take(k));
        lemma_parse_error_sticks(lines, k + 1);
    } else {
        assert(lines.take(k) =~= lines);
    }
}

/// `v` is what the words `ws` give for `key`: `None` when no word begins with
/// `key`; otherwise the rest, after `key`, of the last word that does.
pub open spec fn keyed_value(ws: Seq<Seq<char>>, key: Seq<char>, v: Option<Seq<char>>) -> bool {
    match v {
        None => forall|i: int| 0 <= i < ws.len() ==> !key.is_prefix_of(#[trigger] ws[i]),
        Some(x) => exists|i: int|
            0 <= i < ws.len() && #[trigger] ws[i] == key + x && forall|j: int|
                i < j < ws.len() ==> !key.is_prefix_of(#[trigger] ws[j]),
    }
}

proof fn lemma_attribute_keyed(ws: Seq<Seq<char>>, key: Seq<char>)
    ensures
        keyed_value(ws, key, attribute(ws, key)),
    decreases ws.len(),
{
    if ws.len() > 0 {
        let n = ws.len() - 1;
        if key.is_prefix_of(ws.last()) {
            let x = ws.last().skip(key.len() as int);
            assert(ws.last().subrange(0, key.len() as int) == key);
            assert(ws[n] =~= key + x);
        } else {
            let t = ws.drop_last();
            lemma_attribute_keyed(t, key);
            match attribute(t, key) {
                None => {
                    assert forall|i: int| 0 <= i < ws.len() implies !key.is_prefix_of(#[trigger] ws[i]) by {
                        if i < n {
                            assert(ws[i] == t[i]);
                        }
                    }
                },
                Some(x) => {
                    let i = choose|i: int|
                        0 <= i < t.len() && #[trigger] t[i] == key + x && forall|j: int|
                            i < j < t.len() ==> !key.is_prefix_of(#[trigger] t[j]);
                    assert(ws[i] == t[i]);
                    assert forall|j: int| i < j < ws.len() implies !key.is_prefix_of(#[trigger] ws[j]) by {
                        if j < n {
                            assert(ws[j] == t[j]);
                        }
                    }
                },
            }
        }
    }
}

/// A device line is read word by word: the first word is the serial, the
/// second the state, and each of `product`, `model`, `device` and
/// `transport_id` is the value of the last later word that begins with that
/// key and a colon, or absent when no such word follows.
pub proof fn lemma_device_line_fields(ws: Seq<Seq<char>>)
    requires
        ws.len() >= 2,
    ensures
        device_of(ws).serial == ws[0],
        device_of(ws).state == spec_state(ws[1]),
        keyed_value(ws.skip(2), "product:"@, device_of(ws).product),
        keyed_value(ws.skip(2), "model:"@, device_of(ws).model),
        keyed_value(ws.skip(2), "device:"@, device_of(ws).device),
        keyed_value(ws.skip(2), "transport_id:"@, device_of(ws).transport_id),
{
    lemma_attribute_keyed(ws.skip(2), "product:"@);
    lemma_attribute_keyed(ws.skip(2), "model:"@);
    lemma_attribute_keyed(ws.skip(2), "device:"@);
    lemma_attribute_keyed(ws.skip(2), "transport_id:"@);
}

} // verus!
