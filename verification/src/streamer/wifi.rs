//! Wi-Fi devices: parsing the address a user gives (bare IP, `ip:port`, or
//! the JSON of the tablet's QR code), certificate fingerprints, and the
//! trust-on-first-use decision on the tablet's certificate.

use vstd::prelude::*;
use vstd::string::*;

use crate::streamer::pairing::PairingStore;
use crate::transport::packet::{PacketKind, TransportPacket};
use crate::text::{
    chars_of, decimal, find, find_chars, last_index, last_index_chars, leading_digits,
    leading_digits_chars, parse_u16, parse_u16_chars, push_char, push_decimal, string_of,
    sub_chars, trim, trim_chars, trim_start, trim_start_chars,
};

verus! {

/// Default TCP port of the tablet's Wi-Fi listener.
pub const DEFAULT_WIFI_PORT: u16 = 27184;

/// A tablet reachable over the LAN. The pairing PIN is entered separately and
/// never taken from the QR code alone.
#[derive(Debug, Clone, PartialEq, Eq)]
pub struct WifiDevice {
    pub ip: String,
    pub port: u16,
    pub fingerprint: Option<String>,
}

/// A [`WifiDevice`] with its text as characters.
pub ghost struct WifiDeviceView {
    pub ip: Seq<char>,
    pub port: u16,
    pub fingerprint: Option<Seq<char>>,
}

impl View for WifiDevice {
    type V = WifiDeviceView;

    open spec fn view(&self) -> WifiDeviceView {
        WifiDeviceView {
            ip: self.ip@,
            port: self.port,
            fingerprint: match self.fingerprint {
                Some(f) => Some(f@),
                None => None,
            },
        }
    }
}

/// `ip:port`.
pub open spec fn addr_of(ip: Seq<char>, port: u16) -> Seq<char> {
    ip + seq![':'] + decimal(port as nat)
}

impl WifiDevice {
    /// The device's `ip:port`.
    pub fn addr(&self) -> (r: String)
        ensures
            r@ == addr_of(self.ip@, self.port),
    {
        let mut s = self.ip.clone();
        push_char(&mut s, ':');
        push_decimal(&mut s, self.port as u64);
        assert(s@ =~= addr_of(self.ip@, self.port));
        s
    }
}

/// Why a device address was refused; each carries the trimmed address where
/// its message quotes it.
#[derive(Debug, Clone, PartialEq, Eq)]
pub enum WifiAddressError {
    Empty,
    InvalidPort(String),
    InvalidAddress(String),
    MissingIp,
}

/// A [`WifiAddressError`] with its text as characters.
pub ghost enum AddressErrorView {
    Empty,
    InvalidPort(Seq<char>),
    InvalidAddress(Seq<char>),
    MissingIp,
}

impl View for WifiAddressError {
    type V = AddressErrorView;

    open spec fn view(&self) -> AddressErrorView {
        match self {
            WifiAddressError::Empty => AddressErrorView::Empty,
            WifiAddressError::InvalidPort(s) => AddressErrorView::InvalidPort(s@),
            WifiAddressError::InvalidAddress(s) => AddressErrorView::InvalidAddress(s@),
            WifiAddressError::MissingIp => AddressErrorView::MissingIp,
        }
    }
}

impl WifiAddressError {
    /// The message of the error.
    pub open spec fn message_view(self) -> Seq<char> {
        match self@ {
            AddressErrorView::Empty => "empty wifi device address"@,
            AddressErrorView::InvalidPort(s) => "invalid port in '"@ + s + "'"@,
            AddressErrorView::InvalidAddress(s) => "invalid wifi device address '"@ + s + "'"@,
            AddressErrorView::MissingIp => "wifi QR payload missing \"ip\""@,
        }
    }

    /// The message of the error.
    pub fn message(&self) -> (r: String)
        ensures
            r@ == self.message_view(),
    {
        match self {
            WifiAddressError::Empty => String::from_str("empty wifi device address"),
            WifiAddressError::InvalidPort(s) => {
                let mut m = String::from_str("invalid port in '");
                m.append(s.as_str());
                m.append("'");
                m
            },
            WifiAddressError::InvalidAddress(s) => {
                let mut m = String::from_str("invalid wifi device address '");
                m.append(s.as_str());
                m.append("'");
                m
            },
            WifiAddressError::MissingIp => String::from_str("wifi QR payload missing \"ip\""),
        }
    }
}

/// The text after the first `:` that follows `key`, without leading
/// whitespace.
pub open spec fn json_value_text(s: Seq<char>, key: Seq<char>) -> Option<Seq<char>> {
    match find(s, key) {
        None => None,
        Some(kp) => {
            let after = s.skip(kp + key.len());
            match find(after, seq![':']) {
                None => None,
                Some(c) => Some(trim_start(after.skip(c + 1))),
            }
        },
    }
}

/// The string value of `key` in a flat JSON object: the characters between
/// the quotes that open the value and the next quote.
pub open spec fn json_string(s: Seq<char>, key: Seq<char>) -> Option<Seq<char>> {
    match json_value_text(s, key) {
        None => None,
        Some(v) => if v.len() == 0 || v[0] != '"' {
            None
        } else {
            match find(v.skip(1), seq!['"']) {
                None => None,
                Some(e) => Some(v.subrange(1, 1 + e)),
            }
        },
    }
}

/// The `u16` value of `key` in a flat JSON object: its leading digits.
pub open spec fn json_u16(s: Seq<char>, key: Seq<char>) -> Option<u16> {
    match json_value_text(s, key) {
        None => None,
        Some(v) => parse_u16(leading_digits(v)),
    }
}

/// What [`parse_device`] gives for an address: the JSON of a QR code when it
/// starts with `{`; else `ip:port`, split at the last `:`; else a bare IP on
/// the default port.
pub open spec fn spec_parse_device(s: Seq<char>) -> Result<WifiDeviceView, AddressErrorView> {
    let t = trim(s);
    if t.len() == 0 {
        Err(AddressErrorView::Empty)
    } else if t[0] == '{' {
        match json_string(t, "\"ip\""@) {
            None => Err(AddressErrorView::MissingIp),
            Some(ip) => Ok(
                WifiDeviceView {
                    ip,
                    port: match json_u16(t, "\"port\""@) {
                        Some(p) => p,
                        None => DEFAULT_WIFI_PORT,
                    },
                    fingerprint: json_string(t, "\"fp\""@),
                },
            ),
        }
    } else {
        match last_index(t, ':') {
            Some(i) => match parse_u16(t.skip(i + 1)) {
                None => Err(AddressErrorView::InvalidPort(t)),
                Some(port) => if i == 0 {
                    Err(AddressErrorView::InvalidAddress(t))
                } else {
                    Ok(WifiDeviceView { ip: t.take(i), port, fingerprint: None })
                },
            },
            None => Ok(WifiDeviceView { ip: t, port: DEFAULT_WIFI_PORT, fingerprint: None }),
        }
    }
}

/// The text of `key`'s value in `cs`, as [`json_value_text`] describes it.
fn json_value_chars(cs: &Vec<char>, key: &str) -> (r: Option<Vec<char>>)
    ensures
        match r {
            Some(v) => json_value_text(cs@, key@) == Some(v@),
            None => json_value_text(cs@, key@) is None,
        },
{
    let kp = match find_chars(cs, key) {
        Some(k) => k,
        None => {
            return None;
        },
    };
    let m = key.unicode_len();
    let len = cs.len();
    let after = sub_chars(cs, kp + m, len);
    assert(after@ =~= cs@.skip(kp + key@.len()));
    let c = match find_chars(&after, ":") {
        Some(c) => c,
        None => {
            proof {
                reveal_strlit(":");
                assert(":"@ =~= seq![':']);
            }
            return None;
        },
    };
    proof {
        reveal_strlit(":");
        assert(":"@ =~= seq![':']);
    }
    let rest = sub_chars(&after, c + 1, after.len());
    assert(rest@ =~= after@.skip(c + 1));
    Some(trim_start_chars(&rest))
}

fn json_string_chars(cs: &Vec<char>, key: &str) -> (r: Option<String>)
    ensures
        match r {
            Some(v) => json_string(cs@, key@) == Some(v@),
            None => json_string(cs@, key@) is None,
        },
{
    let v = match json_value_chars(cs, key) {
        Some(v) => v,
        None => {
            return None;
        },
    };
    if v.len() == 0 || v[0] != '"' {
        return None;
    }
    let inner = sub_chars(&v, 1, v.len());
    assert(inner@ =~= v@.skip(1));
    proof {
        reveal_strlit("\"");
        assert("\""@ =~= seq!['"']);
    }
    match find_chars(&inner, "\"") {
        Some(e) => {
            assert(v@.subrange(1, 1 + e) =~= inner@.subrange(0, e as int));
            Some(string_of(&inner, 0, e))
        },
        None => None,
    }
}

fn json_u16_chars(cs: &Vec<char>, key: &str) -> (r: Option<u16>)
    ensures
        r == json_u16(cs@, key@),
{
    match json_value_chars(cs, key) {
        Some(v) => {
            let digits = leading_digits_chars(&v);
            parse_u16_chars(&digits)
        },
        None => None,
    }
}

/// Whether a device address was given: present and not blank. The Wi-Fi
/// transport does not start without one.
pub fn device_ip_given(raw: Option<&str>) -> (r: bool)
    ensures
        r == (match raw {
            Some(s) => trim(s@).len() > 0,
            None => false,
        }),
{
    match raw {
        Some(s) => {
            let cs = chars_of(s);
            trim_chars(&cs).len() > 0
        },
        None => false,
    }
}

/// Parse the address of a Wi-Fi device: a bare IP (default port), `ip:port`,
/// or the JSON of the tablet's QR code
/// (`{"v":1,"ip":"192.168.1.42","port":27184,"fp":"SHA256:…"}`).
pub fn parse_device(s: &str) -> (r: Result<WifiDevice, WifiAddressError>)
    ensures
        match r {
            Ok(d) => spec_parse_device(s@) == Ok::<WifiDeviceView, AddressErrorView>(d@),
            Err(e) => spec_parse_device(s@) == Err::<WifiDeviceView, AddressErrorView>(e@),
        },
{
    let all = chars_of(s);
    let t = trim_chars(&all);
    let n = t.len();
    if n == 0 {
        return Err(WifiAddressError::Empty);
    }
    if t[0] == '{' {
        proof {
            reveal_strlit("\"ip\"");
            reveal_strlit("\"port\"");
            reveal_strlit("\"fp\"");
        }
        let ip = match json_string_chars(&t, "\"ip\"") {
            Some(ip) => ip,
            None => {
                return Err(WifiAddressError::MissingIp);
            },
        };
        let port = match json_u16_chars(&t, "\"port\"") {
            Some(p) => p,
            None => DEFAULT_WIFI_PORT,
        };
        let fingerprint = json_string_chars(&t, "\"fp\"");
        return Ok(WifiDevice { ip, port, fingerprint });
    }
    match last_index_chars(&t, ':') {
        Some(i) => {
            let port_text = sub_chars(&t, i + 1, n);
            assert(port_text@ =~= t@.skip(i + 1));
            match parse_u16_chars(&port_text) {
                None => {
                    assert(t@.subrange(0, n as int) =~= t@);
                    Err(WifiAddressError::InvalidPort(string_of(&t, 0, n)))
                },
                Some(port) => {
                    if i == 0 {
                        assert(t@.subrange(0, n as int) =~= t@);
                        return Err(WifiAddressError::InvalidAddress(string_of(&t, 0, n)));
                    }
                    let d = WifiDevice { ip: string_of(&t, 0, i), port, fingerprint: None };
                    assert(d@.ip == t@.take(i as int));
                    Ok(d)
                },
            }
        },
        None => {
            assert(t@.subrange(0, n as int) =~= t@);
            let d = WifiDevice { ip: string_of(&t, 0, n), port: DEFAULT_WIFI_PORT, fingerprint: None };
            Ok(d)
        },
    }
}


/// The SHA-256 digest of `data`.
pub uninterp spec fn sha256_digest(data: Seq<u8>) -> Seq<u8>;

/// The SHA-256 digest of `data`, 32 bytes.
///
/// Wraps `<sha2::Sha256 as sha2::Digest>::digest`, whose output type holds 32
/// bytes; the digest itself is named by [`sha256_digest`], not stated.
#[verifier::external_body]
fn sha256(data: &[u8]) -> (r: Vec<u8>)
    ensures
        r@ == sha256_digest(data@),
        r@.len() == 32,
{
    <sha2::Sha256 as sha2::Digest>::digest(data).to_vec()
}

/// The lowercase hex digit for `n < 16`.
pub open spec fn hex_digit(n: int) -> char {
    if n < 10 {
        (48 + n) as char
    } else {
        (87 + n) as char
    }
}

/// Two lowercase hex digits per byte, the high nibble first.
pub open spec fn hex_of(b: Seq<u8>) -> Seq<char> {
    Seq::new(
        2 * b.len(),
        |i: int|
            if i % 2 == 0 {
                hex_digit((b[i / 2] >> 4) as int)
            } else {
                hex_digit((b[i / 2] & 0x0f) as int)
            },
    )
}

/// The bytes of `bytes` in lowercase hex.
///
/// Wraps `hex::encode`, which maps each byte to two characters of
/// `0123456789abcdef`, the high nibble first.
#[verifier::external_body]
fn hex_lower(bytes: &[u8]) -> (r: String)
    ensures
        r@ == hex_of(bytes@),
{
    hex::encode(bytes)
}

/// `SHA256:` and the lowercase hex of the SHA-256 of a DER certificate.
pub open spec fn fingerprint_of(cert_der: Seq<u8>) -> Seq<char> {
    "SHA256:"@ + hex_of(sha256_digest(cert_der))
}

/// The fingerprint of a DER certificate: `SHA256:` and 64 lowercase hex
/// digits.
pub fn certificate_fingerprint(cert_der: &[u8]) -> (r: String)
    ensures
        r@ == fingerprint_of(cert_der@),
        r@.len() == 71,
{
    let digest = sha256(cert_der);
    let hex = hex_lower(digest.as_slice());
    let mut s = String::from_str("SHA256:");
    s.append(hex.as_str());
    proof {
        reveal_strlit("SHA256:");
    }
    s
}

/// The short display form of a fingerprint: `SHA256:`, the first 16
/// characters of its hex part, and an ellipsis.
pub open spec fn short_fingerprint(fp: Seq<char>) -> Seq<char> {
    let hexpart = if "SHA256:"@.is_prefix_of(fp) {
        fp.skip("SHA256:"@.len() as int)
    } else {
        fp
    };
    let shown = if hexpart.len() <= 16 {
        hexpart
    } else {
        hexpart.take(16)
    };
    "SHA256:"@ + shown + "\u{2026}"@
}

/// The short display form of a fingerprint, `SHA256:xxxx…`.
pub fn fingerprint_short(fp: &str) -> (r: String)
    ensures
        r@ == short_fingerprint(fp@),
{
    let cs = chars_of(fp);
    let n = cs.len();
    let start: usize = if crate::text::span_starts_with(&cs, 0, n, "SHA256:") {
        7
    } else {
        0
    };
    proof {
        reveal_strlit("SHA256:");
        assert(cs@.subrange(0, n as int) =~= cs@);
    }
    let end = if n - start <= 16 {
        n
    } else {
        start + 16
    };
    let shown = string_of(&cs, start, end);
    let mut s = String::from_str("SHA256:");
    s.append(shown.as_str());
    s.append("\u{2026}");
    proof {
        let hexpart = cs@.skip(start as int);
        if n - start <= 16 {
            assert(cs@.subrange(start as int, end as int) =~= hexpart);
        } else {
            assert(cs@.subrange(start as int, end as int) =~= hexpart.take(16));
        }
    }
    s
}

/// `c` with an ASCII capital turned lowercase.
pub open spec fn ascii_lower(c: char) -> char {
    if 'A' <= c <= 'Z' {
        ((c as int) + 32) as char
    } else {
        c
    }
}

/// The two strings are equal but for the case of ASCII letters, as
/// `str::eq_ignore_ascii_case` decides.
pub open spec fn same_ignoring_ascii_case(a: Seq<char>, b: Seq<char>) -> bool {
    a.len() == b.len() && forall|i: int| 0 <= i < a.len() ==> ascii_lower(#[trigger] a[i]) == ascii_lower(b[i])
}

fn lower_char(c: char) -> (r: char)
    ensures
        r == ascii_lower(c),
{
    if 'A' <= c && c <= 'Z' {
        ((c as u8) + 32) as char
    } else {
        c
    }
}

/// Case-insensitive comparison of two fingerprints.
pub fn fingerprint_equal(a: &str, b: &str) -> (r: bool)
    ensures
        r == same_ignoring_ascii_case(a@, b@),
{
    let x = chars_of(a);
    let y = chars_of(b);
    if x.len() != y.len() {
        return false;
    }
    let mut i: usize = 0;
    while i < x.len()
        invariant
            x@ == a@,
            y@ == b@,
            x@.len() == y@.len(),
            i <= x@.len(),
            forall|k: int| 0 <= k < i ==> ascii_lower(#[trigger] x@[k]) == ascii_lower(y@[k]),
        decreases x@.len() - i,
    {
        if lower_char(x[i]) != lower_char(y[i]) {
            return false;
        }
        i = i + 1;
    }
    true
}

/// Whether a certificate is trusted: a fingerprint pinned at an earlier
/// pairing decides; else the one from the QR code; with neither, no
/// certificate is trusted.
pub open spec fn certificate_trusted(
    cert_der: Seq<u8>,
    stored: Option<Seq<char>>,
    qr: Option<Seq<char>>,
) -> bool {
    match stored {
        Some(s) => same_ignoring_ascii_case(fingerprint_of(cert_der), s),
        None => match qr {
            Some(q) => same_ignoring_ascii_case(fingerprint_of(cert_der), q),
            None => false,
        },
    }
}

/// Once a fingerprint is pinned for a tablet, only a certificate with that
/// fingerprint (ignoring ASCII case) is trusted, whatever its QR code says:
/// a rotated certificate is refused.
pub proof fn lemma_pin_decides_trust(cert_der: Seq<u8>, pinned: Seq<char>, qr: Option<Seq<char>>)
    ensures
        certificate_trusted(cert_der, Some(pinned), qr) == same_ignoring_ascii_case(
            fingerprint_of(cert_der),
            pinned,
        ),
{
}

/// The characters of an optional string slice.
pub open spec fn opt_str_view(o: Option<&str>) -> Option<Seq<char>> {
    match o {
        Some(s) => Some(s@),
        None => None,
    }
}

/// The trust decision on the tablet's certificate during the TLS handshake.
pub fn accept_certificate(cert_der: &[u8], stored: Option<&str>, qr: Option<&str>) -> (r: bool)
    ensures
        r == certificate_trusted(cert_der@, opt_str_view(stored), opt_str_view(qr)),
{
    let fingerprint = certificate_fingerprint(cert_der);
    match stored {
        Some(s) => fingerprint_equal(fingerprint.as_str(), s),
        None => match qr {
            Some(q) => fingerprint_equal(fingerprint.as_str(), q),
            None => false,
        },
    }
}


/// What the tablet answered to the pairing Hello: the fields the host reads,
/// and the whole JSON text for messages.
#[derive(Debug, Clone)]
pub struct Welcome {
    pub accept: Option<bool>,
    pub reason: Option<String>,
    pub fp: Option<String>,
    pub json: String,
}

/// Why pairing failed after the TLS handshake.
#[derive(Debug, Clone, PartialEq, Eq)]
pub enum HandshakeError {
    /// The tablet answered with a packet of another kind.
    UnexpectedKind(PacketKind),
    /// The tablet refused the PIN (or locked out after wrong ones).
    WrongPin(String),
    /// The tablet refused for another reason; carries its whole answer.
    Rejected(String),
    /// The tablet's answer is not JSON.
    MalformedWelcome,
}

/// The name of a packet kind.
pub open spec fn kind_name(k: PacketKind) -> Seq<char> {
    match k {
        PacketKind::FrameFragment => "FrameFragment"@,
        PacketKind::Ack => "Ack"@,
        PacketKind::Heartbeat => "Heartbeat"@,
        PacketKind::KeyframeRequest => "KeyframeRequest"@,
        PacketKind::Control => "Control"@,
        PacketKind::Handshake => "Handshake"@,
    }
}

fn kind_name_str(k: PacketKind) -> (r: &'static str)
    ensures
        r@ == kind_name(k),
{
    match k {
        PacketKind::FrameFragment => "FrameFragment",
        PacketKind::Ack => "Ack",
        PacketKind::Heartbeat => "Heartbeat",
        PacketKind::KeyframeRequest => "KeyframeRequest",
        PacketKind::Control => "Control",
        PacketKind::Handshake => "Handshake",
    }
}

impl HandshakeError {
    /// The message of the error.
    pub open spec fn message_view(&self) -> Seq<char> {
        match self {
            HandshakeError::UnexpectedKind(k) => "Expected Handshake packet, got "@ + kind_name(*k),
            HandshakeError::WrongPin(reason) => "Handshake rejected by tablet ("@ + reason@
                + "); wrong PIN? 3 strikes triggers a 30s lockout \u{2014} re-run with the current PIN from the tablet pair screen"@,
            HandshakeError::Rejected(json) => "Handshake rejected by tablet: "@ + json@,
            HandshakeError::MalformedWelcome => "Failed to parse Welcome JSON"@,
        }
    }

    /// The message of the error.
    pub fn message(&self) -> (r: String)
        ensures
            r@ == self.message_view(),
    {
        match self {
            HandshakeError::UnexpectedKind(k) => {
                let mut m = String::from_str("Expected Handshake packet, got ");
                m.append(kind_name_str(*k));
                m
            },
            HandshakeError::WrongPin(reason) => {
                let mut m = String::from_str("Handshake rejected by tablet (");
                m.append(reason.as_str());
                m.append(
                    "); wrong PIN? 3 strikes triggers a 30s lockout \u{2014} re-run with the current PIN from the tablet pair screen",
                );
                m
            },
            HandshakeError::Rejected(json) => {
                let mut m = String::from_str("Handshake rejected by tablet: ");
                m.append(json.as_str());
                m
            },
            HandshakeError::MalformedWelcome => String::from_str("Failed to parse Welcome JSON"),
        }
    }
}

/// The tablet must answer the Hello with a handshake packet.
pub fn check_welcome_kind(packet: &TransportPacket) -> (r: Result<(), HandshakeError>)
    ensures
        packet@.header.kind == PacketKind::Handshake ==> r is Ok,
        packet@.header.kind != PacketKind::Handshake ==> r == Err::<(), HandshakeError>(
            HandshakeError::UnexpectedKind(packet@.header.kind),
        ),
{
    match packet.header.kind {
        PacketKind::Handshake => Ok(()),
        k => Err(HandshakeError::UnexpectedKind(k)),
    }
}

/// The fields of a Welcome as plain values: `accept`, `reason`, `fp`, and
/// the whole JSON text.
pub type WelcomeFields = (Option<bool>, Option<Seq<char>>, Option<Seq<char>>, Seq<char>);

/// What `serde_json` reads from the bytes of a Welcome: its `accept` flag
/// (when a boolean), `reason` and `fp` (when strings) and its JSON text, or
/// nothing when the bytes are not JSON.
pub uninterp spec fn welcome_fields(payload: Seq<u8>) -> Option<WelcomeFields>;

/// The fields of a Welcome as plain values.
pub open spec fn welcome_view(w: Welcome) -> WelcomeFields {
    (
        w.accept,
        match w.reason {
            Some(s) => Some(s@),
            None => None,
        },
        match w.fp {
            Some(s) => Some(s@),
            None => None,
        },
        w.json@,
    )
}

/// Parses a Welcome payload with `serde_json::from_slice` into a JSON value
/// and reads `accept` with `as_bool`, `reason` and `fp` with `as_str`, and
/// the text with `to_string`. The result depends on the bytes alone and is
/// named by [`welcome_fields`]; `None` is serde_json's parse error.
#[verifier::external_body]
fn parse_welcome(payload: &[u8]) -> (r: Option<Welcome>)
    ensures
        match r {
            Some(w) => welcome_fields(payload@) == Some(welcome_view(w)),
            None => welcome_fields(payload@) is None,
        },
{
    match serde_json::from_slice::<serde_json::Value>(payload) {
        Ok(v) => Some(Welcome {
            accept: v["accept"].as_bool(),
            reason: v["reason"].as_str().map(|s| s.to_string()),
            fp: v["fp"].as_str().map(|s| s.to_string()),
            json: v.to_string(),
        }),
        Err(_) => None,
    }
}

/// The tablet's Welcome: it must be a handshake packet whose payload is
/// JSON.
pub fn read_welcome(packet: &TransportPacket) -> (r: Result<Welcome, HandshakeError>)
    ensures
        packet@.header.kind != PacketKind::Handshake ==> r == Err::<Welcome, HandshakeError>(
            HandshakeError::UnexpectedKind(packet@.header.kind),
        ),
        packet@.header.kind == PacketKind::Handshake ==> match welcome_fields(packet@.payload) {
            None => r == Err::<Welcome, HandshakeError>(HandshakeError::MalformedWelcome),
            Some(f) => r matches Ok(w) && welcome_view(w) == f,
        },
{
    check_welcome_kind(packet)?;
    match parse_welcome(packet.payload.as_slice()) {
        Some(w) => Ok(w),
        None => Err(HandshakeError::MalformedWelcome),
    }
}

/// The reason a refusal gives, `rejected` when it gives none.
pub open spec fn refusal_reason(reason: Option<Seq<char>>) -> Seq<char> {
    match reason {
        Some(r) => r,
        None => "rejected"@,
    }
}

/// What the Welcome decides: pairing goes on only when it accepts; a refusal
/// whose reason mentions `lockout` or `pin` is a wrong PIN.
pub open spec fn spec_welcome_verdict(accept: Option<bool>, reason: Option<Seq<char>>, json: Seq<char>) -> Result<(), (bool, Seq<char>)> {
    if accept == Some(true) {
        Ok(())
    } else {
        let r = refusal_reason(reason);
        if find(r, "lockout"@) is Some || find(r, "pin"@) is Some {
            Err((true, r))
        } else {
            Err((false, json))
        }
    }
}

/// Whether the tablet's Welcome lets pairing go on.
pub fn welcome_verdict(welcome: &Welcome) -> (r: Result<(), HandshakeError>)
    ensures
        ({
            let spec = spec_welcome_verdict(
                welcome.accept,
                match welcome.reason {
                    Some(s) => Some(s@),
                    None => None,
                },
                welcome.json@,
            );
            match r {
                Ok(()) => spec is Ok,
                Err(HandshakeError::WrongPin(s)) => spec == Err::<(), (bool, Seq<char>)>((true, s@)),
                Err(HandshakeError::Rejected(s)) => spec == Err::<(), (bool, Seq<char>)>((false, s@)),
                Err(HandshakeError::UnexpectedKind(_)) => false,
                Err(HandshakeError::MalformedWelcome) => false,
            }
        }),
{
    if welcome.accept == Some(true) {
        return Ok(());
    }
    let reason = match &welcome.reason {
        Some(s) => s.clone(),
        None => String::from_str("rejected"),
    };
    let cs = chars_of(reason.as_str());
    if find_chars(&cs, "lockout").is_some() || find_chars(&cs, "pin").is_some() {
        return Err(HandshakeError::WrongPin(reason));
    }
    Err(HandshakeError::Rejected(welcome.json.clone()))
}

/// The fingerprint to pin after a successful pairing: the live peer
/// certificate's, else the one the Welcome carries.
pub open spec fn pinned_fingerprint(peer_cert: Option<Seq<u8>>, welcome_fp: Option<Seq<char>>) -> Option<Seq<char>> {
    match peer_cert {
        Some(c) => Some(fingerprint_of(c)),
        None => welcome_fp,
    }
}

/// Pin the tablet's fingerprint on its first successful pairing. Returns
/// whether the store changed (and should be saved).
pub fn pin_after_welcome(
    store: &mut PairingStore,
    tablet_id: &str,
    tablet_ip: &str,
    peer_cert: Option<&[u8]>,
    welcome_fp: Option<&str>,
) -> (r: bool)
    ensures
        old(store).entry(tablet_id@) is Some ==> !r && final(store)@ == old(store)@,
        old(store).entry(tablet_id@) is None ==> (r <==> pinned_fingerprint(
            match peer_cert {
                Some(c) => Some(c@),
                None => None,
            },
            opt_str_view(welcome_fp),
        ) is Some),
        old(store).entry(tablet_id@) is None && !r ==> final(store)@ == old(store)@,
        r ==> (final(store).entry(tablet_id@) matches Some(e) && e.tablet_id == tablet_id@ && e.ip
            == tablet_ip@ && Some(e.cert_fingerprint) == pinned_fingerprint(
            match peer_cert {
                Some(c) => Some(c@),
                None => None,
            },
            opt_str_view(welcome_fp),
        )),
        forall|k: Seq<char>| k != tablet_id@ ==> final(store).entry(k) == old(store).entry(k),
{
    if store.is_paired(tablet_id) {
        return false;
    }
    let fp = match peer_cert {
        Some(cert) => Some(certificate_fingerprint(cert)),
        None => match welcome_fp {
            Some(f) => Some(String::from_str(f)),
            None => None,
        },
    };
    match fp {
        Some(f) => {
            store.remember(tablet_id, tablet_ip, f.as_str());
            true
        },
        None => false,
    }
}

} // verus!
