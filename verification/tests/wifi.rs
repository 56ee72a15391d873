use usbdisplay::streamer::pairing::PairingStore;
use usbdisplay::streamer::wifi::{
    accept_certificate, certificate_fingerprint, check_welcome_kind, device_ip_given, fingerprint_equal,
    fingerprint_short, parse_device, pin_after_welcome, read_welcome, welcome_verdict, HandshakeError, Welcome,
    WifiAddressError, DEFAULT_WIFI_PORT,
};
use usbdisplay::transport::{PacketKind, TransportPacket};

#[test]
fn parses_bare_ip_with_default_port() {
    let d = parse_device("192.168.1.42").unwrap();
    assert_eq!(d.ip, "192.168.1.42");
    assert_eq!(d.port, DEFAULT_WIFI_PORT);
    assert_eq!(d.fingerprint, None);
}

#[test]
fn parses_ip_colon_port() {
    let d = parse_device("192.168.1.42:27184").unwrap();
    assert_eq!(d.addr(), "192.168.1.42:27184");
}

#[test]
fn parses_json_qr_payload() {
    let d = parse_device(r#"{"v":1,"ip":"192.168.1.42","port":27184,"fp":"SHA256:abcd"}"#).unwrap();
    assert_eq!(d.ip, "192.168.1.42");
    assert_eq!(d.port, 27184);
    assert_eq!(d.fingerprint.as_deref(), Some("SHA256:abcd"));
}

#[test]
fn rejects_empty_address() {
    assert!(parse_device("  ").is_err());
}

#[test]
fn fingerprint_is_full_sha256() {
    let fp = certificate_fingerprint(b"test-cert-bytes");
    assert!(fp.starts_with("SHA256:"));
    assert_eq!(fp.len(), "SHA256:".len() + 64);
    let short = fingerprint_short(&fp);
    assert!(short.starts_with("SHA256:"));
}

#[test]
fn fingerprint_of_known_input() {
    // SHA-256 of the empty string.
    assert_eq!(
        certificate_fingerprint(b""),
        "SHA256:e3b0c44298fc1c149afbf4c8996fb92427ae41e4649b934ca495991b7852b855"
    );
    assert_eq!(fingerprint_short("SHA256:0123456789abcdef0123"), "SHA256:0123456789abcdef\u{2026}");
    assert_eq!(fingerprint_short("abc"), "SHA256:abc\u{2026}");
}

#[test]
fn parse_device_errors_and_edges() {
    assert_eq!(parse_device("").unwrap_err(), WifiAddressError::Empty);
    assert_eq!(
        parse_device(" 10.0.0.1:notaport ").unwrap_err(),
        WifiAddressError::InvalidPort("10.0.0.1:notaport".to_string())
    );
    assert_eq!(
        parse_device(":27184").unwrap_err(),
        WifiAddressError::InvalidAddress(":27184".to_string())
    );
    assert_eq!(parse_device(r#"{"port":1}"#).unwrap_err(), WifiAddressError::MissingIp);
    assert_eq!(parse_device("10.0.0.1:70000").unwrap_err().message(), "invalid port in '10.0.0.1:70000'");
    let d = parse_device("  host.local:+80 ").unwrap();
    assert_eq!((d.ip.as_str(), d.port), ("host.local", 80));
    let d = parse_device(r#"{ "ip" : "10.1.1.1", "port": 9x }"#).unwrap();
    assert_eq!(d.port, 9);
    let d = parse_device(r#"{"ip":"10.1.1.1","port":"x"}"#).unwrap();
    assert_eq!(d.port, DEFAULT_WIFI_PORT);
}

#[test]
fn certificate_trust_decision() {
    let cert = b"cert";
    let fp = certificate_fingerprint(cert);
    let upper = fp.to_ascii_uppercase();
    assert!(fingerprint_equal(&fp, &upper));
    assert!(!fingerprint_equal(&fp, "SHA256:00"));
    assert!(accept_certificate(cert, Some(&upper), Some("SHA256:00")));
    assert!(!accept_certificate(cert, Some("SHA256:00"), Some(&fp)));
    assert!(accept_certificate(cert, None, Some(&fp)));
    assert!(!accept_certificate(cert, None, Some("SHA256:00")));
    assert!(!accept_certificate(cert, None, None));
}

#[test]
fn welcome_decisions() {
    let accepted = Welcome { accept: Some(true), reason: None, fp: None, json: "{}".to_string() };
    assert!(welcome_verdict(&accepted).is_ok());
    let bad_pin = Welcome {
        accept: Some(false),
        reason: Some("bad-pin".to_string()),
        fp: None,
        json: r#"{"accept":false}"#.to_string(),
    };
    let err = welcome_verdict(&bad_pin).unwrap_err();
    assert_eq!(err, HandshakeError::WrongPin("bad-pin".to_string()));
    assert!(err.message().contains("wrong PIN"));
    let other = Welcome { accept: None, reason: None, fp: None, json: r#"{"v":1}"#.to_string() };
    assert_eq!(
        welcome_verdict(&other).unwrap_err().message(),
        r#"Handshake rejected by tablet: {"v":1}"#
    );
    let packet = TransportPacket::heartbeat(1);
    assert_eq!(
        check_welcome_kind(&packet).unwrap_err(),
        HandshakeError::UnexpectedKind(PacketKind::Heartbeat)
    );
    assert!(check_welcome_kind(&TransportPacket::handshake(1, vec![])).is_ok());
}

#[test]
fn first_pairing_pins_the_peer_certificate() {
    let mut store = PairingStore::new();
    assert!(pin_after_welcome(&mut store, "10.0.0.5:27184", "10.0.0.5", Some(b"peer"), Some("SHA256:qr")));
    let pinned = certificate_fingerprint(b"peer");
    assert_eq!(store.fingerprint_for("10.0.0.5:27184"), Some(&pinned));
    assert!(!pin_after_welcome(&mut store, "10.0.0.5:27184", "10.0.0.5", None, Some("SHA256:qr")));
    assert_eq!(store.fingerprint_for("10.0.0.5:27184"), Some(&pinned));
    assert!(pin_after_welcome(&mut store, "10.0.0.6:1", "10.0.0.6", None, Some("SHA256:qr")));
    assert_eq!(store.fingerprint_for("10.0.0.6:1").map(String::as_str), Some("SHA256:qr"));
    assert!(!pin_after_welcome(&mut store, "10.0.0.7:1", "10.0.0.7", None, None));
    assert!(!store.is_paired("10.0.0.7:1"));
}

#[test]
fn device_ip_must_be_given() {
    assert!(!device_ip_given(None));
    assert!(!device_ip_given(Some("   ")));
    assert!(device_ip_given(Some(" 10.0.0.2 ")));
}

#[test]
fn welcome_payload_is_read_as_json() {
    let packet = TransportPacket::handshake(
        1,
        br#"{"accept":false,"reason":"pin mismatch","fp":"SHA256:ab"}"#.to_vec(),
    );
    let w = read_welcome(&packet).unwrap();
    assert_eq!(w.accept, Some(false));
    assert_eq!(w.reason.as_deref(), Some("pin mismatch"));
    assert_eq!(w.fp.as_deref(), Some("SHA256:ab"));
    assert_eq!(welcome_verdict(&w), Err(HandshakeError::WrongPin("pin mismatch".to_string())));
    let odd = TransportPacket::handshake(2, br#"{"accept":"yes"}"#.to_vec());
    assert_eq!(read_welcome(&odd).unwrap().accept, None);
    let broken = TransportPacket::handshake(3, b"not json".to_vec());
    let err = read_welcome(&broken).unwrap_err();
    assert_eq!(err, HandshakeError::MalformedWelcome);
    assert_eq!(err.message(), "Failed to parse Welcome JSON");
}
