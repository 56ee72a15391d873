use usbdisplay::streamer::adb::{parse_adb_devices, AdbDeviceState, AdbParseError};

#[test]
fn parses_connected_devices() {
    let output = "\
List of devices attached
R52T70ABCDE device product:gts8 model:Galaxy_Tab_S8 device:gts8 transport_id:3
emulator-5554 offline transport_id:1
";
    let devices = parse_adb_devices(output).unwrap();
    assert_eq!(devices.len(), 2);
    assert_eq!(devices[0].serial, "R52T70ABCDE");
    assert_eq!(devices[0].state, AdbDeviceState::Device);
    assert_eq!(devices[0].model.as_deref(), Some("Galaxy_Tab_S8"));
    assert_eq!(devices[1].state, AdbDeviceState::Offline);
}

#[test]
fn parses_unauthorized_device() {
    let output = "\
List of devices attached
R52T70ABCDE unauthorized transport_id:7
";
    let devices = parse_adb_devices(output).unwrap();
    assert_eq!(devices[0].state, AdbDeviceState::Unauthorized);
    assert_eq!(devices[0].transport_id.as_deref(), Some("7"));
}

#[test]
fn adb_parse_edge_cases() {
    // Blank lines, CRLF endings, tabs and an unknown state.
    let output = "List of devices attached\r\n\r\n  abc\tweird  product:p1 product:p2\r\n";
    let devices = parse_adb_devices(output).unwrap();
    assert_eq!(devices.len(), 1);
    assert_eq!(devices[0].serial, "abc");
    assert_eq!(devices[0].state, AdbDeviceState::Unknown("weird".to_string()));
    assert_eq!(devices[0].product.as_deref(), Some("p2"));
    assert_eq!(devices[0].model, None);
    assert!(parse_adb_devices("").unwrap().is_empty());
    assert!(parse_adb_devices("only-a-banner").unwrap().is_empty());
}

#[test]
fn adb_line_without_state_is_an_error() {
    let output = "List of devices attached\nserial-only\n";
    assert_eq!(parse_adb_devices(output).unwrap_err(), AdbParseError::MissingState);
    assert_eq!(AdbParseError::MissingState.message(), "adb device line is missing state");
}
