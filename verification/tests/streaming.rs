use usbdisplay::encoder::{Codec, EncodedUnit};
use usbdisplay::input::{InputAction, InputEvent, KeyAction, NamedKey, PointerButton};
use usbdisplay::streamer::adb::parse_adb_devices;
use usbdisplay::streamer::input_inject::{
    injection_plan, map_absolute, InjectAction, MonitorRect, KEYEVENTF_KEYUP, KEYEVENTF_UNICODE,
    MOUSEEVENTF_ABSOLUTE, MOUSEEVENTF_HWHEEL, MOUSEEVENTF_LEFTDOWN, MOUSEEVENTF_MOVE,
    MOUSEEVENTF_VIRTUALDESK, MOUSEEVENTF_WHEEL, VK_RETURN,
};
use usbdisplay::streamer::rate::{
    effective_wifi_tuning, level_for_bitrate, RateController, Transport, USB_DEFAULT_BITRATE_BPS,
    USB_DEFAULT_GOP, WIFI_DEFAULT_BITRATE_BPS, WIFI_DEFAULT_GOP,
};
use usbdisplay::streamer::session::{
    choose_serial, classify_reverse, codec_named, decoded_size_ok, frame_duration_ns,
    frame_packet_bytes, is_capture_file, live_step, replay_delay_ns, reverse_length_ok, transport_totals, replay_step, ReplayStep,
    FrameSender, LiveStep, ReverseMessage, SerialError,
};
use usbdisplay::transport::{TransportPacket, DEFAULT_MAX_PACKET_PAYLOAD};

#[test]
fn wifi_defaults_apply_unless_overridden() {
    let (b, g) = effective_wifi_tuning(Transport::Wifi, USB_DEFAULT_BITRATE_BPS, USB_DEFAULT_GOP);
    assert_eq!(b, WIFI_DEFAULT_BITRATE_BPS);
    assert_eq!(g, WIFI_DEFAULT_GOP);
    let (b2, g2) = effective_wifi_tuning(Transport::Wifi, 8_000_000, 30);
    assert_eq!(b2, 8_000_000);
    assert_eq!(g2, 30);
    let (b3, g3) = effective_wifi_tuning(Transport::Usb, USB_DEFAULT_BITRATE_BPS, USB_DEFAULT_GOP);
    assert_eq!(b3, USB_DEFAULT_BITRATE_BPS);
    assert_eq!(g3, USB_DEFAULT_GOP);
}

#[test]
fn rate_controller_starts_at_given_bitrate() {
    let r = RateController::new(12_000_000);
    assert_eq!(r.current_bitrate(), 12_000_000);
    let r2 = RateController::new(20_000_000);
    assert_eq!(r2.current_bitrate(), 20_000_000);
}

#[test]
fn rate_controller_steps_down_on_stall() {
    let mut r = RateController::new(20_000_000);
    let mut stepped: Option<u32> = None;
    for _ in 0..60 {
        stepped = r.observe(80_000_000, 0);
    }
    assert_eq!(stepped, Some(12_000_000));
    assert_eq!(r.current_bitrate(), 12_000_000);
}

#[test]
fn rate_controller_steps_down_on_keyframe_storm() {
    let mut r = RateController::new(12_000_000);
    let mut seen: Option<u32> = None;
    for i in 1..=5u64 {
        if let Some(b) = r.observe(5_000_000, i) {
            seen = Some(b);
        }
    }
    assert_eq!(seen, Some(8_000_000));
}

#[test]
fn rate_controller_steps_up_after_clean_window() {
    let mut r = RateController::new(12_000_000);
    for _ in 0..60 {
        let _ = r.observe(80_000_000, 0);
    }
    assert_eq!(r.current_bitrate(), 8_000_000);
    let mut up: Option<u32> = None;
    for _ in 0..600 {
        up = r.observe(5_000_000, 0);
        if up.is_some() {
            break;
        }
    }
    assert_eq!(up, Some(12_000_000));
}

#[test]
fn rate_controller_bottom_and_nearest_levels() {
    assert_eq!(level_for_bitrate(20_000_000), 0);
    assert_eq!(level_for_bitrate(16_000_000), 0);
    assert_eq!(level_for_bitrate(15_999_999), 1);
    assert_eq!(level_for_bitrate(1), 3);
    let mut r = RateController::new(4_000_000);
    for _ in 0..200 {
        assert_eq!(r.observe(90_000_000, 0), None);
    }
    assert_eq!(r.current_bitrate(), 4_000_000);
    // 95th percentile: three slow frames out of sixty stay below it.
    let mut r = RateController::new(20_000_000);
    for i in 0..60 {
        let stall = if i < 3 { 90_000_000 } else { 1_000_000 };
        assert_eq!(r.observe(stall, 0), None);
    }
    assert_eq!(r.current_bitrate(), 20_000_000);
}

#[test]
fn frame_sender_tracks_stall_and_stats_json() {
    let mut sender = FrameSender::new(Codec::H264, 64, 64, 60, 1024);
    let unit = EncodedUnit { bytes: vec![0u8; 64], keyframe: true, timestamp_ns: 0 };
    let packets = sender.prepare_unit(&unit).unwrap();
    let mut socket: Vec<u8> = Vec::new();
    for p in &packets {
        socket.extend_from_slice(p);
    }
    sender.record_sent(packets.len(), 1_234_000);
    assert_eq!(sender.total_frames(), 1);
    assert!(sender.total_packets() >= 1);
    let line = sender.stats_line(7);
    assert!(line.contains("\"streamed_frames\":1"), "{line}");
    assert!(line.contains("\"input_events_injected\":7"), "{line}");
    assert!(line.contains("write_stall_ms_max"), "{line}");
    assert_eq!(
        line,
        "{\"streamed_frames\":1,\"streamed_packets\":1,\"write_stall_ms_max\":1.23,\"input_events_injected\":7}"
    );
    // The socket carries a length prefix and a packet that decodes to the frame.
    let len = u32::from_le_bytes([socket[0], socket[1], socket[2], socket[3]]) as usize;
    assert_eq!(len + 4, socket.len());
    let packet = TransportPacket::decode(&socket[4..], DEFAULT_MAX_PACKET_PAYLOAD).unwrap();
    assert_eq!(packet.header.frame_sequence, 1);
    assert_eq!(packet.header.packet_sequence, 1);
}

#[test]
fn frame_sender_numbers_frames_and_splits_large_units() {
    let mut sender = FrameSender::new(Codec::H265, 8, 8, 30, 100);
    let unit = EncodedUnit { bytes: vec![7u8; 250], keyframe: false, timestamp_ns: 5 };
    let first = sender.prepare_unit(&unit).unwrap();
    assert_eq!(first.len(), 3);
    let second = sender.prepare_unit(&unit).unwrap();
    let p = TransportPacket::decode(&second[0][4..], DEFAULT_MAX_PACKET_PAYLOAD).unwrap();
    assert_eq!(p.header.frame_sequence, 2);
    assert_eq!(p.header.packet_sequence, 4);
    sender.record_sent(3, 10_004_000);
    sender.record_sent(3, 5);
    assert_eq!(sender.write_stall_ns_max(), 10_004_000);
    assert_eq!(sender.last_stall_ns(), 5);
    assert!(sender.stats_line(0).contains("\"write_stall_ms_max\":10.00"));
}

#[test]
fn framed_packet_has_length_prefix() {
    let packet = TransportPacket::heartbeat(3);
    let framed = frame_packet_bytes(&packet);
    let body = packet.encode();
    assert_eq!(&framed[0..4], &(body.len() as u32).to_le_bytes());
    assert_eq!(&framed[4..], &body[..]);
}

#[test]
fn reverse_channel_classification() {
    assert!(!reverse_length_ok(0));
    assert!(reverse_length_ok(1));
    assert!(reverse_length_ok(65_600));
    assert!(!reverse_length_ok(65_601));

    let pointer = InputEvent::pointer(InputAction::Move, PointerButton::NoButton, 0, 10, 20);
    let key = InputEvent::key_named(KeyAction::Down, NamedKey::Tab);
    let mut payload = pointer.encode().to_vec();
    payload.extend_from_slice(&[9u8; 16]);
    payload.extend_from_slice(&key.encode());
    payload.extend_from_slice(&[1, 2, 3]);
    let packet = TransportPacket::new(usbdisplay::transport::PacketKind::Control, 1, 0, 0, 0, payload);
    match classify_reverse(&packet.encode()) {
        ReverseMessage::Input(events) => assert_eq!(events, vec![pointer, key]),
        other => panic!("expected input, got {other:?}"),
    }
    let kf = TransportPacket::keyframe_request(2, 9);
    assert!(matches!(classify_reverse(&kf.encode()), ReverseMessage::KeyframeRequest));
    assert!(matches!(classify_reverse(&[1, 2, 3]), ReverseMessage::Ignored));
    assert!(matches!(
        classify_reverse(&TransportPacket::heartbeat(1).encode()),
        ReverseMessage::Ignored
    ));
}

#[test]
fn serial_choice() {
    let devices = parse_adb_devices(
        "List of devices attached\nA offline\nB device\nC device\n",
    )
    .unwrap();
    assert_eq!(choose_serial(&devices, None).unwrap(), "B");
    assert_eq!(choose_serial(&devices, Some("C")).unwrap(), "C");
    assert_eq!(
        choose_serial(&devices, Some("A")).unwrap_err(),
        SerialError::NotConnected("A".to_string())
    );
    assert_eq!(choose_serial(&devices[..1].to_vec(), None).unwrap_err(), SerialError::NoDevices);
    assert_eq!(SerialError::NoDevices.message(), "no connected adb devices found");
}

#[test]
fn capture_files_and_live_steps() {
    assert!(is_capture_file("capture_000001.bmp"));
    assert!(!is_capture_file("capture_000001.BMP"));
    assert!(!is_capture_file("frame_000001.bmp"));
    assert!(!is_capture_file("capture_"));
    let frames = vec!["capture_1.bmp".to_string(), "capture_2.bmp".to_string()];
    assert_eq!(live_step(&frames, None, false), LiveStep::Stream { newest: 1 });
    assert_eq!(live_step(&frames, Some(&frames[1]), false), LiveStep::Stop);
    assert_eq!(live_step(&frames, Some(&frames[1]), true), LiveStep::Wait);
    assert_eq!(live_step(&Vec::new(), None, true), LiveStep::Wait);
    assert_eq!(live_step(&frames, Some(&frames[0]), true), LiveStep::Stream { newest: 1 });
}

#[test]
fn pacing_and_small_decisions() {
    assert_eq!(frame_duration_ns(60), 16_666_666);
    assert_eq!(frame_duration_ns(0), 1_000_000_000);
    assert_eq!(replay_delay_ns(150, 100, 20), 30);
    assert_eq!(replay_delay_ns(150, 100, 60), 0);
    assert_eq!(replay_delay_ns(50, 100, 0), 0);
    assert!(decoded_size_ok(1920, 1088, 1920, 1080));
    assert!(!decoded_size_ok(1920, 1096, 1920, 1080));
    assert!(!decoded_size_ok(1919, 1080, 1920, 1080));
    assert_eq!(codec_named("AVC"), Some(Codec::H264));
    assert_eq!(codec_named("hEvC"), Some(Codec::H265));
    assert_eq!(codec_named("vp9"), None);
}

#[test]
fn pointer_and_key_injection_plans() {
    let vscreen = MonitorRect { left: 0, top: 0, width: 3840, height: 1080 };
    let target = Some(MonitorRect { left: 1920, top: 0, width: 1920, height: 1080 });
    assert_eq!(map_absolute(None, vscreen, 100, 200), (100, 200));
    assert_eq!(map_absolute(target, vscreen, 0, 0), (32767, 0));
    assert_eq!(map_absolute(target, vscreen, 65535, 65535), (65535, 65535));
    let abs = MOUSEEVENTF_ABSOLUTE | MOUSEEVENTF_VIRTUALDESK;
    let down = InputEvent::pointer(InputAction::Down, PointerButton::Left, 0, 0, 0);
    assert_eq!(
        injection_plan(&down, None, vscreen),
        vec![
            InjectAction::Mouse { flags: abs | MOUSEEVENTF_MOVE, dx: 0, dy: 0, data: 0 },
            InjectAction::Mouse { flags: abs | MOUSEEVENTF_LEFTDOWN, dx: 0, dy: 0, data: 0 },
        ]
    );
    let up = InputEvent::pointer(InputAction::Up, PointerButton::NoButton, 0, 0, 0);
    assert!(injection_plan(&up, None, vscreen).is_empty());
    let scroll = InputEvent::scroll(1, 2, -1, 2);
    assert_eq!(
        injection_plan(&scroll, None, vscreen),
        vec![
            InjectAction::Mouse { flags: abs | MOUSEEVENTF_MOVE, dx: 1, dy: 2, data: 0 },
            InjectAction::Mouse { flags: MOUSEEVENTF_WHEEL, dx: 0, dy: 0, data: 240 },
            InjectAction::Mouse { flags: MOUSEEVENTF_HWHEEL, dx: 0, dy: 0, data: -120 },
        ]
    );
    let enter = InputEvent::key_named(KeyAction::Up, NamedKey::Enter);
    assert_eq!(
        injection_plan(&enter, None, vscreen),
        vec![InjectAction::Key { vk: VK_RETURN, scan: 0, flags: KEYEVENTF_KEYUP }]
    );
    let a = InputEvent::key_char(KeyAction::Down, 'a' as u16);
    assert_eq!(
        injection_plan(&a, None, vscreen),
        vec![InjectAction::Key { vk: 0, scan: 'a' as u16, flags: KEYEVENTF_UNICODE }]
    );
    assert!(injection_plan(&InputEvent::key_char(KeyAction::Down, 0), None, vscreen).is_empty());
}

#[test]
fn transport_totals_count_packets_and_bytes_of_each_picture() {
    let units = vec![
        EncodedUnit { bytes: vec![1u8; 10], keyframe: true, timestamp_ns: 0 },
        EncodedUnit { bytes: vec![2u8; 100_000], keyframe: false, timestamp_ns: 16_666_666 },
        EncodedUnit { bytes: vec![3u8; 5], keyframe: false, timestamp_ns: 33_333_333 },
    ];
    let totals = transport_totals(&units, Codec::H264, 1920, 1080, 60, DEFAULT_MAX_PACKET_PAYLOAD);
    // 50-byte frame headers; 40-byte packet headers; the middle picture
    // spans two packets.
    assert_eq!(totals, Ok((4, 100 + 100_130 + 95)));
    let none: Vec<EncodedUnit> = Vec::new();
    assert_eq!(
        transport_totals(&none, Codec::H265, 1920, 1080, 60, DEFAULT_MAX_PACKET_PAYLOAD),
        Ok((0, 0))
    );
}

#[test]
fn replay_streams_new_files_waits_when_looping_and_stops_otherwise() {
    assert_eq!(replay_step(5, 3, 3, 10, false), ReplayStep::Stream);
    assert_eq!(replay_step(3, 3, 3, 10, true), ReplayStep::Wait);
    assert_eq!(replay_step(3, 3, 10, 10, true), ReplayStep::Stop);
    assert_eq!(replay_step(3, 3, 3, 10, false), ReplayStep::Stop);
}
