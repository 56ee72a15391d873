use usbdisplay::protocol::{Codec, EncodedFrame, FrameFlags};
use usbdisplay::transport::{
    Ack, HeartbeatMonitor, PacketKind, Packetizer, ReassemblyBuffer, ReceivedPacket,
    ReceiverAcks, RetransmitWindow, TransportError, TransportPacket, DEFAULT_MAX_PACKET_PAYLOAD,
    PACKET_HEADER_LEN,
};

const MS: u64 = 1_000_000;
const SEC: u64 = 1_000_000_000;

#[test]
fn packet_round_trips() {
    let packet = TransportPacket::new(PacketKind::FrameFragment, 10, 20, 1, 3, b"payload".to_vec());
    let decoded = TransportPacket::decode(&packet.encode(), DEFAULT_MAX_PACKET_PAYLOAD).unwrap();
    assert_eq!(decoded, packet);
}

#[test]
fn handshake_packet_round_trips() {
    let packet = TransportPacket::handshake(7, b"hello-wifi".to_vec());
    let decoded = TransportPacket::decode(&packet.encode(), DEFAULT_MAX_PACKET_PAYLOAD).unwrap();
    assert_eq!(decoded, packet);
    match decoded.into_received().unwrap() {
        ReceivedPacket::Handshake(payload) => assert_eq!(payload, b"hello-wifi"),
        other => panic!("expected Handshake, got {other:?}"),
    }
}

#[test]
fn packet_crc_rejects_corruption() {
    let packet = TransportPacket::heartbeat(1);
    let mut bytes = packet.encode();
    bytes[PACKET_HEADER_LEN - 1] ^= 0xff;
    assert!(matches!(
        TransportPacket::decode(&bytes, DEFAULT_MAX_PACKET_PAYLOAD),
        Err(TransportError::CrcMismatch { .. })
    ));
}

#[test]
fn packetizes_and_reassembles_frame() {
    let payload = (0..50_000).map(|v| (v % 251) as u8).collect();
    let frame = EncodedFrame::new(
        44,
        1_000,
        Codec::H265,
        FrameFlags::keyframe(),
        2560,
        1600,
        120_000,
        payload,
    )
    .unwrap();

    let mut packetizer = Packetizer::new(1200);
    let packets = packetizer.packetize_frame(&frame).unwrap();
    assert!(packets.len() > 10);

    let mut reassembly = ReassemblyBuffer::new(44);
    let mut completed = None;
    for packet in packets {
        match packet.into_received().unwrap() {
            ReceivedPacket::FrameFragment(fragment) => {
                completed = reassembly.push(fragment).unwrap();
            }
            _ => unreachable!(),
        }
    }
    assert_eq!(completed.unwrap(), frame);
}

#[test]
fn receiver_ack_reports_gap_then_closes_it() {
    let mut receiver = ReceiverAcks::new();
    assert_eq!(receiver.observe(1).through_packet_sequence, 1);
    let ack = receiver.observe(3);
    assert_eq!(ack.through_packet_sequence, 1);
    assert_eq!(ack.missing_packet_sequences, vec![2]);
    let ack = receiver.observe(2);
    assert_eq!(ack.through_packet_sequence, 3);
    assert!(ack.missing_packet_sequences.is_empty());
}

#[test]
fn retransmit_window_expires_and_acks_packets() {
    let now = 5 * SEC;
    let mut window = RetransmitWindow::new(10 * MS);
    let packet = TransportPacket::new(PacketKind::FrameFragment, 1, 5, 0, 1, b"x".to_vec());
    window.track_sent(packet, now);

    assert!(window.expired(now + 5 * MS).is_empty());
    assert_eq!(window.expired(now + 10 * MS).len(), 1);

    window.apply_ack(&Ack { through_packet_sequence: 1, missing_packet_sequences: Vec::new() });
    assert!(window.is_empty());
}

#[test]
fn heartbeat_monitor_detects_disconnect() {
    let now = 7 * SEC;
    let mut monitor = HeartbeatMonitor::new(2 * SEC, now);
    assert!(!monitor.is_disconnected(now + SEC));
    assert!(monitor.is_disconnected(now + 2 * SEC));
    monitor.observe(now + 3 * SEC);
    assert!(!monitor.is_disconnected(now + 4 * SEC));
}

#[test]
fn receiver_acks_ignore_duplicates_and_list_every_gap() {
    let mut receiver = ReceiverAcks::new();
    receiver.observe(1);
    receiver.observe(4);
    let ack = receiver.observe(6);
    assert_eq!(ack.through_packet_sequence, 1);
    assert_eq!(ack.missing_packet_sequences, vec![2, 3, 5]);
    let again = receiver.observe(1);
    assert_eq!(again.through_packet_sequence, 1);
    assert_eq!(again.missing_packet_sequences, vec![2, 3, 5]);
    let ack = receiver.observe(2);
    assert_eq!(ack.through_packet_sequence, 2);
    let ack = receiver.observe(3);
    assert_eq!(ack.through_packet_sequence, 4);
    assert_eq!(ack.missing_packet_sequences, vec![5]);
}

#[test]
fn ack_packet_round_trips() {
    let ack = Ack { through_packet_sequence: 9, missing_packet_sequences: vec![11, 12] };
    let packet = TransportPacket::ack(3, ack.clone());
    let decoded = TransportPacket::decode(&packet.encode(), DEFAULT_MAX_PACKET_PAYLOAD).unwrap();
    match decoded.into_received().unwrap() {
        ReceivedPacket::Ack(a) => assert_eq!(a, ack),
        other => panic!("expected Ack, got {other:?}"),
    }
}

#[test]
fn packetizer_numbers_packets_from_one() {
    let mut packetizer = Packetizer::new(0);
    let first = packetizer.heartbeat();
    let second = packetizer.keyframe_request(5);
    assert_eq!(first.header.packet_sequence, 1);
    assert_eq!(second.header.packet_sequence, 2);
    assert_eq!(second.header.frame_sequence, 5);
}

#[test]
fn decode_rejects_oversized_payload() {
    let packet = TransportPacket::new(PacketKind::Control, 1, 0, 0, 0, vec![0u8; 100]);
    assert!(matches!(
        TransportPacket::decode(&packet.encode(), 10),
        Err(TransportError::PayloadTooLarge { len: 100, max: 10 })
    ));
}

#[test]
fn retransmit_window_resends_and_keeps_missing() {
    let mut window = RetransmitWindow::new(10);
    for seq in 1..=3u64 {
        window.track_sent(
            TransportPacket::new(PacketKind::FrameFragment, seq, 1, 0, 1, vec![seq as u8]),
            0,
        );
    }
    window.track_sent(TransportPacket::heartbeat(4), 0);
    assert_eq!(window.len(), 3);
    window.apply_ack(&Ack { through_packet_sequence: 3, missing_packet_sequences: vec![2] });
    assert_eq!(window.len(), 1);
    window.mark_resent(2, 100);
    assert!(window.expired(105).is_empty());
    assert_eq!(window.expired(110).len(), 1);
}

#[test]
fn received_sequences_are_never_reported_missing() {
    let mut receiver = ReceiverAcks::new();
    let mut through = 0;
    for sequence in [4u64, 2, 9, 1, 7, 3, 3, 12, 5] {
        let ack = receiver.observe(sequence);
        assert!(!ack.missing_packet_sequences.contains(&sequence));
        assert!(ack.through_packet_sequence >= through);
        through = ack.through_packet_sequence;
    }
    let ack = receiver.observe(6);
    assert_eq!(ack.through_packet_sequence, 7);
    assert_eq!(ack.missing_packet_sequences, vec![8, 10, 11]);
}

#[test]
fn reassembly_completes_whatever_the_arrival_order() {
    let payload: Vec<u8> = (0..5000u32).map(|i| (i * 7 % 251) as u8).collect();
    let frame = EncodedFrame::new(
        42,
        1_000,
        Codec::H264,
        FrameFlags::keyframe(),
        640,
        480,
        60_000,
        payload,
    )
    .unwrap();
    let fragments = frame.fragment(1000).unwrap();
    assert_eq!(fragments.len(), 6);
    let order = [3usize, 0, 5, 1, 4, 2];
    let mut buffer = ReassemblyBuffer::new(42);
    for (k, &i) in order.iter().enumerate() {
        let done = buffer.push(fragments[i].clone()).unwrap();
        if k + 1 < order.len() {
            assert!(done.is_none());
        } else {
            assert_eq!(done, Some(frame.clone()));
        }
    }
}

#[test]
fn resending_restarts_the_timeout() {
    let mut window = RetransmitWindow::new(10 * MS);
    window.track_sent(TransportPacket::new(PacketKind::FrameFragment, 1, 5, 0, 1, b"a".to_vec()), 0);
    window.track_sent(TransportPacket::new(PacketKind::FrameFragment, 2, 5, 0, 1, b"b".to_vec()), 0);
    window.mark_resent(1, 8 * MS);
    let due = window.expired(15 * MS);
    assert_eq!(due.len(), 1);
    assert_eq!(due[0].header.packet_sequence, 2);
    let due = window.expired(18 * MS);
    assert_eq!(due.len(), 2);
    window.mark_resent(9, 20 * MS);
    assert_eq!(window.len(), 2);
    assert_eq!(window.expired(18 * MS).len(), 2);
}

#[test]
fn fragments_reassemble_in_any_order() {
    let payload: Vec<u8> = (0..3000u32).map(|i| (i % 253) as u8).collect();
    let frame = EncodedFrame::new(9, 5, Codec::H265, FrameFlags::none(), 320, 200, 30_000, payload)
        .unwrap();
    let mut fragments = frame.fragment(700).unwrap();
    assert_eq!(fragments.len(), 5);
    fragments.reverse();
    fragments.swap(1, 3);
    assert_eq!(EncodedFrame::reassemble(9, &fragments), Ok(frame));
}

#[test]
fn packetizer_never_numbers_a_packet_zero() {
    let mut packetizer = Packetizer::new(16);
    let first = packetizer.heartbeat();
    assert_eq!(first.header.packet_sequence, 1);
    let ack = packetizer.ack(Ack { through_packet_sequence: 1, missing_packet_sequences: vec![] });
    assert_eq!(ack.header.packet_sequence, 2);
    let kf = packetizer.keyframe_request(3);
    assert_eq!(kf.header.packet_sequence, 3);
}

#[test]
fn retransmit_window_lists_expired_packets_in_sequence_order() {
    let mut window = RetransmitWindow::new(5);
    for seq in [7u64, 3, 9, 5] {
        window.track_sent(
            TransportPacket::new(PacketKind::FrameFragment, seq, 1, 0, 1, vec![seq as u8]),
            0,
        );
    }
    window.track_sent(TransportPacket::new(PacketKind::FrameFragment, 5, 1, 0, 1, b"new".to_vec()), 1);
    assert_eq!(window.len(), 4);
    let due: Vec<u64> = window.expired(6).iter().map(|p| p.header.packet_sequence).collect();
    assert_eq!(due, vec![3, 5, 7, 9]);
    let replaced = window.expired(6).into_iter().find(|p| p.header.packet_sequence == 5).unwrap();
    assert_eq!(replaced.payload, b"new".to_vec());
    window.apply_ack(&Ack { through_packet_sequence: 8, missing_packet_sequences: vec![5] });
    let left: Vec<u64> = window.expired(6).iter().map(|p| p.header.packet_sequence).collect();
    assert_eq!(left, vec![5, 9]);
}
