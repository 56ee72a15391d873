use usbdisplay::protocol::{Codec, EncodedFrame, FrameFlags, ProtocolError, HEADER_LEN};

#[test]
fn round_trips_encoded_frame() {
    let frame = EncodedFrame::new(
        42,
        1_000_000,
        Codec::H265,
        FrameFlags::keyframe(),
        2560,
        1600,
        120_000,
        b"encoded frame".to_vec(),
    )
    .unwrap();

    let decoded = EncodedFrame::decode(&frame.encode()).unwrap();
    assert_eq!(decoded, frame);
    assert!(decoded.header.flags.contains(FrameFlags::keyframe()));
}

#[test]
fn rejects_corrupted_payload() {
    let frame = EncodedFrame::new(
        1,
        2,
        Codec::H264,
        FrameFlags::none(),
        1920,
        1080,
        60_000,
        b"abc".to_vec(),
    )
    .unwrap();

    let mut bytes = frame.encode();
    let last = bytes.last_mut().unwrap();
    *last ^= 0xff;

    assert!(matches!(
        EncodedFrame::decode(&bytes),
        Err(ProtocolError::CrcMismatch { .. })
    ));
}

#[test]
fn fragments_and_reassembles() {
    let payload = (0..10_000).map(|v| (v % 251) as u8).collect();
    let frame = EncodedFrame::new(
        7,
        99,
        Codec::Av1,
        FrameFlags::keyframe().union(FrameFlags::config()),
        3840,
        2160,
        90_000,
        payload,
    )
    .unwrap();

    let fragments = frame.fragment(513).unwrap();
    assert!(fragments.len() > 10);

    let decoded = EncodedFrame::reassemble(7, &fragments).unwrap();
    assert_eq!(decoded, frame);
}

#[test]
fn encoded_frame_has_fixed_header_and_payload() {
    let frame = EncodedFrame::new(
        3,
        4,
        Codec::H264,
        FrameFlags::none(),
        640,
        480,
        30_000,
        vec![1, 2, 3, 4, 5],
    )
    .unwrap();
    let bytes = frame.encode();
    assert_eq!(bytes.len(), HEADER_LEN + 5);
    assert_eq!(&bytes[0..4], b"USBD");
    assert_eq!(&bytes[HEADER_LEN..], &[1, 2, 3, 4, 5]);
}

#[test]
fn decode_rejects_short_header_and_bad_magic() {
    assert_eq!(EncodedFrame::decode(&[0u8; 10]), Err(ProtocolError::ShortHeader));
    let frame = EncodedFrame::new(1, 1, Codec::H264, FrameFlags::none(), 1, 1, 1, vec![9])
        .unwrap();
    let mut bytes = frame.encode();
    bytes[0] = b'X';
    assert_eq!(EncodedFrame::decode(&bytes), Err(ProtocolError::InvalidMagic));
}

#[test]
fn fragment_rejects_zero_size() {
    let frame = EncodedFrame::new(1, 1, Codec::H264, FrameFlags::none(), 1, 1, 1, vec![9])
        .unwrap();
    assert_eq!(frame.fragment(0), Err(ProtocolError::ZeroFragmentSize));
}

#[test]
fn codec_bytes_round_trip() {
    for codec in [Codec::H264, Codec::H265, Codec::Av1] {
        assert_eq!(Codec::from_byte(codec.byte()), Ok(codec));
    }
    assert_eq!(Codec::from_byte(9), Err(ProtocolError::UnknownCodec(9)));
}

#[test]
fn frame_flags_union_and_contains() {
    let both = FrameFlags::keyframe().union(FrameFlags::end_of_stream());
    assert!(both.contains(FrameFlags::keyframe()));
    assert!(both.contains(FrameFlags::end_of_stream()));
    assert!(!both.contains(FrameFlags::config()));
    assert_eq!(FrameFlags::from_bits(both.bits()), both);
}

#[test]
fn payload_checksum_is_crc32_ieee() {
    // The CRC-32 (IEEE) check value of "123456789".
    let frame = EncodedFrame::new(
        1,
        0,
        Codec::H264,
        FrameFlags::none(),
        16,
        16,
        60_000,
        b"123456789".to_vec(),
    )
    .unwrap();
    assert_eq!(frame.header.payload_crc32, 0xCBF4_3926);
    assert_eq!(frame.header.payload_len, 9);
}

#[test]
fn reassembly_names_the_first_foreign_and_the_smallest_missing_fragment() {
    let payload: Vec<u8> = (0..400u32).map(|i| i as u8).collect();
    let frame = EncodedFrame::new(4, 0, Codec::H264, FrameFlags::none(), 8, 8, 60_000, payload)
        .unwrap();
    let mut fragments = frame.fragment(100).unwrap();
    assert_eq!(fragments.len(), 5);
    // Indices 1 and 3 missing, the rest shuffled: the smallest absent is named.
    let partial = vec![fragments[4].clone(), fragments[0].clone(), fragments[2].clone()];
    assert_eq!(EncodedFrame::reassemble(4, &partial), Err(ProtocolError::MissingFragment(1)));
    // A fragment of frame 9 in third place is named, even with others missing.
    fragments[2].frame_sequence = 9;
    fragments[3].frame_sequence = 10;
    let mixed = vec![fragments[1].clone(), fragments[0].clone(), fragments[2].clone(), fragments[3].clone()];
    assert_eq!(
        EncodedFrame::reassemble(4, &mixed),
        Err(ProtocolError::FragmentSequenceMismatch { fragment: 2, expected: 4, actual: 9 })
    );
}
