use usbdisplay::encoder::BgraFrame;
use usbdisplay::streamer::frame_section::{
    decode_header, initialise, publish, put_u32, put_u64, read_snapshot, section_len, slot_bytes,
    FrameSectionHeader, SectionError, SliceView, HEADER_SIZE, OFF_SEQUENCE, OFF_SLOT,
    OFF_SLOT_BYTES, OFF_VERSION, VERSION,
};

fn frame(w: u32, h: u32, seed: u32) -> BgraFrame {
    let pixels = (0..(w * h))
        .map(|i| 0xFF00_0000 | (seed.wrapping_mul(31).wrapping_add(i)))
        .collect();
    BgraFrame::from_words(w, h, pixels).expect("frame")
}

fn section(w: u32, h: u32) -> Vec<u8> {
    let mut buf = vec![0u8; section_len(w, h).expect("len")];
    initialise(&mut buf, w, h).expect("init");
    buf
}

#[test]
fn layout_is_stable() {
    assert_eq!(std::mem::size_of::<FrameSectionHeader>(), HEADER_SIZE as usize);
    assert_eq!(section_len(2, 2).unwrap(), 48 + 2 * 16);
    assert_eq!(slot_bytes(1920, 1080).unwrap(), 1920 * 1080 * 4);
}

#[test]
fn unpublished_section_yields_no_frame() {
    let buf = section(4, 4);
    assert!(read_snapshot(&SliceView::new(&buf)).expect("read").is_none());
}

#[test]
fn round_trips_a_published_frame() {
    let mut buf = section(8, 4);
    let f = frame(8, 4, 7);
    publish(&mut buf, &f, 1234).expect("publish");
    let snap = read_snapshot(&SliceView::new(&buf)).expect("read").expect("some");
    assert_eq!(snap.frame, f);
    assert_eq!(snap.timestamp_ns, 1234);
}

#[test]
fn alternates_slots_and_keeps_latest() {
    let mut buf = section(4, 4);
    publish(&mut buf, &frame(4, 4, 1), 10).unwrap();
    let first = decode_header(&buf).unwrap().slot;
    publish(&mut buf, &frame(4, 4, 2), 20).unwrap();
    let second = decode_header(&buf).unwrap().slot;
    assert_ne!(first, second, "consecutive publishes use different slots");
    let snap = read_snapshot(&SliceView::new(&buf)).unwrap().unwrap();
    assert_eq!(snap.frame, frame(4, 4, 2));
    assert_eq!(snap.timestamp_ns, 20);
}

#[test]
fn rejects_a_foreign_section() {
    let buf = vec![0u8; 4096];
    assert_eq!(
        read_snapshot(&SliceView::new(&buf)).unwrap_err(),
        SectionError::BadMagic { found: 0 }
    );
}

#[test]
fn rejects_a_truncated_section() {
    let mut buf = section(8, 8);
    buf.truncate(HEADER_SIZE as usize + 16);
    assert!(matches!(
        read_snapshot(&SliceView::new(&buf)).unwrap_err(),
        SectionError::TooSmall { .. }
    ));
}

#[test]
fn rejects_a_version_skew() {
    let mut buf = section(4, 4);
    put_u32(&mut buf, OFF_VERSION, VERSION + 1);
    assert_eq!(
        read_snapshot(&SliceView::new(&buf)).unwrap_err(),
        SectionError::BadVersion { found: VERSION + 1 }
    );
}

#[test]
fn rejects_a_lying_slot_bytes() {
    let mut buf = section(4, 4);
    put_u32(&mut buf, OFF_SLOT_BYTES, 12);
    assert!(matches!(
        read_snapshot(&SliceView::new(&buf)).unwrap_err(),
        SectionError::SlotBytesMismatch { .. }
    ));
}

#[test]
fn rejects_an_out_of_range_slot() {
    let mut buf = section(4, 4);
    publish(&mut buf, &frame(4, 4, 1), 1).unwrap();
    put_u32(&mut buf, OFF_SLOT, 9);
    assert_eq!(
        read_snapshot(&SliceView::new(&buf)).unwrap_err(),
        SectionError::BadSlot { found: 9 }
    );
}

#[test]
fn a_reader_mid_publish_sees_either_the_old_or_the_new_frame() {
    let mut buf = section(4, 4);
    publish(&mut buf, &frame(4, 4, 1), 1).unwrap();
    put_u64(&mut buf, OFF_SEQUENCE, 5);
    assert!(read_snapshot(&SliceView::new(&buf)).unwrap().is_none());
}

#[test]
fn does_not_mix_two_consecutive_frames() {
    let mut buf = section(6, 3);
    let a = frame(6, 3, 1);
    let mut b = frame(6, 3, 2);
    for p in b.pixels.iter_mut() {
        *p = !*p;
    }
    publish(&mut buf, &a, 1).unwrap();
    publish(&mut buf, &b, 2).unwrap();
    let snap = read_snapshot(&SliceView::new(&buf)).unwrap().unwrap();
    assert!(snap.frame == b || snap.frame == a, "must be one frame, not a blend");
}

#[test]
fn section_errors_on_bad_sizes() {
    let mut small = vec![0u8; 10];
    assert_eq!(
        initialise(&mut small, 2, 2),
        Err(SectionError::TooSmall { have: 10, need: 80 })
    );
    assert_eq!(
        publish(&mut small, &frame(2, 2, 0), 0),
        Err(SectionError::TooSmall { have: 10, need: 80 })
    );
    let mut buf = section(2, 2);
    usbdisplay::streamer::frame_section::put_u32(&mut buf, 16, 0);
    assert_eq!(
        read_snapshot(&SliceView::new(&buf)).unwrap_err(),
        SectionError::BadDimensions { width: 0, height: 2 }
    );
    assert!(decode_header(&[0u8; 47]).is_none());
    let mut header_only = vec![0u8; 48];
    put_u32(&mut header_only, 8, 47);
    put_u32(&mut header_only, 0, usbdisplay::streamer::frame_section::MAGIC);
    put_u32(&mut header_only, 4, VERSION);
    assert_eq!(
        read_snapshot(&SliceView::new(&header_only)).unwrap_err(),
        SectionError::BadHeaderSize { found: 47 }
    );
}

#[test]
fn publish_advances_sequence_by_two() {
    let mut buf = section(2, 2);
    publish(&mut buf, &frame(2, 2, 3), 9).unwrap();
    let h = decode_header(&buf).unwrap();
    assert_eq!(h.sequence, 2);
    assert_eq!(h.slot, 1);
    assert_eq!(h.timestamp_ns, 9);
    assert_eq!(h.slot_bytes, 16);
}

#[test]
fn latest_of_many_publishes_wins() {
    let mut buf = section(6, 2);
    for k in 1..=7u32 {
        publish(&mut buf, &frame(6, 2, k), 100 * k as u64).unwrap();
        let snap = read_snapshot(&SliceView::new(&buf)).unwrap().unwrap();
        assert_eq!(snap.frame, frame(6, 2, k));
        assert_eq!(snap.timestamp_ns, 100 * k as u64);
    }
    assert_eq!(decode_header(&buf).unwrap().sequence, 14);
}
