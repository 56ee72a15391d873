use usbdisplay::encoder::{
    bgra_to_nv12, read_bgra_bmp, select_encoder, summarize, Backend, BgraFrame, BmpError, Codec,
    EncoderConfig, EncoderError, VideoEncoder,
};

fn solid(w: u32, h: u32, bgra: u32) -> BgraFrame {
    BgraFrame::from_words(w, h, vec![bgra; (w * h) as usize]).unwrap()
}

fn bmp_header(width: i32, height: i32, bpp: u16, compression: u32, extra: usize) -> Vec<u8> {
    let mut b = vec![0u8; 14 + 40 + extra];
    b[0] = b'B';
    b[1] = b'M';
    b[10..14].copy_from_slice(&54u32.to_le_bytes());
    b[14..18].copy_from_slice(&40u32.to_le_bytes());
    b[18..22].copy_from_slice(&width.to_le_bytes());
    b[22..26].copy_from_slice(&height.to_le_bytes());
    b[28..30].copy_from_slice(&bpp.to_le_bytes());
    b[30..34].copy_from_slice(&compression.to_le_bytes());
    b
}

#[test]
fn reads_top_down_single_pixel() {
    let mut b = vec![0u8; 14 + 40 + 4];
    b[0] = b'B';
    b[1] = b'M';
    b[10..14].copy_from_slice(&54u32.to_le_bytes());
    b[14..18].copy_from_slice(&40u32.to_le_bytes());
    b[18..22].copy_from_slice(&1i32.to_le_bytes());
    b[22..26].copy_from_slice(&(-1i32).to_le_bytes());
    b[28..30].copy_from_slice(&32u16.to_le_bytes());
    b[30..34].copy_from_slice(&0u32.to_le_bytes());
    b[54..58].copy_from_slice(&[0x11, 0x22, 0x33, 0x44]);
    let frame = read_bgra_bmp(&b).unwrap();
    assert_eq!(frame.width, 1);
    assert_eq!(frame.height, 1);
    assert_eq!(frame.pixels[0], 0x44332211);
}

#[test]
fn rejects_non_bmp() {
    let b = vec![0u8; 100];
    assert!(matches!(read_bgra_bmp(&b), Err(BmpError::NotBmp)));
}

#[test]
fn rejects_wrong_bpp() {
    let mut b = vec![0u8; 14 + 40 + 4];
    b[0] = b'B';
    b[1] = b'M';
    b[10..14].copy_from_slice(&54u32.to_le_bytes());
    b[14..18].copy_from_slice(&40u32.to_le_bytes());
    b[18..22].copy_from_slice(&1i32.to_le_bytes());
    b[22..26].copy_from_slice(&(-1i32).to_le_bytes());
    b[28..30].copy_from_slice(&24u16.to_le_bytes());
    let err = read_bgra_bmp(&b).unwrap_err();
    assert!(matches!(err, BmpError::Unsupported(_)));
}

#[test]
fn bmp_bottom_up_is_refused() {
    let mut b = bmp_header(1, 2, 32, 0, 8);
    b[54..58].copy_from_slice(&[1, 2, 3, 4]);
    b[58..62].copy_from_slice(&[5, 6, 7, 8]);
    let err = read_bgra_bmp(&b).unwrap_err();
    assert_eq!(err.message(), "unsupported BMP: height 2 (expected top-down)");
    let mut t = bmp_header(1, -2, 32, 0, 8);
    t[54..58].copy_from_slice(&[1, 2, 3, 4]);
    t[58..62].copy_from_slice(&[5, 6, 7, 8]);
    let frame = read_bgra_bmp(&t).unwrap();
    assert_eq!(frame.height, 2);
    assert_eq!(frame.pixels, vec![0x04030201, 0x08070605]);
}

#[test]
fn bmp_error_messages() {
    assert!(matches!(read_bgra_bmp(&[0u8; 10]), Err(BmpError::TooShort)));
    let err = read_bgra_bmp(&bmp_header(1, 1, 24, 0, 4)).unwrap_err();
    assert_eq!(err.message(), "unsupported BMP: 24 bpp (expected 32)");
    let err = read_bgra_bmp(&bmp_header(1, 1, 32, 3, 4)).unwrap_err();
    assert_eq!(err.message(), "unsupported BMP: compression 3 (expected BI_RGB)");
    let err = read_bgra_bmp(&bmp_header(-5, 1, 32, 0, 4)).unwrap_err();
    assert_eq!(err.message(), "unsupported BMP: width -5");
    let mut small_info = bmp_header(1, 1, 32, 0, 4);
    small_info[14..18].copy_from_slice(&12u32.to_le_bytes());
    let err = read_bgra_bmp(&small_info).unwrap_err();
    assert_eq!(err.message(), "unsupported BMP: info header size 12");
    assert!(matches!(read_bgra_bmp(&bmp_header(2, -2, 32, 0, 4)), Err(BmpError::SizeMismatch)));
    assert!(matches!(read_bgra_bmp(&bmp_header(1, 0, 32, 0, 4)), Err(BmpError::SizeMismatch)));
}

#[test]
fn rejects_odd_dimensions() {
    assert!(bgra_to_nv12(&solid(3, 2, 0)).is_none());
    assert!(bgra_to_nv12(&solid(2, 3, 0)).is_none());
}

#[test]
fn plane_sizes_are_correct() {
    let nv12 = bgra_to_nv12(&solid(4, 4, 0)).unwrap();
    assert_eq!(nv12.y_len(), 16);
    assert_eq!(nv12.uv_len(), 8);
    assert_eq!(nv12.data.len(), 24);
}

#[test]
fn solid_black_is_studio_swing_floor() {
    let nv12 = bgra_to_nv12(&solid(2, 2, 0x0000_0000)).unwrap();
    assert_eq!(&nv12.data[0..4], &[16, 16, 16, 16]);
    assert_eq!(&nv12.data[4..6], &[128, 128]);
}

#[test]
fn solid_white_is_studio_swing_ceiling() {
    let nv12 = bgra_to_nv12(&solid(2, 2, 0x00FF_FFFF)).unwrap();
    assert_eq!(&nv12.data[0..4], &[235, 235, 235, 235]);
    assert_eq!(&nv12.data[4..6], &[128, 128]);
}

#[test]
fn solid_red_has_high_v() {
    let nv12 = bgra_to_nv12(&solid(2, 2, 0x00FF_0000)).unwrap();
    assert_eq!(nv12.data[0], 81);
    assert_eq!(nv12.data[4], 90);
    assert_eq!(nv12.data[5], 240);
}

#[test]
fn solid_blue_has_high_u() {
    let nv12 = bgra_to_nv12(&solid(2, 2, 0x0000_00FF)).unwrap();
    assert_eq!(nv12.data[0], 41);
    assert_eq!(nv12.data[4], 240);
    assert_eq!(nv12.data[5], 110);
}

#[test]
fn chroma_averages_each_block() {
    // Left block white, right block black: each 2x2 block gets its own U,V
    // and luma follows each pixel.
    let w = 4;
    let h = 2;
    let mut pixels = Vec::new();
    for _ in 0..h {
        pixels.extend_from_slice(&[0x00FF_FFFF, 0x00FF_FFFF, 0, 0]);
    }
    let frame = BgraFrame::from_words(w, h, pixels).unwrap();
    let nv12 = bgra_to_nv12(&frame).unwrap();
    assert_eq!(&nv12.data[0..8], &[235, 235, 16, 16, 235, 235, 16, 16]);
    assert_eq!(&nv12.data[8..12], &[128, 128, 128, 128]);
    // A block of two red and two black pixels averages R to 127.
    let frame = BgraFrame::from_words(2, 2, vec![0x00FF_0000, 0, 0x00FF_0000, 0]).unwrap();
    let nv12 = bgra_to_nv12(&frame).unwrap();
    assert_eq!(nv12.data[4], 109);
    assert_eq!(nv12.data[5], 184);
}

#[test]
fn rejects_length_mismatch() {
    assert!(BgraFrame::from_words(2, 2, vec![0; 3]).is_none());
    assert!(BgraFrame::from_words(0, 2, vec![]).is_none());
}

#[test]
fn accepts_matching_length() {
    let f = BgraFrame::from_words(2, 2, vec![0xFF00FF00; 4]).unwrap();
    assert_eq!(f.width, 2);
    assert_eq!(f.pixels.len(), 4);
}

#[test]
fn from_bytes_parses_bgra_order() {
    let f = BgraFrame::from_bytes(1, 1, &[0x11, 0x22, 0x33, 0x44]).unwrap();
    assert_eq!(f.pixels[0], 0x44332211);
}

#[test]
fn from_bytes_rejects_wrong_length() {
    assert!(BgraFrame::from_bytes(1, 1, &[1, 2, 3]).is_none());
    assert!(BgraFrame::from_bytes(0, 1, &[]).is_none());
}

#[test]
fn splits_and_classifies_h264() {
    let stream = [
        0, 0, 0, 1, 0x67, 0xAA, 0, 0, 1, 0x68, 0xBB, 0, 0, 0, 1, 0x65, 0xCC, 0, 0, 1, 0x61, 0xDD,
    ];
    let s = summarize(&stream, Codec::H264);
    assert_eq!(s.total_nals, 4);
    assert!(s.has_sps && s.has_pps);
    assert_eq!(s.idr_slices, 1);
    assert_eq!(s.non_idr_slices, 1);
    assert!(s.is_playable(Codec::H264));
}

#[test]
fn not_playable_without_idr() {
    let stream = [0, 0, 0, 1, 0x67, 0xAA, 0, 0, 1, 0x68, 0xBB];
    let s = summarize(&stream, Codec::H264);
    assert!(!s.is_playable(Codec::H264));
}

#[test]
fn classifies_h265_units() {
    // VPS(32), SPS(33), PPS(34), IDR_W_RADL(19), TRAIL_R(1); type sits in bits 1..6.
    let stream = [
        0, 0, 1, 32 << 1, 1, 0, 0, 1, 33 << 1, 1, 0, 0, 1, 34 << 1, 1, 0, 0, 1, 19 << 1, 1, 0, 0,
        1, 1 << 1, 1,
    ];
    let s = summarize(&stream, Codec::H265);
    assert_eq!(s.total_nals, 5);
    assert!(s.has_vps && s.has_sps && s.has_pps);
    assert_eq!(s.idr_slices, 1);
    assert_eq!(s.non_idr_slices, 1);
    assert!(s.is_playable(Codec::H265));
    assert!(!summarize(&[0, 0, 1, 0x65], Codec::H265).is_playable(Codec::H265));
}

#[test]
fn stream_without_start_code_has_no_units() {
    assert_eq!(summarize(&[1, 2, 3, 4, 5], Codec::H264).total_nals, 0);
    assert_eq!(summarize(&[], Codec::H264).total_nals, 0);
}

#[test]
fn config_builders_clamp_to_one() {
    let c = EncoderConfig::new(1920, 1080).with_fps(0).with_bitrate(0).with_gop(0).with_codec(Codec::H265);
    assert_eq!((c.width, c.height), (1920, 1080));
    assert_eq!((c.fps, c.bitrate_bps, c.gop), (1, 1, 1));
    assert_eq!(c.codec, Codec::H265);
    let d = EncoderConfig::new(2, 2);
    assert_eq!((d.fps, d.bitrate_bps, d.gop, d.codec), (60, 20_000_000, 60, Codec::H264));
    assert_eq!(Codec::H265.to_protocol(), usbdisplay::protocol::Codec::H265);
}

struct FakeEncoder;

impl VideoEncoder for FakeEncoder {
    fn backend_name(&self) -> &str {
        "fake"
    }
    fn encode(
        &mut self,
        _frame: &BgraFrame,
        _timestamp_ns: u64,
    ) -> Result<Vec<usbdisplay::encoder::EncodedUnit>, EncoderError> {
        Ok(Vec::new())
    }
    fn drain(&mut self) -> Result<Vec<usbdisplay::encoder::EncodedUnit>, EncoderError> {
        Ok(Vec::new())
    }
}

#[test]
fn selection_walks_preference_order() {
    let config = EncoderConfig::new(64, 64);
    let (chosen, statuses) = select_encoder(&config, |_c: &EncoderConfig| {
        Ok::<Box<dyn VideoEncoder>, EncoderError>(Box::new(FakeEncoder))
    });
    assert_eq!(chosen.unwrap().backend_name(), "fake");
    let names: Vec<&str> = statuses.iter().map(|s| s.backend.name()).collect();
    assert_eq!(names, vec!["NVENC", "QuickSync", "AMF", "MediaFoundation"]);
    assert!(!statuses[0].available);
    assert_eq!(
        statuses[0].detail,
        "backend is not available: NVENC backend not yet implemented (needs NVIDIA Video Codec SDK bindings)"
    );
    assert!(statuses[3].available);
    assert_eq!(statuses[3].detail, "selected");
    assert_eq!(statuses[3].backend, Backend::MediaFoundation);

    let (none, statuses) = select_encoder(&config, |_c: &EncoderConfig| {
        Err::<Box<dyn VideoEncoder>, EncoderError>(EncoderError::Unavailable(
            "Media Foundation is only available on Windows".to_string(),
        ))
    });
    assert!(none.is_none());
    assert_eq!(
        statuses[3].detail,
        "backend is not available: Media Foundation is only available on Windows"
    );
}

#[test]
fn encoder_error_messages() {
    assert_eq!(
        EncoderError::DimensionMismatch { frame_w: 1, frame_h: 2, enc_w: 3, enc_h: 4 }.message(),
        "frame dimensions 1x2 do not match encoder 3x4"
    );
    assert_eq!(
        EncoderError::NoBackendAvailable.message(),
        "no encoder backend is available for this configuration"
    );
    assert_eq!(EncoderError::Backend("x".to_string()).message(), "encoder backend error: x");
}
