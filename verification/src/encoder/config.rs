//! Encoder settings.

use vstd::prelude::*;

use crate::protocol::Codec as ProtocolCodec;

verus! {

/// Output codec of the encoder. Kept apart from the wire codec so the encoder
/// validates and defaults on its own; [`Codec::to_protocol`] bridges the two.
#[derive(Debug, Clone, Copy, PartialEq, Eq, Structural)]
pub enum Codec {
    H264,
    H265,
}

impl Codec {
    /// The wire codec for this encoder codec.
    pub fn to_protocol(self) -> (r: ProtocolCodec)
        ensures
            r == (match self {
                Codec::H264 => ProtocolCodec::H264,
                Codec::H265 => ProtocolCodec::H265,
            }),
    {
        match self {
            Codec::H264 => ProtocolCodec::H264,
            Codec::H265 => ProtocolCodec::H265,
        }
    }
}

/// Encoder configuration. Dimensions come from the captured frames; the rest
/// are stream tuning knobs.
#[derive(Debug, Clone, Copy, PartialEq, Eq, Structural)]
pub struct EncoderConfig {
    pub width: u32,
    pub height: u32,
    /// Frames per second.
    pub fps: u32,
    /// Target average bitrate in bits per second.
    pub bitrate_bps: u32,
    /// Keyframe interval in frames.
    pub gop: u32,
    pub codec: Codec,
}

/// `v`, raised to 1 when it is 0.
pub open spec fn at_least_one(v: u32) -> u32 {
    if v == 0 { 1 } else { v }
}

impl EncoderConfig {
    /// 60 fps, 20 Mbit/s, a keyframe every 60 frames, H.264.
    pub fn new(width: u32, height: u32) -> (r: EncoderConfig)
        ensures
            r == (EncoderConfig {
                width,
                height,
                fps: 60,
                bitrate_bps: 20_000_000,
                gop: 60,
                codec: Codec::H264,
            }),
    {
        EncoderConfig { width, height, fps: 60, bitrate_bps: 20_000_000, gop: 60, codec: Codec::H264 }
    }

    /// The same settings at `fps` frames per second (at least 1).
    pub fn with_fps(self, fps: u32) -> (r: EncoderConfig)
        ensures
            r == (EncoderConfig { fps: at_least_one(fps), ..self }),
    {
        let mut c = self;
        c.fps = if fps == 0 { 1 } else { fps };
        c
    }

    /// The same settings at `bitrate_bps` (at least 1).
    pub fn with_bitrate(self, bitrate_bps: u32) -> (r: EncoderConfig)
        ensures
            r == (EncoderConfig { bitrate_bps: at_least_one(bitrate_bps), ..self }),
    {
        let mut c = self;
        c.bitrate_bps = if bitrate_bps == 0 { 1 } else { bitrate_bps };
        c
    }

    /// The same settings with a keyframe every `gop` frames (at least 1).
    pub fn with_gop(self, gop: u32) -> (r: EncoderConfig)
        ensures
            r == (EncoderConfig { gop: at_least_one(gop), ..self }),
    {
        let mut c = self;
        c.gop = if gop == 0 { 1 } else { gop };
        c
    }

    /// The same settings with another codec.
    pub fn with_codec(self, codec: Codec) -> (r: EncoderConfig)
        ensures
            r == (EncoderConfig { codec, ..self }),
    {
        let mut c = self;
        c.codec = codec;
        c
    }
}

} // verus!
