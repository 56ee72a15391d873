//! The encoder interface every backend implements, its output unit and its
//! errors.

use vstd::prelude::*;
use vstd::string::*;

use crate::encoder::frame::BgraFrame;
use crate::text::{decimal, push_decimal};

verus! {

/// One coded picture as an Annex-B byte stream (start-code-delimited NAL
/// units, with SPS/PPS on keyframes).
#[derive(Debug, Clone, PartialEq, Eq)]
pub struct EncodedUnit {
    pub bytes: Vec<u8>,
    /// True when this unit is an IDR / keyframe.
    pub keyframe: bool,
    /// Presentation timestamp in nanoseconds.
    pub timestamp_ns: u64,
}

/// Why an encoder could not be built or could not encode.
#[derive(Debug)]
pub enum EncoderError {
    NoBackendAvailable,
    Unavailable(String),
    DimensionMismatch { frame_w: u32, frame_h: u32, enc_w: u32, enc_h: u32 },
    Backend(String),
}

impl EncoderError {
    /// The message of the error.
    pub open spec fn message_view(&self) -> Seq<char> {
        match self {
            EncoderError::NoBackendAvailable => "no encoder backend is available for this configuration"@,
            EncoderError::Unavailable(s) => "backend is not available: "@ + s@,
            EncoderError::DimensionMismatch { frame_w, frame_h, enc_w, enc_h } => "frame dimensions "@
                + decimal(*frame_w as nat) + "x"@ + decimal(*frame_h as nat)
                + " do not match encoder "@ + decimal(*enc_w as nat) + "x"@ + decimal(
                *enc_h as nat,
            ),
            EncoderError::Backend(s) => "encoder backend error: "@ + s@,
        }
    }

    /// The message of the error.
    pub fn message(&self) -> (r: String)
        ensures
            r@ == self.message_view(),
    {
        match self {
            EncoderError::NoBackendAvailable => String::from_str(
                "no encoder backend is available for this configuration",
            ),
            EncoderError::Unavailable(s) => {
                let mut m = String::from_str("backend is not available: ");
                m.append(s.as_str());
                m
            },
            EncoderError::DimensionMismatch { frame_w, frame_h, enc_w, enc_h } => {
                let mut m = String::from_str("frame dimensions ");
                push_decimal(&mut m, *frame_w as u64);
                m.append("x");
                push_decimal(&mut m, *frame_h as u64);
                m.append(" do not match encoder ");
                push_decimal(&mut m, *enc_w as u64);
                m.append("x");
                push_decimal(&mut m, *enc_h as u64);
                m
            },
            EncoderError::Backend(s) => {
                let mut m = String::from_str("encoder backend error: ");
                m.append(s.as_str());
                m
            },
        }
    }
}

/// The interface each backend (NVENC, Quick Sync, AMF, Media Foundation)
/// implements. Frames are fed in order; one input frame may yield zero or
/// more output units depending on the backend's pipelining, so callers also
/// call `drain` at the end of the stream.
pub trait VideoEncoder {
    /// Human-readable backend name, for logging.
    fn backend_name(&self) -> &str;

    /// Submit one BGRA frame; returns the coded pictures that became
    /// available.
    fn encode(&mut self, frame: &BgraFrame, timestamp_ns: u64) -> Result<
        Vec<EncodedUnit>,
        EncoderError,
    >;

    /// Flush the pipeline at the end of the stream and return the remaining
    /// coded pictures.
    fn drain(&mut self) -> Result<Vec<EncodedUnit>, EncoderError>;
}

} // verus!
