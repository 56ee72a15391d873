//! Video encoding for the host: captured BGRA frames, the encoder settings,
//! colour conversion to NV12, reading captured BMP files, checking Annex-B
//! output, and choosing among the encoder backends.
//!
//! The backend preference order is NVENC, Quick Sync, AMF, then Media
//! Foundation as the universal fallback.

pub mod config;
pub mod frame;
pub mod color;
pub mod bmp;
pub mod nal;
pub mod video;
pub mod backends;
pub mod probe;
pub use probe::{select_encoder, Backend, BackendStatus};
pub use nal::{summarize, NalSummary};
pub use video::{EncodedUnit, EncoderError, VideoEncoder};
pub use bmp::{read_bgra_bmp, BmpError};

pub use config::{Codec, EncoderConfig};
pub use frame::BgraFrame;
pub use color::{bgra_to_nv12, Nv12};
