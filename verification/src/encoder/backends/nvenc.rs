//! NVENC backend (not yet available: it needs the NVIDIA Video Codec SDK and D3D11 interop).

use vstd::prelude::*;
use vstd::string::*;

use crate::encoder::config::EncoderConfig;
use crate::encoder::video::EncoderError;

verus! {

/// Why this backend cannot be created.
pub open spec fn unavailable_reason() -> Seq<char> {
    "NVENC backend not yet implemented (needs NVIDIA Video Codec SDK bindings)"@
}

/// Reports the backend unavailable.
pub fn create<E>(_config: &EncoderConfig) -> (r: Result<E, EncoderError>)
    ensures
        r matches Err(EncoderError::Unavailable(s)) && s@ == unavailable_reason(),
{
    Err(EncoderError::Unavailable(String::from_str("NVENC backend not yet implemented (needs NVIDIA Video Codec SDK bindings)")))
}

} // verus!
