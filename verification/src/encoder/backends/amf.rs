//! AMD AMF backend (not yet available: it needs the AMD AMF SDK bindings).

use vstd::prelude::*;
use vstd::string::*;

use crate::encoder::config::EncoderConfig;
use crate::encoder::video::EncoderError;

verus! {

/// Why this backend cannot be created.
pub open spec fn unavailable_reason() -> Seq<char> {
    "AMF backend not yet implemented (needs AMD AMF SDK bindings)"@
}

/// Reports the backend unavailable.
pub fn create<E>(_config: &EncoderConfig) -> (r: Result<E, EncoderError>)
    ensures
        r matches Err(EncoderError::Unavailable(s)) && s@ == unavailable_reason(),
{
    Err(EncoderError::Unavailable(String::from_str("AMF backend not yet implemented (needs AMD AMF SDK bindings)")))
}

} // verus!
