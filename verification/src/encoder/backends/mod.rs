//! Encoder backends whose SDK bindings are not in place yet. Each exposes
//! `create`, which reports the backend unavailable so the selection chain
//! falls through to the next one. Media Foundation, the fallback, needs the
//! Windows COM runtime and is created by the caller of
//! [`crate::encoder::probe::select_encoder`].

pub mod amf;
pub mod nvenc;
pub mod qsv;
