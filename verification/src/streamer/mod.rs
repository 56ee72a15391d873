//! The decisions of the streaming host: the frame section shared with the
//! display driver, `adb` device lists, Wi-Fi device addresses and pairing,
//! input injection, and the adaptive bitrate of the Android stream.

pub mod adb;
pub mod frame_section;
pub mod wifi;
pub mod pairing;
pub mod input_inject;
pub mod rate;
pub mod session;
