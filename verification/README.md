# usbdisplay

The host side of USBDisplay: a Windows virtual monitor whose frames are
encoded and streamed to an Android tablet over adb-forwarded USB or Wi-Fi
TLS, with the tablet's touch and keyboard input sent back and replayed on
the host.

## Layout

- `src/` is the library, verified with Verus:
  - `protocol` and `input`: the frame and input-event wire formats, with
    round-trip laws;
  - `transport`: packets, packetizing, reassembly, acknowledgements,
    retransmission and heartbeats;
  - `encoder`: BMP capture files, BGRA to NV12 conversion, encoder
    settings, Annex-B stream checks and backend selection;
  - `streamer`: the frame section shared with the driver (a seqlock over
    two slots), `adb` device lists, Wi-Fi addresses, certificate pinning
    and the pairing handshake's decisions, input injection plans, the
    adaptive bitrate controller, and the streaming session's framing and
    pacing;
  - `checksum`, `wire` and `text`: CRC-32, little-endian fields and the
    string helpers the rest is written with.
- `tests/` runs the library on concrete values.
- `app/` is the `usbdisplay-streamer` program: the command line, files,
  sockets, TLS, `adb`, threads, and the Windows Media Foundation and
  `SendInput` calls, around the library's decisions.
