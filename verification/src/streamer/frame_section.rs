//! The shared-memory section through which the display driver hands captured
//! frames to the host process.
//!
//! ```text
//! section = [ header (48 B) | slot 0 | slot 1 ]
//! ```
//!
//! Two slots let the writer fill one while a reader drains the other. A
//! sequence number works as a seqlock: the writer makes it odd while it
//! writes and even again once the frame is stable; a reader that sees an odd
//! or moving sequence discards its copy. The latest frame wins.
//!
//! Writer protocol ([`publish`] is the reference implementation):
//!  1. `sequence <- sequence + 1` (odd: write in progress)
//!  2. fill the slot that is not currently published
//!  3. set `slot`, `width`, `height`, `timestamp_ns`
//!  4. `sequence <- sequence + 2` (even: stable)
//!
//! The byte layout is fixed little-endian with the offsets below.

use vstd::prelude::*;

use crate::encoder::frame::{pixel_count, words_of, BgraFrame};
use crate::wire::{get32, get64, le32, le64};

verus! {

/// ASCII `UDFR`, little-endian.
pub const MAGIC: u32 = 0x5246_4455;

/// Layout version; bumped on any change to the header or slot layout.
pub const VERSION: u32 = 1;

/// Pixel slots per section.
pub const SLOT_COUNT: usize = 2;

/// The section's name, without a namespace prefix.
pub const SECTION_NAME: &'static str = "USBDisplayFrame";

/// Header size in bytes, also written into the header so a skew shows.
pub const HEADER_SIZE: u32 = 48;

/// Larger dimensions are rejected rather than mapped.
pub const MAX_DIMENSION: u32 = 16_384;

/// Header offset of the magic number.
pub const OFF_MAGIC: usize = 0;

/// Header offset of the layout version.
pub const OFF_VERSION: usize = 4;

/// Header offset of the header size.
pub const OFF_HEADER_SIZE: usize = 8;

/// Header offset of the size of one slot.
pub const OFF_SLOT_BYTES: usize = 12;

/// Header offset of the published width.
pub const OFF_WIDTH: usize = 16;

/// Header offset of the published height.
pub const OFF_HEIGHT: usize = 20;

/// Header offset of the published slot index.
pub const OFF_SLOT: usize = 24;

/// Header offset of the flags.
pub const OFF_FLAGS: usize = 28;

/// Header offset of the seqlock sequence.
pub const OFF_SEQUENCE: usize = 32;

/// Header offset of the capture timestamp.
pub const OFF_TIMESTAMP_NS: usize = 40;

/// How many times a torn read is retried before this frame is skipped.
pub const MAX_READ_ATTEMPTS: u32 = 4;

/// The section header as fields.
#[derive(Clone, Copy, Debug, PartialEq, Eq, Structural)]
pub struct FrameSectionHeader {
    pub magic: u32,
    pub version: u32,
    pub header_size: u32,
    pub slot_bytes: u32,
    pub width: u32,
    pub height: u32,
    pub slot: u32,
    pub flags: u32,
    pub sequence: u64,
    pub timestamp_ns: u64,
}

/// The header with every field zero.
pub open spec fn zero_header() -> FrameSectionHeader {
    FrameSectionHeader {
        magic: 0,
        version: 0,
        header_size: 0,
        slot_bytes: 0,
        width: 0,
        height: 0,
        slot: 0,
        flags: 0,
        sequence: 0,
        timestamp_ns: 0,
    }
}

impl Default for FrameSectionHeader {
    fn default() -> (r: FrameSectionHeader)
        ensures
            r == zero_header(),
    {
        FrameSectionHeader {
            magic: 0,
            version: 0,
            header_size: 0,
            slot_bytes: 0,
            width: 0,
            height: 0,
            slot: 0,
            flags: 0,
            sequence: 0,
            timestamp_ns: 0,
        }
    }
}

/// Why a section cannot be read or written.
#[derive(Debug, Clone, Copy, PartialEq, Eq, Structural)]
pub enum SectionError {
    TooSmall { have: usize, need: usize },
    BadMagic { found: u32 },
    BadVersion { found: u32 },
    BadHeaderSize { found: u32 },
    BadSlot { found: u32 },
    BadDimensions { width: u32, height: u32 },
    SlotBytesMismatch { declared: u32, expected: usize },
}

/// The header held by the first 48 bytes of `b`.
pub open spec fn header_of(b: Seq<u8>) -> FrameSectionHeader {
    FrameSectionHeader {
        magic: get32(b, 0),
        version: get32(b, 4),
        header_size: get32(b, 8),
        slot_bytes: get32(b, 12),
        width: get32(b, 16),
        height: get32(b, 20),
        slot: get32(b, 24),
        flags: get32(b, 28),
        sequence: get64(b, 32),
        timestamp_ns: get64(b, 40),
    }
}

/// The header of a section, or all zeros when it is too short for one.
pub open spec fn header_or_zero(b: Seq<u8>) -> FrameSectionHeader {
    if b.len() < 48 {
        zero_header()
    } else {
        header_of(b)
    }
}

/// The sequence of a section, or 0 when it is too short for a header.
pub open spec fn sequence_of(b: Seq<u8>) -> u64 {
    if b.len() < 48 {
        0
    } else {
        get64(b, 32)
    }
}

/// Bytes one slot needs: `width * height * 4`, when that fits a `usize`.
pub open spec fn spec_slot_bytes(width: u32, height: u32) -> Option<usize> {
    if width * height * 4 > usize::MAX {
        None
    } else {
        Some((width * height * 4) as usize)
    }
}

/// Bytes a whole section needs, when that fits a `usize`.
pub open spec fn spec_section_len(width: u32, height: u32) -> Option<usize> {
    match spec_slot_bytes(width, height) {
        None => None,
        Some(slot) => if 48 + slot * 2 > usize::MAX {
            None
        } else {
            Some((48 + slot * 2) as usize)
        },
    }
}

/// What checking a header against a section of `len` bytes gives: the slot
/// size, or the first problem found.
pub open spec fn spec_validate(h: FrameSectionHeader, len: usize) -> Result<usize, SectionError> {
    if h.magic != MAGIC {
        Err(SectionError::BadMagic { found: h.magic })
    } else if h.version != VERSION {
        Err(SectionError::BadVersion { found: h.version })
    } else if h.header_size != HEADER_SIZE {
        Err(SectionError::BadHeaderSize { found: h.header_size })
    } else if h.width == 0 || h.height == 0 || h.width > MAX_DIMENSION || h.height
        > MAX_DIMENSION {
        Err(SectionError::BadDimensions { width: h.width, height: h.height })
    } else {
        let expected = h.width * h.height * 4;
        if h.slot_bytes != expected {
            Err(SectionError::SlotBytesMismatch { declared: h.slot_bytes, expected: expected as usize })
        } else if len < 48 + expected * 2 {
            Err(SectionError::TooSmall { have: len, need: (48 + expected * 2) as usize })
        } else {
            Ok(expected as usize)
        }
    }
}

/// The bytes of slot `index` when slots are `slot_len` bytes long.
pub open spec fn slot_region(b: Seq<u8>, index: int, slot_len: int) -> Seq<u8> {
    b.subrange(48 + index * slot_len, 48 + (index + 1) * slot_len)
}

/// A frame read from a section: width, height, pixel words, timestamp.
pub type SnapshotView = (u32, u32, Seq<u32>, u64);

/// What [`read_snapshot`] gives for a section that no writer changes while
/// it reads: an error for a section that does not describe itself
/// consistently, nothing when no frame was published yet or a publish is in
/// flight, and otherwise the published frame.
pub open spec fn spec_read_snapshot(b: Seq<u8>) -> Result<Option<SnapshotView>, SectionError> {
    let h = header_or_zero(b);
    match spec_validate(h, b.len() as usize) {
        Err(e) => Err(e),
        Ok(slot_len) => {
            if sequence_of(b) == 0 || sequence_of(b) % 2 != 0 {
                Ok(None)
            } else if h.slot >= 2 {
                Err(SectionError::BadSlot { found: h.slot })
            } else {
                Ok(
                    Some(
                        (
                            h.width,
                            h.height,
                            words_of(slot_region(b, h.slot as int, slot_len as int)),
                            h.timestamp_ns,
                        ),
                    ),
                )
            }
        },
    }
}


/// `b` with the bytes `v` written at `off`.
#[verifier::opaque]
pub open spec fn write_at(b: Seq<u8>, off: int, v: Seq<u8>) -> Seq<u8> {
    b.subrange(0, off) + v + b.subrange(off + v.len(), b.len() as int)
}

/// The little-endian bytes of the words `p`, four per word.
pub open spec fn pixel_bytes(p: Seq<u32>) -> Seq<u8> {
    Seq::new(4 * p.len(), |i: int| le32(p[i / 4])[i % 4])
}

/// Bytes one slot needs for a given frame size.
pub fn slot_bytes(width: u32, height: u32) -> (r: Option<usize>)
    ensures
        r == spec_slot_bytes(width, height),
{
    match (width as usize).checked_mul(height as usize) {
        None => {
            proof {
                assert(width * height * 4 >= width * height) by (nonlinear_arith)
                    requires
                        width * height >= 0,
                ;
            }
            None
        },
        Some(n) => n.checked_mul(4),
    }
}

/// Total bytes a section needs for a given frame size.
pub fn section_len(width: u32, height: u32) -> (r: Option<usize>)
    ensures
        r == spec_section_len(width, height),
{
    match slot_bytes(width, height) {
        None => None,
        Some(slot) => match slot.checked_mul(SLOT_COUNT) {
            None => None,
            Some(both) => (HEADER_SIZE as usize).checked_add(both),
        },
    }
}

/// Writes `v` little-endian at `off`.
pub fn put_u32(buf: &mut [u8], off: usize, v: u32)
    requires
        off + 4 <= old(buf)@.len(),
    ensures
        final(buf)@ == write_at(old(buf)@, off as int, le32(v)),
        final(buf)@.len() == old(buf)@.len(),
{
    buf[off] = (v & 0xff) as u8;
    buf[off + 1] = ((v >> 8) & 0xff) as u8;
    buf[off + 2] = ((v >> 16) & 0xff) as u8;
    buf[off + 3] = ((v >> 24) & 0xff) as u8;
    reveal(write_at);
    assert(buf@ =~= write_at(old(buf)@, off as int, le32(v)));
}

/// Writes `v` little-endian at `off`.
pub fn put_u64(buf: &mut [u8], off: usize, v: u64)
    requires
        off + 8 <= old(buf)@.len(),
    ensures
        final(buf)@ == write_at(old(buf)@, off as int, le64(v)),
        final(buf)@.len() == old(buf)@.len(),
{
    buf[off] = (v & 0xff) as u8;
    buf[off + 1] = ((v >> 8) & 0xff) as u8;
    buf[off + 2] = ((v >> 16) & 0xff) as u8;
    buf[off + 3] = ((v >> 24) & 0xff) as u8;
    buf[off + 4] = ((v >> 32) & 0xff) as u8;
    buf[off + 5] = ((v >> 40) & 0xff) as u8;
    buf[off + 6] = ((v >> 48) & 0xff) as u8;
    buf[off + 7] = ((v >> 56) & 0xff) as u8;
    reveal(write_at);
    assert(buf@ =~= write_at(old(buf)@, off as int, le64(v)));
}

fn get_u32(buf: &[u8], off: usize) -> (r: u32)
    requires
        off + 4 <= buf@.len(),
    ensures
        r == get32(buf@, off as int),
{
    crate::wire::read32(buf, off)
}

fn get_u64(buf: &[u8], off: usize) -> (r: u64)
    requires
        off + 8 <= buf@.len(),
    ensures
        r == get64(buf@, off as int),
{
    crate::wire::read64(buf, off)
}

/// Decode the header from raw bytes; `None` when they are too few.
pub fn decode_header(buf: &[u8]) -> (r: Option<FrameSectionHeader>)
    ensures
        r == (if buf@.len() < 48 {
            None
        } else {
            Some(header_of(buf@))
        }),
{
    if buf.len() < HEADER_SIZE as usize {
        return None;
    }
    Some(
        FrameSectionHeader {
            magic: get_u32(buf, OFF_MAGIC),
            version: get_u32(buf, OFF_VERSION),
            header_size: get_u32(buf, OFF_HEADER_SIZE),
            slot_bytes: get_u32(buf, OFF_SLOT_BYTES),
            width: get_u32(buf, OFF_WIDTH),
            height: get_u32(buf, OFF_HEIGHT),
            slot: get_u32(buf, OFF_SLOT),
            flags: get_u32(buf, OFF_FLAGS),
            sequence: get_u64(buf, OFF_SEQUENCE),
            timestamp_ns: get_u64(buf, OFF_TIMESTAMP_NS),
        },
    )
}

/// Check a header against the section it claims to describe.
fn validate(header: &FrameSectionHeader, view_len: usize) -> (r: Result<usize, SectionError>)
    ensures
        r == spec_validate(*header, view_len),
{
    if header.magic != MAGIC {
        return Err(SectionError::BadMagic { found: header.magic });
    }
    if header.version != VERSION {
        return Err(SectionError::BadVersion { found: header.version });
    }
    if header.header_size != HEADER_SIZE {
        return Err(SectionError::BadHeaderSize { found: header.header_size });
    }
    if header.width == 0 || header.height == 0 || header.width > MAX_DIMENSION || header.height
        > MAX_DIMENSION {
        return Err(SectionError::BadDimensions { width: header.width, height: header.height });
    }
    proof {
        assert(header.width * header.height <= 16384 * 16384) by (nonlinear_arith)
            requires
                header.width <= 16384,
                header.height <= 16384,
        ;
    }
    let expected = match slot_bytes(header.width, header.height) {
        Some(e) => e,
        None => {
            return Err(SectionError::BadDimensions { width: header.width, height: header.height });
        },
    };
    if header.slot_bytes as usize != expected {
        return Err(SectionError::SlotBytesMismatch { declared: header.slot_bytes, expected });
    }
    let need = HEADER_SIZE as usize + expected * SLOT_COUNT;
    if view_len < need {
        return Err(SectionError::TooSmall { have: view_len, need });
    }
    Ok(expected)
}


/// Where slot `index` lies when slots are `slot_len` bytes long.
proof fn lemma_slot_offsets(index: int, slot_len: int)
    requires
        index >= 0,
        slot_len >= 0,
    ensures
        (index + 1) * slot_len == index * slot_len + slot_len,
        index * slot_len >= 0,
        index < 2 ==> (index + 1) * slot_len <= 2 * slot_len,
{
    assert((index + 1) * slot_len == index * slot_len + slot_len) by (nonlinear_arith);
    assert(index * slot_len >= 0) by (nonlinear_arith)
        requires
            index >= 0,
            slot_len >= 0,
    ;
    assert(index < 2 ==> (index + 1) * slot_len <= 2 * slot_len) by (nonlinear_arith)
        requires
            slot_len >= 0,
            index >= 0,
    ;
}

/// A published frame and its capture timestamp.
#[derive(Debug)]
pub struct FrameSnapshot {
    pub frame: BgraFrame,
    pub timestamp_ns: u64,
}

/// A read-only view of a section's bytes, so the seqlock reading below works
/// on a plain byte slice as well as on memory shared with the driver.
///
/// The contracts speak of the bytes the section holds while no writer is
/// changing them.
pub trait SectionView {
    /// The bytes of the section.
    spec fn section(&self) -> Seq<u8>;

    fn len(&self) -> (r: usize)
        ensures
            r == self.section().len(),
    ;

    fn header(&self) -> (h: FrameSectionHeader)
        ensures
            h == header_or_zero(self.section()),
    ;

    /// The current sequence value.
    fn sequence(&self) -> (s: u64)
        ensures
            s == sequence_of(self.section()),
    ;

    /// Replaces the contents of `out` with slot `index`.
    fn copy_slot(&self, index: usize, slot_bytes: usize, out: &mut Vec<u8>)
        requires
            48 + (index + 1) * slot_bytes <= self.section().len(),
        ensures
            final(out)@ == slot_region(self.section(), index as int, slot_bytes as int),
    ;
}

/// [`SectionView`] over an ordinary byte slice.
pub struct SliceView<'a> {
    bytes: &'a [u8],
}

impl<'a> SliceView<'a> {
    /// A view of `bytes`.
    pub fn new(bytes: &'a [u8]) -> (r: SliceView<'a>)
        ensures
            r.section() == bytes@,
    {
        SliceView { bytes }
    }
}

impl<'a> SectionView for SliceView<'a> {
    closed spec fn section(&self) -> Seq<u8> {
        self.bytes@
    }

    fn len(&self) -> (r: usize) {
        self.bytes.len()
    }

    fn header(&self) -> (h: FrameSectionHeader) {
        match decode_header(self.bytes) {
            Some(h) => h,
            None => FrameSectionHeader::default(),
        }
    }

    fn sequence(&self) -> (s: u64) {
        if self.bytes.len() < HEADER_SIZE as usize {
            return 0;
        }
        get_u64(self.bytes, OFF_SEQUENCE)
    }

    fn copy_slot(&self, index: usize, slot_bytes: usize, out: &mut Vec<u8>) {
        let n = self.bytes.len();
        proof {
            lemma_slot_offsets(index as int, slot_bytes as int);
            assert(48 + index * slot_bytes + slot_bytes <= n);
        }
        let start = HEADER_SIZE as usize + index * slot_bytes;
        out.clear();
        crate::wire::put_bytes_range(out, self.bytes, start, start + slot_bytes);
        assert(out@ =~= slot_region(self.section(), index as int, slot_bytes as int));
    }
}

/// Read the newest consistent frame from a section.
///
/// `Ok(None)` means only that no stable read could be taken within the retry
/// budget (the writer was mid-publish) or that nothing was published yet;
/// the caller keeps its last frame and tries again.
pub fn read_snapshot<V: SectionView>(view: &V) -> (r: Result<Option<FrameSnapshot>, SectionError>)
    ensures
        match r {
            Ok(None) => spec_read_snapshot(view.section()) == Ok::<Option<SnapshotView>, SectionError>(None),
            Ok(Some(s)) => spec_read_snapshot(view.section()) == Ok::<Option<SnapshotView>, SectionError>(
                Some((s.frame.width, s.frame.height, s.frame.pixels@, s.timestamp_ns)),
            ) && s.frame.wf(),
            Err(e) => spec_read_snapshot(view.section()) == Err::<Option<SnapshotView>, SectionError>(e),
        },
{
    let ghost b = view.section();
    let header = view.header();
    let slot_len = match validate(&header, view.len()) {
        Ok(n) => n,
        Err(e) => {
            return Err(e);
        },
    };
    if view.sequence() == 0 {
        return Ok(None);
    }
    let mut scratch: Vec<u8> = Vec::new();
    let mut attempt: u32 = 0;
    while attempt < MAX_READ_ATTEMPTS
        invariant
            b == view.section(),
            header == header_or_zero(b),
            spec_validate(header, b.len() as usize) == Ok::<usize, SectionError>(slot_len),
            sequence_of(b) != 0,
            attempt > 0 ==> sequence_of(b) % 2 != 0,
        decreases MAX_READ_ATTEMPTS - attempt,
    {
        let seq1 = view.sequence();
        if seq1 % 2 != 0 {
            attempt = attempt + 1;
        } else {
            let published = view.header();
            if published.slot as usize >= SLOT_COUNT {
                return Err(SectionError::BadSlot { found: published.slot });
            }
            proof {
                lemma_slot_offsets(published.slot as int, slot_len as int);
            }
            view.copy_slot(published.slot as usize, slot_len, &mut scratch);
            if view.sequence() == seq1 {
                proof {
                    assert(header.width * header.height * 4 == 4 * (header.width * header.height))
                        by (nonlinear_arith);
                }
                let frame = match BgraFrame::from_bytes(header.width, header.height, &scratch) {
                    Some(f) => f,
                    None => {
                        return Err(
                            SectionError::SlotBytesMismatch {
                                declared: header.slot_bytes,
                                expected: slot_len,
                            },
                        );
                    },
                };
                return Ok(Some(FrameSnapshot { frame, timestamp_ns: published.timestamp_ns }));
            }
            attempt = attempt + 1;
        }
    }
    Ok(None)
}


/// The slot a publish writes: the one not currently published.
pub open spec fn target_slot(h: FrameSectionHeader) -> int {
    if h.slot < 2 {
        (h.slot + 1) % 2
    } else {
        0
    }
}

/// The smaller of two numbers.
pub open spec fn min_int(a: int, b: int) -> int {
    if a <= b {
        a
    } else {
        b
    }
}

/// What [`publish`] gives and leaves in a section of bytes `b` for a frame
/// `w` x `h` with pixel words `pixels` and timestamp `ts`. The words go to
/// the slot not currently published, as many as both the slot and `pixels`
/// hold; the header is updated and the sequence advanced by two.
pub open spec fn spec_publish(b: Seq<u8>, w: u32, h: u32, pixels: Seq<u32>, ts: u64) -> (
    Result<(), SectionError>,
    Seq<u8>,
) {
    match spec_slot_bytes(w, h) {
        None => (Err(SectionError::BadDimensions { width: w, height: h }), b),
        Some(slot_len) => {
            let needed = 48 + slot_len * 2;
            if b.len() < needed {
                (Err(SectionError::TooSmall { have: b.len() as usize, need: needed as usize }), b)
            } else {
                let hd = header_of(b);
                let target = target_slot(hd);
                let count = min_int(w * h, pixels.len() as int);
                let b1 = write_at(b, 32, le64(hd.sequence.wrapping_add(1)));
                let b2 = write_at(b1, 48 + target * slot_len, pixel_bytes(pixels.take(count)));
                let b3 = write_at(b2, 16, le32(w));
                let b4 = write_at(b3, 20, le32(h));
                let b5 = write_at(b4, 12, le32(slot_len as u32));
                let b6 = write_at(b5, 24, le32(target as u32));
                let b7 = write_at(b6, 40, le64(ts));
                (Ok(()), write_at(b7, 32, le64(hd.sequence.wrapping_add(2))))
            }
        },
    }
}

/// What [`initialise`] gives and leaves in `b` for a `w` x `h` section: the
/// section zeroed, then a valid header with nothing published.
pub open spec fn spec_initialise(b: Seq<u8>, w: u32, h: u32) -> (Result<usize, SectionError>, Seq<u8>) {
    match spec_slot_bytes(w, h) {
        None => (Err(SectionError::BadDimensions { width: w, height: h }), b),
        Some(slot_len) => {
            let total = 48 + slot_len * 2;
            if b.len() < total {
                (Err(SectionError::TooSmall { have: b.len() as usize, need: total as usize }), b)
            } else {
                let b0 = crate::wire::zeros(total as nat) + b.skip(total);
                let b1 = write_at(b0, 0, le32(MAGIC));
                let b2 = write_at(b1, 4, le32(VERSION));
                let b3 = write_at(b2, 8, le32(HEADER_SIZE));
                let b4 = write_at(b3, 12, le32(slot_len as u32));
                let b5 = write_at(b4, 16, le32(w));
                let b6 = write_at(b5, 20, le32(h));
                let b7 = write_at(b6, 24, le32(0));
                (Ok(total as usize), write_at(b7, 32, le64(0)))
            }
        },
    }
}

/// Writes the words of `pixels` little-endian from `start`, as many as fit
/// in `slot_len` bytes.
fn write_pixels(section: &mut [u8], start: usize, slot_len: usize, pixels: &Vec<u32>)
    requires
        start + slot_len <= old(section)@.len(),
        slot_len % 4 == 0,
    ensures
        final(section)@ == write_at(
            old(section)@,
            start as int,
            pixel_bytes(pixels@.take(min_int((slot_len / 4) as int, pixels@.len() as int))),
        ),
        final(section)@.len() == old(section)@.len(),
{
    let words = slot_len / 4;
    let count = if words <= pixels.len() {
        words
    } else {
        pixels.len()
    };
    let ghost b = section@;
    let n = section.len();
    let mut k: usize = 0;
    reveal(write_at);
    assert(section@ =~= write_at(b, start as int, pixel_bytes(pixels@.take(0))));
    while k < count
        invariant
            n == b.len(),
            b == old(section)@,
            section@.len() == b.len(),
            start + slot_len <= b.len(),
            count <= words,
            words == slot_len / 4,
            slot_len % 4 == 0,
            count <= pixels@.len(),
            k <= count,
            section@ == write_at(b, start as int, pixel_bytes(pixels@.take(k as int))),
        decreases count - k,
    {
        put_u32(section, start + 4 * k, pixels[k]);
        proof {
            let prev = pixel_bytes(pixels@.take(k as int));
            let next = pixel_bytes(pixels@.take(k as int + 1));
            assert forall|i: int| 0 <= i < 4 * k implies next[i] == prev[i] by {}
            assert forall|i: int| 4 * k <= i < 4 * k + 4 implies next[i] == le32(pixels@[k as int])[i
                - 4 * k] by {}
        }
        k = k + 1;
        reveal(write_at);
        assert(section@ =~= write_at(b, start as int, pixel_bytes(pixels@.take(k as int))));
    }
}

/// Publish one frame into a whole-section buffer: the reference
/// implementation of the writer protocol. The buffer should hold an
/// initialised section (see [`initialise`]) for the frame's size.
pub fn publish(section: &mut [u8], frame: &BgraFrame, timestamp_ns: u64) -> (r: Result<(), SectionError>)
    requires
        spec_slot_bytes(frame.width, frame.height) matches Some(n) ==> 48 + n * 2 <= usize::MAX,
    ensures
        (r, final(section)@) == spec_publish(
            old(section)@,
            frame.width,
            frame.height,
            frame.pixels@,
            timestamp_ns,
        ),
{
    let slot_len = match slot_bytes(frame.width, frame.height) {
        Some(n) => n,
        None => {
            return Err(SectionError::BadDimensions { width: frame.width, height: frame.height });
        },
    };
    let needed = HEADER_SIZE as usize + slot_len * SLOT_COUNT;
    if section.len() < needed {
        return Err(SectionError::TooSmall { have: section.len(), need: needed });
    }
    let header = match decode_header(section) {
        Some(h) => h,
        None => {
            return Err(SectionError::TooSmall { have: section.len(), need: HEADER_SIZE as usize });
        },
    };
    let target: usize = if (header.slot as usize) < SLOT_COUNT {
        (header.slot as usize + 1) % SLOT_COUNT
    } else {
        0
    };
    let seq = header.sequence;
    put_u64(section, OFF_SEQUENCE, seq.wrapping_add(1));
    proof {
        lemma_slot_offsets(target as int, slot_len as int);
        assert(frame.width * frame.height * 4 == 4 * (frame.width * frame.height)) by (nonlinear_arith);
    }
    let start = HEADER_SIZE as usize + target * slot_len;
    write_pixels(section, start, slot_len, &frame.pixels);
    put_u32(section, OFF_WIDTH, frame.width);
    put_u32(section, OFF_HEIGHT, frame.height);
    put_u32(section, OFF_SLOT_BYTES, slot_len as u32);
    put_u32(section, OFF_SLOT, target as u32);
    put_u64(section, OFF_TIMESTAMP_NS, timestamp_ns);
    put_u64(section, OFF_SEQUENCE, seq.wrapping_add(2));
    Ok(())
}

/// Write a valid, unpublished section header into `buf`, zeroing the whole
/// section first; returns the section's length.
pub fn initialise(buf: &mut [u8], width: u32, height: u32) -> (r: Result<usize, SectionError>)
    requires
        spec_slot_bytes(width, height) matches Some(n) ==> 48 + n * 2 <= usize::MAX,
    ensures
        (r, final(buf)@) == spec_initialise(old(buf)@, width, height),
{
    let slot_len = match slot_bytes(width, height) {
        Some(n) => n,
        None => {
            return Err(SectionError::BadDimensions { width, height });
        },
    };
    let total = HEADER_SIZE as usize + slot_len * SLOT_COUNT;
    if buf.len() < total {
        return Err(SectionError::TooSmall { have: buf.len(), need: total });
    }
    let ghost b = buf@;
    let mut i: usize = 0;
    while i < total
        invariant
            b == old(buf)@,
            total <= b.len(),
            buf@.len() == b.len(),
            i <= total,
            buf@ == crate::wire::zeros(i as nat) + b.skip(i as int),
        decreases total - i,
    {
        buf[i] = 0;
        i = i + 1;
        assert(buf@ =~= crate::wire::zeros(i as nat) + b.skip(i as int));
    }
    put_u32(buf, OFF_MAGIC, MAGIC);
    put_u32(buf, OFF_VERSION, VERSION);
    put_u32(buf, OFF_HEADER_SIZE, HEADER_SIZE);
    put_u32(buf, OFF_SLOT_BYTES, slot_len as u32);
    put_u32(buf, OFF_WIDTH, width);
    put_u32(buf, OFF_HEIGHT, height);
    put_u32(buf, OFF_SLOT, 0);
    put_u64(buf, OFF_SEQUENCE, 0);
    Ok(total)
}


proof fn lemma_write_at(b: Seq<u8>, off: int, v: Seq<u8>)
    requires
        0 <= off,
        off + v.len() <= b.len(),
    ensures
        write_at(b, off, v).len() == b.len(),
        forall|i: int|
            0 <= i < b.len() ==> #[trigger] write_at(b, off, v)[i] == (if off <= i < off + v.len() {
                v[i - off]
            } else {
                b[i]
            }),
        write_at(b, off, v).subrange(off, off + v.len()) == v,
{
    reveal(write_at);
    assert(write_at(b, off, v).subrange(off, off + v.len()) =~= v);
}

proof fn lemma_get32_written(b: Seq<u8>, off: int, v: u32)
    requires
        0 <= off,
        off + 4 <= b.len(),
    ensures
        get32(write_at(b, off, le32(v)), off) == v,
{
    lemma_write_at(b, off, le32(v));
    crate::wire::lemma_get32(write_at(b, off, le32(v)), off, v);
}

proof fn lemma_get64_written(b: Seq<u8>, off: int, v: u64)
    requires
        0 <= off,
        off + 8 <= b.len(),
    ensures
        get64(write_at(b, off, le64(v)), off) == v,
{
    lemma_write_at(b, off, le64(v));
    crate::wire::lemma_get64(write_at(b, off, le64(v)), off, v);
}

/// A write elsewhere leaves a `u32` field as it was.
proof fn lemma_get32_kept(b: Seq<u8>, off: int, v: Seq<u8>, at: int)
    requires
        0 <= off,
        off + v.len() <= b.len(),
        0 <= at,
        at + 4 <= b.len(),
        at + 4 <= off || off + v.len() <= at,
    ensures
        get32(write_at(b, off, v), at) == get32(b, at),
{
    lemma_write_at(b, off, v);
    let s = write_at(b, off, v);
    assert(s[at] == b[at] && s[at + 1] == b[at + 1] && s[at + 2] == b[at + 2] && s[at + 3] == b[at + 3]);
}

/// A write elsewhere leaves a `u64` field as it was.
proof fn lemma_get64_kept(b: Seq<u8>, off: int, v: Seq<u8>, at: int)
    requires
        0 <= off,
        off + v.len() <= b.len(),
        0 <= at,
        at + 8 <= b.len(),
        at + 8 <= off || off + v.len() <= at,
    ensures
        get64(write_at(b, off, v), at) == get64(b, at),
{
    lemma_write_at(b, off, v);
    let s = write_at(b, off, v);
    assert(s[at] == b[at] && s[at + 1] == b[at + 1] && s[at + 2] == b[at + 2] && s[at + 3] == b[at + 3]);
    assert(s[at + 4] == b[at + 4] && s[at + 5] == b[at + 5] && s[at + 6] == b[at + 6] && s[at + 7] == b[at + 7]);
}

/// A write elsewhere leaves a region as it was.
proof fn lemma_region_kept(b: Seq<u8>, off: int, v: Seq<u8>, lo: int, hi: int)
    requires
        0 <= off,
        off + v.len() <= b.len(),
        0 <= lo <= hi <= b.len(),
        hi <= off || off + v.len() <= lo,
    ensures
        write_at(b, off, v).subrange(lo, hi) == b.subrange(lo, hi),
{
    lemma_write_at(b, off, v);
    assert(write_at(b, off, v).subrange(lo, hi) =~= b.subrange(lo, hi));
}

/// The words of the bytes of some words are those words.
proof fn lemma_words_of_pixel_bytes(p: Seq<u32>)
    ensures
        words_of(pixel_bytes(p)) == p,
{
    let pb = pixel_bytes(p);
    assert forall|i: int| 0 <= i < p.len() implies #[trigger] words_of(pb)[i] == p[i] by {
        assert(pb.subrange(4 * i, 4 * i + 4) =~= le32(p[i]));
        crate::wire::lemma_get32(pb, 4 * i, p[i]);
    }
    assert(words_of(pb) =~= p);
}


/// A frame published into a section that describes itself (magic, version,
/// header size), is large enough, and holds no publish in flight, reads back
/// as exactly that frame and its timestamp: never a blend of two frames and
/// never the previous one. A sequence of `u64::MAX - 1` is left out: adding
/// two wraps it to 0, which reads as "nothing published".
#[verifier::spinoff_prover]
#[verifier::rlimit(40)]
pub proof fn lemma_read_after_publish(b: Seq<u8>, w: u32, h: u32, pixels: Seq<u32>, ts: u64)
    requires
        48 + 2 * (w * h * 4) <= b.len() <= usize::MAX,
        get32(b, 0) == MAGIC,
        get32(b, 4) == VERSION,
        get32(b, 8) == HEADER_SIZE,
        0 < w <= MAX_DIMENSION,
        0 < h <= MAX_DIMENSION,
        pixels.len() == w * h,
        get64(b, 32) % 2 == 0,
        get64(b, 32) != u64::MAX - 1,
    ensures
        spec_publish(b, w, h, pixels, ts).0 == Ok::<(), SectionError>(()),
        spec_read_snapshot(spec_publish(b, w, h, pixels, ts).1) == Ok::<
            Option<SnapshotView>,
            SectionError,
        >(Some((w, h, pixels, ts))),
        spec_publish(b, w, h, pixels, ts).1.len() == b.len(),
        get32(spec_publish(b, w, h, pixels, ts).1, 0) == MAGIC,
        get32(spec_publish(b, w, h, pixels, ts).1, 4) == VERSION,
        get32(spec_publish(b, w, h, pixels, ts).1, 8) == HEADER_SIZE,
        get64(spec_publish(b, w, h, pixels, ts).1, 32) == get64(b, 32) + 2,
{
    assert(w * h <= 16384 * 16384) by (nonlinear_arith)
        requires
            w <= 16384,
            h <= 16384,
    ;
    assert(w * h > 0) by (nonlinear_arith)
        requires
            w > 0,
            h > 0,
    ;
    let slot_len = w * h * 4;
    assert(spec_slot_bytes(w, h) == Some(slot_len as usize));
    let hd = header_of(b);
    let target = target_slot(hd);
    assert(0 <= target < 2);
    let count = min_int(w * h, pixels.len() as int);
    assert(count == w * h);
    assert(pixels.take(count) =~= pixels);
    let seq = hd.sequence;
    let s1 = seq.wrapping_add(1);
    let s2 = seq.wrapping_add(2);
    assert(s2 == seq + 2);
    let start = 48 + target * slot_len;
    assert(start + slot_len <= b.len()) by (nonlinear_arith)
        requires
            0 <= target < 2,
            start == 48 + target * slot_len,
            slot_len >= 0,
            b.len() >= 48 + 2 * slot_len,
    ;
    assert(start >= 48) by (nonlinear_arith)
        requires
            target >= 0,
            slot_len >= 0,
            start == 48 + target * slot_len,
    ;
    let pb = pixel_bytes(pixels);
    assert(pb.len() == slot_len);
    let b1 = write_at(b, 32, le64(s1));
    lemma_write_at(b, 32, le64(s1));
    let b2 = write_at(b1, start, pb);
    lemma_write_at(b1, start, pb);
    let b3 = write_at(b2, 16, le32(w));
    lemma_write_at(b2, 16, le32(w));
    let b4 = write_at(b3, 20, le32(h));
    lemma_write_at(b3, 20, le32(h));
    let b5 = write_at(b4, 12, le32(slot_len as u32));
    lemma_write_at(b4, 12, le32(slot_len as u32));
    let b6 = write_at(b5, 24, le32(target as u32));
    lemma_write_at(b5, 24, le32(target as u32));
    let b7 = write_at(b6, 40, le64(ts));
    lemma_write_at(b6, 40, le64(ts));
    let b8 = write_at(b7, 32, le64(s2));
    lemma_write_at(b7, 32, le64(s2));
    assert(spec_publish(b, w, h, pixels, ts).1 == b8);
    // magic, version and header size are never written
    lemma_get32_kept(b, 32, le64(s1), 0);
    lemma_get32_kept(b1, start, pb, 0);
    lemma_get32_kept(b2, 16, le32(w), 0);
    lemma_get32_kept(b3, 20, le32(h), 0);
    lemma_get32_kept(b4, 12, le32(slot_len as u32), 0);
    lemma_get32_kept(b5, 24, le32(target as u32), 0);
    lemma_get32_kept(b6, 40, le64(ts), 0);
    lemma_get32_kept(b7, 32, le64(s2), 0);
    lemma_get32_kept(b, 32, le64(s1), 4);
    lemma_get32_kept(b1, start, pb, 4);
    lemma_get32_kept(b2, 16, le32(w), 4);
    lemma_get32_kept(b3, 20, le32(h), 4);
    lemma_get32_kept(b4, 12, le32(slot_len as u32), 4);
    lemma_get32_kept(b5, 24, le32(target as u32), 4);
    lemma_get32_kept(b6, 40, le64(ts), 4);
    lemma_get32_kept(b7, 32, le64(s2), 4);
    lemma_get32_kept(b, 32, le64(s1), 8);
    lemma_get32_kept(b1, start, pb, 8);
    lemma_get32_kept(b2, 16, le32(w), 8);
    lemma_get32_kept(b3, 20, le32(h), 8);
    lemma_get32_kept(b4, 12, le32(slot_len as u32), 8);
    lemma_get32_kept(b5, 24, le32(target as u32), 8);
    lemma_get32_kept(b6, 40, le64(ts), 8);
    lemma_get32_kept(b7, 32, le64(s2), 8);
    // width
    lemma_get32_written(b2, 16, w);
    lemma_get32_kept(b3, 20, le32(h), 16);
    lemma_get32_kept(b4, 12, le32(slot_len as u32), 16);
    lemma_get32_kept(b5, 24, le32(target as u32), 16);
    lemma_get32_kept(b6, 40, le64(ts), 16);
    lemma_get32_kept(b7, 32, le64(s2), 16);
    // height
    lemma_get32_written(b3, 20, h);
    lemma_get32_kept(b4, 12, le32(slot_len as u32), 20);
    lemma_get32_kept(b5, 24, le32(target as u32), 20);
    lemma_get32_kept(b6, 40, le64(ts), 20);
    lemma_get32_kept(b7, 32, le64(s2), 20);
    // slot bytes
    lemma_get32_written(b4, 12, slot_len as u32);
    lemma_get32_kept(b5, 24, le32(target as u32), 12);
    lemma_get32_kept(b6, 40, le64(ts), 12);
    lemma_get32_kept(b7, 32, le64(s2), 12);
    // slot
    lemma_get32_written(b5, 24, target as u32);
    lemma_get32_kept(b6, 40, le64(ts), 24);
    lemma_get32_kept(b7, 32, le64(s2), 24);
    // timestamp
    lemma_get64_written(b6, 40, ts);
    lemma_get64_kept(b7, 32, le64(s2), 40);
    // sequence
    lemma_get64_written(b7, 32, s2);
    // the slot holds the frame
    lemma_region_kept(b2, 16, le32(w), start, start + slot_len);
    lemma_region_kept(b3, 20, le32(h), start, start + slot_len);
    lemma_region_kept(b4, 12, le32(slot_len as u32), start, start + slot_len);
    lemma_region_kept(b5, 24, le32(target as u32), start, start + slot_len);
    lemma_region_kept(b6, 40, le64(ts), start, start + slot_len);
    lemma_region_kept(b7, 32, le64(s2), start, start + slot_len);
    assert(b8.subrange(start, start + slot_len) == pb);
    let hf = header_or_zero(b8);
    assert(hf.magic == MAGIC && hf.version == VERSION && hf.header_size == HEADER_SIZE);
    assert(hf.width == w && hf.height == h && hf.slot_bytes == slot_len);
    assert(hf.slot == target && hf.timestamp_ns == ts && hf.sequence == s2);
    assert(spec_validate(hf, b8.len() as usize) == Ok::<usize, SectionError>(slot_len as usize));
    assert(start + slot_len == 48 + (target + 1) * slot_len) by (nonlinear_arith)
        requires
            start == 48 + target * slot_len,
    ;
    assert(slot_region(b8, hf.slot as int, slot_len) == pb);
    lemma_words_of_pixel_bytes(pixels);
}

/// A section initialised for `w` x `h`, then given one frame of that size,
/// reads back as that frame and its timestamp.
pub proof fn lemma_initialise_publish_read(b: Seq<u8>, w: u32, h: u32, pixels: Seq<u32>, ts: u64)
    requires
        48 + 2 * (w * h * 4) <= b.len() <= usize::MAX,
        0 < w <= MAX_DIMENSION,
        0 < h <= MAX_DIMENSION,
        pixels.len() == w * h,
    ensures
        spec_initialise(b, w, h).0 == Ok::<usize, SectionError>((48 + 2 * (w * h * 4)) as usize),
        spec_publish(spec_initialise(b, w, h).1, w, h, pixels, ts).0 == Ok::<(), SectionError>(()),
        spec_read_snapshot(spec_publish(spec_initialise(b, w, h).1, w, h, pixels, ts).1) == Ok::<
            Option<SnapshotView>,
            SectionError,
        >(Some((w, h, pixels, ts))),
{
    assert(w * h <= 16384 * 16384) by (nonlinear_arith)
        requires
            w <= 16384,
            h <= 16384,
    ;
    let slot_len = w * h * 4;
    let total = 48 + slot_len * 2;
    let b0 = crate::wire::zeros(total as nat) + b.skip(total);
    assert(b0.len() == b.len());
    let b1 = write_at(b0, 0, le32(MAGIC));
    lemma_write_at(b0, 0, le32(MAGIC));
    let b2 = write_at(b1, 4, le32(VERSION));
    lemma_write_at(b1, 4, le32(VERSION));
    let b3 = write_at(b2, 8, le32(HEADER_SIZE));
    lemma_write_at(b2, 8, le32(HEADER_SIZE));
    let b4 = write_at(b3, 12, le32(slot_len as u32));
    lemma_write_at(b3, 12, le32(slot_len as u32));
    let b5 = write_at(b4, 16, le32(w));
    lemma_write_at(b4, 16, le32(w));
    let b6 = write_at(b5, 20, le32(h));
    lemma_write_at(b5, 20, le32(h));
    let b7 = write_at(b6, 24, le32(0));
    lemma_write_at(b6, 24, le32(0));
    let b8 = write_at(b7, 32, le64(0));
    lemma_write_at(b7, 32, le64(0));
    assert(spec_initialise(b, w, h).1 == b8);
    lemma_get32_written(b0, 0, MAGIC);
    lemma_get32_kept(b1, 4, le32(VERSION), 0);
    lemma_get32_kept(b2, 8, le32(HEADER_SIZE), 0);
    lemma_get32_kept(b3, 12, le32(slot_len as u32), 0);
    lemma_get32_kept(b4, 16, le32(w), 0);
    lemma_get32_kept(b5, 20, le32(h), 0);
    lemma_get32_kept(b6, 24, le32(0), 0);
    lemma_get32_kept(b7, 32, le64(0), 0);
    lemma_get32_written(b1, 4, VERSION);
    lemma_get32_kept(b2, 8, le32(HEADER_SIZE), 4);
    lemma_get32_kept(b3, 12, le32(slot_len as u32), 4);
    lemma_get32_kept(b4, 16, le32(w), 4);
    lemma_get32_kept(b5, 20, le32(h), 4);
    lemma_get32_kept(b6, 24, le32(0), 4);
    lemma_get32_kept(b7, 32, le64(0), 4);
    lemma_get32_written(b2, 8, HEADER_SIZE);
    lemma_get32_kept(b3, 12, le32(slot_len as u32), 8);
    lemma_get32_kept(b4, 16, le32(w), 8);
    lemma_get32_kept(b5, 20, le32(h), 8);
    lemma_get32_kept(b6, 24, le32(0), 8);
    lemma_get32_kept(b7, 32, le64(0), 8);
    lemma_get64_written(b7, 32, 0);
    lemma_read_after_publish(b8, w, h, pixels, ts);
}

/// A freshly initialised section reads as "nothing published yet", not as
/// an all-black frame.
pub proof fn lemma_initialised_reads_nothing(b: Seq<u8>, w: u32, h: u32)
    requires
        48 + 2 * (w * h * 4) <= b.len() <= usize::MAX,
        0 < w <= MAX_DIMENSION,
        0 < h <= MAX_DIMENSION,
    ensures
        spec_read_snapshot(spec_initialise(b, w, h).1) == Ok::<Option<SnapshotView>, SectionError>(None),
        spec_initialise(b, w, h).1.len() == b.len(),
        get32(spec_initialise(b, w, h).1, 0) == MAGIC,
        get32(spec_initialise(b, w, h).1, 4) == VERSION,
        get32(spec_initialise(b, w, h).1, 8) == HEADER_SIZE,
        get64(spec_initialise(b, w, h).1, 32) == 0,
{
    assert(w * h <= 16384 * 16384) by (nonlinear_arith)
        requires
            w <= 16384,
            h <= 16384,
    ;
    let slot_len = w * h * 4;
    let total = 48 + slot_len * 2;
    let b0 = crate::wire::zeros(total as nat) + b.skip(total);
    let b1 = write_at(b0, 0, le32(MAGIC));
    lemma_write_at(b0, 0, le32(MAGIC));
    let b2 = write_at(b1, 4, le32(VERSION));
    lemma_write_at(b1, 4, le32(VERSION));
    let b3 = write_at(b2, 8, le32(HEADER_SIZE));
    lemma_write_at(b2, 8, le32(HEADER_SIZE));
    let b4 = write_at(b3, 12, le32(slot_len as u32));
    lemma_write_at(b3, 12, le32(slot_len as u32));
    let b5 = write_at(b4, 16, le32(w));
    lemma_write_at(b4, 16, le32(w));
    let b6 = write_at(b5, 20, le32(h));
    lemma_write_at(b5, 20, le32(h));
    let b7 = write_at(b6, 24, le32(0));
    lemma_write_at(b6, 24, le32(0));
    let b8 = write_at(b7, 32, le64(0));
    lemma_write_at(b7, 32, le64(0));
    lemma_get32_written(b0, 0, MAGIC);
    lemma_get32_kept(b1, 4, le32(VERSION), 0);
    lemma_get32_kept(b2, 8, le32(HEADER_SIZE), 0);
    lemma_get32_kept(b3, 12, le32(slot_len as u32), 0);
    lemma_get32_kept(b4, 16, le32(w), 0);
    lemma_get32_kept(b5, 20, le32(h), 0);
    lemma_get32_kept(b6, 24, le32(0), 0);
    lemma_get32_kept(b7, 32, le64(0), 0);
    lemma_get32_written(b1, 4, VERSION);
    lemma_get32_kept(b2, 8, le32(HEADER_SIZE), 4);
    lemma_get32_kept(b3, 12, le32(slot_len as u32), 4);
    lemma_get32_kept(b4, 16, le32(w), 4);
    lemma_get32_kept(b5, 20, le32(h), 4);
    lemma_get32_kept(b6, 24, le32(0), 4);
    lemma_get32_kept(b7, 32, le64(0), 4);
    lemma_get32_written(b2, 8, HEADER_SIZE);
    lemma_get32_kept(b3, 12, le32(slot_len as u32), 8);
    lemma_get32_kept(b4, 16, le32(w), 8);
    lemma_get32_kept(b5, 20, le32(h), 8);
    lemma_get32_kept(b6, 24, le32(0), 8);
    lemma_get32_kept(b7, 32, le64(0), 8);
    lemma_get32_written(b3, 12, slot_len as u32);
    lemma_get32_kept(b4, 16, le32(w), 12);
    lemma_get32_kept(b5, 20, le32(h), 12);
    lemma_get32_kept(b6, 24, le32(0), 12);
    lemma_get32_kept(b7, 32, le64(0), 12);
    lemma_get32_written(b4, 16, w);
    lemma_get32_kept(b5, 20, le32(h), 16);
    lemma_get32_kept(b6, 24, le32(0), 16);
    lemma_get32_kept(b7, 32, le64(0), 16);
    lemma_get32_written(b5, 20, h);
    lemma_get32_kept(b6, 24, le32(0), 20);
    lemma_get32_kept(b7, 32, le64(0), 20);
    lemma_get64_written(b7, 32, 0);
    assert(spec_initialise(b, w, h).1 == b8);
}

/// Consecutive publishes alternate between the two slots.
pub proof fn lemma_publish_alternates_slots(b: Seq<u8>, w: u32, h: u32, pixels: Seq<u32>, ts: u64)
    requires
        48 + 2 * (w * h * 4) <= b.len() <= usize::MAX,
        0 < w <= MAX_DIMENSION,
        0 < h <= MAX_DIMENSION,
        pixels.len() == w * h,
        get32(b, 24) < 2,
    ensures
        get32(spec_publish(b, w, h, pixels, ts).1, 24) == 1 - get32(b, 24),
{
    assert(w * h <= 16384 * 16384) by (nonlinear_arith)
        requires
            w <= 16384,
            h <= 16384,
    ;
    let slot_len = w * h * 4;
    let hd = header_of(b);
    let target = target_slot(hd);
    let count = min_int(w * h, pixels.len() as int);
    let start = 48 + target * slot_len;
    assert(start + slot_len <= b.len()) by (nonlinear_arith)
        requires
            0 <= target < 2,
            start == 48 + target * slot_len,
            slot_len >= 0,
            b.len() >= 48 + 2 * slot_len,
    ;
    assert(start >= 48) by (nonlinear_arith)
        requires
            target >= 0,
            slot_len >= 0,
            start == 48 + target * slot_len,
    ;
    let pb = pixel_bytes(pixels.take(count));
    assert(pixels.take(count) =~= pixels);
    let s1 = hd.sequence.wrapping_add(1);
    let s2 = hd.sequence.wrapping_add(2);
    let b1 = write_at(b, 32, le64(s1));
    lemma_write_at(b, 32, le64(s1));
    let b2 = write_at(b1, start, pb);
    lemma_write_at(b1, start, pb);
    let b3 = write_at(b2, 16, le32(w));
    lemma_write_at(b2, 16, le32(w));
    let b4 = write_at(b3, 20, le32(h));
    lemma_write_at(b3, 20, le32(h));
    let b5 = write_at(b4, 12, le32(slot_len as u32));
    lemma_write_at(b4, 12, le32(slot_len as u32));
    let b6 = write_at(b5, 24, le32(target as u32));
    lemma_write_at(b5, 24, le32(target as u32));
    let b7 = write_at(b6, 40, le64(ts));
    lemma_write_at(b6, 40, le64(ts));
    lemma_get32_written(b5, 24, target as u32);
    lemma_get32_kept(b6, 40, le64(ts), 24);
    lemma_get32_kept(b7, 32, le64(s2), 24);
}

/// The section after initialising it for `w` x `h` and publishing the first
/// `k` of `frames` (pixel words and timestamp each).
pub open spec fn published(b: Seq<u8>, w: u32, h: u32, frames: Seq<(Seq<u32>, u64)>, k: int) -> Seq<u8>
    decreases k,
{
    if k <= 0 {
        spec_initialise(b, w, h).1
    } else {
        spec_publish(published(b, w, h, frames, k - 1), w, h, frames[k - 1].0, frames[k - 1].1).1
    }
}

/// After `k` publishes the section still describes itself and its sequence
/// is `2k`.
proof fn lemma_published_state(b: Seq<u8>, w: u32, h: u32, frames: Seq<(Seq<u32>, u64)>, k: int)
    requires
        48 + 2 * (w * h * 4) <= b.len() <= usize::MAX,
        0 < w <= MAX_DIMENSION,
        0 < h <= MAX_DIMENSION,
        0 <= k <= frames.len(),
        k < 0x4000_0000_0000_0000,
        forall|i: int| 0 <= i < frames.len() ==> (#[trigger] frames[i]).0.len() == w * h,
    ensures
        published(b, w, h, frames, k).len() == b.len(),
        get32(published(b, w, h, frames, k), 0) == MAGIC,
        get32(published(b, w, h, frames, k), 4) == VERSION,
        get32(published(b, w, h, frames, k), 8) == HEADER_SIZE,
        get64(published(b, w, h, frames, k), 32) == 2 * k,
    decreases k,
{
    if k == 0 {
        lemma_initialised_reads_nothing(b, w, h);
    } else {
        lemma_published_state(b, w, h, frames, k - 1);
        let prev = published(b, w, h, frames, k - 1);
        let f = frames[k - 1];
        lemma_read_after_publish(prev, w, h, f.0, f.1);
    }
}

/// Latest publish wins: a section initialised for `w` x `h` and then given
/// any number of frames of that size reads back as the last of them with its
/// timestamp, and every publish succeeds. Runs of `2^62` publishes or more
/// are left out (the sequence wraps after `2^63`).
pub proof fn lemma_read_after_publishes(b: Seq<u8>, w: u32, h: u32, frames: Seq<(Seq<u32>, u64)>, k: int)
    requires
        48 + 2 * (w * h * 4) <= b.len() <= usize::MAX,
        0 < w <= MAX_DIMENSION,
        0 < h <= MAX_DIMENSION,
        1 <= k <= frames.len(),
        k < 0x4000_0000_0000_0000,
        forall|i: int| 0 <= i < frames.len() ==> (#[trigger] frames[i]).0.len() == w * h,
    ensures
        spec_publish(published(b, w, h, frames, k - 1), w, h, frames[k - 1].0, frames[k - 1].1).0
            == Ok::<(), SectionError>(()),
        spec_read_snapshot(published(b, w, h, frames, k)) == Ok::<Option<SnapshotView>, SectionError>(
            Some((w, h, frames[k - 1].0, frames[k - 1].1)),
        ),
{
    lemma_published_state(b, w, h, frames, k - 1);
    let prev = published(b, w, h, frames, k - 1);
    let f = frames[k - 1];
    lemma_read_after_publish(prev, w, h, f.0, f.1);
}

} // verus!
