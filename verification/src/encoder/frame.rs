//! One captured frame in 32-bpp BGRA.

use vstd::prelude::*;

use crate::wire::get32;

verus! {

/// One captured frame in 32-bpp BGRA, top-down, tightly packed: each pixel is
/// a little-endian `0xAARRGGBB` word whose bytes in memory are `B, G, R, A`,
/// row-major from the top-left.
#[derive(Debug, Clone, PartialEq, Eq)]
pub struct BgraFrame {
    pub width: u32,
    pub height: u32,
    /// BGRA words, row-major, top-down; `width * height` of them.
    pub pixels: Vec<u32>,
}

impl BgraFrame {
    /// Nonzero dimensions and exactly one word per pixel.
    pub open spec fn wf(&self) -> bool {
        &&& self.width > 0
        &&& self.height > 0
        &&& self.pixels@.len() == self.width * self.height
    }
}

/// When [`BgraFrame::from_words`] accepts its input.
pub open spec fn words_fit(width: u32, height: u32, len: nat) -> bool {
    width > 0 && height > 0 && len == width * height
}

/// The pixel words held by `bytes`, four little-endian bytes each.
pub open spec fn words_of(bytes: Seq<u8>) -> Seq<u32> {
    Seq::new(bytes.len() / 4, |i: int| get32(bytes, 4 * i))
}

impl BgraFrame {
    /// A frame from BGRA words; `None` when a dimension is zero or the number
    /// of words is not `width * height`.
    pub fn from_words(width: u32, height: u32, pixels: Vec<u32>) -> (r: Option<BgraFrame>)
        ensures
            r is Some <==> words_fit(width, height, pixels@.len()),
            r matches Some(f) ==> f.width == width && f.height == height && f.pixels@
                == pixels@ && f.wf(),
    {
        if width == 0 || height == 0 {
            return None;
        }
        let n: u64 = pixel_count(width, height);
        if pixels.len() as u64 != n {
            return None;
        }
        Some(BgraFrame { width, height, pixels })
    }

    /// A frame from raw bytes, four per pixel in B, G, R, A order; `None` on
    /// any size mismatch.
    pub fn from_bytes(width: u32, height: u32, bytes: &[u8]) -> (r: Option<BgraFrame>)
        ensures
            r is Some <==> width > 0 && height > 0 && bytes@.len() == 4 * (width * height),
            r matches Some(f) ==> f.width == width && f.height == height && f.pixels@
                == words_of(bytes@) && f.wf(),
    {
        let n: u64 = pixel_count(width, height);
        let len: usize = bytes.len();
        if n > 0x3fff_ffff_ffff_ffff || len as u64 != 4 * n {
            return None;
        }
        let pixels = words_from_bytes(bytes);
        Self::from_words(width, height, pixels)
    }
}

/// `width * height`, which always fits in a `u64`.
pub fn pixel_count(width: u32, height: u32) -> (r: u64)
    ensures
        r == width * height,
{
    proof {
        assert(width * height <= 0xffff_ffff * 0xffff_ffff) by (nonlinear_arith)
            requires
                width <= 0xffff_ffff,
                height <= 0xffff_ffff,
        ;
    }
    (width as u64) * (height as u64)
}

/// The words of `bytes`, four bytes each, little-endian.
pub fn words_from_bytes(bytes: &[u8]) -> (r: Vec<u32>)
    requires
        bytes@.len() % 4 == 0,
    ensures
        r@ == words_of(bytes@),
{
    let len: usize = bytes.len();
    let n = len / 4;
    let mut out: Vec<u32> = Vec::new();
    let mut i: usize = 0;
    while i < n
        invariant
            len == bytes@.len(),
            n == len / 4,
            len % 4 == 0,
            i <= n,
            out@.len() == i,
            forall|k: int| 0 <= k < i ==> out@[k] == get32(bytes@, 4 * k),
        decreases n - i,
    {
        assert(4 * i + 4 <= bytes@.len());
        let o = 4 * i;
        let w = (bytes[o] as u32) | ((bytes[o + 1] as u32) << 8) | ((bytes[o + 2] as u32) << 16)
            | ((bytes[o + 3] as u32) << 24);
        out.push(w);
        i = i + 1;
    }
    assert(out@ =~= words_of(bytes@));
    out
}

} // verus!
