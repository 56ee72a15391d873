//! BGRA to NV12 colour conversion on the CPU, with BT.601 studio-swing
//! ("limited range") coefficients in 2^15 fixed point.
//!
//! NV12 is a full-resolution Y plane followed by a half-resolution plane of
//! interleaved U, V samples, one pair per 2x2 block of pixels.

use vstd::prelude::*;

use crate::encoder::frame::{pixel_count, BgraFrame};

verus! {

/// NV12 buffer: the Y plane, `width * height` bytes, followed by the UV
/// plane, `width * (height / 2)` bytes (U, V interleaved), in one buffer.
pub struct Nv12 {
    pub width: u32,
    pub height: u32,
    pub data: Vec<u8>,
}

impl Nv12 {
    /// Bytes in the Y plane.
    pub fn y_len(&self) -> (r: usize)
        requires
            self.width * self.height <= usize::MAX,
        ensures
            r == self.width * self.height,
    {
        pixel_count(self.width, self.height) as usize
    }

    /// Bytes in the UV plane.
    pub fn uv_len(&self) -> (r: usize)
        requires
            self.width * (self.height / 2) <= usize::MAX,
        ensures
            r == self.width * (self.height / 2),
    {
        pixel_count(self.width, self.height / 2) as usize
    }
}

/// The 8-bit channel of a BGRA word at bit `shift` (0 blue, 8 green, 16 red).
pub open spec fn channel(px: u32, shift: u32) -> int {
    ((px >> shift) & 0xff) as int
}

/// `v` clamped to `0..=255`.
pub open spec fn clamp_byte(v: int) -> u8 {
    if v < 0 {
        0
    } else if v > 255 {
        255
    } else {
        v as u8
    }
}

/// Y = 16 + 0.256788 R + 0.504129 G + 0.097906 B, rounded, in 2^15 fixed point.
pub open spec fn luma(r: int, g: int, b: int) -> u8 {
    clamp_byte((524_288 + 8_415 * r + 16_519 * g + 3_208 * b + 16_384) / 32_768)
}

/// U = 128 - 0.148223 R - 0.290993 G + 0.439216 B, rounded, in 2^15 fixed point.
pub open spec fn chroma_u(r: int, g: int, b: int) -> u8 {
    clamp_byte((4_194_304 - 4_858 * r - 9_536 * g + 14_392 * b + 16_384) / 32_768)
}

/// V = 128 + 0.439216 R - 0.367788 G - 0.071427 B, rounded, in 2^15 fixed point.
pub open spec fn chroma_v(r: int, g: int, b: int) -> u8 {
    clamp_byte((4_194_304 + 14_392 * r - 12_053 * g - 2_341 * b + 16_384) / 32_768)
}

/// The luma of one BGRA word.
pub open spec fn pixel_luma(px: u32) -> u8 {
    luma(channel(px, 16), channel(px, 8), channel(px, 0))
}

/// The average, rounded down, of one channel over the 2x2 block `(bx, by)`
/// of a frame `w` pixels wide.
pub open spec fn block_channel(p: Seq<u32>, w: int, bx: int, by: int, shift: u32) -> int {
    let top = 2 * by * w + 2 * bx;
    let bottom = (2 * by + 1) * w + 2 * bx;
    (channel(p[top], shift) + channel(p[top + 1], shift) + channel(p[bottom], shift) + channel(
        p[bottom + 1],
        shift,
    )) / 4
}

/// The U (even `k`) or V (odd `k`) byte at position `k` of the UV plane.
pub open spec fn chroma_byte(p: Seq<u32>, w: int, k: int) -> u8 {
    let j = k / 2;
    let bx = j % (w / 2);
    let by = j / (w / 2);
    let r = block_channel(p, w, bx, by, 16);
    let g = block_channel(p, w, bx, by, 8);
    let b = block_channel(p, w, bx, by, 0);
    if k % 2 == 0 {
        chroma_u(r, g, b)
    } else {
        chroma_v(r, g, b)
    }
}

/// The NV12 bytes of a `w` x `h` BGRA frame.
pub open spec fn nv12_of(p: Seq<u32>, w: int, h: int) -> Seq<u8> {
    Seq::new((w * h) as nat, |i: int| pixel_luma(p[i])) + Seq::new(
        ((w / 2) * (h / 2) * 2) as nat,
        |k: int| chroma_byte(p, w, k),
    )
}

proof fn lemma_channel_bound(px: u32)
    ensures
        0 <= channel(px, 0) <= 255,
        0 <= channel(px, 8) <= 255,
        0 <= channel(px, 16) <= 255,
{
    assert(((px >> 0u32) & 0xff) <= 255 && ((px >> 8u32) & 0xff) <= 255 && ((px >> 16u32) & 0xff) <= 255)
        by (bit_vector);
}

fn clamp_u8(v: i32) -> (r: u8)
    ensures
        r == clamp_byte(v as int),
{
    if v < 0 {
        0
    } else if v > 255 {
        255
    } else {
        v as u8
    }
}

fn rgb_to_y(r: i32, g: i32, b: i32) -> (y: u8)
    requires
        0 <= r <= 255,
        0 <= g <= 255,
        0 <= b <= 255,
    ensures
        y == luma(r as int, g as int, b as int),
{
    let num: i32 = 524_288 + 8_415 * r + 16_519 * g + 3_208 * b + 16_384;
    clamp_u8(num / 32_768)
}

fn rgb_to_u(r: i32, g: i32, b: i32) -> (u: u8)
    requires
        0 <= r <= 255,
        0 <= g <= 255,
        0 <= b <= 255,
    ensures
        u == chroma_u(r as int, g as int, b as int),
{
    let num: i32 = 4_194_304 - 4_858 * r - 9_536 * g + 14_392 * b + 16_384;
    clamp_u8(num / 32_768)
}

fn rgb_to_v(r: i32, g: i32, b: i32) -> (v: u8)
    requires
        0 <= r <= 255,
        0 <= g <= 255,
        0 <= b <= 255,
    ensures
        v == chroma_v(r as int, g as int, b as int),
{
    let num: i32 = 4_194_304 + 14_392 * r - 12_053 * g - 2_341 * b + 16_384;
    clamp_u8(num / 32_768)
}

fn channel_of(px: u32, shift: u32) -> (c: i32)
    requires
        shift == 0 || shift == 8 || shift == 16,
    ensures
        c == channel(px, shift),
        0 <= c <= 255,
{
    proof {
        lemma_channel_bound(px);
    }
    ((px >> shift) & 0xff) as i32
}


/// Appends the luma of the first `n` pixels.
fn push_luma_plane(pixels: &Vec<u32>, n: usize, data: &mut Vec<u8>)
    requires
        n <= pixels@.len(),
        old(data)@.len() == 0,
    ensures
        final(data)@ == Seq::new(n as nat, |i: int| pixel_luma(pixels@[i])),
{
    let mut i: usize = 0;
    while i < n
        invariant
            n <= pixels@.len(),
            i <= n,
            data@ == Seq::new(i as nat, |k: int| pixel_luma(pixels@[k])),
        decreases n - i,
    {
        let px = pixels[i];
        let r = channel_of(px, 16);
        let g = channel_of(px, 8);
        let b = channel_of(px, 0);
        data.push(rgb_to_y(r, g, b));
        i = i + 1;
        assert(data@ =~= Seq::new(i as nat, |k: int| pixel_luma(pixels@[k])));
    }
}

/// Index facts for the 2x2 block `(bx, by)` of an even `w` x `h` frame.
proof fn lemma_block_in_frame(w: int, h: int, bx: int, by: int)
    requires
        w > 0,
        h > 0,
        w % 2 == 0,
        h % 2 == 0,
        0 <= bx < w / 2,
        0 <= by < h / 2,
    ensures
        (2 * by + 1) * w + 2 * bx + 1 < w * h,
        (2 * by + 1) * w == 2 * by * w + w,
        2 * (by + 1) * w == 2 * by * w + 2 * w,
        2 * by * w >= 0,
{
    assert((2 * by + 1) * w == 2 * by * w + w) by (nonlinear_arith);
    assert(2 * (by + 1) * w == 2 * by * w + 2 * w) by (nonlinear_arith);
    assert(2 * by * w >= 0) by (nonlinear_arith)
        requires
            by >= 0,
            w > 0,
    ;
    assert((2 * by + 2) * w <= h * w) by (nonlinear_arith)
        requires
            2 * by + 2 <= h,
            w > 0,
    ;
    assert(h * w == w * h) by (nonlinear_arith);
}

/// Where UV pair number `j = by * (w / 2) + bx` sits.
proof fn lemma_pair_position(w: int, bx: int, by: int, count: int)
    requires
        w > 0,
        w % 2 == 0,
        0 <= bx < w / 2,
        0 <= by,
        count == by * (w / 2) + bx,
    ensures
        (2 * count) / 2 == count,
        (2 * count + 1) / 2 == count,
        (2 * count) % 2 == 0,
        (2 * count + 1) % 2 == 1,
        count % (w / 2) == bx,
        count / (w / 2) == by,
{
    vstd::arithmetic::div_mod::lemma_fundamental_div_mod_converse(count, w / 2, by, bx);
}

/// Convert a BGRA frame to NV12. Both dimensions must be even and nonzero
/// (the H.264 chroma requirement); otherwise the result is `None`.
pub fn bgra_to_nv12(frame: &BgraFrame) -> (r: Option<Nv12>)
    requires
        frame.width > 0 && frame.height > 0 && frame.width % 2 == 0 && frame.height % 2 == 0
            ==> frame.pixels@.len() >= frame.width * frame.height && frame.width * frame.height
            + (frame.width / 2) * (frame.height / 2) * 2 <= usize::MAX,
    ensures
        r is Some <==> frame.width > 0 && frame.height > 0 && frame.width % 2 == 0
            && frame.height % 2 == 0,
        r matches Some(n) ==> n.width == frame.width && n.height == frame.height && n.data@
            == nv12_of(frame.pixels@, frame.width as int, frame.height as int),
{
    let w = frame.width;
    let h = frame.height;
    if w == 0 || h == 0 || w % 2 == 1 || h % 2 == 1 {
        return None;
    }
    let ghost p = frame.pixels@;
    let ghost wi = w as int;
    let ghost hi = h as int;
    let n = pixel_count(w, h) as usize;
    let mut data: Vec<u8> = Vec::new();
    push_luma_plane(&frame.pixels, n, &mut data);
    let ghost luma_plane = data@;
    let ghost uv = Seq::new(((wi / 2) * (hi / 2) * 2) as nat, |k: int| chroma_byte(p, wi, k));
    assert(uv.take(0) =~= Seq::<u8>::empty());
    assert(data@ =~= luma_plane + uv.take(0));
    let wu = w as usize;
    let hw = wu / 2;
    let hh = (h as usize) / 2;
    proof {
        assert((wi / 2) * (hi / 2) <= (wi / 2) * (hi / 2) * 2) by (nonlinear_arith)
            requires
                wi / 2 >= 0,
                hi / 2 >= 0,
        ;
    }
    let mut by: usize = 0;
    let mut row0: usize = 0;
    let ghost mut count: int = 0;
    assert(2 * by * wi == 0) by (nonlinear_arith)
        requires
            by == 0,
    ;
    assert(by * hw == 0) by (nonlinear_arith)
        requires
            by == 0,
    ;
    while by < hh
        invariant
            wi == w,
            hi == h,
            wu == w,
            hw == wi / 2,
            hh == hi / 2,
            wi > 0 && hi > 0 && wi % 2 == 0 && hi % 2 == 0,
            p == frame.pixels@,
            p.len() >= wi * hi,
            n == wi * hi,
            wi * hi + (wi / 2) * (hi / 2) * 2 <= usize::MAX,
            uv == Seq::new(((wi / 2) * (hi / 2) * 2) as nat, |k: int| chroma_byte(p, wi, k)),
            luma_plane.len() == n,
            by <= hh,
            row0 == 2 * by * wi,
            count == by * hw,
            count <= hw * hh,
            data@ == luma_plane + uv.take(2 * count),
        decreases hh - by,
    {
        let mut bx: usize = 0;
        while bx < hw
            invariant
                wi == w,
                hi == h,
                wu == w,
                hw == wi / 2,
                hh == hi / 2,
                wi > 0 && hi > 0 && wi % 2 == 0 && hi % 2 == 0,
                p == frame.pixels@,
                p.len() >= wi * hi,
                n == wi * hi,
                wi * hi + (wi / 2) * (hi / 2) * 2 <= usize::MAX,
                uv == Seq::new(((wi / 2) * (hi / 2) * 2) as nat, |k: int| chroma_byte(p, wi, k)),
                luma_plane.len() == n,
                by < hh,
                bx <= hw,
                row0 == 2 * by * wi,
                count == by * hw + bx,
                data@ == luma_plane + uv.take(2 * count),
            decreases hw - bx,
        {
            proof {
                lemma_block_in_frame(wi, hi, bx as int, by as int);
                lemma_pair_position(wi, bx as int, by as int, count);
                assert(by * hw + bx < hw * hh) by (nonlinear_arith)
                    requires
                        bx < hw,
                        by < hh,
                        by >= 0,
                        bx >= 0,
                ;
                assert(hw * hh == (wi / 2) * (hi / 2)) by (nonlinear_arith)
                    requires
                        hw == wi / 2,
                        hh == hi / 2,
                ;
            }
            let x0 = 2 * bx;
            let top = row0 + x0;
            let bottom = row0 + wu + x0;
            let p00 = frame.pixels[top];
            let p01 = frame.pixels[top + 1];
            let p10 = frame.pixels[bottom];
            let p11 = frame.pixels[bottom + 1];
            let r = (channel_of(p00, 16) + channel_of(p01, 16) + channel_of(p10, 16) + channel_of(p11, 16)) / 4;
            let g = (channel_of(p00, 8) + channel_of(p01, 8) + channel_of(p10, 8) + channel_of(p11, 8)) / 4;
            let b = (channel_of(p00, 0) + channel_of(p01, 0) + channel_of(p10, 0) + channel_of(p11, 0)) / 4;
            assert(r == block_channel(p, wi, bx as int, by as int, 16));
            assert(g == block_channel(p, wi, bx as int, by as int, 8));
            assert(b == block_channel(p, wi, bx as int, by as int, 0));
            data.push(rgb_to_u(r, g, b));
            data.push(rgb_to_v(r, g, b));
            proof {
                assert(uv[2 * count] == chroma_u(r as int, g as int, b as int));
                assert(uv[2 * count + 1] == chroma_v(r as int, g as int, b as int));
                count = count + 1;
                assert(data@ =~= luma_plane + uv.take(2 * count));
            }
            bx = bx + 1;
        }
        proof {
            lemma_block_in_frame(wi, hi, 0, by as int);
            assert((by + 1) * hw == by * hw + hw) by (nonlinear_arith);
            assert((by + 1) * hw <= hw * hh) by (nonlinear_arith)
                requires
                    by + 1 <= hh,
                    hw >= 0,
            ;
        }
        row0 = row0 + 2 * wu;
        by = by + 1;
    }
    proof {
        assert(count == (wi / 2) * (hi / 2)) by (nonlinear_arith)
            requires
                count == by * hw,
                by == hh,
                hw == wi / 2,
                hh == hi / 2,
        ;
        assert(uv.take(2 * count) =~= uv);
        assert(luma_plane =~= Seq::new((wi * hi) as nat, |i: int| pixel_luma(p[i])));
    }
    Some(Nv12 { width: w, height: h, data })
}

/// Each of the four pixels of a 2x2 block, in either of its two rows,
/// weighs a quarter in the block's average: raising one channel of any one
/// of them by 4 raises that channel's block average by exactly 1.
pub proof fn lemma_block_average_weighs_every_pixel(
    p: Seq<u32>,
    w: int,
    bx: int,
    by: int,
    dx: int,
    dy: int,
    shift: u32,
    px: u32,
)
    requires
        0 <= bx,
        2 * bx + 1 < w,
        0 <= by,
        (2 * by + 2) * w <= p.len(),
        0 <= dx <= 1,
        0 <= dy <= 1,
        channel(px, shift) == channel(p[(2 * by + dy) * w + 2 * bx + dx], shift) + 4,
    ensures
        block_channel(p.update((2 * by + dy) * w + 2 * bx + dx, px), w, bx, by, shift)
            == block_channel(p, w, bx, by, shift) + 1,
{
    let top = 2 * by * w + 2 * bx;
    let bottom = (2 * by + 1) * w + 2 * bx;
    assert((2 * by + 1) * w == 2 * by * w + w) by (nonlinear_arith);
    assert((2 * by + 2) * w == 2 * by * w + 2 * w) by (nonlinear_arith);
    assert(2 * by * w >= 0) by (nonlinear_arith)
        requires
            by >= 0,
            w >= 0,
    ;
    let i = (2 * by + dy) * w + 2 * bx + dx;
    if dy == 0 {
        assert(i == top + dx);
    } else {
        assert(i == bottom + dx);
    }
    let q = p.update(i, px);
    assert(bottom == top + w);
    assert(bottom + 1 < p.len());
}

/// The block average does not depend on which of the block's two rows is
/// on top: swapping them leaves every channel's average unchanged.
pub proof fn lemma_block_average_row_symmetric(p: Seq<u32>, q: Seq<u32>, w: int, bx: int, by: int, shift: u32)
    requires
        0 <= bx,
        2 * bx + 1 < w,
        0 <= by,
        (2 * by + 2) * w <= p.len(),
        q.len() == p.len(),
        q[2 * by * w + 2 * bx] == p[(2 * by + 1) * w + 2 * bx],
        q[2 * by * w + 2 * bx + 1] == p[(2 * by + 1) * w + 2 * bx + 1],
        q[(2 * by + 1) * w + 2 * bx] == p[2 * by * w + 2 * bx],
        q[(2 * by + 1) * w + 2 * bx + 1] == p[2 * by * w + 2 * bx + 1],
    ensures
        block_channel(q, w, bx, by, shift) == block_channel(p, w, bx, by, shift),
{
}

/// Grey has no colour: a block whose average red, green and blue are equal
/// gets the neutral chroma 128 for both U and V.
pub proof fn lemma_grey_has_neutral_chroma(x: int)
    requires
        0 <= x <= 255,
    ensures
        chroma_u(x, x, x) == 128,
        chroma_v(x, x, x) == 128,
{
}

/// Where a block's chroma lands: the UV plane follows the `w * h` luma
/// bytes, and the U, V pair of block `(bx, by)` sits at pair
/// `by * (w / 2) + bx`, U first, each computed from that block's averages.
pub proof fn lemma_block_chroma_position(p: Seq<u32>, w: int, h: int, bx: int, by: int)
    requires
        w >= 2,
        h >= 2,
        0 <= bx < w / 2,
        0 <= by < h / 2,
    ensures
        ({
            let out = nv12_of(p, w, h);
            let at = w * h + 2 * (by * (w / 2) + bx);
            let r = block_channel(p, w, bx, by, 16);
            let g = block_channel(p, w, bx, by, 8);
            let b = block_channel(p, w, bx, by, 0);
            &&& out[at] == chroma_u(r, g, b)
            &&& out[at + 1] == chroma_v(r, g, b)
        }),
{
    let half = w / 2;
    let j = by * half + bx;
    let k = 2 * j;
    vstd::arithmetic::div_mod::lemma_fundamental_div_mod_converse(j, half, by, bx);
    assert(k / 2 == j && k % 2 == 0);
    assert((k + 1) / 2 == j && (k + 1) % 2 == 1);
    assert(by * half + bx < (h / 2) * half) by (nonlinear_arith)
        requires
            0 <= bx < half,
            0 <= by < h / 2,
    ;
    assert(w * h >= 0) by (nonlinear_arith)
        requires
            w >= 2,
            h >= 2,
    ;
    let y = Seq::new((w * h) as nat, |i: int| pixel_luma(p[i]));
    let uv = Seq::new(((w / 2) * (h / 2) * 2) as nat, |k: int| chroma_byte(p, w, k));
    assert((w / 2) * (h / 2) * 2 == 2 * ((h / 2) * (w / 2))) by (nonlinear_arith);
    assert(nv12_of(p, w, h)[w * h + k] == uv[k]);
    assert(nv12_of(p, w, h)[w * h + k + 1] == uv[k + 1]);
}

} // verus!
