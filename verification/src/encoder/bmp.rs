//! Reader for the BMP files the display driver dumps: `BITMAPFILEHEADER` and
//! `BITMAPINFOHEADER`, 32 bpp, `BI_RGB`, no palette. Anything else is
//! rejected, so a malformed or unexpected file is a hard error rather than a
//! silent misread. Only top-down files (negative height) are read; a
//! bottom-up file (positive height) is refused, and one of height 0 holds no
//! frame.

use vstd::prelude::*;
use vstd::string::*;

use crate::encoder::frame::{pixel_count, BgraFrame};
use crate::text::{decimal, decimal_string, signed_decimal, signed_decimal_string};
use crate::wire::{get16, get32, read16, read32};

verus! {

/// Bytes in the BMP file header.
pub const FILE_HEADER_LEN: usize = 14;

/// Bytes in the smallest BMP info header this reader accepts.
pub const INFO_HEADER_LEN: usize = 40;

/// Why a BMP file could not be read.
#[derive(Debug)]
pub enum BmpError {
    TooShort,
    NotBmp,
    Unsupported(String),
    SizeMismatch,
}

/// A [`BmpError`] with its message as characters.
pub ghost enum BmpErrorView {
    TooShort,
    NotBmp,
    Unsupported(Seq<char>),
    SizeMismatch,
}

impl View for BmpError {
    type V = BmpErrorView;

    open spec fn view(&self) -> BmpErrorView {
        match self {
            BmpError::TooShort => BmpErrorView::TooShort,
            BmpError::NotBmp => BmpErrorView::NotBmp,
            BmpError::Unsupported(s) => BmpErrorView::Unsupported(s@),
            BmpError::SizeMismatch => BmpErrorView::SizeMismatch,
        }
    }
}

impl BmpError {
    /// The message of the error.
    pub fn message(&self) -> (r: String)
        ensures
            r@ == (match self@ {
                BmpErrorView::TooShort => "file shorter than BMP headers"@,
                BmpErrorView::NotBmp => "missing 'BM' signature"@,
                BmpErrorView::Unsupported(s) => "unsupported BMP: "@ + s,
                BmpErrorView::SizeMismatch => "pixel data size does not match dimensions"@,
            }),
    {
        match self {
            BmpError::TooShort => String::from_str("file shorter than BMP headers"),
            BmpError::NotBmp => String::from_str("missing 'BM' signature"),
            BmpError::Unsupported(s) => {
                let mut m = String::from_str("unsupported BMP: ");
                m.append(s.as_str());
                m
            },
            BmpError::SizeMismatch => String::from_str("pixel data size does not match dimensions"),
        }
    }
}

/// The height the file declares, without its sign.
pub open spec fn abs_height(raw: i32) -> u32 {
    if raw < 0 {
        (-(raw as int)) as u32
    } else {
        raw as u32
    }
}

/// Pixel `i` of the top-down frame read from a file whose pixel data starts
/// at `off`, `w` pixels wide.
pub open spec fn bmp_pixel(b: Seq<u8>, off: int, w: int, i: int) -> u32 {
    let row = i / w;
    let x = i % w;
    get32(b, off + (row * w + x) * 4)
}

/// What [`read_bgra_bmp`] gives for the bytes of a file: the width, height
/// and pixel words of the frame, or the error.
pub open spec fn spec_read_bmp(b: Seq<u8>) -> Result<(u32, u32, Seq<u32>), BmpErrorView> {
    if b.len() < 54 {
        Err(BmpErrorView::TooShort)
    } else if b[0] != 66 || b[1] != 77 {
        Err(BmpErrorView::NotBmp)
    } else if get32(b, 14) < 40 {
        Err(BmpErrorView::Unsupported("info header size "@ + decimal(get32(b, 14) as nat)))
    } else if get16(b, 28) != 32 {
        Err(BmpErrorView::Unsupported(decimal(get16(b, 28) as nat) + " bpp (expected 32)"@))
    } else if get32(b, 30) != 0 {
        Err(
            BmpErrorView::Unsupported(
                "compression "@ + decimal(get32(b, 30) as nat) + " (expected BI_RGB)"@,
            ),
        )
    } else if (get32(b, 18) as i32) <= 0 {
        Err(BmpErrorView::Unsupported("width "@ + signed_decimal((get32(b, 18) as i32) as int)))
    } else if (get32(b, 22) as i32) > 0 {
        Err(
            BmpErrorView::Unsupported(
                "height "@ + signed_decimal((get32(b, 22) as i32) as int) + " (expected top-down)"@,
            ),
        )
    } else {
        let w = (get32(b, 18) as i32) as int;
        let raw = get32(b, 22) as i32;
        let h = abs_height(raw) as int;
        let off = get32(b, 10) as int;
        if off + w * h * 4 > b.len() || h == 0 {
            Err(BmpErrorView::SizeMismatch)
        } else {
            Ok((w as u32, h as u32, Seq::new((w * h) as nat, |i: int| bmp_pixel(b, off, w, i))))
        }
    }
}


/// Index facts for pixel `x` of row `row` in a `w` x `h` frame.
proof fn lemma_pixel_index(w: int, h: int, row: int, src_row: int, x: int)
    requires
        w > 0,
        0 <= row < h,
        0 <= src_row < h,
        0 <= x < w,
    ensures
        (src_row * w + x) * 4 + 4 <= w * h * 4,
        src_row * w * 4 + 4 * x == (src_row * w + x) * 4,
        src_row * w * 4 >= 0,
        src_row * w >= 0,
        (row * w + x) / w == row,
        (row * w + x) % w == x,
        row * w + x < w * h,
        (row + 1) * w == row * w + w,
        (row + 1) * w <= w * h,
{
    assert(src_row * w + x + 1 <= w * h) by (nonlinear_arith)
        requires
            src_row + 1 <= h,
            x < w,
            w > 0,
    ;
    assert(row * w + x + 1 <= w * h) by (nonlinear_arith)
        requires
            row + 1 <= h,
            x < w,
            w > 0,
    ;
    assert(src_row * w * 4 >= 0) by (nonlinear_arith)
        requires
            src_row >= 0,
            w > 0,
    ;
    assert((row + 1) * w == row * w + w) by (nonlinear_arith);
    assert((row + 1) * w <= w * h) by (nonlinear_arith)
        requires
            row + 1 <= h,
            w > 0,
    ;
    assert(src_row * w * 4 + 4 * x == (src_row * w + x) * 4) by (nonlinear_arith);
    vstd::arithmetic::div_mod::lemma_fundamental_div_mod_converse(row * w + x, w, row, x);
}

/// The `w * h` pixels whose data starts at `off`, rows in file order.
fn read_rows(bytes: &[u8], off: usize, w: usize, h: usize) -> (r: Vec<u32>)
    requires
        w > 0,
        off + w * h * 4 <= bytes@.len(),
    ensures
        r@ == Seq::new((w * h) as nat, |i: int| bmp_pixel(bytes@, off as int, w as int, i)),
{
    let ghost b = bytes@;
    let len = bytes.len();
    let ghost total = Seq::new((w * h) as nat, |i: int| bmp_pixel(b, off as int, w as int, i));
    let mut pixels: Vec<u32> = Vec::new();
    let mut row: usize = 0;
    let ghost mut count: int = 0;
    assert(row * w == 0) by (nonlinear_arith)
        requires
            row == 0,
    ;
    assert(pixels@ =~= total.take(0));
    while row < h
        invariant
            b == bytes@,
            len == b.len(),
            w > 0,
            off + w * h * 4 <= b.len(),
            total == Seq::new((w * h) as nat, |i: int| bmp_pixel(b, off as int, w as int, i)),
            row <= h,
            count == row * w,
            count <= w * h,
            pixels@ == total.take(count),
        decreases h - row,
    {
        let src_row = row;
        proof {
            lemma_pixel_index(w as int, h as int, row as int, src_row as int, 0);
        }
        let src = off + src_row * w * 4;
        let mut x: usize = 0;
        while x < w
            invariant
                b == bytes@,
                len == b.len(),
                w > 0,
                off + w * h * 4 <= b.len(),
                total == Seq::new((w * h) as nat, |i: int| bmp_pixel(b, off as int, w as int, i)),
                row < h,
                src_row == row,
                src == off + src_row * w * 4,
                x <= w,
                count == row * w + x,
                pixels@ == total.take(count),
            decreases w - x,
        {
            proof {
                lemma_pixel_index(w as int, h as int, row as int, src_row as int, x as int);
            }
            let o = src + 4 * x;
            let word = read32(bytes, o);
            pixels.push(word);
            proof {
                assert(total[count] == word);
                count = count + 1;
                assert(pixels@ =~= total.take(count));
            }
            x = x + 1;
        }
        proof {
            lemma_pixel_index(w as int, h as int, row as int, src_row as int, 0);
            assert(count <= w * h);
        }
        row = row + 1;
    }
    assert(count == w * h) by (nonlinear_arith)
        requires
            count == row * w,
            row == h,
    ;
    assert(pixels@ =~= total);
    pixels
}

/// Parse a 32-bpp BI_RGB BMP into a frame. The pixel bytes are already B,
/// G, R, A, matching [`BgraFrame`].
pub fn read_bgra_bmp(bytes: &[u8]) -> (r: Result<BgraFrame, BmpError>)
    ensures
        match r {
            Ok(f) => spec_read_bmp(bytes@) == Ok::<(u32, u32, Seq<u32>), BmpErrorView>((f.width, f.height, f.pixels@)) && f.wf(),
            Err(e) => spec_read_bmp(bytes@) == Err::<(u32, u32, Seq<u32>), BmpErrorView>(e@),
        },
{
    if bytes.len() < FILE_HEADER_LEN + INFO_HEADER_LEN {
        return Err(BmpError::TooShort);
    }
    if bytes[0] != 66u8 || bytes[1] != 77u8 {
        return Err(BmpError::NotBmp);
    }
    let pixel_offset = read32(bytes, 10);
    let info_size = read32(bytes, 14);
    if info_size < 40 {
        let mut m = String::from_str("info header size ");
        crate::text::push_decimal(&mut m, info_size as u64);
        return Err(BmpError::Unsupported(m));
    }
    let width = read32(bytes, 18) as i32;
    let raw_height = read32(bytes, 22) as i32;
    let bpp = read16(bytes, 28);
    let compression = read32(bytes, 30);
    if bpp != 32 {
        let mut m = decimal_string(bpp as u64);
        m.append(" bpp (expected 32)");
        return Err(BmpError::Unsupported(m));
    }
    if compression != 0 {
        let mut m = String::from_str("compression ");
        crate::text::push_decimal(&mut m, compression as u64);
        m.append(" (expected BI_RGB)");
        return Err(BmpError::Unsupported(m));
    }
    if width <= 0 {
        let mut m = String::from_str("width ");
        let d = signed_decimal_string(width as i64);
        m.append(d.as_str());
        return Err(BmpError::Unsupported(m));
    }
    if raw_height > 0 {
        let mut m = String::from_str("height ");
        let d = signed_decimal_string(raw_height as i64);
        m.append(d.as_str());
        m.append(" (expected top-down)");
        return Err(BmpError::Unsupported(m));
    }
    let height: u32 = (0 - (raw_height as i64)) as u32;
    let w = width as u32;
    let n = pixel_count(w, height);
    proof {
        assert(w * height <= 0x7fff_ffff * 0x8000_0000) by (nonlinear_arith)
            requires
                w <= 0x7fff_ffff,
                height <= 0x8000_0000,
        ;
    }
    let needed: u64 = pixel_offset as u64 + 4 * n;
    if needed > bytes.len() as u64 || height == 0 {
        return Err(BmpError::SizeMismatch);
    }
    proof {
        assert((w as int) * (height as int) * 4 == 4 * n) by (nonlinear_arith)
            requires
                n == w * height,
        ;
    }
    let pixels = read_rows(bytes, pixel_offset as usize, w as usize, height as usize);
    match BgraFrame::from_words(w, height, pixels) {
        Some(f) => Ok(f),
        None => Err(BmpError::SizeMismatch),
    }
}

} // verus!
