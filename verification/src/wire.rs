//! Little-endian field encoding shared by the frame, packet, input and
//! frame-section formats.

use vstd::prelude::*;

verus! {

/// The two little-endian bytes of `v`.
pub open spec fn le16(v: u16) -> Seq<u8> {
    seq![(v & 0xff) as u8, ((v >> 8) & 0xff) as u8]
}

/// The four little-endian bytes of `v`.
pub open spec fn le32(v: u32) -> Seq<u8> {
    seq![
        (v & 0xff) as u8,
        ((v >> 8) & 0xff) as u8,
        ((v >> 16) & 0xff) as u8,
        ((v >> 24) & 0xff) as u8,
    ]
}

/// The eight little-endian bytes of `v`.
pub open spec fn le64(v: u64) -> Seq<u8> {
    seq![
        (v & 0xff) as u8,
        ((v >> 8) & 0xff) as u8,
        ((v >> 16) & 0xff) as u8,
        ((v >> 24) & 0xff) as u8,
        ((v >> 32) & 0xff) as u8,
        ((v >> 40) & 0xff) as u8,
        ((v >> 48) & 0xff) as u8,
        ((v >> 56) & 0xff) as u8,
    ]
}

/// The `u16` stored little-endian at `off` in `s`.
pub open spec fn get16(s: Seq<u8>, off: int) -> u16 {
    (s[off] as u16) | ((s[off + 1] as u16) << 8)
}

/// The `u32` stored little-endian at `off` in `s`.
pub open spec fn get32(s: Seq<u8>, off: int) -> u32 {
    (s[off] as u32) | ((s[off + 1] as u32) << 8) | ((s[off + 2] as u32) << 16) | ((s[off
        + 3] as u32) << 24)
}

/// The `u64` stored little-endian at `off` in `s`.
pub open spec fn get64(s: Seq<u8>, off: int) -> u64 {
    (s[off] as u64) | ((s[off + 1] as u64) << 8) | ((s[off + 2] as u64) << 16) | ((s[off
        + 3] as u64) << 24) | ((s[off + 4] as u64) << 32) | ((s[off + 5] as u64) << 40) | ((s[off
        + 6] as u64) << 48) | ((s[off + 7] as u64) << 56)
}

/// `n` zero bytes.
pub open spec fn zeros(n: nat) -> Seq<u8> {
    Seq::new(n, |i: int| 0u8)
}

proof fn lemma_le16_bits(v: u16)
    ensures
        (((v & 0xff) as u8) as u16) | ((((v >> 8) & 0xff) as u8) as u16) << 8 == v,
{
    assert((((v & 0xff) as u8) as u16) | ((((v >> 8) & 0xff) as u8) as u16) << 8 == v)
        by (bit_vector);
}

proof fn lemma_le32_bits(v: u32)
    ensures
        (((v & 0xff) as u8) as u32) | ((((v >> 8) & 0xff) as u8) as u32) << 8 | ((((v >> 16)
            & 0xff) as u8) as u32) << 16 | ((((v >> 24) & 0xff) as u8) as u32) << 24 == v,
{
    assert((((v & 0xff) as u8) as u32) | ((((v >> 8) & 0xff) as u8) as u32) << 8 | ((((v >> 16)
        & 0xff) as u8) as u32) << 16 | ((((v >> 24) & 0xff) as u8) as u32) << 24 == v)
        by (bit_vector);
}

proof fn lemma_le64_bits(v: u64)
    ensures
        (((v & 0xff) as u8) as u64) | ((((v >> 8) & 0xff) as u8) as u64) << 8 | ((((v >> 16)
            & 0xff) as u8) as u64) << 16 | ((((v >> 24) & 0xff) as u8) as u64) << 24 | ((((v
            >> 32) & 0xff) as u8) as u64) << 32 | ((((v >> 40) & 0xff) as u8) as u64) << 40
            | ((((v >> 48) & 0xff) as u8) as u64) << 48 | ((((v >> 56) & 0xff) as u8) as u64)
            << 56 == v,
{
    assert((((v & 0xff) as u8) as u64) | ((((v >> 8) & 0xff) as u8) as u64) << 8 | ((((v >> 16)
        & 0xff) as u8) as u64) << 16 | ((((v >> 24) & 0xff) as u8) as u64) << 24 | ((((v >> 32)
        & 0xff) as u8) as u64) << 32 | ((((v >> 40) & 0xff) as u8) as u64) << 40 | ((((v >> 48)
        & 0xff) as u8) as u64) << 48 | ((((v >> 56) & 0xff) as u8) as u64) << 56 == v)
        by (bit_vector);
}

/// Reading back a `u16` that was written at `off` gives the written value.
pub proof fn lemma_get16(s: Seq<u8>, off: int, v: u16)
    requires
        0 <= off,
        off + 2 <= s.len(),
        s.subrange(off, off + 2) == le16(v),
    ensures
        get16(s, off) == v,
{
    assert(s[off] == s.subrange(off, off + 2)[0]);
    assert(s[off + 1] == s.subrange(off, off + 2)[1]);
    lemma_le16_bits(v);
}

/// Reading back a `u32` that was written at `off` gives the written value.
pub proof fn lemma_get32(s: Seq<u8>, off: int, v: u32)
    requires
        0 <= off,
        off + 4 <= s.len(),
        s.subrange(off, off + 4) == le32(v),
    ensures
        get32(s, off) == v,
{
    let t = s.subrange(off, off + 4);
    assert(s[off] == t[0] && s[off + 1] == t[1] && s[off + 2] == t[2] && s[off + 3] == t[3]);
    lemma_le32_bits(v);
}

/// Reading back a `u64` that was written at `off` gives the written value.
pub proof fn lemma_get64(s: Seq<u8>, off: int, v: u64)
    requires
        0 <= off,
        off + 8 <= s.len(),
        s.subrange(off, off + 8) == le64(v),
    ensures
        get64(s, off) == v,
{
    let t = s.subrange(off, off + 8);
    assert(s[off] == t[0] && s[off + 1] == t[1] && s[off + 2] == t[2] && s[off + 3] == t[3]);
    assert(s[off + 4] == t[4] && s[off + 5] == t[5] && s[off + 6] == t[6] && s[off + 7] == t[7]);
    lemma_le64_bits(v);
}

/// Appends the little-endian bytes of `v`.
pub fn put16(out: &mut Vec<u8>, v: u16)
    ensures
        final(out)@ == old(out)@ + le16(v),
{
    out.push((v & 0xff) as u8);
    out.push(((v >> 8) & 0xff) as u8);
    assert(out@ =~= old(out)@ + le16(v));
}

/// Appends the little-endian bytes of `v`.
pub fn put32(out: &mut Vec<u8>, v: u32)
    ensures
        final(out)@ == old(out)@ + le32(v),
{
    out.push((v & 0xff) as u8);
    out.push(((v >> 8) & 0xff) as u8);
    out.push(((v >> 16) & 0xff) as u8);
    out.push(((v >> 24) & 0xff) as u8);
    assert(out@ =~= old(out)@ + le32(v));
}

/// Appends the little-endian bytes of `v`.
pub fn put64(out: &mut Vec<u8>, v: u64)
    ensures
        final(out)@ == old(out)@ + le64(v),
{
    out.push((v & 0xff) as u8);
    out.push(((v >> 8) & 0xff) as u8);
    out.push(((v >> 16) & 0xff) as u8);
    out.push(((v >> 24) & 0xff) as u8);
    out.push(((v >> 32) & 0xff) as u8);
    out.push(((v >> 40) & 0xff) as u8);
    out.push(((v >> 48) & 0xff) as u8);
    out.push(((v >> 56) & 0xff) as u8);
    assert(out@ =~= old(out)@ + le64(v));
}

/// Appends `n` zero bytes.
pub fn put_zeros(out: &mut Vec<u8>, n: usize)
    ensures
        final(out)@ == old(out)@ + zeros(n as nat),
{
    let mut i: usize = 0;
    while i < n
        invariant
            i <= n,
            out@ == old(out)@ + zeros(i as nat),
        decreases n - i,
    {
        out.push(0u8);
        i = i + 1;
        assert(out@ =~= old(out)@ + zeros(i as nat));
    }
}

/// Appends every byte of `src`.
pub fn put_bytes(out: &mut Vec<u8>, src: &[u8])
    ensures
        final(out)@ == old(out)@ + src@,
{
    let mut i: usize = 0;
    while i < src.len()
        invariant
            i <= src@.len(),
            out@ == old(out)@ + src@.subrange(0, i as int),
        decreases src@.len() - i,
    {
        out.push(src[i]);
        i = i + 1;
        assert(out@ =~= old(out)@ + src@.subrange(0, i as int));
    }
    assert(src@.subrange(0, src@.len() as int) =~= src@);
}

/// Copies `bytes[start..end]` into a new vector.
pub fn copy_range(bytes: &[u8], start: usize, end: usize) -> (r: Vec<u8>)
    requires
        start <= end <= bytes@.len(),
    ensures
        r@ == bytes@.subrange(start as int, end as int),
{
    let mut r: Vec<u8> = Vec::new();
    let mut i: usize = start;
    while i < end
        invariant
            start <= i <= end <= bytes@.len(),
            r@ == bytes@.subrange(start as int, i as int),
        decreases end - i,
    {
        r.push(bytes[i]);
        i = i + 1;
        assert(r@ =~= bytes@.subrange(start as int, i as int));
    }
    r
}

/// The `u16` stored little-endian at `off`.
pub fn read16(bytes: &[u8], off: usize) -> (r: u16)
    requires
        off + 2 <= bytes@.len(),
    ensures
        r == get16(bytes@, off as int),
{
    (bytes[off] as u16) | ((bytes[off + 1] as u16) << 8)
}

/// The `u32` stored little-endian at `off`.
pub fn read32(bytes: &[u8], off: usize) -> (r: u32)
    requires
        off + 4 <= bytes@.len(),
    ensures
        r == get32(bytes@, off as int),
{
    (bytes[off] as u32) | ((bytes[off + 1] as u32) << 8) | ((bytes[off + 2] as u32) << 16) | ((
    bytes[off + 3] as u32) << 24)
}

/// The `u64` stored little-endian at `off`.
pub fn read64(bytes: &[u8], off: usize) -> (r: u64)
    requires
        off + 8 <= bytes@.len(),
    ensures
        r == get64(bytes@, off as int),
{
    (bytes[off] as u64) | ((bytes[off + 1] as u64) << 8) | ((bytes[off + 2] as u64) << 16) | ((
    bytes[off + 3] as u64) << 24) | ((bytes[off + 4] as u64) << 32) | ((bytes[off + 5] as u64)
        << 40) | ((bytes[off + 6] as u64) << 48) | ((bytes[off + 7] as u64) << 56)
}


/// Appends `src[start..end]`.
pub fn put_bytes_range(out: &mut Vec<u8>, src: &[u8], start: usize, end: usize)
    requires
        start <= end <= src@.len(),
    ensures
        final(out)@ == old(out)@ + src@.subrange(start as int, end as int),
{
    let mut i: usize = start;
    while i < end
        invariant
            start <= i <= end <= src@.len(),
            out@ == old(out)@ + src@.subrange(start as int, i as int),
        decreases end - i,
    {
        out.push(src[i]);
        i = i + 1;
        assert(out@ =~= old(out)@ + src@.subrange(start as int, i as int));
    }
}

} // verus!
