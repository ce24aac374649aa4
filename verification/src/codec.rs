//! Little-endian integers inside byte sequences.

use vstd::prelude::*;

verus! {

/// The two little-endian bytes of `x`.
pub open spec fn u16_bytes(x: u16) -> Seq<u8> {
    seq![(x % 256) as u8, (x / 256) as u8]
}

/// The four little-endian bytes of `x`.
pub open spec fn u32_bytes(x: u32) -> Seq<u8> {
    seq![
        (x % 256) as u8,
        (x / 256 % 256) as u8,
        (x / 65536 % 256) as u8,
        (x / 16777216) as u8,
    ]
}

/// The eight little-endian bytes of `x`: the low word, and the high word.
pub open spec fn u64_bytes(x: u64) -> Seq<u8> {
    u32_bytes((x % 4294967296) as u32) + u32_bytes((x / 4294967296) as u32)
}

/// The value of two little-endian bytes.
pub open spec fn u16_value(s: Seq<u8>) -> u16 {
    (s[0] + 256 * s[1]) as u16
}

/// The value of four little-endian bytes.
pub open spec fn u32_value(s: Seq<u8>) -> u32 {
    (s[0] + 256 * s[1] + 65536 * s[2] + 16777216 * s[3]) as u32
}

/// The value of eight little-endian bytes.
pub open spec fn u64_value(s: Seq<u8>) -> u64 {
    (u32_value(s.take(4)) + 4294967296 * u32_value(s.skip(4))) as u64
}

/// `s` with the bytes from `off` on replaced by `bytes`.
pub open spec fn splice(s: Seq<u8>, off: int, bytes: Seq<u8>) -> Seq<u8> {
    Seq::new(
        s.len(),
        |j: int|
            if off <= j < off + bytes.len() {
                bytes[j - off]
            } else {
                s[j]
            },
    )
}

/// The `i`-th little-endian 32-bit word of `s`.
pub open spec fn word(s: Seq<u8>, i: int) -> u32 {
    u32_value(s.subrange(4 * i, 4 * i + 4))
}

/// `s` with its `i`-th 32-bit word replaced by `x`.
pub open spec fn with_word(s: Seq<u8>, i: int, x: u32) -> Seq<u8> {
    splice(s, 4 * i, u32_bytes(x))
}

/// Encoding a 16-bit integer and decoding it gives the integer back.
pub proof fn lemma_u16_roundtrip(x: u16)
    ensures
        u16_bytes(x).len() == 2,
        u16_value(u16_bytes(x)) == x,
{
}

/// Encoding a 32-bit integer and decoding it gives the integer back.
pub proof fn lemma_u32_roundtrip(x: u32)
    ensures
        u32_bytes(x).len() == 4,
        u32_value(u32_bytes(x)) == x,
{
}

/// Encoding a 64-bit integer and decoding it gives the integer back.
pub proof fn lemma_u64_roundtrip(x: u64)
    ensures
        u64_bytes(x).len() == 8,
        u64_value(u64_bytes(x)) == x,
{
    let low: u32 = (x % 4294967296) as u32;
    let high: u32 = (x / 4294967296) as u32;
    lemma_u32_roundtrip(low);
    lemma_u32_roundtrip(high);
    assert(u64_bytes(x).take(4) =~= u32_bytes(low));
    assert(u64_bytes(x).skip(4) =~= u32_bytes(high));
}

/// Replacing a word changes that word and no other.
pub proof fn lemma_with_word(s: Seq<u8>, i: int, x: u32, k: int)
    requires
        0 <= i,
        4 * i + 4 <= s.len(),
        0 <= k,
        4 * k + 4 <= s.len(),
    ensures
        with_word(s, i, x).len() == s.len(),
        word(with_word(s, i, x), k) == if k == i {
            x
        } else {
            word(s, k)
        },
{
    let t = with_word(s, i, x);
    lemma_u32_roundtrip(x);
    if k == i {
        assert(t.subrange(4 * k, 4 * k + 4) =~= u32_bytes(x));
    } else {
        assert(t.subrange(4 * k, 4 * k + 4) =~= s.subrange(4 * k, 4 * k + 4));
    }
}

/// Reads the little-endian 16-bit integer at `off`.
pub fn get_u16(buf: &[u8], off: usize) -> (x: u16)
    requires
        off + 2 <= buf@.len(),
    ensures
        x == u16_value(buf@.subrange(off as int, off + 2)),
{
    buf[off] as u16 + 256 * buf[off + 1] as u16
}

/// Reads the little-endian 32-bit integer at `off`.
pub fn get_u32(buf: &[u8], off: usize) -> (x: u32)
    requires
        off + 4 <= buf@.len(),
    ensures
        x == u32_value(buf@.subrange(off as int, off + 4)),
{
    buf[off] as u32 + 256 * buf[off + 1] as u32 + 65536 * buf[off + 2] as u32 + 16777216 * buf[off
        + 3] as u32
}

/// Reads the little-endian 64-bit integer at `off`.
pub fn get_u64(buf: &[u8], off: usize) -> (x: u64)
    requires
        off + 8 <= buf@.len(),
    ensures
        x == u64_value(buf@.subrange(off as int, off + 8)),
{
    proof {
        assert(buf.len() == buf@.len());
        let s = buf@.subrange(off as int, off + 8);
        assert(s.take(4) =~= buf@.subrange(off as int, off + 4));
        assert(s.skip(4) =~= buf@.subrange(off + 4, off + 8));
    }
    get_u32(buf, off) as u64 + 4294967296 * get_u32(buf, off + 4) as u64
}

/// Writes `x` at `off`, little-endian.
pub fn put_u32(buf: &mut [u8], off: usize, x: u32)
    requires
        off + 4 <= old(buf)@.len(),
    ensures
        final(buf)@ == splice(old(buf)@, off as int, u32_bytes(x)),
{
    buf[off] = (x % 256) as u8;
    buf[off + 1] = (x / 256 % 256) as u8;
    buf[off + 2] = (x / 65536 % 256) as u8;
    buf[off + 3] = (x / 16777216) as u8;
    assert(buf@ =~= splice(old(buf)@, off as int, u32_bytes(x)));
}

/// Copies `bytes` into `buf`, starting at `off`.
pub fn put_bytes(buf: &mut [u8], off: usize, bytes: &[u8])
    requires
        off + bytes@.len() <= old(buf)@.len(),
    ensures
        final(buf)@ == splice(old(buf)@, off as int, bytes@),
{
    let end: usize = buf.len();
    let mut i: usize = 0;
    while i < bytes.len()
        invariant
            i <= bytes@.len(),
            off + bytes@.len() <= end == old(buf)@.len(),
            buf@ == splice(old(buf)@, off as int, bytes@.take(i as int)),
        decreases bytes.len() - i,
    {
        buf[off + i] = bytes[i];
        i = i + 1;
        assert(buf@ =~= splice(old(buf)@, off as int, bytes@.take(i as int)));
    }
    assert(bytes@.take(i as int) =~= bytes@);
}

/// Overwrites `buf` with zeros from `from` up to, but not at, `to`.
pub fn put_zeros(buf: &mut [u8], from: usize, to: usize)
    requires
        from <= to <= old(buf)@.len(),
    ensures
        final(buf)@ == splice(old(buf)@, from as int, Seq::new((to - from) as nat, |j: int| 0u8)),
{
    let mut i: usize = from;
    while i < to
        invariant
            from <= i <= to <= old(buf)@.len(),
            buf@ == splice(old(buf)@, from as int, Seq::new((i - from) as nat, |j: int| 0u8)),
        decreases to - i,
    {
        buf[i] = 0;
        i = i + 1;
        assert(buf@ =~= splice(
            old(buf)@,
            from as int,
            Seq::new((i - from) as nat, |j: int| 0u8),
        ));
    }
}

/// Appends `x` to `out`, little-endian.
pub fn push_u16(out: &mut Vec<u8>, x: u16)
    ensures
        final(out)@ == old(out)@ + u16_bytes(x),
{
    out.push((x % 256) as u8);
    out.push((x / 256) as u8);
    assert(out@ =~= old(out)@ + u16_bytes(x));
}

/// Appends `x` to `out`, little-endian.
pub fn push_u32(out: &mut Vec<u8>, x: u32)
    ensures
        final(out)@ == old(out)@ + u32_bytes(x),
{
    out.push((x % 256) as u8);
    out.push((x / 256 % 256) as u8);
    out.push((x / 65536 % 256) as u8);
    out.push((x / 16777216) as u8);
    assert(out@ =~= old(out)@ + u32_bytes(x));
}

/// Appends `x` to `out`, little-endian.
pub fn push_u64(out: &mut Vec<u8>, x: u64)
    ensures
        final(out)@ == old(out)@ + u64_bytes(x),
{
    push_u32(out, (x % 4294967296) as u32);
    push_u32(out, (x / 4294967296) as u32);
    assert(out@ =~= old(out)@ + u64_bytes(x));
}

} // verus!
