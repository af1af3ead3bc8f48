use vstd::prelude::*;

verus! {

/// Big-endian image of a 32-bit word.
pub open spec fn be32(x: u32) -> Seq<u8> {
    seq![(x >> 24u32) as u8, (x >> 16u32) as u8, (x >> 8u32) as u8, x as u8]
}

/// Big-endian image of a 16-bit word.
pub open spec fn be16(x: u16) -> Seq<u8> {
    seq![(x >> 8u16) as u8, x as u8]
}

/// The big-endian 32-bit number held by `s[i .. i + 4]`.
pub open spec fn u32_at(s: Seq<u8>, i: int) -> int {
    s[i] * 0x100_0000 + s[i + 1] * 0x1_0000 + s[i + 2] * 0x100 + s[i + 3]
}

/// The big-endian 16-bit number held by `s[i .. i + 2]`.
pub open spec fn u16_at(s: Seq<u8>, i: int) -> int {
    s[i] * 0x100 + s[i + 1]
}

pub fn read_be32(buf: &[u8], pos: usize) -> (r: u32)
    requires
        pos + 4 <= buf@.len(),
    ensures
        r == u32_at(buf@, pos as int),
        be32(r) == buf@.subrange(pos as int, pos + 4),
{
    let b0 = buf[pos];
    let b1 = buf[pos + 1];
    let b2 = buf[pos + 2];
    let b3 = buf[pos + 3];
    let r: u32 = (b0 as u32) * 0x100_0000 + (b1 as u32) * 0x1_0000 + (b2 as u32) * 0x100 + (b3 as u32);
    assert(((r >> 24u32) as u8) == b0 && ((r >> 16u32) as u8) == b1 && ((r >> 8u32) as u8) == b2
        && (r as u8) == b3) by (bit_vector)
        requires
            r == (b0 as u32) * 0x100_0000u32 + (b1 as u32) * 0x1_0000u32 + (b2 as u32) * 0x100u32 + (b3 as u32),
    ;
    assert(be32(r) =~= buf@.subrange(pos as int, pos + 4));
    r
}

pub fn read_be16(buf: &[u8], pos: usize) -> (r: u16)
    requires
        pos + 2 <= buf@.len(),
    ensures
        r == u16_at(buf@, pos as int),
        be16(r) == buf@.subrange(pos as int, pos + 2),
{
    let b0 = buf[pos];
    let b1 = buf[pos + 1];
    let r: u16 = (b0 as u16) * 0x100 + (b1 as u16);
    assert(((r >> 8u16) as u8) == b0 && (r as u8) == b1) by (bit_vector)
        requires
            r == (b0 as u16) * 0x100u16 + (b1 as u16),
    ;
    assert(be16(r) =~= buf@.subrange(pos as int, pos + 2));
    r
}

pub fn push_be32(out: &mut Vec<u8>, x: u32)
    ensures
        final(out)@ == old(out)@ + be32(x),
{
    out.push((x >> 24u32) as u8);
    out.push((x >> 16u32) as u8);
    out.push((x >> 8u32) as u8);
    out.push(x as u8);
    assert(final(out)@ =~= old(out)@ + be32(x));
}

pub fn push_be16(out: &mut Vec<u8>, x: u16)
    ensures
        final(out)@ == old(out)@ + be16(x),
{
    out.push((x >> 8u16) as u8);
    out.push(x as u8);
    assert(final(out)@ =~= old(out)@ + be16(x));
}

/// Appends all of `src` to `out`.
pub fn push_all(out: &mut Vec<u8>, src: &[u8])
    ensures
        final(out)@ == old(out)@ + src@,
{
    let mut i: usize = 0;
    while i < src.len()
        invariant
            i <= src@.len(),
            out@ == old(out)@ + src@.subrange(0, i as int),
        decreases src@.len() - i,
    {
        out.push(src[i]);
        i = i + 1;
        assert(out@ =~= old(out)@ + src@.subrange(0, i as int));
    }
    assert(src@.subrange(0, i as int) =~= src@);
}

/// Copies `buf[start .. end]` into a new vector.
pub fn copy_range(buf: &[u8], start: usize, end: usize) -> (r: Vec<u8>)
    requires
        start <= end <= buf@.len(),
    ensures
        r@ == buf@.subrange(start as int, end as int),
{
    let mut r: Vec<u8> = Vec::new();
    let mut i: usize = start;
    while i < end
        invariant
            start <= i <= end <= buf@.len(),
            r@ == buf@.subrange(start as int, i as int),
        decreases end - i,
    {
        r.push(buf[i]);
        i = i + 1;
        assert(r@ =~= buf@.subrange(start as int, i as int));
    }
    r
}

/// Appends `buf[start .. end]` to `out`.
pub fn push_range(out: &mut Vec<u8>, buf: &[u8], start: usize, end: usize)
    requires
        start <= end <= buf@.len(),
    ensures
        final(out)@ == old(out)@ + buf@.subrange(start as int, end as int),
{
    let mut i: usize = start;
    while i < end
        invariant
            start <= i <= end <= buf@.len(),
            out@ == old(out)@ + buf@.subrange(start as int, i as int),
        decreases end - i,
    {
        out.push(buf[i]);
        i = i + 1;
        assert(out@ =~= old(out)@ + buf@.subrange(start as int, i as int));
    }
}

/// Appends `n` NUL bytes to `out`.
pub fn push_zeros(out: &mut Vec<u8>, n: usize)
    ensures
        final(out)@ == old(out)@ + Seq::new(n as nat, |i: int| 0u8),
{
    let mut i: usize = 0;
    while i < n
        invariant
            i <= n,
            out@ == old(out)@ + Seq::new(i as nat, |j: int| 0u8),
        decreases n - i,
    {
        out.push(0u8);
        i = i + 1;
        assert(out@ =~= old(out)@ + Seq::new(i as nat, |j: int| 0u8));
    }
}

pub proof fn lemma_be32_injective(x: u32, y: u32)
    requires
        be32(x) == be32(y),
    ensures
        x == y,
{
    assert(be32(x)[0] == be32(y)[0] && be32(x)[1] == be32(y)[1] && be32(x)[2] == be32(y)[2]
        && be32(x)[3] == be32(y)[3]);
    assert(x == y) by (bit_vector)
        requires
            (x >> 24u32) as u8 == (y >> 24u32) as u8,
            (x >> 16u32) as u8 == (y >> 16u32) as u8,
            (x >> 8u32) as u8 == (y >> 8u32) as u8,
            x as u8 == y as u8,
    ;
}

pub proof fn lemma_be16_injective(x: u16, y: u16)
    requires
        be16(x) == be16(y),
    ensures
        x == y,
{
    assert(be16(x)[0] == be16(y)[0] && be16(x)[1] == be16(y)[1]);
    assert(x == y) by (bit_vector)
        requires
            (x >> 8u16) as u8 == (y >> 8u16) as u8,
            x as u8 == y as u8,
    ;
}

/// A piece of a matched image is matched by the same piece of the input.
pub proof fn lemma_sub_sub(s: Seq<u8>, p: int, img: Seq<u8>, a: int, b: int)
    requires
        0 <= p,
        p + img.len() <= s.len(),
        s.subrange(p, p + img.len()) == img,
        0 <= a <= b <= img.len(),
    ensures
        s.subrange(p + a, p + b) == img.subrange(a, b),
{
    assert(s.subrange(p + a, p + b) =~= img.subrange(a, b)) by {
        assert forall|j: int| 0 <= j < b - a implies s.subrange(p + a, p + b)[j] == img.subrange(a, b)[j] by {
            assert(s.subrange(p, p + img.len())[a + j] == s[p + a + j]);
        }
    }
}

} // verus!
