use vstd::prelude::*;

verus! {

/// The low 32 bits of a number, which is what a `u32` field of the wire
/// keeps of it.
pub open spec fn low32(n: int) -> u32 {
    (n % 0x1_0000_0000) as u32
}

/// A number that fits 32 bits keeps all of them.
pub proof fn lemma_low32_small(n: int)
    requires
        0 <= n <= u32::MAX,
    ensures
        low32(n) == n,
{
    vstd::arithmetic::div_mod::lemma_small_mod(n as nat, 0x1_0000_0000);
}

/// The four bytes of `x`, most significant first.
pub open spec fn be32(x: u32) -> Seq<u8> {
    seq![
        (x / 0x1000000) as u8,
        ((x / 0x10000) % 0x100) as u8,
        ((x / 0x100) % 0x100) as u8,
        (x % 0x100) as u8,
    ]
}

/// The two bytes of `x`, most significant first.
pub open spec fn be16(x: u16) -> Seq<u8> {
    seq![(x / 0x100) as u8, (x % 0x100) as u8]
}

/// The number that the first four bytes of `s` write, most significant first.
pub open spec fn be32_value(s: Seq<u8>) -> nat {
    (s[0] * 0x1000000 + s[1] * 0x10000 + s[2] * 0x100 + s[3]) as nat
}

/// The number that the first two bytes of `s` write, most significant first.
pub open spec fn be16_value(s: Seq<u8>) -> nat {
    (s[0] * 0x100 + s[1]) as nat
}

/// Reading back the bytes of a `u32` gives the number.
pub proof fn lemma_be32_roundtrip(x: u32)
    ensures
        be32(x).len() == 4,
        be32_value(be32(x)) == x,
{
    let q1 = x / 0x100;
    let q2 = q1 / 0x100;
    let q3 = q2 / 0x100;
    assert(x / 0x10000 == q2) by {
        vstd::arithmetic::div_mod::lemma_div_denominator(x as int, 0x100, 0x100);
    }
    assert(x / 0x1000000 == q3) by {
        vstd::arithmetic::div_mod::lemma_div_denominator(x as int, 0x10000, 0x100);
    }
}

/// Reading back the bytes of a `u16` gives the number.
pub proof fn lemma_be16_roundtrip(x: u16)
    ensures
        be16(x).len() == 2,
        be16_value(be16(x)) == x,
{
}

/// The low 32 bits of `x`.
pub fn low32_of(x: usize) -> (r: u32)
    ensures
        r == low32(x as int),
{
    let y: u64 = x as u64;
    assert(y as u32 == (y % 0x1_0000_0000) as u32) by (bit_vector);
    assert((x as u64) as u32 == x as u32) by (bit_vector);
    x as u32
}

/// The low 32 bits of `n + extra`.
pub fn low32_sum(n: usize, extra: u32) -> (r: u32)
    ensures
        r == low32(n + extra),
{
    let a = low32_of(n);
    let r = a.wrapping_add(extra);
    assert(r == low32(n + extra)) by {
        vstd::arithmetic::div_mod::lemma_add_mod_noop(n as int, extra as int, 0x1_0000_0000);
        vstd::arithmetic::div_mod::lemma_mod_twice(extra as int, 0x1_0000_0000);
    }
    r
}

/// Appends the four bytes of `x`, most significant first.
pub fn put_u32(dst: &mut Vec<u8>, x: u32)
    ensures
        final(dst)@ == old(dst)@ + be32(x),
{
    let b0 = (x >> 24u32) as u8;
    let b1 = (x >> 16u32) as u8;
    let b2 = (x >> 8u32) as u8;
    let b3 = x as u8;
    assert(b0 == (x / 0x1000000) as u8 && b1 == ((x / 0x10000) % 0x100) as u8 && b2 == ((x
        / 0x100) % 0x100) as u8 && b3 == (x % 0x100) as u8) by (bit_vector)
        requires
            b0 == (x >> 24u32) as u8,
            b1 == (x >> 16u32) as u8,
            b2 == (x >> 8u32) as u8,
            b3 == x as u8,
    ;
    dst.push(b0);
    dst.push(b1);
    dst.push(b2);
    dst.push(b3);
    assert(final(dst)@ =~= old(dst)@ + be32(x));
}

/// Appends the two bytes of `x`, most significant first.
pub fn put_u16(dst: &mut Vec<u8>, x: u16)
    ensures
        final(dst)@ == old(dst)@ + be16(x),
{
    let b0 = (x >> 8u16) as u8;
    let b1 = x as u8;
    assert(b0 == (x / 0x100) as u8 && b1 == (x % 0x100) as u8) by (bit_vector)
        requires
            b0 == (x >> 8u16) as u8,
            b1 == x as u8,
    ;
    dst.push(b0);
    dst.push(b1);
    assert(final(dst)@ =~= old(dst)@ + be16(x));
}

/// Reads four bytes at `pos`, most significant first.
pub fn get_u32(src: &[u8], pos: usize) -> (r: u32)
    requires
        pos + 4 <= src@.len(),
    ensures
        r == be32_value(src@.subrange(pos as int, pos + 4)),
{
    let b0 = src[pos] as u32;
    let b1 = src[pos + 1] as u32;
    let b2 = src[pos + 2] as u32;
    let b3 = src[pos + 3] as u32;
    b0 * 0x1000000 + b1 * 0x10000 + b2 * 0x100 + b3
}

/// Reads two bytes at `pos`, most significant first.
pub fn get_u16(src: &[u8], pos: usize) -> (r: u16)
    requires
        pos + 2 <= src@.len(),
    ensures
        r == be16_value(src@.subrange(pos as int, pos + 2)),
{
    let b0 = src[pos] as u16;
    let b1 = src[pos + 1] as u16;
    b0 * 0x100 + b1
}

} // verus!
