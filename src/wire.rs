use vstd::prelude::*;

verus! {

/// The 16-bit big-endian integer at byte `i` of `b`.
pub open spec fn be16_at(b: Seq<u8>, i: int) -> u16 {
    (b[i] as int * 0x100 + b[i + 1] as int) as u16
}

/// The 32-bit big-endian integer at byte `i` of `b`.
pub open spec fn be32_at(b: Seq<u8>, i: int) -> u32 {
    (b[i] as int * 0x100_0000 + b[i + 1] as int * 0x1_0000 + b[i + 2] as int * 0x100
        + b[i + 3] as int) as u32
}

/// The two big-endian bytes of `x`.
pub open spec fn be16_bytes(x: u16) -> Seq<u8> {
    seq![(x / 0x100) as u8, (x % 0x100) as u8]
}

/// The four big-endian bytes of `x`.
pub open spec fn be32_bytes(x: u32) -> Seq<u8> {
    seq![
        (x / 0x100_0000) as u8,
        (x / 0x1_0000 % 0x100) as u8,
        (x / 0x100 % 0x100) as u8,
        (x % 0x100) as u8,
    ]
}

/// Reads the 16-bit big-endian integer at byte `i`.
pub fn read_u16(b: &[u8], i: usize) -> (r: u16)
    requires
        i + 2 <= b@.len(),
    ensures
        r == be16_at(b@, i as int),
{
    (b[i] as u16) * 0x100 + b[i + 1] as u16
}

/// Reads the 32-bit big-endian integer at byte `i`.
pub fn read_u32(b: &[u8], i: usize) -> (r: u32)
    requires
        i + 4 <= b@.len(),
    ensures
        r == be32_at(b@, i as int),
{
    (b[i] as u32) * 0x100_0000 + (b[i + 1] as u32) * 0x1_0000 + (b[i + 2] as u32) * 0x100
        + b[i + 3] as u32
}

/// Appends the two big-endian bytes of `x`.
pub fn push_u16(out: &mut Vec<u8>, x: u16)
    ensures
        final(out)@ == old(out)@ + be16_bytes(x),
{
    out.push((x / 0x100) as u8);
    out.push((x % 0x100) as u8);
    assert(final(out)@ =~= old(out)@ + be16_bytes(x));
}

/// Appends the four big-endian bytes of `x`.
pub fn push_u32(out: &mut Vec<u8>, x: u32)
    ensures
        final(out)@ == old(out)@ + be32_bytes(x),
{
    out.push((x / 0x100_0000) as u8);
    out.push((x / 0x1_0000 % 0x100) as u8);
    out.push((x / 0x100 % 0x100) as u8);
    out.push((x % 0x100) as u8);
    assert(final(out)@ =~= old(out)@ + be32_bytes(x));
}

/// Reading back the two bytes of a 16-bit integer gives the integer.
pub proof fn lemma_be16_round_trip(x: u16)
    ensures
        be16_at(be16_bytes(x), 0) == x,
{
    assert(((x / 0x100) as u8) as int * 0x100 + ((x % 0x100) as u8) as int == x as int)
        by (nonlinear_arith);
}

/// Reading back the four bytes of a 32-bit integer gives the integer.
pub proof fn lemma_be32_round_trip(x: u32)
    ensures
        be32_at(be32_bytes(x), 0) == x,
{
    assert(((x / 0x100_0000) as u8) as int * 0x100_0000 + ((x / 0x1_0000 % 0x100) as u8) as int
        * 0x1_0000 + ((x / 0x100 % 0x100) as u8) as int * 0x100 + ((x % 0x100) as u8) as int
        == x as int) by (nonlinear_arith);
}

/// A 16-bit integer written between two byte sequences reads back at its place.
pub proof fn lemma_be16_between(a: Seq<u8>, x: u16, b: Seq<u8>)
    ensures
        be16_at(a + be16_bytes(x) + b, a.len() as int) == x,
{
    let s = a + be16_bytes(x) + b;
    lemma_be16_round_trip(x);
    assert(s[a.len() as int] == be16_bytes(x)[0]);
    assert(s[a.len() + 1 as int] == be16_bytes(x)[1]);
}

/// A 32-bit integer written between two byte sequences reads back at its place.
pub proof fn lemma_be32_between(a: Seq<u8>, x: u32, b: Seq<u8>)
    ensures
        be32_at(a + be32_bytes(x) + b, a.len() as int) == x,
{
    let s = a + be32_bytes(x) + b;
    lemma_be32_round_trip(x);
    assert(s[a.len() as int] == be32_bytes(x)[0]);
    assert(s[a.len() + 1 as int] == be32_bytes(x)[1]);
    assert(s[a.len() + 2 as int] == be32_bytes(x)[2]);
    assert(s[a.len() + 3 as int] == be32_bytes(x)[3]);
}

} // verus!
