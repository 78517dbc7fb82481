//! Little-endian integers as they stand in ZIP headers.

use vstd::prelude::*;

verus! {

/// The 16-bit number whose little-endian spelling starts at `at`.
pub open spec fn le16(b: Seq<u8>, at: int) -> u16
    recommends
        0 <= at,
        at + 2 <= b.len(),
{
    (b[at] as int + 256 * (b[at + 1] as int)) as u16
}

/// The 32-bit number whose little-endian spelling starts at `at`.
pub open spec fn le32(b: Seq<u8>, at: int) -> u32
    recommends
        0 <= at,
        at + 4 <= b.len(),
{
    (b[at] as int + 256 * (b[at + 1] as int) + 65536 * (b[at + 2] as int) + 16777216 * (b[at
        + 3] as int)) as u32
}

/// The two bytes that spell `v`, low byte first.
pub open spec fn le16_bytes(v: u16) -> Seq<u8> {
    seq![(v % 256) as u8, (v / 256) as u8]
}

/// The four bytes that spell `v`, low byte first.
pub open spec fn le32_bytes(v: u32) -> Seq<u8> {
    seq![
        (v % 256) as u8,
        ((v / 256) % 256) as u8,
        ((v / 65536) % 256) as u8,
        (v / 16777216) as u8,
    ]
}

/// Reading back what `le16_bytes` wrote gives the number again.
pub proof fn lemma_le16_of_bytes(v: u16)
    ensures
        le16_bytes(v).len() == 2,
        le16(le16_bytes(v), 0) == v,
{
}

/// Reading back what `le32_bytes` wrote gives the number again.
pub proof fn lemma_le32_of_bytes(v: u32)
    ensures
        le32_bytes(v).len() == 4,
        le32(le32_bytes(v), 0) == v,
{
}

/// Writing the number that was read gives the same two bytes.
pub proof fn lemma_le16_bytes_of(b: Seq<u8>, at: int)
    requires
        0 <= at,
        at + 2 <= b.len(),
    ensures
        le16_bytes(le16(b, at)) == b.subrange(at, at + 2),
{
    assert(le16_bytes(le16(b, at)) =~= b.subrange(at, at + 2));
}

/// Writing the number that was read gives the same four bytes.
pub proof fn lemma_le32_bytes_of(b: Seq<u8>, at: int)
    requires
        0 <= at,
        at + 4 <= b.len(),
    ensures
        le32_bytes(le32(b, at)) == b.subrange(at, at + 4),
{
    let b0 = b[at] as int;
    let b1 = b[at + 1] as int;
    let b2 = b[at + 2] as int;
    let b3 = b[at + 3] as int;
    let v = le32(b, at) as int;
    let q1 = b1 + 256 * b2 + 65536 * b3;
    let q2 = b2 + 256 * b3;
    assert(v == b0 + 256 * q1);
    assert(v % 256 == b0 && v / 256 == q1);
    assert(q1 == b1 + 256 * q2);
    assert(q1 % 256 == b1 && q1 / 256 == q2);
    assert(v / 65536 == q2);
    assert(q2 % 256 == b2 && q2 / 256 == b3);
    assert(v / 16777216 == b3);
    assert(le32_bytes(le32(b, at)) =~= b.subrange(at, at + 4));
}

/// Reads a 16-bit little-endian number at `at`.
pub fn read_le16(input: &[u8], at: usize) -> (v: u16)
    requires
        at + 2 <= input.len(),
    ensures
        v == le16(input@, at as int),
{
    let lo: u16 = input[at] as u16;
    let hi: u16 = input[at + 1] as u16;
    lo + 256 * hi
}

/// Reads a 32-bit little-endian number at `at`.
pub fn read_le32(input: &[u8], at: usize) -> (v: u32)
    requires
        at + 4 <= input.len(),
    ensures
        v == le32(input@, at as int),
{
    let b0: u32 = input[at] as u32;
    let b1: u32 = input[at + 1] as u32;
    let b2: u32 = input[at + 2] as u32;
    let b3: u32 = input[at + 3] as u32;
    b0 + 256 * b1 + 65536 * b2 + 16777216 * b3
}

/// The little-endian spelling of a 16-bit number.
pub fn u16_to_le(u: u16) -> (r: [u8; 2])
    ensures
        r@ == le16_bytes(u),
{
    let r: [u8; 2] = [(u % 256) as u8, (u / 256) as u8];
    assert(r@ =~= le16_bytes(u));
    r
}

/// The little-endian spelling of a 32-bit number.
pub fn u32_to_le(u: u32) -> (r: [u8; 4])
    ensures
        r@ == le32_bytes(u),
{
    let r: [u8; 4] = [
        (u % 256) as u8,
        ((u / 256) % 256) as u8,
        ((u / 65536) % 256) as u8,
        (u / 16777216) as u8,
    ];
    assert(r@ =~= le32_bytes(u));
    r
}

} // verus!
