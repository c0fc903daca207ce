//! Fixed-width integers as byte sequences, in both byte orders.
//!
//! The spec functions here are the single definition of "how a `u32` looks on the
//! wire" that the codecs of both layers state their contracts against.
use vstd::prelude::*;

verus! {

/// `v` as two bytes, least significant first.
pub open spec fn le16(v: u16) -> Seq<u8> {
    seq![v as u8, (v >> 8u16) as u8]
}

/// `v` as two bytes, most significant first.
pub open spec fn be16(v: u16) -> Seq<u8> {
    seq![(v >> 8u16) as u8, v as u8]
}

/// The low 24 bits of `v` as three bytes, least significant first.
pub open spec fn le24(v: u32) -> Seq<u8> {
    seq![v as u8, (v >> 8u32) as u8, (v >> 16u32) as u8]
}

/// `v` as four bytes, least significant first.
pub open spec fn le32(v: u32) -> Seq<u8> {
    seq![v as u8, (v >> 8u32) as u8, (v >> 16u32) as u8, (v >> 24u32) as u8]
}

/// `v` as four bytes, most significant first.
pub open spec fn be32(v: u32) -> Seq<u8> {
    seq![(v >> 24u32) as u8, (v >> 16u32) as u8, (v >> 8u32) as u8, v as u8]
}

/// `v` as eight bytes, least significant first.
pub open spec fn le64(v: u64) -> Seq<u8> {
    seq![
        v as u8,
        (v >> 8u64) as u8,
        (v >> 16u64) as u8,
        (v >> 24u64) as u8,
        (v >> 32u64) as u8,
        (v >> 40u64) as u8,
        (v >> 48u64) as u8,
        (v >> 56u64) as u8,
    ]
}

/// `v` as eight bytes, most significant first.
pub open spec fn be64(v: u64) -> Seq<u8> {
    seq![
        (v >> 56u64) as u8,
        (v >> 48u64) as u8,
        (v >> 40u64) as u8,
        (v >> 32u64) as u8,
        (v >> 24u64) as u8,
        (v >> 16u64) as u8,
        (v >> 8u64) as u8,
        v as u8,
    ]
}

/// The `u16` that two bytes spell, least significant first.
pub open spec fn le16_value(s: Seq<u8>) -> u16 {
    (s[0] as u16) | ((s[1] as u16) << 8u16)
}

/// The `u16` that two bytes spell, most significant first.
pub open spec fn be16_value(s: Seq<u8>) -> u16 {
    ((s[0] as u16) << 8u16) | (s[1] as u16)
}

/// The 24-bit value three bytes spell, least significant first.
pub open spec fn le24_value(s: Seq<u8>) -> u32 {
    (s[0] as u32) | ((s[1] as u32) << 8u32) | ((s[2] as u32) << 16u32)
}

/// The `u32` that four bytes spell, least significant first.
pub open spec fn le32_value(s: Seq<u8>) -> u32 {
    (s[0] as u32) | ((s[1] as u32) << 8u32) | ((s[2] as u32) << 16u32) | ((s[3] as u32) << 24u32)
}

/// The `u32` that four bytes spell, most significant first.
pub open spec fn be32_value(s: Seq<u8>) -> u32 {
    ((s[0] as u32) << 24u32) | ((s[1] as u32) << 16u32) | ((s[2] as u32) << 8u32) | (s[3] as u32)
}

/// The `u64` that eight bytes spell, least significant first.
pub open spec fn le64_value(s: Seq<u8>) -> u64 {
    (s[0] as u64) | ((s[1] as u64) << 8u64) | ((s[2] as u64) << 16u64) | ((s[3] as u64) << 24u64)
        | ((s[4] as u64) << 32u64) | ((s[5] as u64) << 40u64) | ((s[6] as u64) << 48u64) | ((
    s[7] as u64) << 56u64)
}

/// The `u64` that eight bytes spell, most significant first.
pub open spec fn be64_value(s: Seq<u8>) -> u64 {
    ((s[0] as u64) << 56u64) | ((s[1] as u64) << 48u64) | ((s[2] as u64) << 40u64) | ((
    s[3] as u64) << 32u64) | ((s[4] as u64) << 24u64) | ((s[5] as u64) << 16u64) | ((s[6] as u64)
        << 8u64) | (s[7] as u64)
}

/// Reading back what was written gives the value that was written, for every width and
/// both byte orders.
pub proof fn lemma_fixed_width_round_trip(a: u16, b: u32, c: u64)
    ensures
        le16_value(le16(a)) == a,
        be16_value(be16(a)) == a,
        le32_value(le32(b)) == b,
        be32_value(be32(b)) == b,
        le24_value(le24(b)) == b % 0x100_0000,
        le64_value(le64(c)) == c,
        be64_value(be64(c)) == c,
{
    assert(((a as u8) as u16) | ((((a >> 8u16) as u8) as u16) << 8u16) == a) by (bit_vector);
    assert(((((a >> 8u16) as u8) as u16) << 8u16) | ((a as u8) as u16) == a) by (bit_vector);
    assert(((b as u8) as u32) | ((((b >> 8u32) as u8) as u32) << 8u32) | ((((b >> 16u32) as u8)
        as u32) << 16u32) | ((((b >> 24u32) as u8) as u32) << 24u32) == b) by (bit_vector);
    assert(((((b >> 24u32) as u8) as u32) << 24u32) | ((((b >> 16u32) as u8) as u32) << 16u32) | ((
    ((b >> 8u32) as u8) as u32) << 8u32) | ((b as u8) as u32) == b) by (bit_vector);
    assert(((b as u8) as u32) | ((((b >> 8u32) as u8) as u32) << 8u32) | ((((b >> 16u32) as u8)
        as u32) << 16u32) == b % 0x100_0000) by (bit_vector);
    assert(((c as u8) as u64) | ((((c >> 8u64) as u8) as u64) << 8u64) | ((((c >> 16u64) as u8)
        as u64) << 16u64) | ((((c >> 24u64) as u8) as u64) << 24u64) | ((((c >> 32u64) as u8)
        as u64) << 32u64) | ((((c >> 40u64) as u8) as u64) << 40u64) | ((((c >> 48u64) as u8)
        as u64) << 48u64) | ((((c >> 56u64) as u8) as u64) << 56u64) == c) by (bit_vector);
    assert(((((c >> 56u64) as u8) as u64) << 56u64) | ((((c >> 48u64) as u8) as u64) << 48u64) | ((
    ((c >> 40u64) as u8) as u64) << 40u64) | ((((c >> 32u64) as u8) as u64) << 32u64) | ((((c
        >> 24u64) as u8) as u64) << 24u64) | ((((c >> 16u64) as u8) as u64) << 16u64) | ((((c
        >> 8u64) as u8) as u64) << 8u64) | ((c as u8) as u64) == c) by (bit_vector);
}


/// Which sixteen-wide slice an integer falls in, rounding down for negatives.
pub fn floor_div16(y: i32) -> (q: i32)
    ensures
        q == y / 16,
        q * 16 <= y < q * 16 + 16,
{
    let shifted = (y as i64 + 2147483648i64) as u64;
    let q = (shifted / 16) as i64 - 134217728i64;
    q as i32
}

/// Where an integer sits inside its sixteen-wide slice: always in `0..16`.
pub fn mod16(y: i32) -> (r: usize)
    ensures
        r == y % 16,
        r < 16,
        y == (y / 16) * 16 + r,
{
    let shifted = (y as i64 + 2147483648i64) as u64;
    (shifted % 16) as usize
}

} // verus!
