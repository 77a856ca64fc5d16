//! Fixed-width integers as byte sequences.
//!
//! The wire format writes integers big-endian, except the length prefix of an
//! ordered set and the derived selector, which are little-endian. Signed
//! integers travel as the two's-complement image of their unsigned bit
//! pattern.

use vstd::prelude::*;

verus! {

pub open spec fn spec_u32_to_be_bytes(x: u32) -> Seq<u8> {
    seq![
        ((x >> 24) & 0xff) as u8,
        ((x >> 16) & 0xff) as u8,
        ((x >> 8) & 0xff) as u8,
        (x & 0xff) as u8,
    ]
}

pub open spec fn spec_u32_from_be_bytes(s: Seq<u8>) -> u32
    recommends
        s.len() == 4,
{
    ((s[0] as u32) << 24) | ((s[1] as u32) << 16) | ((s[2] as u32) << 8) | (s[3] as u32)
}

pub open spec fn spec_u32_to_le_bytes(x: u32) -> Seq<u8> {
    seq![
        (x & 0xff) as u8,
        ((x >> 8) & 0xff) as u8,
        ((x >> 16) & 0xff) as u8,
        ((x >> 24) & 0xff) as u8,
    ]
}

pub open spec fn spec_u32_from_le_bytes(s: Seq<u8>) -> u32
    recommends
        s.len() == 4,
{
    (s[0] as u32) | ((s[1] as u32) << 8) | ((s[2] as u32) << 16) | ((s[3] as u32) << 24)
}

pub open spec fn spec_u64_to_be_bytes(x: u64) -> Seq<u8> {
    seq![
        ((x >> 56) & 0xff) as u8,
        ((x >> 48) & 0xff) as u8,
        ((x >> 40) & 0xff) as u8,
        ((x >> 32) & 0xff) as u8,
        ((x >> 24) & 0xff) as u8,
        ((x >> 16) & 0xff) as u8,
        ((x >> 8) & 0xff) as u8,
        (x & 0xff) as u8,
    ]
}

pub open spec fn spec_u64_from_be_bytes(s: Seq<u8>) -> u64
    recommends
        s.len() == 8,
{
    ((s[0] as u64) << 56) | ((s[1] as u64) << 48) | ((s[2] as u64) << 40) | ((s[3] as u64) << 32)
        | ((s[4] as u64) << 24) | ((s[5] as u64) << 16) | ((s[6] as u64) << 8) | (s[7] as u64)
}

/// The unsigned bit pattern that a signed 64-bit value puts on the wire.
pub open spec fn spec_i64_to_bits(v: i64) -> u64 {
    if v >= 0 {
        v as u64
    } else {
        (v as int + 0x1_0000_0000_0000_0000) as u64
    }
}

pub open spec fn spec_i64_from_bits(u: u64) -> i64 {
    if u < 0x8000_0000_0000_0000 {
        u as i64
    } else {
        (u as int - 0x1_0000_0000_0000_0000) as i64
    }
}

pub open spec fn spec_i32_to_bits(v: i32) -> u32 {
    if v >= 0 {
        v as u32
    } else {
        (v as int + 0x1_0000_0000) as u32
    }
}

pub open spec fn spec_i32_from_bits(u: u32) -> i32 {
    if u < 0x8000_0000 {
        u as i32
    } else {
        (u as int - 0x1_0000_0000) as i32
    }
}

pub open spec fn spec_i64_to_be_bytes(v: i64) -> Seq<u8> {
    spec_u64_to_be_bytes(spec_i64_to_bits(v))
}

pub open spec fn spec_i64_from_be_bytes(s: Seq<u8>) -> i64
    recommends
        s.len() == 8,
{
    spec_i64_from_bits(spec_u64_from_be_bytes(s))
}

pub open spec fn spec_i32_to_be_bytes(v: i32) -> Seq<u8> {
    spec_u32_to_be_bytes(spec_i32_to_bits(v))
}

pub open spec fn spec_i32_from_be_bytes(s: Seq<u8>) -> i32
    recommends
        s.len() == 4,
{
    spec_i32_from_bits(spec_u32_from_be_bytes(s))
}

pub open spec fn spec_i32_to_le_bytes(v: i32) -> Seq<u8> {
    spec_u32_to_le_bytes(spec_i32_to_bits(v))
}

pub open spec fn spec_i32_from_le_bytes(s: Seq<u8>) -> i32
    recommends
        s.len() == 4,
{
    spec_i32_from_bits(spec_u32_from_le_bytes(s))
}

/// Every byte extracted from a `u32` fits in eight bits.
pub proof fn lemma_u32_byte_parts_bounded(x: u32)
    ensures
        (x >> 24) & 0xff < 256,
        (x >> 16) & 0xff < 256,
        (x >> 8) & 0xff < 256,
        x & 0xff < 256,
        x >> 24 < 256,
{
    assert((x >> 24) & 0xff < 256 && (x >> 16) & 0xff < 256 && (x >> 8) & 0xff < 256 && x & 0xff
        < 256 && x >> 24 < 256) by (bit_vector);
}

/// Every byte extracted from a `u64` fits in eight bits.
pub proof fn lemma_u64_byte_parts_bounded(x: u64)
    ensures
        (x >> 56) & 0xff < 256,
        (x >> 48) & 0xff < 256,
        (x >> 40) & 0xff < 256,
        (x >> 32) & 0xff < 256,
        (x >> 24) & 0xff < 256,
        (x >> 16) & 0xff < 256,
        (x >> 8) & 0xff < 256,
        x & 0xff < 256,
        x >> 56 < 256,
{
    assert((x >> 56) & 0xff < 256 && (x >> 48) & 0xff < 256 && (x >> 40) & 0xff < 256 && (x >> 32)
        & 0xff < 256 && (x >> 24) & 0xff < 256 && (x >> 16) & 0xff < 256 && (x >> 8) & 0xff < 256
        && x & 0xff < 256 && x >> 56 < 256) by (bit_vector);
}

pub proof fn lemma_u32_be_round_trip(x: u32)
    ensures
        spec_u32_to_be_bytes(x).len() == 4,
        spec_u32_from_be_bytes(spec_u32_to_be_bytes(x)) == x,
{
    assert((((((x >> 24) & 0xff) as u8) as u32) << 24) | (((((x >> 16) & 0xff) as u8) as u32)
        << 16) | (((((x >> 8) & 0xff) as u8) as u32) << 8) | (((x & 0xff) as u8) as u32)
        == x) by (bit_vector);
}

pub proof fn lemma_u32_le_round_trip(x: u32)
    ensures
        spec_u32_to_le_bytes(x).len() == 4,
        spec_u32_from_le_bytes(spec_u32_to_le_bytes(x)) == x,
{
    assert((((x & 0xff) as u8) as u32) | (((((x >> 8) & 0xff) as u8) as u32) << 8) | (((((x >> 16)
        & 0xff) as u8) as u32) << 16) | (((((x >> 24) & 0xff) as u8) as u32) << 24)
        == x) by (bit_vector);
}

pub proof fn lemma_u64_be_round_trip(x: u64)
    ensures
        spec_u64_to_be_bytes(x).len() == 8,
        spec_u64_from_be_bytes(spec_u64_to_be_bytes(x)) == x,
{
    assert((((((x >> 56) & 0xff) as u8) as u64) << 56) | (((((x >> 48) & 0xff) as u8) as u64)
        << 48) | (((((x >> 40) & 0xff) as u8) as u64) << 40) | (((((x >> 32) & 0xff) as u8)
        as u64) << 32) | (((((x >> 24) & 0xff) as u8) as u64) << 24) | (((((x >> 16) & 0xff)
        as u8) as u64) << 16) | (((((x >> 8) & 0xff) as u8) as u64) << 8) | (((x & 0xff) as u8)
        as u64) == x) by (bit_vector);
}

pub proof fn lemma_i64_bits_round_trip(v: i64)
    ensures
        spec_i64_from_bits(spec_i64_to_bits(v)) == v,
{
}

pub proof fn lemma_i32_bits_round_trip(v: i32)
    ensures
        spec_i32_from_bits(spec_i32_to_bits(v)) == v,
{
}

/// The bit pattern of the signed reading of any 64-bit pattern is itself.
pub proof fn lemma_i64_bits_identity(u: u64)
    ensures
        spec_i64_to_bits(spec_i64_from_bits(u)) == u,
{
}

pub proof fn lemma_i64_be_round_trip(v: i64)
    ensures
        spec_i64_to_be_bytes(v).len() == 8,
        spec_i64_from_be_bytes(spec_i64_to_be_bytes(v)) == v,
{
    lemma_u64_be_round_trip(spec_i64_to_bits(v));
    lemma_i64_bits_round_trip(v);
}

pub proof fn lemma_i32_be_round_trip(v: i32)
    ensures
        spec_i32_to_be_bytes(v).len() == 4,
        spec_i32_from_be_bytes(spec_i32_to_be_bytes(v)) == v,
{
    lemma_u32_be_round_trip(spec_i32_to_bits(v));
    lemma_i32_bits_round_trip(v);
}

pub proof fn lemma_i32_le_round_trip(v: i32)
    ensures
        spec_i32_to_le_bytes(v).len() == 4,
        spec_i32_from_le_bytes(spec_i32_to_le_bytes(v)) == v,
{
    lemma_u32_le_round_trip(spec_i32_to_bits(v));
    lemma_i32_bits_round_trip(v);
}

/// Two's-complement image of a signed 64-bit value, computed without overflow.
pub fn i64_to_bits(v: i64) -> (r: u64)
    ensures
        r == spec_i64_to_bits(v),
{
    if v >= 0 {
        v as u64
    } else {
        let shifted: i64 = (v + 0x7fff_ffff_ffff_ffff) + 1;
        (shifted as u64) + 0x8000_0000_0000_0000
    }
}

pub fn i64_from_bits(u: u64) -> (r: i64)
    ensures
        r == spec_i64_from_bits(u),
{
    if u < 0x8000_0000_0000_0000 {
        u as i64
    } else {
        let base: u64 = u - 0x8000_0000_0000_0000;
        ((base as i64) - 0x4000_0000_0000_0000) - 0x4000_0000_0000_0000
    }
}

pub fn i32_to_bits(v: i32) -> (r: u32)
    ensures
        r == spec_i32_to_bits(v),
{
    if v >= 0 {
        v as u32
    } else {
        let shifted: i32 = (v + 0x7fff_ffff) + 1;
        (shifted as u32) + 0x8000_0000
    }
}

pub fn i32_from_bits(u: u32) -> (r: i32)
    ensures
        r == spec_i32_from_bits(u),
{
    if u < 0x8000_0000 {
        u as i32
    } else {
        let base: u32 = u - 0x8000_0000;
        ((base as i32) - 0x4000_0000) - 0x4000_0000
    }
}

} // verus!
