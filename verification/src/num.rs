//! Two's-complement reinterpretation and zigzag coding, in plain arithmetic.

use vstd::prelude::*;

verus! {

/// The 16-bit pattern of `v`.
pub open spec fn spec_to_u16(v: i16) -> u16 {
    if v >= 0 { v as u16 } else { (v + 0x1_0000) as u16 }
}

#[verifier::when_used_as_spec(spec_to_u16)]
pub fn to_u16(v: i16) -> (r: u16)
    ensures
        r == spec_to_u16(v),
{
    if v >= 0 { v as u16 } else { (v as i32 + 0x1_0000) as u16 }
}

/// The signed reading of a 16-bit pattern.
pub open spec fn spec_to_i16(v: u16) -> i16 {
    if v < 0x8000 { v as i16 } else { (v - 0x1_0000) as i16 }
}

#[verifier::when_used_as_spec(spec_to_i16)]
pub fn to_i16(v: u16) -> (r: i16)
    ensures
        r == spec_to_i16(v),
{
    if v < 0x8000 { v as i16 } else { (v as i32 - 0x1_0000) as i16 }
}

/// The 32-bit pattern of `v`.
pub open spec fn spec_to_u32(v: i32) -> u32 {
    if v >= 0 { v as u32 } else { (v + 0x1_0000_0000) as u32 }
}

#[verifier::when_used_as_spec(spec_to_u32)]
pub fn to_u32(v: i32) -> (r: u32)
    ensures
        r == spec_to_u32(v),
{
    if v >= 0 { v as u32 } else { (v as i64 + 0x1_0000_0000) as u32 }
}

/// The signed reading of a 32-bit pattern.
pub open spec fn spec_to_i32(v: u32) -> i32 {
    if v < 0x8000_0000 { v as i32 } else { (v - 0x1_0000_0000) as i32 }
}

#[verifier::when_used_as_spec(spec_to_i32)]
pub fn to_i32(v: u32) -> (r: i32)
    ensures
        r == spec_to_i32(v),
{
    if v < 0x8000_0000 { v as i32 } else { (v as i64 - 0x1_0000_0000) as i32 }
}

/// The 64-bit pattern of `v`.
pub open spec fn spec_to_u64(v: i64) -> u64 {
    if v >= 0 { v as u64 } else { (v + 0x1_0000_0000_0000_0000) as u64 }
}

#[verifier::when_used_as_spec(spec_to_u64)]
pub fn to_u64(v: i64) -> (r: u64)
    ensures
        r == spec_to_u64(v),
{
    if v >= 0 { v as u64 } else { (v as i128 + 0x1_0000_0000_0000_0000) as u64 }
}

/// The signed reading of a 64-bit pattern.
pub open spec fn spec_to_i64(v: u64) -> i64 {
    if v < 0x8000_0000_0000_0000 { v as i64 } else { (v - 0x1_0000_0000_0000_0000) as i64 }
}

#[verifier::when_used_as_spec(spec_to_i64)]
pub fn to_i64(v: u64) -> (r: i64)
    ensures
        r == spec_to_i64(v),
{
    if v < 0x8000_0000_0000_0000 { v as i64 } else { (v as i128 - 0x1_0000_0000_0000_0000) as i64 }
}

/// Zigzag: 0, -1, 1, -2, 2, ... become 0, 1, 2, 3, 4, ...
pub open spec fn zigzag(v: int) -> nat {
    if v >= 0 { (2 * v) as nat } else { (-2 * v - 1) as nat }
}

/// The inverse of [`zigzag`].
pub open spec fn unzigzag(u: nat) -> int {
    if u % 2 == 0 { (u / 2) as int } else { -((u / 2) as int) - 1 }
}

/// Zigzag coding loses nothing.
pub proof fn law_zigzag_round_trip(v: int)
    ensures
        unzigzag(zigzag(v)) == v,
{
}

pub fn zigzag32(v: i32) -> (r: u32)
    ensures
        r == zigzag(v as int),
{
    if v >= 0 { 2 * (v as u32) } else { ((-(v as i64)) * 2 - 1) as u32 }
}

pub fn unzigzag32(u: u32) -> (r: i32)
    ensures
        r == unzigzag(u as nat),
{
    if u % 2 == 0 { (u / 2) as i32 } else { -((u / 2) as i32) - 1 }
}

pub fn zigzag64(v: i64) -> (r: u64)
    ensures
        r == zigzag(v as int),
{
    if v >= 0 { 2 * (v as u64) } else { ((-(v as i128)) * 2 - 1) as u64 }
}

/// Addition that drops what does not fit in 64 bits.
pub open spec fn spec_wrap_add(a: u64, b: u64) -> u64 {
    ((a + b) % 0x1_0000_0000_0000_0000) as u64
}

#[verifier::when_used_as_spec(spec_wrap_add)]
pub fn wrap_add(a: u64, b: u64) -> (r: u64)
    ensures
        r == spec_wrap_add(a, b),
{
    ((a as u128 + b as u128) % 0x1_0000_0000_0000_0000) as u64
}

/// Subtraction modulo `2^64`.
pub open spec fn spec_wrap_sub(a: u64, b: u64) -> u64 {
    ((a - b) % 0x1_0000_0000_0000_0000) as u64
}

#[verifier::when_used_as_spec(spec_wrap_sub)]
pub fn wrap_sub(a: u64, b: u64) -> (r: u64)
    ensures
        r == spec_wrap_sub(a, b),
{
    ((a as u128 + 0x1_0000_0000_0000_0000 - b as u128) % 0x1_0000_0000_0000_0000) as u64
}

/// Multiplication modulo `2^64`.
pub open spec fn spec_wrap_mul(a: u64, b: u64) -> u64 {
    ((a * b) % 0x1_0000_0000_0000_0000) as u64
}

#[verifier::when_used_as_spec(spec_wrap_mul)]
pub fn wrap_mul(a: u64, b: u64) -> (r: u64)
    ensures
        r == spec_wrap_mul(a, b),
{
    assert(0 <= a * b <= 0xFFFF_FFFF_FFFF_FFFF * 0xFFFF_FFFF_FFFF_FFFF) by (nonlinear_arith)
        requires
            0 <= a <= 0xFFFF_FFFF_FFFF_FFFF,
            0 <= b <= 0xFFFF_FFFF_FFFF_FFFF,
    ;
    ((a as u128 * b as u128) % 0x1_0000_0000_0000_0000) as u64
}

/// A value is put together again from two parts that were taken off it.
pub proof fn lemma_wrap_rebuild(v: u64, e: u64, m: u64)
    ensures
        spec_wrap_add(spec_wrap_add(m, e), spec_wrap_sub(spec_wrap_sub(v, e), m)) == v,
{
    let w = 0x1_0000_0000_0000_0000int;
    let a = (m + e) % w;
    let d = (v - e) % w;
    let f = (d - m) % w;
    assert(m + e == a || m + e == a + w);
    assert(v - e == d || v - e == d - w);
    assert(d - m == f || d - m == f - w);
}

/// Exact division, with the factors the other way round.
pub proof fn lemma_div_mod_is(x: int, d: int, q: int, r: int)
    requires
        d > 0,
        0 <= r < d,
        x == d * q + r,
    ensures
        x / d == q,
        x % d == r,
{
    assert(d * q == q * d) by (nonlinear_arith);
    vstd::arithmetic::div_mod::lemma_fundamental_div_mod_converse(x, d, q, r);
}

} // verus!
