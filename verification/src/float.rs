//! The few single- and double-precision operations of monotonic address
//! tables, on bit patterns and in integer arithmetic: an increment is a
//! quotient rounded to double and then to single precision, and an expected
//! value is a single-precision product cut to a long.

use crate::bits::{bit_len, lemma_bit_len};
use vstd::arithmetic::power2::{lemma2_to64, lemma2_to64_rest, lemma_pow2_adds, lemma_pow2_pos, lemma_pow2_strictly_increases, lemma_pow2_unfold, pow2};
use vstd::prelude::*;

verus! {

/// By how many bits `m` must be cut to keep `p` bits.
pub open spec fn cut(m: nat, p: nat) -> nat {
    if bit_len(m) > p {
        (bit_len(m) - p) as nat
    } else {
        0
    }
}

/// `m` without its low `s` bits, rounded to the nearest number, ties to the
/// even one. With `more`, the true value lies a little above `m`.
pub open spec fn round_even(m: nat, s: nat, more: bool) -> nat {
    let q = m / pow2(s);
    let twice = 2 * (m % pow2(s));
    if s > 0 && (twice > pow2(s) || (twice == pow2(s) && (more || q % 2 == 1))) {
        q + 1
    } else {
        q
    }
}

/// The number of bits of a 128-bit number.
fn bits128(v: u128) -> (n: u32)
    ensures
        n == bit_len(v as nat),
        n <= 128,
{
    proof {
        lemma_bit_len(v as nat, 128);
        lemma_pow2_adds(64, 64);
        lemma2_to64_rest();
        assert(pow2(128) == 0x1_0000_0000_0000_0000 * 0x1_0000_0000_0000_0000) by (nonlinear_arith)
            requires
                pow2(128) == pow2(64) * pow2(64),
                pow2(64) == 0x1_0000_0000_0000_0000,
        ;
    }
    let mut x: u128 = v;
    let mut n: u32 = 0;
    while x > 0
        invariant
            n + bit_len(x as nat) == bit_len(v as nat),
            bit_len(v as nat) <= 128,
        decreases x,
    {
        x = x / 2;
        n = n + 1;
    }
    n
}

/// `2^n` as a 128-bit number.
pub fn two_to(n: u32) -> (r: u128)
    requires
        n < 128,
    ensures
        r == pow2(n as nat),
        r > 0,
{
    let mut r: u128 = 1;
    let mut i: u32 = 0;
    proof {
        lemma2_to64();
    }
    while i < n
        invariant
            i <= n < 128,
            r == pow2(i as nat),
            r > 0,
        decreases n - i,
    {
        proof {
            lemma_pow2_unfold((i + 1) as nat);
            lemma_pow2_adds(64, 63);
            lemma2_to64_rest();
            if i + 1 < 127 {
                lemma_pow2_strictly_increases((i + 1) as nat, 127);
            }
            assert(pow2(127) == 0x1_0000_0000_0000_0000 * 0x8000_0000_0000_0000) by (nonlinear_arith)
                requires
                    pow2(127) == pow2(64) * pow2(63),
                    pow2(64) == 0x1_0000_0000_0000_0000,
                    pow2(63) == 0x8000_0000_0000_0000,
            ;
        }
        r = r * 2;
        i = i + 1;
    }
    r
}

/// Cuts `m` to `p` bits: the rounded number, at most `2^p`, and how many bits
/// were cut.
fn round_to(m: u128, p: u32, more: bool) -> (r: (u64, u32))
    requires
        1 <= p <= 62,
        m < pow2(127),
    ensures
        r.1 == cut(m as nat, p as nat),
        r.0 == round_even(m as nat, r.1 as nat, more),
        r.0 <= pow2(p as nat),
        r.1 < 127,
{
    let n: u32 = bits128(m);
    proof {
        lemma_bit_len(m as nat, 127);
        lemma_bit_len(m as nat, n as nat);
        lemma_pow2_strictly_increases(p as nat, 63);
        lemma2_to64();
        lemma2_to64_rest();
    }
    if n <= p {
        proof {
            lemma_bit_len(m as nat, p as nat);
            assert(m as nat / 1 == m as nat);
        }
        return (m as u64, 0);
    }
    let s: u32 = n - p;
    let d: u128 = two_to(s);
    let q: u128 = m / d;
    let rest: u128 = m % d;
    proof {
        lemma_pow2_adds(p as nat, s as nat);
        assert(q < pow2(p as nat)) by (nonlinear_arith)
            requires
                q == m / d,
                d > 0,
                d == pow2(s as nat),
                m < pow2(n as nat),
                pow2(n as nat) == pow2(p as nat) * pow2(s as nat),
        ;
        assert(d < pow2(127)) by {
            lemma_pow2_strictly_increases(s as nat, 127);
        }
        lemma_pow2_adds(64, 63);
        assert(pow2(127) == 0x1_0000_0000_0000_0000 * 0x8000_0000_0000_0000) by (nonlinear_arith)
            requires
                pow2(127) == pow2(64) * pow2(63),
                pow2(64) == 0x1_0000_0000_0000_0000,
                pow2(63) == 0x8000_0000_0000_0000,
        ;
        vstd::arithmetic::div_mod::lemma_mod_bound(m as int, d as int);
    }
    let twice: u128 = 2 * rest;
    if twice > d || (twice == d && (more || q % 2 == 1)) {
        (q as u64 + 1, s)
    } else {
        (q as u64, s)
    }
}

/// The single-precision pattern of `m * 2^e`, for `m` of at most 24 bits or
/// `2^24`, in the normal range.
pub open spec fn single_bits(m: nat, e: int) -> u32 {
    let n = bit_len(m);
    if m == 0 {
        0
    } else if n <= 24 {
        ((e + n + 126) * 0x80_0000 + (m * pow2((24 - n) as nat) - 0x80_0000)) as u32
    } else {
        ((e + n + 126) * 0x80_0000) as u32
    }
}

/// The average increment over `steps` steps that add up to `total`: both as
/// doubles, divided in double precision, then rounded to single precision.
/// Here as the number of 24 bits and its exponent.
pub open spec fn increment(total: nat, steps: nat) -> (nat, int) {
    // `total` as a double: `a * 2^s1`.
    let s1 = cut(total, 53);
    let a = round_even(total, s1, false);
    // The quotient as a double, found with far more than 53 bits:
    // `b * 2^(s1 - k + s2)`.
    let k = (120 - bit_len(a)) as nat;
    let q = (a * pow2(k)) / steps;
    let more = (a * pow2(k)) % steps != 0;
    let s2 = cut(q, 53);
    let b = round_even(q, s2, more);
    // And as a single.
    let s3 = cut(b, 24);
    (round_even(b, s3, false), s1 - k + s2 + s3)
}

/// The bit pattern of the average increment.
pub open spec fn increment_bits(total: u64, steps: nat) -> u32 {
    let (m, e) = increment(total as nat, steps);
    single_bits(m, e)
}

/// The product of the single-precision number with pattern `bits` and `i`
/// (itself rounded to single precision), rounded to single precision, and cut
/// to a long: towards zero, saturating, 0 for what is not a number.
pub open spec fn expected(bits: u32, i: u64) -> i64 {
    let negative = bits >= 0x8000_0000;
    let exp = (bits / 0x80_0000) % 256;
    let frac = bits % 0x80_0000;
    if exp == 255 {
        if frac != 0 || i == 0 {
            0
        } else if negative {
            i64::MIN
        } else {
            i64::MAX
        }
    } else {
        let m1 = if exp == 0 { frac as nat } else { (0x80_0000 + frac) as nat };
        let e1 = if exp == 0 { -149int } else { exp - 150 };
        let s2 = cut(i as nat, 24);
        let m2 = round_even(i as nat, s2, false);
        let s3 = cut(m1 * m2, 24);
        let m = round_even(m1 * m2, s3, false);
        let e = e1 + s2 + s3;
        let size = if e >= 0 { m * pow2(e as nat) } else { m / pow2((-e) as nat) };
        if negative {
            if size >= 0x8000_0000_0000_0000 { i64::MIN } else { (-(size as int)) as i64 }
        } else {
            if size >= 0x8000_0000_0000_0000 { i64::MAX } else { size as i64 }
        }
    }
}

/// The pattern of `m * 2^e`.
fn make_single(m: u64, e: i32) -> (r: u32)
    requires
        m <= 0x100_0000,
        m > 0 ==> -100 <= e <= 100,
    ensures
        r == single_bits(m as nat, e as int),
{
    if m == 0 {
        return 0;
    }
    let n: u32 = bits128(m as u128);
    proof {
        lemma_bit_len(m as nat, 25);
        lemma_bit_len(m as nat, 24);
        lemma_bit_len(m as nat, n as nat);
        lemma_bit_len(m as nat, (n - 1) as nat);
        lemma2_to64();
        assert(bit_len(m as nat) >= 1);
    }
    let field: u32 = ((e + n as i32 + 126) as u32) * 0x80_0000;
    if n <= 24 {
        proof {
            lemma_pow2_adds(n as nat, (24 - n) as nat);
            lemma_pow2_adds((n - 1) as nat, (24 - n) as nat);
            let w = pow2((24 - n) as nat);
            assert(m * w < 0x100_0000) by (nonlinear_arith)
                requires
                    m < pow2(n as nat),
                    pow2(n as nat) * w == 0x100_0000,
                    w > 0,
            ;
            assert(m * w >= 0x80_0000) by (nonlinear_arith)
                requires
                    m >= pow2((n - 1) as nat),
                    pow2((n - 1) as nat) * w == 0x80_0000,
            ;
        }
        let scale: u128 = two_to(24 - n);
        field + ((m as u128 * scale) as u32 - 0x80_0000)
    } else {
        field
    }
}

/// The bit pattern of the average increment.
pub fn average_increment(total: u64, steps: u64) -> (r: u32)
    requires
        1 <= steps < 0x8000_0000,
    ensures
        r == increment_bits(total, steps as nat),
{
    proof {
        lemma_pow2_adds(64, 63);
        lemma2_to64();
        lemma2_to64_rest();
        assert(pow2(127) == 0x1_0000_0000_0000_0000 * 0x8000_0000_0000_0000) by (nonlinear_arith)
            requires
                pow2(127) == pow2(64) * pow2(63),
                pow2(64) == 0x1_0000_0000_0000_0000,
                pow2(63) == 0x8000_0000_0000_0000,
        ;
        lemma_bit_len(total as nat, 64);
    }
    let (a, s1) = round_to(total as u128, 53, false);
    assert(s1 <= 11);
    let n: u32 = bits128(a as u128);
    proof {
        lemma_bit_len(a as nat, n as nat);
        lemma_bit_len(a as nat, 54);
        lemma_pow2_adds(n as nat, (120 - n) as nat);
        let w = pow2((120 - n) as nat);
        lemma_pow2_pos((120 - n) as nat);
        assert(a * w < pow2(120)) by (nonlinear_arith)
            requires
                a < pow2(n as nat),
                pow2(n as nat) * w == pow2(120),
                w > 0,
        ;
        lemma_pow2_strictly_increases(120, 127);
    }
    let k: u32 = 120 - n;
    let wide: u128 = a as u128 * two_to(k);
    let q: u128 = wide / (steps as u128);
    let more: bool = wide % (steps as u128) != 0;
    proof {
        assert(q <= wide) by (nonlinear_arith)
            requires
                q == wide / (steps as u128),
                steps >= 1,
        ;
        lemma_bit_len(q as nat, 120);
        if a > 0 {
            lemma_bit_len(a as nat, (n - 1) as nat);
            lemma_pow2_adds((n - 1) as nat, k as nat);
            assert(a * pow2(k as nat) >= pow2(119)) by (nonlinear_arith)
                requires
                    a >= pow2((n - 1) as nat),
                    pow2((n - 1) as nat) * pow2(k as nat) == pow2(119),
            ;
            lemma_pow2_adds(31, 88);
            lemma_pow2_pos(88);
            assert(q >= pow2(88)) by (nonlinear_arith)
                requires
                    q == wide / (steps as u128),
                    1 <= steps < 0x8000_0000,
                    wide >= 0x8000_0000 * pow2(88),
                    pow2(88) > 0,
            ;
            lemma_bit_len(q as nat, 88);
        } else {
            assert(0 * pow2(k as nat) == 0) by (nonlinear_arith);
            assert(q == 0) by (nonlinear_arith)
                requires
                    q == 0u128 / (steps as u128),
                    steps >= 1,
            ;
        }
    }
    let (b, s2) = round_to(q, 53, more);
    proof {
        lemma_pow2_strictly_increases(53, 127);
        lemma_bit_len(b as nat, 54);
        lemma_pow2_strictly_increases(53, 54);
        if a == 0 {
            lemma_pow2_pos(s2 as nat);
            assert(bit_len(0) == 0);
            assert(b == 0);
        }
    }
    let (m, s3) = round_to(b as u128, 24, false);
    proof {
        assert(m <= 0x100_0000);
        if a == 0 {
            assert(m == 0);
        }
    }
    make_single(m, s1 as i32 - k as i32 + s2 as i32 + s3 as i32)
}

/// The expected value `i` steps on.
pub fn expected_value(bits: u32, i: u64) -> (r: i64)
    ensures
        r == expected(bits, i),
{
    let negative: bool = bits >= 0x8000_0000;
    let exp: u32 = (bits / 0x80_0000) % 256;
    let frac: u32 = bits % 0x80_0000;
    if exp == 255 {
        return if frac != 0 || i == 0 {
            0
        } else if negative {
            i64::MIN
        } else {
            i64::MAX
        };
    }
    proof {
        lemma_pow2_adds(64, 63);
        lemma2_to64();
        lemma2_to64_rest();
        assert(pow2(127) == 0x1_0000_0000_0000_0000 * 0x8000_0000_0000_0000) by (nonlinear_arith)
            requires
                pow2(127) == pow2(64) * pow2(63),
                pow2(64) == 0x1_0000_0000_0000_0000,
                pow2(63) == 0x8000_0000_0000_0000,
        ;
    }
    let m1: u64 = if exp == 0 { frac as u64 } else { (0x80_0000 + frac) as u64 };
    let e1: i32 = if exp == 0 { -149 } else { exp as i32 - 150 };
    let (m2, s2) = round_to(i as u128, 24, false);
    proof {
        assert(0 <= m1 * m2 <= 0x100_0000 * 0x100_0000) by (nonlinear_arith)
            requires
                0 <= m1 <= 0x100_0000,
                0 <= m2 <= 0x100_0000,
        ;
    }
    let (m, s3) = round_to(m1 as u128 * m2 as u128, 24, false);
    let e: i32 = e1 + s2 as i32 + s3 as i32;
    let ghost size = if e >= 0 { m as nat * pow2(e as nat) } else { m as nat / pow2((-e) as nat) };
    let capped: u64;  // the size, or 2^63 where it is larger
    if e >= 0 {
        if m == 0 {
            capped = 0;
            assert(0 * pow2(e as nat) == 0);
        } else if e >= 63 {
            capped = 0x8000_0000_0000_0000;
            proof {
                if e > 63 {
                    lemma_pow2_strictly_increases(63, e as nat);
                }
                assert(m * pow2(e as nat) >= pow2(63)) by (nonlinear_arith)
                    requires
                        m >= 1,
                        pow2(e as nat) >= pow2(63),
                ;
            }
        } else {
            proof {
                lemma_pow2_strictly_increases(e as nat, 63);
                assert(0 <= m * pow2(e as nat) <= 0x100_0000 * 0x8000_0000_0000_0000) by (nonlinear_arith)
                    requires
                        0 <= m <= 0x100_0000,
                        0 <= pow2(e as nat) <= 0x8000_0000_0000_0000,
                ;
            }
            let w: u128 = m as u128 * two_to(e as u32);
            capped = if w >= 0x8000_0000_0000_0000 { 0x8000_0000_0000_0000 } else { w as u64 };
        }
    } else if e <= -64 {
        capped = 0;
        proof {
            if -e > 64 {
                lemma_pow2_strictly_increases(64, (-e) as nat);
            }
            assert(m as nat / pow2((-e) as nat) == 0) by (nonlinear_arith)
                requires
                    (m as nat) < pow2((-e) as nat),
            ;
        }
    } else {
        let d: u128 = two_to((-e) as u32);
        proof {
            assert(m as nat / d as nat <= m) by (nonlinear_arith)
                requires
                    d >= 1,
            ;
        }
        capped = (m as u128 / d) as u64;
    }
    assert(capped == if size >= 0x8000_0000_0000_0000 { 0x8000_0000_0000_0000 } else { size });
    if negative {
        if capped >= 0x8000_0000_0000_0000 { i64::MIN } else { -(capped as i64) }
    } else {
        if capped >= 0x8000_0000_0000_0000 { i64::MAX } else { capped as i64 }
    }
}

} // verus!
