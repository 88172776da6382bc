//! Single bits of 64-bit numbers.

use vstd::arithmetic::power2::{lemma2_to64, lemma2_to64_rest, lemma_pow2_pos, lemma_pow2_strictly_increases, lemma_pow2_unfold, pow2};
use vstd::bits::{lemma_u64_shl_is_mul, lemma_u64_shr_is_div};
use vstd::prelude::*;

verus! {

/// Bit `p` of `x`, the least significant one being bit 0.
pub open spec fn get_bit(x: u64, p: int) -> bool {
    (x >> (p as u64)) & 1 == 1
}

/// The number below `2^n` with the bits `f(0)`, ..., `f(n - 1)`.
pub open spec fn bits_nat(f: spec_fn(int) -> bool, n: nat) -> nat
    decreases n,
{
    if n == 0 {
        0
    } else {
        bits_nat(f, (n - 1) as nat) + if f(n - 1) { pow2((n - 1) as nat) } else { 0 }
    }
}

/// The 64-bit number with the bits `f(0)`, ..., `f(63)`.
pub open spec fn bits_u64(f: spec_fn(int) -> bool) -> u64 {
    bits_nat(f, 64) as u64
}

pub proof fn lemma_bits_nat_bound(f: spec_fn(int) -> bool, n: nat)
    ensures
        bits_nat(f, n) < pow2(n),
    decreases n,
{
    if n == 0 {
        lemma2_to64();
    } else {
        lemma_bits_nat_bound(f, (n - 1) as nat);
        lemma_pow2_unfold(n);
    }
}

/// A bit in terms of division.
pub proof fn lemma_get_bit_div(x: u64, p: int)
    requires
        0 <= p < 64,
    ensures
        get_bit(x, p) <==> (x as nat / pow2(p as nat)) % 2 == 1,
{
    lemma_u64_shr_is_div(x, p as u64);
    let y: u64 = x >> (p as u64);
    assert((y & 1 == 1) <==> (y % 2 == 1)) by (bit_vector);
}

/// The low `n` bits of `x` make `x mod 2^n`.
pub proof fn lemma_bits_of(x: u64, f: spec_fn(int) -> bool, n: nat)
    requires
        n <= 64,
        forall|p: int| 0 <= p < n ==> get_bit(x, p) == f(p),
    ensures
        bits_nat(f, n) == x as nat % pow2(n),
    decreases n,
{
    if n == 0 {
        lemma2_to64();
    } else {
        let m = (n - 1) as nat;
        lemma_bits_of(x, f, m);
        lemma_get_bit_div(x, m as int);
        lemma_pow2_unfold(n);
        lemma_pow2_pos(m);
        let w = pow2(m);
        let v = x as nat;
        vstd::arithmetic::div_mod::lemma_breakdown(v as int, w as int, 2);
        assert(w * 2 == pow2(n)) by (nonlinear_arith)
            requires
                pow2(n) == 2 * w,
        ;
        let d = (v / w) % 2;
        assert(w * d == if d == 1 { w as int } else { 0 }) by (nonlinear_arith)
            requires
                d == 0 || d == 1,
        ;
    }
}

/// A number is made of its bits.
pub proof fn lemma_bits_u64(x: u64, f: spec_fn(int) -> bool)
    requires
        forall|p: int| 0 <= p < 64 ==> get_bit(x, p) == f(p),
    ensures
        x == bits_u64(f),
{
    lemma_bits_of(x, f, 64);
    lemma2_to64_rest();
    assert(x as nat % pow2(64) == x as nat) by (nonlinear_arith)
        requires
            (x as nat) < pow2(64),
    ;
}

/// The bits of a number below `2^n` made from bits.
pub proof fn lemma_bits_nat_bit(f: spec_fn(int) -> bool, n: nat, p: int)
    requires
        n <= 64,
        0 <= p < 64,
    ensures
        get_bit(bits_nat(f, n) as u64, p) == (p < n && f(p)),
    decreases n,
{
    lemma_bits_nat_bound(f, n);
    lemma2_to64_rest();
    if n < 64 {
        lemma_pow2_strictly_increases(n, 64);
    }
    let x = bits_nat(f, n) as u64;
    lemma_get_bit_div(x, p);
    if p >= n {
        lemma_pow2_pos(p as nat);
        if n < p {
            lemma_pow2_strictly_increases(n, p as nat);
        }
        vstd::arithmetic::div_mod::lemma_basic_div(x as int, pow2(p as nat) as int);
    } else {
        let m = (n - 1) as nat;
        let y = bits_nat(f, m);
        lemma_bits_nat_bound(f, m);
        lemma_bits_nat_bit(f, m, p);
        lemma_pow2_strictly_increases(m, 64);
        lemma_get_bit_div(y as u64, p);
        let w = pow2(m) as int;
        let d = pow2(p as nat) as int;
        lemma_pow2_pos(p as nat);
        if p == m {
            assert((y + w) / d == 1 && y as int / d == 0) by (nonlinear_arith)
                requires
                    d == w,
                    0 <= y < w,
                    w > 0,
            ;
        } else {
            vstd::arithmetic::power2::lemma_pow2_adds((m - p - 1) as nat, (p + 1) as nat);
            lemma_pow2_unfold((p + 1) as nat);
            let k = pow2((m - p - 1) as nat) as int;
            assert(w == (2 * k) * d) by (nonlinear_arith)
                requires
                    w == k * (2 * d),
            ;
            vstd::arithmetic::div_mod::lemma_hoist_over_denominator(y as int, 2 * k, d as nat);
            assert((y as int + (2 * k) * d) / d == y as int / d + 2 * k);
            assert((y as int / d + 2 * k) % 2 == (y as int / d) % 2);
        }
    }
}

/// The bits of a number made from bits.
pub proof fn lemma_bits_u64_bit(f: spec_fn(int) -> bool, p: int)
    requires
        0 <= p < 64,
    ensures
        get_bit(bits_u64(f), p) == f(p),
{
    lemma_bits_nat_bit(f, 64, p);
}

/// Two numbers with the same bits are the same.
pub proof fn lemma_same_bits(x: u64, y: u64)
    requires
        forall|p: int| 0 <= p < 64 ==> get_bit(x, p) == get_bit(y, p),
    ensures
        x == y,
{
    lemma_bits_u64(x, |p: int| get_bit(x, p));
    lemma_bits_u64(y, |p: int| get_bit(x, p));
}

/// A number below `2^n` has no bit from `n` on, and conversely.
pub proof fn lemma_bit_high(x: u64, n: int)
    requires
        0 <= n < 64,
    ensures
        x < pow2(n as nat) <==> forall|p: int| n <= p < 64 ==> !#[trigger] get_bit(x, p),
{
    lemma_pow2_pos(n as nat);
    if x < pow2(n as nat) {
        assert forall|p: int| n <= p < 64 implies !#[trigger] get_bit(x, p) by {
            lemma_get_bit_div(x, p);
            lemma_pow2_pos(p as nat);
            if n < p {
                lemma_pow2_strictly_increases(n as nat, p as nat);
            }
            vstd::arithmetic::div_mod::lemma_basic_div(x as int, pow2(p as nat) as int);
        }
    }
    if forall|p: int| n <= p < 64 ==> !#[trigger] get_bit(x, p) {
        let f = |p: int| get_bit(x, p);
        lemma_bits_nat_trim(f, n as nat, 64);
        lemma_bits_of(x, f, 64);
        lemma_bits_nat_bound(f, n as nat);
        lemma2_to64_rest();
    }
}

proof fn lemma_bits_nat_trim(f: spec_fn(int) -> bool, n: nat, m: nat)
    requires
        n <= m,
        forall|p: int| n <= p < m ==> !#[trigger] f(p),
    ensures
        bits_nat(f, m) == bits_nat(f, n),
    decreases m,
{
    if n < m {
        lemma_bits_nat_trim(f, n, (m - 1) as nat);
        assert(!f(m - 1));
    }
}

pub proof fn lemma_bit_shl(x: u64, s: u64, p: int)
    requires
        s < 64,
        0 <= p < 64,
    ensures
        get_bit(x << s, p) == (p >= s && get_bit(x, p - s)),
{
    let q = p as u64;
    assert(((x << s) >> q) & 1 == (if q >= s { (x >> ((q - s) as u64)) & 1 } else { 0 })) by (bit_vector)
        requires
            s < 64,
            q < 64,
    ;
}

pub proof fn lemma_bit_shr(x: u64, s: u64, p: int)
    requires
        s < 64,
        0 <= p < 64,
    ensures
        get_bit(x >> s, p) == (p + s < 64 && get_bit(x, p + s)),
{
    let q = p as u64;
    assert(((x >> s) >> q) & 1 == (if q + s < 64 { (x >> ((q + s) as u64)) & 1 } else { 0 })) by (bit_vector)
        requires
            s < 64,
            q < 64,
    ;
}

pub proof fn lemma_bit_or(x: u64, y: u64, p: int)
    requires
        0 <= p < 64,
    ensures
        get_bit(x | y, p) == (get_bit(x, p) || get_bit(y, p)),
{
    let q = p as u64;
    assert(((x | y) >> q) & 1 == ((x >> q) & 1) | ((y >> q) & 1)) by (bit_vector);
    let a: u64 = (x >> q) & 1;
    let b: u64 = (y >> q) & 1;
    assert(a == ((x >> q) & 1) && b == ((y >> q) & 1) ==> ((a | b == 1) <==> (a == 1 || b == 1))) by (bit_vector);
}

pub proof fn lemma_bit_zero(p: int)
    requires
        0 <= p < 64,
    ensures
        !get_bit(0, p),
{
    let q = p as u64;
    assert((0u64 >> q) & 1 == 0) by (bit_vector);
}

/// The low `n` bits of `x`.
pub fn low_bits(x: u64, n: u32) -> (r: u64)
    requires
        n <= 64,
    ensures
        r == x as nat % pow2(n as nat),
        forall|p: int| 0 <= p < 64 ==> #[trigger] get_bit(r, p) == (p < n && get_bit(x, p)),
{
    proof {
        lemma2_to64();
        lemma2_to64_rest();
    }
    if n == 64 {
        assert(x as nat % pow2(64) == x as nat) by (nonlinear_arith)
            requires
                (x as nat) < pow2(64),
        ;
        return x;
    }
    proof {
        lemma_pow2_strictly_increases(n as nat, 64);
        lemma_pow2_pos(n as nat);
        assert(1 * pow2(n as nat) == pow2(n as nat)) by (nonlinear_arith);
        lemma_u64_shl_is_mul(1, n as u64);
    }
    let m: u64 = 1u64 << (n as u64);
    let r: u64 = x % m;
    proof {
        let f = |p: int| get_bit(x, p);
        lemma_bits_of(x, f, n as nat);
        assert forall|p: int| 0 <= p < 64 implies #[trigger] get_bit(r, p) == (p < n && get_bit(x, p)) by {
            lemma_bits_nat_bit(f, n as nat, p);
        }
    }
    r
}

/// How many bits `v` takes: 0 for 0, else the position of its highest one,
/// counted from 1.
pub open spec fn bit_len(v: nat) -> nat
    decreases v,
{
    if v == 0 {
        0
    } else {
        1 + bit_len(v / 2)
    }
}

/// `bit_len(v)` is the least width that holds `v`.
pub proof fn lemma_bit_len(v: nat, n: nat)
    ensures
        bit_len(v) <= n <==> v < pow2(n),
    decreases v,
{
    lemma_pow2_pos(n);
    if v > 0 {
        if n == 0 {
            lemma2_to64();
        } else {
            lemma_bit_len(v / 2, (n - 1) as nat);
            lemma_pow2_unfold(n);
        }
    }
}

pub fn bits_required(v: u64) -> (n: u32)
    ensures
        n == bit_len(v as nat),
        n <= 64,
{
    proof {
        lemma_bit_len(v as nat, 64);
        lemma2_to64_rest();
    }
    let mut x: u64 = v;
    let mut n: u32 = 0;
    while x > 0
        invariant
            n + bit_len(x as nat) == bit_len(v as nat),
            bit_len(v as nat) <= 64,
        decreases x,
    {
        x = x / 2;
        n = n + 1;
    }
    n
}

/// Splitting a number at a bit and joining the parts again.
pub proof fn lemma_split_join(v: u64, n: u64)
    requires
        n < 64,
    ensures
        ((v as nat % pow2(n as nat)) as u64) | ((v >> n) << n) == v,
{
    let low = (v as nat % pow2(n as nat)) as u64;
    lemma_pow2_pos(n as nat);
    lemma_pow2_strictly_increases(n as nat, 64);
    lemma2_to64_rest();
    vstd::arithmetic::div_mod::lemma_mod_bound(v as int, pow2(n as nat) as int);
    let f = |p: int| get_bit(v, p);
    lemma_bits_of(v, f, n as nat);
    assert forall|p: int| 0 <= p < 64 implies get_bit(low | ((v >> n) << n), p) == get_bit(v, p) by {
        lemma_bit_or(low, (v >> n) << n, p);
        lemma_bits_nat_bit(f, n as nat, p);
        lemma_bit_shl(v >> n, n, p);
        if p >= n {
            lemma_bit_shr(v, n, p - n);
        }
    }
    lemma_same_bits(low | ((v >> n) << n), v);
}

} // verus!
