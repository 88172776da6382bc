//! The byte-level vocabulary of the crate: little- and big-endian numbers,
//! variable-length numbers, and what it means for bytes to stand at a place.

use crate::error::ErrorKind;
use crate::num::{spec_to_i16, spec_to_i32, spec_to_i64, spec_to_u16, spec_to_u32, spec_to_u64};
use vstd::arithmetic::power2::{lemma2_to64, lemma2_to64_rest, lemma_pow2_adds, lemma_pow2_pos, pow2};
use vstd::prelude::*;

verus! {

/// Concatenation groups either way.
pub broadcast proof fn lemma_concat_assoc(a: Seq<u8>, b: Seq<u8>, c: Seq<u8>)
    ensures
        #[trigger] (a + (b + c)) == a + b + c,
{
    assert(a + (b + c) =~= a + b + c);
}

// ---------------------------------------------------------------------------
// Places
// ---------------------------------------------------------------------------

/// The bytes `b` stand in `s` at position `p`.
pub open spec fn holds_at(s: Seq<u8>, p: int, b: Seq<u8>) -> bool {
    &&& 0 <= p
    &&& p + b.len() <= s.len()
    &&& s.subrange(p, p + b.len()) == b
}

/// Two runs of bytes stand one after the other exactly when their
/// concatenation stands at the first one's place.
pub proof fn lemma_holds_concat(s: Seq<u8>, p: int, a: Seq<u8>, b: Seq<u8>)
    ensures
        holds_at(s, p, a + b) <==> holds_at(s, p, a) && holds_at(s, p + a.len(), b),
{
    if holds_at(s, p, a + b) {
        assert forall|i: int| 0 <= i < a.len() implies s[p + i] == a[i] by {
            assert(s.subrange(p, p + (a + b).len())[i] == (a + b)[i]);
        }
        assert forall|i: int| 0 <= i < b.len() implies s[p + a.len() + i] == b[i] by {
            assert(s.subrange(p, p + (a + b).len())[a.len() + i] == (a + b)[a.len() + i]);
        }
        assert(s.subrange(p, p + a.len()) =~= a);
        assert(s.subrange(p + a.len(), p + a.len() + b.len()) =~= b);
    }
    if holds_at(s, p, a) && holds_at(s, p + a.len(), b) {
        assert forall|i: int| 0 <= i < a.len() + b.len() implies s[p + i] == (a + b)[i] by {
            if i < a.len() {
                assert(s.subrange(p, p + a.len())[i] == a[i]);
            } else {
                assert(s.subrange(p + a.len(), p + a.len() + b.len())[i - a.len()] == b[i - a.len()]);
            }
        }
        assert(s.subrange(p, p + (a + b).len()) =~= a + b);
    }
}

/// A byte of what stands at `p`, read in place.
pub proof fn lemma_holds_index(s: Seq<u8>, p: int, b: Seq<u8>, i: int)
    requires
        holds_at(s, p, b),
        0 <= i < b.len(),
    ensures
        s[p + i] == b[i],
{
    assert(s.subrange(p, p + b.len())[i] == b[i]);
}

/// The `n` bytes at `p`, or the end of input.
pub open spec fn take_at(s: Seq<u8>, p: int, n: int) -> Result<(Seq<u8>, int), ErrorKind> {
    if 0 <= p <= p + n <= s.len() {
        Ok((s.subrange(p, p + n), p + n))
    } else {
        Err(ErrorKind::UnexpectedEof)
    }
}

/// The single byte at `p`, or the end of input.
pub open spec fn byte_at(s: Seq<u8>, p: int) -> Result<(u8, int), ErrorKind> {
    if 0 <= p < s.len() {
        Ok((s[p], p + 1))
    } else {
        Err(ErrorKind::UnexpectedEof)
    }
}

// ---------------------------------------------------------------------------
// Fixed-width numbers
// ---------------------------------------------------------------------------

/// The `n` low bytes of `v`, least significant first.
pub open spec fn le_bytes(v: nat, n: nat) -> Seq<u8>
    decreases n,
{
    if n == 0 {
        Seq::empty()
    } else {
        seq![(v % 256) as u8] + le_bytes(v / 256, (n - 1) as nat)
    }
}

/// The number whose bytes, least significant first, are `s`.
pub open spec fn le_nat(s: Seq<u8>) -> nat
    decreases s.len(),
{
    if s.len() == 0 {
        0
    } else {
        s[0] as nat + 256 * le_nat(s.drop_first())
    }
}

/// The `n` low bytes of `v`, most significant first.
pub open spec fn be_bytes(v: nat, n: nat) -> Seq<u8> {
    le_bytes(v, n).reverse()
}

/// The number whose bytes, most significant first, are `s`.
pub open spec fn be_nat(s: Seq<u8>) -> nat {
    le_nat(s.reverse())
}

pub broadcast proof fn lemma_le_bytes_len(v: nat, n: nat)
    ensures
        #[trigger] le_bytes(v, n).len() == n,
    decreases n,
{
    if n > 0 {
        lemma_le_bytes_len(v / 256, (n - 1) as nat);
    }
}

pub broadcast proof fn lemma_be_bytes_len(v: nat, n: nat)
    ensures
        #[trigger] be_bytes(v, n).len() == n,
{
    lemma_le_bytes_len(v, n);
}

pub proof fn lemma_pow2_8(n: nat)
    requires
        n > 0,
    ensures
        pow2(8 * n) == 256 * pow2((8 * (n - 1)) as nat),
        pow2(8 * n) > 0,
{
    lemma_pow2_adds(8, (8 * (n - 1)) as nat);
    lemma2_to64();
    lemma_pow2_pos(8 * n);
    assert(8 + 8 * (n - 1) == 8 * n);
}

/// `n` bytes hold less than `2^(8n)`.
pub proof fn lemma_le_nat_bound(s: Seq<u8>)
    ensures
        le_nat(s) < pow2(8 * s.len()),
    decreases s.len(),
{
    if s.len() == 0 {
        lemma2_to64();
    } else {
        lemma_le_nat_bound(s.drop_first());
        lemma_pow2_8(s.len());
    }
}

/// Writing a number and reading it back gives the number.
pub proof fn lemma_le_round_trip(v: nat, n: nat)
    requires
        v < pow2(8 * n),
    ensures
        le_nat(le_bytes(v, n)) == v,
    decreases n,
{
    if n == 0 {
        lemma2_to64();
    } else {
        lemma_pow2_8(n);
        lemma_le_round_trip(v / 256, (n - 1) as nat);
        let b = le_bytes(v, n);
        assert(b.drop_first() =~= le_bytes(v / 256, (n - 1) as nat));
    }
}

/// Reading bytes as a number and writing the number gives the bytes.
pub proof fn lemma_le_inverse(s: Seq<u8>)
    ensures
        le_bytes(le_nat(s), s.len()) == s,
    decreases s.len(),
{
    if s.len() > 0 {
        lemma_le_inverse(s.drop_first());
        let v = le_nat(s);
        assert(v % 256 == s[0] && v / 256 == le_nat(s.drop_first()));
        assert(le_bytes(v, s.len()) =~= s);
    } else {
        assert(le_bytes(0, 0) =~= s);
    }
}

/// The number of a concatenation, by its parts.
pub proof fn lemma_le_nat_concat(a: Seq<u8>, b: Seq<u8>)
    ensures
        le_nat(a + b) == le_nat(a) + pow2(8 * a.len()) * le_nat(b),
    decreases a.len(),
{
    if a.len() == 0 {
        assert(a + b =~= b);
        lemma2_to64();
    } else {
        lemma_le_nat_concat(a.drop_first(), b);
        assert((a + b).drop_first() =~= a.drop_first() + b);
        lemma_pow2_8(a.len());
        let q = pow2((8 * (a.len() - 1)) as nat) as int;
        let m = le_nat(b) as int;
        assert(256 * (q * m) == (256 * q) * m) by (nonlinear_arith);
    }
}

/// A byte of a number's little-endian form.
pub proof fn lemma_le_bytes_concat(v: nat, m: nat, n: nat)
    ensures
        le_bytes(v, m + n) == le_bytes(v, m) + le_bytes(v / pow2(8 * m), n),
    decreases m,
{
    if m == 0 {
        lemma2_to64();
        assert(le_bytes(v, 0) + le_bytes(v / 1, n) =~= le_bytes(v, n));
    } else {
        lemma_le_bytes_concat(v / 256, (m - 1) as nat, n);
        lemma_pow2_8(m);
        lemma_pow2_pos((8 * (m - 1)) as nat);
        vstd::arithmetic::div_mod::lemma_div_denominator(v as int, 256, pow2((8 * (m - 1)) as nat) as int);
        assert(v / pow2(8 * m) == (v / 256) / pow2((8 * (m - 1)) as nat));
        assert(m + n - 1 == (m - 1) + n);
        assert(le_bytes(v, m + n) =~= le_bytes(v, m) + le_bytes(v / pow2(8 * m), n));
    }
}

pub proof fn lemma_pow2_widths()
    ensures
        pow2(8) == 0x100,
        pow2(16) == 0x1_0000,
        pow2(24) == 0x100_0000,
        pow2(32) == 0x1_0000_0000,
        pow2(40) == 0x100_0000_0000,
        pow2(48) == 0x1_0000_0000_0000,
        pow2(56) == 0x100_0000_0000_0000,
        pow2(63) == 0x8000_0000_0000_0000,
        pow2(64) == 0x1_0000_0000_0000_0000,
{
    lemma2_to64();
    lemma2_to64_rest();
}

/// Appends the `n` low bytes of `v`, least significant first.
pub fn push_le(out: &mut Vec<u8>, v: u64, n: usize)
    ensures
        final(out)@ == old(out)@ + le_bytes(v as nat, n as nat),
{
    let mut x: u64 = v;
    let mut i: usize = 0;
    assert(out@ + le_bytes(v as nat, n as nat) =~= old(out)@ + le_bytes(v as nat, n as nat));
    while i < n
        invariant
            i <= n,
            out@ + le_bytes(x as nat, (n - i) as nat) == old(out)@ + le_bytes(v as nat, n as nat),
        decreases n - i,
    {
        let ghost before = out@;
        out.push((x % 256) as u8);
        proof {
            let rest = le_bytes(x as nat / 256, (n - i - 1) as nat);
            assert(out@ + rest =~= before + (seq![(x as nat % 256) as u8] + rest));
        }
        x = x / 256;
        i = i + 1;
    }
    assert(out@ + le_bytes(x as nat, 0) =~= out@);
}

/// The `n` low bytes of `v`, least significant first.
pub fn le_vec(v: u64, n: usize) -> (r: Vec<u8>)
    ensures
        r@ == le_bytes(v as nat, n as nat),
{
    let mut out: Vec<u8> = Vec::new();
    push_le(&mut out, v, n);
    assert(Seq::<u8>::empty() + le_bytes(v as nat, n as nat) =~= le_bytes(v as nat, n as nat));
    out
}

/// The `n` low bytes of `v`, most significant first.
pub fn be_vec(v: u64, n: usize) -> (r: Vec<u8>)
    ensures
        r@ == be_bytes(v as nat, n as nat),
{
    let le = le_vec(v, n);
    broadcast use lemma_le_bytes_len;
    let mut out: Vec<u8> = Vec::new();
    let mut i: usize = n;
    while i > 0
        invariant
            i <= n,
            le@.len() == n,
            out@ == le@.subrange(i as int, n as int).reverse(),
        decreases i,
    {
        i = i - 1;
        out.push(le[i]);
        assert(out@ =~= le@.subrange(i as int, n as int).reverse());
    }
    assert(le@.subrange(0, n as int) =~= le@);
    out
}

/// The little-endian number of the `n` bytes at `p`.
pub fn le_u64(s: &[u8], p: usize, n: usize) -> (r: u64)
    requires
        n <= 8,
        p + n <= s@.len(),
    ensures
        r == le_nat(s@.subrange(p as int, p + n)),
        r < pow2(8 * n as nat),
{
    proof {
        lemma_le_nat_bound(s@.subrange(p as int, p + n));
        lemma_pow2_widths();
        if n < 8 {
            vstd::arithmetic::power2::lemma_pow2_strictly_increases(8 * n as nat, 64);
        }
    }
    let mut i: usize = n;
    let mut acc: u64 = 0;
    assert(s@.subrange(p + n, p + n) =~= Seq::<u8>::empty());
    while i > 0
        invariant
            i <= n <= 8,
            p + n <= s.len(),
            acc == le_nat(s@.subrange(p + i, p + n)),
        decreases i,
    {
        i = i - 1;
        proof {
            let t = s@.subrange(p + i, p + n);
            assert(t.drop_first() =~= s@.subrange(p + i + 1, p + n));
            lemma_le_nat_bound(t);
            lemma_pow2_widths();
            if t.len() < 8 {
                vstd::arithmetic::power2::lemma_pow2_strictly_increases(8 * t.len(), 64);
            }
        }
        acc = s[p + i] as u64 + 256 * acc;
    }
    acc
}

/// The big-endian number of the `n` bytes at `p`.
pub fn be_u64(s: &[u8], p: usize, n: usize) -> (r: u64)
    requires
        n <= 8,
        p + n <= s@.len(),
    ensures
        r == be_nat(s@.subrange(p as int, p + n)),
        r < pow2(8 * n as nat),
{
    let mut rev: Vec<u8> = Vec::new();
    let mut i: usize = n;
    while i > 0
        invariant
            i <= n,
            p + n <= s.len(),
            rev@ == s@.subrange(p + i, p + n).reverse(),
        decreases i,
    {
        i = i - 1;
        rev.push(s[p + i]);
        assert(rev@ =~= s@.subrange(p + i, p + n).reverse());
    }
    assert(rev@.subrange(0, n as int) =~= rev@);
    le_u64(&rev, 0, n)
}

/// A big-endian number written is the number read.
pub proof fn lemma_be_round_trip(v: nat, n: nat)
    requires
        v < pow2(8 * n),
    ensures
        be_nat(be_bytes(v, n)) == v,
{
    assert(le_bytes(v, n).reverse().reverse() =~= le_bytes(v, n));
    lemma_le_round_trip(v, n);
}

pub open spec fn short_at(s: Seq<u8>, p: int) -> Result<(i16, int), ErrorKind> {
    match take_at(s, p, 2) {
        Ok((b, q)) => Ok((spec_to_i16(le_nat(b) as u16), q)),
        Err(k) => Err(k),
    }
}

pub open spec fn int_at(s: Seq<u8>, p: int) -> Result<(i32, int), ErrorKind> {
    match take_at(s, p, 4) {
        Ok((b, q)) => Ok((spec_to_i32(le_nat(b) as u32), q)),
        Err(k) => Err(k),
    }
}

pub open spec fn long_at(s: Seq<u8>, p: int) -> Result<(i64, int), ErrorKind> {
    match take_at(s, p, 8) {
        Ok((b, q)) => Ok((spec_to_i64(le_nat(b) as u64), q)),
        Err(k) => Err(k),
    }
}

/// The two, four and eight bytes of a signed number.
pub open spec fn short_bytes(v: i16) -> Seq<u8> {
    le_bytes(spec_to_u16(v) as nat, 2)
}

pub open spec fn int_bytes(v: i32) -> Seq<u8> {
    le_bytes(spec_to_u32(v) as nat, 4)
}

pub open spec fn long_bytes(v: i64) -> Seq<u8> {
    le_bytes(spec_to_u64(v) as nat, 8)
}

/// A short that was written is read back.
pub proof fn law_short_round_trip(s: Seq<u8>, p: int, v: i16)
    requires
        holds_at(s, p, short_bytes(v)),
    ensures
        short_at(s, p) == Ok::<(i16, int), ErrorKind>((v, p + 2)),
{
    broadcast use lemma_le_bytes_len;
    lemma_pow2_widths();
    lemma_le_round_trip(spec_to_u16(v) as nat, 2);
}

/// An int that was written is read back.
pub proof fn law_int_round_trip(s: Seq<u8>, p: int, v: i32)
    requires
        holds_at(s, p, int_bytes(v)),
    ensures
        int_at(s, p) == Ok::<(i32, int), ErrorKind>((v, p + 4)),
{
    broadcast use lemma_le_bytes_len;
    lemma_pow2_widths();
    lemma_le_round_trip(spec_to_u32(v) as nat, 4);
}

/// A long that was written is read back.
pub proof fn law_long_round_trip(s: Seq<u8>, p: int, v: i64)
    requires
        holds_at(s, p, long_bytes(v)),
    ensures
        long_at(s, p) == Ok::<(i64, int), ErrorKind>((v, p + 8)),
{
    broadcast use lemma_le_bytes_len;
    lemma_pow2_widths();
    lemma_le_round_trip(spec_to_u64(v) as nat, 8);
}

/// The int and the long that stand at `p`.
pub open spec fn i32_in(s: Seq<u8>, p: int) -> i32 {
    spec_to_i32(le_nat(s.subrange(p, p + 4)) as u32)
}

pub open spec fn i64_in(s: Seq<u8>, p: int) -> i64 {
    spec_to_i64(le_nat(s.subrange(p, p + 8)) as u64)
}

/// What stands somewhere stands there part by part.
pub broadcast proof fn lemma_holds_parts(s: Seq<u8>, p: int, a: Seq<u8>, b: Seq<u8>)
    requires
        #[trigger] holds_at(s, p, a + b),
    ensures
        holds_at(s, p, a),
        holds_at(s, p + a.len(), b),
{
    lemma_holds_concat(s, p, a, b);
}

pub broadcast proof fn lemma_holds_int(s: Seq<u8>, p: int, v: i32)
    requires
        #[trigger] holds_at(s, p, int_bytes(v)),
    ensures
        i32_in(s, p) == v,
        p + 4 <= s.len(),
{
    law_int_round_trip(s, p, v);
}

pub broadcast proof fn lemma_holds_long(s: Seq<u8>, p: int, v: i64)
    requires
        #[trigger] holds_at(s, p, long_bytes(v)),
    ensures
        i64_in(s, p) == v,
        p + 8 <= s.len(),
{
    law_long_round_trip(s, p, v);
}

pub broadcast proof fn lemma_holds_byte(s: Seq<u8>, p: int, v: u8)
    requires
        #[trigger] holds_at(s, p, seq![v]),
    ensures
        s[p] == v,
        p + 1 <= s.len(),
{
    lemma_holds_index(s, p, seq![v], 0);
}

// ---------------------------------------------------------------------------
// Variable-length numbers
// ---------------------------------------------------------------------------

/// Seven bits per byte, low groups first; every byte but the last has its
/// high bit set.
pub open spec fn varint_bytes(v: nat) -> Seq<u8>
    decreases v,
{
    if v < 128 {
        seq![v as u8]
    } else {
        seq![(v % 128 + 128) as u8] + varint_bytes(v / 128)
    }
}

/// Reads groups of seven bits, at most `left` of them, the first one weighing
/// `weight`, on top of `acc`.
pub open spec fn varint_scan(s: Seq<u8>, p: int, left: nat, weight: nat, acc: nat) -> Result<
    (nat, int),
    ErrorKind,
>
    decreases left,
{
    if left == 0 {
        Err(ErrorKind::InvalidData)
    } else if !(0 <= p < s.len()) {
        Err(ErrorKind::UnexpectedEof)
    } else if s[p] < 128 {
        Ok((acc + s[p] as nat * weight, p + 1))
    } else {
        varint_scan(s, p + 1, (left - 1) as nat, weight * 128, acc + (s[p] - 128) as nat * weight)
    }
}

/// A variable-length number that was written is what the scan finds.
pub proof fn lemma_varint_scan(s: Seq<u8>, p: int, v: nat, left: nat, weight: nat, acc: nat)
    requires
        holds_at(s, p, varint_bytes(v)),
        left > 0,
        v < pow2(7 * left),
    ensures
        varint_scan(s, p, left, weight, acc) == Ok::<(nat, int), ErrorKind>(
            (acc + v * weight, p + varint_bytes(v).len()),
        ),
    decreases left,
{
    lemma_holds_index(s, p, varint_bytes(v), 0);
    if v >= 128 {
        let head = seq![(v % 128 + 128) as u8];
        lemma_holds_concat(s, p, head, varint_bytes(v / 128));
        lemma_pow2_adds(7, (7 * (left - 1)) as nat);
        lemma2_to64();
        assert(7 + 7 * (left - 1) == 7 * left);
        let m = pow2((7 * (left - 1)) as nat);
        assert(v / 128 < m) by (nonlinear_arith)
            requires
                v < 128 * m,
        ;
        if left == 1 {
            assert(false);
        }
        lemma_varint_scan(s, p + 1, v / 128, (left - 1) as nat, weight * 128, acc + (v % 128) * weight);
        assert((v % 128) * weight + (v / 128) * (weight * 128) == v * weight) by (nonlinear_arith)
            requires
                v == (v / 128) * 128 + v % 128,
        ;
    }
}

/// Length of a variable-length number.
pub proof fn lemma_varint_len(v: nat)
    ensures
        varint_bytes(v).len() >= 1,
        v < 128 <==> varint_bytes(v).len() == 1,
    decreases v,
{
    if v >= 128 {
        lemma_varint_len(v / 128);
    }
}

/// A number below `2^(7n)` takes at most `n` bytes.
pub proof fn lemma_varint_len_max(v: nat, n: nat)
    requires
        n > 0,
        v < pow2(7 * n),
    ensures
        varint_bytes(v).len() <= n,
    decreases n,
{
    if v >= 128 {
        lemma2_to64();
        lemma_pow2_adds(7, (7 * (n - 1)) as nat);
        assert(7 + 7 * (n - 1) == 7 * n);
        let m = pow2((7 * (n - 1)) as nat);
        assert(v / 128 < m) by (nonlinear_arith)
            requires
                v < 128 * m,
        ;
        if n == 1 {
            assert(false);
        }
        lemma_varint_len_max(v / 128, (n - 1) as nat);
    }
}

/// The variable-length int at `p`: at most five groups, the low 32 bits.
pub open spec fn vint_at(s: Seq<u8>, p: int) -> Result<(i32, int), ErrorKind> {
    match varint_scan(s, p, 5, 1, 0) {
        Ok((n, q)) => Ok((spec_to_i32((n % 0x1_0000_0000) as u32), q)),
        Err(k) => Err(k),
    }
}

/// The variable-length long at `p`: at most nine groups.
pub open spec fn vlong_at(s: Seq<u8>, p: int) -> Result<(i64, int), ErrorKind> {
    match varint_scan(s, p, 9, 1, 0) {
        Ok((n, q)) => Ok((n as i64, q)),
        Err(k) => Err(k),
    }
}

/// A scan ends behind where it began, within the bytes, and its result has
/// no more bits than its groups.
pub proof fn lemma_varint_ends(s: Seq<u8>, p: int, left: nat, weight: nat, acc: nat)
    ensures
        match varint_scan(s, p, left, weight, acc) {
            Ok((n, q)) => 0 <= p < q <= s.len() && acc <= n <= acc + weight * (pow2(7 * left) - 1),
            Err(_) => true,
        },
    decreases left,
{
    lemma2_to64();
    if left > 0 && 0 <= p < s.len() {
        vstd::arithmetic::power2::lemma_pow2_adds(7, (7 * left - 7) as nat);
        let rest = pow2((7 * left - 7) as nat);
        vstd::arithmetic::power2::lemma_pow2_pos((7 * left - 7) as nat);
        let b = s[p] as int;
        if b < 128 {
            assert(0 <= b * weight <= weight * (128 * rest - 1)) by (nonlinear_arith)
                requires
                    0 <= b < 128,
                    weight >= 0,
                    rest >= 1,
            ;
        } else {
            lemma_varint_ends(s, p + 1, (left - 1) as nat, weight * 128, acc + (b - 128) as nat * weight);
            assert(0 <= (b - 128) * weight && (b - 128) * weight + (weight * 128) * (rest - 1) <= weight * (128 * rest - 1)) by (nonlinear_arith)
                requires
                    128 <= b < 256,
                    weight >= 0,
                    rest >= 1,
            ;
        }
    }
}

/// Where a variable-length number ends.
pub proof fn lemma_var_ends(s: Seq<u8>, p: int)
    ensures
        vint_at(s, p) is Ok ==> p < vint_at(s, p)->Ok_0.1 <= s.len(),
        vlong_at(s, p) is Ok ==> p < vlong_at(s, p)->Ok_0.1 <= s.len() && vlong_at(s, p)->Ok_0.0 >= 0,
{
    lemma2_to64();
    lemma2_to64_rest();
    lemma_varint_ends(s, p, 5, 1, 0);
    lemma_varint_ends(s, p, 9, 1, 0);
}

/// The bytes of a variable-length int: negative ints as their 32-bit pattern.
pub open spec fn vint_bytes(v: i32) -> Seq<u8> {
    varint_bytes(spec_to_u32(v) as nat)
}

/// The variable-length form of the low 32, and of the low 64, bits of a
/// number.
pub open spec fn vint_of(x: int) -> Seq<u8> {
    varint_bytes((x % 0x1_0000_0000) as nat)
}

pub open spec fn vlong_of(x: int) -> Seq<u8> {
    varint_bytes((x % 0x1_0000_0000_0000_0000) as nat)
}

/// A variable-length int that was written is read back, negative ones too.
pub proof fn law_vint_round_trip(s: Seq<u8>, p: int, v: i32)
    requires
        holds_at(s, p, vint_bytes(v)),
    ensures
        vint_at(s, p) == Ok::<(i32, int), ErrorKind>((v, p + vint_bytes(v).len())),
{
    lemma2_to64();
    lemma2_to64_rest();
    lemma_varint_scan(s, p, spec_to_u32(v) as nat, 5, 1, 0);
}

/// A non-negative variable-length long that was written is read back.
pub proof fn law_vlong_round_trip(s: Seq<u8>, p: int, v: i64)
    requires
        v >= 0,
        holds_at(s, p, varint_bytes(v as nat)),
    ensures
        vlong_at(s, p) == Ok::<(i64, int), ErrorKind>((v, p + varint_bytes(v as nat).len())),
{
    lemma2_to64();
    lemma2_to64_rest();
    lemma_varint_scan(s, p, v as nat, 9, 1, 0);
}

/// The zigzag int at `p`.
pub open spec fn zint_at(s: Seq<u8>, p: int) -> Result<(i32, int), ErrorKind> {
    match vint_at(s, p) {
        Ok((v, q)) => Ok((crate::num::unzigzag(spec_to_u32(v) as nat) as i32, q)),
        Err(k) => Err(k),
    }
}

/// A zigzag int that was written is read back, whatever its magnitude.
pub proof fn law_zint_round_trip(s: Seq<u8>, p: int, v: i32)
    requires
        holds_at(s, p, varint_bytes(crate::num::zigzag(v as int))),
    ensures
        zint_at(s, p) == Ok::<(i32, int), ErrorKind>(
            (v, p + varint_bytes(crate::num::zigzag(v as int)).len()),
        ),
{
    let u = crate::num::zigzag(v as int) as u32;
    assert(spec_to_u32(spec_to_i32(u)) == u);
    law_vint_round_trip(s, p, spec_to_i32(u));
    crate::num::law_zigzag_round_trip(v as int);
}

/// Appends the variable-length form of `v`.
pub fn push_varint(out: &mut Vec<u8>, v: u64)
    ensures
        final(out)@ == old(out)@ + varint_bytes(v as nat),
{
    let mut x: u64 = v;
    while x >= 128
        invariant
            out@ + varint_bytes(x as nat) == old(out)@ + varint_bytes(v as nat),
        decreases x,
    {
        let ghost before = out@;
        out.push((x % 128 + 128) as u8);
        proof {
            let rest = varint_bytes(x as nat / 128);
            assert(out@ + rest =~= before + (seq![(x as nat % 128 + 128) as u8] + rest));
        }
        x = x / 128;
    }
    let ghost before = out@;
    out.push(x as u8);
    assert(out@ =~= before + varint_bytes(x as nat));
}

// ---------------------------------------------------------------------------
// Order and common prefixes
// ---------------------------------------------------------------------------

/// How many leading bytes `a` and `b` share.
pub open spec fn common_prefix(a: Seq<u8>, b: Seq<u8>) -> nat
    decreases a.len(),
{
    if a.len() > 0 && b.len() > 0 && a[0] == b[0] {
        1 + common_prefix(a.drop_first(), b.drop_first())
    } else {
        0
    }
}

/// Unsigned byte order; a proper prefix comes first.
pub open spec fn lex_less(a: Seq<u8>, b: Seq<u8>) -> bool {
    let k = common_prefix(a, b) as int;
    k < b.len() && (k == a.len() || a[k] < b[k])
}

/// What characterises the length of the common prefix.
pub open spec fn is_common_prefix(a: Seq<u8>, b: Seq<u8>, k: int) -> bool {
    &&& 0 <= k <= a.len()
    &&& k <= b.len()
    &&& forall|i: int| 0 <= i < k ==> a[i] == b[i]
    &&& (k == a.len() || k == b.len() || a[k] != b[k])
}

pub proof fn lemma_common_prefix(a: Seq<u8>, b: Seq<u8>)
    ensures
        is_common_prefix(a, b, common_prefix(a, b) as int),
    decreases a.len(),
{
    if a.len() > 0 && b.len() > 0 && a[0] == b[0] {
        let (x, y) = (a.drop_first(), b.drop_first());
        lemma_common_prefix(x, y);
        let k = common_prefix(a, b) as int;
        assert forall|i: int| 0 <= i < k implies a[i] == b[i] by {
            if i > 0 {
                assert(x[i - 1] == y[i - 1]);
            }
        }
        if k < a.len() && k < b.len() {
            assert(x[k - 1] == a[k] && y[k - 1] == b[k]);
        }
    }
}

pub proof fn lemma_common_prefix_unique(a: Seq<u8>, b: Seq<u8>, k: int)
    requires
        is_common_prefix(a, b, k),
    ensures
        k == common_prefix(a, b),
{
    lemma_common_prefix(a, b);
    let c = common_prefix(a, b) as int;
    if k < c {
        assert(a[k] == b[k]);
    } else if c < k {
        assert(a[c] == b[c]);
    }
}

/// Length of the common prefix of `a` and `b`.
pub fn bytes_difference(a: &[u8], b: &[u8]) -> (k: usize)
    ensures
        k == common_prefix(a@, b@),
{
    let mut k: usize = 0;
    while k < a.len() && k < b.len() && a[k] == b[k]
        invariant
            k <= a.len(),
            k <= b.len(),
            forall|i: int| 0 <= i < k ==> a[i] == b[i],
        decreases a.len() - k,
    {
        k = k + 1;
    }
    proof {
        lemma_common_prefix_unique(a@, b@, k as int);
    }
    k
}

/// Whether `a` comes before `b` in unsigned byte order.
pub fn bytes_less(a: &[u8], b: &[u8]) -> (r: bool)
    ensures
        r == lex_less(a@, b@),
{
    let k: usize = bytes_difference(a, b);
    proof {
        lemma_common_prefix(a@, b@);
    }
    k < b.len() && (k == a.len() || a[k] < b[k])
}

/// Whether `a` and `b` are the same bytes.
pub fn bytes_equal(a: &[u8], b: &[u8]) -> (r: bool)
    ensures
        r == (a@ == b@),
{
    let k: usize = bytes_difference(a, b);
    proof {
        lemma_common_prefix(a@, b@);
        if k == a.len() && k == b.len() {
            assert(a@ =~= b@);
        }
    }
    k == a.len() && k == b.len()
}

/// Byte order is irreflexive, transitive and total.
pub proof fn lemma_lex_order(a: Seq<u8>, b: Seq<u8>, c: Seq<u8>)
    ensures
        !lex_less(a, a),
        lex_less(a, b) && lex_less(b, c) ==> lex_less(a, c),
        a == b || lex_less(a, b) || lex_less(b, a),
        lex_less(a, b) ==> !lex_less(b, a),
{
    lemma_common_prefix(a, a);
    lemma_common_prefix(a, b);
    lemma_common_prefix(b, a);
    lemma_common_prefix(b, c);
    lemma_common_prefix(a, c);
    let (ab, bc, ac) = (common_prefix(a, b) as int, common_prefix(b, c) as int, common_prefix(a, c) as int);
    lemma_common_prefix_unique(b, a, ab);
    if ab == a.len() && ab == b.len() {
        assert(a =~= b);
    }
    if lex_less(a, b) && lex_less(b, c) {
        let m = if ab <= bc { ab } else { bc };
        assert(is_common_prefix(a, c, m)) by {
            assert forall|i: int| 0 <= i < m implies a[i] == c[i] by {
                assert(a[i] == b[i] && b[i] == c[i]);
            }
        }
        lemma_common_prefix_unique(a, c, m);
    }
}

/// Appends the bytes `s[from..to]`.
pub fn push_range(out: &mut Vec<u8>, s: &[u8], from: usize, to: usize)
    requires
        from <= to <= s@.len(),
    ensures
        final(out)@ == old(out)@ + s@.subrange(from as int, to as int),
{
    out.extend_from_slice(&s[from..to]);
    assert(out@ =~= old(out)@ + s@.subrange(from as int, to as int));
}

/// Appends all of `s`.
pub fn push_all(out: &mut Vec<u8>, s: &[u8])
    ensures
        final(out)@ == old(out)@ + s@,
{
    out.extend_from_slice(s);
    assert(out@ =~= old(out)@ + s@);
}

/// A copy of `s[from..to]`.
pub fn copy_range(s: &[u8], from: usize, to: usize) -> (r: Vec<u8>)
    requires
        from <= to <= s@.len(),
    ensures
        r@ == s@.subrange(from as int, to as int),
{
    let mut out: Vec<u8> = Vec::new();
    push_range(&mut out, s, from, to);
    assert(out@ =~= s@.subrange(from as int, to as int));
    out
}

} // verus!
