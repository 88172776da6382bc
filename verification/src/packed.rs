//! Packed integers with random access, and monotonic sequences of them.

use crate::bits::{bit_len, bits_required, lemma_bit_len, low_bits};
use crate::bytes::{
    holds_at, int_bytes, law_int_round_trip, law_long_round_trip, le_bytes, le_nat, le_u64, lemma_holds_concat, lemma_holds_index, lemma_le_bytes_len, lemma_le_inverse, lemma_le_nat_bound,
    lemma_le_nat_concat, lemma_le_round_trip, lemma_pow2_8, lemma_pow2_widths, long_bytes,
};
use crate::error::{Error, ErrorKind};
use crate::float::{average_increment, expected, expected_value, increment_bits, two_to};
use crate::for_util::fits;
use crate::io::{ChecksumIndexOutput, DataOutput};
use crate::num::{lemma_div_mod_is, lemma_wrap_rebuild, spec_to_i32, spec_to_i64, spec_to_u64, spec_wrap_add, spec_wrap_sub, to_i32, to_i64, to_u64, wrap_add, wrap_sub};
use crate::postings_ll::{lemma_seq_max, seq_max};
use vstd::arithmetic::div_mod::{lemma_div_denominator, lemma_mod_decreases};
use vstd::arithmetic::power2::{lemma2_to64, lemma2_to64_rest, lemma_pow2_adds, lemma_pow2_pos, lemma_pow2_strictly_increases, pow2};
use vstd::bits::lemma_u64_shr_is_div;
use vstd::prelude::*;

verus! {

/// The widths that direct packing supports.
pub open spec fn supported(b: int) -> bool {
    b == 1 || b == 2 || b == 4 || b == 8 || b == 12 || b == 16 || b == 20 || b == 24 || b == 28 || b == 32 || b == 40 || b == 48 || b == 56 || b == 64
}

/// The least supported width from `n` on.
pub open spec fn supported_from(n: int) -> int
    decreases 64 - n,
{
    if supported(n) || n >= 64 {
        n
    } else {
        supported_from(n + 1)
    }
}

fn is_supported(b: u32) -> (r: bool)
    ensures
        r == supported(b as int),
{
    b == 1 || b == 2 || b == 4 || b == 8 || b == 12 || b == 16 || b == 20 || b == 24 || b == 28 || b == 32 || b == 40 || b == 48 || b == 56 || b == 64
}

/// The next supported width.
fn round_bits(bits_required: u32) -> (r: u32)
    requires
        1 <= bits_required <= 64,
    ensures
        r == supported_from(bits_required as int),
        supported(r as int),
        bits_required <= r <= 64,
{
    let mut n: u32 = bits_required;
    while !is_supported(n)
        invariant
            bits_required <= n <= 64,
            supported_from(bits_required as int) == supported_from(n as int),
        decreases 64 - n,
    {
        n = n + 1;
    }
    n
}

/// The width in which values up to `max_value` are packed: at least one bit.
pub open spec fn direct_width(max_value: nat) -> int {
    supported_from(if max_value == 0 { 1 } else { bit_len(max_value) as int })
}

pub fn direct_writer_unsigned_bits_required(max_value: u64) -> (r: u32)
    ensures
        r == direct_width(max_value as nat),
        supported(r as int),
        max_value < pow2(r as nat),
{
    let n: u32 = bits_required(max_value);
    let n: u32 = if n == 0 { 1 } else { n };
    let r: u32 = round_bits(n);
    proof {
        assert(max_value == 0 || bit_len(max_value as nat) >= 1);
        lemma_bit_len(max_value as nat, r as nat);
        lemma_pow2_pos(r as nat);
    }
    r
}

// ---------------------------------------------------------------------------
// Direct packing
// ---------------------------------------------------------------------------

/// The number whose digits in base `2^b` are `values`, least significant
/// first.
pub open spec fn packed_nat(values: Seq<u64>, b: nat) -> nat
    decreases values.len(),
{
    if values.len() == 0 {
        0
    } else {
        packed_nat(values.drop_last(), b) + pow2(b * (values.len() - 1) as nat) * values.last() as nat
    }
}

/// Bytes that `n` values of `b` bits take.
pub open spec fn direct_byte_count(n: nat, b: nat) -> nat {
    (n * b + 7) / 8
}

/// Zero bytes behind the values, so that any value can be read with one
/// container-wide read.
pub open spec fn direct_padding(b: nat) -> nat {
    if b > 32 {
        ((64 - b + 7) / 8) as nat
    } else if b > 16 {
        ((32 - b + 7) / 8) as nat
    } else if b > 8 {
        ((16 - b + 7) / 8) as nat
    } else {
        0
    }
}

/// The packed form of `values`: one stream of bits, low bits first, and the
/// padding.
pub open spec fn direct_bytes(values: Seq<u64>, b: nat) -> Seq<u8> {
    le_bytes(packed_nat(values, b), direct_byte_count(values.len(), b)) + Seq::new(direct_padding(b), |i: int| 0u8)
}

pub proof fn lemma_packed_nat_bound(values: Seq<u64>, b: nat)
    requires
        fits(values, b as int),
    ensures
        packed_nat(values, b) < pow2(b * values.len()),
    decreases values.len(),
{
    if values.len() == 0 {
        lemma2_to64();
        assert(b * 0 == 0) by (nonlinear_arith);
    } else {
        let d = values.drop_last();
        assert forall|k: int| 0 <= k < d.len() implies #[trigger] d[k] < pow2(b as nat) by {
            assert(values[k] < pow2(b));
        }
        lemma_packed_nat_bound(d, b);
        let w = pow2(b * d.len());
        let x = values.last() as nat;
        assert(values[values.len() - 1] < pow2(b));
        lemma_pow2_adds(b * d.len(), b);
        assert(b * d.len() + b == b * values.len()) by (nonlinear_arith)
            requires
                values.len() == d.len() + 1,
        ;
        assert(w * x + w <= w * pow2(b)) by (nonlinear_arith)
            requires
                x + 1 <= pow2(b),
                w >= 0,
        ;
    }
}

/// Packs `values`, each of which fits in `bits_per_value` bits.
pub fn direct_writer_encode(values: &[u64], bits_per_value: u32) -> (r: Vec<u8>)
    requires
        supported(bits_per_value as int),
        fits(values@, bits_per_value as int),
    ensures
        r@ == direct_bytes(values@, bits_per_value as nat),
{
    let mut out: Vec<u8> = Vec::new();
    let ghost b = bits_per_value as nat;
    let ghost v = values@;
    let mut acc: u128 = 0;
    let mut held: u32 = 0;
    let mut i: usize = 0;
    proof {
        lemma2_to64();
        assert(b * 0 == 0) by (nonlinear_arith);
        assert(pow2(0) * 0 == 0) by (nonlinear_arith);
        assert(v.take(0) =~= Seq::<u64>::empty());
    }
    while i < values.len()
        invariant
            i <= values.len(),
            v == values@,
            b == bits_per_value,
            supported(b as int),
            fits(v, b as int),
            held < 8,
            acc < pow2(held as nat),
            8 * out@.len() + held == b * i,
            le_nat(out@) + pow2(8 * out@.len()) * acc == packed_nat(v.take(i as int), b),
        decreases values.len() - i,
    {
        let x: u64 = values[i];
        let scale: u128 = two_to(held);
        let ghost m = out@.len();
        proof {
            assert(v[i as int] < pow2(b));
            lemma2_to64();
            lemma_pow2_strictly_increases(held as nat, 8);
            assert(0 <= x * scale <= 0xFFFF_FFFF_FFFF_FFFF * 256) by (nonlinear_arith)
                requires
                    0 <= x <= 0xFFFF_FFFF_FFFF_FFFF,
                    0 <= scale <= 256,
            ;
            assert(v.take(i + 1).drop_last() =~= v.take(i as int));
            lemma_pow2_adds(8 * m, held as nat);
            let w = pow2(8 * m);
            assert(w * (acc + x * scale) == w * acc + (w * scale) * x) by (nonlinear_arith);
            lemma_pow2_adds(held as nat, b);
            assert(acc + x * scale < pow2((held + b) as nat)) by (nonlinear_arith)
                requires
                    acc < scale,
                    x + 1 <= pow2(b),
                    pow2((held + b) as nat) == scale * pow2(b),
            ;
        }
        acc = acc + x as u128 * scale;
        held = held + bits_per_value;
        proof {
            assert(b * i + b == b * (i + 1)) by (nonlinear_arith);
        }
        while held >= 8
            invariant
                held <= 71,
                acc < pow2(held as nat),
                8 * out@.len() + held == b * (i + 1),
                le_nat(out@) + pow2(8 * out@.len()) * acc == packed_nat(v.take(i + 1), b),
            decreases held,
        {
            let ghost before = out@;
            let ghost old_acc = acc as nat;
            let low: u8 = (acc % 256) as u8;
            out.push(low);
            acc = acc / 256;
            proof {
                assert(out@ =~= before + seq![low]);
                lemma_le_nat_concat(before, seq![low]);
                assert(seq![low].drop_first() =~= Seq::<u8>::empty());
                assert(le_nat(seq![low]) == low as nat) by {
                    reveal_with_fuel(le_nat, 2);
                }
                lemma_pow2_8(out@.len());
                let w = pow2(8 * before.len());
                assert(w * old_acc == w * low + (256 * w) * acc) by (nonlinear_arith)
                    requires
                        old_acc == 256 * acc + low,
                ;
                lemma_pow2_adds(8, (held - 8) as nat);
                lemma2_to64();
            }
            held = held - 8;
        }
        i = i + 1;
    }
    assert(v.take(i as int) =~= v);
    if held > 0 {
        let ghost before = out@;
        let low: u8 = (acc % 256) as u8;
        proof {
            lemma2_to64();
            lemma_pow2_strictly_increases(held as nat, 8);
        }
        out.push(low);
        proof {
            assert(out@ =~= before + seq![low]);
            lemma_le_nat_concat(before, seq![low]);
            assert(seq![low].drop_first() =~= Seq::<u8>::empty());
            assert(le_nat(seq![low]) == low as nat) by {
                reveal_with_fuel(le_nat, 2);
            }
        }
    } else {
        assert(pow2(8 * out@.len()) * 0 == 0) by (nonlinear_arith);
        assert(acc == 0) by {
            lemma2_to64();
        }
    }
    proof {
        assert(b * v.len() == v.len() * b) by (nonlinear_arith);
        assert(out@.len() == direct_byte_count(v.len(), b));
        lemma_le_inverse(out@);
        assert(out@ =~= le_bytes(packed_nat(v, b), direct_byte_count(v.len(), b)));
    }
    let pad: usize = if bits_per_value > 32 {
        (64 - bits_per_value as usize + 7) / 8
    } else if bits_per_value > 16 {
        (32 - bits_per_value as usize + 7) / 8
    } else if bits_per_value > 8 {
        (16 - bits_per_value as usize + 7) / 8
    } else {
        0
    };
    let ghost stream = out@;
    let mut j: usize = 0;
    while j < pad
        invariant
            j <= pad,
            out@ == stream + Seq::new(j as nat, |i: int| 0u8),
        decreases pad - j,
    {
        out.push(0);
        j = j + 1;
        assert(out@ =~= stream + Seq::new(j as nat, |i: int| 0u8));
    }
    assert(out@ =~= stream + Seq::new(pad as nat, |i: int| 0u8));
    out
}

/// Value `i` of the packed values of `b` bits that begin `offset` bytes into
/// `data`, read through a window of at most eight bytes.
pub open spec fn direct_value(data: Seq<u8>, offset: int, b: nat, i: int) -> u64 {
    let bit = offset * 8 + i * b;
    let from = bit / 8;
    let to = if from + 8 <= data.len() { from + 8 } else { data.len() as int };
    ((le_nat(data.subrange(from, to)) / pow2((bit % 8) as nat)) % pow2(b)) as u64
}

/// Where value `i` begins is inside `data`, and a position at all.
pub open spec fn direct_covers(data: Seq<u8>, offset: int, b: nat, i: int) -> bool {
    offset * 8 + i * b <= u64::MAX && (offset * 8 + i * b) / 8 <= data.len()
}

/// Random access to packed values of one width.
pub struct DirectReader<'a> {
    data: &'a [u8],
    bits_per_value: u32,
    offset: u64,
}

impl<'a> DirectReader<'a> {
    pub closed spec fn data(&self) -> Seq<u8> {
        self.data@
    }

    pub closed spec fn width(&self) -> nat {
        self.bits_per_value as nat
    }

    /// Byte offset of the first value.
    pub closed spec fn offset(&self) -> int {
        self.offset as int
    }

    #[verifier::type_invariant]
    spec fn width_in_range(self) -> bool {
        1 <= self.bits_per_value <= 64
    }

    pub fn new(data: &'a [u8], bits_per_value: u32, offset: u64) -> (r: Result<Self, Error>)
        ensures
            match r {
                Ok(d) => supported(bits_per_value as int) && d.data() == data@ && d.width() == bits_per_value && d.offset() == offset,
                Err(e) => !supported(bits_per_value as int) && e.kind == ErrorKind::InvalidData,
            },
    {
        if !is_supported(bits_per_value) {
            return Err(Error::new(ErrorKind::InvalidData, "unsupported bitsPerValue"));
        }
        Ok(DirectReader { data, bits_per_value, offset })
    }

    /// Whether value `index` can be read.
    pub fn covers(&self, index: u64) -> (r: bool)
        ensures
            r == direct_covers(self.data(), self.offset(), self.width(), index as int),
    {
        proof {
            use_type_invariant(self);
            assert(0 <= index * self.bits_per_value <= 0xFFFF_FFFF_FFFF_FFFF * 64) by (nonlinear_arith)
                requires
                    0 <= index <= 0xFFFF_FFFF_FFFF_FFFF,
                    0 <= self.bits_per_value <= 64,
            ;
        }
        let bit: u128 = self.offset as u128 * 8 + index as u128 * self.bits_per_value as u128;
        bit <= u64::MAX as u128 && bit / 8 <= self.data.len() as u128
    }

    /// Value `index`.
    pub fn get(&self, index: u64) -> (r: u64)
        requires
            direct_covers(self.data(), self.offset(), self.width(), index as int),
        ensures
            r == direct_value(self.data(), self.offset(), self.width(), index as int),
    {
        proof {
            use_type_invariant(self);
            assert(0 <= index * self.bits_per_value) by (nonlinear_arith)
                requires
                    0 <= index,
                    0 <= self.bits_per_value,
            ;
        }
        let bit: u64 = self.offset * 8 + index * self.bits_per_value as u64;
        let from: usize = (bit / 8) as usize;
        let shift: u64 = bit % 8;
        let left: usize = self.data.len() - from;
        let take: usize = if left < 8 { left } else { 8 };
        let window: u64 = le_u64(self.data, from, take);
        proof {
            lemma_u64_shr_is_div(window, shift);
            lemma_pow2_pos(self.bits_per_value as nat);
        }
        low_bits(window >> shift, self.bits_per_value)
    }
}

/// Part of a little-endian number is the number shifted and cut.
proof fn lemma_le_nat_part(t: Seq<u8>, a: int, c: int)
    requires
        0 <= a <= a + c <= t.len(),
    ensures
        le_nat(t.subrange(a, a + c)) == (le_nat(t) / pow2(8 * a as nat)) % pow2(8 * c as nat),
{
    let x = t.subrange(0, a);
    let y = t.subrange(a, a + c);
    let z = t.subrange(a + c, t.len() as int);
    assert(t =~= x + (y + z));
    lemma_le_nat_concat(x, y + z);
    lemma_le_nat_concat(y, z);
    lemma_le_nat_bound(x);
    lemma_le_nat_bound(y);
    lemma_div_mod_is(le_nat(t) as int, pow2(8 * a as nat) as int, le_nat(y + z) as int, le_nat(x) as int);
    let w = pow2(8 * c as nat) as int;
    assert(le_nat(y + z) == w * le_nat(z) + le_nat(y));
    lemma_div_mod_is(le_nat(y + z) as int, w, le_nat(z) as int, le_nat(y) as int);
}

/// Cutting to `c` bits first does not matter for bits below `c`.
proof fn lemma_cut_first(x: nat, c: nat, s: nat, b: nat)
    requires
        s + b <= c,
    ensures
        ((x % pow2(c)) / pow2(s)) % pow2(b) == (x / pow2(s)) % pow2(b),
{
    lemma_pow2_pos(c);
    lemma_pow2_pos(s);
    lemma_pow2_pos(b);
    let r = x % pow2(c);
    let y = x / pow2(c);
    let d = (c - s - b) as nat;
    lemma_pow2_adds(s, (c - s) as nat);
    lemma_pow2_adds(b, d);
    assert(s + (c - s) as nat == c && b + d == (c - s) as nat);
    let (ps, pb, pd) = (pow2(s) as int, pow2(b) as int, pow2(d) as int);
    vstd::arithmetic::div_mod::lemma_fundamental_div_mod(x as int, pow2(c) as int);
    assert(x as int == r + (pb * pd * y) * ps) by (nonlinear_arith)
        requires
            x as int == pow2(c) * y + r,
            pow2(c) == ps * (pb * pd),
    ;
    vstd::arithmetic::div_mod::lemma_hoist_over_denominator(r as int, pb * pd * y, ps as nat);
    assert(x as int / ps == r as int / ps + pb * pd * y);
    assert(pb * pd * y == pb * (pd * y)) by (nonlinear_arith);
    vstd::arithmetic::div_mod::lemma_mod_multiples_vanish(pd * y, r as int / ps, pb);
}

/// The part of the packed number from value `i` on.
proof fn lemma_packed_digit(values: Seq<u64>, b: nat, i: int) -> (k: nat)
    requires
        fits(values, b as int),
        0 <= i < values.len(),
    ensures
        packed_nat(values, b) == packed_nat(values.take(i), b) + pow2(b * i as nat) * (values[i] as nat + pow2(b) * k),
    decreases values.len() - i,
{
    lemma_pow2_pos(b);
    if i == values.len() - 1 {
        assert(values.take(i) =~= values.drop_last());
        assert(values[i] as nat + pow2(b) * 0 == values[i]) by (nonlinear_arith);
        0
    } else {
        let d = values.drop_last();
        assert forall|k: int| 0 <= k < d.len() implies #[trigger] d[k] < pow2(b as nat) by {
            assert(values[k] < pow2(b));
        }
        let k = lemma_packed_digit(d, b, i);
        assert(d.take(i) =~= values.take(i));
        let n = (values.len() - 1) as nat;
        let x = values.last() as nat;
        let e = (b * n - b * i - b) as nat;
        assert(b * n >= b * i + b) by (nonlinear_arith)
            requires
                n >= i + 1,
        ;
        lemma_pow2_adds(b * i as nat, b);
        lemma_pow2_adds((b * i + b) as nat, e);
        let (pi, pb, pe) = (pow2(b * i as nat), pow2(b), pow2(e));
        let v = values[i] as nat;
        assert(pi * (v + pb * k) + (pi * pb * pe) * x == pi * (v + pb * (k + pe * x))) by (nonlinear_arith);
        k + pe * x
    }
}

/// A value that was packed is read back, wherever the packed bytes stand: a
/// reader can ask for it where the place of its first bit fits 64 bits.
pub proof fn law_direct_round_trip(data: Seq<u8>, offset: int, values: Seq<u64>, b: nat, i: int)
    requires
        supported(b as int),
        fits(values, b as int),
        0 <= i < values.len(),
        holds_at(data, offset, direct_bytes(values, b)),
    ensures
        direct_value(data, offset, b, i) == values[i],
        (offset * 8 + i * b) / 8 <= data.len(),
        offset * 8 + i * b <= u64::MAX ==> direct_covers(data, offset, b, i),
        data.len() < 0x2000_0000_0000_0000 ==> direct_covers(data, offset, b, i),
{
    let n = values.len();
    let bc = direct_byte_count(n, b);
    let stream = le_bytes(packed_nat(values, b), bc);
    let pad = Seq::new(direct_padding(b), |i: int| 0u8);
    lemma_le_bytes_len(packed_nat(values, b), bc);
    lemma_holds_concat(data, offset, stream, pad);
    let t = data.subrange(offset, data.len() as int);
    let rest = data.subrange(offset + bc, data.len() as int);
    assert(t =~= stream + rest);
    lemma_le_nat_concat(stream, rest);
    lemma_packed_nat_bound(values, b);
    assert(n * b == b * n) by (nonlinear_arith);
    assert(8 * bc >= b * n);
    if 8 * bc > b * n {
        lemma_pow2_strictly_increases(b * n, 8 * bc);
    }
    lemma_le_round_trip(packed_nat(values, b), bc);
    let m = le_nat(t);
    let k = lemma_packed_digit(values, b, i);
    assert forall|j: int| 0 <= j < values.take(i).len() implies #[trigger] values.take(i)[j] < pow2(b as nat) by {
        assert(values[j] < pow2(b));
    }
    lemma_packed_nat_bound(values.take(i), b);
    // m as low part, value and higher part
    let ib = b * i as nat;
    assert(ib + b <= b * n) by (nonlinear_arith)
        requires
            ib == b * i,
            i + 1 <= n,
    ;
    let e = (8 * bc - ib - b) as nat;
    lemma_pow2_adds(ib, b);
    lemma_pow2_adds((ib + b) as nat, e);
    let (pi, pb, pe) = (pow2(ib) as int, pow2(b) as int, pow2(e) as int);
    let z = le_nat(rest) as int;
    let v = values[i] as int;
    let high = k + pe * z;
    assert(pi * (v + pb * k) + (pi * pb * pe) * z == pi * (v + pb * high)) by (nonlinear_arith)
        requires
            high == k + pe * z,
    ;
    assert(m == packed_nat(values.take(i), b) + pi * (v + pb * high));
    lemma_div_mod_is(m as int, pi, v + pb * high, packed_nat(values.take(i), b) as int);
    assert(values[i] < pow2(b));
    lemma_div_mod_is(v + pb * high, pb, high, v);
    assert((m as int / pi) % pb == v);
    // the window
    let bit = offset * 8 + i * b;
    assert(i * b == ib) by (nonlinear_arith)
        requires
            ib == b * i,
    ;
    let from = bit / 8;
    let a = from - offset;
    let sh = (bit % 8) as nat;
    assert(8 * a + sh == ib);
    let to = if from + 8 <= data.len() { from + 8 } else { data.len() as int };
    assert(from <= data.len());
    let c = to - from;
    assert(data.subrange(from, to) =~= t.subrange(a, a + c));
    lemma_le_nat_part(t, a, c);
    let w = le_nat(data.subrange(from, to));
    let x = (m / pow2(8 * a as nat)) as nat;
    lemma_pow2_pos(8 * a as nat);
    lemma_pow2_pos(sh);
    lemma_div_denominator(m as int, pow2(8 * a as nat) as int, pow2(sh) as int);
    lemma_pow2_adds(8 * a as nat, sh);
    assert(x as int / pow2(sh) as int == m as int / pi);
    assert(sh + b <= 64) by {
        if b == 64 {
            assert(i * 64 % 8 == 0);
        }
    }
    if c == 8 {
        lemma_cut_first(x, 64, sh, b);
    } else {
        // the window ends with the data: nothing was cut
        lemma_le_nat_bound(t);
        lemma_pow2_adds(8 * a as nat, 8 * c as nat);
        assert(8 * a as nat + 8 * c as nat == 8 * t.len());
        assert(x < pow2(8 * c as nat)) by (nonlinear_arith)
            requires
                x == m / pow2(8 * a as nat),
                m < pow2(8 * t.len()),
                pow2(8 * t.len()) == pow2(8 * a as nat) * pow2(8 * c as nat),
                pow2(8 * a as nat) > 0,
        ;
        assert(x as int % pow2(8 * c as nat) as int == x) by (nonlinear_arith)
            requires
                0 <= x < pow2(8 * c as nat),
        ;
    }
}

// ---------------------------------------------------------------------------
// Monotonic sequences
// ---------------------------------------------------------------------------

/// The values never decrease.
pub open spec fn ascending(values: Seq<u64>) -> bool {
    forall|i: int, j: int| 0 <= i <= j < values.len() ==> #[trigger] values[i] <= #[trigger] values[j]
}

/// The pattern of a block's average increment.
pub open spec fn block_avg(block: Seq<u64>) -> u32 {
    increment_bits((block.last() - block[0]) as u64, if block.len() > 1 { (block.len() - 1) as nat } else { 1 })
}

/// How far value `i` of a block is from the expected one, modulo `2^64`.
pub open spec fn block_delta(block: Seq<u64>, i: int) -> i64 {
    spec_to_i64(spec_wrap_sub(block[i], spec_to_u64(expected(block_avg(block), i as u64))))
}

/// The least of the first `n` deltas of a block.
pub open spec fn block_min(block: Seq<u64>, n: int) -> i64
    decreases n,
{
    if n <= 0 {
        i64::MAX
    } else {
        let m = block_min(block, n - 1);
        if block_delta(block, n - 1) < m {
            block_delta(block, n - 1)
        } else {
            m
        }
    }
}

/// What is packed of a block: the deltas, counted from the least.
pub open spec fn block_packed(block: Seq<u64>) -> Seq<u64> {
    Seq::new(block.len(), |i: int| spec_wrap_sub(spec_to_u64(block_delta(block, i)), spec_to_u64(block_min(block, block.len() as int))))
}

/// The width of a block's packed deltas: 0 when all are equal.
pub open spec fn block_width(block: Seq<u64>) -> nat {
    let m = seq_max(block_packed(block));
    if m == 0 {
        0
    } else {
        direct_width(m as nat) as nat
    }
}

/// A block's packed deltas.
pub open spec fn block_data(block: Seq<u64>) -> Seq<u8> {
    if block_width(block) == 0 {
        Seq::empty()
    } else {
        direct_bytes(block_packed(block), block_width(block))
    }
}

/// A block's record: least delta, average increment, where its data begins,
/// and the width.
pub open spec fn block_meta(block: Seq<u64>, offset: nat) -> Seq<u8> {
    long_bytes(block_min(block, block.len() as int)) + int_bytes(spec_to_i32(block_avg(block))) + long_bytes(spec_to_i64(offset as u64)) + seq![block_width(block) as u8]
}

/// The first block of `values`.
pub open spec fn first_block(values: Seq<u64>, size: int) -> Seq<u64> {
    values.take(if values.len() < size { values.len() as int } else { size })
}

pub open spec fn after_block(values: Seq<u64>, size: int) -> Seq<u64> {
    values.skip(if values.len() < size { values.len() as int } else { size })
}

/// No block ends below where it begins.
pub open spec fn blocks_rise(values: Seq<u64>, size: int) -> bool
    decreases values.len(),
{
    if values.len() == 0 || size <= 0 {
        true
    } else {
        &&& first_block(values, size)[0] <= first_block(values, size).last()
        &&& blocks_rise(after_block(values, size), size)
    }
}

pub(crate) proof fn lemma_ascending_rises(values: Seq<u64>, size: int)
    requires
        ascending(values),
    ensures
        blocks_rise(values, size),
    decreases values.len(),
{
    if values.len() > 0 && size > 0 {
        let rest = after_block(values, size);
        let k = values.len() - rest.len();
        assert forall|i: int, j: int| 0 <= i <= j < rest.len() implies #[trigger] rest[i] <= #[trigger] rest[j] by {
            assert(values[k + i] <= values[k + j]);
        }
        lemma_ascending_rises(rest, size);
    }
}

/// The packed deltas of all blocks.
pub open spec fn monotonic_data(values: Seq<u64>, size: int) -> Seq<u8>
    decreases values.len(),
{
    if values.len() == 0 || size <= 0 {
        Seq::empty()
    } else {
        block_data(first_block(values, size)) + monotonic_data(after_block(values, size), size)
    }
}

/// The records of all blocks, the data of the first one beginning at `offset`.
pub open spec fn monotonic_meta(values: Seq<u64>, size: int, offset: nat) -> Seq<u8>
    decreases values.len(),
{
    if values.len() == 0 || size <= 0 {
        Seq::empty()
    } else {
        let b = first_block(values, size);
        block_meta(b, offset) + monotonic_meta(after_block(values, size), size, offset + block_data(b).len())
    }
}

pub proof fn lemma_block_min(block: Seq<u64>, n: int)
    ensures
        forall|i: int| 0 <= i < n ==> block_min(block, n) <= #[trigger] block_delta(block, i),
    decreases n,
{
    if n > 0 {
        lemma_block_min(block, n - 1);
    }
}

/// Writes one block of a monotonic sequence.
fn write_monotonic_block(meta: &mut ChecksumIndexOutput, data: &mut ChecksumIndexOutput, block: &[u64], base: u64) -> (r: Result<(), Error>)
    requires
        1 <= block@.len() <= 0x40_0000,
        block@[0] <= block@.last(),
        base <= old(data).written().len(),
    ensures
        final(meta).since() == old(meta).since(),
        final(data).since() == old(data).since(),
        r is Ok,
        final(meta).written() == old(meta).written() + block_meta(block@, (old(data).written().len() - base) as nat),
        final(data).written() == old(data).written() + block_data(block@),
{
    let n: usize = block.len();
    let ghost bl = block@;
    let steps: u64 = if n > 1 { n as u64 - 1 } else { 1 };
    let avg: u32 = average_increment(block[n - 1] - block[0], steps);
    assert(avg == block_avg(bl));
    let mut min: i64 = i64::MAX;
    let mut deltas: Vec<i64> = Vec::new();
    let mut i: usize = 0;
    while i < n
        invariant
            i <= n == block@.len(),
            bl == block@,
            avg == block_avg(bl),
            deltas@.len() == i,
            forall|j: int| 0 <= j < i ==> #[trigger] deltas@[j] == block_delta(bl, j),
            min == block_min(bl, i as int),
        decreases n - i,
    {
        let e: i64 = expected_value(avg, i as u64);
        let d: i64 = to_i64(wrap_sub(block[i], to_u64(e)));
        deltas.push(d);
        if d < min {
            min = d;
        }
        i = i + 1;
    }
    let ghost want = block_packed(bl);
    let mut packed: Vec<u64> = Vec::new();
    let mut max: u64 = 0;
    i = 0;
    while i < n
        invariant
            i <= n == block@.len(),
            bl == block@,
            want == block_packed(bl),
            deltas@.len() == n,
            forall|j: int| 0 <= j < n ==> #[trigger] deltas@[j] == block_delta(bl, j),
            min == block_min(bl, n as int),
            packed@ == want.take(i as int),
            max == seq_max(packed@),
        decreases n - i,
    {
        let ghost before = packed@;
        let d: u64 = wrap_sub(to_u64(deltas[i]), to_u64(min));
        packed.push(d);
        if d > max {
            max = d;
        }
        proof {
            assert(packed@.drop_last() =~= before);
            assert(packed@ =~= want.take(i + 1));
        }
        i = i + 1;
    }
    assert(want.take(n as int) =~= want);
    let offset: u64 = data.file_pointer() - base;
    meta.write_long(min)?;
    meta.write_int(to_i32(avg))?;
    meta.write_long(to_i64(offset))?;
    if max == 0 {
        meta.write_byte(0)?;
        assert(data.written() + Seq::<u8>::empty() =~= data.written());
    } else {
        let width: u32 = direct_writer_unsigned_bits_required(max);
        proof {
            lemma_seq_max(want);
            assert forall|k: int| 0 <= k < want.len() implies #[trigger] want[k] < pow2(width as nat) by {
                assert(want[k] <= seq_max(want));
            }
        }
        let encoded = direct_writer_encode(packed.as_slice(), width);
        data.write_bytes(&encoded)?;
        meta.write_byte(width as u8)?;
    }
    assert(meta.written() =~= old(meta).written() + block_meta(bl, offset as nat));
    Ok(())
}

/// Writing the first block and then the rest is writing all.
proof fn lemma_monotonic_step(values: Seq<u64>, size: int, offset: nat, m: Seq<u8>, d: Seq<u8>)
    requires
        values.len() > 0,
        size > 0,
    ensures
        d + block_data(first_block(values, size)) + monotonic_data(after_block(values, size), size) == d + monotonic_data(values, size),
        m + block_meta(first_block(values, size), offset) + monotonic_meta(after_block(values, size), size, offset + block_data(first_block(values, size)).len())
            == m + monotonic_meta(values, size, offset),
{
    let b = first_block(values, size);
    let rest = after_block(values, size);
    let (x, y) = (block_data(b), monotonic_data(rest, size));
    assert(d + x + y =~= d + (x + y));
    let (x, y) = (block_meta(b, offset), monotonic_meta(rest, size, offset + block_data(b).len()));
    assert(m + x + y =~= m + (x + y));
}

/// Writes a monotonic sequence in blocks of `2^block_shift` values: records to
/// `meta`, packed deltas to `data`.
pub fn direct_monotonic_write(
    meta: &mut ChecksumIndexOutput,
    data: &mut ChecksumIndexOutput,
    values: &[u64],
    block_shift: u32,
) -> (r: Result<(), Error>)
    requires
        2 <= block_shift <= 22,
        blocks_rise(values@, pow2(block_shift as nat) as int),
    ensures
        final(meta).since() == old(meta).since(),
        final(data).since() == old(data).since(),
        r is Ok,
        final(meta).written() == old(meta).written() + monotonic_meta(values@, pow2(block_shift as nat) as int, 0),
        final(data).written() == old(data).written() + monotonic_data(values@, pow2(block_shift as nat) as int),
{
    let size: usize = two_to(block_shift) as usize;
    proof {
        lemma2_to64();
        if block_shift < 22 {
            lemma_pow2_strictly_increases(block_shift as nat, 22);
        }
    }
    let base: u64 = data.file_pointer();
    let ghost v = values@;
    let ghost (m0, d0) = (meta.written(), data.written());
    let ghost sz = size as int;
    let n: usize = values.len();
    let mut i: usize = 0;
    assert(v.skip(0) =~= v);
    while i < n
        invariant
            meta.since() == old(meta).since(),
            data.since() == old(data).since(),
            i <= n == v.len(),
            v == values@,
            blocks_rise(v.skip(i as int), sz),
            sz == size,
            1 <= size <= 0x40_0000,
            base == d0.len(),
            base <= data.written().len(),
            data.written() + monotonic_data(v.skip(i as int), sz) == d0 + monotonic_data(v, sz),
            meta.written() + monotonic_meta(v.skip(i as int), sz, (data.written().len() - base) as nat) == m0 + monotonic_meta(v, sz, 0),
        decreases n - i,
    {
        let e: usize = if n - i < size { n } else { i + size };
        let block = &values[i..e];
        let ghost rest = v.skip(i as int);
        let ghost (mb, db) = (meta.written(), data.written());
        proof {
            assert(block@ =~= first_block(rest, sz));
            assert(after_block(rest, sz) =~= v.skip(e as int));
        }
        write_monotonic_block(meta, data, block, base)?;
        proof {
            lemma_monotonic_step(rest, sz, (db.len() - base) as nat, mb, db);
        }
        i = e;
    }
    assert(v.skip(n as int) =~= Seq::<u64>::empty());
    assert(data.written() =~= d0 + monotonic_data(v, sz));
    assert(meta.written() =~= m0 + monotonic_meta(v, sz, 0));
    Ok(())
}

/// One block's record, as read: least delta, pattern of the average
/// increment, data offset, width.
pub type BlockRecord = (i64, u32, u64, u8);

/// Record `b` of the records in `meta`.
pub open spec fn record_at(meta: Seq<u8>, b: int) -> BlockRecord {
    let p = 21 * b;
    (
        spec_to_i64(le_nat(meta.subrange(p, p + 8)) as u64),
        le_nat(meta.subrange(p + 8, p + 12)) as u32,
        le_nat(meta.subrange(p + 12, p + 20)) as u64,
        meta[p + 20],
    )
}

/// The number of blocks of `n` values.
pub open spec fn block_count(n: nat, shift: nat) -> nat {
    if n == 0 {
        0
    } else {
        ((n - 1) as nat / pow2(shift)) + 1
    }
}

/// The value `i` places into a block with record `r`.
pub open spec fn record_value(r: BlockRecord, data: Seq<u8>, i: int) -> u64 {
    let delta = if r.3 == 0 { 0 } else { direct_value(data, r.2 as int, r.3 as nat, i) };
    spec_wrap_add(spec_wrap_add(spec_to_u64(r.0), spec_to_u64(expected(r.1, i as u64))), delta)
}

/// Whether that value can be read.
pub open spec fn record_covers(r: BlockRecord, data: Seq<u8>, i: int) -> bool {
    r.3 == 0 || (r.3 <= 64 && direct_covers(data, r.2 as int, r.3 as nat, i))
}

/// Random access to a monotonic sequence.
pub struct DirectMonotonicReader<'a> {
    records: Vec<BlockRecord>,
    data: &'a [u8],
    block_shift: u32,
}

impl<'a> DirectMonotonicReader<'a> {
    /// Bytes per record.
    pub const META_RECORD_BYTES: usize = 21;

    pub closed spec fn records(&self) -> Seq<BlockRecord> {
        self.records@
    }

    pub closed spec fn data(&self) -> Seq<u8> {
        self.data@
    }

    pub closed spec fn shift(&self) -> nat {
        self.block_shift as nat
    }

    #[verifier::type_invariant]
    spec fn shift_in_range(self) -> bool {
        self.block_shift < 64
    }

    /// The value at `index`.
    pub open spec fn value(&self, index: int) -> u64 {
        record_value(self.records()[index / pow2(self.shift()) as int], self.data(), index % pow2(self.shift()) as int)
    }

    /// Whether the value at `index` can be read.
    pub open spec fn readable(&self, index: int) -> bool {
        &&& (index / pow2(self.shift()) as int) < self.records().len()
        &&& record_covers(self.records()[index / pow2(self.shift()) as int], self.data(), index % pow2(self.shift()) as int)
    }

    pub fn new(meta: &[u8], data: &'a [u8], num_values: usize, block_shift: u32) -> (r: Result<Self, Error>)
        requires
            block_shift < 64,
        ensures
            match r {
                Ok(m) => meta@.len() >= 21 * block_count(num_values as nat, block_shift as nat) && m.data() == data@ && m.shift() == block_shift
                    && m.records() == Seq::new(block_count(num_values as nat, block_shift as nat), |b: int| record_at(meta@, b)),
                Err(e) => meta@.len() < 21 * block_count(num_values as nat, block_shift as nat) && e.kind == ErrorKind::InvalidData,
            },
    {
        Self::with_count(meta, data, num_values as u64, block_shift)
    }

    /// The same for any number of values.
    pub fn with_count(meta: &[u8], data: &'a [u8], num_values: u64, block_shift: u32) -> (r: Result<Self, Error>)
        requires
            block_shift < 64,
        ensures
            match r {
                Ok(m) => meta@.len() >= 21 * block_count(num_values as nat, block_shift as nat) && m.data() == data@ && m.shift() == block_shift
                    && m.records() == Seq::new(block_count(num_values as nat, block_shift as nat), |b: int| record_at(meta@, b)),
                Err(e) => meta@.len() < 21 * block_count(num_values as nat, block_shift as nat) && e.kind == ErrorKind::InvalidData,
            },
    {
        let size: u128 = two_to(block_shift);
        let count: u128 = if num_values == 0 { 0 } else { (num_values as u128 - 1) / size + 1 };
        proof {
            if num_values > 0 {
                assert((num_values - 1) as int / size as int <= num_values - 1) by (nonlinear_arith)
                    requires
                        size >= 1,
                        num_values >= 1,
                ;
            }
            assert(count == block_count(num_values as nat, block_shift as nat));
        }
        if (meta.len() as u128) < count * 21 {
            return Err(Error::new(ErrorKind::InvalidData, "monotonic records too short"));
        }
        let n: usize = count as usize;
        let mut records: Vec<BlockRecord> = Vec::new();
        let mut b: usize = 0;
        while b < n
            invariant
                b <= n,
                21 * n <= meta.len(),
                records@.len() == b,
                forall|i: int| 0 <= i < b ==> #[trigger] records@[i] == record_at(meta@, i),
            decreases n - b,
        {
            let p: usize = 21 * b;
            proof {
                lemma_pow2_widths();
            }
            let min: i64 = to_i64(le_u64(meta, p, 8));
            let avg: u32 = le_u64(meta, p + 8, 4) as u32;
            let offset: u64 = le_u64(meta, p + 12, 8);
            records.push((min, avg, offset, meta[p + 20]));
            b = b + 1;
        }
        let r = DirectMonotonicReader { records, data, block_shift };
        assert(r.records() =~= Seq::new(count as nat, |b: int| record_at(meta@, b)));
        Ok(r)
    }

    /// The value at `index`, if it can be read.
    pub fn try_get(&self, index: u64) -> (r: Option<u64>)
        ensures
            r == if self.readable(index as int) { Some(self.value(index as int)) } else { None },
    {
        proof {
            use_type_invariant(self);
        }
        let size: u128 = two_to(self.block_shift);
        let block: u128 = index as u128 / size;
        if block >= self.records.len() as u128 {
            return None;
        }
        proof {
            lemma_mod_decreases(index as nat, size as nat);
            vstd::arithmetic::div_mod::lemma_div_nonincreasing(index as int, size as int);
        }
        let i: u64 = (index as u128 % size) as u64;
        let rec = self.records[block as usize];
        let delta: u64;
        if rec.3 == 0 {
            delta = 0;
        } else {
            if rec.3 > 64 {
                return None;
            }
            let reader = DirectReader { data: self.data, bits_per_value: rec.3 as u32, offset: rec.2 };
            if !reader.covers(i) {
                return None;
            }
            delta = reader.get(i);
        }
        let e: i64 = expected_value(rec.1, i);
        Some(wrap_add(wrap_add(to_u64(rec.0), to_u64(e)), delta))
    }

    /// The value at `index`.
    pub fn get(&self, index: u64) -> (r: u64)
        requires
            self.readable(index as int),
        ensures
            r == self.value(index as int),
    {
        match self.try_get(index) {
            Some(v) => v,
            None => 0,
        }
    }
}

/// A block's value is put together again from its record and data.
proof fn lemma_block_value(block: Seq<u64>, i: int)
    requires
        0 <= i < block.len(),
    ensures
        spec_wrap_add(spec_wrap_add(spec_to_u64(block_min(block, block.len() as int)), spec_to_u64(expected(block_avg(block), i as u64))), block_packed(block)[i]) == block[i],
{
    let e = spec_to_u64(expected(block_avg(block), i as u64));
    let d = spec_wrap_sub(block[i], e);
    let m = spec_to_u64(block_min(block, block.len() as int));
    assert(spec_to_u64(spec_to_i64(d)) == d);
    lemma_wrap_rebuild(block[i], e, m);
    assert(block_packed(block)[i] == spec_wrap_sub(d, m));
}

/// What was written of a block gives its values back.
proof fn lemma_block_round_trip(meta: Seq<u8>, data: Seq<u8>, b: int, block: Seq<u64>, offset: nat, i: int)
    requires
        0 <= i < block.len(),
        b >= 0,
        holds_at(meta, 21 * b, block_meta(block, offset)),
        holds_at(data, offset as int, block_data(block)),
        data.len() < 0x2000_0000_0000_0000,
    ensures
        record_covers(record_at(meta, b), data, i),
        record_value(record_at(meta, b), data, i) == block[i],
        block_meta(block, offset).len() == 21,
{
    broadcast use lemma_le_bytes_len;
    let p = 21 * b;
    let min = block_min(block, block.len() as int);
    let avg = block_avg(block);
    let width = block_width(block);
    let (x, y, z, w) = (long_bytes(min), int_bytes(spec_to_i32(avg)), long_bytes(spec_to_i64(offset as u64)), seq![width as u8]);
    lemma_holds_concat(meta, p, x + y + z, w);
    lemma_holds_concat(meta, p, x + y, z);
    lemma_holds_concat(meta, p, x, y);
    lemma_holds_index(meta, p + 20, w, 0);
    law_long_round_trip(meta, p, min);
    law_int_round_trip(meta, p + 8, spec_to_i32(avg));
    law_long_round_trip(meta, p + 12, spec_to_i64(offset as u64));
    lemma_pow2_widths();
    lemma_le_nat_bound(meta.subrange(p, p + 8));
    lemma_le_nat_bound(meta.subrange(p + 8, p + 12));
    lemma_le_nat_bound(meta.subrange(p + 12, p + 20));
    let packed = block_packed(block);
    lemma_block_value(block, i);
    lemma_seq_max(packed);
    assert(packed[i] <= seq_max(packed));
    let m = seq_max(packed);
    if m != 0 {
        lemma_direct_width(m);
        assert forall|k: int| 0 <= k < packed.len() implies #[trigger] packed[k] < pow2(width) by {
            assert(packed[k] <= seq_max(packed));
        }
        law_direct_round_trip(data, offset as int, packed, width, i);
    }
    let r = record_at(meta, b);
    assert(r.0 == min);
    assert(r.1 == avg) by {
        assert(spec_to_i32(r.1) == spec_to_i32(avg));
    }
    assert(r.2 == offset) by {
        assert(spec_to_i64(r.2) == spec_to_i64(offset as u64));
    }
    assert(r.3 == width);
}

proof fn lemma_supported_from(n: int)
    requires
        1 <= n <= 64,
    ensures
        supported(supported_from(n)),
        n <= supported_from(n) <= 64,
    decreases 64 - n,
{
    if !(supported(n) || n >= 64) {
        lemma_supported_from(n + 1);
    }
}

/// The width chosen for a largest value holds it.
pub proof fn lemma_direct_width(m: u64)
    ensures
        supported(direct_width(m as nat)),
        1 <= direct_width(m as nat) <= 64,
        m < pow2(direct_width(m as nat) as nat),
{
    lemma_bit_len(m as nat, 64);
    lemma2_to64_rest();
    let n = if m == 0 { 1 } else { bit_len(m as nat) as int };
    lemma_supported_from(n);
    lemma_bit_len(m as nat, direct_width(m as nat) as nat);
    lemma_pow2_pos(direct_width(m as nat) as nat);
}

/// A monotonic sequence that was written is read back. `done` blocks of
/// records and `offset` bytes of data precede.
proof fn lemma_monotonic_round_trip(meta: Seq<u8>, data: Seq<u8>, done: int, offset: nat, values: Seq<u64>, size: int, i: int)
    requires
        0 <= i < values.len(),
        1 <= size,
        done >= 0,
        holds_at(meta, 21 * done, monotonic_meta(values, size, offset)),
        holds_at(data, offset as int, monotonic_data(values, size)),
        data.len() < 0x2000_0000_0000_0000,
    ensures
        record_covers(record_at(meta, done + i / size), data, i % size),
        record_value(record_at(meta, done + i / size), data, i % size) == values[i],
        21 * (done + i / size) + 21 <= meta.len(),
    decreases values.len(),
{
    let block = first_block(values, size);
    let rest = after_block(values, size);
    let next = offset + block_data(block).len();
    lemma_holds_concat(meta, 21 * done, block_meta(block, offset), monotonic_meta(rest, size, next));
    lemma_holds_concat(data, offset as int, block_data(block), monotonic_data(rest, size));
    lemma_block_round_trip(meta, data, done, block, offset, 0);
    if i < block.len() {
        lemma_block_round_trip(meta, data, done, block, offset, i);
        lemma_div_mod_is(i, size, 0, i);
    } else {
        lemma_monotonic_round_trip(meta, data, done + 1, next, rest, size, i - size);
        vstd::arithmetic::div_mod::lemma_div_minus_one(i, size);
        vstd::arithmetic::div_mod::lemma_mod_sub_multiples_vanish(i, size);
        assert(rest[i - size] == values[i]);
    }
}

/// A monotonic sequence that was written is read back, wherever the place of
/// a bit of the data fits 64 bits.
pub proof fn law_monotonic_round_trip(meta: Seq<u8>, data: Seq<u8>, values: Seq<u64>, shift: nat, i: int)
    requires
        0 <= i < values.len(),
        holds_at(meta, 0, monotonic_meta(values, pow2(shift) as int, 0)),
        holds_at(data, 0, monotonic_data(values, pow2(shift) as int)),
        data.len() < 0x2000_0000_0000_0000,
    ensures
        record_covers(record_at(meta, i / pow2(shift) as int), data, i % pow2(shift) as int),
        record_value(record_at(meta, i / pow2(shift) as int), data, i % pow2(shift) as int) == values[i],
{
    lemma_pow2_pos(shift);
    lemma_monotonic_round_trip(meta, data, 0, 0, values, pow2(shift) as int, i);
}

} // verus!
