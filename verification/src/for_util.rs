//! Bit-packing of blocks of 128 numbers.
//!
//! A block is packed with `b` bits per value into `2b` longs. Each long is cut
//! into lanes of a primitive width (8, 16 or 32 bits); lane `l` (from the top)
//! serves the `2 * primitive` values from `2 * primitive * l` on. Within a
//! lane, whole planes of `b` bits come first, from the top of the lane down,
//! `2b` values per plane; the values that are left share the low
//! `primitive % b` bits of the lanes as one stream, high bits first.

use crate::bits::{bits_u64, get_bit, lemma_bit_high, lemma_bit_or, lemma_bit_shl, lemma_bit_shr, lemma_bit_zero, lemma_bits_u64, lemma_bits_u64_bit, low_bits};
use crate::bytes::{holds_at, le_bytes, le_nat, lemma_holds_concat, lemma_le_bytes_len, lemma_le_round_trip, lemma_pow2_widths};
use crate::error::{Error, ErrorKind};
use crate::io::{DataInput, DataOutput};
use crate::num::{to_i64, to_u64};
use vstd::arithmetic::div_mod::{lemma_fundamental_div_mod, lemma_fundamental_div_mod_converse, lemma_mod_bound};
use vstd::arithmetic::power2::pow2;
use vstd::prelude::*;

verus! {

/// Postings are packed in blocks of 128.
pub const BLOCK_SIZE: usize = 128;

/// The lane widths in use, and the widths of values that fit them.
pub open spec fn packing(b: int, w: int) -> bool {
    (w == 8 || w == 16 || w == 32) && 1 <= b <= w
}

/// Which value bit `p` of packed long `t` belongs to.
pub open spec fn packed_value(b: int, w: int, t: int, p: int) -> int {
    let q = p % w;
    let r = w % b;
    2 * w * (64int / w - 1 - p / w) + if q >= r {
        ((w - 1 - q) / b) * (2 * b) + t
    } else {
        (w / b) * (2 * b) + (t * r + r - 1 - q) / b
    }
}

/// Which bit of that value it is.
pub open spec fn packed_bit(b: int, w: int, t: int, p: int) -> int {
    let q = p % w;
    let r = w % b;
    if q >= r {
        b - 1 - (w - 1 - q) % b
    } else {
        b - 1 - (t * r + r - 1 - q) % b
    }
}

/// Which packed long holds bit `i` of value `k`.
pub open spec fn place_long(b: int, w: int, k: int, i: int) -> int {
    let v = k % (2 * w);
    let planes = (w / b) * (2 * b);
    if v < planes {
        v % (2 * b)
    } else {
        ((v - planes) * b + b - 1 - i) / (w % b)
    }
}

/// Which bit of that long it is.
pub open spec fn place_bit(b: int, w: int, k: int, i: int) -> int {
    let v = k % (2 * w);
    let planes = (w / b) * (2 * b);
    let r = w % b;
    (64int / w - 1 - k / (2 * w)) * w + if v < planes {
        w - (v / (2 * b) + 1) * b + i
    } else {
        r - 1 - ((v - planes) * b + b - 1 - i) % r
    }
}

proof fn lemma_shape(b: int, w: int)
    requires
        packing(b, w),
    ensures
        w == (w / b) * b + w % b,
        0 <= w % b < b,
        (w / b) * (2 * b) + 2 * (w % b) == 2 * w,
        w / b >= 1,
        0 <= (w / b) * (2 * b) <= 2 * w,
{
    lemma_fundamental_div_mod(w, b);
    lemma_mod_bound(w, b);
    let f = w / b;
    assert(b * f == f * b && f * (2 * b) == 2 * (f * b)) by (nonlinear_arith);
    if f < 1 {
        assert(f * b <= 0) by (nonlinear_arith)
            requires
                f <= 0,
                b >= 1,
        ;
    }
}

/// The lane of a value and its number within the lane.
proof fn lemma_lane(w: int, k: int)
    requires
        w == 8 || w == 16 || w == 32,
        0 <= k < 128,
    ensures
        0 <= k / (2 * w) <= 64int / w - 1,
        0 <= k % (2 * w) < 2 * w,
        k == 2 * w * (k / (2 * w)) + k % (2 * w),
        0 <= (64int / w - 1 - k / (2 * w)) * w <= 64 - w,
{
    if w == 8 {
        assert(64int / 8 == 8 && 2 * w == 16);
    } else if w == 16 {
        assert(64int / 16 == 4 && 2 * w == 32);
    } else {
        assert(64int / 32 == 2 && 2 * w == 64);
    }
}

proof fn lemma_lane_converse(w: int, lane: int, v: int)
    requires
        w == 8 || w == 16 || w == 32,
        0 <= lane <= 64int / w - 1,
        0 <= v < 2 * w,
    ensures
        0 <= 2 * w * lane + v < 128,
        (2 * w * lane + v) / (2 * w) == lane,
        (2 * w * lane + v) % (2 * w) == v,
{
    if w == 8 {
        assert(64int / 8 == 8 && 2 * w == 16);
    } else if w == 16 {
        assert(64int / 16 == 4 && 2 * w == 32);
    } else {
        assert(64int / 32 == 2 && 2 * w == 64);
    }
}

/// Every bit of every value has a place, and is what stands there.
pub proof fn lemma_place(b: int, w: int, k: int, i: int)
    requires
        packing(b, w),
        0 <= k < 128,
        0 <= i < b,
    ensures
        0 <= place_long(b, w, k, i) < 2 * b,
        0 <= place_bit(b, w, k, i) < 64,
        packed_value(b, w, place_long(b, w, k, i), place_bit(b, w, k, i)) == k,
        packed_bit(b, w, place_long(b, w, k, i), place_bit(b, w, k, i)) == i,
{
    lemma_shape(b, w);
    let v = k % (2 * w);
    let lane = k / (2 * w);
    let f = w / b;
    let r = w % b;
    let planes = f * (2 * b);
    let up = 64int / w - 1 - lane;
    lemma_lane(w, k);
    let t = place_long(b, w, k, i);
    let p = place_bit(b, w, k, i);
    if v < planes {
        let pl = v / (2 * b);
        lemma_fundamental_div_mod(v, 2 * b);
        lemma_mod_bound(v, 2 * b);
        assert(0 <= pl < f) by (nonlinear_arith)
            requires
                v == (2 * b) * pl + t,
                0 <= t < 2 * b,
                0 <= v < f * (2 * b),
                b >= 1,
        ;
        let q = w - (pl + 1) * b + i;
        let plb = pl * b;
        assert((pl + 1) * b == plb + b) by (nonlinear_arith)
            requires
                plb == pl * b,
        ;
        assert(r <= q < w) by (nonlinear_arith)
            requires
                w == f * b + r,
                plb == pl * b,
                q == w - plb - b + i,
                0 <= pl < f,
                0 <= i < b,
        ;
        assert(p == up * w + q);
        assert(p / w == up && p % w == q);
        let e = w - 1 - q;
        lemma_fundamental_div_mod_converse(e, b, pl, b - 1 - i);
        assert(pl * (2 * b) == (2 * b) * pl) by (nonlinear_arith);
    } else {
        let m = v - planes;
        let g = m * b + b - 1 - i;
        assert(0 <= m < 2 * r);
        assert(r > 0);
        assert(0 <= g < (2 * b) * r) by (nonlinear_arith)
            requires
                g == m * b + b - 1 - i,
                0 <= i < b,
                0 <= m,
                m + 1 <= 2 * r,
        ;
        lemma_fundamental_div_mod(g, r);
        lemma_mod_bound(g, r);
        let c = g % r;
        assert(0 <= t < 2 * b) by (nonlinear_arith)
            requires
                g == r * t + c,
                0 <= c < r,
                0 <= g < (2 * b) * r,
        ;
        let q = r - 1 - c;
        assert(0 <= q < w);
        assert(p == up * w + q);
        assert(p / w == up && p % w == q);
        assert(t * r == r * t) by (nonlinear_arith);
        assert(t * r + r - 1 - q == g);
        assert(g == b * m + (b - 1 - i)) by (nonlinear_arith)
            requires
                g == m * b + b - 1 - i,
        ;
        lemma_fundamental_div_mod_converse(g, b, m, b - 1 - i);
    }
}

/// Every bit of every long belongs to a value, at the place of that value's
/// bit.
pub proof fn lemma_unplace(b: int, w: int, t: int, p: int)
    requires
        packing(b, w),
        0 <= t < 2 * b,
        0 <= p < 64,
    ensures
        0 <= packed_value(b, w, t, p) < 128,
        0 <= packed_bit(b, w, t, p) < b,
        place_long(b, w, packed_value(b, w, t, p), packed_bit(b, w, t, p)) == t,
        place_bit(b, w, packed_value(b, w, t, p), packed_bit(b, w, t, p)) == p,
{
    lemma_shape(b, w);
    let q = p % w;
    let up = p / w;
    let f = w / b;
    let r = w % b;
    let planes = f * (2 * b);
    let lane = 64int / w - 1 - up;
    assert(p == up * w + q && 0 <= q < w && 0 <= lane <= 64int / w - 1);
    let k = packed_value(b, w, t, p);
    let i = packed_bit(b, w, t, p);
    if q >= r {
        let e = w - 1 - q;
        let pl = e / b;
        lemma_fundamental_div_mod(e, b);
        lemma_mod_bound(e, b);
        assert(0 <= pl < f) by (nonlinear_arith)
            requires
                e == b * pl + e % b,
                0 <= e % b < b,
                0 <= e < f * b,
                b >= 1,
        ;
        let v = pl * (2 * b) + t;
        assert(0 <= v < planes) by (nonlinear_arith)
            requires
                v == pl * (2 * b) + t,
                0 <= t < 2 * b,
                0 <= pl,
                pl + 1 <= f,
                planes == f * (2 * b),
                b >= 1,
        ;
        assert(k == 2 * w * lane + v);
        lemma_lane_converse(w, lane, v);
        assert(v == (2 * b) * pl + t) by (nonlinear_arith)
            requires
                v == pl * (2 * b) + t,
        ;
        lemma_fundamental_div_mod_converse(v, 2 * b, pl, t);
        assert((pl + 1) * b == b * pl + b) by (nonlinear_arith);
    } else {
        let g = t * r + r - 1 - q;
        assert(0 <= g < 2 * r * b) by (nonlinear_arith)
            requires
                g == t * r + r - 1 - q,
                0 <= q < r,
                0 <= t,
                t + 1 <= 2 * b,
        ;
        let m = g / b;
        lemma_fundamental_div_mod(g, b);
        lemma_mod_bound(g, b);
        assert(0 <= m < 2 * r) by (nonlinear_arith)
            requires
                g == b * m + g % b,
                0 <= g % b < b,
                0 <= g < 2 * r * b,
                b >= 1,
        ;
        let v = planes + m;
        assert(k == 2 * w * lane + v);
        lemma_lane_converse(w, lane, v);
        assert((v - planes) * b + b - 1 - i == g) by (nonlinear_arith)
            requires
                v - planes == m,
                g == b * m + g % b,
                i == b - 1 - g % b,
        ;
        assert(g == r * t + (r - 1 - q)) by (nonlinear_arith)
            requires
                g == t * r + r - 1 - q,
        ;
        lemma_fundamental_div_mod_converse(g, r, t, r - 1 - q);
    }
}

/// All values fit in `b` bits.
pub open spec fn fits(values: Seq<u64>, b: int) -> bool {
    forall|k: int| 0 <= k < values.len() ==> #[trigger] values[k] < pow2(b as nat)
}

/// Bit `p` of packed long `t`.
pub open spec fn long_bit(values: Seq<u64>, b: int, w: int, t: int, p: int) -> bool {
    get_bit(values[packed_value(b, w, t, p)], packed_bit(b, w, t, p))
}

/// The packed longs of a block.
pub open spec fn packed_longs(values: Seq<u64>, b: int, w: int) -> Seq<u64> {
    Seq::new((2 * b) as nat, |t: int| bits_u64(|p: int| long_bit(values, b, w, t, p)))
}

/// Bit `i` of value `k` of a packed block.
pub open spec fn value_bit(longs: Seq<u64>, b: int, w: int, k: int, i: int) -> bool {
    i < b && get_bit(longs[place_long(b, w, k, i)], place_bit(b, w, k, i))
}

/// The values of a packed block.
pub open spec fn unpacked_values(longs: Seq<u64>, b: int, w: int) -> Seq<u64> {
    Seq::new(128, |k: int| bits_u64(|i: int| value_bit(longs, b, w, k, i)))
}

/// Packing loses nothing that fits.
pub proof fn law_packing_round_trip(values: Seq<u64>, b: int, w: int)
    requires
        packing(b, w),
        values.len() == 128,
        fits(values, b),
    ensures
        unpacked_values(packed_longs(values, b, w), b, w) == values,
{
    let longs = packed_longs(values, b, w);
    let got = unpacked_values(longs, b, w);
    assert forall|k: int| 0 <= k < 128 implies got[k] == values[k] by {
        assert forall|i: int| 0 <= i < 64 implies get_bit(values[k], i) == value_bit(longs, b, w, k, i) by {
            if i < b {
                lemma_place(b, w, k, i);
                let t = place_long(b, w, k, i);
                let p = place_bit(b, w, k, i);
                lemma_bits_u64_bit(|p: int| long_bit(values, b, w, t, p), p);
            } else {
                lemma_bit_high(values[k], b);
            }
        }
        lemma_bits_u64(values[k], |i: int| value_bit(longs, b, w, k, i));
    }
    assert(got =~= values);
}

// ---------------------------------------------------------------------------
// Longs in a byte stream
// ---------------------------------------------------------------------------

/// Longs one after the other, each little-endian.
pub open spec fn longs_bytes(longs: Seq<u64>) -> Seq<u8>
    decreases longs.len(),
{
    if longs.len() == 0 {
        Seq::empty()
    } else {
        longs_bytes(longs.drop_last()) + le_bytes(longs.last() as nat, 8)
    }
}

pub open spec fn long_in(s: Seq<u8>, p: int) -> u64 {
    le_nat(s.subrange(p, p + 8)) as u64
}

/// The `n` longs at `p`.
pub open spec fn longs_at(s: Seq<u8>, p: int, n: int) -> Result<(Seq<u64>, int), ErrorKind> {
    if 0 <= p <= p + 8 * n <= s.len() {
        Ok((Seq::new(n as nat, |i: int| long_in(s, p + 8 * i)), p + 8 * n))
    } else {
        Err(ErrorKind::UnexpectedEof)
    }
}

pub proof fn lemma_longs_len(longs: Seq<u64>)
    ensures
        longs_bytes(longs).len() == 8 * longs.len(),
    decreases longs.len(),
{
    broadcast use lemma_le_bytes_len;
    if longs.len() > 0 {
        lemma_longs_len(longs.drop_last());
    }
}

/// Longs that were written are read back.
pub proof fn lemma_longs_round_trip(s: Seq<u8>, p: int, longs: Seq<u64>)
    requires
        holds_at(s, p, longs_bytes(longs)),
    ensures
        longs_at(s, p, longs.len() as int) == Ok::<(Seq<u64>, int), ErrorKind>((longs, p + 8 * longs.len())),
    decreases longs.len(),
{
    lemma_longs_len(longs);
    let got = Seq::new(longs.len(), |i: int| long_in(s, p + 8 * i));
    if longs.len() > 0 {
        broadcast use lemma_le_bytes_len;
        let n = longs.len() - 1;
        let d = longs.drop_last();
        lemma_longs_len(d);
        lemma_holds_concat(s, p, longs_bytes(d), le_bytes(longs.last() as nat, 8));
        lemma_longs_round_trip(s, p, d);
        lemma_pow2_widths();
        lemma_le_round_trip(longs.last() as nat, 8);
        assert forall|i: int| 0 <= i < longs.len() implies got[i] == longs[i] by {
            if i < n {
                assert(Seq::new(d.len(), |i: int| long_in(s, p + 8 * i))[i] == d[i]);
            }
        }
    }
    assert(got =~= longs);
}

// ---------------------------------------------------------------------------
// Packing and unpacking
// ---------------------------------------------------------------------------

/// Packs a block with `b` bits per value in lanes of `w` bits.
pub fn for_util_encode_primitive<O: DataOutput>(out: &mut O, values: &[u64; 128], b: u32, w: u32) -> (r: Result<(), Error>)
    requires
        packing(b as int, w as int),
        fits(values@, b as int),
    ensures
        final(out).since() == old(out).since(),
        r is Ok,
        final(out).written() == old(out).written() + longs_bytes(packed_longs(values@, b as int, w as int)),
{
    let longs = pack_block(values, b, w);
    let n: usize = 2 * b as usize;
    let ghost want = packed_longs(values@, b as int, w as int);
    let mut t: usize = 0;
    assert(want.subrange(0, 0) =~= Seq::<u64>::empty());
    assert(out.written() + longs_bytes(want.subrange(0, 0)) =~= out.written());
    while t < n
        invariant
            out.since() == old(out).since(),
            t <= n == want.len(),
            n <= 64,
            longs@.len() == 64,
            longs@.subrange(0, n as int) == want,
            out.written() == old(out).written() + longs_bytes(want.subrange(0, t as int)),
        decreases n - t,
    {
        out.write_long(to_i64(longs[t]))?;
        proof {
            assert(to_u64(to_i64(longs[t as int])) == longs[t as int]);
            assert(longs[t as int] == longs@.subrange(0, n as int)[t as int]);
            let next = want.subrange(0, t + 1);
            assert(next.drop_last() =~= want.subrange(0, t as int));
            assert(out.written() =~= old(out).written() + longs_bytes(next));
        }
        t = t + 1;
    }
    assert(want.subrange(0, n as int) =~= want);
    Ok(())
}

/// How far packing has come: everything of the values before `k`, and of value
/// `k` the bits from `low` up.
spec fn packed_so_far(longs: Seq<u64>, values: Seq<u64>, b: int, w: int, k: int, low: int) -> bool {
    forall|t: int, p: int|
        0 <= t < 2 * b && 0 <= p < 64 ==> #[trigger] get_bit(longs[t], p) == (long_bit(values, b, w, t, p) && (packed_value(b, w, t, p) < k || (packed_value(b, w, t, p) == k && packed_bit(b, w, t, p) >= low)))
}

/// Putting the bits `low..high` of value `k` to their place, which is one run
/// of bits of one long.
proof fn lemma_pack_step(before: Seq<u64>, after: Seq<u64>, values: Seq<u64>, b: int, w: int, k: int, low: int, high: int, t: int, at: u64, piece: u64)
    requires
        packing(b, w),
        values.len() == 128,
        0 <= k < 128,
        0 <= low < high <= b,
        0 <= t < 2 * b <= before.len(),
        packed_so_far(before, values, b, w, k, high),
        at < 64,
        forall|i: int| low <= i < high ==> #[trigger] place_long(b, w, k, i) == t && place_bit(b, w, k, i) == at + (i - low),
        forall|p: int| 0 <= p < 64 ==> #[trigger] get_bit(piece, p) == (p < high - low && get_bit(values[k], low + p)),
        after == before.update(t, before[t] | (piece << at)),
    ensures
        packed_so_far(after, values, b, w, k, low),
{
    assert forall|u: int, p: int| 0 <= u < 2 * b && 0 <= p < 64 implies #[trigger] get_bit(after[u], p) == (long_bit(values, b, w, u, p)
        && (packed_value(b, w, u, p) < k || (packed_value(b, w, u, p) == k && packed_bit(b, w, u, p) >= low))) by {
        assert(get_bit(before[u], p) == (long_bit(values, b, w, u, p) && (packed_value(b, w, u, p) < k || (packed_value(b, w, u, p) == k && packed_bit(b, w, u, p) >= high))));
        lemma_unplace(b, w, u, p);
        let i = packed_bit(b, w, u, p);
        if u == t {
            lemma_bit_or(before[t], piece << at, p);
            lemma_bit_shl(piece, at, p);
            if p >= at && p - at < high - low {
                let j = low + (p - at as int);
                assert(low <= j < high);
                assert(place_long(b, w, k, j) == t);
                assert(place_bit(b, w, k, j) == at + (j - low));
                assert(place_bit(b, w, k, j) == p);
                lemma_place(b, w, k, j);
            } else if packed_value(b, w, u, p) == k && low <= i < high {
                assert(place_long(b, w, k, i) == t && place_bit(b, w, k, i) == at + (i - low));
                assert(false);
            }
        } else if packed_value(b, w, u, p) == k && low <= i < high {
            assert(place_long(b, w, k, i) == t);
            assert(false);
        }
    }
}

/// The packed longs of a block; those past the `2b`-th are zero.
#[verifier::spinoff_prover]
fn pack_block(values: &[u64; 128], b: u32, w: u32) -> (longs: [u64; 64])
    requires
        packing(b as int, w as int),
        fits(values@, b as int),
    ensures
        longs@.subrange(0, 2 * b) == packed_longs(values@, b as int, w as int),
{
    let mut longs: [u64; 64] = [0u64; 64];
    let f: u32 = w / b;
    let rest: u32 = w % b;
    let ghost (bi, wi) = (b as int, w as int);
    proof {
        lemma_shape(bi, wi);
        assert(f * (2 * b) <= 2 * w);
        assert forall|t: int, p: int| 0 <= t < 2 * b && 0 <= p < 64 implies #[trigger] get_bit(longs@[t], p) == false by {
            lemma_bit_zero(p);
        }
        assert forall|t: int, p: int| 0 <= t < 2 * b && 0 <= p < 64 implies 0 <= #[trigger] packed_value(bi, wi, t, p) by {
            lemma_unplace(bi, wi, t, p);
        }
        assert forall|t: int, p: int| 0 <= t < 2 * b && 0 <= p < 64 implies #[trigger] packed_bit(bi, wi, t, p) < bi by {
            lemma_unplace(bi, wi, t, p);
        }
        assert(packed_so_far(longs@, values@, bi, wi, 0, bi));
    }
    let planes: u32 = f * (2 * b);
    let mut k: u32 = 0;
    while k < 128
        invariant
            k <= 128,
            bi == b,
            wi == w,
            packing(bi, wi),
            fits(values@, bi),
            f == wi / bi,
            rest == wi % bi,
            planes == (wi / bi) * (2 * bi),
            planes + 2 * rest == 2 * w,
            packed_so_far(longs@, values@, bi, wi, k as int, bi),
        decreases 128 - k,
    {
        let v: u32 = k % (2 * w);
        let lane: u32 = k / (2 * w);
        proof {
            lemma_lane(wi, k as int);
        }
        let up: u32 = (64 / w - 1 - lane) * w;
        let x: u64 = values[k as usize];
        proof {
            assert(k == 2 * w * lane + v);
            assert(up <= 64 - w);
            lemma_bit_high(x, bi);
            lemma_shape(bi, wi);
        }
        if v < planes {
            let plane: u32 = v / (2 * b);
            let t: u32 = v % (2 * b);
            proof {
                lemma_place(bi, wi, k as int, 0);
                lemma_place(bi, wi, k as int, bi - 1);
                let pb = (plane + 1) * b;
                assert(place_bit(bi, wi, k as int, 0) == up + w - pb);
                lemma_fundamental_div_mod(v as int, 2 * bi);
                assert(0 <= plane < f) by (nonlinear_arith)
                    requires
                        v == (2 * b) * plane + t,
                        0 <= t < 2 * b,
                        0 <= v < f * (2 * b),
                        b >= 1,
                ;
                assert(pb <= f * b) by (nonlinear_arith)
                    requires
                        pb == (plane + 1) * b,
                        plane + 1 <= f,
                        b >= 0,
                ;
                assert(pb <= w);
                assert(0 <= pb) by (nonlinear_arith)
                    requires
                        pb == (plane + 1) * b,
                        plane >= 0,
                        b >= 0,
                ;
            }
            let at: u32 = up + (w - (plane + 1) * b);
            let ghost before = longs@;
            longs[t as usize] = longs[t as usize] | (x << (at as u64));
            proof {
                assert forall|i: int| 0 <= i < bi implies #[trigger] place_long(bi, wi, k as int, i) == t && place_bit(bi, wi, k as int, i) == at + (i - 0) by {
                }
                assert forall|p: int| 0 <= p < 64 implies #[trigger] get_bit(x, p) == (p < bi - 0 && get_bit(values@[k as int], 0 + p)) by {
                }
                assert(longs@ =~= before.update(t as int, before[t as int] | (x << (at as u64))));
                lemma_pack_step(before, longs@, values@, bi, wi, k as int, 0, bi, t as int, at as u64, x);
            }
        } else {
            // The value's bits, high ones first, are the stream bits from
            // `m * b` on; they go to the longs in pieces.
            let m: u32 = v - planes;
            let mut left: u32 = b;
            assert(m < 2 * rest && rest > 0);
            while left > 0
                invariant
                    left <= b,
                    bi == b,
                    wi == w,
                    packing(bi, wi),
                    k < 128,
                    rest == wi % bi,
                    0 < rest < b,
                    planes == (wi / bi) * (2 * bi),
                    v == k as int % (2 * w as int),
                    lane == k as int / (2 * w as int),
                    up == (64int / w as int - 1 - lane) * w,
                    up <= 64 - w,
                    v >= planes,
                    m == v - planes,
                    m < 2 * rest,
                    x == values@[k as int],
                    packed_so_far(longs@, values@, bi, wi, k as int, left as int),
                decreases left,
            {
                proof {
                    assert(m * b <= 64 * 32) by (nonlinear_arith)
                        requires
                            m < 64,
                            b <= 32,
                            m >= 0,
                            b >= 0,
                    ;
                }
                let g: u32 = m * b + (b - left);
                let t: u32 = g / rest;
                let off: u32 = g % rest;
                let room: u32 = rest - off;
                let take: u32 = if left <= room { left } else { room };
                let at: u32 = up + (room - take);
                let low: u32 = left - take;
                proof {
                    lemma_bit_shr(x, low as u64, 0);
                }
                let piece: u64 = low_bits(x >> (low as u64), take);
                let ghost before = longs@;
                proof {
                    lemma_place(bi, wi, k as int, low as int);
                    lemma_fundamental_div_mod(g as int, rest as int);
                    assert forall|i: int| low <= i < left implies #[trigger] place_long(bi, wi, k as int, i) == t && place_bit(bi, wi, k as int, i) == at + (i - low) by {
                        let h = m * b + b - 1 - i;
                        assert(h == g + (left - 1 - i));
                        let c = off + (left - 1 - i);
                        assert(0 <= c < rest);
                        assert(h == rest * t + c);
                        lemma_fundamental_div_mod_converse(h, rest as int, t as int, c);
                        lemma_place(bi, wi, k as int, i);
                    }
                    assert(place_long(bi, wi, k as int, low as int) == t);
                    assert forall|p: int| 0 <= p < 64 implies #[trigger] get_bit(piece, p) == (p < left - low && get_bit(values@[k as int], low + p)) by {
                        if p < take {
                            lemma_bit_shr(x, low as u64, p);
                        }
                    }
                }
                longs[t as usize] = longs[t as usize] | (piece << (at as u64));
                proof {
                    assert(longs@ =~= before.update(t as int, before[t as int] | (piece << (at as u64))));
                    lemma_pack_step(before, longs@, values@, bi, wi, k as int, low as int, left as int, t as int, at as u64, piece);
                }
                left = low;
            }
        }
        proof {
            assert(packed_so_far(longs@, values@, bi, wi, k as int, 0));
            assert forall|t: int, p: int| 0 <= t < 2 * b && 0 <= p < 64 implies 0 <= #[trigger] packed_bit(bi, wi, t, p) < bi by {
                lemma_unplace(bi, wi, t, p);
            }
            assert(packed_so_far(longs@, values@, bi, wi, k + 1, bi));
        }
        k = k + 1;
    }
    proof {
        let want = packed_longs(values@, bi, wi);
        assert forall|t: int| 0 <= t < 2 * b implies longs@[t] == want[t] by {
            assert forall|p: int| 0 <= p < 64 implies get_bit(longs@[t], p) == long_bit(values@, bi, wi, t, p) by {
                lemma_unplace(bi, wi, t, p);
            }
            lemma_bits_u64(longs@[t], |p: int| long_bit(values@, bi, wi, t, p));
        }
        assert(longs@.subrange(0, 2 * b) =~= want);
    }
    longs
}

/// The value at place `k` of a packed block.
#[verifier::spinoff_prover]
fn unpack_value(longs: &[u64; 64], b: u32, w: u32, k: u32) -> (x: u64)
    requires
        packing(b as int, w as int),
        k < 128,
    ensures
        x == bits_u64(|i: int| value_bit(longs@, b as int, w as int, k as int, i)),
{
    let f: u32 = w / b;
    let rest: u32 = w % b;
    let ghost (bi, wi, ki) = (b as int, w as int, k as int);
    proof {
        lemma_shape(bi, wi);
        assert(f * (2 * b) <= 2 * w);
    }
    let planes: u32 = f * (2 * b);
    let v: u32 = k % (2 * w);
    let lane: u32 = k / (2 * w);
    proof {
        lemma_lane(wi, ki);
    }
    let up: u32 = (64 / w - 1 - lane) * w;
    assert(up <= 64 - w);
    if v < planes {
        let plane: u32 = v / (2 * b);
        let t: u32 = v % (2 * b);
        proof {
            let pb = (plane + 1) * b;
            lemma_fundamental_div_mod(v as int, 2 * bi);
            assert(0 <= plane < f) by (nonlinear_arith)
                requires
                    v == (2 * b) * plane + t,
                    0 <= t < 2 * b,
                    0 <= v < f * (2 * b),
                    b >= 1,
            ;
            assert(pb <= f * b) by (nonlinear_arith)
                requires
                    pb == (plane + 1) * b,
                    plane + 1 <= f,
                    b >= 0,
            ;
            assert(0 <= pb) by (nonlinear_arith)
                requires
                    pb == (plane + 1) * b,
                    plane >= 0,
                    b >= 0,
            ;
            lemma_place(bi, wi, ki, 0);
            lemma_place(bi, wi, ki, bi - 1);
        }
        let at: u32 = up + (w - (plane + 1) * b);
        let x: u64 = low_bits(longs[t as usize] >> (at as u64), b);
        proof {
            assert forall|i: int| 0 <= i < 64 implies get_bit(x, i) == value_bit(longs@, bi, wi, ki, i) by {
                if i < b {
                    lemma_bit_shr(longs@[t as int], at as u64, i);
                    lemma_place(bi, wi, ki, i);
                }
            }
            lemma_bits_u64(x, |i: int| value_bit(longs@, bi, wi, ki, i));
        }
        return x;
    }
    let m: u32 = v - planes;
    let mut left: u32 = b;
    let mut x: u64 = 0;
    assert(m < 2 * rest && rest > 0);
    proof {
        assert forall|i: int| 0 <= i < 64 implies !#[trigger] get_bit(0u64, i) by {
            lemma_bit_zero(i);
        }
    }
    while left > 0
        invariant
            left <= b,
            bi == b,
            wi == w,
            ki == k,
            packing(bi, wi),
            k < 128,
            rest == wi % bi,
            0 < rest < b,
            planes == (wi / bi) * (2 * bi),
            v == k as int % (2 * w as int),
            lane == k as int / (2 * w as int),
            up == (64int / w as int - 1 - lane) * w,
            up <= 64 - w,
            v >= planes,
            m == v - planes,
            m < 2 * rest,
            forall|i: int| 0 <= i < 64 ==> #[trigger] get_bit(x, i) == value_bit(longs@, bi, wi, ki, i + left),
        decreases left,
    {
        proof {
            assert(m * b <= 64 * 32) by (nonlinear_arith)
                requires
                    m < 64,
                    b <= 32,
                    m >= 0,
                    b >= 0,
            ;
        }
        let g: u32 = m * b + (b - left);
        let t: u32 = g / rest;
        let off: u32 = g % rest;
        let room: u32 = rest - off;
        let take: u32 = if left <= room { left } else { room };
        let at: u32 = up + (room - take);
        let low: u32 = left - take;
        proof {
            lemma_place(bi, wi, ki, low as int);
            lemma_fundamental_div_mod(g as int, rest as int);
            assert forall|i: int| low <= i < left implies #[trigger] place_long(bi, wi, ki, i) == t && place_bit(bi, wi, ki, i) == at + (i - low) by {
                let h = m * b + b - 1 - i;
                assert(h == g + (left - 1 - i));
                let c = off + (left - 1 - i);
                assert(0 <= c < rest);
                assert(h == rest * t + c);
                lemma_fundamental_div_mod_converse(h, rest as int, t as int, c);
                lemma_place(bi, wi, ki, i);
            }
            assert(place_long(bi, wi, ki, low as int) == t);
        }
        let piece: u64 = low_bits(longs[t as usize] >> (at as u64), take);
        let ghost before = x;
        x = (x << (take as u64)) | piece;
        proof {
            assert forall|i: int| 0 <= i < 64 implies #[trigger] get_bit(x, i) == value_bit(longs@, bi, wi, ki, i + low) by {
                lemma_bit_or(before << (take as u64), piece, i);
                lemma_bit_shl(before, take as u64, i);
                if i < take {
                    lemma_bit_shr(longs@[t as int], at as u64, i);
                    assert(place_long(bi, wi, ki, i + low) == t);
                } else {
                    assert(get_bit(before, i - take) == value_bit(longs@, bi, wi, ki, i - take + left));
                }
            }
        }
        left = low;
    }
    proof {
        assert forall|i: int| 0 <= i < 64 implies get_bit(x, i) == value_bit(longs@, bi, wi, ki, i) by {
            assert(get_bit(x, i) == value_bit(longs@, bi, wi, ki, i + 0));
        }
        lemma_bits_u64(x, |i: int| value_bit(longs@, bi, wi, ki, i));
    }
    x
}

/// The block of `b`-bit values packed in lanes of `w` bits at `p`.
pub open spec fn block_at(s: Seq<u8>, p: int, b: int, w: int) -> Result<(Seq<u64>, int), ErrorKind> {
    match longs_at(s, p, 2 * b) {
        Ok((longs, q)) => Ok((unpacked_values(longs, b, w), q)),
        Err(k) => Err(k),
    }
}

/// Unpacks a block of `b`-bit values in lanes of `w` bits.
pub fn for_util_decode_primitive<I: DataInput>(input: &mut I, values: &mut [u64; 128], b: u32, w: u32) -> (r: Result<(), Error>)
    requires
        packing(b as int, w as int),
    ensures
        final(input).bytes() == old(input).bytes(),
        final(input).fixed() == old(input).fixed(),
        match block_at(old(input).bytes(), old(input).pos(), b as int, w as int) {
            Ok((v, q)) => r is Ok && final(values)@ == v && final(input).pos() == q,
            Err(k) => r is Err && r->Err_0.kind == k,
        },
{
    let n: usize = 2 * b as usize;
    let data = input.read_vec(8 * n as u64)?;
    let ghost (s, p0) = (old(input).bytes(), old(input).pos());
    let mut longs: [u64; 64] = [0u64; 64];
    let mut t: usize = 0;
    while t < n
        invariant
            t <= n <= 64,
            n == 2 * b,
            data@.len() == 8 * n,
            data@ == s.subrange(p0, p0 + 8 * n),
            0 <= p0 <= p0 + 8 * n <= s.len(),
            forall|i: int| 0 <= i < t ==> #[trigger] longs@[i] == long_in(s, p0 + 8 * i),
        decreases n - t,
    {
        longs[t] = crate::bytes::le_u64(&data, 8 * t, 8);
        assert(data@.subrange(8 * t as int, 8 * t + 8) =~= s.subrange(p0 + 8 * t, p0 + 8 * t + 8));
        t = t + 1;
    }
    let ghost want = Seq::new(n as nat, |i: int| long_in(s, p0 + 8 * i));
    assert(longs@.subrange(0, n as int) =~= want);
    let mut k: usize = 0;
    while k < 128
        invariant
            k <= 128,
            packing(b as int, w as int),
            n == 2 * b,
            n <= 64,
            longs@.subrange(0, n as int) == want,
            want.len() == n,
            forall|i: int| 0 <= i < k ==> #[trigger] values@[i] == unpacked_values(want, b as int, w as int)[i],
        decreases 128 - k,
    {
        let x: u64 = unpack_value(&longs, b, w, k as u32);
        proof {
            let (bi, wi, ki) = (b as int, w as int, k as int);
            assert forall|i: int| 0 <= i < 64 implies get_bit(x, i) == value_bit(want, bi, wi, ki, i) by {
                lemma_bits_u64_bit(|i: int| value_bit(longs@, bi, wi, ki, i), i);
                if i < b {
                    lemma_place(bi, wi, ki, i);
                    let t = place_long(bi, wi, ki, i);
                    assert(longs@.subrange(0, n as int)[t] == longs@[t]);
                }
            }
            lemma_bits_u64(x, |i: int| value_bit(want, bi, wi, ki, i));
        }
        values[k] = x;
        k = k + 1;
    }
    assert(values@ =~= unpacked_values(want, b as int, w as int));
    Ok(())
}

/// A packed block that was written is read back.
pub proof fn law_block_round_trip(s: Seq<u8>, p: int, values: Seq<u64>, b: int, w: int)
    requires
        packing(b, w),
        values.len() == 128,
        fits(values, b),
        holds_at(s, p, longs_bytes(packed_longs(values, b, w))),
    ensures
        block_at(s, p, b, w) == Ok::<(Seq<u64>, int), ErrorKind>((values, p + 16 * b)),
{
    lemma_longs_round_trip(s, p, packed_longs(values, b, w));
    law_packing_round_trip(values, b, w);
}

} // verus!
