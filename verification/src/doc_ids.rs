//! The documents of a leaf of points, in one of five forms: a run, a bit set,
//! 16-bit distances from the least, 24 bits each, or 32 bits each.

use crate::bits::{bits_u64, get_bit, lemma_bit_or, lemma_bit_shl, lemma_bit_zero, lemma_bits_u64, lemma_bits_u64_bit};
use crate::bytes::{
    byte_at, holds_at, law_vint_round_trip, le_bytes, le_nat, le_u64, le_vec, lemma_concat_assoc, lemma_holds_byte, lemma_holds_concat, lemma_le_bytes_len, lemma_le_round_trip, lemma_pow2_widths,
    take_at, varint_bytes, vint_at,
};
use crate::codec_util::corrupt;
use crate::error::{Error, ErrorKind};
use crate::io::{ChecksumIndexOutput, DataInput, DataOutput};
use crate::num::{lemma_div_mod_is, spec_to_u32, to_u32};
use vstd::arithmetic::power2::pow2;
use vstd::prelude::*;

verus! {

pub const CONTINUOUS_IDS: u8 = 254;
pub const BITSET_IDS: u8 = 255;
pub const DELTA_BPV_16: u8 = 16;
pub const BPV_24: u8 = 24;
pub const BPV_32: u8 = 32;

// ---------------------------------------------------------------------------
// Numbers of one width
// ---------------------------------------------------------------------------

/// Numbers of `w` bytes each.
pub open spec fn uints_bytes(values: Seq<u64>, w: nat) -> Seq<u8>
    decreases values.len(),
{
    if values.len() == 0 {
        Seq::empty()
    } else {
        uints_bytes(values.drop_last(), w) + le_bytes(values.last() as nat, w)
    }
}

/// Number `i` of the numbers of `w` bytes in `b`.
pub open spec fn uint_in(b: Seq<u8>, w: int, i: int) -> u64 {
    le_nat(b.subrange(w * i, w * i + w)) as u64
}

pub proof fn lemma_uints_len(values: Seq<u64>, w: nat)
    ensures
        uints_bytes(values, w).len() == w * values.len(),
    decreases values.len(),
{
    broadcast use lemma_le_bytes_len;
    if values.len() > 0 {
        lemma_uints_len(values.drop_last(), w);
        assert(w * (values.len() - 1) + w == w * values.len()) by (nonlinear_arith);
    } else {
        assert(w * 0 == 0) by (nonlinear_arith);
    }
}

/// Numbers that were written are read back.
pub proof fn lemma_uints_round_trip(values: Seq<u64>, w: nat, i: int)
    requires
        0 <= i < values.len(),
        values[i] < pow2(8 * w),
    ensures
        uint_in(uints_bytes(values, w), w as int, i) == values[i],
        0 <= w * i <= w * i + w <= uints_bytes(values, w).len(),
    decreases values.len(),
{
    broadcast use lemma_le_bytes_len;
    lemma_uints_len(values, w);
    let d = values.drop_last();
    lemma_uints_len(d, w);
    let s = uints_bytes(values, w);
    assert(0 <= w * i) by (nonlinear_arith)
        requires
            0 <= i,
    ;
    assert(w * i + w <= w * values.len()) by (nonlinear_arith)
        requires
            i + 1 <= values.len(),
    ;
    if i < d.len() {
        lemma_uints_round_trip(d, w, i);
        assert(w * i + w <= w * d.len()) by (nonlinear_arith)
            requires
                i + 1 <= d.len(),
        ;
        assert(s.subrange(w * i, w * i + w) =~= uints_bytes(d, w).subrange(w * i, w * i + w));
    } else {
        assert(s.subrange(w * i, w * i + w) =~= le_bytes(values[i] as nat, w));
        lemma_le_round_trip(values[i] as nat, w);
    }
}

fn write_uints(out: &mut ChecksumIndexOutput, values: &Vec<u64>, w: usize) -> (r: Result<(), Error>)
    ensures
        final(out).since() == old(out).since(),
        r is Ok,
        final(out).written() == old(out).written() + uints_bytes(values@, w as nat),
{
    let ghost base = out.written();
    let ghost v = values@;
    let mut i: usize = 0;
    assert(v.take(0) =~= Seq::empty());
    assert(base + Seq::<u8>::empty() =~= base);
    while i < values.len()
        invariant
            out.since() == old(out).since(),
            i <= values@.len(),
            v == values@,
            out.written() == base + uints_bytes(v.take(i as int), w as nat),
        decreases values@.len() - i,
    {
        let b = le_vec(values[i], w);
        out.write_bytes(&b)?;
        proof {
            let next = v.take(i + 1);
            assert(next.drop_last() =~= v.take(i as int));
            lemma_concat_assoc(base, uints_bytes(v.take(i as int), w as nat), b@);
        }
        i = i + 1;
    }
    assert(v.take(i as int) =~= v);
    Ok(())
}

// ---------------------------------------------------------------------------
// The forms
// ---------------------------------------------------------------------------

pub open spec fn ids_ascend(docs: Seq<u32>) -> bool {
    forall|i: int, j: int| 0 <= i < j < docs.len() ==> #[trigger] docs[i] < #[trigger] docs[j]
}

pub open spec fn ids_min(docs: Seq<u32>) -> u32
    decreases docs.len(),
{
    if docs.len() <= 1 {
        docs[0]
    } else {
        let m = ids_min(docs.drop_last());
        if docs.last() < m {
            docs.last()
        } else {
            m
        }
    }
}

pub open spec fn ids_max(docs: Seq<u32>) -> u32
    decreases docs.len(),
{
    if docs.len() <= 1 {
        docs[0]
    } else {
        let m = ids_max(docs.drop_last());
        if docs.last() > m {
            docs.last()
        } else {
            m
        }
    }
}

/// From the least to the greatest.
pub open spec fn ids_span(docs: Seq<u32>) -> int {
    ids_max(docs) - ids_min(docs) + 1
}

pub open spec fn has_id(docs: Seq<u32>, x: int) -> bool {
    exists|i: int| 0 <= i < docs.len() && #[trigger] docs[i] == x
}

/// The number of longs of the bit set, which begins with the long of the
/// least document.
pub open spec fn word_count(docs: Seq<u32>) -> int {
    ids_max(docs) / 64 - ids_min(docs) / 64 + 1
}

/// The bit set.
pub open spec fn id_words(docs: Seq<u32>) -> Seq<u64> {
    Seq::new(word_count(docs) as nat, |w: int| bits_u64(|p: int| has_id(docs, 64 * (ids_min(docs) / 64 + w) + p)))
}

/// Two distances in one number: that of document `i` of the first half above
/// that of document `i` of the second.
pub open spec fn delta_pairs(docs: Seq<u32>) -> Seq<u64> {
    let half = docs.len() as int / 2;
    let min = ids_min(docs);
    Seq::new(half as nat, |i: int| ((docs[i] - min) * 65536 + (docs[half + i] - min)) as u64)
}

/// Behind the pairs, the last distance where the number is odd.
pub open spec fn delta_tail(docs: Seq<u32>) -> Seq<u8> {
    if docs.len() % 2 == 1 {
        le_bytes((docs.last() - ids_min(docs)) as nat, 2)
    } else {
        Seq::empty()
    }
}

/// Long `j` of the longs that hold eight documents of 24 bits in three.
pub open spec fn lane24(docs: Seq<u32>, j: int) -> u64 {
    let i = 8 * (j / 3);
    if j % 3 == 0 {
        (docs[i] * 0x100_0000_0000 + docs[i + 1] * 0x1_0000 + docs[i + 2] / 256) as u64
    } else if j % 3 == 1 {
        ((docs[i + 2] % 256) * 0x100_0000_0000_0000 + docs[i + 3] * 0x1_0000_0000 + docs[i + 4] * 0x100 + docs[i + 5] / 65536) as u64
    } else {
        ((docs[i + 5] % 65536) * 0x1_0000_0000_0000 + docs[i + 6] * 0x100_0000 + docs[i + 7]) as u64
    }
}

pub open spec fn lanes24(docs: Seq<u32>) -> Seq<u64> {
    Seq::new((3 * (docs.len() as int / 8)) as nat, |j: int| lane24(docs, j))
}

/// The documents from `from` to before `to`, three bytes each: the high two,
/// then the low one.
pub open spec fn loose24(docs: Seq<u32>, from: int, to: int) -> Seq<u8>
    decreases to - from,
{
    if to <= from {
        Seq::empty()
    } else {
        loose24(docs, from, to - 1) + (le_bytes((docs[to - 1] / 256) as nat, 2) + seq![(docs[to - 1] % 256) as u8])
    }
}

pub open spec fn wide_ids(docs: Seq<u32>) -> Seq<u64> {
    docs.map_values(|d: u32| d as u64)
}

/// The documents of a leaf: the flag of the form, then the form.
pub open spec fn doc_ids_bytes(docs: Seq<u32>) -> Seq<u8> {
    let n = docs.len() as int;
    if ids_ascend(docs) && ids_span(docs) == n {
        seq![CONTINUOUS_IDS] + varint_bytes(docs[0] as nat)
    } else if ids_ascend(docs) && ids_span(docs) <= 16 * n {
        seq![BITSET_IDS] + varint_bytes((ids_min(docs) / 64) as nat) + varint_bytes(word_count(docs) as nat) + uints_bytes(id_words(docs), 8)
    } else if ids_span(docs) <= 0xFFFF {
        seq![DELTA_BPV_16] + varint_bytes(ids_min(docs) as nat) + uints_bytes(delta_pairs(docs), 4) + delta_tail(docs)
    } else if ids_max(docs) <= 0xFF_FFFF {
        seq![BPV_24] + uints_bytes(lanes24(docs), 8) + loose24(docs, 8 * (n / 8), n)
    } else {
        seq![BPV_32] + uints_bytes(wide_ids(docs), 4)
    }
}

pub proof fn lemma_ids_bounds(docs: Seq<u32>)
    requires
        docs.len() > 0,
    ensures
        forall|i: int| 0 <= i < docs.len() ==> ids_min(docs) <= #[trigger] docs[i] <= ids_max(docs),
    decreases docs.len(),
{
    if docs.len() > 1 {
        let d = docs.drop_last();
        lemma_ids_bounds(d);
        assert forall|i: int| 0 <= i < docs.len() implies ids_min(docs) <= #[trigger] docs[i] <= ids_max(docs) by {
            if i < d.len() {
                assert(ids_min(d) <= d[i] <= ids_max(d));
            }
        }
    }
}

/// Whether the documents ascend, and the least and the greatest.
fn scan_ids(docs: &[u32]) -> (r: (bool, u32, u32))
    requires
        docs@.len() > 0,
    ensures
        r.0 == ids_ascend(docs@),
        r.1 == ids_min(docs@),
        r.2 == ids_max(docs@),
{
    let ghost v = docs@;
    let mut ascend: bool = true;
    let mut min: u32 = docs[0];
    let mut max: u32 = docs[0];
    let mut i: usize = 1;
    while i < docs.len()
        invariant
            1 <= i <= docs@.len(),
            v == docs@,
            ascend == ids_ascend(v.take(i as int)),
            min == ids_min(v.take(i as int)),
            max == ids_max(v.take(i as int)),
        decreases docs@.len() - i,
    {
        let d: u32 = docs[i];
        let prev: u32 = docs[i - 1];
        proof {
            let a = v.take(i as int);
            let b = v.take(i + 1);
            assert(b.drop_last() =~= a);
            if ids_ascend(b) {
                assert forall|x: int, y: int| 0 <= x < y < a.len() implies #[trigger] a[x] < #[trigger] a[y] by {
                    assert(b[x] < b[y]);
                }
                assert(b[i - 1] < b[i as int]);
            }
            if ids_ascend(a) && prev < d {
                assert forall|x: int, y: int| 0 <= x < y < b.len() implies #[trigger] b[x] < #[trigger] b[y] by {
                    if y < i {
                        assert(a[x] < a[y]);
                    } else if x < i - 1 {
                        assert(a[x] < a[i - 1]);
                    }
                }
            }
        }
        if prev >= d {
            ascend = false;
        }
        if d < min {
            min = d;
        }
        if d > max {
            max = d;
        }
        i = i + 1;
    }
    assert(v.take(i as int) =~= v);
    (ascend, min, max)
}

proof fn lemma_one_bit(p: int)
    requires
        0 <= p < 64,
    ensures
        get_bit(1, p) == (p == 0),
{
    let q = p as u64;
    assert((1u64 >> q) & 1 == (if q == 0 { 1u64 } else { 0u64 })) by (bit_vector)
        requires
            q < 64,
    ;
}

/// The bit set of ascending documents.
fn ids_bit_set(docs: &[u32], min: u32, max: u32) -> (r: Vec<u64>)
    requires
        docs@.len() > 0,
        min == ids_min(docs@),
        max == ids_max(docs@),
    ensures
        r@ == id_words(docs@),
{
    let ghost d = docs@;
    let first: u32 = min / 64;
    proof {
        lemma_ids_bounds(d);
        assert(min <= d[0] <= max);
    }
    let count: usize = (max / 64 - first) as usize + 1;
    let mut out: Vec<u64> = Vec::new();
    let mut i: usize = 0;
    while i < count
        invariant
            i <= count,
            out@.len() == i,
            forall|w: int| 0 <= w < i ==> #[trigger] out@[w] == 0,
        decreases count - i,
    {
        out.push(0);
        i = i + 1;
    }
    proof {
        assert forall|w: int, p: int| 0 <= w < count && 0 <= p < 64 implies #[trigger] get_bit(out@[w], p) == has_id(d.take(0), 64 * (first + w) + p) by {
            lemma_bit_zero(p);
        }
    }
    let mut i: usize = 0;
    while i < docs.len()
        invariant
            i <= docs@.len(),
            d == docs@,
            first == min / 64,
            count == max / 64 - first + 1,
            min <= max,
            forall|k: int| 0 <= k < d.len() ==> min <= #[trigger] d[k] <= max,
            out@.len() == count,
            forall|w: int, p: int| 0 <= w < count && 0 <= p < 64 ==> #[trigger] get_bit(out@[w], p) == has_id(d.take(i as int), 64 * (first + w) + p),
        decreases docs@.len() - i,
    {
        let doc: u32 = docs[i];
        assert(min <= d[i as int] <= max);
        let w: usize = (doc / 64 - first) as usize;
        let b: u64 = (doc % 64) as u64;
        let ghost before = out@;
        out[w] = out[w] | (1u64 << b);
        proof {
            let next = d.take(i + 1);
            let prev = d.take(i as int);
            assert forall|v: int, p: int| 0 <= v < count && 0 <= p < 64 implies #[trigger] get_bit(out@[v], p) == has_id(next, 64 * (first + v) + p) by {
                let x = 64 * (first + v) + p;
                assert(get_bit(before[v], p) == has_id(prev, x));
                lemma_bit_or(before[w as int], 1u64 << b, p);
                lemma_bit_shl(1, b, p);
                if p >= b {
                    lemma_one_bit(p - b);
                }
                if has_id(prev, x) {
                    let k = choose|k: int| 0 <= k < prev.len() && #[trigger] prev[k] == x;
                    assert(next[k] == x);
                }
                if has_id(next, x) {
                    let k = choose|k: int| 0 <= k < next.len() && #[trigger] next[k] == x;
                    if k < i {
                        assert(prev[k] == x);
                    } else {
                        assert(v == w && p == b);
                    }
                }
                if v == w && p == b {
                    assert(next[i as int] == x);
                }
            }
        }
        i = i + 1;
    }
    proof {
        assert(d.take(i as int) =~= d);
        assert forall|w: int| 0 <= w < count implies out@[w] == id_words(d)[w] by {
            assert forall|p: int| 0 <= p < 64 implies get_bit(out@[w], p) == has_id(d, 64 * (first + w) + p) by {
            }
            lemma_bits_u64(out@[w], |p: int| has_id(d, 64 * (first + w) + p));
        }
        assert(out@ =~= id_words(d));
    }
    out
}

fn write_delta16(out: &mut ChecksumIndexOutput, docs: &[u32], min: u32, max: u32) -> (r: Result<(), Error>)
    requires
        docs@.len() > 0,
        min == ids_min(docs@),
        max == ids_max(docs@),
        max - min + 1 <= 0xFFFF,
    ensures
        final(out).since() == old(out).since(),
        r is Ok,
        final(out).written() == old(out).written() + (uints_bytes(delta_pairs(docs@), 4) + delta_tail(docs@)),
{
    let ghost base = out.written();
    let ghost d = docs@;
    let n: usize = docs.len();
    let half: usize = n / 2;
    proof {
        lemma_ids_bounds(d);
    }
    let ghost want = delta_pairs(d);
    let mut pairs: Vec<u64> = Vec::new();
    let mut i: usize = 0;
    while i < half
        invariant
            i <= half == n / 2,
            n == docs@.len(),
            d == docs@,
            min == ids_min(d),
            max - min + 1 <= 0xFFFF,
            forall|k: int| 0 <= k < d.len() ==> min <= #[trigger] d[k] <= max,
            want == delta_pairs(d),
            pairs@ == want.take(i as int),
        decreases half - i,
    {
        assert(min <= d[i as int] <= max);
        assert(min <= d[half + i] <= max);
        pairs.push((docs[i] - min) as u64 * 65536 + (docs[half + i] - min) as u64);
        assert(pairs@ =~= want.take(i + 1));
        i = i + 1;
    }
    assert(want.take(half as int) =~= want);
    write_uints(out, &pairs, 4)?;
    if n % 2 == 1 {
        assert(min <= d[n - 1] <= max);
        let b = le_vec((docs[n - 1] - min) as u64, 2);
        out.write_bytes(&b)?;
        proof {
            lemma_concat_assoc(base, uints_bytes(want, 4), b@);
        }
    } else {
        assert(out.written() =~= base + (uints_bytes(want, 4) + delta_tail(d)));
    }
    Ok(())
}

fn write_bpv24(out: &mut ChecksumIndexOutput, docs: &[u32], max: u32) -> (r: Result<(), Error>)
    requires
        docs@.len() > 0,
        max == ids_max(docs@),
        max <= 0xFF_FFFF,
    ensures
        final(out).since() == old(out).since(),
        r is Ok,
        final(out).written() == old(out).written() + (uints_bytes(lanes24(docs@), 8) + loose24(docs@, 8 * (docs@.len() as int / 8), docs@.len() as int)),
{
    let ghost base = out.written();
    let ghost d = docs@;
    let n: usize = docs.len();
    proof {
        lemma_ids_bounds(d);
    }
    let ghost want = lanes24(d);
    let mut lanes: Vec<u64> = Vec::new();
    let mut g: usize = 0;
    while g < n / 8
        invariant
            g <= n / 8,
            n == docs@.len(),
            d == docs@,
            max <= 0xFF_FFFF,
            forall|k: int| 0 <= k < d.len() ==> #[trigger] d[k] <= max,
            want == lanes24(d),
            lanes@ == want.take(3 * g as int),
        decreases n / 8 - g,
    {
        let i: usize = 8 * g;
        assert(d[i as int] <= max && d[i + 1] <= max && d[i + 2] <= max && d[i + 3] <= max && d[i + 4] <= max && d[i + 5] <= max && d[i + 6] <= max && d[i + 7] <= max);
        let (d0, d1, d2, d3) = (docs[i] as u64, docs[i + 1] as u64, docs[i + 2] as u64, docs[i + 3] as u64);
        let (d4, d5, d6, d7) = (docs[i + 4] as u64, docs[i + 5] as u64, docs[i + 6] as u64, docs[i + 7] as u64);
        lanes.push(d0 * 0x100_0000_0000 + d1 * 0x1_0000 + d2 / 256);
        lanes.push((d2 % 256) * 0x100_0000_0000_0000 + d3 * 0x1_0000_0000 + d4 * 0x100 + d5 / 65536);
        lanes.push((d5 % 65536) * 0x1_0000_0000_0000 + d6 * 0x100_0000 + d7);
        proof {
            assert(3 * g as int / 3 == g && (3 * g as int) % 3 == 0);
            assert((3 * g + 1) as int / 3 == g && (3 * g + 1) as int % 3 == 1);
            assert((3 * g + 2) as int / 3 == g && (3 * g + 2) as int % 3 == 2);
            assert(lanes@ =~= want.take(3 * (g + 1)));
        }
        g = g + 1;
    }
    assert(want.take(3 * g as int) =~= want);
    write_uints(out, &lanes, 8)?;
    let ghost mid = out.written();
    let from: usize = n / 8 * 8;
    let mut i: usize = from;
    assert(mid + loose24(d, from as int, from as int) =~= mid);
    while i < n
        invariant
            out.since() == old(out).since(),
            from <= i <= n == docs@.len(),
            d == docs@,
            out.written() == mid + loose24(d, from as int, i as int),
        decreases n - i,
    {
        let doc: u32 = docs[i];
        let ghost before = out.written();
        let b = le_vec((doc / 256) as u64, 2);
        out.write_bytes(&b)?;
        out.write_byte((doc % 256) as u8)?;
        assert(out.written() =~= mid + loose24(d, from as int, i + 1));
        i = i + 1;
    }
    proof {
        lemma_concat_assoc(base, uints_bytes(want, 8), loose24(d, from as int, n as int));
    }
    Ok(())
}

/// Writes the documents of a leaf in the form that suits them.
pub fn write_doc_ids(out: &mut ChecksumIndexOutput, docs: &[u32]) -> (r: Result<(), Error>)
    requires
        0 < docs@.len() < 0x1_0000_0000,
    ensures
        final(out).since() == old(out).since(),
        r is Ok,
        final(out).written() == old(out).written() + doc_ids_bytes(docs@),
{
    let ghost base = out.written();
    let ghost d = docs@;
    let n: usize = docs.len();
    let (ascend, min, max) = scan_ids(docs);
    proof {
        lemma_ids_bounds(d);
        assert(min <= d[0] <= max);
    }
    let span: u64 = max as u64 - min as u64 + 1;
    if ascend && span == n as u64 {
        out.write_byte(CONTINUOUS_IDS)?;
        out.write_varint(docs[0] as u64)?;
        assert(out.written() =~= base + doc_ids_bytes(d));
        return Ok(());
    }
    if ascend && span <= 16 * n as u64 {
        out.write_byte(BITSET_IDS)?;
        out.write_varint((min / 64) as u64)?;
        out.write_varint((max / 64 - min / 64) as u64 + 1)?;
        let words = ids_bit_set(docs, min, max);
        write_uints(out, &words, 8)?;
        proof {
            lemma_four(base, seq![BITSET_IDS], varint_bytes((min / 64) as nat), varint_bytes(word_count(d) as nat), uints_bytes(id_words(d), 8));
        }
        return Ok(());
    }
    if span <= 0xFFFF {
        out.write_byte(DELTA_BPV_16)?;
        out.write_varint(min as u64)?;
        write_delta16(out, docs, min, max)?;
        proof {
            let (a, b, c, e) = (seq![DELTA_BPV_16], varint_bytes(min as nat), uints_bytes(delta_pairs(d), 4), delta_tail(d));
            lemma_concat_assoc(base + a + b, c, e);
            lemma_four(base, a, b, c, e);
        }
        return Ok(());
    }
    if max <= 0xFF_FFFF {
        out.write_byte(BPV_24)?;
        write_bpv24(out, docs, max)?;
        proof {
            let (a, b, c) = (seq![BPV_24], uints_bytes(lanes24(d), 8), loose24(d, 8 * (n as int / 8), n as int));
            lemma_concat_assoc(base + a, b, c);
            lemma_concat_assoc(base, a, b);
            lemma_concat_assoc(base, a + b, c);
        }
        return Ok(());
    }
    out.write_byte(BPV_32)?;
    let mut wide: Vec<u64> = Vec::new();
    let mut i: usize = 0;
    while i < n
        invariant
            i <= n == docs@.len(),
            d == docs@,
            wide@ == wide_ids(d.take(i as int)),
        decreases n - i,
    {
        wide.push(docs[i] as u64);
        assert(wide@ =~= wide_ids(d.take(i + 1)));
        i = i + 1;
    }
    assert(d.take(i as int) =~= d);
    write_uints(out, &wide, 4)?;
    proof {
        lemma_concat_assoc(base, seq![BPV_32], uints_bytes(wide_ids(d), 4));
    }
    Ok(())
}

proof fn lemma_four(base: Seq<u8>, a: Seq<u8>, b: Seq<u8>, c: Seq<u8>, d: Seq<u8>)
    ensures
        base + a + b + c + d == base + (a + b + c + d),
{
    lemma_concat_assoc(base, a, b);
    lemma_concat_assoc(base, a + b, c);
    lemma_concat_assoc(base, a + b + c, d);
}

// ---------------------------------------------------------------------------
// Reading
// ---------------------------------------------------------------------------

/// The low 32 bits of a number.
pub open spec fn low32(x: int) -> u32 {
    (x % 0x1_0000_0000) as u32
}

/// The documents among the first `n` bits of a bit set that begins at `from`.
pub open spec fn set_docs(words: Seq<u64>, from: int, n: int) -> Seq<u32>
    decreases n,
{
    if n <= 0 {
        Seq::empty()
    } else {
        let d = set_docs(words, from, n - 1);
        if get_bit(words[(n - 1) / 64], (n - 1) % 64) {
            d.push(low32(from + n - 1))
        } else {
            d
        }
    }
}

/// The `n` numbers of `w` bytes in `b`.
pub open spec fn uints_in(b: Seq<u8>, w: int, n: int) -> Seq<u64> {
    Seq::new(n as nat, |i: int| uint_in(b, w, i))
}

/// Document `i` of `n` in pairs of distances from `min`.
pub open spec fn delta_doc(b: Seq<u8>, min: int, n: int, i: int) -> u32 {
    let half = n / 2;
    low32(min + if i < half {
        uint_in(b, 4, i) as int / 65536
    } else if i < 2 * half {
        uint_in(b, 4, i - half) as int % 65536
    } else {
        le_nat(b.subrange(4 * half, 4 * half + 2)) as int
    })
}

/// Document `i` of `n` of 24 bits each.
pub open spec fn doc24(b: Seq<u8>, n: int, i: int) -> u32 {
    let g = i / 8;
    if g < n / 8 {
        let l1 = uint_in(b, 8, 3 * g) as int;
        let l2 = uint_in(b, 8, 3 * g + 1) as int;
        let l3 = uint_in(b, 8, 3 * g + 2) as int;
        let k = i % 8;
        (if k == 0 {
            l1 / 0x100_0000_0000
        } else if k == 1 {
            l1 / 0x1_0000 % 0x100_0000
        } else if k == 2 {
            (l1 % 0x1_0000) * 256 + l2 / 0x100_0000_0000_0000
        } else if k == 3 {
            l2 / 0x1_0000_0000 % 0x100_0000
        } else if k == 4 {
            l2 / 256 % 0x100_0000
        } else if k == 5 {
            (l2 % 256) * 65536 + l3 / 0x1_0000_0000_0000
        } else if k == 6 {
            l3 / 0x100_0000 % 0x100_0000
        } else {
            l3 % 0x100_0000
        }) as u32
    } else {
        let p = 24 * (n / 8) + 3 * (i - 8 * (n / 8));
        (le_nat(b.subrange(p, p + 2)) * 256 + b[p + 2]) as u32
    }
}

/// The `n` documents at `p`. A bit set gives the documents that it holds,
/// whatever their number.
pub open spec fn doc_ids_at(s: Seq<u8>, p: int, n: int) -> Result<(Seq<u32>, int), ErrorKind> {
    match byte_at(s, p) {
        Ok((flag, q)) => if flag == CONTINUOUS_IDS {
            match vint_at(s, q) {
                Ok((start, z)) => Ok((Seq::new(n as nat, |i: int| low32(spec_to_u32(start) + i)), z)),
                Err(k) => Err(k),
            }
        } else if flag == BITSET_IDS {
            match vint_at(s, q) {
                Ok((first, e)) => match vint_at(s, e) {
                    Ok((count, f)) => match take_at(s, f, 8 * spec_to_u32(count)) {
                        Ok((b, z)) => Ok((set_docs(uints_in(b, 8, spec_to_u32(count) as int), 64 * spec_to_u32(first), 64 * spec_to_u32(count)), z)),
                        Err(k) => Err(k),
                    },
                    Err(k) => Err(k),
                },
                Err(k) => Err(k),
            }
        } else if flag == DELTA_BPV_16 {
            match vint_at(s, q) {
                Ok((min, e)) => match take_at(s, e, 4 * (n / 2) + 2 * (n % 2)) {
                    Ok((b, z)) => Ok((Seq::new(n as nat, |i: int| delta_doc(b, spec_to_u32(min) as int, n, i)), z)),
                    Err(k) => Err(k),
                },
                Err(k) => Err(k),
            }
        } else if flag == BPV_24 {
            match take_at(s, q, 3 * n) {
                Ok((b, z)) => Ok((Seq::new(n as nat, |i: int| doc24(b, n, i)), z)),
                Err(k) => Err(k),
            }
        } else if flag == BPV_32 {
            match take_at(s, q, 4 * n) {
                Ok((b, z)) => Ok((Seq::new(n as nat, |i: int| uint_in(b, 4, i) as u32), z)),
                Err(k) => Err(k),
            }
        } else {
            Err(ErrorKind::InvalidData)
        },
        Err(k) => Err(k),
    }
}

fn add_low(a: u32, b: u64) -> (r: u32)
    requires
        b <= 0xFFFF_FFFF_FFFF,
    ensures
        r == low32(a + b),
{
    ((a as u64 + b) % 0x1_0000_0000) as u32
}

fn read_run<I: DataInput>(input: &mut I, n: usize) -> (r: Result<Vec<u32>, Error>)
    requires
        n < 0x1_0000_0000,
    ensures
        final(input).bytes() == old(input).bytes(),
        final(input).fixed() == old(input).fixed(),
        match vint_at(old(input).bytes(), old(input).pos()) {
            Ok((start, z)) => r is Ok && r->Ok_0@ == Seq::new(n as nat, |i: int| low32(spec_to_u32(start) + i)) && final(input).pos() == z,
            Err(k) => r is Err && r->Err_0.kind == k,
        },
{
    let start: u32 = to_u32(input.read_vint()?);
    let mut docs: Vec<u32> = Vec::new();
    let mut i: usize = 0;
    while i < n
        invariant
            i <= n < 0x1_0000_0000,
            docs@.len() == i,
            forall|k: int| 0 <= k < i ==> #[trigger] docs@[k] == low32(start + k),
        decreases n - i,
    {
        docs.push(add_low(start, i as u64));
        i = i + 1;
    }
    assert(docs@ =~= Seq::new(n as nat, |i: int| low32(start + i)));
    Ok(docs)
}

fn read_bit_set<I: DataInput>(input: &mut I, n: Ghost<int>) -> (r: Result<Vec<u32>, Error>)
    requires
        old(input).bytes()[old(input).pos() - 1] == BITSET_IDS,
        0 < old(input).pos() <= old(input).bytes().len(),
    ensures
        final(input).bytes() == old(input).bytes(),
        final(input).fixed() == old(input).fixed(),
        match doc_ids_at(old(input).bytes(), old(input).pos() - 1, n@) {
            Ok((docs, z)) => r is Ok && r->Ok_0@ == docs && final(input).pos() == z,
            Err(k) => r is Err && r->Err_0.kind == k,
        },
{
    let first: u32 = to_u32(input.read_vint()?);
    let count: u32 = to_u32(input.read_vint()?);
    let b = input.read_vec(8 * count as u64)?;
    let ghost words = uints_in(b@, 8, count as int);
    let mut docs: Vec<u32> = Vec::new();
    let mut i: u64 = 0;
    let total: u64 = 64 * count as u64;
    let mut word: u64 = 0;
    while i < total
        invariant
            i <= total == 64 * count,
            b@.len() == 8 * count,
            words == uints_in(b@, 8, count as int),
            i % 64 != 0 ==> word == words[i as int / 64],
            docs@ == set_docs(words, 64 * first, i as int),
        decreases total - i,
    {
        let _n: usize = b.len();
        if i % 64 == 0 {
            word = le_u64(b.as_slice(), 8 * (i / 64) as usize, 8);
            assert(word == words[i as int / 64]);
        }
        if (word >> (i % 64)) & 1 == 1 {
            docs.push(add_low(0, 64 * first as u64 + i));
        }
        proof {
            assert(get_bit(words[i as int / 64], i as int % 64) == ((word >> (i % 64)) & 1 == 1));
        }
        i = i + 1;
    }
    Ok(docs)
}

fn decode_delta16(b: &Vec<u8>, min: u32, n: usize) -> (r: Vec<u32>)
    requires
        b@.len() == 4 * (n / 2) + 2 * (n % 2),
    ensures
        r@ == Seq::new(n as nat, |i: int| delta_doc(b@, min as int, n as int, i)),
{
    let half: usize = n / 2;
    let mut docs: Vec<u32> = Vec::new();
    let _len: usize = b.len();
    let mut i: usize = 0;
    proof {
        lemma_pow2_widths();
    }
    while i < n
        invariant
            i <= n,
            half == n / 2,
            b.len() == 4 * (n / 2) + 2 * (n % 2),
            docs@.len() == i,
            forall|k: int| 0 <= k < i ==> #[trigger] docs@[k] == delta_doc(b@, min as int, n as int, k),
        decreases n - i,
    {
        proof {
            lemma_pow2_widths();
        }
        let v: u64 = if i < half {
            le_u64(b.as_slice(), 4 * i, 4) / 65536
        } else if i < 2 * half {
            le_u64(b.as_slice(), 4 * (i - half), 4) % 65536
        } else {
            le_u64(b.as_slice(), 4 * half, 2)
        };
        docs.push(add_low(min, v));
        i = i + 1;
    }
    assert(docs@ =~= Seq::new(n as nat, |i: int| delta_doc(b@, min as int, n as int, i)));
    docs
}

fn decode_bpv24(b: &Vec<u8>, n: usize) -> (r: Vec<u32>)
    requires
        b@.len() == 3 * n,
    ensures
        r@ == Seq::new(n as nat, |i: int| doc24(b@, n as int, i)),
{
    let mut docs: Vec<u32> = Vec::new();
    let mut i: usize = 0;
    while i < n
        invariant
            i <= n,
            b.len() == 3 * n,
            docs@.len() == i,
            forall|k: int| 0 <= k < i ==> #[trigger] docs@[k] == doc24(b@, n as int, k),
        decreases n - i,
    {
        proof {
            lemma_pow2_widths();
        }
        let _len: usize = b.len();
        let g: usize = i / 8;
        let doc: u32 = if g < n / 8 {
            let k: usize = i % 8;
            let l1: u64 = le_u64(b.as_slice(), 8 * (3 * g), 8);
            let l2: u64 = le_u64(b.as_slice(), 8 * (3 * g + 1), 8);
            let l3: u64 = le_u64(b.as_slice(), 8 * (3 * g + 2), 8);
            if k == 0 {
                (l1 / 0x100_0000_0000) as u32
            } else if k == 1 {
                (l1 / 0x1_0000 % 0x100_0000) as u32
            } else if k == 2 {
                ((l1 % 0x1_0000) * 256 + l2 / 0x100_0000_0000_0000) as u32
            } else if k == 3 {
                (l2 / 0x1_0000_0000 % 0x100_0000) as u32
            } else if k == 4 {
                (l2 / 256 % 0x100_0000) as u32
            } else if k == 5 {
                ((l2 % 256) * 65536 + l3 / 0x1_0000_0000_0000) as u32
            } else if k == 6 {
                (l3 / 0x100_0000 % 0x100_0000) as u32
            } else {
                (l3 % 0x100_0000) as u32
            }
        } else {
            let p: usize = 24 * (n / 8) + 3 * (i - 8 * (n / 8));
            (le_u64(b.as_slice(), p, 2) * 256 + b[p + 2] as u64) as u32
        };
        docs.push(doc);
        i = i + 1;
    }
    assert(docs@ =~= Seq::new(n as nat, |i: int| doc24(b@, n as int, i)));
    docs
}

fn decode_bpv32(b: &Vec<u8>, n: usize) -> (r: Vec<u32>)
    requires
        b@.len() == 4 * n,
    ensures
        r@ == Seq::new(n as nat, |i: int| uint_in(b@, 4, i) as u32),
{
    let mut docs: Vec<u32> = Vec::new();
    let mut i: usize = 0;
    while i < n
        invariant
            i <= n,
            b.len() == 4 * n,
            docs@.len() == i,
            forall|k: int| 0 <= k < i ==> #[trigger] docs@[k] == uint_in(b@, 4, k) as u32,
        decreases n - i,
    {
        proof {
            lemma_pow2_widths();
        }
        let _len: usize = b.len();
        docs.push(le_u64(b.as_slice(), 4 * i, 4) as u32);
        i = i + 1;
    }
    assert(docs@ =~= Seq::new(n as nat, |i: int| uint_in(b@, 4, i) as u32));
    docs
}

/// Reads the documents of a leaf of `n` points.
pub fn read_doc_ids<I: DataInput>(input: &mut I, n: usize) -> (r: Result<Vec<u32>, Error>)
    requires
        n < 0x1_0000_0000,
    ensures
        final(input).bytes() == old(input).bytes(),
        final(input).fixed() == old(input).fixed(),
        match doc_ids_at(old(input).bytes(), old(input).pos(), n as int) {
            Ok((docs, z)) => r is Ok && r->Ok_0@ == docs && final(input).pos() == z,
            Err(k) => r is Err && r->Err_0.kind == k,
        },
{
    let flag: u8 = input.read_byte()?;
    if flag == CONTINUOUS_IDS {
        read_run(input, n)
    } else if flag == BITSET_IDS {
        read_bit_set(input, Ghost(n as int))
    } else if flag == DELTA_BPV_16 {
        let min: u32 = to_u32(input.read_vint()?);
        let b = input.read_vec(4 * (n as u64 / 2) + 2 * (n as u64 % 2))?;
        Ok(decode_delta16(&b, min, n))
    } else if flag == BPV_24 {
        let b = input.read_vec(3 * n as u64)?;
        Ok(decode_bpv24(&b, n))
    } else if flag == BPV_32 {
        let b = input.read_vec(4 * n as u64)?;
        Ok(decode_bpv32(&b, n))
    } else {
        Err(corrupt("unknown form of documents"))
    }
}

// ---------------------------------------------------------------------------
// Reading what was written
// ---------------------------------------------------------------------------

pub(crate) proof fn lemma_read_u32(s: Seq<u8>, p: int, v: u32)
    requires
        holds_at(s, p, varint_bytes(v as nat)),
    ensures
        vint_at(s, p) matches Ok((x, q)) && spec_to_u32(x) == v && q == p + varint_bytes(v as nat).len(),
{
    let x = crate::num::spec_to_i32(v);
    assert(spec_to_u32(x) == v);
    law_vint_round_trip(s, p, x);
}

/// Ascending documents begin with the least and end with the greatest.
proof fn lemma_ascending_ends(docs: Seq<u32>)
    requires
        docs.len() > 0,
        ids_ascend(docs),
    ensures
        ids_min(docs) == docs[0],
        ids_max(docs) == docs[docs.len() - 1],
    decreases docs.len(),
{
    if docs.len() > 1 {
        let d = docs.drop_last();
        assert(ids_ascend(d)) by {
            assert forall|i: int, j: int| 0 <= i < j < d.len() implies #[trigger] d[i] < #[trigger] d[j] by {
                assert(docs[i] < docs[j]);
            }
        }
        lemma_ascending_ends(d);
        assert(docs[0] < docs[docs.len() - 1]);
        assert(docs[docs.len() - 2] < docs[docs.len() - 1]);
    }
}

proof fn lemma_ascending_gap(docs: Seq<u32>, i: int, j: int)
    requires
        ids_ascend(docs),
        0 <= i <= j < docs.len(),
    ensures
        docs[j] >= docs[i] + (j - i),
    decreases j - i,
{
    if i < j {
        lemma_ascending_gap(docs, i, j - 1);
        assert(docs[j - 1] < docs[j]);
    }
}

/// How many of the documents lie before `x`.
spec fn ids_before(docs: Seq<u32>, x: int) -> int
    decreases docs.len(),
{
    if docs.len() > 0 && docs.last() >= x {
        ids_before(docs.drop_last(), x)
    } else {
        docs.len() as int
    }
}

proof fn lemma_ids_before(docs: Seq<u32>, x: int)
    requires
        ids_ascend(docs),
    ensures
        0 <= ids_before(docs, x) <= docs.len(),
        forall|i: int| 0 <= i < ids_before(docs, x) ==> #[trigger] docs[i] < x,
        forall|i: int| ids_before(docs, x) <= i < docs.len() ==> #[trigger] docs[i] >= x,
    decreases docs.len(),
{
    if docs.len() > 0 && docs.last() >= x {
        let d = docs.drop_last();
        assert(ids_ascend(d)) by {
            assert forall|i: int, j: int| 0 <= i < j < d.len() implies #[trigger] d[i] < #[trigger] d[j] by {
                assert(docs[i] < docs[j]);
            }
        }
        lemma_ids_before(d, x);
        assert forall|i: int| 0 <= i < ids_before(docs, x) implies #[trigger] docs[i] < x by {
            assert(d[i] < x);
        }
        assert forall|i: int| ids_before(docs, x) <= i < docs.len() implies #[trigger] docs[i] >= x by {
            if i < d.len() {
                assert(d[i] >= x);
            }
        }
    } else if docs.len() > 0 {
        assert forall|i: int| 0 <= i < docs.len() implies #[trigger] docs[i] < x by {
            if i < docs.len() - 1 {
                assert(docs[i] < docs[docs.len() - 1]);
            }
        }
    }
}

/// The first `n` bits hold the documents that lie before them.
proof fn lemma_set_docs(docs: Seq<u32>, from: int, n: int)
    requires
        docs.len() > 0,
        ids_ascend(docs),
        from == 64 * (ids_min(docs) as int / 64),
        0 <= n <= 64 * word_count(docs),
    ensures
        set_docs(id_words(docs), from, n) == docs.take(ids_before(docs, from + n)),
    decreases n,
{
    lemma_ids_bounds(docs);
    lemma_ids_before(docs, from + n);
    let words = id_words(docs);
    if n == 0 {
        let k = ids_before(docs, from);
        if k > 0 {
            assert(docs[0] < from);
            assert(ids_min(docs) <= docs[0]);
        }
        assert(docs.take(0) =~= Seq::empty());
    } else {
        lemma_set_docs(docs, from, n - 1);
        lemma_ids_before(docs, from + n - 1);
        let x = from + n - 1;
        let w = (n - 1) / 64;
        let p = (n - 1) % 64;
        assert(64 * (ids_min(docs) as int / 64 + w) + p == x);
        lemma_bits_u64_bit(|p: int| has_id(docs, 64 * (ids_min(docs) as int / 64 + w) + p), p);
        assert(get_bit(words[w], p) == has_id(docs, x));
        let a = ids_before(docs, x);
        let b = ids_before(docs, x + 1);
        if has_id(docs, x) {
            let i = choose|i: int| 0 <= i < docs.len() && #[trigger] docs[i] == x;
            assert(i >= a) by {
                if i < a {
                    assert(docs[i] < x);
                }
            }
            assert(i == a) by {
                if a < i {
                    assert(docs[a] < docs[i]);
                    assert(docs[a] >= x);
                }
            }
            assert(b == a + 1) by {
                if b <= a {
                    assert(docs[a] >= x + 1);
                }
                if b > a + 1 {
                    assert(docs[a + 1] < x + 1);
                    assert(docs[a] < docs[a + 1]);
                }
            }
            assert(docs.take(b) =~= docs.take(a).push(docs[a]));
            assert(x <= u32::MAX);
            assert(low32(x) == docs[a]);
        } else {
            assert(b == a) by {
                if b > a {
                    assert(docs[a] >= x);
                    assert(docs[a] < x + 1);
                    assert(docs[a] == x);
                }
                if b < a {
                    assert(docs[b] < x);
                    assert(docs[b] >= x + 1);
                }
            }
        }
    }
}

proof fn lemma_bit_set_read(s: Seq<u8>, p: int, docs: Seq<u32>)
    requires
        docs.len() > 0,
        ids_ascend(docs),
        holds_at(s, p, seq![BITSET_IDS] + varint_bytes((ids_min(docs) / 64) as nat) + varint_bytes(word_count(docs) as nat) + uints_bytes(id_words(docs), 8)),
    ensures
        doc_ids_at(s, p, docs.len() as int) == Ok::<(Seq<u32>, int), ErrorKind>(
            (docs, p + (seq![BITSET_IDS] + varint_bytes((ids_min(docs) / 64) as nat) + varint_bytes(word_count(docs) as nat) + uints_bytes(id_words(docs), 8)).len()),
        ),
{
    let words = id_words(docs);
    let wc = word_count(docs);
    let (a, b, c, d) = (seq![BITSET_IDS], varint_bytes((ids_min(docs) / 64) as nat), varint_bytes(wc as nat), uints_bytes(words, 8));
    lemma_ids_bounds(docs);
    assert(ids_min(docs) <= docs[0] <= ids_max(docs));
    lemma_holds_concat(s, p, a + b + c, d);
    lemma_holds_concat(s, p, a + b, c);
    lemma_holds_concat(s, p, a, b);
    lemma_holds_byte(s, p, BITSET_IDS);
    lemma_read_u32(s, p + 1, (ids_min(docs) / 64) as u32);
    lemma_read_u32(s, p + 1 + b.len(), wc as u32);
    lemma_uints_len(words, 8);
    let f = p + 1 + b.len() + c.len();
    assert(take_at(s, f, 8 * wc) == Ok::<(Seq<u8>, int), ErrorKind>((d, f + d.len())));
    let got = uints_in(d, 8, wc);
    assert forall|i: int| 0 <= i < wc implies got[i] == words[i] by {
        lemma_pow2_widths();
        lemma_uints_round_trip(words, 8, i);
    }
    assert(got =~= words);
    lemma_set_docs(docs, 64 * (ids_min(docs) as int / 64), 64 * wc);
    let end = 64 * (ids_min(docs) as int / 64) + 64 * wc;
    lemma_ids_before(docs, end);
    if ids_before(docs, end) < docs.len() {
        assert(docs[ids_before(docs, end)] >= end);
        assert(docs[ids_before(docs, end)] <= ids_max(docs));
    }
    assert(docs.take(docs.len() as int) =~= docs);
}

proof fn lemma_delta16_read(s: Seq<u8>, p: int, docs: Seq<u32>)
    requires
        0 < docs.len(),
        ids_span(docs) <= 0xFFFF,
        holds_at(s, p, seq![DELTA_BPV_16] + varint_bytes(ids_min(docs) as nat) + uints_bytes(delta_pairs(docs), 4) + delta_tail(docs)),
    ensures
        doc_ids_at(s, p, docs.len() as int) == Ok::<(Seq<u32>, int), ErrorKind>(
            (docs, p + (seq![DELTA_BPV_16] + varint_bytes(ids_min(docs) as nat) + uints_bytes(delta_pairs(docs), 4) + delta_tail(docs)).len()),
        ),
{
    broadcast use lemma_le_bytes_len;
    let n = docs.len() as int;
    let half = n / 2;
    let min = ids_min(docs);
    let pairs = delta_pairs(docs);
    let (a, b, c, d) = (seq![DELTA_BPV_16], varint_bytes(min as nat), uints_bytes(pairs, 4), delta_tail(docs));
    lemma_ids_bounds(docs);
    lemma_holds_concat(s, p, a + b + c, d);
    lemma_holds_concat(s, p, a + b, c);
    lemma_holds_concat(s, p, a, b);
    lemma_holds_byte(s, p, DELTA_BPV_16);
    lemma_read_u32(s, p + 1, min);
    lemma_uints_len(pairs, 4);
    let e = p + 1 + b.len();
    lemma_holds_concat(s, e, c, d);
    let body = c + d;
    assert(take_at(s, e, 4 * half + 2 * (n % 2)) == Ok::<(Seq<u8>, int), ErrorKind>((body, e + body.len())));
    let got = Seq::new(n as nat, |i: int| delta_doc(body, min as int, n, i));
    assert forall|i: int| 0 <= i < n implies got[i] == docs[i] by {
        lemma_delta_doc(docs, i);
    }
    assert(got =~= docs);
}

proof fn lemma_delta_doc(docs: Seq<u32>, i: int)
    requires
        0 <= i < docs.len(),
        ids_span(docs) <= 0xFFFF,
    ensures
        delta_doc(uints_bytes(delta_pairs(docs), 4) + delta_tail(docs), ids_min(docs) as int, docs.len() as int, i) == docs[i],
{
    broadcast use lemma_le_bytes_len;
    let n = docs.len() as int;
    let half = n / 2;
    let min = ids_min(docs);
    let pairs = delta_pairs(docs);
    let c = uints_bytes(pairs, 4);
    let body = c + delta_tail(docs);
    lemma_ids_bounds(docs);
    lemma_uints_len(pairs, 4);
    lemma_pow2_widths();
    assert(min <= docs[i] <= ids_max(docs));
    if i < 2 * half {
        let k = if i < half { i } else { i - half };
        assert(min <= docs[k] <= ids_max(docs));
        assert(min <= docs[half + k] <= ids_max(docs));
        let (x, y) = (docs[k] - min, docs[half + k] - min);
        assert(pairs[k] == x * 65536 + y);
        lemma_uints_round_trip(pairs, 4, k);
        assert(body.subrange(4 * k, 4 * k + 4) =~= c.subrange(4 * k, 4 * k + 4));
        assert((x * 65536 + y) / 65536 == x && (x * 65536 + y) % 65536 == y);
    } else {
        assert(body.subrange(4 * half, 4 * half + 2) =~= le_bytes((docs.last() - min) as nat, 2));
        lemma_le_round_trip((docs.last() - min) as nat, 2);
    }
}

proof fn lemma_loose24_len(docs: Seq<u32>, from: int, to: int)
    requires
        from <= to,
    ensures
        loose24(docs, from, to).len() == 3 * (to - from),
    decreases to - from,
{
    broadcast use lemma_le_bytes_len;
    if from < to {
        lemma_loose24_len(docs, from, to - 1);
    }
}

proof fn lemma_loose24_at(docs: Seq<u32>, from: int, to: int, i: int)
    requires
        from <= i < to,
        docs[i] <= 0xFF_FFFF,
    ensures
        le_nat(loose24(docs, from, to).subrange(3 * (i - from), 3 * (i - from) + 2)) == docs[i] / 256,
        loose24(docs, from, to)[3 * (i - from) + 2] == docs[i] % 256,
        loose24(docs, from, to).len() == 3 * (to - from),
    decreases to - from,
{
    broadcast use lemma_le_bytes_len;
    lemma_loose24_len(docs, from, to);
    lemma_loose24_len(docs, from, to - 1);
    let s = loose24(docs, from, to);
    let d = loose24(docs, from, to - 1);
    let k = 3 * (i - from);
    if i < to - 1 {
        lemma_loose24_at(docs, from, to - 1, i);
        assert(s.subrange(k, k + 2) =~= d.subrange(k, k + 2));
    } else {
        assert(s.subrange(k, k + 2) =~= le_bytes((docs[i] / 256) as nat, 2));
        lemma_pow2_widths();
        lemma_le_round_trip((docs[i] / 256) as nat, 2);
    }
}

/// What the first of three longs holds.
proof fn lemma_lane1(a: int, b: int, c: int)
    requires
        0 <= a < 0x100_0000,
        0 <= b < 0x100_0000,
        0 <= c < 0x1_0000,
    ensures
        ({
            let l = a * 0x100_0000_0000 + b * 0x1_0000 + c;
            &&& 0 <= l < 0x1_0000_0000_0000_0000
            &&& l / 0x100_0000_0000 == a
            &&& l / 0x1_0000 % 0x100_0000 == b
            &&& l % 0x1_0000 == c
        }),
{
    let l = a * 0x100_0000_0000 + b * 0x1_0000 + c;
    lemma_div_mod_is(l, 0x100_0000_0000, a, b * 0x1_0000 + c);
    lemma_div_mod_is(l, 0x1_0000, a * 0x100_0000 + b, c);
    lemma_div_mod_is(a * 0x100_0000 + b, 0x100_0000, a, b);
}

/// What the second of three longs holds.
proof fn lemma_lane2(a: int, b: int, c: int, d: int)
    requires
        0 <= a < 0x100,
        0 <= b < 0x100_0000,
        0 <= c < 0x100_0000,
        0 <= d < 0x100,
    ensures
        ({
            let l = a * 0x100_0000_0000_0000 + b * 0x1_0000_0000 + c * 0x100 + d;
            &&& 0 <= l < 0x1_0000_0000_0000_0000
            &&& l / 0x100_0000_0000_0000 == a
            &&& l / 0x1_0000_0000 % 0x100_0000 == b
            &&& l / 256 % 0x100_0000 == c
            &&& l % 256 == d
        }),
{
    let l = a * 0x100_0000_0000_0000 + b * 0x1_0000_0000 + c * 0x100 + d;
    lemma_div_mod_is(l, 0x100_0000_0000_0000, a, b * 0x1_0000_0000 + c * 0x100 + d);
    lemma_div_mod_is(l, 0x1_0000_0000, a * 0x100_0000 + b, c * 0x100 + d);
    lemma_div_mod_is(a * 0x100_0000 + b, 0x100_0000, a, b);
    let m = a * 0x100_0000 + b;
    lemma_div_mod_is(l, 256, m * 0x100_0000 + c, d);
    lemma_div_mod_is(m * 0x100_0000 + c, 0x100_0000, m, c);
}

/// What the last of three longs holds.
proof fn lemma_lane3(a: int, b: int, c: int)
    requires
        0 <= a < 0x1_0000,
        0 <= b < 0x100_0000,
        0 <= c < 0x100_0000,
    ensures
        ({
            let l = a * 0x1_0000_0000_0000 + b * 0x100_0000 + c;
            &&& 0 <= l < 0x1_0000_0000_0000_0000
            &&& l / 0x1_0000_0000_0000 == a
            &&& l / 0x100_0000 % 0x100_0000 == b
            &&& l % 0x100_0000 == c
        }),
{
    let l = a * 0x1_0000_0000_0000 + b * 0x100_0000 + c;
    lemma_div_mod_is(l, 0x1_0000_0000_0000, a, b * 0x100_0000 + c);
    lemma_div_mod_is(l, 0x100_0000, a * 0x100_0000 + b, c);
    lemma_div_mod_is(a * 0x100_0000 + b, 0x100_0000, a, b);
}

/// Eight documents come out of three longs again.
proof fn lemma_lanes(d0: int, d1: int, d2: int, d3: int, d4: int, d5: int, d6: int, d7: int)
    requires
        0 <= d0 < 0x100_0000,
        0 <= d1 < 0x100_0000,
        0 <= d2 < 0x100_0000,
        0 <= d3 < 0x100_0000,
        0 <= d4 < 0x100_0000,
        0 <= d5 < 0x100_0000,
        0 <= d6 < 0x100_0000,
        0 <= d7 < 0x100_0000,
    ensures
        ({
            let l1 = d0 * 0x100_0000_0000 + d1 * 0x1_0000 + d2 / 256;
            let l2 = (d2 % 256) * 0x100_0000_0000_0000 + d3 * 0x1_0000_0000 + d4 * 0x100 + d5 / 65536;
            let l3 = (d5 % 65536) * 0x1_0000_0000_0000 + d6 * 0x100_0000 + d7;
            &&& 0 <= l1 < 0x1_0000_0000_0000_0000
            &&& 0 <= l2 < 0x1_0000_0000_0000_0000
            &&& 0 <= l3 < 0x1_0000_0000_0000_0000
            &&& l1 / 0x100_0000_0000 == d0
            &&& l1 / 0x1_0000 % 0x100_0000 == d1
            &&& (l1 % 0x1_0000) * 256 + l2 / 0x100_0000_0000_0000 == d2
            &&& l2 / 0x1_0000_0000 % 0x100_0000 == d3
            &&& l2 / 256 % 0x100_0000 == d4
            &&& (l2 % 256) * 65536 + l3 / 0x1_0000_0000_0000 == d5
            &&& l3 / 0x100_0000 % 0x100_0000 == d6
            &&& l3 % 0x100_0000 == d7
        }),
{
    lemma_lane1(d0, d1, d2 / 256);
    lemma_lane2(d2 % 256, d3, d4, d5 / 65536);
    lemma_lane3(d5 % 65536, d6, d7);
}

proof fn lemma_bpv24_read(s: Seq<u8>, p: int, docs: Seq<u32>)
    requires
        0 < docs.len(),
        ids_max(docs) <= 0xFF_FFFF,
        holds_at(s, p, seq![BPV_24] + uints_bytes(lanes24(docs), 8) + loose24(docs, 8 * (docs.len() as int / 8), docs.len() as int)),
    ensures
        doc_ids_at(s, p, docs.len() as int) == Ok::<(Seq<u32>, int), ErrorKind>(
            (docs, p + (seq![BPV_24] + uints_bytes(lanes24(docs), 8) + loose24(docs, 8 * (docs.len() as int / 8), docs.len() as int)).len()),
        ),
{
    let n = docs.len() as int;
    let lanes = lanes24(docs);
    let from = 8 * (n / 8);
    let (a, b, c) = (seq![BPV_24], uints_bytes(lanes, 8), loose24(docs, from, n));
    lemma_ids_bounds(docs);
    lemma_holds_concat(s, p, a + b, c);
    lemma_holds_concat(s, p, a, b);
    lemma_holds_byte(s, p, BPV_24);
    lemma_holds_concat(s, p + 1, b, c);
    lemma_uints_len(lanes, 8);
    lemma_loose24_len(docs, from, n);
    let body = b + c;
    assert(take_at(s, p + 1, 3 * n) == Ok::<(Seq<u8>, int), ErrorKind>((body, p + 1 + body.len())));
    let got = Seq::new(n as nat, |i: int| doc24(body, n, i));
    assert forall|i: int| 0 <= i < n implies got[i] == docs[i] by {
        assert(docs[i] <= ids_max(docs));
        if i / 8 < n / 8 {
            lemma_lane_docs(docs, i);
            let g = i / 8;
            assert(body.subrange(8 * (3 * g), 8 * (3 * g) + 8) =~= b.subrange(8 * (3 * g), 8 * (3 * g) + 8));
            assert(body.subrange(8 * (3 * g + 1), 8 * (3 * g + 1) + 8) =~= b.subrange(8 * (3 * g + 1), 8 * (3 * g + 1) + 8));
            assert(body.subrange(8 * (3 * g + 2), 8 * (3 * g + 2) + 8) =~= b.subrange(8 * (3 * g + 2), 8 * (3 * g + 2) + 8));
        } else {
            lemma_loose24_at(docs, from, n, i);
            let q = 24 * (n / 8) + 3 * (i - from);
            assert(b.len() == 24 * (n / 8));
            assert(body.subrange(q, q + 2) =~= c.subrange(3 * (i - from), 3 * (i - from) + 2));
            assert(body[q + 2] == c[3 * (i - from) + 2]);
        }
    }
    assert(got =~= docs);
}

proof fn lemma_lane_docs(docs: Seq<u32>, i: int)
    requires
        0 <= i < docs.len(),
        i / 8 < docs.len() as int / 8,
        forall|k: int| 0 <= k < docs.len() ==> #[trigger] docs[k] <= 0xFF_FFFF,
    ensures
        doc24(uints_bytes(lanes24(docs), 8), docs.len() as int, i) == docs[i],
        uints_bytes(lanes24(docs), 8).len() >= 24 * (i / 8) + 24,
{
    let lanes = lanes24(docs);
    let b = uints_bytes(lanes, 8);
    let g = i / 8;
    let j = 8 * g;
    lemma_uints_len(lanes, 8);
    lemma_pow2_widths();
    assert((3 * g) / 3 == g && (3 * g) % 3 == 0 && (3 * g + 1) / 3 == g && (3 * g + 1) % 3 == 1 && (3 * g + 2) / 3 == g && (3 * g + 2) % 3 == 2);
    assert(docs[j] <= 0xFF_FFFF && docs[j + 1] <= 0xFF_FFFF && docs[j + 2] <= 0xFF_FFFF && docs[j + 3] <= 0xFF_FFFF && docs[j + 4] <= 0xFF_FFFF && docs[j + 5] <= 0xFF_FFFF && docs[j + 6]
        <= 0xFF_FFFF && docs[j + 7] <= 0xFF_FFFF);
    lemma_lanes(docs[j] as int, docs[j + 1] as int, docs[j + 2] as int, docs[j + 3] as int, docs[j + 4] as int, docs[j + 5] as int, docs[j + 6] as int, docs[j + 7] as int);
    assert(lanes[3 * g] == lane24(docs, 3 * g));
    assert(lanes[3 * g + 1] == lane24(docs, 3 * g + 1));
    assert(lanes[3 * g + 2] == lane24(docs, 3 * g + 2));
    lemma_uints_round_trip(lanes, 8, 3 * g);
    lemma_uints_round_trip(lanes, 8, 3 * g + 1);
    lemma_uints_round_trip(lanes, 8, 3 * g + 2);
    assert(i == j + i % 8);
}

/// A run of documents is read back.
proof fn lemma_run_read(s: Seq<u8>, p: int, docs: Seq<u32>)
    requires
        0 < docs.len(),
        ids_ascend(docs),
        ids_span(docs) == docs.len(),
        holds_at(s, p, seq![CONTINUOUS_IDS] + varint_bytes(docs[0] as nat)),
    ensures
        doc_ids_at(s, p, docs.len() as int) == Ok::<(Seq<u32>, int), ErrorKind>((docs, p + (seq![CONTINUOUS_IDS] + varint_bytes(docs[0] as nat)).len())),
{
    let n = docs.len() as int;
    lemma_holds_concat(s, p, seq![CONTINUOUS_IDS], varint_bytes(docs[0] as nat));
    lemma_holds_byte(s, p, CONTINUOUS_IDS);
    lemma_read_u32(s, p + 1, docs[0]);
    lemma_ascending_ends(docs);
    let got = Seq::new(n as nat, |i: int| low32(docs[0] + i));
    assert forall|i: int| 0 <= i < n implies got[i] == docs[i] by {
        lemma_ascending_gap(docs, 0, i);
        lemma_ascending_gap(docs, i, n - 1);
    }
    assert(got =~= docs);
}

/// Documents of 32 bits are read back.
proof fn lemma_bpv32_read(s: Seq<u8>, p: int, docs: Seq<u32>)
    requires
        0 < docs.len(),
        holds_at(s, p, seq![BPV_32] + uints_bytes(wide_ids(docs), 4)),
    ensures
        doc_ids_at(s, p, docs.len() as int) == Ok::<(Seq<u32>, int), ErrorKind>((docs, p + (seq![BPV_32] + uints_bytes(wide_ids(docs), 4)).len())),
{
    let n = docs.len() as int;
    let wide = wide_ids(docs);
    let b = uints_bytes(wide, 4);
    lemma_holds_concat(s, p, seq![BPV_32], b);
    lemma_holds_byte(s, p, BPV_32);
    lemma_uints_len(wide, 4);
    let got = Seq::new(n as nat, |i: int| uint_in(b, 4, i) as u32);
    assert forall|i: int| 0 <= i < n implies got[i] == docs[i] by {
        lemma_pow2_widths();
        lemma_uints_round_trip(wide, 4, i);
    }
    assert(got =~= docs);
}

/// Which form documents take: a run, a bit set where they fill a sixteenth of
/// their span, 16 bits from the least on, 24 bits, 32 bits.
pub proof fn law_doc_ids_form(docs: Seq<u32>)
    requires
        0 < docs.len(),
    ensures
        doc_ids_bytes(docs)[0] == if ids_ascend(docs) && ids_span(docs) == docs.len() {
            CONTINUOUS_IDS
        } else if ids_ascend(docs) && ids_span(docs) <= 16 * docs.len() {
            BITSET_IDS
        } else if ids_span(docs) <= 0xFFFF {
            DELTA_BPV_16
        } else if ids_max(docs) <= 0xFF_FFFF {
            BPV_24
        } else {
            BPV_32
        },
{
}

/// Documents that were written are read back, whichever form they took.
pub proof fn law_doc_ids_round_trip(s: Seq<u8>, p: int, docs: Seq<u32>)
    requires
        0 < docs.len(),
        holds_at(s, p, doc_ids_bytes(docs)),
    ensures
        doc_ids_at(s, p, docs.len() as int) == Ok::<(Seq<u32>, int), ErrorKind>((docs, p + doc_ids_bytes(docs).len())),
{
    let n = docs.len() as int;
    if ids_ascend(docs) && ids_span(docs) == n {
        lemma_run_read(s, p, docs);
    } else if ids_ascend(docs) && ids_span(docs) <= 16 * n {
        lemma_bit_set_read(s, p, docs);
    } else if ids_span(docs) <= 0xFFFF {
        lemma_delta16_read(s, p, docs);
    } else if ids_max(docs) <= 0xFF_FFFF {
        lemma_bpv24_read(s, p, docs);
    } else {
        lemma_bpv32_read(s, p, docs);
    }
}

} // verus!
