//! Low-level encodings of postings: group-varints, packed blocks with and
//! without patches, and the odd-sized numbers of skip data.

use crate::bits::{bit_len, bits_required, lemma_bit_len, lemma_split_join, low_bits};
use crate::bytes::{
    byte_at, holds_at, law_short_round_trip, law_vint_round_trip, law_vlong_round_trip, le_bytes, le_nat, le_u64, le_vec, lemma_holds_concat, lemma_holds_index, lemma_le_bytes_len,
    lemma_le_round_trip, lemma_pow2_widths, short_at, take_at, varint_bytes, vint_at, vlong_at,
};
use crate::error::{outcome, Error, ErrorKind};
use crate::for_util::{block_at, fits, for_util_decode_primitive, for_util_encode_primitive, law_block_round_trip, lemma_longs_len, longs_bytes, packed_longs};
use crate::io::{DataInput, DataOutput};
use crate::num::{spec_to_i16, spec_to_i32, spec_to_u16, spec_to_u32, to_i16, to_u16, to_u32};
use vstd::arithmetic::power2::{lemma2_to64, lemma2_to64_rest, lemma_pow2_adds, lemma_pow2_pos, lemma_pow2_strictly_increases, pow2};
use vstd::bits::{lemma_u64_shl_is_mul, lemma_u64_shr_is_div};
use vstd::prelude::*;

pub use crate::for_util::BLOCK_SIZE;

verus! {

/// A block holds at most this many patched values.
pub const MAX_EXCEPTIONS: usize = 7;

// ---------------------------------------------------------------------------
// Group-varints
// ---------------------------------------------------------------------------

/// The number of bytes that `v` takes in a group.
pub open spec fn group_size(v: u32) -> nat {
    if v < 0x100 {
        1
    } else if v < 0x1_0000 {
        2
    } else if v < 0x100_0000 {
        3
    } else {
        4
    }
}

/// Two bits per value: its size less one, the first value's on top.
pub open spec fn group_flag(a: u32, b: u32, c: u32, d: u32) -> u8 {
    ((group_size(a) - 1) * 64 + (group_size(b) - 1) * 16 + (group_size(c) - 1) * 4 + (group_size(d) - 1)) as u8
}

/// One value of a group.
pub open spec fn group_value(v: u32) -> Seq<u8> {
    le_bytes(v as nat, group_size(v))
}

/// Four values: the flag byte, then each value on as few bytes as it takes.
pub open spec fn group_bytes(a: u32, b: u32, c: u32, d: u32) -> Seq<u8> {
    seq![group_flag(a, b, c, d)] + group_value(a) + group_value(b) + group_value(c) + group_value(d)
}

/// Groups of four while there are four values, then variable-length ints.
pub open spec fn group_vints_bytes(values: Seq<u32>) -> Seq<u8>
    decreases values.len(),
{
    if values.len() >= 4 {
        group_bytes(values[0], values[1], values[2], values[3]) + group_vints_bytes(values.skip(4))
    } else if values.len() > 0 {
        varint_bytes(values[0] as nat) + group_vints_bytes(values.skip(1))
    } else {
        Seq::empty()
    }
}

fn value_size(v: u32) -> (n: usize)
    ensures
        n == group_size(v),
        1 <= n <= 4,
{
    if v < 0x100 {
        1
    } else if v < 0x1_0000 {
        2
    } else if v < 0x100_0000 {
        3
    } else {
        4
    }
}

/// Writes `values` in groups of four, the tail as variable-length ints.
pub fn write_group_vints<O: DataOutput>(out: &mut O, values: &[u32]) -> (r: Result<(), Error>)
    ensures
        final(out).since() == old(out).since(),
        r is Ok,
        final(out).written() == old(out).written() + group_vints_bytes(values@),
{
    let n: usize = values.len();
    let ghost v = values@;
    let ghost base = out.written();
    let mut i: usize = 0;
    assert(v.skip(0) =~= v);
    while n - i >= 4
        invariant
            out.since() == old(out).since(),
            i <= n == v.len(),
            v == values@,
            out.written() + group_vints_bytes(v.skip(i as int)) == base + group_vints_bytes(v),
        decreases n - i,
    {
        let (a, b, c, d) = (values[i], values[i + 1], values[i + 2], values[i + 3]);
        let (sa, sb, sc, sd) = (value_size(a), value_size(b), value_size(c), value_size(d));
        let flag: usize = (sa - 1) * 64 + (sb - 1) * 16 + (sc - 1) * 4 + (sd - 1);
        let ghost before = out.written();
        out.write_byte(flag as u8)?;
        out.write_bytes(&le_vec(a as u64, sa))?;
        out.write_bytes(&le_vec(b as u64, sb))?;
        out.write_bytes(&le_vec(c as u64, sc))?;
        out.write_bytes(&le_vec(d as u64, sd))?;
        proof {
            let rest = v.skip(i as int);
            assert(rest.skip(4) =~= v.skip(i + 4));
            assert(out.written() =~= before + group_bytes(a, b, c, d));
            assert(out.written() + group_vints_bytes(v.skip(i + 4)) =~= before + group_vints_bytes(rest));
        }
        i = i + 4;
    }
    while i < n
        invariant
            out.since() == old(out).since(),
            i <= n == v.len(),
            n - i < 4,
            v == values@,
            out.written() + group_vints_bytes(v.skip(i as int)) == base + group_vints_bytes(v),
        decreases n - i,
    {
        let ghost before = out.written();
        out.write_varint(values[i] as u64)?;
        proof {
            let rest = v.skip(i as int);
            assert(rest.skip(1) =~= v.skip(i + 1));
            assert(out.written() + group_vints_bytes(v.skip(i + 1)) =~= before + group_vints_bytes(rest));
        }
        i = i + 1;
    }
    assert(v.skip(n as int) =~= Seq::<u32>::empty());
    assert(out.written() =~= base + group_vints_bytes(v));
    Ok(())
}

/// The value of `size` bytes at `p`.
pub open spec fn sized_at(s: Seq<u8>, p: int, size: int) -> Result<(u32, int), ErrorKind> {
    match take_at(s, p, size) {
        Ok((b, q)) => Ok((le_nat(b) as u32, q)),
        Err(k) => Err(k),
    }
}

/// The values of a group whose flag is `flag`, from the `i`-th on.
pub open spec fn group_at(s: Seq<u8>, p: int, flag: u8, i: int, acc: Seq<u32>) -> Result<(Seq<u32>, int), ErrorKind>
    decreases 4 - i,
{
    if i >= 4 {
        Ok((acc, p))
    } else {
        let size = if i == 0 { flag / 64 } else if i == 1 { flag / 16 % 4 } else if i == 2 { flag / 4 % 4 } else { flag % 4 } + 1;
        match sized_at(s, p, size as int) {
            Ok((v, q)) => group_at(s, q, flag, i + 1, acc.push(v)),
            Err(k) => Err(k),
        }
    }
}

/// `n` values at `p`, appended to `acc`.
pub open spec fn group_vints_at(s: Seq<u8>, p: int, n: nat, acc: Seq<u32>) -> Result<(Seq<u32>, int), ErrorKind>
    decreases n,
{
    if n >= 4 {
        match byte_at(s, p) {
            Ok((flag, q)) => match group_at(s, q, flag, 0, acc) {
                Ok((a, e)) => group_vints_at(s, e, (n - 4) as nat, a),
                Err(k) => Err(k),
            },
            Err(k) => Err(k),
        }
    } else if n > 0 {
        match vint_at(s, p) {
            Ok((v, q)) => group_vints_at(s, q, (n - 1) as nat, acc.push(spec_to_u32(v))),
            Err(k) => Err(k),
        }
    } else {
        Ok((acc, p))
    }
}

fn read_sized<I: DataInput>(input: &mut I, size: u8) -> (r: Result<u32, Error>)
    requires
        size <= 4,
    ensures
        final(input).bytes() == old(input).bytes(),
        final(input).fixed() == old(input).fixed(),
        outcome(r, final(input).pos(), sized_at(old(input).bytes(), old(input).pos(), size as int)),
{
    let b = input.read_vec(size as u64)?;
    proof {
        assert(b@.subrange(0, size as int) =~= b@);
        lemma_pow2_widths();
        if size < 4 {
            lemma_pow2_strictly_increases(8 * size as nat, 32);
        }
    }
    Ok(le_u64(&b, 0, size as usize) as u32)
}

/// Fills `values`: groups of four behind a flag byte, the tail as
/// variable-length ints.
pub fn read_group_vints<I: DataInput>(input: &mut I, values: &mut [u32]) -> (r: Result<(), Error>)
    ensures
        final(input).bytes() == old(input).bytes(),
        final(input).fixed() == old(input).fixed(),
        final(values)@.len() == old(values)@.len(),
        match group_vints_at(old(input).bytes(), old(input).pos(), old(values)@.len(), Seq::empty()) {
            Ok((v, q)) => r is Ok && final(values)@ == v && final(input).pos() == q,
            Err(k) => r is Err && r->Err_0.kind == k,
        },
{
    let n: usize = values.len();
    let ghost (s, p0) = (input.bytes(), input.pos());
    let mut i: usize = 0;
    assert(values@.subrange(0, 0) =~= Seq::<u32>::empty());
    while n - i >= 4
        invariant
            i <= n == values@.len(),
            n == old(values)@.len(),
            s == old(input).bytes(),
            p0 == old(input).pos(),
            input.bytes() == s,
            input.fixed() == old(input).fixed(),
            group_vints_at(s, p0, n as nat, Seq::empty()) == group_vints_at(s, input.pos(), (n - i) as nat, values@.subrange(0, i as int)),
        decreases n - i,
    {
        let ghost acc = values@.subrange(0, i as int);
        let flag: u8 = input.read_byte()?;
        let ghost q = input.pos();
        let a: u32 = read_sized(input, flag / 64 + 1)?;
        let b: u32 = read_sized(input, flag / 16 % 4 + 1)?;
        let c: u32 = read_sized(input, flag / 4 % 4 + 1)?;
        let d: u32 = read_sized(input, flag % 4 + 1)?;
        values[i] = a;
        values[i + 1] = b;
        values[i + 2] = c;
        values[i + 3] = d;
        proof {
            let now = acc.push(a).push(b).push(c).push(d);
            reveal_with_fuel(group_at, 5);
            assert(group_at(s, q, flag, 0, acc) == Ok::<(Seq<u32>, int), ErrorKind>((now, input.pos())));
            assert(values@.subrange(0, i + 4) =~= now);
        }
        i = i + 4;
    }
    while i < n
        invariant
            i <= n == values@.len(),
            n == old(values)@.len(),
            n - i < 4,
            s == old(input).bytes(),
            p0 == old(input).pos(),
            input.bytes() == s,
            input.fixed() == old(input).fixed(),
            group_vints_at(s, p0, n as nat, Seq::empty()) == group_vints_at(s, input.pos(), (n - i) as nat, values@.subrange(0, i as int)),
        decreases n - i,
    {
        let ghost acc = values@.subrange(0, i as int);
        let v: i32 = input.read_vint()?;
        values[i] = to_u32(v);
        assert(values@.subrange(0, i + 1) =~= acc.push(to_u32(v)));
        i = i + 1;
    }
    assert(values@.subrange(0, n as int) =~= values@);
    Ok(())
}

proof fn lemma_group_value(s: Seq<u8>, p: int, v: u32)
    requires
        holds_at(s, p, group_value(v)),
    ensures
        sized_at(s, p, group_size(v) as int) == Ok::<(u32, int), ErrorKind>((v, p + group_size(v))),
{
    broadcast use lemma_le_bytes_len;
    lemma_pow2_widths();
    lemma_le_round_trip(v as nat, group_size(v));
}

proof fn lemma_group_flag(a: u32, b: u32, c: u32, d: u32)
    ensures
        group_flag(a, b, c, d) / 64 + 1 == group_size(a),
        group_flag(a, b, c, d) / 16 % 4 + 1 == group_size(b),
        group_flag(a, b, c, d) / 4 % 4 + 1 == group_size(c),
        group_flag(a, b, c, d) % 4 + 1 == group_size(d),
{
    let (x, y, z, w) = (group_size(a) - 1, group_size(b) - 1, group_size(c) - 1, group_size(d) - 1);
    let f = x * 64 + y * 16 + z * 4 + w;
    assert(0 <= x < 4 && 0 <= y < 4 && 0 <= z < 4 && 0 <= w < 4);
    assert(f / 64 == x && f / 16 % 4 == y && f / 4 % 4 == z && f % 4 == w);
}

/// A group that was written is read back.
proof fn lemma_group_round_trip(s: Seq<u8>, p: int, a: u32, b: u32, c: u32, d: u32, acc: Seq<u32>)
    requires
        holds_at(s, p, group_bytes(a, b, c, d)),
    ensures
        byte_at(s, p) == Ok::<(u8, int), ErrorKind>((group_flag(a, b, c, d), p + 1)),
        group_at(s, p + 1, group_flag(a, b, c, d), 0, acc) == Ok::<(Seq<u32>, int), ErrorKind>(
            (acc.push(a).push(b).push(c).push(d), p + group_bytes(a, b, c, d).len()),
        ),
{
    let flag = group_flag(a, b, c, d);
    let head = seq![flag];
    lemma_holds_concat(s, p, head + group_value(a) + group_value(b) + group_value(c), group_value(d));
    lemma_holds_concat(s, p, head + group_value(a) + group_value(b), group_value(c));
    lemma_holds_concat(s, p, head + group_value(a), group_value(b));
    lemma_holds_concat(s, p, head, group_value(a));
    lemma_holds_index(s, p, head, 0);
    lemma_le_bytes_len(a as nat, group_size(a));
    lemma_le_bytes_len(b as nat, group_size(b));
    lemma_le_bytes_len(c as nat, group_size(c));
    lemma_le_bytes_len(d as nat, group_size(d));
    lemma_group_flag(a, b, c, d);
    let (pa, pb) = (p + 1, p + 1 + group_size(a));
    let (pc, pd) = (pb + group_size(b), pb + group_size(b) + group_size(c));
    lemma_group_value(s, pa, a);
    lemma_group_value(s, pb, b);
    lemma_group_value(s, pc, c);
    lemma_group_value(s, pd, d);
    let pe = pd + group_size(d);
    assert(group_at(s, pa, flag, 0, acc) == group_at(s, pb, flag, 1, acc.push(a)));
    assert(group_at(s, pb, flag, 1, acc.push(a)) == group_at(s, pc, flag, 2, acc.push(a).push(b)));
    assert(group_at(s, pc, flag, 2, acc.push(a).push(b)) == group_at(s, pd, flag, 3, acc.push(a).push(b).push(c)));
    assert(group_at(s, pd, flag, 3, acc.push(a).push(b).push(c)) == group_at(s, pe, flag, 4, acc.push(a).push(b).push(c).push(d)));
}

/// Group-varints that were written are read back.
pub proof fn law_group_vints_round_trip(s: Seq<u8>, p: int, values: Seq<u32>, acc: Seq<u32>)
    requires
        holds_at(s, p, group_vints_bytes(values)),
    ensures
        group_vints_at(s, p, values.len(), acc) == Ok::<(Seq<u32>, int), ErrorKind>((acc + values, p + group_vints_bytes(values).len())),
    decreases values.len(),
{
    if values.len() >= 4 {
        let (a, b, c, d) = (values[0], values[1], values[2], values[3]);
        let rest = values.skip(4);
        lemma_holds_concat(s, p, group_bytes(a, b, c, d), group_vints_bytes(rest));
        lemma_group_round_trip(s, p, a, b, c, d, acc);
        let now = acc.push(a).push(b).push(c).push(d);
        law_group_vints_round_trip(s, p + group_bytes(a, b, c, d).len(), rest, now);
        assert(now + rest =~= acc + values);
    } else if values.len() > 0 {
        let v = values[0];
        let rest = values.skip(1);
        lemma_holds_concat(s, p, varint_bytes(v as nat), group_vints_bytes(rest));
        assert(spec_to_u32(spec_to_i32(v)) == v);
        law_vint_round_trip(s, p, spec_to_i32(v));
        law_group_vints_round_trip(s, p + varint_bytes(v as nat).len(), rest, acc.push(v));
        assert(acc.push(v) + rest =~= acc + values);
    } else {
        assert(acc + values =~= acc);
    }
}

// ---------------------------------------------------------------------------
// Packed blocks
// ---------------------------------------------------------------------------

/// The lane width for values of `b` bits.
pub open spec fn for_lane(b: int) -> int {
    if b <= 8 {
        8
    } else if b <= 16 {
        16
    } else {
        32
    }
}

/// A block of values of `b` bits each; nothing for 0 bits.
pub open spec fn for_bytes(values: Seq<u64>, b: int) -> Seq<u8> {
    if b == 0 {
        Seq::empty()
    } else {
        longs_bytes(packed_longs(values, b, for_lane(b)))
    }
}

/// The block of values of `b` bits each at `p`.
pub open spec fn for_at(s: Seq<u8>, p: int, b: int) -> Result<(Seq<u64>, int), ErrorKind> {
    if b == 0 {
        Ok((Seq::new(128, |k: int| 0u64), p))
    } else if b > 32 {
        Err(ErrorKind::InvalidData)
    } else {
        block_at(s, p, b, for_lane(b))
    }
}

/// Packs 128 values of `bpv` bits each; 0 bits write nothing.
pub fn for_util_encode<O: DataOutput>(out: &mut O, values: &[u64; 128], bpv: u8) -> (r: Result<(), Error>)
    requires
        bpv <= 32,
        fits(values@, bpv as int),
    ensures
        final(out).since() == old(out).since(),
        r is Ok,
        final(out).written() == old(out).written() + for_bytes(values@, bpv as int),
{
    if bpv == 0 {
        assert(out.written() + Seq::<u8>::empty() =~= out.written());
        return Ok(());
    }
    let lane: u32 = if bpv <= 8 { 8 } else if bpv <= 16 { 16 } else { 32 };
    for_util_encode_primitive(out, values, bpv as u32, lane)
}

/// Unpacks 128 values of `bpv` bits each.
pub fn for_util_decode<I: DataInput>(input: &mut I, values: &mut [u64; 128], bpv: u8) -> (r: Result<(), Error>)
    ensures
        final(input).bytes() == old(input).bytes(),
        final(input).fixed() == old(input).fixed(),
        match for_at(old(input).bytes(), old(input).pos(), bpv as int) {
            Ok((v, q)) => r is Ok && final(values)@ == v && final(input).pos() == q,
            Err(k) => r is Err && r->Err_0.kind == k,
        },
        bpv > 32 ==> final(input).pos() == old(input).pos() && final(values)@ == old(values)@,
{
    if bpv == 0 {
        fill_block(values, 0);
        return Ok(());
    }
    if bpv > 32 {
        return Err(Error::new(ErrorKind::InvalidData, "at most 32 bits per value can be packed"));
    }
    let lane: u32 = if bpv <= 8 { 8 } else if bpv <= 16 { 16 } else { 32 };
    for_util_decode_primitive(input, values, bpv as u32, lane)
}

fn fill_block(values: &mut [u64; 128], v: u64)
    ensures
        final(values)@ == Seq::new(128, |k: int| v),
{
    let mut k: usize = 0;
    while k < 128
        invariant
            k <= 128,
            forall|i: int| 0 <= i < k ==> values@[i] == v,
        decreases 128 - k,
    {
        values[k] = v;
        k = k + 1;
    }
    assert(values@ =~= Seq::new(128, |k: int| v));
}

/// A block of values of `b` bits that was written is read back.
pub proof fn law_for_util_round_trip(s: Seq<u8>, p: int, values: Seq<u64>, b: int)
    requires
        0 <= b <= 32,
        values.len() == 128,
        fits(values, b),
        holds_at(s, p, for_bytes(values, b)),
    ensures
        for_at(s, p, b) == Ok::<(Seq<u64>, int), ErrorKind>((values, p + 16 * b)),
{
    if b == 0 {
        lemma2_to64();
        assert(values =~= Seq::new(128, |k: int| 0u64)) by {
            assert forall|k: int| 0 <= k < 128 implies values[k] == 0 by {
                assert(values[k] < pow2(0));
            }
        }
    } else {
        law_block_round_trip(s, p, values, b, for_lane(b));
    }
}

/// The largest value.
pub open spec fn seq_max(values: Seq<u64>) -> u64
    decreases values.len(),
{
    if values.len() == 0 {
        0
    } else {
        let m = seq_max(values.drop_last());
        if values.last() > m {
            values.last()
        } else {
            m
        }
    }
}

pub proof fn lemma_seq_max(values: Seq<u64>)
    ensures
        forall|k: int| 0 <= k < values.len() ==> #[trigger] values[k] <= seq_max(values),
        seq_max(values) == 0 || exists|k: int| 0 <= k < values.len() && #[trigger] values[k] == seq_max(values),
    decreases values.len(),
{
    if values.len() > 0 {
        let d = values.drop_last();
        lemma_seq_max(d);
        assert forall|k: int| 0 <= k < values.len() implies #[trigger] values[k] <= seq_max(values) by {
            if k < d.len() {
                assert(d[k] <= seq_max(d));
            }
        }
        if seq_max(values) != 0 {
            if values.last() > seq_max(d) {
                assert(values[values.len() - 1] == seq_max(values));
            } else {
                let k = choose|k: int| 0 <= k < d.len() && #[trigger] d[k] == seq_max(d);
                assert(values[k] == seq_max(values));
            }
        }
    }
}

/// The width of the largest value is a width that fits all.
pub proof fn lemma_max_fits(values: Seq<u64>)
    ensures
        fits(values, bit_len(seq_max(values) as nat) as int),
{
    lemma_seq_max(values);
    let n = bit_len(seq_max(values) as nat);
    lemma_bit_len(seq_max(values) as nat, n);
    assert forall|k: int| 0 <= k < values.len() implies #[trigger] values[k] < pow2(n) by {
        assert(values[k] <= seq_max(values));
    }
}

fn block_max(values: &[u64; 128]) -> (m: u64)
    ensures
        m == seq_max(values@),
{
    let mut m: u64 = 0;
    let mut k: usize = 0;
    while k < 128
        invariant
            k <= 128,
            m == seq_max(values@.subrange(0, k as int)),
        decreases 128 - k,
    {
        assert(values@.subrange(0, k + 1).drop_last() =~= values@.subrange(0, k as int));
        if values[k] > m {
            m = values[k];
        }
        k = k + 1;
    }
    assert(values@.subrange(0, 128) =~= values@);
    m
}

/// Whether all values of a block are `v`.
fn block_is(values: &[u64; 128], v: u64) -> (r: bool)
    ensures
        r == (forall|k: int| 0 <= k < 128 ==> values@[k] == v),
{
    let mut k: usize = 0;
    while k < 128
        invariant
            k <= 128,
            forall|i: int| 0 <= i < k ==> values@[i] == v,
        decreases 128 - k,
    {
        if values[k] != v {
            return false;
        }
        k = k + 1;
    }
    true
}

/// The lane width for doc deltas of `b` bits.
pub open spec fn delta_lane(b: int) -> int {
    if b <= 4 {
        8
    } else if b <= 11 {
        16
    } else {
        32
    }
}

/// All deltas are one: the documents are consecutive.
pub open spec fn all_ones(deltas: Seq<u64>) -> bool {
    forall|k: int| 0 <= k < deltas.len() ==> #[trigger] deltas[k] == 1
}

/// A block of doc deltas: one zero byte when all are one, else the width of
/// the largest and the packed deltas.
pub open spec fn for_delta_bytes(deltas: Seq<u64>) -> Seq<u8> {
    let b = bit_len(seq_max(deltas) as nat) as int;
    if all_ones(deltas) {
        seq![0u8]
    } else {
        seq![b as u8] + longs_bytes(packed_longs(deltas, b, delta_lane(b)))
    }
}

/// The block of doc deltas at `p`.
pub open spec fn for_delta_at(s: Seq<u8>, p: int) -> Result<(Seq<u64>, int), ErrorKind> {
    match byte_at(s, p) {
        Ok((b, q)) => if b == 0 {
            Ok((Seq::new(128, |k: int| 1u64), q))
        } else if b > 32 {
            Err(ErrorKind::InvalidData)
        } else {
            block_at(s, q, b as int, delta_lane(b as int))
        },
        Err(k) => Err(k),
    }
}

/// Packs 128 doc deltas. Not all may be zero, and each takes at most 32 bits.
pub fn for_delta_util_encode<O: DataOutput>(out: &mut O, deltas: &[u64; 128]) -> (r: Result<(), Error>)
    requires
        0 < seq_max(deltas@) < 0x1_0000_0000,
    ensures
        final(out).since() == old(out).since(),
        r is Ok,
        final(out).written() == old(out).written() + for_delta_bytes(deltas@),
{
    if block_is(deltas, 1) {
        return out.write_byte(0);
    }
    let m: u64 = block_max(deltas);
    let b: u32 = bits_required(m);
    proof {
        lemma_bit_len(m as nat, 32);
        lemma_bit_len(m as nat, 0);
        lemma2_to64();
        lemma2_to64_rest();
        lemma_max_fits(deltas@);
    }
    out.write_byte(b as u8)?;
    let lane: u32 = if b <= 4 { 8 } else if b <= 11 { 16 } else { 32 };
    for_util_encode_primitive(out, deltas, b, lane)?;
    assert(out.written() =~= old(out).written() + for_delta_bytes(deltas@));
    Ok(())
}

/// Unpacks 128 doc deltas.
pub fn for_delta_util_decode<I: DataInput>(input: &mut I, deltas: &mut [u64; 128]) -> (r: Result<(), Error>)
    ensures
        final(input).bytes() == old(input).bytes(),
        final(input).fixed() == old(input).fixed(),
        match for_delta_at(old(input).bytes(), old(input).pos()) {
            Ok((v, q)) => r is Ok && final(deltas)@ == v && final(input).pos() == q,
            Err(k) => r is Err && r->Err_0.kind == k,
        },
{
    let b: u8 = input.read_byte()?;
    if b == 0 {
        fill_block(deltas, 1);
        return Ok(());
    }
    if b > 32 {
        return Err(Error::new(ErrorKind::InvalidData, "at most 32 bits per delta can be packed"));
    }
    let lane: u32 = if b <= 4 { 8 } else if b <= 11 { 16 } else { 32 };
    for_util_decode_primitive(input, deltas, b as u32, lane)
}

/// A block of doc deltas that was written is read back.
pub proof fn law_for_delta_round_trip(s: Seq<u8>, p: int, deltas: Seq<u64>)
    requires
        deltas.len() == 128,
        0 < seq_max(deltas) < 0x1_0000_0000,
        holds_at(s, p, for_delta_bytes(deltas)),
    ensures
        for_delta_at(s, p) == Ok::<(Seq<u64>, int), ErrorKind>((deltas, p + for_delta_bytes(deltas).len())),
{
    lemma_holds_index(s, p, for_delta_bytes(deltas), 0);
    if all_ones(deltas) {
        assert(deltas =~= Seq::new(128, |k: int| 1u64));
    } else {
        let m = seq_max(deltas) as nat;
        let b = bit_len(m) as int;
        lemma_bit_len(m, 32);
        lemma_bit_len(m, 0);
        lemma2_to64();
        lemma2_to64_rest();
        lemma_max_fits(deltas);
        let longs = packed_longs(deltas, b, delta_lane(b));
        lemma_longs_len(longs);
        lemma_holds_concat(s, p, seq![b as u8], longs_bytes(longs));
        law_block_round_trip(s, p + 1, deltas, b, delta_lane(b));
    }
}

// ---------------------------------------------------------------------------
// Patched blocks
// ---------------------------------------------------------------------------

/// How many values take more than `n` bits.
pub open spec fn count_wide(values: Seq<u64>, n: nat) -> nat
    decreases values.len(),
{
    if values.len() == 0 {
        0
    } else {
        count_wide(values.drop_last(), n) + if values.last() >= pow2(n) { 1nat } else { 0 }
    }
}

/// The least width, from `n` on, that all but at most seven values fit: the
/// width of the eighth largest.
pub open spec fn width_of_eighth(values: Seq<u64>, n: nat) -> nat
    decreases 64 - n,
{
    if n >= 64 || count_wide(values, n) <= MAX_EXCEPTIONS {
        n
    } else {
        width_of_eighth(values, n + 1)
    }
}

/// The width of the packed part: that of the eighth largest value, but no more
/// than eight bits short of the largest, since a patch is one byte.
pub open spec fn patch_width(values: Seq<u64>) -> nat {
    let e = width_of_eighth(values, 0);
    let m = bit_len(seq_max(values) as nat);
    if e + 8 >= m {
        e
    } else {
        (m - 8) as nat
    }
}

/// The values cut to `n` bits.
pub open spec fn masked(values: Seq<u64>, n: nat) -> Seq<u64> {
    Seq::new(values.len(), |k: int| (values[k] as nat % pow2(n)) as u64)
}

/// The patches of the values before `k` that take more than `n` bits: place,
/// then the high bits, moved up by `up`.
pub open spec fn patches(values: Seq<u64>, n: nat, up: nat, k: int) -> Seq<u8>
    decreases k,
{
    if k <= 0 {
        Seq::empty()
    } else {
        let v = values[k - 1] as nat;
        patches(values, n, up, k - 1) + if v >= pow2(n) {
            seq![(k - 1) as u8, ((v / pow2(n)) * pow2(up)) as u8]
        } else {
            Seq::empty()
        }
    }
}

/// A constant block: equal low parts, and values of at most eight bits.
pub open spec fn pfor_constant(values: Seq<u64>) -> bool {
    let low = masked(values, patch_width(values));
    (forall|k: int| 0 <= k < values.len() ==> #[trigger] low[k] == low[0]) && bit_len(seq_max(values) as nat) <= 8
}

/// A patched block: a token with the number of patches and the packed width,
/// the packed low parts (or, width 0, the one low part that all share), and
/// the patches.
pub open spec fn pfor_bytes(values: Seq<u64>) -> Seq<u8> {
    let n = patch_width(values);
    let c = count_wide(values, n);
    if pfor_constant(values) {
        seq![(c * 32) as u8] + varint_bytes(masked(values, n)[0] as nat) + patches(values, n, n, 128)
    } else {
        seq![(c * 32 + n) as u8] + for_bytes(masked(values, n), n as int) + patches(values, n, 0, 128)
    }
}

proof fn lemma_count_wide_decreases(values: Seq<u64>, n: nat, m: nat)
    requires
        n <= m,
    ensures
        count_wide(values, m) <= count_wide(values, n),
    decreases values.len(),
{
    if values.len() > 0 {
        lemma_count_wide_decreases(values.drop_last(), n, m);
        if n < m {
            lemma_pow2_strictly_increases(n, m);
        }
    }
}

proof fn lemma_count_wide_none(values: Seq<u64>, n: nat)
    requires
        n >= 64,
    ensures
        count_wide(values, n) == 0,
    decreases values.len(),
{
    lemma2_to64_rest();
    if n > 64 {
        lemma_pow2_strictly_increases(64, n);
    }
    if values.len() > 0 {
        lemma_count_wide_none(values.drop_last(), n);
    }
}

proof fn lemma_width_of_eighth(values: Seq<u64>, n: nat)
    requires
        n <= 64,
    ensures
        n <= width_of_eighth(values, n) <= 64,
        count_wide(values, width_of_eighth(values, n)) <= 7,
    decreases 64 - n,
{
    lemma_count_wide_none(values, 64);
    if !(n >= 64 || count_wide(values, n) <= MAX_EXCEPTIONS) {
        lemma_width_of_eighth(values, n + 1);
    }
}

/// At most seven values are wider than the packed width, each by at most a
/// byte.
pub proof fn lemma_patch_width(values: Seq<u64>)
    ensures
        patch_width(values) <= 64,
        count_wide(values, patch_width(values)) <= 7,
        bit_len(seq_max(values) as nat) <= patch_width(values) + 8,
{
    lemma_width_of_eighth(values, 0);
    lemma_bit_len(seq_max(values) as nat, 64);
    lemma2_to64_rest();
    lemma_count_wide_decreases(values, width_of_eighth(values, 0), patch_width(values));
}

/// The high part of a value is a byte, and so is what a constant block stores
/// of it.
proof fn lemma_high_part(values: Seq<u64>, k: int)
    requires
        0 <= k < values.len(),
    ensures
        values[k] as nat / pow2(patch_width(values)) < 256,
        (values[k] as nat / pow2(patch_width(values))) * pow2(patch_width(values)) <= values[k],
        bit_len(seq_max(values) as nat) <= 8 ==> values[k] < 256,
{
    lemma_patch_width(values);
    lemma_seq_max(values);
    assert(values[k] <= seq_max(values));
    let n = patch_width(values);
    let m = seq_max(values) as nat;
    lemma_bit_len(m, n + 8);
    lemma_bit_len(m, 8);
    lemma2_to64();
    lemma_pow2_adds(8, n);
    lemma_pow2_pos(n);
    let w = pow2(n);
    let v = values[k] as nat;
    assert(v / w < 256) by (nonlinear_arith)
        requires
            v < 256 * w,
            w > 0,
    ;
    assert((v / w) * w <= v) by (nonlinear_arith)
        requires
            w > 0,
    ;
}

/// Number of values wider than `n` bits.
fn block_count_wide(values: &[u64; 128], n: u32) -> (c: usize)
    requires
        n <= 64,
    ensures
        c == count_wide(values@, n as nat),
{
    let mut c: usize = 0;
    let mut k: usize = 0;
    while k < 128
        invariant
            k <= 128,
            n <= 64,
            c <= k,
            c == count_wide(values@.subrange(0, k as int), n as nat),
        decreases 128 - k,
    {
        assert(values@.subrange(0, k + 1).drop_last() =~= values@.subrange(0, k as int));
        proof {
            lemma_bit_len(values@[k as int] as nat, n as nat);
        }
        if bits_required(values[k]) > n {
            c = c + 1;
        }
        k = k + 1;
    }
    assert(values@.subrange(0, 128) =~= values@);
    c
}

/// Values of `n` bits need no more than `n` packed bits.
pub proof fn lemma_patch_width_bound(values: Seq<u64>, n: nat)
    requires
        n < 64,
        forall|k: int| 0 <= k < values.len() ==> #[trigger] values[k] < pow2(n),
    ensures
        patch_width(values) <= n,
{
    lemma_seq_max(values);
    lemma_pow2_pos(n);
    lemma_bit_len(seq_max(values) as nat, n);
    lemma_none_wide(values, n);
    lemma_eighth_bound(values, 0, n);
}

proof fn lemma_none_wide(values: Seq<u64>, n: nat)
    requires
        forall|k: int| 0 <= k < values.len() ==> #[trigger] values[k] < pow2(n),
    ensures
        count_wide(values, n) == 0,
    decreases values.len(),
{
    if values.len() > 0 {
        let d = values.drop_last();
        assert forall|k: int| 0 <= k < d.len() implies #[trigger] d[k] < pow2(n) by {
            assert(values[k] < pow2(n));
        }
        lemma_none_wide(d, n);
    }
}

proof fn lemma_eighth_bound(values: Seq<u64>, i: nat, n: nat)
    requires
        i <= n,
        count_wide(values, n) <= MAX_EXCEPTIONS,
    ensures
        width_of_eighth(values, i) <= n,
    decreases n - i,
{
    if i < n {
        lemma_eighth_bound(values, i + 1, n);
    }
}

/// Packs 128 values, at most seven of them with patched high bits. The packed
/// width must fit the token's five bits.
pub fn pfor_util_encode<O: DataOutput>(out: &mut O, values: &[u64; 128]) -> (r: Result<(), Error>)
    requires
        patch_width(values@) <= 31,
    ensures
        final(out).since() == old(out).since(),
        r is Ok,
        final(out).written() == old(out).written() + pfor_bytes(values@),
{
    let m: u64 = block_max(values);
    let max_bits: u32 = bits_required(m);
    let mut e: u32 = 0;
    while e < 64 && block_count_wide(values, e) > MAX_EXCEPTIONS
        invariant
            e <= 64,
            width_of_eighth(values@, 0) == width_of_eighth(values@, e as nat),
        decreases 64 - e,
    {
        e = e + 1;
    }
    let n: u32 = if e + 8 >= max_bits { e } else { max_bits - 8 };
    assert(n == patch_width(values@));
    let count: usize = block_count_wide(values, n);
    let ghost v = values@;
    let ghost low = masked(v, n as nat);
    proof {
        lemma_patch_width(v);
    }
    let mut cut: [u64; 128] = [0u64; 128];
    let mut k: usize = 0;
    while k < 128
        invariant
            k <= 128,
            n <= 31,
            v == values@,
            low == masked(v, n as nat),
            forall|i: int| 0 <= i < k ==> #[trigger] cut@[i] == low[i],
        decreases 128 - k,
    {
        cut[k] = low_bits(values[k], n);
        k = k + 1;
    }
    assert(cut@ =~= low);
    proof {
        assert forall|k: int| 0 <= k < 128 implies #[trigger] low[k] < pow2(n as nat) by {
            lemma_pow2_pos(n as nat);
            vstd::arithmetic::div_mod::lemma_mod_bound(v[k] as int, pow2(n as nat) as int);
            lemma_pow2_strictly_increases(n as nat, 64);
            lemma2_to64_rest();
        }
    }
    let constant: bool = block_is(&cut, cut[0]) && max_bits <= 8;
    assert(constant == pfor_constant(v)) by {
        if pfor_constant(v) {
            assert forall|k: int| 0 <= k < 128 implies #[trigger] cut@[k] == cut@[0] by {
                assert(low[k] == low[0]);
            }
        }
    }
    let up: u32 = if constant { n } else { 0 };
    let mut tail: Vec<u8> = Vec::new();
    k = 0;
    while k < 128
        invariant
            k <= 128,
            n <= 31,
            v == values@,
            n == patch_width(v),
            up == n && constant || up == 0,
            constant == pfor_constant(v),
            tail@ == patches(v, n as nat, up as nat, k as int),
        decreases 128 - k,
    {
        proof {
            lemma_bit_len(v[k as int] as nat, n as nat);
            lemma_high_part(v, k as int);
            lemma_u64_shr_is_div(v[k as int], n as u64);
            lemma2_to64();
            lemma_pow2_strictly_increases(n as nat, 64);
            lemma_pow2_pos(n as nat);
        }
        if bits_required(values[k]) > n {
            let high: u64 = values[k] >> (n as u64);
            proof {
                if up == 0 {
                    assert(high * pow2(0) == high) by (nonlinear_arith)
                        requires
                            pow2(0) == 1,
                    ;
                }
                lemma_u64_shl_is_mul(high, up as u64);
            }
            let stored: u64 = high << (up as u64);
            let ghost before = tail@;
            tail.push(k as u8);
            tail.push(stored as u8);
            assert(tail@ =~= patches(v, n as nat, up as nat, k + 1));
        } else {
            assert(tail@ =~= patches(v, n as nat, up as nat, k + 1));
        }
        k = k + 1;
    }
    if constant {
        out.write_byte((count * 32) as u8)?;
        out.write_varint(cut[0])?;
    } else {
        out.write_byte((count * 32 + n as usize) as u8)?;
        for_util_encode(out, &cut, n as u8)?;
    }
    out.write_bytes(&tail)?;
    assert(out.written() =~= old(out).written() + pfor_bytes(v));
    Ok(())
}

/// Applies `n` patches at `p` of values packed with `b` bits.
pub open spec fn patched_at(s: Seq<u8>, p: int, n: nat, b: u64, values: Seq<u64>) -> Result<(Seq<u64>, int), ErrorKind>
    decreases n,
{
    if n == 0 {
        Ok((values, p))
    } else {
        match byte_at(s, p) {
            Ok((at, q)) => match byte_at(s, q) {
                Ok((high, e)) => if at < 128 {
                    patched_at(s, e, (n - 1) as nat, b, values.update(at as int, values[at as int] | ((high as u64) << b)))
                } else {
                    Err(ErrorKind::InvalidData)
                },
                Err(k) => Err(k),
            },
            Err(k) => Err(k),
        }
    }
}

/// The low parts of a patched block of width `b`.
pub open spec fn pfor_low_at(s: Seq<u8>, p: int, b: int) -> Result<(Seq<u64>, int), ErrorKind> {
    if b == 0 {
        match vlong_at(s, p) {
            Ok((v, q)) => Ok((Seq::new(128, |k: int| v as u64), q)),
            Err(k) => Err(k),
        }
    } else {
        for_at(s, p, b)
    }
}

/// The patched block at `p`.
pub open spec fn pfor_at(s: Seq<u8>, p: int) -> Result<(Seq<u64>, int), ErrorKind> {
    match byte_at(s, p) {
        Ok((token, q)) => match pfor_low_at(s, q, token as int % 32) {
            Ok((low, e)) => patched_at(s, e, (token / 32) as nat, (token % 32) as u64, low),
            Err(k) => Err(k),
        },
        Err(k) => Err(k),
    }
}

/// Unpacks 128 values and applies their patches. A patch for a place past the
/// block is an error.
pub fn pfor_util_decode<I: DataInput>(input: &mut I, values: &mut [u64; 128]) -> (r: Result<(), Error>)
    ensures
        final(input).bytes() == old(input).bytes(),
        final(input).fixed() == old(input).fixed(),
        match pfor_at(old(input).bytes(), old(input).pos()) {
            Ok((v, q)) => r is Ok && final(values)@ == v && final(input).pos() == q,
            Err(k) => r is Err && r->Err_0.kind == k,
        },
{
    let ghost (s, p0) = (input.bytes(), input.pos());
    let token: u8 = input.read_byte()?;
    let b: u8 = token % 32;
    if b == 0 {
        let v: i64 = input.read_vlong()?;
        fill_block(values, v as u64);
    } else {
        for_util_decode(input, values, b)?;
    }
    let mut left: u8 = token / 32;
    while left > 0
        invariant
            b < 32,
            b == token % 32,
            s == old(input).bytes(),
            p0 == old(input).pos(),
            input.bytes() == s,
            input.fixed() == old(input).fixed(),
            pfor_at(s, p0) == patched_at(s, input.pos(), left as nat, b as u64, values@),
        decreases left,
    {
        let at: u8 = input.read_byte()?;
        let high: u8 = input.read_byte()?;
        if at >= 128 {
            return Err(Error::new(ErrorKind::InvalidData, "patch outside the block"));
        }
        values[at as usize] = values[at as usize] | ((high as u64) << (b as u64));
        left = left - 1;
    }
    Ok(())
}

/// The values with the patches of the places before `k` applied.
spec fn half_patched(values: Seq<u64>, n: nat, k: int) -> Seq<u64> {
    Seq::new(128, |i: int| if i < k { values[i] } else { masked(values, n)[i] })
}

/// A low part and its patch make the value.
proof fn lemma_patch_joins(values: Seq<u64>, n: nat, up: nat, b: u64, k: int)
    requires
        0 <= k < values.len(),
        n == patch_width(values),
        n <= 31,
        (up == 0 && b == n) || (up == n && b == 0 && bit_len(seq_max(values) as nat) <= 8),
    ensures
        masked(values, n)[k] | ((((values[k] as nat / pow2(n)) * pow2(up)) as u8 as u64) << b) == values[k],
{
    let v = values[k];
    let high = ((v as nat / pow2(n)) * pow2(up)) as u8;
    let h = v >> (n as u64);
    lemma_high_part(values, k);
    lemma_split_join(v, n as u64);
    lemma_u64_shr_is_div(v, n as u64);
    lemma2_to64();
    if up == 0 {
        assert(h * pow2(0) == h) by (nonlinear_arith)
            requires
                pow2(0) == 1,
        ;
        assert(high as u64 == h);
    } else {
        lemma_u64_shl_is_mul(h, n as u64);
        assert(high as u64 == h << (n as u64));
        assert((high as u64) << 0u64 == high as u64) by (bit_vector);
    }
}

/// Applying the patches from place `k` on restores the values.
proof fn lemma_patches_restore(s: Seq<u8>, p: int, values: Seq<u64>, n: nat, up: nat, b: u64, k: int)
    requires
        values.len() == 128,
        0 <= k <= 128,
        n == patch_width(values),
        n <= 31,
        (up == 0 && b == n) || (up == n && b == 0 && bit_len(seq_max(values) as nat) <= 8),
        holds_at(s, p, patches(values, n, up, 128)),
    ensures
        holds_at(s, p, patches(values, n, up, k)),
        patched_at(s, p + patches(values, n, up, k).len(), (count_wide(values, n) - count_wide(values.subrange(0, k), n)) as nat, b, half_patched(values, n, k))
            == Ok::<(Seq<u64>, int), ErrorKind>((values, p + patches(values, n, up, 128).len())),
        count_wide(values.subrange(0, k), n) <= count_wide(values, n),
    decreases 128 - k,
{
    if k == 128 {
        assert(values.subrange(0, 128) =~= values);
        assert(half_patched(values, n, 128) =~= values);
    } else {
        lemma_patches_restore(s, p, values, n, up, b, k + 1);
        let v = values[k];
        assert(values.subrange(0, k + 1).drop_last() =~= values.subrange(0, k));
        let here = patches(values, n, up, k);
        let low = masked(values, n)[k];
        let w = pow2(n);
        if v as nat >= w {
            let high = ((v as nat / w) * pow2(up)) as u8;
            let pair = seq![k as u8, high];
            lemma_holds_concat(s, p, here, pair);
            lemma_holds_index(s, p + here.len(), pair, 0);
            lemma_holds_index(s, p + here.len(), pair, 1);
            lemma_patch_joins(values, n, up, b, k);
            let half = half_patched(values, n, k);
            assert(half[k] == low);
            assert(half.update(k, low | ((high as u64) << b)) =~= half_patched(values, n, k + 1));
            let q = p + here.len();
            let left = (count_wide(values, n) - count_wide(values.subrange(0, k), n)) as nat;
            assert(left > 0);
            assert(patches(values, n, up, k + 1).len() == here.len() + 2);
            assert(patched_at(s, q, left, b, half) == patched_at(s, q + 2, (left - 1) as nat, b, half_patched(values, n, k + 1)));
        } else {
            assert(patches(values, n, up, k + 1) =~= here);
            assert(v as nat % w == v as nat) by (nonlinear_arith)
                requires
                    (v as nat) < w,
            ;
            assert(half_patched(values, n, k) =~= half_patched(values, n, k + 1));
        }
    }
}

/// A patched block that was written is read back.
pub proof fn law_pfor_round_trip(s: Seq<u8>, p: int, values: Seq<u64>)
    requires
        values.len() == 128,
        patch_width(values) <= 31,
        holds_at(s, p, pfor_bytes(values)),
    ensures
        pfor_at(s, p) == Ok::<(Seq<u64>, int), ErrorKind>((values, p + pfor_bytes(values).len())),
{
    let n = patch_width(values);
    let c = count_wide(values, n);
    let low = masked(values, n);
    lemma_patch_width(values);
    lemma_pow2_pos(n);
    lemma_pow2_strictly_increases(n, 63);
    lemma_pow2_widths();
    assert forall|k: int| 0 <= k < 128 implies #[trigger] low[k] < pow2(n) by {
        vstd::arithmetic::div_mod::lemma_mod_bound(values[k] as int, pow2(n) as int);
    }
    lemma_holds_index(s, p, pfor_bytes(values), 0);
    assert(values.subrange(0, 0) =~= Seq::<u64>::empty());
    assert(half_patched(values, n, 0) =~= low);
    if pfor_constant(values) {
        let head = seq![(c * 32) as u8];
        let body = varint_bytes(low[0] as nat);
        let tail = patches(values, n, n, 128);
        lemma_holds_concat(s, p, head + body, tail);
        lemma_holds_concat(s, p, head, body);
        law_vlong_round_trip(s, p + 1, low[0] as i64);
        assert(Seq::new(128, |k: int| (low[0] as i64) as u64) =~= low) by {
            assert forall|k: int| 0 <= k < 128 implies #[trigger] low[k] == low[0] by {
            }
        }
        lemma_patches_restore(s, p + 1 + body.len(), values, n, n, 0, 0);
    } else {
        if n == 0 {
            lemma2_to64();
            assert forall|k: int| 0 <= k < 128 implies #[trigger] low[k] == low[0] by {
                assert(low[k] < pow2(0) && low[0] < pow2(0));
            }
            assert(false);
        }
        let head = seq![(c * 32 + n) as u8];
        let body = for_bytes(low, n as int);
        let tail = patches(values, n, 0, 128);
        lemma_longs_len(packed_longs(low, n as int, for_lane(n as int)));
        lemma_holds_concat(s, p, head + body, tail);
        lemma_holds_concat(s, p, head, body);
        law_for_util_round_trip(s, p + 1, low, n as int);
        lemma_patches_restore(s, p + 1 + body.len(), values, n, 0, n as u64, 0);
    }
}

/// Moving `n` bytes ahead from `p`; `over` is the kind of error past the
/// largest position.
pub open spec fn skip_at(s: Seq<u8>, p: int, n: int, over: ErrorKind) -> Result<((), int), ErrorKind> {
    if p + n <= s.len() {
        Ok(((), p + n))
    } else if p + n > u64::MAX {
        Err(over)
    } else {
        Err(ErrorKind::UnexpectedEof)
    }
}

/// The place behind the patched block at `p`.
pub open spec fn pfor_skip_at(s: Seq<u8>, p: int, over: ErrorKind) -> Result<((), int), ErrorKind> {
    match byte_at(s, p) {
        Ok((token, q)) => {
            let low = if token % 32 == 0 {
                match vlong_at(s, q) {
                    Ok((_, e)) => Ok(((), e)),
                    Err(k) => Err(k),
                }
            } else {
                skip_at(s, q, 16 * (token as int % 32), over)
            };
            match low {
                Ok((_, e)) => skip_at(s, e, 2 * (token as int / 32), over),
                Err(k) => Err(k),
            }
        },
        Err(k) => Err(k),
    }
}

/// Steps over a patched block without decoding it.
pub fn pfor_util_skip<I: DataInput>(input: &mut I) -> (r: Result<(), Error>)
    ensures
        final(input).bytes() == old(input).bytes(),
        final(input).fixed() == old(input).fixed(),
        outcome(r, final(input).pos(), pfor_skip_at(old(input).bytes(), old(input).pos(), old(input).fixed().1)),
{
    let token: u8 = input.read_byte()?;
    let b: u8 = token % 32;
    if b == 0 {
        let _v: i64 = input.read_vlong()?;
    } else {
        input.skip_bytes(b as u64 * 16)?;
    }
    input.skip_bytes((token / 32) as u64 * 2)?;
    Ok(())
}

proof fn lemma_patched_end(s: Seq<u8>, p: int, n: nat, b: u64, values: Seq<u64>)
    requires
        patched_at(s, p, n, b, values) is Ok,
    ensures
        patched_at(s, p, n, b, values)->Ok_0.1 == p + 2 * n,
        n > 0 ==> p + 2 * n <= s.len(),
    decreases n,
{
    if n > 0 {
        let at = s[p] as int;
        lemma_patched_end(s, p + 2, (n - 1) as nat, b, values.update(at, values[at] | ((s[p + 1] as u64) << b)));
    }
}

proof fn lemma_varint_scan_end(s: Seq<u8>, p: int, left: nat, weight: nat, acc: nat)
    requires
        crate::bytes::varint_scan(s, p, left, weight, acc) is Ok,
    ensures
        p < crate::bytes::varint_scan(s, p, left, weight, acc)->Ok_0.1 <= s.len(),
    decreases left,
{
    if s[p] >= 128 {
        lemma_varint_scan_end(s, p + 1, (left - 1) as nat, weight * 128, acc + (s[p] - 128) as nat * weight);
    }
}

/// Skipping a patched block consumes exactly the bytes that decoding it reads.
pub proof fn law_pfor_skip_consumes_block(s: Seq<u8>, p: int, over: ErrorKind)
    requires
        pfor_at(s, p) is Ok,
    ensures
        pfor_skip_at(s, p, over) == Ok::<((), int), ErrorKind>(((), pfor_at(s, p)->Ok_0.1)),
{
    let token = s[p];
    let b = token as int % 32;
    let (low, e) = pfor_low_at(s, p + 1, b)->Ok_0;
    lemma_patched_end(s, e, (token / 32) as nat, (token % 32) as u64, low);
    if b == 0 {
        lemma_varint_scan_end(s, p + 1, 9, 1, 0);
    }
}

// ---------------------------------------------------------------------------
// Numbers of skip data
// ---------------------------------------------------------------------------

/// Two bytes for a number of 15 bits; else two bytes with a mark and the low
/// 15 bits, and the rest variable-length.
pub open spec fn vlong15_bytes(v: nat) -> Seq<u8> {
    if v < 0x8000 {
        le_bytes(v, 2)
    } else {
        le_bytes(0x8000 + v % 0x8000, 2) + varint_bytes(v / 0x8000)
    }
}

/// Writes `v` as [`vlong15_bytes`].
pub fn write_vint15<O: DataOutput>(out: &mut O, v: u32) -> (r: Result<(), Error>)
    ensures
        final(out).since() == old(out).since(),
        r is Ok,
        final(out).written() == old(out).written() + vlong15_bytes(v as nat),
{
    write_vlong15(out, v as u64)
}

/// Writes `v` as [`vlong15_bytes`].
pub fn write_vlong15<O: DataOutput>(out: &mut O, v: u64) -> (r: Result<(), Error>)
    ensures
        final(out).since() == old(out).since(),
        r is Ok,
        final(out).written() == old(out).written() + vlong15_bytes(v as nat),
{
    if v < 0x8000 {
        out.write_short(v as i16)
    } else {
        let low: u16 = (0x8000 + v % 0x8000) as u16;
        assert(to_u16(to_i16(low)) == low);
        out.write_short(to_i16(low))?;
        out.write_varint(v / 0x8000)?;
        assert(out.written() =~= old(out).written() + vlong15_bytes(v as nat));
        Ok(())
    }
}

/// The number of 15 bits or more at `p`, of which 32 bits are kept.
pub open spec fn vint15_at(s: Seq<u8>, p: int) -> Result<(u32, int), ErrorKind> {
    match short_at(s, p) {
        Ok((v, q)) => if v >= 0 {
            Ok((v as u32, q))
        } else {
            match vint_at(s, q) {
                Ok((h, e)) => Ok((((spec_to_u16(v) - 0x8000) + (spec_to_u32(h) as int % 0x2_0000) * 0x8000) as u32, e)),
                Err(k) => Err(k),
            }
        },
        Err(k) => Err(k),
    }
}

/// The number of 15 bits or more at `p`, of which 64 bits are kept.
pub open spec fn vlong15_at(s: Seq<u8>, p: int) -> Result<(u64, int), ErrorKind> {
    match short_at(s, p) {
        Ok((v, q)) => if v >= 0 {
            Ok((v as u64, q))
        } else {
            match vlong_at(s, q) {
                Ok((h, e)) => Ok((((spec_to_u16(v) - 0x8000) + (h as int % 0x2_0000_0000_0000) * 0x8000) as u64, e)),
                Err(k) => Err(k),
            }
        },
        Err(k) => Err(k),
    }
}

pub fn read_vint15<I: DataInput>(input: &mut I) -> (r: Result<u32, Error>)
    ensures
        final(input).bytes() == old(input).bytes(),
        final(input).fixed() == old(input).fixed(),
        outcome(r, final(input).pos(), vint15_at(old(input).bytes(), old(input).pos())),
{
    let s: i16 = input.read_short()?;
    if s >= 0 {
        Ok(s as u32)
    } else {
        let h: i32 = input.read_vint()?;
        Ok((to_u16(s) - 0x8000) as u32 + (to_u32(h) % 0x2_0000) * 0x8000)
    }
}

pub fn read_vlong15<I: DataInput>(input: &mut I) -> (r: Result<u64, Error>)
    ensures
        final(input).bytes() == old(input).bytes(),
        final(input).fixed() == old(input).fixed(),
        outcome(r, final(input).pos(), vlong15_at(old(input).bytes(), old(input).pos())),
{
    let s: i16 = input.read_short()?;
    if s >= 0 {
        Ok(s as u64)
    } else {
        let h: i64 = input.read_vlong()?;
        Ok((to_u16(s) - 0x8000) as u64 + (h as u64 % 0x2_0000_0000_0000) * 0x8000)
    }
}

/// A number of skip data that was written is read back.
pub proof fn law_vlong15_round_trip(s: Seq<u8>, p: int, v: u64)
    requires
        holds_at(s, p, vlong15_bytes(v as nat)),
    ensures
        vlong15_at(s, p) == Ok::<(u64, int), ErrorKind>((v, p + vlong15_bytes(v as nat).len())),
        v < 0x1_0000_0000 ==> vint15_at(s, p) == Ok::<(u32, int), ErrorKind>((v as u32, p + vlong15_bytes(v as nat).len())),
{
    broadcast use lemma_le_bytes_len;
    if v < 0x8000 {
        law_short_round_trip(s, p, v as i16);
    } else {
        let low = (0x8000 + v % 0x8000) as u16;
        let high = (v / 0x8000) as i64;
        assert(spec_to_u16(spec_to_i16(low)) == low);
        lemma_holds_concat(s, p, le_bytes(low as nat, 2), varint_bytes(high as nat));
        law_short_round_trip(s, p, spec_to_i16(low));
        law_vlong_round_trip(s, p + 2, high);
        if v < 0x1_0000_0000 {
            law_vint_round_trip(s, p + 2, high as i32);
        }
    }
}

/// The groups above the last one, most significant first, all marked.
pub open spec fn msb_lead(h: nat) -> Seq<u8>
    decreases h,
{
    if h == 0 {
        Seq::empty()
    } else {
        msb_lead(h / 128) + seq![(h % 128 + 128) as u8]
    }
}

/// Seven bits per group, high groups first; every byte but the last has its
/// high bit set.
pub open spec fn msb_vlong_bytes(v: nat) -> Seq<u8> {
    msb_lead(v / 128) + seq![(v % 128) as u8]
}

/// Writes `v` as [`msb_vlong_bytes`], at most nine bytes.
pub fn write_msb_vlong<O: DataOutput>(out: &mut O, v: u64) -> (r: Result<(), Error>)
    requires
        v < 0x8000_0000_0000_0000,
    ensures
        final(out).since() == old(out).since(),
        r is Ok,
        final(out).written() == old(out).written() + msb_vlong_bytes(v as nat),
{
    write_msb_groups(out, v)
}

/// The same for any 64-bit pattern.
pub(crate) fn write_msb_groups<O: DataOutput>(out: &mut O, v: u64) -> (r: Result<(), Error>)
    ensures
        final(out).since() == old(out).since(),
        r is Ok,
        final(out).written() == old(out).written() + msb_vlong_bytes(v as nat),
{
    let mut rev: Vec<u8> = Vec::new();
    rev.push((v % 128) as u8);
    let mut h: u64 = v / 128;
    assert(msb_lead(h as nat) + rev@.reverse() =~= msb_vlong_bytes(v as nat));
    while h > 0
        invariant
            msb_lead(h as nat) + rev@.reverse() == msb_vlong_bytes(v as nat),
        decreases h,
    {
        let ghost before = rev@;
        rev.push((h % 128 + 128) as u8);
        assert(msb_lead(h as nat / 128) + rev@.reverse() =~= msb_lead(h as nat) + before.reverse());
        h = h / 128;
    }
    let n: usize = rev.len();
    let mut i: usize = n;
    assert(rev@.reverse() =~= msb_vlong_bytes(v as nat));
    assert(rev@.reverse().subrange(0, 0) =~= Seq::<u8>::empty());
    assert(out.written() + Seq::<u8>::empty() =~= out.written());
    while i > 0
        invariant
            out.since() == old(out).since(),
            i <= n == rev@.len(),
            out.written() == old(out).written() + rev@.reverse().subrange(0, n - i),
        decreases i,
    {
        i = i - 1;
        out.write_byte(rev[i])?;
        assert(out.written() =~= old(out).written() + rev@.reverse().subrange(0, n - i));
    }
    assert(rev@.reverse().subrange(0, n as int) =~= rev@.reverse());
    Ok(())
}

/// Reads groups, high ones first, below `acc`; 64 bits are kept.
pub open spec fn msb_vlong_at(s: Seq<u8>, p: int, acc: u64) -> Result<(u64, int), ErrorKind>
    decreases s.len() - p,
{
    if !(0 <= p < s.len()) {
        Err(ErrorKind::UnexpectedEof)
    } else {
        let next = ((acc as int % 0x200_0000_0000_0000) * 128 + s[p] as int % 128) as u64;
        if s[p] < 128 {
            Ok((next, p + 1))
        } else {
            msb_vlong_at(s, p + 1, next)
        }
    }
}

pub fn read_msb_vlong<I: DataInput>(input: &mut I) -> (r: Result<u64, Error>)
    ensures
        final(input).bytes() == old(input).bytes(),
        final(input).fixed() == old(input).fixed(),
        outcome(r, final(input).pos(), msb_vlong_at(old(input).bytes(), old(input).pos(), 0)),
{
    let ghost (s, p0) = (input.bytes(), input.pos());
    let mut acc: u64 = 0;
    loop
        invariant
            s == old(input).bytes(),
            p0 == old(input).pos(),
            input.bytes() == s,
            input.fixed() == old(input).fixed(),
            msb_vlong_at(s, p0, 0) == msb_vlong_at(s, input.pos(), acc),
        decreases s.len() - input.pos(),
    {
        let b: u8 = input.read_byte()?;
        acc = (acc % 0x200_0000_0000_0000) * 128 + (b % 128) as u64;
        if b < 128 {
            return Ok(acc);
        }
    }
}

proof fn lemma_msb_lead(s: Seq<u8>, p: int, h: nat)
    requires
        h < 0x200_0000_0000_0000,
        holds_at(s, p, msb_lead(h)),
    ensures
        msb_vlong_at(s, p, 0) == msb_vlong_at(s, p + msb_lead(h).len(), h as u64),
    decreases h,
{
    if h > 0 {
        let last = seq![(h % 128 + 128) as u8];
        lemma_holds_concat(s, p, msb_lead(h / 128), last);
        lemma_msb_lead(s, p, h / 128);
        lemma_holds_index(s, p + msb_lead(h / 128).len(), last, 0);
    }
}

/// A number that was written high groups first is read back.
pub proof fn law_msb_vlong_round_trip(s: Seq<u8>, p: int, v: u64)
    requires
        holds_at(s, p, msb_vlong_bytes(v as nat)),
    ensures
        msb_vlong_at(s, p, 0) == Ok::<(u64, int), ErrorKind>((v, p + msb_vlong_bytes(v as nat).len())),
{
    let last = seq![(v as nat % 128) as u8];
    lemma_holds_concat(s, p, msb_lead(v as nat / 128), last);
    lemma_msb_lead(s, p, v as nat / 128);
    lemma_holds_index(s, p + msb_lead(v as nat / 128).len(), last, 0);
}

} // verus!
