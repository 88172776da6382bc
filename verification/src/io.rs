//! Byte outputs and inputs with the primitives of the index format.
//!
//! All multi-byte primitives here are little-endian; the big-endian ones of
//! headers and footers are in [`crate::codec_util`].

use crate::bytes::{
    byte_at, int_at, int_bytes, le_u64, le_vec, lemma_pow2_widths, long_at, long_bytes, push_varint, short_at, short_bytes, take_at, varint_bytes, varint_scan, vint_at, vint_bytes, vint_of,
    vlong_at, vlong_of, zint_at,
};
use crate::error::{outcome, Error, ErrorKind};
use crate::num::{to_i16, to_i32, to_i64, to_u16, to_u32, to_u64, unzigzag32, wrap_sub, zigzag, zigzag32, zigzag64};
use crate::strings::{
    pairs_at, pairs_bytes, pairs_map, string_at, string_bytes, string_from_utf8, string_map_at, string_map_bytes, string_set_at, string_set_bytes, strings_at, strings_bytes, StringMap, StringSet,
};
use std::sync::Arc;
use vstd::arithmetic::power2::{lemma2_to64, lemma2_to64_rest, lemma_pow2_adds, pow2};
use vstd::prelude::*;

verus! {

/// One bit of a CRC-32: the remainder is shifted down, and reduced by the
/// reflected polynomial where a one falls out.
pub open spec fn crc32_bit(r: u32) -> u32 {
    if r & 1 == 1 {
        (r >> 1) ^ 0xEDB8_8320
    } else {
        r >> 1
    }
}

/// `n` bits of it.
pub open spec fn crc32_bits(r: u32, n: nat) -> u32
    decreases n,
{
    if n == 0 {
        r
    } else {
        crc32_bit(crc32_bits(r, (n - 1) as nat))
    }
}

/// The remainder after the bytes, from all ones on.
pub open spec fn crc32_remainder(bytes: Seq<u8>) -> u32
    decreases bytes.len(),
{
    if bytes.len() == 0 {
        0xFFFF_FFFF
    } else {
        crc32_bits(crc32_remainder(bytes.drop_last()) ^ (bytes.last() as u32), 8)
    }
}

/// The CRC-32 of a run of bytes, with the polynomial of zlib and PNG.
#[verifier::opaque]
pub open spec fn crc32_of(bytes: Seq<u8>) -> u32 {
    crc32_remainder(bytes) ^ 0xFFFF_FFFF
}

/// `crc32fast::hash`: the CRC-32 of `bytes`.
#[verifier::external_body]
fn crc32fast_hash(bytes: &[u8]) -> (r: u32)
    ensures
        r == crc32_of(bytes@),
{
    crc32fast::hash(bytes)
}

/// The CRC-32 of a whole byte image, widened as footers hold it.
pub fn crc32(bytes: &[u8]) -> (r: u64)
    ensures
        r == crc32_of(bytes@) as u64,
{
    crc32fast_hash(bytes) as u64
}

// ---------------------------------------------------------------------------
// Output
// ---------------------------------------------------------------------------

/// What both kinds of output share, so that encoders can write through either.
pub trait DataOutput {
    /// Everything written so far.
    spec fn written(&self) -> Seq<u8>;

    /// How much had been written when the checksum began, 0 where there is
    /// none.
    spec fn since(&self) -> nat;

    fn write_byte(&mut self, b: u8) -> (r: Result<(), Error>)
        ensures
            final(self).since() == old(self).since(),
            r is Ok,
            final(self).written() == old(self).written() + seq![b],
    ;

    fn write_bytes(&mut self, bytes: &[u8]) -> (r: Result<(), Error>)
        ensures
            final(self).since() == old(self).since(),
            r is Ok,
            final(self).written() == old(self).written() + bytes@,
    ;

    /// Number of bytes written so far.
    fn file_pointer(&self) -> (p: u64)
        ensures
            p == self.written().len(),
    ;

    /// Little-endian.
    fn write_short(&mut self, v: i16) -> (r: Result<(), Error>)
        ensures
            final(self).since() == old(self).since(),
            r is Ok,
            final(self).written() == old(self).written() + short_bytes(v),
    {
        let b = le_vec(to_u16(v) as u64, 2);
        self.write_bytes(&b)
    }

    /// Little-endian.
    fn write_int(&mut self, v: i32) -> (r: Result<(), Error>)
        ensures
            final(self).since() == old(self).since(),
            r is Ok,
            final(self).written() == old(self).written() + int_bytes(v),
    {
        let b = le_vec(to_u32(v) as u64, 4);
        self.write_bytes(&b)
    }

    /// Little-endian.
    fn write_long(&mut self, v: i64) -> (r: Result<(), Error>)
        ensures
            final(self).since() == old(self).since(),
            r is Ok,
            final(self).written() == old(self).written() + long_bytes(v),
    {
        let b = le_vec(to_u64(v), 8);
        self.write_bytes(&b)
    }

    /// Seven bits per group, low groups first, for any 64-bit pattern.
    fn write_varint(&mut self, v: u64) -> (r: Result<(), Error>)
        ensures
            final(self).since() == old(self).since(),
            r is Ok,
            final(self).written() == old(self).written() + varint_bytes(v as nat),
    {
        let mut b: Vec<u8> = Vec::new();
        push_varint(&mut b, v);
        assert(b@ =~= varint_bytes(v as nat));
        self.write_bytes(&b)
    }

    /// Seven bits per group, low groups first; a negative int is written as
    /// its unsigned 32-bit pattern.
    fn write_vint(&mut self, v: i32) -> (r: Result<(), Error>)
        ensures
            final(self).since() == old(self).since(),
            r is Ok,
            final(self).written() == old(self).written() + vint_bytes(v),
    {
        self.write_varint(to_u32(v) as u64)
    }

    /// Seven bits per group, low groups first; negative values are rejected
    /// and then nothing is written.
    fn write_vlong(&mut self, v: i64) -> (r: Result<(), Error>)
        ensures
            final(self).since() == old(self).since(),
            v >= 0 ==> r is Ok && final(self).written() == old(self).written() + varint_bytes(v as nat),
            v < 0 ==> r is Err && r->Err_0.kind == ErrorKind::InvalidInput && final(self).written() == old(self).written(),
    {
        if v < 0 {
            return Err(Error::new(ErrorKind::InvalidInput, "cannot write negative vLong"));
        }
        self.write_varint(v as u64)
    }

    /// Zigzag, then variable-length.
    fn write_zint(&mut self, v: i32) -> (r: Result<(), Error>)
        ensures
            final(self).since() == old(self).since(),
            r is Ok,
            final(self).written() == old(self).written() + varint_bytes(zigzag(v as int)),
    {
        self.write_varint(zigzag32(v) as u64)
    }

    /// Zigzag, then variable-length; ten bytes for the largest magnitudes.
    fn write_zlong(&mut self, v: i64) -> (r: Result<(), Error>)
        ensures
            final(self).since() == old(self).since(),
            r is Ok,
            final(self).written() == old(self).written() + varint_bytes(zigzag(v as int)),
    {
        self.write_varint(zigzag64(v))
    }

    /// Variable-length byte count, then UTF-8.
    fn write_string(&mut self, s: &str) -> (r: Result<(), Error>)
        ensures
            final(self).since() == old(self).since(),
            r is Ok,
            final(self).written() == old(self).written() + string_bytes(s@),
    {
        let bytes = s.as_bytes();
        self.write_varint((bytes.len() as u64) % 0x1_0000_0000)?;
        self.write_bytes(bytes)?;
        assert(self.written() =~= old(self).written() + string_bytes(s@));
        Ok(())
    }

    /// Number of entries, then each key and value, in key order.
    fn write_map_of_strings(&mut self, map: &StringMap) -> (r: Result<(), Error>)
        ensures
            final(self).since() == old(self).since(),
            r is Ok,
            final(self).written() == old(self).written() + string_map_bytes(map.pairs()),
    {
        let n: usize = map.len();
        self.write_varint((n as u64) % 0x1_0000_0000)?;
        let ghost base = self.written();
        let ghost pairs = map.pairs();
        let mut i: usize = 0;
        assert(pairs.subrange(0, 0) =~= Seq::<(Seq<char>, Seq<char>)>::empty());
        assert(base + pairs_bytes(pairs.subrange(0, 0)) =~= base);
        while i < n
            invariant
                self.since() == old(self).since(),
                i <= n == pairs.len(),
                pairs == map.pairs(),
                self.written() == base + pairs_bytes(pairs.subrange(0, i as int)),
            decreases n - i,
        {
            let e = map.entry(i);
            self.write_string(e.0.as_str())?;
            self.write_string(e.1.as_str())?;
            proof {
                let next = pairs.subrange(0, i + 1);
                assert(next.drop_last() =~= pairs.subrange(0, i as int));
                assert(self.written() =~= base + pairs_bytes(next));
            }
            i = i + 1;
        }
        assert(pairs.subrange(0, n as int) =~= pairs);
        assert(self.written() =~= old(self).written() + string_map_bytes(pairs));
        Ok(())
    }

    /// Number of members, then each member, in order.
    fn write_set_of_strings(&mut self, set: &StringSet) -> (r: Result<(), Error>)
        ensures
            final(self).since() == old(self).since(),
            r is Ok,
            final(self).written() == old(self).written() + string_set_bytes(set.members()),
    {
        let n: usize = set.len();
        self.write_varint((n as u64) % 0x1_0000_0000)?;
        let ghost base = self.written();
        let ghost list = set.members();
        let mut i: usize = 0;
        assert(list.subrange(0, 0) =~= Seq::<Seq<char>>::empty());
        assert(base + strings_bytes(list.subrange(0, 0)) =~= base);
        while i < n
            invariant
                self.since() == old(self).since(),
                i <= n == list.len(),
                list == set.members(),
                self.written() == base + strings_bytes(list.subrange(0, i as int)),
            decreases n - i,
        {
            self.write_string(set.member(i).as_str())?;
            proof {
                let next = list.subrange(0, i + 1);
                assert(next.drop_last() =~= list.subrange(0, i as int));
                assert(self.written() =~= base + strings_bytes(next));
            }
            i = i + 1;
        }
        assert(list.subrange(0, n as int) =~= list);
        assert(self.written() =~= old(self).written() + string_set_bytes(list));
        Ok(())
    }
}

/// A growing byte image.
pub struct IndexOutput {
    bytes: Vec<u8>,
}

impl IndexOutput {
    /// An empty in-memory output.
    pub fn in_memory() -> (o: IndexOutput)
        ensures
            o.written() == Seq::<u8>::empty(),
    {
        IndexOutput { bytes: Vec::new() }
    }

    /// The written bytes.
    pub fn into_bytes(self) -> (b: Vec<u8>)
        ensures
            b@ == self.written(),
    {
        self.bytes
    }
}

impl DataOutput for IndexOutput {
    closed spec fn written(&self) -> Seq<u8> {
        self.bytes@
    }

    closed spec fn since(&self) -> nat {
        0
    }

    fn write_byte(&mut self, b: u8) -> (r: Result<(), Error>) {
        self.bytes.push(b);
        assert(self.bytes@ =~= old(self).bytes@ + seq![b]);
        Ok(())
    }

    fn write_bytes(&mut self, bytes: &[u8]) -> (r: Result<(), Error>) {
        self.bytes.extend_from_slice(bytes);
        assert(self.bytes@ =~= old(self).bytes@ + bytes@);
        Ok(())
    }

    fn file_pointer(&self) -> (p: u64) {
        self.bytes.len() as u64
    }
}

/// The bytes from the `n`th on.
pub open spec fn bytes_since(s: Seq<u8>, n: nat) -> Seq<u8> {
    if n <= s.len() {
        s.skip(n as int)
    } else {
        Seq::empty()
    }
}

/// An output that can give the CRC-32 of everything written through it.
pub struct ChecksumIndexOutput {
    out: IndexOutput,
    from: usize,
}

impl ChecksumIndexOutput {
    /// The bytes that the running checksum covers.
    pub open spec fn covered(&self) -> Seq<u8> {
        bytes_since(self.written(), self.since())
    }

    pub fn new(out: IndexOutput) -> (o: ChecksumIndexOutput)
        ensures
            o.written() == out.written(),
            o.since() == out.written().len(),
    {
        let from: usize = out.bytes.len();
        ChecksumIndexOutput { out, from }
    }

    /// CRC-32 of everything written so far.
    pub fn get_checksum(&self) -> (c: u64)
        ensures
            c == crc32_of(self.covered()) as u64,
    {
        let to: usize = self.out.bytes.len();
        let from: usize = if self.from <= to { self.from } else { to };
        let part = &self.out.bytes.as_slice()[from..to];
        assert(part@ =~= self.covered());
        crc32(part)
    }

    /// The written bytes.
    pub fn into_bytes(self) -> (b: Vec<u8>)
        ensures
            b@ == self.written(),
    {
        self.out.into_bytes()
    }
}

impl DataOutput for ChecksumIndexOutput {
    closed spec fn written(&self) -> Seq<u8> {
        self.out.written()
    }

    closed spec fn since(&self) -> nat {
        self.from as nat
    }

    fn write_byte(&mut self, b: u8) -> (r: Result<(), Error>) {
        self.out.write_byte(b)
    }

    fn write_bytes(&mut self, bytes: &[u8]) -> (r: Result<(), Error>) {
        self.out.write_bytes(bytes)
    }

    fn file_pointer(&self) -> (p: u64) {
        self.out.file_pointer()
    }
}

/// Writes the low 32 bits of a number, variable-length.
pub(crate) fn put_vint<O: DataOutput>(out: &mut O, x: u128) -> (r: Result<(), Error>)
    ensures
        final(out).since() == old(out).since(),
        r is Ok,
        final(out).written() == old(out).written() + vint_of(x as int),
{
    out.write_varint((x % 0x1_0000_0000) as u64)
}

/// Writes the low 64 bits of a number, variable-length.
pub(crate) fn put_vlong<O: DataOutput>(out: &mut O, x: u128) -> (r: Result<(), Error>)
    ensures
        final(out).since() == old(out).since(),
        r is Ok,
        final(out).written() == old(out).written() + vlong_of(x as int),
{
    out.write_varint((x % 0x1_0000_0000_0000_0000) as u64)
}

/// Writes a distance, variable-length.
pub(crate) fn put_distance<O: DataOutput>(out: &mut O, to: u64, from: u64) -> (r: Result<(), Error>)
    ensures
        final(out).since() == old(out).since(),
        r is Ok,
        final(out).written() == old(out).written() + vlong_of(to - from),
{
    out.write_varint(wrap_sub(to, from))
}

/// Writes a distance with a bit behind it, variable-length.
pub(crate) fn put_marked_distance<O: DataOutput>(out: &mut O, to: u64, from: u64, mark: bool) -> (r: Result<(), Error>)
    ensures
        final(out).since() == old(out).since(),
        r is Ok,
        final(out).written() == old(out).written() + vlong_of(2 * (to - from) + if mark { 1int } else { 0 }),
{
    let bit: u128 = if mark { 1 } else { 0 };
    let x: u128 = 2 * (to as u128 + 0x1_0000_0000_0000_0000 - from as u128) + bit;
    assert(x as int == 2 * (to - from) + bit + 2 * 0x1_0000_0000_0000_0000);
    assert(x as int % 0x1_0000_0000_0000_0000 == (2 * (to - from) + bit) % 0x1_0000_0000_0000_0000) by {
        vstd::arithmetic::div_mod::lemma_mod_multiples_vanish(2, 2 * (to - from) + bit, 0x1_0000_0000_0000_0000);
    }
    put_vlong(out, x)
}

/// A finished file of a segment.
pub struct SegmentFile {
    pub name: String,
    pub bytes: Vec<u8>,
}

// ---------------------------------------------------------------------------
// Input
// ---------------------------------------------------------------------------

/// What both kinds of input share, so that decoders can read through either.
pub trait DataInput {
    /// The whole image that is read.
    spec fn bytes(&self) -> Seq<u8>;

    /// The position of the next byte.
    spec fn pos(&self) -> int;

    /// What no read changes: the position where checksumming began, and the
    /// kind of error when a skip would go past the largest position.
    spec fn fixed(&self) -> (int, ErrorKind);

    fn file_pointer(&self) -> (p: u64)
        ensures
            p == self.pos(),
            0 <= self.pos() <= self.bytes().len(),
    ;

    fn length(&self) -> (n: u64)
        ensures
            n == self.bytes().len(),
            0 <= self.pos() <= self.bytes().len(),
    ;

    fn read_byte(&mut self) -> (r: Result<u8, Error>)
        ensures
            final(self).bytes() == old(self).bytes(),
            final(self).fixed() == old(self).fixed(),
            outcome(r, final(self).pos(), byte_at(old(self).bytes(), old(self).pos())),
            r is Err ==> final(self).pos() == old(self).pos(),
    ;

    /// Fills `buf`, or reads nothing and fails at the end of input.
    fn read_bytes(&mut self, buf: &mut [u8]) -> (r: Result<(), Error>)
        ensures
            final(self).bytes() == old(self).bytes(),
            final(self).fixed() == old(self).fixed(),
            final(buf)@.len() == old(buf)@.len(),
            match take_at(old(self).bytes(), old(self).pos(), old(buf)@.len() as int) {
                Ok((b, q)) => r is Ok && final(buf)@ == b && final(self).pos() == q,
                Err(k) => r is Err && r->Err_0.kind == k && final(buf)@ == old(buf)@ && final(self).pos() == old(self).pos(),
            },
    ;

    /// The next `n` bytes, or reads nothing and fails at the end of input.
    fn read_vec(&mut self, n: u64) -> (r: Result<Vec<u8>, Error>)
        ensures
            final(self).bytes() == old(self).bytes(),
            final(self).fixed() == old(self).fixed(),
            match take_at(old(self).bytes(), old(self).pos(), n as int) {
                Ok((b, q)) => r is Ok && r->Ok_0@ == b && final(self).pos() == q,
                Err(k) => r is Err && r->Err_0.kind == k && final(self).pos() == old(self).pos(),
            },
    ;

    /// Little-endian.
    fn read_short(&mut self) -> (r: Result<i16, Error>)
        ensures
            final(self).bytes() == old(self).bytes(),
            final(self).fixed() == old(self).fixed(),
            outcome(r, final(self).pos(), short_at(old(self).bytes(), old(self).pos())),
    {
        let b = self.read_vec(2)?;
        proof {
            lemma_pow2_widths();
            assert(b@.subrange(0, 2) =~= b@);
        }
        Ok(to_i16(le_u64(&b, 0, 2) as u16))
    }

    /// Little-endian.
    fn read_int(&mut self) -> (r: Result<i32, Error>)
        ensures
            final(self).bytes() == old(self).bytes(),
            final(self).fixed() == old(self).fixed(),
            outcome(r, final(self).pos(), int_at(old(self).bytes(), old(self).pos())),
    {
        let b = self.read_vec(4)?;
        proof {
            lemma_pow2_widths();
            assert(b@.subrange(0, 4) =~= b@);
        }
        Ok(to_i32(le_u64(&b, 0, 4) as u32))
    }

    /// Little-endian.
    fn read_long(&mut self) -> (r: Result<i64, Error>)
        ensures
            final(self).bytes() == old(self).bytes(),
            final(self).fixed() == old(self).fixed(),
            outcome(r, final(self).pos(), long_at(old(self).bytes(), old(self).pos())),
    {
        let b = self.read_vec(8)?;
        proof {
            lemma_pow2_widths();
            assert(b@.subrange(0, 8) =~= b@);
        }
        Ok(to_i64(le_u64(&b, 0, 8)))
    }

    /// Seven bits per group, low groups first, at most `max` groups.
    fn read_varint(&mut self, max: usize) -> (r: Result<u64, Error>)
        requires
            max <= 9,
        ensures
            final(self).bytes() == old(self).bytes(),
            final(self).fixed() == old(self).fixed(),
            match varint_scan(old(self).bytes(), old(self).pos(), max as nat, 1, 0) {
                Ok((n, q)) => r is Ok && r->Ok_0 == n && final(self).pos() == q && n < pow2(7 * max as nat),
                Err(k) => r is Err && r->Err_0.kind == k,
            },
    {
        let mut i: usize = 0;
        let mut weight: u64 = 1;
        let mut acc: u64 = 0;
        proof {
            lemma2_to64();
            lemma2_to64_rest();
        }
        while i < max
            invariant
                i <= max <= 9,
                self.bytes() == old(self).bytes(),
                self.fixed() == old(self).fixed(),
                weight == pow2(7 * i as nat),
                weight <= 0x8000_0000_0000_0000,
                acc < weight,
                varint_scan(old(self).bytes(), old(self).pos(), max as nat, 1, 0) == varint_scan(
                    self.bytes(), self.pos(), (max - i) as nat, weight as nat, acc as nat),
            decreases max - i,
        {
            let b: u8 = self.read_byte()?;
            proof {
                lemma_pow2_adds(7, 7 * i as nat);
                lemma2_to64();
                lemma2_to64_rest();
                assert(7 + 7 * i == 7 * (i + 1));
                if i < 8 {
                    vstd::arithmetic::power2::lemma_pow2_strictly_increases(7 * (i + 1) as nat, 64);
                }
                let d = if b < 128 { b as int } else { b - 128 };
                assert(0 <= d * weight <= 127 * weight) by (nonlinear_arith)
                    requires
                        0 <= d <= 127,
                        weight >= 0,
                ;
                assert(weight * 128 == 128 * weight) by (nonlinear_arith);
                if i + 1 < max {
                    vstd::arithmetic::power2::lemma_pow2_strictly_increases(7 * (i + 1) as nat, 7 * max as nat);
                }
            }
            if b < 128 {
                return Ok(acc + b as u64 * weight);
            }
            acc = acc + (b - 128) as u64 * weight;
            weight = weight * 128;
            i = i + 1;
        }
        Err(Error::new(ErrorKind::InvalidData, "variable-length number too long"))
    }

    /// Seven bits per group, low groups first; at most five bytes.
    fn read_vint(&mut self) -> (r: Result<i32, Error>)
        ensures
            final(self).bytes() == old(self).bytes(),
            final(self).fixed() == old(self).fixed(),
            outcome(r, final(self).pos(), vint_at(old(self).bytes(), old(self).pos())),
    {
        let v: u64 = self.read_varint(5)?;
        Ok(to_i32((v % 0x1_0000_0000) as u32))
    }

    /// Seven bits per group, low groups first; at most nine bytes, so never
    /// negative.
    fn read_vlong(&mut self) -> (r: Result<i64, Error>)
        ensures
            final(self).bytes() == old(self).bytes(),
            final(self).fixed() == old(self).fixed(),
            outcome(r, final(self).pos(), vlong_at(old(self).bytes(), old(self).pos())),
            r is Ok ==> r->Ok_0 >= 0,
    {
        let v: u64 = self.read_varint(9)?;
        proof {
            lemma_pow2_widths();
        }
        Ok(v as i64)
    }

    /// Variable-length, then zigzag.
    fn read_zint(&mut self) -> (r: Result<i32, Error>)
        ensures
            final(self).bytes() == old(self).bytes(),
            final(self).fixed() == old(self).fixed(),
            outcome(r, final(self).pos(), zint_at(old(self).bytes(), old(self).pos())),
    {
        let v: i32 = self.read_vint()?;
        Ok(unzigzag32(to_u32(v)))
    }

    /// Variable-length byte count, then UTF-8.
    fn read_string(&mut self) -> (r: Result<String, Error>)
        ensures
            final(self).bytes() == old(self).bytes(),
            final(self).fixed() == old(self).fixed(),
            match string_at(old(self).bytes(), old(self).pos()) {
                Ok((v, q)) => r is Ok && r->Ok_0@ == v && final(self).pos() == q,
                Err(k) => r is Err && r->Err_0.kind == k,
            },
    {
        let n: i32 = self.read_vint()?;
        let b = self.read_vec(to_u64(n as i64))?;
        match string_from_utf8(b) {
            Some(s) => Ok(s),
            None => Err(Error::new(ErrorKind::InvalidData, "invalid UTF-8 string")),
        }
    }

    /// Number of entries, then each key and value; a repeated key keeps its
    /// last value.
    fn read_map_of_strings(&mut self) -> (r: Result<StringMap, Error>)
        ensures
            final(self).bytes() == old(self).bytes(),
            final(self).fixed() == old(self).fixed(),
            match string_map_at(old(self).bytes(), old(self).pos()) {
                Ok((v, q)) => r is Ok && pairs_map(r->Ok_0.pairs()) == v && final(self).pos() == q,
                Err(k) => r is Err && r->Err_0.kind == k,
            },
    {
        let n: i32 = self.read_vint()?;
        let mut left: u64 = to_u64(n as i64);
        let mut map = StringMap::new();
        while left > 0
            invariant
                self.bytes() == old(self).bytes(),
                self.fixed() == old(self).fixed(),
                string_map_at(old(self).bytes(), old(self).pos()) == pairs_at(self.bytes(), self.pos(), left as nat, pairs_map(map.pairs())),
            decreases left,
        {
            let k = self.read_string()?;
            let v = self.read_string()?;
            map.insert(k, v);
            left = left - 1;
        }
        Ok(map)
    }

    /// Number of members, then each member.
    fn read_set_of_strings(&mut self) -> (r: Result<StringSet, Error>)
        ensures
            final(self).bytes() == old(self).bytes(),
            final(self).fixed() == old(self).fixed(),
            match string_set_at(old(self).bytes(), old(self).pos()) {
                Ok((v, q)) => r is Ok && r->Ok_0@ == v && final(self).pos() == q,
                Err(k) => r is Err && r->Err_0.kind == k,
            },
    {
        let n: i32 = self.read_vint()?;
        let mut left: u64 = to_u64(n as i64);
        let mut set = StringSet::new();
        while left > 0
            invariant
                self.bytes() == old(self).bytes(),
                self.fixed() == old(self).fixed(),
                string_set_at(old(self).bytes(), old(self).pos()) == strings_at(self.bytes(), self.pos(), left as nat, set@),
            decreases left,
        {
            let s = self.read_string()?;
            set.insert(s);
            left = left - 1;
        }
        Ok(set)
    }

    /// Moves `n` bytes ahead, or fails at the end of input.
    fn skip_bytes(&mut self, n: u64) -> (r: Result<(), Error>)
        ensures
            final(self).bytes() == old(self).bytes(),
            final(self).fixed() == old(self).fixed(),
            old(self).pos() + n <= old(self).bytes().len() ==> r is Ok && final(self).pos() == old(self).pos() + n,
            old(self).pos() + n > old(self).bytes().len() ==> r is Err && r->Err_0.kind == if old(self).pos() + n > u64::MAX {
                old(self).fixed().1
            } else {
                ErrorKind::UnexpectedEof
            },
    ;
}

/// A read position over a shared byte image, or over a slice of one.
pub struct IndexInput {
    data: Arc<Vec<u8>>,
    start: usize,
    len: usize,
    position: usize,
}

impl IndexInput {
    #[verifier::type_invariant]
    spec fn within(self) -> bool {
        &&& self.start + self.len <= self.data@.len()
        &&& self.start + self.len <= usize::MAX
        &&& self.position <= self.len
    }

    /// An input over `bytes`, positioned at their start.
    pub fn in_memory(bytes: Vec<u8>) -> (i: IndexInput)
        ensures
            i.bytes() == bytes@,
            i.pos() == 0,
    {
        let len: usize = bytes.len();
        let i = IndexInput { data: Arc::new(bytes), start: 0, len, position: 0 };
        assert(i.bytes() =~= bytes@);
        i
    }

    /// Moves to `pos`, which may be the end but not past it.
    pub fn seek(&mut self, pos: u64) -> (r: Result<(), Error>)
        ensures
            final(self).bytes() == old(self).bytes(),
            final(self).fixed() == old(self).fixed(),
            pos <= old(self).bytes().len() ==> r is Ok && final(self).pos() == pos,
            pos > old(self).bytes().len() ==> r is Err && r->Err_0.kind == ErrorKind::UnexpectedEof && final(self).pos() == old(self).pos(),
    {
        proof {
            use_type_invariant(&*self);
        }
        if pos > self.len as u64 {
            return Err(Error::new(ErrorKind::UnexpectedEof, "seek past EOF"));
        }
        self.position = pos as usize;
        Ok(())
    }

    /// An independent input over `[offset, offset + length)` of this one,
    /// sharing its bytes.
    pub fn slice(&self, offset: u64, length: u64) -> (r: Result<IndexInput, Error>)
        ensures
            offset + length <= self.bytes().len() ==> r is Ok && r->Ok_0.bytes() == self.bytes().subrange(offset as int, offset + length)
                && r->Ok_0.pos() == 0,
            offset + length > self.bytes().len() ==> r is Err && r->Err_0.kind == if offset + length > u64::MAX {
                ErrorKind::InvalidData
            } else {
                ErrorKind::UnexpectedEof
            },
    {
        proof {
            use_type_invariant(self);
        }
        if offset > u64::MAX - length {
            return Err(Error::new(ErrorKind::InvalidData, "slice end overflows"));
        }
        if offset + length > self.len as u64 {
            return Err(Error::new(ErrorKind::UnexpectedEof, "slice past EOF"));
        }
        let r = IndexInput {
            data: Arc::clone(&self.data),
            start: self.start + offset as usize,
            len: length as usize,
            position: 0,
        };
        assert(r.bytes() =~= self.bytes().subrange(offset as int, offset + length));
        Ok(r)
    }
}

impl DataInput for IndexInput {
    closed spec fn bytes(&self) -> Seq<u8> {
        self.data@.subrange(self.start as int, self.start + self.len)
    }

    closed spec fn pos(&self) -> int {
        self.position as int
    }

    open spec fn fixed(&self) -> (int, ErrorKind) {
        (0, ErrorKind::InvalidData)
    }

    fn file_pointer(&self) -> (p: u64) {
        proof {
            use_type_invariant(self);
        }
        self.position as u64
    }

    fn length(&self) -> (n: u64) {
        proof {
            use_type_invariant(self);
        }
        self.len as u64
    }

    fn read_byte(&mut self) -> (r: Result<u8, Error>) {
        proof {
            use_type_invariant(&*self);
        }
        if self.position >= self.len {
            return Err(Error::new(ErrorKind::UnexpectedEof, "read past EOF"));
        }
        let b: u8 = self.data[self.start + self.position];
        self.position = self.position + 1;
        Ok(b)
    }

    fn read_bytes(&mut self, buf: &mut [u8]) -> (r: Result<(), Error>) {
        proof {
            use_type_invariant(&*self);
        }
        if buf.len() > self.len - self.position {
            return Err(Error::new(ErrorKind::UnexpectedEof, "read past EOF"));
        }
        let n: usize = buf.len();
        let mut i: usize = 0;
        while i < n
            invariant
                i <= n == buf@.len(),
                n == old(buf)@.len(),
                *self == *old(self),
                self.start + self.len <= self.data@.len(),
                self.start + self.len <= usize::MAX,
                self.position + n <= self.len,
                forall|j: int| 0 <= j < i ==> buf@[j] == self.bytes()[self.pos() + j],
            decreases n - i,
        {
            buf[i] = self.data[self.start + self.position + i];
            i = i + 1;
        }
        assert(buf@ =~= old(self).bytes().subrange(old(self).pos(), old(self).pos() + n));
        self.position = self.position + n;
        Ok(())
    }

    fn read_vec(&mut self, n: u64) -> (r: Result<Vec<u8>, Error>) {
        proof {
            use_type_invariant(&*self);
        }
        if n > (self.len - self.position) as u64 {
            return Err(Error::new(ErrorKind::UnexpectedEof, "read past EOF"));
        }
        let from: usize = self.start + self.position;
        let mut out: Vec<u8> = Vec::new();
        out.extend_from_slice(&self.data.as_slice()[from..from + n as usize]);
        assert(out@ =~= old(self).bytes().subrange(old(self).pos(), old(self).pos() + n));
        self.position = self.position + n as usize;
        Ok(out)
    }

    fn skip_bytes(&mut self, n: u64) -> (r: Result<(), Error>) {
        proof {
            use_type_invariant(&*self);
        }
        if self.position as u64 > u64::MAX - n {
            return Err(Error::new(ErrorKind::InvalidData, "skip overflows"));
        }
        let target: u64 = self.position as u64 + n;
        self.seek(target)
    }
}

/// A read position over borrowed bytes.
pub struct SliceInput<'a> {
    data: &'a [u8],
    position: usize,
}

impl<'a> SliceInput<'a> {
    #[verifier::type_invariant]
    spec fn within(self) -> bool {
        self.position <= self.data@.len()
    }

    pub fn new(data: &'a [u8]) -> (r: SliceInput<'a>)
        ensures
            r.bytes() == data@,
            r.pos() == 0,
    {
        SliceInput { data, position: 0 }
    }

    /// How many bytes were read.
    pub fn position(&self) -> (r: usize)
        ensures
            r == self.pos(),
            0 <= self.pos() <= self.bytes().len(),
    {
        proof {
            use_type_invariant(self);
        }
        self.position
    }
}

impl<'a> DataInput for SliceInput<'a> {
    closed spec fn bytes(&self) -> Seq<u8> {
        self.data@
    }

    closed spec fn pos(&self) -> int {
        self.position as int
    }

    open spec fn fixed(&self) -> (int, ErrorKind) {
        (0, ErrorKind::UnexpectedEof)
    }

    fn file_pointer(&self) -> (p: u64) {
        proof {
            use_type_invariant(self);
        }
        self.position as u64
    }

    fn length(&self) -> (n: u64) {
        proof {
            use_type_invariant(self);
        }
        self.data.len() as u64
    }

    fn read_byte(&mut self) -> (r: Result<u8, Error>) {
        proof {
            use_type_invariant(&*self);
        }
        if self.position >= self.data.len() {
            return Err(Error::new(ErrorKind::UnexpectedEof, "read past EOF"));
        }
        let b: u8 = self.data[self.position];
        self.position = self.position + 1;
        Ok(b)
    }

    fn read_bytes(&mut self, buf: &mut [u8]) -> (r: Result<(), Error>) {
        proof {
            use_type_invariant(&*self);
        }
        if buf.len() > self.data.len() - self.position {
            return Err(Error::new(ErrorKind::UnexpectedEof, "read past EOF"));
        }
        let n: usize = buf.len();
        let mut i: usize = 0;
        while i < n
            invariant
                i <= n == buf@.len(),
                n == old(buf)@.len(),
                *self == *old(self),
                self.position + n <= self.data.len(),
                forall|j: int| 0 <= j < i ==> buf@[j] == self.bytes()[self.pos() + j],
            decreases n - i,
        {
            buf[i] = self.data[self.position + i];
            i = i + 1;
        }
        assert(buf@ =~= old(self).bytes().subrange(old(self).pos(), old(self).pos() + n));
        self.position = self.position + n;
        Ok(())
    }

    fn read_vec(&mut self, n: u64) -> (r: Result<Vec<u8>, Error>) {
        proof {
            use_type_invariant(&*self);
        }
        if n > (self.data.len() - self.position) as u64 {
            return Err(Error::new(ErrorKind::UnexpectedEof, "read past EOF"));
        }
        let mut out: Vec<u8> = Vec::new();
        out.extend_from_slice(&self.data[self.position..self.position + n as usize]);
        assert(out@ =~= old(self).bytes().subrange(old(self).pos(), old(self).pos() + n));
        self.position = self.position + n as usize;
        Ok(out)
    }

    fn skip_bytes(&mut self, n: u64) -> (r: Result<(), Error>) {
        proof {
            use_type_invariant(&*self);
        }
        if n > (self.data.len() - self.position) as u64 {
            return Err(Error::new(ErrorKind::UnexpectedEof, "skip past EOF"));
        }
        self.position = self.position + n as usize;
        Ok(())
    }
}

/// An input that can give the CRC-32 of everything read through it. It is
/// read strictly in sequence.
pub struct ChecksumIndexInput {
    input: IndexInput,
    from: usize,
}

impl ChecksumIndexInput {
    /// The bytes that the running checksum covers.
    pub open spec fn covered(&self) -> Seq<u8> {
        if self.fixed().0 <= self.pos() {
            self.bytes().subrange(self.fixed().0, self.pos())
        } else {
            Seq::empty()
        }
    }

    pub fn new(input: IndexInput) -> (r: ChecksumIndexInput)
        ensures
            r.bytes() == input.bytes(),
            r.pos() == input.pos(),
            r.fixed() == (input.pos(), ErrorKind::UnexpectedEof),
    {
        proof {
            use_type_invariant(&input);
        }
        let from: usize = input.position;
        ChecksumIndexInput { input, from }
    }

    /// CRC-32 of everything read so far.
    pub fn get_checksum(&self) -> (c: u64)
        ensures
            c == crc32_of(self.covered()) as u64,
    {
        proof {
            use_type_invariant(&self.input);
        }
        let base: usize = self.input.start;
        let to: usize = self.input.position;
        let from: usize = if self.from <= to { self.from } else { to };
        let part = &self.input.data.as_slice()[base + from..base + to];
        assert(part@ =~= self.covered());
        crc32(part)
    }
}

impl DataInput for ChecksumIndexInput {
    closed spec fn bytes(&self) -> Seq<u8> {
        self.input.bytes()
    }

    closed spec fn pos(&self) -> int {
        self.input.pos()
    }

    closed spec fn fixed(&self) -> (int, ErrorKind) {
        (self.from as int, ErrorKind::UnexpectedEof)
    }

    fn file_pointer(&self) -> (p: u64) {
        self.input.file_pointer()
    }

    fn length(&self) -> (n: u64) {
        self.input.length()
    }

    fn read_byte(&mut self) -> (r: Result<u8, Error>) {
        self.input.read_byte()
    }

    fn read_bytes(&mut self, buf: &mut [u8]) -> (r: Result<(), Error>) {
        self.input.read_bytes(buf)
    }

    fn read_vec(&mut self, n: u64) -> (r: Result<Vec<u8>, Error>) {
        self.input.read_vec(n)
    }

    fn skip_bytes(&mut self, n: u64) -> (r: Result<(), Error>) {
        match self.read_vec(n) {
            Ok(_) => Ok(()),
            Err(e) => Err(e),
        }
    }
}

} // verus!
