//! Headers and footers of index files. The numbers in them are big-endian.

use crate::bytes::{
    be_bytes, be_nat, be_u64, be_vec, bytes_equal, holds_at, lemma_be_bytes_len, lemma_be_round_trip, lemma_holds_concat, lemma_holds_index, lemma_pow2_widths, lemma_var_ends, take_at, byte_at,
};
use crate::error::{outcome, Error, ErrorKind};
use crate::io::{bytes_since, crc32_of, ChecksumIndexInput, ChecksumIndexOutput, DataInput, DataOutput, IndexInput};
use crate::strings::{law_string_round_trip, lemma_utf8_injective, string_at, string_bytes};
use vstd::prelude::*;
use vstd::utf8::encode_utf8;

verus! {

/// First four bytes of every header.
pub const CODEC_MAGIC: u32 = 0x3fd76c17;

/// First four bytes of every footer: the complement of [`CODEC_MAGIC`].
pub const FOOTER_MAGIC: u32 = 0xC02893E8;

/// Magic (4), algorithm id (4) and checksum (8).
pub const FOOTER_LENGTH: usize = 16;

/// The checksum algorithm of footers: 0 stands for CRC-32.
pub const FOOTER_ALGORITHM_ID: u32 = 0;

/// The error for bytes that do not have the expected form.
pub fn corrupt(message: &'static str) -> (e: Error)
    ensures
        e.kind == ErrorKind::InvalidData,
        e.message == message,
{
    Error::new(ErrorKind::InvalidData, message)
}

/// Writes `v`, most significant byte first.
pub fn write_be_int(out: &mut ChecksumIndexOutput, v: u32) -> (r: Result<(), Error>)
    ensures
        final(out).since() == old(out).since(),
        r is Ok,
        final(out).written() == old(out).written() + be_bytes(v as nat, 4),
{
    let b = be_vec(v as u64, 4);
    out.write_bytes(&b)
}

/// Writes `v`, most significant byte first.
pub fn write_be_long(out: &mut ChecksumIndexOutput, v: u64) -> (r: Result<(), Error>)
    ensures
        final(out).since() == old(out).since(),
        r is Ok,
        final(out).written() == old(out).written() + be_bytes(v as nat, 8),
{
    let b = be_vec(v, 8);
    out.write_bytes(&b)
}

/// The big-endian int at `p`.
pub open spec fn be_int_at(s: Seq<u8>, p: int) -> Result<(u32, int), ErrorKind> {
    match take_at(s, p, 4) {
        Ok((b, q)) => Ok((be_nat(b) as u32, q)),
        Err(k) => Err(k),
    }
}

/// The big-endian long at `p`.
pub open spec fn be_long_at(s: Seq<u8>, p: int) -> Result<(u64, int), ErrorKind> {
    match take_at(s, p, 8) {
        Ok((b, q)) => Ok((be_nat(b) as u64, q)),
        Err(k) => Err(k),
    }
}

/// Reads an int, most significant byte first.
pub fn read_be_int<I: DataInput>(input: &mut I) -> (r: Result<u32, Error>)
    ensures
        final(input).bytes() == old(input).bytes(),
        final(input).fixed() == old(input).fixed(),
        outcome(r, final(input).pos(), be_int_at(old(input).bytes(), old(input).pos())),
{
    let b = input.read_vec(4)?;
    proof {
        lemma_pow2_widths();
        assert(b@.subrange(0, 4) =~= b@);
    }
    Ok(be_u64(&b, 0, 4) as u32)
}

/// Reads a long, most significant byte first.
pub fn read_be_long<I: DataInput>(input: &mut I) -> (r: Result<u64, Error>)
    ensures
        final(input).bytes() == old(input).bytes(),
        final(input).fixed() == old(input).fixed(),
        outcome(r, final(input).pos(), be_long_at(old(input).bytes(), old(input).pos())),
{
    let b = input.read_vec(8)?;
    proof {
        assert(b@.subrange(0, 8) =~= b@);
    }
    Ok(be_u64(&b, 0, 8))
}

/// A big-endian int that was written is read back.
pub proof fn law_be_int_round_trip(s: Seq<u8>, p: int, v: u32)
    requires
        holds_at(s, p, be_bytes(v as nat, 4)),
    ensures
        be_int_at(s, p) == Ok::<(u32, int), ErrorKind>((v, p + 4)),
{
    broadcast use lemma_be_bytes_len;
    lemma_pow2_widths();
    lemma_be_round_trip(v as nat, 4);
}

/// A big-endian long that was written is read back.
pub proof fn law_be_long_round_trip(s: Seq<u8>, p: int, v: u64)
    requires
        holds_at(s, p, be_bytes(v as nat, 8)),
    ensures
        be_long_at(s, p) == Ok::<(u64, int), ErrorKind>((v, p + 8)),
{
    broadcast use lemma_be_bytes_len;
    lemma_pow2_widths();
    lemma_be_round_trip(v as nat, 8);
}

/// Length of a plain header: magic (4), name length (1), name, version (4).
pub fn header_length(codec: &str) -> (n: usize)
    requires
        encode_utf8(codec@).len() + 9 <= usize::MAX,
    ensures
        n == 9 + encode_utf8(codec@).len(),
{
    9 + codec.as_bytes().len()
}

/// Length of an index header: a plain header, id (16), suffix length (1),
/// suffix.
pub fn index_header_length(codec: &str, suffix: &str) -> (n: usize)
    requires
        encode_utf8(codec@).len() + encode_utf8(suffix@).len() + 26 <= usize::MAX,
    ensures
        n == 26 + encode_utf8(codec@).len() + encode_utf8(suffix@).len(),
{
    header_length(codec) + 16 + 1 + suffix.as_bytes().len()
}

/// A plain header: magic, codec name, version.
pub open spec fn header_bytes(codec: Seq<char>, version: u32) -> Seq<u8> {
    be_bytes(CODEC_MAGIC as nat, 4) + string_bytes(codec) + be_bytes(version as nat, 4)
}

/// An index header: a plain header, the segment id, then the suffix behind
/// its one-byte length.
pub open spec fn index_header_bytes(codec: Seq<char>, version: u32, id: Seq<u8>, suffix: Seq<char>) -> Seq<u8> {
    header_bytes(codec, version) + id + seq![encode_utf8(suffix).len() as u8] + encode_utf8(suffix)
}

/// The header lengths are the lengths of the headers.
pub proof fn law_index_header_length(codec: Seq<char>, version: u32, id: Seq<u8>, suffix: Seq<char>)
    requires
        encode_utf8(codec).len() < 128,
        id.len() == 16,
    ensures
        header_bytes(codec, version).len() == 9 + encode_utf8(codec).len(),
        index_header_bytes(codec, version, id, suffix).len() == 26 + encode_utf8(codec).len() + encode_utf8(suffix).len(),
{
    broadcast use lemma_be_bytes_len;
}

/// Writes a plain header.
pub fn write_header(out: &mut ChecksumIndexOutput, codec: &str, version: u32) -> (r: Result<(), Error>)
    ensures
        final(out).since() == old(out).since(),
        r is Ok,
        final(out).written() == old(out).written() + header_bytes(codec@, version),
{
    write_be_int(out, CODEC_MAGIC)?;
    out.write_string(codec)?;
    write_be_int(out, version)?;
    assert(out.written() =~= old(out).written() + header_bytes(codec@, version));
    Ok(())
}

/// Writes an index header.
pub fn write_index_header(
    out: &mut ChecksumIndexOutput,
    codec: &str,
    version: u32,
    id: &[u8; 16],
    suffix: &str,
) -> (r: Result<(), Error>)
    requires
        encode_utf8(codec@).len() < 128,
        encode_utf8(suffix@).len() < 256,
    ensures
        final(out).since() == old(out).since(),
        r is Ok,
        final(out).written() == old(out).written() + index_header_bytes(codec@, version, id@, suffix@),
{
    write_header(out, codec, version)?;
    out.write_bytes(id.as_slice())?;
    out.write_byte(suffix.as_bytes().len() as u8)?;
    out.write_bytes(suffix.as_bytes())?;
    assert(out.written() =~= old(out).written() + index_header_bytes(codec@, version, id@, suffix@));
    Ok(())
}

/// The plain header of `codec` at `p`, with a version in `[min, max]`.
pub open spec fn header_at(s: Seq<u8>, p: int, codec: Seq<char>, min: u32, max: u32) -> Result<(u32, int), ErrorKind> {
    match be_int_at(s, p) {
        Ok((magic, q)) => if magic != CODEC_MAGIC {
            Err(ErrorKind::InvalidData)
        } else {
            match string_at(s, q) {
                Ok((name, e)) => if name != codec {
                    Err(ErrorKind::InvalidData)
                } else {
                    match be_int_at(s, e) {
                        Ok((version, z)) => if min <= version <= max {
                            Ok((version, z))
                        } else {
                            Err(ErrorKind::InvalidData)
                        },
                        Err(k) => Err(k),
                    }
                },
                Err(k) => Err(k),
            }
        },
        Err(k) => Err(k),
    }
}

/// A plain header ends behind its begin.
pub(crate) proof fn lemma_header_ends(s: Seq<u8>, p: int, codec: Seq<char>, min: u32, max: u32)
    requires
        0 <= p,
    ensures
        header_at(s, p, codec, min, max) matches Ok((_, z)) ==> p < z <= s.len(),
{
    lemma_var_ends(s, p + 4);
}

/// The index header at `p`.
pub open spec fn index_header_at(
    s: Seq<u8>,
    p: int,
    codec: Seq<char>,
    min: u32,
    max: u32,
    id: Seq<u8>,
    suffix: Seq<char>,
) -> Result<(u32, int), ErrorKind> {
    match header_at(s, p, codec, min, max) {
        Ok((version, q)) => match take_at(s, q, 16) {
            Ok((b, e)) => if b != id {
                Err(ErrorKind::InvalidData)
            } else {
                match byte_at(s, e) {
                    Ok((n, f)) => match take_at(s, f, n as int) {
                        Ok((t, z)) => if t == encode_utf8(suffix) {
                            Ok((version, z))
                        } else {
                            Err(ErrorKind::InvalidData)
                        },
                        Err(k) => Err(k),
                    },
                    Err(k) => Err(k),
                }
            },
            Err(k) => Err(k),
        },
        Err(k) => Err(k),
    }
}

/// Checks magic, codec name and version range; gives the version.
pub fn check_header<I: DataInput>(input: &mut I, codec: &str, min_version: u32, max_version: u32) -> (r: Result<u32, Error>)
    ensures
        final(input).bytes() == old(input).bytes(),
        final(input).fixed() == old(input).fixed(),
        outcome(r, final(input).pos(), header_at(old(input).bytes(), old(input).pos(), codec@, min_version, max_version)),
{
    let magic: u32 = read_be_int(input)?;
    if magic != CODEC_MAGIC {
        return Err(corrupt("codec header mismatch"));
    }
    let name = input.read_string()?;
    proof {
        lemma_utf8_injective(name@, codec@);
    }
    if !bytes_equal(name.as_str().as_bytes(), codec.as_bytes()) {
        return Err(corrupt("codec name mismatch"));
    }
    let version: u32 = read_be_int(input)?;
    if version < min_version || version > max_version {
        return Err(corrupt("unsupported version"));
    }
    Ok(version)
}

/// Checks a plain header, then the segment id and the suffix.
pub fn check_index_header<I: DataInput>(
    input: &mut I,
    codec: &str,
    min_version: u32,
    max_version: u32,
    id: &[u8; 16],
    suffix: &str,
) -> (r: Result<u32, Error>)
    ensures
        final(input).bytes() == old(input).bytes(),
        final(input).fixed() == old(input).fixed(),
        outcome(r, final(input).pos(), index_header_at(old(input).bytes(), old(input).pos(), codec@, min_version, max_version, id@, suffix@)),
{
    let version: u32 = check_header(input, codec, min_version, max_version)?;
    let got = input.read_vec(16)?;
    if !bytes_equal(&got, id.as_slice()) {
        return Err(corrupt("segment id mismatch"));
    }
    let n: u8 = input.read_byte()?;
    let got = input.read_vec(n as u64)?;
    if !bytes_equal(&got, suffix.as_bytes()) {
        return Err(corrupt("segment suffix mismatch"));
    }
    Ok(version)
}

/// The place behind the index header at `p`, whatever codec, version, id and
/// suffix it names.
pub open spec fn any_index_header_at(s: Seq<u8>, p: int) -> Result<((), int), ErrorKind> {
    match be_int_at(s, p) {
        Ok((magic, q)) => if magic != CODEC_MAGIC {
            Err(ErrorKind::InvalidData)
        } else {
            match string_at(s, q) {
                Ok((_, e)) => match take_at(s, e, 20) {
                    Ok((_, f)) => match byte_at(s, f) {
                        Ok((n, g)) => match take_at(s, g, n as int) {
                            Ok((_, z)) => Ok(((), z)),
                            Err(k) => Err(k),
                        },
                        Err(k) => Err(k),
                    },
                    Err(k) => Err(k),
                },
                Err(k) => Err(k),
            }
        },
        Err(k) => Err(k),
    }
}

/// Steps over an index header of any codec.
pub fn skip_index_header<I: DataInput>(input: &mut I) -> (r: Result<(), Error>)
    ensures
        final(input).bytes() == old(input).bytes(),
        final(input).fixed() == old(input).fixed(),
        outcome(r, final(input).pos(), any_index_header_at(old(input).bytes(), old(input).pos())),
{
    let magic: u32 = read_be_int(input)?;
    if magic != CODEC_MAGIC {
        return Err(corrupt("codec header mismatch"));
    }
    let _name = input.read_string()?;
    let _version_and_id = input.read_vec(20)?;
    let n: u8 = input.read_byte()?;
    let _suffix = input.read_vec(n as u64)?;
    Ok(())
}

/// A plain header that was written passes its check.
pub proof fn law_header_round_trip(s: Seq<u8>, p: int, codec: Seq<char>, version: u32, min: u32, max: u32)
    requires
        holds_at(s, p, header_bytes(codec, version)),
        encode_utf8(codec).len() < 0x8000_0000,
        min <= version <= max,
    ensures
        header_at(s, p, codec, min, max) == Ok::<(u32, int), ErrorKind>((version, p + header_bytes(codec, version).len())),
{
    broadcast use lemma_be_bytes_len;
    let m = be_bytes(CODEC_MAGIC as nat, 4);
    let n = string_bytes(codec);
    let v = be_bytes(version as nat, 4);
    lemma_holds_concat(s, p, m + n, v);
    lemma_holds_concat(s, p, m, n);
    law_be_int_round_trip(s, p, CODEC_MAGIC);
    law_string_round_trip(s, p + 4, codec);
    law_be_int_round_trip(s, p + 4 + n.len(), version);
}

/// An index header that was written passes its check, and is stepped over.
pub proof fn law_index_header_round_trip(
    s: Seq<u8>,
    p: int,
    codec: Seq<char>,
    version: u32,
    min: u32,
    max: u32,
    id: Seq<u8>,
    suffix: Seq<char>,
)
    requires
        holds_at(s, p, index_header_bytes(codec, version, id, suffix)),
        encode_utf8(codec).len() < 0x8000_0000,
        encode_utf8(suffix).len() < 256,
        id.len() == 16,
        min <= version <= max,
    ensures
        index_header_at(s, p, codec, min, max, id, suffix) == Ok::<(u32, int), ErrorKind>(
            (version, p + index_header_bytes(codec, version, id, suffix).len()),
        ),
        any_index_header_at(s, p) == Ok::<((), int), ErrorKind>(
            ((), p + index_header_bytes(codec, version, id, suffix).len()),
        ),
{
    broadcast use lemma_be_bytes_len;
    let h = header_bytes(codec, version);
    let n = seq![encode_utf8(suffix).len() as u8];
    let t = encode_utf8(suffix);
    lemma_holds_concat(s, p, h + id + n, t);
    lemma_holds_concat(s, p, h + id, n);
    lemma_holds_concat(s, p, h, id);
    law_header_round_trip(s, p, codec, version, min, max);
    lemma_holds_index(s, p + h.len() + 16, n, 0);
    let m = be_bytes(CODEC_MAGIC as nat, 4);
    let v = be_bytes(version as nat, 4);
    lemma_holds_concat(s, p, m + string_bytes(codec), v);
    lemma_holds_concat(s, p, m, string_bytes(codec));
    law_be_int_round_trip(s, p, CODEC_MAGIC);
    law_string_round_trip(s, p + 4, codec);
}

/// The first eight bytes of a footer.
pub open spec fn footer_head() -> Seq<u8> {
    be_bytes(FOOTER_MAGIC as nat, 4) + be_bytes(FOOTER_ALGORITHM_ID as nat, 4)
}

/// The footer of a file whose earlier bytes are `body`: magic, algorithm, and
/// the CRC-32 of everything up to there.
pub open spec fn footer_bytes(body: Seq<u8>) -> Seq<u8> {
    footer_head() + be_bytes(crc32_of(body + footer_head()) as nat, 8)
}

/// The footer behind `written` if the checksum began after `since` bytes.
pub open spec fn footer_since(written: Seq<u8>, since: nat) -> Seq<u8> {
    footer_head() + be_bytes(crc32_of(bytes_since(written + footer_head(), since)) as nat, 8)
}

/// Writes the footer that belongs behind everything written so far.
pub fn write_footer(out: &mut ChecksumIndexOutput) -> (r: Result<(), Error>)
    ensures
        final(out).since() == old(out).since(),
        r is Ok,
        final(out).written() == old(out).written() + footer_since(old(out).written(), old(out).since()),
        old(out).since() == 0 ==> final(out).written() == old(out).written() + footer_bytes(old(out).written()),
{
    write_be_int(out, FOOTER_MAGIC)?;
    write_be_int(out, FOOTER_ALGORITHM_ID)?;
    assert(out.written() =~= old(out).written() + footer_head());
    let crc: u64 = out.get_checksum();
    write_be_long(out, crc)?;
    assert(out.written() =~= old(out).written() + footer_since(old(out).written(), old(out).since()));
    assert((old(out).written() + footer_head()).skip(0) =~= old(out).written() + footer_head());
    Ok(())
}

/// The rest of `s` from `p` is a footer whose checksum is that of the bytes
/// from `from` to the checksum.
pub open spec fn valid_footer_at(s: Seq<u8>, p: int, from: int) -> bool {
    &&& p + FOOTER_LENGTH == s.len()
    &&& be_int_at(s, p) == Ok::<(u32, int), ErrorKind>((FOOTER_MAGIC, p + 4))
    &&& be_int_at(s, p + 4) == Ok::<(u32, int), ErrorKind>((FOOTER_ALGORITHM_ID, p + 8))
    &&& be_long_at(s, p + 8) == Ok::<(u64, int), ErrorKind>(
        (crc32_of(if from <= p + 8 { s.subrange(from, p + 8) } else { Seq::empty() }) as u64, p + 16),
    )
}

/// Checks the footer that the input stands before: nothing else may be left,
/// and its checksum must be that of everything read.
pub fn check_footer(input: &mut ChecksumIndexInput) -> (r: Result<(), Error>)
    ensures
        final(input).bytes() == old(input).bytes(),
        final(input).fixed() == old(input).fixed(),
        r is Ok <==> valid_footer_at(old(input).bytes(), old(input).pos(), old(input).fixed().0),
        r is Ok ==> final(input).pos() == old(input).pos() + 16,
        r is Err ==> r->Err_0.kind == ErrorKind::InvalidData,
{
    let left: u64 = input.length() - input.file_pointer();
    if left != FOOTER_LENGTH as u64 {
        return Err(corrupt("misplaced codec footer"));
    }
    let magic: u32 = read_be_int(input)?;
    if magic != FOOTER_MAGIC {
        return Err(corrupt("codec footer mismatch"));
    }
    let algorithm: u32 = read_be_int(input)?;
    if algorithm != FOOTER_ALGORITHM_ID {
        return Err(corrupt("unknown footer algorithm"));
    }
    let actual: u64 = input.get_checksum();
    let expected: u64 = read_be_long(input)?;
    if actual != expected {
        return Err(corrupt("checksum failed"));
    }
    Ok(())
}

/// A footer that was written passes its check.
pub proof fn law_footer_round_trip(body: Seq<u8>)
    ensures
        valid_footer_at(body + footer_bytes(body), body.len() as int, 0),
{
    broadcast use lemma_be_bytes_len;
    let s = body + footer_bytes(body);
    let m = be_bytes(FOOTER_MAGIC as nat, 4);
    let a = be_bytes(FOOTER_ALGORITHM_ID as nat, 4);
    let c = be_bytes(crc32_of(body + footer_head()) as nat, 8);
    let p = body.len() as int;
    assert(s.subrange(p, p + footer_bytes(body).len()) =~= footer_bytes(body));
    lemma_holds_concat(s, p, m + a, c);
    lemma_holds_concat(s, p, m, a);
    law_be_int_round_trip(s, p, FOOTER_MAGIC);
    law_be_int_round_trip(s, p + 4, FOOTER_ALGORITHM_ID);
    law_be_long_round_trip(s, p + 8, crc32_of(body + footer_head()) as u64);
    assert(s.subrange(0, p + 8) =~= body + footer_head());
}

/// The file has exactly the expected length and ends in something of a
/// footer's shape; the checksum itself is not compared.
pub open spec fn footer_structure(s: Seq<u8>, expected_length: int) -> bool {
    let p = s.len() - FOOTER_LENGTH;
    &&& s.len() == expected_length
    &&& p >= 0
    &&& be_nat(s.subrange(p, p + 4)) == FOOTER_MAGIC
    &&& be_nat(s.subrange(p + 4, p + 8)) == FOOTER_ALGORITHM_ID
    &&& be_nat(s.subrange(p + 8, p + 16)) < 0x1_0000_0000
}

/// Checks length and footer structure without reading the whole file.
pub fn check_footer_structure(input: &IndexInput, expected_length: u64) -> (r: Result<(), Error>)
    ensures
        r is Ok <==> footer_structure(input.bytes(), expected_length as int),
        r is Err ==> r->Err_0.kind == ErrorKind::InvalidData,
{
    let n: u64 = input.length();
    if n != expected_length {
        return Err(corrupt("unexpected file length"));
    }
    if n < FOOTER_LENGTH as u64 {
        return Err(corrupt("file too short for a footer"));
    }
    let ghost s = input.bytes();
    let p: u64 = n - FOOTER_LENGTH as u64;
    let mut tail = input.slice(p, 16)?;
    let t = tail.read_vec(16)?;
    assert(t@ =~= s.subrange(p as int, p + 16));
    proof {
        lemma_pow2_widths();
        assert(t@.subrange(0, 4) =~= s.subrange(p as int, p + 4));
        assert(t@.subrange(4, 8) =~= s.subrange(p + 4, p + 8));
        assert(t@.subrange(8, 16) =~= s.subrange(p + 8, p + 16));
    }
    if be_u64(&t, 0, 4) != FOOTER_MAGIC as u64 {
        return Err(corrupt("codec footer mismatch"));
    }
    if be_u64(&t, 4, 4) != FOOTER_ALGORITHM_ID as u64 {
        return Err(corrupt("unknown footer algorithm"));
    }
    if be_u64(&t, 8, 8) >= 0x1_0000_0000 {
        return Err(corrupt("illegal checksum"));
    }
    Ok(())
}

/// A file that ends in a written footer has footer structure.
pub proof fn law_footer_structure(body: Seq<u8>)
    ensures
        footer_structure(body + footer_bytes(body), (body + footer_bytes(body)).len() as int),
{
    broadcast use lemma_be_bytes_len;
    law_footer_round_trip(body);
    let s = body + footer_bytes(body);
    let p = body.len() as int;
    lemma_pow2_widths();
    crate::bytes::lemma_le_nat_bound(s.subrange(p, p + 4).reverse());
    crate::bytes::lemma_le_nat_bound(s.subrange(p + 4, p + 8).reverse());
    crate::bytes::lemma_le_nat_bound(s.subrange(p + 8, p + 16).reverse());
}

} // verus!
