//! Reads per-document values in document order: every document's number,
//! byte string or ordinal, and whole dictionaries.

use crate::bytes::{byte_at, i32_in, i64_in, int_at, lemma_var_ends, push_all, take_at, vint_at, vlong_at};
use crate::codec_util::{check_footer, check_footer_structure, check_index_header, corrupt, footer_structure, index_header_at, valid_footer_at};
use crate::disi::{decode_disi_region, disi_at};
use crate::doc_values::{binary_view, DATA_CODEC, DIRECT_MONOTONIC_BLOCK_SHIFT, META_CODEC, TYPE_BINARY, TYPE_NUMERIC, TYPE_SORTED, VERSION};
use crate::error::{outcome, Error, ErrorKind};
use crate::io::{ChecksumIndexInput, DataInput, IndexInput, SliceInput};
use crate::num::{spec_to_i64, spec_to_u32, spec_to_u64, spec_wrap_add, spec_wrap_mul, to_i64, to_u32, to_u64, wrap_add, wrap_mul};
use crate::packed::{block_count, direct_value, record_at, record_covers, record_value, supported, DirectMonotonicReader, DirectReader};
use crate::lz4_block::{lz4_decompress, lz4_decompressed};
use crate::terms_dict::{block_end, key_count, term_blocks};
use vstd::arithmetic::power2::lemma2_to64;
use vstd::prelude::*;

verus! {

/// Where a numeric field's documents and values are, and how the values are
/// packed. A documents offset of -2 stands for no documents, one of -1 for
/// all.
#[derive(Clone, Copy, Debug)]
pub struct NumericMeta {
    pub docs_offset: i64,
    pub docs_length: i64,
    pub num_values: u64,
    pub bpv: u8,
    pub min: i64,
    pub gcd: i64,
    pub values_offset: i64,
    pub values_length: i64,
}

/// The size of a dictionary, and where its blocks and their addresses are.
#[derive(Clone, Copy, Debug)]
pub struct TermsMeta {
    pub dict_size: u64,
    pub data_offset: i64,
    pub data_length: i64,
    pub addresses_offset: i64,
    pub addresses_length: i64,
}

/// Where a byte-string field's values, documents and addresses are.
#[derive(Clone, Copy, Debug)]
pub struct BinaryMeta {
    pub data_offset: i64,
    pub data_length: i64,
    pub docs_offset: i64,
    pub docs_length: i64,
    pub num_values: u32,
    pub min_length: i32,
    pub max_length: i32,
    pub addresses_offset: i64,
    pub addresses_length: i64,
}

#[derive(Debug)]
pub enum DvEntry {
    Numeric(NumericMeta),
    Sorted(NumericMeta, TermsMeta, Vec<u8>),
    Binary(BinaryMeta, Vec<u8>),
}

/// A field's entry; sorted and byte-string fields with the records of their
/// address blocks.
pub enum FieldEntry {
    Numeric(NumericMeta),
    Sorted(NumericMeta, TermsMeta, Seq<u8>),
    Binary(BinaryMeta, Seq<u8>),
}

impl View for DvEntry {
    type V = FieldEntry;

    open spec fn view(&self) -> FieldEntry {
        match *self {
            DvEntry::Numeric(m) => FieldEntry::Numeric(m),
            DvEntry::Sorted(m, t, a) => FieldEntry::Sorted(m, t, a@),
            DvEntry::Binary(m, a) => FieldEntry::Binary(m, a@),
        }
    }
}

// ---------------------------------------------------------------------------
// The metadata
// ---------------------------------------------------------------------------

/// The description of a numeric field at `p`.
pub open spec fn numeric_meta_at(s: Seq<u8>, p: int) -> Result<(NumericMeta, int), ErrorKind> {
    if p + 31 > s.len() {
        Err(ErrorKind::UnexpectedEof)
    } else if i32_in(s, p + 27) != -1 {
        Err(ErrorKind::InvalidData)
    } else if p + 72 > s.len() {
        Err(ErrorKind::UnexpectedEof)
    } else if i64_in(s, p + 64) != -1 {
        Err(ErrorKind::InvalidData)
    } else {
        Ok((
            NumericMeta {
                docs_offset: i64_in(s, p),
                docs_length: i64_in(s, p + 8),
                num_values: spec_to_u64(i64_in(s, p + 19)),
                bpv: s[p + 31],
                min: i64_in(s, p + 32),
                gcd: i64_in(s, p + 40),
                values_offset: i64_in(s, p + 48),
                values_length: i64_in(s, p + 56),
            },
            p + 72,
        ))
    }
}

/// The bytes that the records of `n` values in blocks of `2^shift` take.
pub open spec fn records_len(n: nat, shift: nat) -> nat {
    21 * block_count(n, shift)
}

/// The description of a dictionary at `p`, with the records of its block
/// addresses. The records of the sort keys are stepped over.
pub open spec fn terms_meta_at(s: Seq<u8>, p: int) -> Result<((TermsMeta, Seq<u8>), int), ErrorKind> {
    match vlong_at(s, p) {
        Ok((n, q)) => {
            let a = q + 4;
            let b = a + records_len(term_blocks(n as int) as nat, 16);
            let c = b + 44;
            let d = c + records_len((key_count(n as int) + 1) as nat, 16);
            if q + 4 > s.len() {
                Err(ErrorKind::UnexpectedEof)
            } else if i32_in(s, q) != 16 {
                Err(ErrorKind::InvalidData)
            } else if c > s.len() {
                Err(ErrorKind::UnexpectedEof)
            } else if i32_in(s, b + 40) != 10 {
                Err(ErrorKind::InvalidData)
            } else if d + 32 > s.len() {
                Err(ErrorKind::UnexpectedEof)
            } else {
                Ok((
                    (
                        TermsMeta {
                            dict_size: n as u64,
                            data_offset: i64_in(s, b + 8),
                            data_length: i64_in(s, b + 16),
                            addresses_offset: i64_in(s, b + 24),
                            addresses_length: i64_in(s, b + 32),
                        },
                        s.subrange(a, b),
                    ),
                    d + 32,
                ))
            }
        },
        Err(k) => Err(k),
    }
}

/// The description of a byte-string field at `p`, with the records of its
/// addresses where its values differ in length.
pub open spec fn binary_meta_at(s: Seq<u8>, p: int) -> Result<((BinaryMeta, Seq<u8>), int), ErrorKind> {
    if p + 47 > s.len() {
        Err(ErrorKind::UnexpectedEof)
    } else {
        let n = spec_to_u32(i32_in(s, p + 35));
        let (min, max) = (i32_in(s, p + 39), i32_in(s, p + 43));
        let m = BinaryMeta {
            data_offset: i64_in(s, p),
            data_length: i64_in(s, p + 8),
            docs_offset: i64_in(s, p + 16),
            docs_length: i64_in(s, p + 24),
            num_values: n,
            min_length: min,
            max_length: max,
            addresses_offset: 0,
            addresses_length: 0,
        };
        if min >= max {
            Ok(((m, Seq::empty()), p + 47))
        } else if p + 55 > s.len() {
            Err(ErrorKind::UnexpectedEof)
        } else {
            match vint_at(s, p + 55) {
                Ok((shift, q)) => {
                    let z = q + records_len(n as nat + 1, shift as nat);
                    if !(0 <= shift < 64) {
                        Err(ErrorKind::InvalidData)
                    } else if z + 8 > s.len() {
                        Err(ErrorKind::UnexpectedEof)
                    } else {
                        Ok((
                            (BinaryMeta { addresses_offset: i64_in(s, p + 47), addresses_length: i64_in(s, z), ..m }, s.subrange(q, z)),
                            z + 8,
                        ))
                    }
                },
                Err(k) => Err(k),
            }
        }
    }
}

/// The entry at `p`, behind its field number.
pub open spec fn entry_at(s: Seq<u8>, p: int) -> Result<(FieldEntry, int), ErrorKind> {
    match byte_at(s, p) {
        Ok((kind, q)) => if kind == TYPE_NUMERIC {
            match numeric_meta_at(s, q) {
                Ok((m, z)) => Ok((FieldEntry::Numeric(m), z)),
                Err(k) => Err(k),
            }
        } else if kind == TYPE_BINARY {
            match binary_meta_at(s, q) {
                Ok(((m, a), z)) => Ok((FieldEntry::Binary(m, a), z)),
                Err(k) => Err(k),
            }
        } else if kind == TYPE_SORTED {
            match numeric_meta_at(s, q) {
                Ok((m, z)) => match terms_meta_at(s, z) {
                    Ok(((t, a), e)) => Ok((FieldEntry::Sorted(m, t, a), e)),
                    Err(k) => Err(k),
                },
                Err(k) => Err(k),
            }
        } else {
            Err(ErrorKind::InvalidData)
        },
        Err(k) => Err(k),
    }
}

/// The entries from `p` to the end mark, behind `acc`.
pub open spec fn entries_at(s: Seq<u8>, p: int, acc: Seq<(i32, FieldEntry)>) -> Result<(Seq<(i32, FieldEntry)>, int), ErrorKind>
    decreases s.len() - p,
{
    match int_at(s, p) {
        Ok((number, q)) => if number == -1 {
            Ok((acc, q))
        } else {
            match entry_at(s, q) {
                Ok((e, z)) => if z > p && p < s.len() {
                    entries_at(s, z, acc.push((number, e)))
                } else {
                    Err(ErrorKind::InvalidData)
                },
                Err(k) => Err(k),
            }
        },
        Err(k) => Err(k),
    }
}

/// What opening finds: the entries, and where the data begins. The metadata
/// file is checked with its checksum, the data file for its structure.
pub open spec fn opened(dvd: Seq<u8>, dvm: Seq<u8>, id: Seq<u8>, suffix: Seq<char>) -> Result<(Seq<(i32, FieldEntry)>, int), ErrorKind> {
    match index_header_at(dvm, 0, META_CODEC@, VERSION, VERSION, id, suffix) {
        Ok((_, p)) => match entries_at(dvm, p, Seq::empty()) {
            Ok((entries, q)) => if !valid_footer_at(dvm, q, 0) {
                Err(ErrorKind::InvalidData)
            } else {
                match index_header_at(dvd, 0, DATA_CODEC@, VERSION, VERSION, id, suffix) {
                    Ok((_, z)) => if footer_structure(dvd, dvd.len() as int) {
                        Ok((entries, z))
                    } else {
                        Err(ErrorKind::InvalidData)
                    },
                    Err(k) => Err(k),
                }
            },
            Err(k) => Err(k),
        },
        Err(k) => Err(k),
    }
}

fn read_numeric_meta(dvm: &mut ChecksumIndexInput) -> (r: Result<NumericMeta, Error>)
    requires
        0 <= old(dvm).pos(),
    ensures
        final(dvm).bytes() == old(dvm).bytes(),
        final(dvm).fixed() == old(dvm).fixed(),
        outcome(r, final(dvm).pos(), numeric_meta_at(old(dvm).bytes(), old(dvm).pos())),
{
    let docs_offset: i64 = dvm.read_long()?;
    let docs_length: i64 = dvm.read_long()?;
    let _jumps: i16 = dvm.read_short()?;
    let _rank_power: u8 = dvm.read_byte()?;
    let num_values: u64 = to_u64(dvm.read_long()?);
    let table_size: i32 = dvm.read_int()?;
    if table_size != -1 {
        return Err(corrupt("table of values is not supported"));
    }
    let bpv: u8 = dvm.read_byte()?;
    let min: i64 = dvm.read_long()?;
    let gcd: i64 = dvm.read_long()?;
    let values_offset: i64 = dvm.read_long()?;
    let values_length: i64 = dvm.read_long()?;
    let jump_table: i64 = dvm.read_long()?;
    if jump_table != -1 {
        return Err(corrupt("jump table of values is not supported"));
    }
    Ok(NumericMeta { docs_offset, docs_length, num_values, bpv, min, gcd, values_offset, values_length })
}

/// The number of bytes that the records of `n` values take.
fn dm_meta_len(n: u64, shift: u32) -> (r: u64)
    requires
        n < 0x400_0000_0000_0000,
        shift < 64,
    ensures
        r == records_len(n as nat, shift as nat),
{
    if n == 0 {
        0
    } else {
        let size: u128 = crate::float::two_to(shift);
        let q: u128 = (n as u128 - 1) / size;
        assert(q <= n - 1) by (nonlinear_arith)
            requires
                q == (n - 1) as int / size as int,
                size >= 1,
                n >= 1,
        ;
        (q as u64 + 1) * 21
    }
}

pub(crate) fn read_terms_meta<I: DataInput>(dvm: &mut I) -> (r: Result<(TermsMeta, Vec<u8>), Error>)
    requires
        0 <= old(dvm).pos(),
    ensures
        final(dvm).bytes() == old(dvm).bytes(),
        final(dvm).fixed() == old(dvm).fixed(),
        match terms_meta_at(old(dvm).bytes(), old(dvm).pos()) {
            Ok(((t, a), z)) => r is Ok && r->Ok_0.0 == t && r->Ok_0.1@ == a && final(dvm).pos() == z,
            Err(k) => r is Err && r->Err_0.kind == k,
        },
{
    proof {
        lemma_var_ends(dvm.bytes(), dvm.pos());
        lemma2_to64();
    }
    let dict_size: i64 = dvm.read_vlong()?;
    let shift: i32 = dvm.read_int()?;
    if shift != 16 {
        return Err(corrupt("unexpected block shift of a terms dictionary"));
    }
    let addresses_meta = dvm.read_vec(dm_meta_len((dict_size as u64 + 63) / 64, DIRECT_MONOTONIC_BLOCK_SHIFT))?;
    let _max_term: i32 = dvm.read_int()?;
    let _max_block: i32 = dvm.read_int()?;
    let data_offset: i64 = dvm.read_long()?;
    let data_length: i64 = dvm.read_long()?;
    let addresses_offset: i64 = dvm.read_long()?;
    let addresses_length: i64 = dvm.read_long()?;
    let index_shift: i32 = dvm.read_int()?;
    if index_shift != 10 {
        return Err(corrupt("unexpected shift of a terms index"));
    }
    let _keys_meta = dvm.read_vec(dm_meta_len((dict_size as u64 + 1023) / 1024 + 1, DIRECT_MONOTONIC_BLOCK_SHIFT))?;
    let _index_offset: i64 = dvm.read_long()?;
    let _index_length: i64 = dvm.read_long()?;
    let _index_addresses_offset: i64 = dvm.read_long()?;
    let _index_addresses_length: i64 = dvm.read_long()?;
    Ok((TermsMeta { dict_size: dict_size as u64, data_offset, data_length, addresses_offset, addresses_length }, addresses_meta))
}

pub(crate) fn read_binary_meta<I: DataInput>(dvm: &mut I) -> (r: Result<(BinaryMeta, Vec<u8>), Error>)
    requires
        0 <= old(dvm).pos(),
    ensures
        final(dvm).bytes() == old(dvm).bytes(),
        final(dvm).fixed() == old(dvm).fixed(),
        match binary_meta_at(old(dvm).bytes(), old(dvm).pos()) {
            Ok(((t, a), z)) => r is Ok && r->Ok_0.0 == t && r->Ok_0.1@ == a && final(dvm).pos() == z,
            Err(k) => r is Err && r->Err_0.kind == k,
        },
{
    let data_offset: i64 = dvm.read_long()?;
    let data_length: i64 = dvm.read_long()?;
    let docs_offset: i64 = dvm.read_long()?;
    let docs_length: i64 = dvm.read_long()?;
    let _jumps: i16 = dvm.read_short()?;
    let _rank_power: u8 = dvm.read_byte()?;
    let num_values: u32 = to_u32(dvm.read_int()?);
    let min_length: i32 = dvm.read_int()?;
    let max_length: i32 = dvm.read_int()?;
    let mut m = BinaryMeta { data_offset, data_length, docs_offset, docs_length, num_values, min_length, max_length, addresses_offset: 0, addresses_length: 0 };
    if min_length >= max_length {
        return Ok((m, Vec::new()));
    }
    m.addresses_offset = dvm.read_long()?;
    proof {
        lemma_var_ends(dvm.bytes(), dvm.pos());
    }
    let shift: i32 = dvm.read_vint()?;
    if shift < 0 || shift >= 64 {
        return Err(corrupt("unexpected block shift of addresses"));
    }
    let addresses_meta = dvm.read_vec(dm_meta_len(num_values as u64 + 1, shift as u32))?;
    m.addresses_length = dvm.read_long()?;
    Ok((m, addresses_meta))
}

fn read_entry(dvm: &mut ChecksumIndexInput) -> (r: Result<DvEntry, Error>)
    requires
        0 <= old(dvm).pos(),
    ensures
        final(dvm).bytes() == old(dvm).bytes(),
        final(dvm).fixed() == old(dvm).fixed(),
        match entry_at(old(dvm).bytes(), old(dvm).pos()) {
            Ok((e, z)) => r is Ok && r->Ok_0@ == e && final(dvm).pos() == z,
            Err(k) => r is Err && r->Err_0.kind == k,
        },
{
    let kind: u8 = dvm.read_byte()?;
    if kind == TYPE_NUMERIC {
        let m = read_numeric_meta(dvm)?;
        Ok(DvEntry::Numeric(m))
    } else if kind == TYPE_BINARY {
        let (m, a) = read_binary_meta(dvm)?;
        Ok(DvEntry::Binary(m, a))
    } else if kind == TYPE_SORTED {
        let m = read_numeric_meta(dvm)?;
        let (t, a) = read_terms_meta(dvm)?;
        Ok(DvEntry::Sorted(m, t, a))
    } else {
        Err(corrupt("unsupported type of doc values"))
    }
}

/// The view of entries.
pub open spec fn entries_view(entries: Seq<(i32, DvEntry)>) -> Seq<(i32, FieldEntry)> {
    entries.map_values(|e: (i32, DvEntry)| (e.0, e.1@))
}

pub proof fn lemma_entry_at_ends(s: Seq<u8>, p: int)
    requires
        0 <= p,
    ensures
        entry_at(s, p) is Ok ==> p < entry_at(s, p)->Ok_0.1 <= s.len(),
{
    if p + 72 < s.len() {
        lemma_var_ends(s, p + 73);
    }
    lemma_var_ends(s, p + 56);
}

fn read_entries(dvm: &mut ChecksumIndexInput) -> (r: Result<Vec<(i32, DvEntry)>, Error>)
    requires
        0 <= old(dvm).pos(),
    ensures
        final(dvm).bytes() == old(dvm).bytes(),
        final(dvm).fixed() == old(dvm).fixed(),
        match entries_at(old(dvm).bytes(), old(dvm).pos(), Seq::empty()) {
            Ok((e, z)) => r is Ok && entries_view(r->Ok_0@) == e && final(dvm).pos() == z,
            Err(k) => r is Err && r->Err_0.kind == k,
        },
{
    let mut entries: Vec<(i32, DvEntry)> = Vec::new();
    let ghost s = dvm.bytes();
    let ghost p0 = dvm.pos();
    assert(entries_view(entries@) =~= Seq::empty());
    loop
        invariant
            s == old(dvm).bytes(),
            p0 == old(dvm).pos(),
            dvm.bytes() == s,
            dvm.fixed() == old(dvm).fixed(),
            0 <= dvm.pos(),
            entries_at(s, dvm.pos(), entries_view(entries@)) == entries_at(s, p0, Seq::empty()),
        decreases s.len() - dvm.pos(),
    {
        let ghost p = dvm.pos();
        let number: i32 = dvm.read_int()?;
        if number == -1 {
            return Ok(entries);
        }
        proof {
            lemma_entry_at_ends(s, p + 4);
        }
        let ghost before = entries_view(entries@);
        let entry = read_entry(dvm)?;
        entries.push((number, entry));
        assert(entries_view(entries@) =~= before.push((number, entry@)));
    }
}

// ---------------------------------------------------------------------------
// The data
// ---------------------------------------------------------------------------

/// A part of the data file, which must lie behind its header.
pub open spec fn region(dvd: Seq<u8>, header: int, offset: i64, length: i64) -> Result<Seq<u8>, ErrorKind> {
    if length >= 0 && header <= offset && 0 <= offset && offset + length <= dvd.len() {
        Ok(dvd.subrange(offset as int, offset + length))
    } else {
        Err(ErrorKind::InvalidData)
    }
}

/// The documents that have a value.
pub open spec fn docs_read(dvd: Seq<u8>, header: int, offset: i64, length: i64, num_values: u64) -> Result<Seq<u32>, ErrorKind> {
    if offset == -2 {
        Ok(Seq::empty())
    } else if offset == -1 {
        Ok(Seq::new((num_values % 0x1_0000_0000) as nat, |i: int| i as u32))
    } else {
        match region(dvd, header, offset, length) {
            Ok(b) => match disi_at(b, 0, Seq::empty()) {
                Ok((docs, _)) => if docs.len() == num_values {
                    Ok(docs)
                } else {
                    Err(ErrorKind::InvalidData)
                },
                Err(k) => Err(k),
            },
            Err(k) => Err(k),
        }
    }
}

/// The packed values: nothing where the width is 0, else a region that is
/// large enough.
pub open spec fn packed_region(dvd: Seq<u8>, header: int, m: NumericMeta) -> Result<Seq<u8>, ErrorKind> {
    if m.bpv == 0 {
        Ok(Seq::empty())
    } else {
        match region(dvd, header, m.values_offset, m.values_length) {
            Ok(data) => if supported(m.bpv as int) && m.num_values * m.bpv <= u64::MAX && m.num_values * m.bpv <= 8 * data.len() {
                Ok(data)
            } else {
                Err(ErrorKind::InvalidData)
            },
            Err(k) => Err(k),
        }
    }
}

/// Value `i`: the packed one times the factor, counted from the least.
pub open spec fn value_read(m: NumericMeta, data: Seq<u8>, i: int) -> i64 {
    if m.bpv == 0 {
        m.min
    } else {
        spec_to_i64(spec_wrap_add(spec_wrap_mul(direct_value(data, 0, m.bpv as nat, i), spec_to_u64(m.gcd)), spec_to_u64(m.min)))
    }
}

/// The documents of a numeric field with their values.
pub open spec fn numeric_read(dvd: Seq<u8>, header: int, m: NumericMeta) -> Result<Seq<(u32, i64)>, ErrorKind> {
    match docs_read(dvd, header, m.docs_offset, m.docs_length, m.num_values) {
        Ok(docs) => match packed_region(dvd, header, m) {
            Ok(data) => if docs.len() == m.num_values {
                Ok(Seq::new(docs.len(), |i: int| (docs[i], value_read(m, data, i))))
            } else {
                Err(ErrorKind::InvalidData)
            },
            Err(k) => Err(k),
        },
        Err(k) => Err(k),
    }
}

/// The documents of a sorted field with their ordinals.
pub open spec fn ords_read(dvd: Seq<u8>, header: int, m: NumericMeta) -> Result<Seq<(u32, u32)>, ErrorKind> {
    match docs_read(dvd, header, m.docs_offset, m.docs_length, m.num_values) {
        Ok(docs) => match packed_region(dvd, header, m) {
            Ok(data) => Ok(Seq::new(docs.len(), |i: int| (docs[i], (spec_to_u64(value_read(m, data, i)) % 0x1_0000_0000) as u32))),
            Err(k) => Err(k),
        },
        Err(k) => Err(k),
    }
}

/// The lengths of the terms together.
pub open spec fn terms_total(terms: Seq<Seq<u8>>) -> nat
    decreases terms.len(),
{
    if terms.len() == 0 {
        0
    } else {
        terms_total(terms.drop_last()) + terms.last().len()
    }
}

/// What does not fit a token's half.
pub open spec fn extra_at(s: Seq<u8>, p: int, present: bool) -> Result<(int, int), ErrorKind> {
    if !present {
        Ok((0, p))
    } else {
        match vint_at(s, p) {
            Ok((v, q)) => if v < 0 {
                Err(ErrorKind::InvalidData)
            } else {
                Ok((v as int, q))
            },
            Err(k) => Err(k),
        }
    }
}

/// The term at `p`, which shares a prefix with `prev`.
pub open spec fn term_at(s: Seq<u8>, p: int, prev: Seq<u8>) -> Result<(Seq<u8>, int), ErrorKind> {
    match byte_at(s, p) {
        Ok((token, q)) => match extra_at(s, q, token % 16 == 15) {
            Ok((x, e)) => match extra_at(s, e, token / 16 == 15) {
                Ok((y, f)) => {
                    let prefix = token % 16 + x;
                    let suffix = 1 + token / 16 + y;
                    if prefix > prev.len() {
                        Err(ErrorKind::InvalidData)
                    } else {
                        match take_at(s, f, suffix) {
                            Ok((b, z)) => Ok((prev.take(prefix) + b, z)),
                            Err(k) => Err(k),
                        }
                    }
                },
                Err(k) => Err(k),
            },
            Err(k) => Err(k),
        },
        Err(k) => Err(k),
    }
}

/// The terms `acc` with one more, if all together have a 32-bit length.
pub open spec fn one_more(acc: Seq<Seq<u8>>, term: Seq<u8>) -> Result<Seq<Seq<u8>>, ErrorKind> {
    if terms_total(acc) + term.len() <= u32::MAX {
        Ok(acc.push(term))
    } else {
        Err(ErrorKind::InvalidData)
    }
}

/// The `n` terms from `p` on, each behind the one before it, behind `acc`.
pub open spec fn terms_at(s: Seq<u8>, p: int, n: nat, acc: Seq<Seq<u8>>) -> Result<Seq<Seq<u8>>, ErrorKind>
    decreases n,
{
    if n == 0 {
        Ok(acc)
    } else {
        match term_at(s, p, acc.last()) {
            Ok((term, q)) => match one_more(acc, term) {
                Ok(next) => terms_at(s, q, (n - 1) as nat, next),
                Err(k) => Err(k),
            },
            Err(k) => Err(k),
        }
    }
}

/// The terms of one block of `n`, behind `acc`.
pub open spec fn block_read(block: Seq<u8>, n: nat, acc: Seq<Seq<u8>>) -> Result<Seq<Seq<u8>>, ErrorKind> {
    match vint_at(block, 0) {
        Ok((len, p)) => match take_at(block, p, spec_to_u64(len as i64) as int) {
            Ok((first, q)) => match one_more(acc, first) {
                Ok(next) => if n <= 1 {
                    Ok(next)
                } else {
                    match vint_at(block, q) {
                        Ok((size, e)) => match lz4_decompressed(block.skip(e), size) {
                            Some(chunk) => terms_at(chunk, 0, (n - 1) as nat, next),
                            None => Err(ErrorKind::InvalidData),
                        },
                        Err(k) => Err(k),
                    }
                },
                Err(k) => Err(k),
            },
            Err(k) => Err(k),
        },
        Err(k) => Err(k),
    }
}

/// Address `i`, if it can be read.
pub open spec fn address_read(meta: Seq<u8>, data: Seq<u8>, n: nat, i: int) -> Option<u64> {
    let r = record_at(meta, i / 65536);
    if i / 65536 < block_count(n, 16) && record_covers(r, data, i % 65536) {
        Some(record_value(r, data, i % 65536))
    } else {
        None
    }
}

/// The bytes of block `b` of `n`.
pub open spec fn term_block_read(data: Seq<u8>, meta: Seq<u8>, addresses: Seq<u8>, n: nat, b: int) -> Result<Seq<u8>, ErrorKind> {
    let start = address_read(meta, addresses, n, b);
    let end = if b + 1 < n { address_read(meta, addresses, n, b + 1) } else { Some(data.len() as u64) };
    if start is Some && end is Some && start->Some_0 <= end->Some_0 <= data.len() {
        Ok(data.subrange(start->Some_0 as int, end->Some_0 as int))
    } else {
        Err(ErrorKind::InvalidData)
    }
}

/// The terms of the blocks from `b` on, behind `acc`.
pub open spec fn blocks_read(data: Seq<u8>, meta: Seq<u8>, addresses: Seq<u8>, size: nat, b: int, acc: Seq<Seq<u8>>) -> Result<Seq<Seq<u8>>, ErrorKind>
    decreases term_blocks(size as int) - b,
{
    let n = term_blocks(size as int);
    if b >= n {
        Ok(acc)
    } else {
        match term_block_read(data, meta, addresses, n as nat, b) {
            Ok(block) => match block_read(block, (block_end(size as int, b) - 64 * b) as nat, acc) {
                Ok(next) => blocks_read(data, meta, addresses, size, b + 1, next),
                Err(k) => Err(k),
            },
            Err(k) => Err(k),
        }
    }
}

/// The terms of a dictionary.
pub open spec fn dict_read(dvd: Seq<u8>, header: int, t: TermsMeta, meta: Seq<u8>) -> Result<Seq<Seq<u8>>, ErrorKind> {
    if t.dict_size == 0 {
        Ok(Seq::empty())
    } else {
        match region(dvd, header, t.addresses_offset, t.addresses_length) {
            Ok(addresses) => match region(dvd, header, t.data_offset, t.data_length) {
                Ok(data) => if meta.len() >= records_len(term_blocks(t.dict_size as int) as nat, 16) {
                    blocks_read(data, meta, addresses, t.dict_size as nat, 0, Seq::empty())
                } else {
                    Err(ErrorKind::InvalidData)
                },
                Err(k) => Err(k),
            },
            Err(k) => Err(k),
        }
    }
}

/// Where the values of a byte-string field begin and end in their region:
/// value `i` goes from bound `i` to bound `i + 1`.
pub open spec fn bounds_read(dvd: Seq<u8>, header: int, m: BinaryMeta, meta: Seq<u8>) -> Result<Seq<u64>, ErrorKind> {
    let n = m.num_values as nat + 1;
    if m.min_length == m.max_length {
        if m.min_length < 0 {
            Err(ErrorKind::InvalidData)
        } else {
            Ok(Seq::new(n, |i: int| (i * m.min_length) as u64))
        }
    } else if m.min_length > m.max_length {
        Err(ErrorKind::InvalidData)
    } else {
        match region(dvd, header, m.addresses_offset, m.addresses_length) {
            Ok(addresses) => if meta.len() >= records_len(n, 16) && forall|i: int| 0 <= i < n ==> #[trigger] address_read(meta, addresses, n, i) is Some {
                Ok(Seq::new(n, |i: int| address_read(meta, addresses, n, i)->Some_0))
            } else {
                Err(ErrorKind::InvalidData)
            },
            Err(k) => Err(k),
        }
    }
}

/// The documents of a byte-string field, the region of its values, and the
/// bounds of the values in it.
pub open spec fn binary_parts(dvd: Seq<u8>, header: int, m: BinaryMeta, meta: Seq<u8>) -> Result<(Seq<u32>, Seq<u8>, Seq<u64>), ErrorKind> {
    match docs_read(dvd, header, m.docs_offset, m.docs_length, m.num_values as u64) {
        Ok(docs) => match region(dvd, header, m.data_offset, m.data_length) {
            Ok(data) => match bounds_read(dvd, header, m, meta) {
                Ok(bounds) => Ok((docs, data, bounds)),
                Err(k) => Err(k),
            },
            Err(k) => Err(k),
        },
        Err(k) => Err(k),
    }
}

/// The field has no values.
pub open spec fn binary_empty(m: BinaryMeta) -> bool {
    m.num_values == 0 || m.docs_offset == -2
}

/// Bounds ascend and stay within `len`.
pub open spec fn bounds_ok(bounds: Seq<u64>, len: nat) -> bool {
    &&& forall|i: int| 0 <= i < bounds.len() ==> #[trigger] bounds[i] <= len
    &&& forall|i: int, j: int| 0 <= i <= j < bounds.len() ==> #[trigger] bounds[i] <= #[trigger] bounds[j]
}

/// The bound at which each value ends stays within `len`.
pub open spec fn ends_ok(bounds: Seq<u64>, len: nat) -> bool {
    forall|i: int| 0 < i < bounds.len() ==> #[trigger] bounds[i] <= len
}

/// The documents of a byte-string field with their values.
pub open spec fn binary_read(dvd: Seq<u8>, header: int, m: BinaryMeta, meta: Seq<u8>) -> Result<Seq<(u32, Seq<u8>)>, ErrorKind> {
    if binary_empty(m) {
        Ok(Seq::empty())
    } else {
        match binary_parts(dvd, header, m, meta) {
            Ok((docs, data, bounds)) => if bounds_ok(bounds, data.len()) {
                Ok(Seq::new(docs.len(), |i: int| (docs[i], data.subrange(bounds[i] as int, bounds[i + 1] as int))))
            } else {
                Err(ErrorKind::InvalidData)
            },
            Err(k) => Err(k),
        }
    }
}

/// The first entry of field `number`, from entry `i` on.
pub open spec fn entry_of(entries: Seq<(i32, FieldEntry)>, number: i32, i: int) -> Option<FieldEntry>
    decreases entries.len() - i,
{
    if !(0 <= i < entries.len()) {
        None
    } else if entries[i].0 == number {
        Some(entries[i].1)
    } else {
        entry_of(entries, number, i + 1)
    }
}

/// The documents that have a value: none, the first ones, or those listed.
pub enum DocIds {
    Empty,
    Dense(u32),
    Sparse(Vec<u32>),
}

impl View for DocIds {
    type V = Seq<u32>;

    open spec fn view(&self) -> Seq<u32> {
        match *self {
            DocIds::Empty => Seq::empty(),
            DocIds::Dense(n) => Seq::new(n as nat, |i: int| i as u32),
            DocIds::Sparse(docs) => docs@,
        }
    }
}

impl DocIds {
    pub fn len(&self) -> (r: usize)
        ensures
            r == self@.len(),
    {
        match self {
            DocIds::Empty => 0,
            DocIds::Dense(n) => *n as usize,
            DocIds::Sparse(docs) => docs.len(),
        }
    }

    pub fn get(&self, i: usize) -> (r: u32)
        requires
            i < self@.len(),
        ensures
            r == self@[i as int],
    {
        match self {
            DocIds::Empty => 0,
            DocIds::Dense(_) => i as u32,
            DocIds::Sparse(docs) => docs[i],
        }
    }

    pub fn into_vec(self) -> (r: Vec<u32>)
        ensures
            r@ == self@,
    {
        match self {
            DocIds::Empty => Vec::new(),
            DocIds::Dense(n) => {
                let mut docs: Vec<u32> = Vec::new();
                let mut i: u32 = 0;
                while i < n
                    invariant
                        i <= n,
                        docs@.len() == i,
                        forall|j: int| 0 <= j < i ==> #[trigger] docs@[j] == j,
                    decreases n - i,
                {
                    docs.push(i);
                    i = i + 1;
                }
                assert(docs@ =~= Seq::new(n as nat, |i: int| i as u32));
                docs
            },
            DocIds::Sparse(docs) => docs,
        }
    }
}

/// Reads the values of any field of a segment.
#[derive(Debug)]
pub struct DocValuesReader {
    dvd: Vec<u8>,
    header_len: u64,
    entries: Vec<(i32, DvEntry)>,
}

impl DocValuesReader {
    /// The data file.
    pub closed spec fn dvd(&self) -> Seq<u8> {
        self.dvd@
    }

    /// The length of the data file's header.
    pub closed spec fn header(&self) -> int {
        self.header_len as int
    }

    /// The entries of the metadata file.
    pub closed spec fn entries(&self) -> Seq<(i32, FieldEntry)> {
        entries_view(self.entries@)
    }

    /// Opens the data and the metadata file of a segment.
    pub fn open(dvd: Vec<u8>, dvm: Vec<u8>, segment_id: &[u8; 16], suffix: &str) -> (r: Result<Self, Error>)
        ensures
            match opened(dvd@, dvm@, segment_id@, suffix@) {
                Ok((entries, header)) => r is Ok && r->Ok_0.dvd() == dvd@ && r->Ok_0.header() == header && r->Ok_0.entries() == entries,
                Err(k) => r is Err && r->Err_0.kind == k,
            },
    {
        let mut meta = ChecksumIndexInput::new(IndexInput::in_memory(dvm));
        let _version: u32 = check_index_header(&mut meta, META_CODEC, VERSION, VERSION, segment_id, suffix)?;
        let _at: u64 = meta.file_pointer();
        let entries = read_entries(&mut meta)?;
        check_footer(&mut meta)?;
        let mut image: Vec<u8> = Vec::new();
        push_all(&mut image, dvd.as_slice());
        assert(image@ =~= dvd@);
        let mut data = IndexInput::in_memory(image);
        let _version: u32 = check_index_header(&mut data, DATA_CODEC, VERSION, VERSION, segment_id, suffix)?;
        let header_len: u64 = data.file_pointer();
        check_footer_structure(&data, data.length())?;
        Ok(DocValuesReader { dvd, header_len, entries })
    }

    fn slice(&self, offset: i64, length: i64) -> (r: Result<&[u8], Error>)
        ensures
            match region(self.dvd(), self.header(), offset, length) {
                Ok(b) => r is Ok && r->Ok_0@ == b,
                Err(k) => r is Err && r->Err_0.kind == k,
            },
    {
        if offset < 0 || length < 0 {
            return Err(corrupt("negative bounds"));
        }
        if (offset as u64) < self.header_len {
            return Err(corrupt("offset before the data"));
        }
        let start: u64 = offset as u64;
        let end: u64 = start + length as u64;
        if end > self.dvd.len() as u64 {
            return Err(corrupt("bounds exceed the data"));
        }
        Ok(&self.dvd.as_slice()[start as usize..end as usize])
    }

    fn find(&self, number: i32) -> (r: Option<&DvEntry>)
        ensures
            match entry_of(self.entries(), number, 0) {
                Some(e) => r is Some && r->Some_0@ == e,
                None => r is None,
            },
    {
        let mut i: usize = 0;
        while i < self.entries.len()
            invariant
                i <= self.entries@.len(),
                entry_of(self.entries(), number, 0) == entry_of(self.entries(), number, i as int),
            decreases self.entries@.len() - i,
        {
            if self.entries[i].0 == number {
                return Some(&self.entries[i].1);
            }
            i = i + 1;
        }
        None
    }

    fn decode_doc_ids(&self, docs_offset: i64, docs_length: i64, num_values: u64) -> (r: Result<DocIds, Error>)
        ensures
            match docs_read(self.dvd(), self.header(), docs_offset, docs_length, num_values) {
                Ok(docs) => r is Ok && r->Ok_0@ == docs,
                Err(k) => r is Err && r->Err_0.kind == k,
            },
    {
        if docs_offset == -2 {
            return Ok(DocIds::Empty);
        }
        if docs_offset == -1 {
            return Ok(DocIds::Dense((num_values % 0x1_0000_0000) as u32));
        }
        let region = self.slice(docs_offset, docs_length)?;
        let docs = decode_disi_region(region, num_values)?;
        Ok(DocIds::Sparse(docs))
    }

    /// The first `n` values.
    fn read_values(&self, m: &NumericMeta, n: usize) -> (r: Result<Vec<i64>, Error>)
        requires
            n <= m.num_values,
        ensures
            match packed_region(self.dvd(), self.header(), *m) {
                Ok(data) => r is Ok && r->Ok_0@ == Seq::new(n as nat, |i: int| value_read(*m, data, i)),
                Err(k) => r is Err && r->Err_0.kind == k,
            },
    {
        let mut values: Vec<i64> = Vec::new();
        let mut i: usize = 0;
        if m.bpv == 0 {
            while i < n
                invariant
                    i <= n,
                    values@.len() == i,
                    forall|j: int| 0 <= j < i ==> #[trigger] values@[j] == m.min,
                decreases n - i,
            {
                values.push(m.min);
                i = i + 1;
            }
            assert(values@ =~= Seq::new(n as nat, |i: int| value_read(*m, Seq::empty(), i)));
            return Ok(values);
        }
        let data = self.slice(m.values_offset, m.values_length)?;
        assert(0 <= m.num_values * m.bpv <= 0xFFFF_FFFF_FFFF_FFFF * 255) by (nonlinear_arith)
            requires
                0 <= m.num_values <= 0xFFFF_FFFF_FFFF_FFFF,
                0 <= m.bpv <= 255,
        ;
        let bits: u128 = m.num_values as u128 * m.bpv as u128;
        if bits > u64::MAX as u128 {
            return Err(corrupt("size of values overflows"));
        }
        if bits > data.len() as u128 * 8 {
            return Err(corrupt("values are truncated"));
        }
        let reader = DirectReader::new(data, m.bpv as u32, 0)?;
        while i < n
            invariant
                i <= n <= m.num_values,
                reader.data() == data@,
                reader.offset() == 0,
                reader.width() == m.bpv,
                m.bpv != 0,
                m.num_values * m.bpv <= u64::MAX,
                m.num_values * m.bpv <= 8 * data@.len(),
                values@.len() == i,
                forall|j: int| 0 <= j < i ==> #[trigger] values@[j] == value_read(*m, data@, j),
            decreases n - i,
        {
            assert(i * m.bpv <= m.num_values * m.bpv) by (nonlinear_arith)
                requires
                    i <= m.num_values,
                    0 <= m.bpv,
            ;
            let v: u64 = reader.get(i as u64);
            values.push(to_i64(wrap_add(wrap_mul(v, to_u64(m.gcd)), to_u64(m.min))));
            i = i + 1;
        }
        assert(values@ =~= Seq::new(n as nat, |i: int| value_read(*m, data@, i)));
        Ok(values)
    }

    /// Every document of a numeric field with its value, in document order.
    pub fn numeric_values(&self, field_number: i32) -> (r: Result<Vec<(u32, i64)>, Error>)
        ensures
            match entry_of(self.entries(), field_number, 0) {
                Some(FieldEntry::Numeric(m)) => match numeric_read(self.dvd(), self.header(), m) {
                    Ok(v) => r is Ok && r->Ok_0@ == v,
                    Err(k) => r is Err && r->Err_0.kind == k,
                },
                _ => r is Err && r->Err_0.kind == ErrorKind::NotFound,
            },
    {
        match self.find(field_number) {
            Some(DvEntry::Numeric(m)) => {
                let docs = self.decode_doc_ids(m.docs_offset, m.docs_length, m.num_values)?;
                if docs.len() as u64 != m.num_values {
                    return Err(corrupt("documents and values differ in number"));
                }
                let n: usize = docs.len();
                let values = self.read_values(m, n)?;
                let mut out: Vec<(u32, i64)> = Vec::new();
                let mut i: usize = 0;
                while i < n
                    invariant
                        i <= n == docs@.len() == values@.len(),
                        out@.len() == i,
                        forall|j: int| 0 <= j < i ==> #[trigger] out@[j] == (docs@[j], values@[j]),
                    decreases n - i,
                {
                    out.push((docs.get(i), values[i]));
                    i = i + 1;
                }
                proof {
                    let data = packed_region(self.dvd(), self.header(), *m)->Ok_0;
                    assert(out@ =~= Seq::new(n as nat, |i: int| (docs@[i], value_read(*m, data, i))));
                }
                Ok(out)
            },
            _ => Err(Error::new(ErrorKind::NotFound, "no numeric field of that number")),
        }
    }

    /// Every document of a sorted field with its ordinal, in document order.
    pub fn sorted_ords(&self, field_number: i32) -> (r: Result<Vec<(u32, u32)>, Error>)
        ensures
            match entry_of(self.entries(), field_number, 0) {
                Some(FieldEntry::Sorted(m, _, _)) => match ords_read(self.dvd(), self.header(), m) {
                    Ok(v) => r is Ok && r->Ok_0@ == v,
                    Err(k) => r is Err && r->Err_0.kind == k,
                },
                _ => r is Err && r->Err_0.kind == ErrorKind::NotFound,
            },
    {
        match self.find(field_number) {
            Some(DvEntry::Sorted(m, _, _)) => {
                let docs = self.decode_doc_ids(m.docs_offset, m.docs_length, m.num_values)?;
                let n: usize = docs.len();
                let values = self.read_values(m, n)?;
                let mut out: Vec<(u32, u32)> = Vec::new();
                let mut i: usize = 0;
                while i < n
                    invariant
                        i <= n == docs@.len() == values@.len(),
                        out@.len() == i,
                        forall|j: int| 0 <= j < i ==> #[trigger] out@[j] == (docs@[j], (spec_to_u64(values@[j]) % 0x1_0000_0000) as u32),
                    decreases n - i,
                {
                    out.push((docs.get(i), (to_u64(values[i]) % 0x1_0000_0000) as u32));
                    i = i + 1;
                }
                proof {
                    let data = packed_region(self.dvd(), self.header(), *m)->Ok_0;
                    assert(out@ =~= Seq::new(n as nat, |i: int| (docs@[i], (spec_to_u64(value_read(*m, data, i)) % 0x1_0000_0000) as u32)));
                }
                Ok(out)
            },
            _ => Err(Error::new(ErrorKind::NotFound, "no sorted field of that number")),
        }
    }
}

/// A run of bytes that holds the terms one after the other, and the start and
/// length of each.
pub open spec fn packs(buf: Seq<u8>, offsets: Seq<(u32, u32)>, terms: Seq<Seq<u8>>) -> bool {
    &&& buf.len() == terms_total(terms)
    &&& offsets.len() == terms.len()
    &&& forall|i: int| 0 <= i < terms.len() ==> packs_one(buf, #[trigger] offsets[i], terms, i)
}

pub open spec fn packs_one(buf: Seq<u8>, offset: (u32, u32), terms: Seq<Seq<u8>>, i: int) -> bool {
    &&& offset.0 == terms_total(terms.take(i))
    &&& offset.1 == terms[i].len()
    &&& offset.0 + offset.1 <= buf.len()
    &&& buf.subrange(offset.0 as int, offset.0 + offset.1) == terms[i]
}

/// Appends a term.
fn push_term(buf: &mut Vec<u8>, offsets: &mut Vec<(u32, u32)>, term: &[u8], acc: Ghost<Seq<Seq<u8>>>) -> (r: Result<(), Error>)
    requires
        packs(old(buf)@, old(offsets)@, acc@),
    ensures
        match one_more(acc@, term@) {
            Ok(next) => r is Ok && packs(final(buf)@, final(offsets)@, next),
            Err(k) => r is Err && r->Err_0.kind == k,
        },
{
    let start: usize = buf.len();
    if start as u64 > u32::MAX as u64 || term.len() as u64 > u32::MAX as u64 - start as u64 {
        return Err(corrupt("terms are too long together"));
    }
    let ghost before = buf@;
    push_all(buf, term);
    offsets.push((start as u32, term.len() as u32));
    proof {
        let next = acc@.push(term@);
        assert(next.drop_last() =~= acc@);
        assert forall|i: int| 0 <= i < next.len() implies packs_one(buf@, #[trigger] offsets@[i], next, i) by {
            assert(next.take(i) =~= acc@.take(i));
            if i < acc@.len() {
                let o = old(offsets)@[i];
                assert(packs_one(before, o, acc@, i));
                assert(buf@.subrange(o.0 as int, o.0 + o.1) =~= before.subrange(o.0 as int, o.0 + o.1));
            } else {
                assert(acc@.take(i) =~= acc@);
                assert(buf@.subrange(start as int, start + term@.len()) =~= term@);
            }
        }
    }
    Ok(())
}

fn read_extra(input: &mut SliceInput, present: bool) -> (r: Result<u32, Error>)
    ensures
        final(input).bytes() == old(input).bytes(),
        match extra_at(old(input).bytes(), old(input).pos(), present) {
            Ok((v, q)) => r is Ok && r->Ok_0 == v && v <= i32::MAX && final(input).pos() == q,
            Err(k) => r is Err && r->Err_0.kind == k,
        },
{
    if !present {
        return Ok(0);
    }
    let v: i32 = input.read_vint()?;
    if v < 0 {
        return Err(corrupt("negative length"));
    }
    Ok(v as u32)
}

/// Reads a term that shares a prefix with `prev`.
fn read_term(input: &mut SliceInput, prev: &Vec<u8>) -> (r: Result<Vec<u8>, Error>)
    ensures
        final(input).bytes() == old(input).bytes(),
        match term_at(old(input).bytes(), old(input).pos(), prev@) {
            Ok((t, q)) => r is Ok && r->Ok_0@ == t && final(input).pos() == q,
            Err(k) => r is Err && r->Err_0.kind == k,
        },
{
    let token: u8 = input.read_byte()?;
    let x: u32 = read_extra(input, token % 16 == 15)?;
    let y: u32 = read_extra(input, token / 16 == 15)?;
    let prefix: u64 = (token % 16) as u64 + x as u64;
    let suffix: u64 = 1 + (token / 16) as u64 + y as u64;
    if prefix > prev.len() as u64 {
        return Err(corrupt("prefix exceeds the term before"));
    }
    let rest = input.read_vec(suffix)?;
    let mut term: Vec<u8> = Vec::new();
    push_all(&mut term, &prev.as_slice()[0..prefix as usize]);
    push_all(&mut term, rest.as_slice());
    assert(term@ =~= prev@.take(prefix as int) + rest@);
    Ok(term)
}

/// Reads the terms of one block of `n`.
pub(crate) fn read_block(block: &[u8], n: usize, buf: &mut Vec<u8>, offsets: &mut Vec<(u32, u32)>, acc: Ghost<Seq<Seq<u8>>>) -> (r: Result<(), Error>)
    requires
        packs(old(buf)@, old(offsets)@, acc@),
    ensures
        match block_read(block@, n as nat, acc@) {
            Ok(next) => r is Ok && packs(final(buf)@, final(offsets)@, next),
            Err(k) => r is Err && r->Err_0.kind == k,
        },
{
    let mut input = SliceInput::new(block);
    let len: i32 = input.read_vint()?;
    let first = input.read_vec(to_u64(len as i64))?;
    push_term(buf, offsets, first.as_slice(), acc)?;
    if n <= 1 {
        return Ok(());
    }
    let size: i32 = input.read_vint()?;
    let consumed: usize = input.position();
    let chunk = match lz4_decompress(&block[consumed..block.len()], size) {
        Some(c) => c,
        None => {
            return Err(corrupt("terms dictionary block does not decompress"));
        },
    };
    assert(block@.skip(consumed as int) =~= block@.subrange(consumed as int, block@.len() as int));
    let mut rest = SliceInput::new(chunk.as_slice());
    let mut prev = first;
    let mut i: usize = 1;
    let ghost next = acc@.push(first@);
    let ghost all = terms_at(chunk@, 0, (n - 1) as nat, next);
    let ghost mut cur = next;
    while i < n
        invariant
            1 <= i <= n,
            rest.bytes() == chunk@,
            all == block_read(block@, n as nat, acc@),
            terms_at(chunk@, rest.pos(), (n - i) as nat, cur) == all,
            packs(buf@, offsets@, cur),
            cur.len() > 0,
            cur.last() == prev@,
        decreases n - i,
    {
        let term = read_term(&mut rest, &prev)?;
        push_term(buf, offsets, term.as_slice(), Ghost(cur))?;
        proof {
            cur = cur.push(term@);
        }
        prev = term;
        i = i + 1;
    }
    Ok(())
}

/// A reader of `n` addresses.
pub open spec fn reads_addresses(reader: DirectMonotonicReader, meta: Seq<u8>, addresses: Seq<u8>, n: nat) -> bool {
    &&& reader.shift() == 16
    &&& reader.data() == addresses
    &&& reader.records() == Seq::new(block_count(n, 16), |b: int| record_at(meta, b))
}

pub(crate) fn open_addresses<'a>(meta: &[u8], addresses: &'a [u8], n: u64) -> (r: Result<DirectMonotonicReader<'a>, Error>)
    ensures
        match r {
            Ok(reader) => meta@.len() >= records_len(n as nat, 16) && reads_addresses(reader, meta@, addresses@, n as nat),
            Err(e) => meta@.len() < records_len(n as nat, 16) && e.kind == ErrorKind::InvalidData,
        },
{
    let reader = DirectMonotonicReader::with_count(meta, addresses, n, DIRECT_MONOTONIC_BLOCK_SHIFT)?;
    assert(reader.records() =~= Seq::new(block_count(n as nat, 16), |b: int| record_at(meta@, b)));
    Ok(reader)
}

/// Address `i`.
fn read_address(reader: &DirectMonotonicReader, i: u64, meta: Ghost<Seq<u8>>, addresses: Ghost<Seq<u8>>, n: Ghost<nat>) -> (r: Option<u64>)
    requires
        reads_addresses(*reader, meta@, addresses@, n@),
    ensures
        r == address_read(meta@, addresses@, n@, i as int),
{
    proof {
        lemma2_to64();
    }
    reader.try_get(i)
}

/// The bytes of block `b` of `n`.
pub(crate) fn find_block<'a>(data: &'a [u8], reader: &DirectMonotonicReader, n: u64, b: u64, meta: Ghost<Seq<u8>>, addresses: Ghost<Seq<u8>>) -> (r: Result<&'a [u8], Error>)
    requires
        b < n,
        reads_addresses(*reader, meta@, addresses@, n as nat),
    ensures
        match term_block_read(data@, meta@, addresses@, n as nat, b as int) {
            Ok(block) => r is Ok && r->Ok_0@ == block,
            Err(k) => r is Err && r->Err_0.kind == k,
        },
{
    let start: Option<u64> = read_address(reader, b, meta, addresses, Ghost(n as nat));
    let end: Option<u64> = if b + 1 < n { read_address(reader, b + 1, meta, addresses, Ghost(n as nat)) } else { Some(data.len() as u64) };
    match (start, end) {
        (Some(from), Some(to)) => {
            if from > to || to > data.len() as u64 {
                return Err(corrupt("terms dictionary block bounds"));
            }
            Ok(&data[from as usize..to as usize])
        },
        _ => Err(corrupt("terms dictionary addresses")),
    }
}

/// Reads a dictionary of `size` terms.
fn read_dict(data: &[u8], addresses: &[u8], meta: &Vec<u8>, size: u64) -> (r: Result<(Vec<u8>, Vec<(u32, u32)>), Error>)
    requires
        size > 0,
    ensures
        if meta@.len() >= records_len(term_blocks(size as int) as nat, 16) {
            match blocks_read(data@, meta@, addresses@, size as nat, 0, Seq::empty()) {
                Ok(terms) => r is Ok && packs(r->Ok_0.0@, r->Ok_0.1@, terms),
                Err(k) => r is Err && r->Err_0.kind == k,
            }
        } else {
            r is Err && r->Err_0.kind == ErrorKind::InvalidData
        },
{
    let mut buf: Vec<u8> = Vec::new();
    let mut offsets: Vec<(u32, u32)> = Vec::new();
    let n: u64 = (size - 1) / 64 + 1;
    assert(n == term_blocks(size as int));
    let reader = open_addresses(meta.as_slice(), addresses, n)?;
    let ghost all = blocks_read(data@, meta@, addresses@, size as nat, 0, Seq::empty());
    let ghost mut cur = Seq::<Seq<u8>>::empty();
    let mut b: u64 = 0;
    while b < n
        invariant
            b <= n == term_blocks(size as int),
            1 <= size,
            reads_addresses(reader, meta@, addresses@, n as nat),
            meta@.len() >= records_len(term_blocks(size as int) as nat, 16),
            blocks_read(data@, meta@, addresses@, size as nat, b as int, cur) == all,
            packs(buf@, offsets@, cur),
            all == blocks_read(data@, meta@, addresses@, size as nat, 0, Seq::empty()),
        decreases n - b,
    {
        let block = find_block(data, &reader, n, b, Ghost(meta@), Ghost(addresses@))?;
        let left: u64 = size - 64 * b;
        let count: usize = if left < 64 { left as usize } else { 64 };
        let ghost next = block_read(block@, count as nat, cur);
        read_block(block, count, &mut buf, &mut offsets, Ghost(cur))?;
        proof {
            cur = next->Ok_0;
        }
        b = b + 1;
    }
    Ok((buf, offsets))
}

impl DocValuesReader {
    /// The terms of a dictionary in order, packed: one run of bytes, and the
    /// start and length of each term in it.
    pub fn sorted_dict_packed(&self, field_number: i32) -> (r: Result<(Vec<u8>, Vec<(u32, u32)>), Error>)
        ensures
            match entry_of(self.entries(), field_number, 0) {
                Some(FieldEntry::Sorted(_, t, a)) => match dict_read(self.dvd(), self.header(), t, a) {
                    Ok(terms) => r is Ok && packs(r->Ok_0.0@, r->Ok_0.1@, terms),
                    Err(k) => r is Err && r->Err_0.kind == k,
                },
                _ => r is Err && r->Err_0.kind == ErrorKind::NotFound,
            },
    {
        match self.find(field_number) {
            Some(DvEntry::Sorted(_, t, meta)) => {
                if t.dict_size == 0 {
                    return Ok((Vec::new(), Vec::new()));
                }
                let addresses = self.slice(t.addresses_offset, t.addresses_length)?;
                let data = self.slice(t.data_offset, t.data_length)?;
                read_dict(data, addresses, meta, t.dict_size)
            },
            _ => Err(Error::new(ErrorKind::NotFound, "no sorted field of that number")),
        }
    }

    /// The terms of a dictionary in order.
    pub fn sorted_dict(&self, field_number: i32) -> (r: Result<Vec<Vec<u8>>, Error>)
        ensures
            match entry_of(self.entries(), field_number, 0) {
                Some(FieldEntry::Sorted(_, t, a)) => match dict_read(self.dvd(), self.header(), t, a) {
                    Ok(terms) => r is Ok && r->Ok_0@.len() == terms.len() && forall|i: int| 0 <= i < terms.len() ==> (#[trigger] r->Ok_0@[i])@ == terms[i],
                    Err(k) => r is Err && r->Err_0.kind == k,
                },
                _ => r is Err && r->Err_0.kind == ErrorKind::NotFound,
            },
    {
        let (buf, offsets) = self.sorted_dict_packed(field_number)?;
        let ghost entry = entry_of(self.entries(), field_number, 0)->Some_0;
        let ghost terms = dict_read(self.dvd(), self.header(), entry->Sorted_1, entry->Sorted_2)->Ok_0;
        let mut out: Vec<Vec<u8>> = Vec::new();
        let mut i: usize = 0;
        while i < offsets.len()
            invariant
                i <= offsets@.len(),
                packs(buf@, offsets@, terms),
                out@.len() == i,
                forall|j: int| 0 <= j < i ==> (#[trigger] out@[j])@ == terms[j],
            decreases offsets@.len() - i,
        {
            let (start, len) = offsets[i];
            let _all: usize = buf.len();
            assert(packs_one(buf@, offsets@[i as int], terms, i as int));
            let mut term: Vec<u8> = Vec::new();
            push_all(&mut term, &buf.as_slice()[start as usize..start as usize + len as usize]);
            assert(term@ =~= terms[i as int]);
            out.push(term);
            i = i + 1;
        }
        Ok(out)
    }
}

impl DocValuesReader {
    /// The bounds of a byte-string field's values.
    fn read_bounds(&self, m: &BinaryMeta, meta: &Vec<u8>) -> (r: Result<Vec<u64>, Error>)
        ensures
            match bounds_read(self.dvd(), self.header(), *m, meta@) {
                Ok(bounds) => r is Ok && r->Ok_0@ == bounds,
                Err(k) => r is Err && r->Err_0.kind == k,
            },
    {
        let n: u64 = m.num_values as u64 + 1;
        let mut bounds: Vec<u64> = Vec::new();
        let mut i: u64 = 0;
        if m.min_length == m.max_length {
            if m.min_length < 0 {
                return Err(corrupt("negative length of values"));
            }
            let len: u64 = m.min_length as u64;
            while i < n
                invariant
                    i <= n <= 0x1_0000_0000,
                    len == m.min_length <= 0x7FFF_FFFF,
                    bounds@.len() == i,
                    forall|j: int| 0 <= j < i ==> #[trigger] bounds@[j] == (j * m.min_length) as u64,
                decreases n - i,
            {
                assert(0 <= i * len <= 0x1_0000_0000 * 0x7FFF_FFFF) by (nonlinear_arith)
                    requires
                        0 <= i <= 0x1_0000_0000,
                        0 <= len <= 0x7FFF_FFFF,
                ;
                bounds.push(i * len);
                i = i + 1;
            }
            assert(bounds@ =~= Seq::new(n as nat, |i: int| (i * m.min_length) as u64));
            return Ok(bounds);
        }
        if m.min_length > m.max_length {
            return Err(corrupt("addresses of values are missing"));
        }
        let addresses = self.slice(m.addresses_offset, m.addresses_length)?;
        let reader = open_addresses(meta.as_slice(), addresses, n)?;
        while i < n
            invariant
                i <= n == m.num_values + 1,
                m.min_length < m.max_length,
                region(self.dvd(), self.header(), m.addresses_offset, m.addresses_length) == Ok::<Seq<u8>, ErrorKind>(addresses@),
                reads_addresses(reader, meta@, addresses@, n as nat),
                meta@.len() >= records_len(n as nat, 16),
                bounds@.len() == i,
                forall|j: int| 0 <= j < i ==> #[trigger] address_read(meta@, addresses@, n as nat, j) == Some(bounds@[j]),
            decreases n - i,
        {
            match read_address(&reader, i, Ghost(meta@), Ghost(addresses@), Ghost(n as nat)) {
                Some(v) => {
                    bounds.push(v);
                },
                None => {
                    return Err(corrupt("addresses of values are truncated"));
                },
            }
            i = i + 1;
        }
        proof {
            let want = Seq::new(n as nat, |i: int| address_read(meta@, addresses@, n as nat, i)->Some_0);
            assert forall|j: int| 0 <= j < n implies bounds@[j] == want[j] by {
                assert(address_read(meta@, addresses@, n as nat, j) == Some(bounds@[j]));
            }
            assert(bounds@ =~= want);
        }
        Ok(bounds)
    }

    /// Documents, values region and bounds of a byte-string field.
    fn read_binary_parts(&self, m: &BinaryMeta, meta: &Vec<u8>) -> (r: Result<(DocIds, &[u8], Vec<u64>), Error>)
        ensures
            match binary_parts(self.dvd(), self.header(), *m, meta@) {
                Ok((docs, data, bounds)) => r is Ok && r->Ok_0.0@ == docs && r->Ok_0.1@ == data && r->Ok_0.2@ == bounds,
                Err(k) => r is Err && r->Err_0.kind == k,
            },
    {
        let docs = self.decode_doc_ids(m.docs_offset, m.docs_length, m.num_values as u64)?;
        let data = self.slice(m.data_offset, m.data_length)?;
        let bounds = self.read_bounds(m, meta)?;
        Ok((docs, data, bounds))
    }

    /// The parts of a byte-string field whose values can be taken out.
    fn read_binary(&self, m: &BinaryMeta, meta: &Vec<u8>) -> (r: Result<(DocIds, &[u8], Vec<u64>), Error>)
        ensures
            match binary_parts(self.dvd(), self.header(), *m, meta@) {
                Ok((docs, data, bounds)) => if bounds_ok(bounds, data.len()) {
                    r is Ok && r->Ok_0.0@ == docs && r->Ok_0.1@ == data && r->Ok_0.2@ == bounds
                } else {
                    r is Err && r->Err_0.kind == ErrorKind::InvalidData
                },
                Err(k) => r is Err && r->Err_0.kind == k,
            },
    {
        let (docs, data, bounds) = self.read_binary_parts(m, meta)?;
        let mut i: usize = 0;
        while i < bounds.len()
            invariant
                i <= bounds@.len(),
                binary_parts(self.dvd(), self.header(), *m, meta@) == Ok::<(Seq<u32>, Seq<u8>, Seq<u64>), ErrorKind>((docs@, data@, bounds@)),
                forall|j: int| 0 <= j < i ==> #[trigger] bounds@[j] <= data@.len(),
                forall|j: int, k: int| 0 <= j <= k <= i && k < bounds@.len() ==> #[trigger] bounds@[j] <= #[trigger] bounds@[k],
            decreases bounds@.len() - i,
        {
            if bounds[i] > data.len() as u64 || (i + 1 < bounds.len() && bounds[i] > bounds[i + 1]) {
                return Err(corrupt("values are truncated"));
            }
            i = i + 1;
        }
        Ok((docs, data, bounds))
    }

    /// Goes through the values of a byte-string field in document order,
    /// without copying them.
    pub fn binary_doc_values(&self, field_number: i32) -> (r: Result<BinaryDocValues<'_>, Error>)
        ensures
            match entry_of(self.entries(), field_number, 0) {
                Some(FieldEntry::Binary(m, a)) => match binary_read(self.dvd(), self.header(), m, a) {
                    Ok(values) => r is Ok && r->Ok_0.values() == values && r->Ok_0.pos() == 0,
                    Err(k) => r is Err && r->Err_0.kind == k,
                },
                _ => r is Err && r->Err_0.kind == ErrorKind::NotFound,
            },
    {
        match self.find(field_number) {
            Some(DvEntry::Binary(m, meta)) => {
                if m.num_values == 0 || m.docs_offset == -2 {
                    let r = BinaryDocValues { doc_ids: DocIds::Empty, data: &self.dvd.as_slice()[0..0], bounds: Vec::new(), pos: 0 };
                    assert(r.values() =~= Seq::empty());
                    return Ok(r);
                }
                let (doc_ids, data, bounds) = self.read_binary(m, meta)?;
                let r = BinaryDocValues { doc_ids, data, bounds, pos: 0 };
                assert(r.values() =~= binary_read(self.dvd(), self.header(), *m, meta@)->Ok_0);
                Ok(r)
            },
            _ => Err(Error::new(ErrorKind::NotFound, "no byte-string field of that number")),
        }
    }

    /// Every document of a byte-string field with its value, in document
    /// order.
    pub fn binary_values(&self, field_number: i32) -> (r: Result<Vec<(u32, Vec<u8>)>, Error>)
        ensures
            match entry_of(self.entries(), field_number, 0) {
                Some(FieldEntry::Binary(m, a)) => match binary_read(self.dvd(), self.header(), m, a) {
                    Ok(values) => r is Ok && binary_view(r->Ok_0@) == values,
                    Err(k) => r is Err && r->Err_0.kind == k,
                },
                _ => r is Err && r->Err_0.kind == ErrorKind::NotFound,
            },
    {
        let mut it = self.binary_doc_values(field_number)?;
        let ghost values = it.values();
        let mut out: Vec<(u32, Vec<u8>)> = Vec::new();
        let n: usize = it.len();
        let mut i: usize = 0;
        while i < n
            invariant
                i <= n == values.len(),
                it.values() == values,
                it.pos() == i,
                binary_view(out@) == values.take(i as int),
            decreases n - i,
        {
            match it.next() {
                Some((doc, bytes)) => {
                    let mut v: Vec<u8> = Vec::new();
                    push_all(&mut v, bytes);
                    assert(v@ =~= bytes@);
                    let ghost before = binary_view(out@);
                    out.push((doc, v));
                    assert(binary_view(out@) =~= before.push((doc, v@)));
                    assert(values.take(i + 1) =~= values.take(i as int).push(values[i as int]));
                },
                None => {},
            }
            i = i + 1;
        }
        assert(values.take(n as int) =~= values);
        Ok(out)
    }

    /// A byte-string field, packed: the documents, the region of the values,
    /// and where each value begins and ends in it. Each end is within the
    /// region; a beginning may lie behind its end where the file is damaged.
    pub fn binary_values_packed(&self, field_number: i32) -> (r: Result<(Vec<u32>, Vec<u8>, Vec<(usize, usize)>), Error>)
        ensures
            match entry_of(self.entries(), field_number, 0) {
                Some(FieldEntry::Binary(m, a)) => if binary_empty(m) {
                    r is Ok && r->Ok_0.0@.len() == 0 && r->Ok_0.1@.len() == 0 && r->Ok_0.2@.len() == 0
                } else {
                    match binary_parts(self.dvd(), self.header(), m, a) {
                        Ok((docs, data, bounds)) => if ends_ok(bounds, data.len()) {
                            r is Ok && r->Ok_0.0@ == docs && r->Ok_0.1@ == data && r->Ok_0.2@ == Seq::new(
                                docs.len(),
                                |i: int| (bounds[i] as usize, bounds[i + 1] as usize),
                            )
                        } else {
                            r is Err && r->Err_0.kind == ErrorKind::InvalidData
                        },
                        Err(k) => r is Err && r->Err_0.kind == k,
                    }
                },
                _ => r is Err && r->Err_0.kind == ErrorKind::NotFound,
            },
    {
        match self.find(field_number) {
            Some(DvEntry::Binary(m, meta)) => {
                if m.num_values == 0 || m.docs_offset == -2 {
                    return Ok((Vec::new(), Vec::new(), Vec::new()));
                }
                let (doc_ids, data, bounds) = self.read_binary_parts(m, meta)?;
                let n: usize = doc_ids.len();
                let docs = doc_ids.into_vec();
                let mut values: Vec<u8> = Vec::new();
                push_all(&mut values, data);
                assert(values@ =~= data@);
                let mut offsets: Vec<(usize, usize)> = Vec::new();
                let mut i: usize = 0;
                let _size: usize = data.len();
                while i < n
                    invariant
                        i <= n,
                        bounds@.len() == n + 1,
                        forall|j: int| 0 < j <= i ==> #[trigger] bounds@[j] <= data@.len(),
                        data@.len() <= usize::MAX,
                        entry_of(self.entries(), field_number, 0) == Some(FieldEntry::Binary(*m, meta@)),
                        !binary_empty(*m),
                        binary_parts(self.dvd(), self.header(), *m, meta@) == Ok::<(Seq<u32>, Seq<u8>, Seq<u64>), ErrorKind>((docs@, data@, bounds@)),
                        offsets@.len() == i,
                        forall|j: int| 0 <= j < i ==> #[trigger] offsets@[j] == (bounds@[j] as usize, bounds@[j + 1] as usize),
                    decreases n - i,
                {
                    if bounds[i + 1] > data.len() as u64 {
                        return Err(corrupt("values are truncated"));
                    }
                    offsets.push((bounds[i] as usize, bounds[i + 1] as usize));
                    i = i + 1;
                }
                assert(offsets@ =~= Seq::new(n as nat, |i: int| (bounds@[i] as usize, bounds@[i + 1] as usize)));
                Ok((docs, values, offsets))
            },
            _ => Err(Error::new(ErrorKind::NotFound, "no byte-string field of that number")),
        }
    }

    /// Goes through the terms of a sorted field in document order.
    pub fn sorted_doc_values(&self, field_number: i32) -> (r: Result<SortedDocValues, Error>)
        ensures
            match entry_of(self.entries(), field_number, 0) {
                Some(FieldEntry::Sorted(m, t, a)) => match sorted_read(self.dvd(), self.header(), m, t, a) {
                    Ok(values) => r is Ok && r->Ok_0.values() == values && r->Ok_0.pos() == 0,
                    Err(k) => r is Err && r->Err_0.kind == k,
                },
                _ => r is Err && r->Err_0.kind == ErrorKind::NotFound,
            },
    {
        let doc_ords = self.sorted_ords(field_number)?;
        let (dict, dict_offsets) = self.sorted_dict_packed(field_number)?;
        let ghost entry = entry_of(self.entries(), field_number, 0)->Some_0;
        let ghost terms = dict_read(self.dvd(), self.header(), entry->Sorted_1, entry->Sorted_2)->Ok_0;
        let mut i: usize = 0;
        while i < doc_ords.len()
            invariant
                i <= doc_ords@.len(),
                dict_offsets@.len() == terms.len(),
                entry_of(self.entries(), field_number, 0) == Some(entry),
                entry is Sorted,
                ords_read(self.dvd(), self.header(), entry->Sorted_0) == Ok::<Seq<(u32, u32)>, ErrorKind>(doc_ords@),
                dict_read(self.dvd(), self.header(), entry->Sorted_1, entry->Sorted_2) == Ok::<Seq<Seq<u8>>, ErrorKind>(terms),
                forall|j: int| 0 <= j < i ==> (#[trigger] doc_ords@[j]).1 < terms.len(),
            decreases doc_ords@.len() - i,
        {
            if doc_ords[i].1 as usize >= dict_offsets.len() {
                return Err(corrupt("ordinal out of the dictionary"));
            }
            i = i + 1;
        }
        let r = SortedDocValues { doc_ords, dict, dict_offsets, pos: 0, terms: Ghost(terms) };
        assert(r.values() =~= sorted_read(self.dvd(), self.header(), entry->Sorted_0, entry->Sorted_1, entry->Sorted_2)->Ok_0);
        Ok(r)
    }
}

/// The documents of a sorted field with their terms.
pub open spec fn sorted_read(dvd: Seq<u8>, header: int, m: NumericMeta, t: TermsMeta, meta: Seq<u8>) -> Result<Seq<(u32, Seq<u8>)>, ErrorKind> {
    match ords_read(dvd, header, m) {
        Ok(ords) => match dict_read(dvd, header, t, meta) {
            Ok(terms) => if forall|i: int| 0 <= i < ords.len() ==> (#[trigger] ords[i]).1 < terms.len() {
                Ok(Seq::new(ords.len(), |i: int| (ords[i].0, terms[ords[i].1 as int])))
            } else {
                Err(ErrorKind::InvalidData)
            },
            Err(k) => Err(k),
        },
        Err(k) => Err(k),
    }
}

/// The values of a byte-string field, one after the other. What it reads was
/// checked when it was made.
pub struct BinaryDocValues<'a> {
    doc_ids: DocIds,
    data: &'a [u8],
    bounds: Vec<u64>,
    pos: usize,
}

impl<'a> BinaryDocValues<'a> {
    /// All values with their documents.
    pub closed spec fn values(&self) -> Seq<(u32, Seq<u8>)> {
        Seq::new(self.doc_ids@.len(), |i: int| (self.doc_ids@[i], self.data@.subrange(self.bounds@[i] as int, self.bounds@[i + 1] as int)))
    }

    /// How many were given.
    pub closed spec fn pos(&self) -> int {
        self.pos as int
    }

    #[verifier::type_invariant]
    spec fn within(self) -> bool {
        &&& self.pos <= self.doc_ids@.len()
        &&& self.doc_ids@.len() > 0 ==> self.bounds@.len() == self.doc_ids@.len() + 1
        &&& bounds_ok(self.bounds@, self.data@.len())
    }

    /// The next document with its value, or none at the end.
    pub fn next(&mut self) -> (r: Option<(u32, &'a [u8])>)
        ensures
            final(self).values() == old(self).values(),
            if old(self).pos() < old(self).values().len() {
                &&& r is Some
                &&& r->Some_0.0 == old(self).values()[old(self).pos()].0
                &&& r->Some_0.1@ == old(self).values()[old(self).pos()].1
                &&& final(self).pos() == old(self).pos() + 1
            } else {
                r is None && final(self).pos() == old(self).pos()
            },
    {
        proof {
            use_type_invariant(&*self);
        }
        if self.pos >= self.doc_ids.len() {
            return None;
        }
        let i: usize = self.pos;
        self.pos = i + 1;
        let doc: u32 = self.doc_ids.get(i);
        let start: u64 = self.bounds[i];
        let end: u64 = self.bounds[i + 1];
        let _size: usize = self.data.len();
        Some((doc, &self.data[start as usize..end as usize]))
    }

    /// The number of values.
    pub fn len(&self) -> (r: usize)
        ensures
            r == self.values().len(),
    {
        self.doc_ids.len()
    }

    pub fn is_empty(&self) -> (r: bool)
        ensures
            r == (self.values().len() == 0),
    {
        self.doc_ids.len() == 0
    }
}

/// The terms of a sorted field, one document after the other.
pub struct SortedDocValues {
    doc_ords: Vec<(u32, u32)>,
    dict: Vec<u8>,
    dict_offsets: Vec<(u32, u32)>,
    pos: usize,
    terms: Ghost<Seq<Seq<u8>>>,
}

impl SortedDocValues {
    /// All terms with their documents.
    pub closed spec fn values(&self) -> Seq<(u32, Seq<u8>)> {
        Seq::new(self.doc_ords@.len(), |i: int| (self.doc_ords@[i].0, self.terms@[self.doc_ords@[i].1 as int]))
    }

    /// How many were given.
    pub closed spec fn pos(&self) -> int {
        self.pos as int
    }

    #[verifier::type_invariant]
    spec fn within(self) -> bool {
        &&& self.pos <= self.doc_ords@.len()
        &&& packs(self.dict@, self.dict_offsets@, self.terms@)
        &&& forall|i: int| 0 <= i < self.doc_ords@.len() ==> (#[trigger] self.doc_ords@[i]).1 < self.terms@.len()
    }

    /// The next document with its term, or none at the end.
    pub fn next(&mut self) -> (r: Option<(u32, &[u8])>)
        ensures
            final(self).values() == old(self).values(),
            if old(self).pos() < old(self).values().len() {
                &&& r is Some
                &&& r->Some_0.0 == old(self).values()[old(self).pos()].0
                &&& r->Some_0.1@ == old(self).values()[old(self).pos()].1
                &&& final(self).pos() == old(self).pos() + 1
            } else {
                r is None && final(self).pos() == old(self).pos()
            },
    {
        proof {
            use_type_invariant(&*self);
        }
        if self.pos >= self.doc_ords.len() {
            return None;
        }
        let i: usize = self.pos;
        self.pos = i + 1;
        let (doc, ord) = self.doc_ords[i];
        let (start, len) = self.dict_offsets[ord as usize];
        let _size: usize = self.dict.len();
        assert(packs_one(self.dict@, self.dict_offsets@[ord as int], self.terms@, ord as int));
        Some((doc, &self.dict.as_slice()[start as usize..start as usize + len as usize]))
    }

    /// The number of documents.
    pub fn len(&self) -> (r: usize)
        ensures
            r == self.values().len(),
    {
        self.doc_ords.len()
    }

    pub fn is_empty(&self) -> (r: bool)
        ensures
            r == (self.values().len() == 0),
    {
        self.doc_ords.len() == 0
    }
}

} // verus!
