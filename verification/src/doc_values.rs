//! Writes per-document values: numbers, byte strings, and ordinals into a
//! dictionary of terms. The values go to the data file, their description to
//! the metadata file.

use crate::bytes::{int_bytes, lemma_concat_assoc, long_bytes, short_bytes, varint_bytes, vint_bytes};
use crate::codec_util::{footer_bytes, index_header_bytes, write_footer, write_index_header};
use crate::disi::{disi_bytes, doc_set, jump_count, write_indexed_disi};
use crate::error::Error;
use crate::for_util::fits;
use crate::io::{ChecksumIndexOutput, DataOutput, IndexOutput, SegmentFile};
use crate::num::{spec_to_i16, spec_to_i64, to_i64, to_u64, wrap_sub};
use crate::packed::{direct_bytes, direct_monotonic_write, direct_width, direct_writer_encode, direct_writer_unsigned_bits_required, lemma_ascending_rises, monotonic_data, monotonic_meta};
use crate::terms_dict::{block_addresses, blocks_data, chunks_ok, dict_view, key_addresses, key_count, keys_data, largest_block, longest_term, term_list, write_sort_keys, write_term_blocks};
use vstd::arithmetic::power2::{lemma2_to64, pow2};
use vstd::prelude::*;
use vstd::string::*;
use vstd::utf8::encode_utf8;

verus! {

pub const DATA_CODEC: &'static str = "Lucene90DocValuesData";
pub const META_CODEC: &'static str = "Lucene90DocValuesMetadata";
pub const DATA_EXTENSION: &'static str = "dvd";
pub const META_EXTENSION: &'static str = "dvm";
pub const VERSION: u32 = 0;

/// What kind of field a metadata entry describes.
pub const TYPE_NUMERIC: u8 = 0;
pub const TYPE_BINARY: u8 = 1;
pub const TYPE_SORTED: u8 = 2;

/// Monotonic sequences here come in blocks of `2^16`.
pub const DIRECT_MONOTONIC_BLOCK_SHIFT: u32 = 16;

/// Ranks in a dense block are `2^9` documents apart.
pub const DISI_DENSE_RANK_POWER: u8 = 9;

pub open spec fn file_name_spec(segment: Seq<char>, suffix: Seq<char>, extension: Seq<char>) -> Seq<char> {
    if suffix.len() == 0 {
        segment + "."@ + extension
    } else {
        segment + "_"@ + suffix + "."@ + extension
    }
}

fn file_name(segment: &str, suffix: &str, extension: &str) -> (r: String)
    ensures
        r@ == file_name_spec(segment@, suffix@, extension@),
{
    let mut s = segment.to_owned();
    if !suffix.is_empty() {
        s.append("_");
        s.append(suffix);
    }
    s.append(".");
    s.append(extension);
    s
}

/// The names of the data and the metadata file: segment, suffix behind an
/// underscore unless it is empty, extension.
pub fn file_names(segment: &str, suffix: &str) -> (r: [String; 2])
    ensures
        r@[0]@ == file_name_spec(segment@, suffix@, DATA_EXTENSION@),
        r@[1]@ == file_name_spec(segment@, suffix@, META_EXTENSION@),
{
    [file_name(segment, suffix, DATA_EXTENSION), file_name(segment, suffix, META_EXTENSION)]
}

// ---------------------------------------------------------------------------
// What is written
// ---------------------------------------------------------------------------

/// A position in a file, as metadata holds it.
pub open spec fn position_bytes(p: nat) -> Seq<u8> {
    long_bytes(spec_to_i64(p as u64))
}

/// The documents that have a value: nothing where none or all do.
pub open spec fn docs_data(docs: Seq<u32>, max_doc: u32) -> Seq<u8> {
    if docs.len() == 0 || docs.len() == max_doc {
        Seq::empty()
    } else {
        disi_bytes(docs)
    }
}

/// Where that data is, the number of jumps and the rank distance; -2 stands
/// for no documents, -1 for all.
pub open spec fn docs_meta(docs: Seq<u32>, max_doc: u32, at: nat) -> Seq<u8> {
    if docs.len() == 0 {
        long_bytes(-2i64) + long_bytes(0) + short_bytes(-1i16) + seq![255u8]
    } else if docs.len() == max_doc {
        long_bytes(-1i64) + long_bytes(0) + short_bytes(-1i16) + seq![255u8]
    } else {
        position_bytes(at) + position_bytes(disi_bytes(docs).len()) + short_bytes(spec_to_i16(jump_count(docs) as u16)) + seq![DISI_DENSE_RANK_POWER]
    }
}

pub open spec fn docs_of<V>(values: Seq<(u32, V)>) -> Seq<u32> {
    values.map_values(|v: (u32, V)| v.0)
}

/// The least of the values.
pub open spec fn least_value(values: Seq<(u32, i64)>) -> i64
    decreases values.len(),
{
    if values.len() == 0 {
        i64::MAX
    } else {
        let m = least_value(values.drop_last());
        if values.last().1 < m {
            values.last().1
        } else {
            m
        }
    }
}

/// The greatest of the values.
pub open spec fn greatest_value(values: Seq<(u32, i64)>) -> i64
    decreases values.len(),
{
    if values.len() == 0 {
        i64::MIN
    } else {
        let m = greatest_value(values.drop_last());
        if values.last().1 > m {
            values.last().1
        } else {
            m
        }
    }
}

/// The width of the packed values: 0 where all are equal.
pub open spec fn values_width(values: Seq<(u32, i64)>) -> nat {
    let (least, greatest) = (least_value(values), greatest_value(values));
    if least >= greatest {
        0
    } else {
        direct_width((greatest - least) as nat) as nat
    }
}

/// The values, counted from the least.
pub open spec fn values_packed(values: Seq<(u32, i64)>) -> Seq<u64> {
    Seq::new(values.len(), |i: int| (values[i].1 - least_value(values)) as u64)
}

pub open spec fn values_data(values: Seq<(u32, i64)>) -> Seq<u8> {
    if values_width(values) == 0 {
        Seq::empty()
    } else {
        direct_bytes(values_packed(values), values_width(values))
    }
}

/// The data of a numeric field.
pub open spec fn numeric_data(values: Seq<(u32, i64)>, max_doc: u32) -> Seq<u8> {
    docs_data(docs_of(values), max_doc) + values_data(values)
}

/// The description of a numeric field whose data begins at `at`: documents,
/// number of values, no table, width, least value, factor, where the values
/// are, no jump table.
pub open spec fn numeric_meta(values: Seq<(u32, i64)>, max_doc: u32, at: nat) -> Seq<u8> {
    let docs = docs_of(values);
    docs_meta(docs, max_doc, at) + position_bytes(values.len()) + int_bytes(-1i32) + seq![values_width(values) as u8] + long_bytes(least_value(values)) + long_bytes(1)
        + position_bytes(at + docs_data(docs, max_doc).len()) + position_bytes(values_data(values).len()) + long_bytes(-1i64)
}

/// The data of a terms dictionary: the blocks, where they begin, the sort
/// keys, and where those begin.
pub open spec fn terms_data(dict: Seq<Seq<u8>>, chunks: Seq<Seq<u8>>) -> Seq<u8> {
    blocks_data(dict, chunks, chunks.len() as int) + monotonic_data(block_addresses(dict, chunks), 65536) + keys_data(dict, key_count(dict.len() as int)) + monotonic_data(key_addresses(dict), 65536)
}

/// The description of a terms dictionary whose data begins at `at`.
pub open spec fn terms_meta(dict: Seq<Seq<u8>>, chunks: Seq<Seq<u8>>, at: nat) -> Seq<u8> {
    let blocks = blocks_data(dict, chunks, chunks.len() as int).len();
    let addresses = monotonic_data(block_addresses(dict, chunks), 65536).len();
    let keys = keys_data(dict, key_count(dict.len() as int)).len();
    let key_addrs = monotonic_data(key_addresses(dict), 65536).len();
    varint_bytes(dict.len()) + int_bytes(16) + monotonic_meta(block_addresses(dict, chunks), 65536, 0) + int_bytes(longest_term(dict, dict.len() as int) as i32)
        + int_bytes(largest_block(dict, chunks.len() as int) as i32) + position_bytes(at) + position_bytes(blocks) + position_bytes(at + blocks) + position_bytes(addresses)
        + (int_bytes(10) + monotonic_meta(key_addresses(dict), 65536, 0) + position_bytes(at + blocks + addresses) + position_bytes(keys) + position_bytes(at + blocks + addresses + keys)
        + position_bytes(key_addrs))
}

/// Ordinals as numeric values.
pub open spec fn ord_values(ords: Seq<(u32, u32)>) -> Seq<(u32, i64)> {
    ords.map_values(|o: (u32, u32)| (o.0, o.1 as i64))
}

/// The lengths of the first `n` values together.
pub open spec fn total_length(values: Seq<(u32, Seq<u8>)>, n: int) -> nat
    decreases n,
{
    if n <= 0 {
        0
    } else {
        total_length(values, n - 1) + values[n - 1].1.len()
    }
}

/// The first `n` values, one after the other.
pub open spec fn joined_values(values: Seq<(u32, Seq<u8>)>, n: int) -> Seq<u8>
    decreases n,
{
    if n <= 0 {
        Seq::empty()
    } else {
        joined_values(values, n - 1) + values[n - 1].1
    }
}

/// The length of the shortest of the first `n` values.
pub open spec fn shortest_length(values: Seq<(u32, Seq<u8>)>, n: int) -> int
    decreases n,
{
    if n <= 0 {
        0x7FFF_FFFF
    } else {
        let m = shortest_length(values, n - 1);
        if values[n - 1].1.len() < m {
            values[n - 1].1.len() as int
        } else {
            m
        }
    }
}

/// The length of the longest of the first `n` values.
pub open spec fn longest_length(values: Seq<(u32, Seq<u8>)>, n: int) -> int
    decreases n,
{
    if n <= 0 {
        0
    } else {
        let m = longest_length(values, n - 1);
        if values[n - 1].1.len() > m {
            values[n - 1].1.len() as int
        } else {
            m
        }
    }
}

pub open spec fn min_length(values: Seq<(u32, Seq<u8>)>) -> int {
    if values.len() == 0 {
        0
    } else {
        shortest_length(values, values.len() as int)
    }
}

pub open spec fn max_length(values: Seq<(u32, Seq<u8>)>) -> int {
    longest_length(values, values.len() as int)
}

/// Where the values begin, and where the last one ends.
pub open spec fn value_addresses(values: Seq<(u32, Seq<u8>)>) -> Seq<u64> {
    Seq::new(values.len() + 1, |i: int| total_length(values, i) as u64)
}

/// The data of a byte-string field: the values, the documents, and, unless all
/// values have one length, where they begin.
pub open spec fn binary_data(values: Seq<(u32, Seq<u8>)>, max_doc: u32) -> Seq<u8> {
    joined_values(values, values.len() as int) + docs_data(docs_of(values), max_doc) + if max_length(values) > min_length(values) {
        monotonic_data(value_addresses(values), 65536)
    } else {
        Seq::empty()
    }
}

/// The description of a byte-string field whose data begins at `at`.
pub open spec fn binary_meta(values: Seq<(u32, Seq<u8>)>, max_doc: u32, at: nat) -> Seq<u8> {
    let docs = docs_of(values);
    let joined = joined_values(values, values.len() as int).len();
    position_bytes(at) + position_bytes(joined) + docs_meta(docs, max_doc, at + joined) + int_bytes(values.len() as i32) + int_bytes(min_length(values) as i32) + int_bytes(max_length(values) as i32)
        + if max_length(values) > min_length(values) {
        position_bytes(at + joined + docs_data(docs, max_doc).len()) + vint_bytes(16) + monotonic_meta(value_addresses(values), 65536, 0) + position_bytes(monotonic_data(value_addresses(values), 65536).len())
    } else {
        Seq::empty()
    }
}

/// A field with its values. The compressed parts of a dictionary are not
/// determined by its terms.
#[verifier::ext_equal]
pub enum FieldValues {
    Numeric { number: i32, max_doc: u32, values: Seq<(u32, i64)> },
    Sorted { number: i32, max_doc: u32, dict: Seq<Seq<u8>>, ords: Seq<(u32, u32)>, chunks: Seq<Seq<u8>> },
    Binary { number: i32, max_doc: u32, strings: Seq<(u32, Seq<u8>)> },
}

/// The data of a field.
#[verifier::opaque]
pub open spec fn field_data(f: FieldValues) -> Seq<u8> {
    match f {
        FieldValues::Numeric { number, max_doc, values } => numeric_data(values, max_doc),
        FieldValues::Sorted { number, max_doc, dict, ords, chunks } => numeric_data(ord_values(ords), max_doc) + terms_data(dict, chunks),
        FieldValues::Binary { number, max_doc, strings } => binary_data(strings, max_doc),
    }
}

/// The entry of a field whose data begins at `at`.
#[verifier::opaque]
pub open spec fn field_meta(f: FieldValues, at: nat) -> Seq<u8> {
    match f {
        FieldValues::Numeric { number, max_doc, values } => int_bytes(number) + seq![TYPE_NUMERIC] + numeric_meta(values, max_doc, at),
        FieldValues::Sorted { number, max_doc, dict, ords, chunks } => int_bytes(number) + seq![TYPE_SORTED] + (numeric_meta(ord_values(ords), max_doc, at)
            + terms_meta(dict, chunks, at + numeric_data(ord_values(ords), max_doc).len())),
        FieldValues::Binary { number, max_doc, strings } => int_bytes(number) + seq![TYPE_BINARY] + binary_meta(strings, max_doc, at),
    }
}

pub open spec fn fields_data(fields: Seq<FieldValues>) -> Seq<u8>
    decreases fields.len(),
{
    if fields.len() == 0 {
        Seq::empty()
    } else {
        fields_data(fields.drop_last()) + field_data(fields.last())
    }
}

/// The entries of fields whose data begins at `at`.
pub open spec fn fields_meta(fields: Seq<FieldValues>, at: nat) -> Seq<u8>
    decreases fields.len(),
{
    if fields.len() == 0 {
        Seq::empty()
    } else {
        fields_meta(fields.drop_last(), at) + field_meta(fields.last(), at + fields_data(fields.drop_last()).len())
    }
}

/// The data file up to the footer.
pub open spec fn data_body(fields: Seq<FieldValues>, id: Seq<u8>, suffix: Seq<char>) -> Seq<u8> {
    index_header_bytes(DATA_CODEC@, VERSION, id, suffix) + fields_data(fields)
}

/// The metadata file up to the end mark.
pub open spec fn meta_body(fields: Seq<FieldValues>, id: Seq<u8>, suffix: Seq<char>) -> Seq<u8> {
    index_header_bytes(META_CODEC@, VERSION, id, suffix) + fields_meta(fields, index_header_bytes(DATA_CODEC@, VERSION, id, suffix).len())
}

/// The data file.
pub open spec fn data_file(fields: Seq<FieldValues>, id: Seq<u8>, suffix: Seq<char>) -> Seq<u8> {
    let body = data_body(fields, id, suffix);
    body + footer_bytes(body)
}

/// The metadata file.
pub open spec fn meta_file(fields: Seq<FieldValues>, id: Seq<u8>, suffix: Seq<char>) -> Seq<u8> {
    let body = meta_body(fields, id, suffix) + int_bytes(-1i32);
    body + footer_bytes(body)
}

/// The documents ascend, and are below `max_doc`.
pub open spec fn valid_docs(docs: Seq<u32>, max_doc: u32) -> bool {
    &&& max_doc <= i32::MAX
    &&& forall|i: int, j: int| 0 <= i < j < docs.len() ==> #[trigger] docs[i] < #[trigger] docs[j]
    &&& forall|i: int| 0 <= i < docs.len() ==> #[trigger] docs[i] < max_doc
}

/// Ordinals go with a dictionary: each is one of a term, and each term's is
/// used.
pub open spec fn valid_ords(ords: Seq<(u32, u32)>, dict: Seq<Seq<u8>>) -> bool {
    &&& forall|i: int| 0 <= i < ords.len() ==> (#[trigger] ords[i]).1 < dict.len()
    &&& forall|o: int| 0 <= o < dict.len() ==> #[trigger] ord_used(ords, o)
}

pub open spec fn ord_used(ords: Seq<(u32, u32)>, o: int) -> bool {
    exists|i: int| 0 <= i < ords.len() && (#[trigger] ords[i]).1 == o
}

pub proof fn lemma_valid_docs_len(docs: Seq<u32>, max_doc: u32, i: int)
    requires
        valid_docs(docs, max_doc),
        0 <= i <= docs.len(),
    ensures
        i <= max_doc,
        i > 0 ==> docs[i - 1] >= i - 1,
    decreases i,
{
    if i > 0 {
        lemma_valid_docs_len(docs, max_doc, i - 1);
        if i > 1 {
            assert(docs[i - 2] < docs[i - 1]);
        }
        assert(docs[i - 1] < max_doc);
    }
}

// ---------------------------------------------------------------------------
// Writing
// ---------------------------------------------------------------------------

/// Writes which documents have a value.
fn write_docs(data: &mut ChecksumIndexOutput, meta: &mut ChecksumIndexOutput, max_doc: u32, docs: &Vec<u32>) -> (r: Result<(), Error>)
    requires
        valid_docs(docs@, max_doc),
    ensures
        final(data).since() == old(data).since(),
        final(meta).since() == old(meta).since(),
        r is Ok,
        final(data).written() == old(data).written() + docs_data(docs@, max_doc),
        final(meta).written() == old(meta).written() + docs_meta(docs@, max_doc, old(data).written().len()),
{
    broadcast use lemma_concat_assoc;
    let ghost (d0, m0) = (data.written(), meta.written());
    if docs.len() == 0 {
        meta.write_long(-2)?;
        meta.write_long(0)?;
        meta.write_short(-1)?;
        meta.write_byte(255)?;
        assert(data.written() =~= d0 + docs_data(docs@, max_doc));
    } else if docs.len() == max_doc as usize {
        meta.write_long(-1)?;
        meta.write_long(0)?;
        meta.write_short(-1)?;
        meta.write_byte(255)?;
        assert(data.written() =~= d0 + docs_data(docs@, max_doc));
    } else {
        let offset: u64 = data.file_pointer();
        meta.write_long(to_i64(offset))?;
        assert(doc_set(docs@)) by {
            assert forall|i: int| 0 <= i < docs@.len() implies #[trigger] docs@[i] < 0x7FFF_FFFF by {
                assert(docs@[i] < max_doc);
            }
        }
        let jumps: i16 = write_indexed_disi(data, docs.as_slice())?;
        let length: u64 = data.file_pointer() - offset;
        meta.write_long(to_i64(length))?;
        meta.write_short(jumps)?;
        meta.write_byte(DISI_DENSE_RANK_POWER)?;
    }
    assert(meta.written() == m0 + docs_meta(docs@, max_doc, d0.len()));
    Ok(())
}

pub proof fn lemma_values_range(values: Seq<(u32, i64)>)
    ensures
        forall|i: int| 0 <= i < values.len() ==> least_value(values) <= (#[trigger] values[i]).1 <= greatest_value(values),
    decreases values.len(),
{
    if values.len() > 0 {
        let d = values.drop_last();
        lemma_values_range(d);
        assert forall|i: int| 0 <= i < values.len() implies least_value(values) <= (#[trigger] values[i]).1 <= greatest_value(values) by {
            if i < d.len() {
                assert(least_value(d) <= d[i].1 <= greatest_value(d));
            }
        }
    }
}

/// The packed values fit their width.
pub proof fn lemma_values_fit(values: Seq<(u32, i64)>)
    requires
        values_width(values) > 0,
    ensures
        fits(values_packed(values), values_width(values) as int),
        crate::packed::supported(values_width(values) as int),
{
    let (least, greatest) = (least_value(values), greatest_value(values));
    lemma_values_range(values);
    crate::packed::lemma_direct_width((greatest - least) as u64);
    let packed = values_packed(values);
    assert forall|i: int| 0 <= i < packed.len() implies #[trigger] packed[i] < pow2(values_width(values)) by {
        assert(least <= values[i].1 <= greatest);
    }
}

/// The documents, and the least and the greatest value.
fn scan_values(values: &[(u32, i64)]) -> (r: (Vec<u32>, i64, i64))
    ensures
        r.0@ == docs_of(values@),
        r.1 == least_value(values@),
        r.2 == greatest_value(values@),
{
    let ghost v = values@;
    let n: usize = values.len();
    let mut min: i64 = i64::MAX;
    let mut max: i64 = i64::MIN;
    let mut docs: Vec<u32> = Vec::new();
    let mut i: usize = 0;
    assert(v.take(0) =~= Seq::<(u32, i64)>::empty());
    while i < n
        invariant
            i <= n == values@.len(),
            v == values@,
            min == least_value(v.take(i as int)),
            max == greatest_value(v.take(i as int)),
            docs@ == docs_of(v.take(i as int)),
        decreases n - i,
    {
        let (doc, x) = values[i];
        assert(v.take(i + 1).drop_last() =~= v.take(i as int));
        if x < min {
            min = x;
        }
        if x > max {
            max = x;
        }
        docs.push(doc);
        assert(docs@ =~= docs_of(v.take(i + 1)));
        i = i + 1;
    }
    assert(v.take(n as int) =~= v);
    (docs, min, max)
}

/// The values counted from the least one.
fn packed_values(values: &[(u32, i64)], min: i64) -> (r: Vec<u64>)
    requires
        min == least_value(values@),
    ensures
        r@ == values_packed(values@),
{
    let ghost v = values@;
    let n: usize = values.len();
    let ghost want = values_packed(v);
    let mut packed: Vec<u64> = Vec::new();
    let mut i: usize = 0;
    proof {
        lemma_values_range(v);
    }
    while i < n
        invariant
            i <= n == values@.len(),
            v == values@,
            want == values_packed(v),
            min == least_value(v),
            forall|i: int| 0 <= i < v.len() ==> least_value(v) <= (#[trigger] v[i]).1,
            packed@ == want.take(i as int),
        decreases n - i,
    {
        let x: i64 = values[i].1;
        assert(least_value(v) <= v[i as int].1);
        packed.push(wrap_sub(to_u64(x), to_u64(min)));
        assert(packed@ =~= want.take(i + 1));
        i = i + 1;
    }
    assert(want.take(n as int) =~= want);
    packed
}

/// The width that the values take.
fn required_width(min: i64, max: i64) -> (r: u32)
    ensures
        r == if min >= max {
            0
        } else {
            direct_width((max - min) as nat) as int
        },
{
    if min < max {
        direct_writer_unsigned_bits_required(wrap_sub(to_u64(max), to_u64(min)))
    } else {
        0
    }
}

/// Writes a numeric field's data and description.
fn write_values(data: &mut ChecksumIndexOutput, meta: &mut ChecksumIndexOutput, max_doc: u32, values: &[(u32, i64)]) -> (r: Result<(), Error>)
    requires
        valid_docs(docs_of(values@), max_doc),
    ensures
        final(data).since() == old(data).since(),
        final(meta).since() == old(meta).since(),
        r is Ok,
        final(data).written() == old(data).written() + numeric_data(values@, max_doc),
        final(meta).written() == old(meta).written() + numeric_meta(values@, max_doc, old(data).written().len()),
{
    broadcast use lemma_concat_assoc;
    let ghost (d0, m0) = (data.written(), meta.written());
    let ghost v = values@;
    let (docs, min, max) = scan_values(values);
    write_docs(data, meta, max_doc, &docs)?;
    let ghost d1 = data.written();
    meta.write_long(to_i64(values.len() as u64))?;
    let width: u32 = required_width(min, max);
    meta.write_int(-1)?;
    meta.write_byte(width as u8)?;
    meta.write_long(min)?;
    meta.write_long(1)?;
    let offset: u64 = data.file_pointer();
    meta.write_long(to_i64(offset))?;
    if width != 0 {
        proof {
            lemma_values_fit(v);
        }
        let packed = packed_values(values, min);
        let encoded = direct_writer_encode(packed.as_slice(), width);
        data.write_bytes(&encoded)?;
    } else {
        assert(data.written() =~= d1 + values_data(v));
    }
    let length: u64 = data.file_pointer() - offset;
    meta.write_long(to_i64(length))?;
    meta.write_long(-1)?;
    assert(data.written() == d0 + numeric_data(v, max_doc));
    assert(meta.written() == m0 + numeric_meta(v, max_doc, d0.len()));
    Ok(())
}

/// Writes a terms dictionary and its description.
fn add_terms_dict(data: &mut ChecksumIndexOutput, meta: &mut ChecksumIndexOutput, dict: &[&[u8]]) -> (r: Result<Ghost<Seq<Seq<u8>>>, Error>)
    requires
        term_list(dict_view(dict@)),
        dict@.len() < 0x1_0000_0000,
    ensures
        final(data).since() == old(data).since(),
        final(meta).since() == old(meta).since(),
        r is Ok,
        chunks_ok(dict_view(dict@), r->Ok_0@),
        final(data).written() == old(data).written() + terms_data(dict_view(dict@), r->Ok_0@),
        final(meta).written() == old(meta).written() + terms_meta(dict_view(dict@), r->Ok_0@, old(data).written().len()),
{
    broadcast use lemma_concat_assoc;
    let ghost (d0, m0) = (data.written(), meta.written());
    let ghost d = dict_view(dict@);
    proof {
        lemma2_to64();
    }
    meta.write_varint(dict.len() as u64)?;
    meta.write_int(16)?;
    let terms_offset: u64 = data.file_pointer();
    let (addresses, longest, largest, chunks) = write_term_blocks(data, dict)?;
    let ghost cv = chunks@;
    let mut addr_data = ChecksumIndexOutput::new(IndexOutput::in_memory());
    proof {
        lemma2_to64();
        lemma_ascending_rises(addresses@, pow2(16) as int);
    }
    direct_monotonic_write(meta, &mut addr_data, addresses.as_slice(), DIRECT_MONOTONIC_BLOCK_SHIFT)?;
    assert(addr_data.written() =~= monotonic_data(block_addresses(d, cv), 65536));
    meta.write_int(longest)?;
    meta.write_int(largest)?;
    meta.write_long(to_i64(terms_offset))?;
    let terms_length: u64 = data.file_pointer() - terms_offset;
    meta.write_long(to_i64(terms_length))?;
    let addr_offset: u64 = data.file_pointer();
    data.write_bytes(&addr_data.into_bytes())?;
    meta.write_long(to_i64(addr_offset))?;
    let addr_length: u64 = data.file_pointer() - addr_offset;
    meta.write_long(to_i64(addr_length))?;
    let ghost (d1, m1) = (data.written(), meta.written());
    write_terms_index(data, meta, dict)?;
    assert(data.written() == d0 + terms_data(d, cv));
    assert(meta.written() == m0 + terms_meta(d, cv, d0.len()));
    Ok(chunks)
}

/// Writes the sort keys of a terms dictionary and their description.
fn write_terms_index(data: &mut ChecksumIndexOutput, meta: &mut ChecksumIndexOutput, dict: &[&[u8]]) -> (r: Result<(), Error>)
    requires
        term_list(dict_view(dict@)),
    ensures
        final(data).since() == old(data).since(),
        final(meta).since() == old(meta).since(),
        r is Ok,
        final(data).written() == old(data).written() + (keys_data(dict_view(dict@), key_count(dict@.len() as int)) + monotonic_data(key_addresses(dict_view(dict@)), 65536)),
        final(meta).written() == old(meta).written() + (int_bytes(10) + monotonic_meta(key_addresses(dict_view(dict@)), 65536, 0) + position_bytes(old(data).written().len())
            + position_bytes(keys_data(dict_view(dict@), key_count(dict@.len() as int)).len()) + position_bytes(old(data).written().len() + keys_data(dict_view(dict@), key_count(dict@.len() as int)).len())
            + position_bytes(monotonic_data(key_addresses(dict_view(dict@)), 65536).len())),
{
    broadcast use lemma_concat_assoc;
    let ghost (d0, m0) = (data.written(), meta.written());
    let ghost d = dict_view(dict@);
    proof {
        lemma2_to64();
    }
    meta.write_int(10)?;
    let index_offset: u64 = data.file_pointer();
    let addresses = write_sort_keys(data, dict)?;
    let index_length: u64 = data.file_pointer() - index_offset;
    let mut addr_data = ChecksumIndexOutput::new(IndexOutput::in_memory());
    proof {
        lemma2_to64();
        lemma_ascending_rises(addresses@, pow2(16) as int);
    }
    direct_monotonic_write(meta, &mut addr_data, addresses.as_slice(), DIRECT_MONOTONIC_BLOCK_SHIFT)?;
    assert(addr_data.written() =~= monotonic_data(key_addresses(d), 65536));
    meta.write_long(to_i64(index_offset))?;
    meta.write_long(to_i64(index_length))?;
    let addr_offset: u64 = data.file_pointer();
    data.write_bytes(&addr_data.into_bytes())?;
    meta.write_long(to_i64(addr_offset))?;
    let addr_length: u64 = data.file_pointer() - addr_offset;
    meta.write_long(to_i64(addr_length))?;
    let (keys, addrs) = (Ghost(keys_data(d, key_count(dict@.len() as int))), Ghost(monotonic_data(key_addresses(d), 65536)));
    assert(data.written() =~= d0 + (keys@ + addrs@));
    proof {
        let tail = int_bytes(10) + monotonic_meta(key_addresses(d), 65536, 0) + position_bytes(d0.len()) + position_bytes(keys@.len()) + position_bytes(d0.len() + keys@.len()) + position_bytes(addrs@.len());
        assert(meta.written() == m0 + tail);
    }
    Ok(())
}

/// The view of byte-string values.
pub open spec fn binary_view(values: Seq<(u32, Vec<u8>)>) -> Seq<(u32, Seq<u8>)> {
    values.map_values(|v: (u32, Vec<u8>)| (v.0, v.1@))
}

/// Values short enough for the format.
pub open spec fn valid_lengths(values: Seq<(u32, Seq<u8>)>) -> bool {
    forall|i: int| 0 <= i < values.len() ==> (#[trigger] values[i]).1.len() <= i32::MAX
}

pub proof fn lemma_joined_len(values: Seq<(u32, Seq<u8>)>, n: int)
    requires
        0 <= n <= values.len(),
    ensures
        joined_values(values, n).len() == total_length(values, n),
    decreases n,
{
    if n > 0 {
        lemma_joined_len(values, n - 1);
    }
}

/// Writes a byte-string field's data and description.
#[verifier::rlimit(60)]
fn write_binary(data: &mut ChecksumIndexOutput, meta: &mut ChecksumIndexOutput, max_doc: u32, values: &[(u32, Vec<u8>)]) -> (r: Result<(), Error>)
    requires
        valid_docs(docs_of(binary_view(values@)), max_doc),
        valid_lengths(binary_view(values@)),
    ensures
        final(data).since() == old(data).since(),
        final(meta).since() == old(meta).since(),
        r is Ok,
        final(data).written() == old(data).written() + binary_data(binary_view(values@), max_doc),
        final(meta).written() == old(meta).written() + binary_meta(binary_view(values@), max_doc, old(data).written().len()),
{
    broadcast use lemma_concat_assoc;
    let ghost (d0, m0) = (data.written(), meta.written());
    let ghost v = binary_view(values@);
    let n: usize = values.len();
    let data_offset: u64 = data.file_pointer();
    meta.write_long(to_i64(data_offset))?;
    let mut docs: Vec<u32> = Vec::new();
    let mut addresses: Vec<u64> = Vec::new();
    let mut min: i32 = i32::MAX;
    let mut max: i32 = 0;
    let mut i: usize = 0;
    addresses.push(0);
    assert(d0 + Seq::<u8>::empty() =~= d0);
    while i < n
        invariant
            data.since() == old(data).since(),
            i <= n == values@.len(),
            v == binary_view(values@),
            v.len() == n,
            valid_lengths(v),
            data_offset == d0.len(),
            data.written() == d0 + joined_values(v, i as int),
            docs@ == docs_of(v.take(i as int)),
            addresses@.len() == i + 1,
            forall|j: int| 0 <= j <= i ==> #[trigger] addresses@[j] == total_length(v, j),
            forall|j: int, k: int| 0 <= j <= k <= i ==> #[trigger] addresses@[j] <= #[trigger] addresses@[k],
            min == shortest_length(v, i as int),
            max == longest_length(v, i as int),
        decreases n - i,
    {
        let (doc, bytes) = (&values[i].0, &values[i].1);
        assert(v[i as int] == (values@[i as int].0, values@[i as int].1@));
        assert(v[i as int].1.len() <= i32::MAX);
        let ghost before = data.written();
        data.write_bytes(bytes.as_slice())?;
        docs.push(*doc);
        assert(docs@ =~= docs_of(v.take(i + 1)));
        if (bytes.len() as i32) < min {
            min = bytes.len() as i32;
        }
        if bytes.len() as i32 > max {
            max = bytes.len() as i32;
        }
        assert(data.written() =~= d0 + joined_values(v, i + 1));
        proof {
            lemma_joined_len(v, i + 1);
            lemma_joined_len(v, i as int);
            assert(addresses@[i as int] == total_length(v, i as int));
        }
        addresses.push(data.file_pointer() - data_offset);
        i = i + 1;
    }
    assert(v.take(n as int) =~= v);
    assert(addresses@ =~= value_addresses(v));
    if n == 0 {
        min = 0;
    }
    assert(min == min_length(v));
    let data_length: u64 = data.file_pointer() - data_offset;
    meta.write_long(to_i64(data_length))?;
    let ghost (d1, m1) = (data.written(), meta.written());
    write_docs(data, meta, max_doc, &docs)?;
    proof {
        lemma_valid_docs_len(docs@, max_doc, n as int);
    }
    meta.write_int(n as i32)?;
    meta.write_int(min)?;
    meta.write_int(max)?;
    let ghost (d2, m2) = (data.written(), meta.written());
    assert(d2 =~= d0 + (joined_values(v, n as int) + docs_data(docs@, max_doc)));
    if max > min {
        let addr_offset: u64 = data.file_pointer();
        meta.write_long(to_i64(addr_offset))?;
        meta.write_vint(16)?;
        proof {
            lemma2_to64();
            assert forall|a: int, b: int| 0 <= a <= b < addresses@.len() implies #[trigger] addresses@[a] <= #[trigger] addresses@[b] by {
            }
        }
        let mut addr_data = ChecksumIndexOutput::new(IndexOutput::in_memory());
        proof {
            lemma2_to64();
            lemma_ascending_rises(addresses@, pow2(16) as int);
        }
        direct_monotonic_write(meta, &mut addr_data, addresses.as_slice(), DIRECT_MONOTONIC_BLOCK_SHIFT)?;
        assert(addr_data.written() =~= monotonic_data(value_addresses(v), 65536));
        data.write_bytes(&addr_data.into_bytes())?;
        let addr_length: u64 = data.file_pointer() - addr_offset;
        meta.write_long(to_i64(addr_length))?;
    }
    assert(data.written() =~= d0 + binary_data(v, max_doc));
    assert(meta.written() == m0 + binary_meta(v, max_doc, d0.len()));
    Ok(())
}

/// The ordinals as numeric values.
fn ords_as_values(ords: &[(u32, u32)]) -> (r: Vec<(u32, i64)>)
    ensures
        r@ == ord_values(ords@),
{
    let mut values: Vec<(u32, i64)> = Vec::new();
    let mut i: usize = 0;
    while i < ords.len()
        invariant
            i <= ords.len(),
            values@ == ord_values(ords@.take(i as int)),
        decreases ords.len() - i,
    {
        let (doc, ord) = ords[i];
        values.push((doc, ord as i64));
        assert(values@ =~= ord_values(ords@.take(i + 1)));
        i = i + 1;
    }
    assert(ords@.take(i as int) =~= ords@);
    values
}

/// Writes the data and the metadata file. Fields are appended in call order.
pub struct DocValuesWriter {
    data: ChecksumIndexOutput,
    meta: ChecksumIndexOutput,
    dvd_name: String,
    dvm_name: String,
    fields: Ghost<Seq<FieldValues>>,
    id: Ghost<Seq<u8>>,
    suffix: Ghost<Seq<char>>,
}

impl DocValuesWriter {
    /// The fields added so far.
    pub closed spec fn fields(&self) -> Seq<FieldValues> {
        self.fields@
    }

    pub closed spec fn id(&self) -> Seq<u8> {
        self.id@
    }

    pub closed spec fn suffix(&self) -> Seq<char> {
        self.suffix@
    }

    /// The names of the two files.
    pub closed spec fn names(&self) -> (Seq<char>, Seq<char>) {
        (self.dvd_name@, self.dvm_name@)
    }

    /// What was written is what the fields call for.
    pub closed spec fn wf(&self) -> bool {
        &&& self.data.written() == data_body(self.fields@, self.id@, self.suffix@)
        &&& self.meta.written() == meta_body(self.fields@, self.id@, self.suffix@)
        &&& self.data.since() == 0
        &&& self.meta.since() == 0
    }

    /// Starts both files with their headers.
    pub fn new(segment: &str, segment_id: &[u8; 16], suffix: &str) -> (r: Result<Self, Error>)
        requires
            encode_utf8(suffix@).len() < 256,
        ensures
            r is Ok,
            r->Ok_0.wf(),
            r->Ok_0.fields() == Seq::<FieldValues>::empty(),
            r->Ok_0.id() == segment_id@,
            r->Ok_0.suffix() == suffix@,
            r->Ok_0.names() == (file_name_spec(segment@, suffix@, DATA_EXTENSION@), file_name_spec(segment@, suffix@, META_EXTENSION@)),
    {
        proof {
            reveal_strlit("Lucene90DocValuesData");
            reveal_strlit("Lucene90DocValuesMetadata");
            vstd::utf8::is_ascii_chars_encode_utf8(DATA_CODEC@);
            vstd::utf8::is_ascii_chars_encode_utf8(META_CODEC@);
        }
        let mut data = ChecksumIndexOutput::new(IndexOutput::in_memory());
        write_index_header(&mut data, DATA_CODEC, VERSION, segment_id, suffix)?;
        let mut meta = ChecksumIndexOutput::new(IndexOutput::in_memory());
        write_index_header(&mut meta, META_CODEC, VERSION, segment_id, suffix)?;
        let w = DocValuesWriter {
            data,
            meta,
            dvd_name: file_name(segment, suffix, DATA_EXTENSION),
            dvm_name: file_name(segment, suffix, META_EXTENSION),
            fields: Ghost(Seq::empty()),
            id: Ghost(segment_id@),
            suffix: Ghost(suffix@),
        };
        proof {
            assert(w.data.written() =~= data_body(w.fields@, w.id@, w.suffix@));
            assert(w.meta.written() =~= meta_body(w.fields@, w.id@, w.suffix@));
        }
        Ok(w)
    }

    proof fn lemma_sorted_parts(m: Seq<u8>, number: Seq<u8>, kind: Seq<u8>, ords: Seq<u8>, terms: Seq<u8>)
        ensures
            m + number + kind + ords + terms == m + (number + kind + (ords + terms)),
    {
        broadcast use lemma_concat_assoc;
    }

    /// What is appended for a field keeps the files in order.
    proof fn lemma_appended(fields: Seq<FieldValues>, f: FieldValues, id: Seq<u8>, suffix: Seq<char>)
        ensures
            data_body(fields.push(f), id, suffix) == data_body(fields, id, suffix) + field_data(f),
            meta_body(fields.push(f), id, suffix) == meta_body(fields, id, suffix) + field_meta(f, data_body(fields, id, suffix).len()),
    {
        assert(fields.push(f).drop_last() =~= fields);
        let h = index_header_bytes(DATA_CODEC@, VERSION, id, suffix);
        assert(h + (fields_data(fields) + field_data(f)) =~= h + fields_data(fields) + field_data(f));
        let m = index_header_bytes(META_CODEC@, VERSION, id, suffix);
        let x = fields_meta(fields, h.len());
        let y = field_meta(f, h.len() + fields_data(fields).len());
        assert(m + (x + y) =~= m + x + y);
    }

    /// Adds a numeric field: one value per document, in document order.
    pub fn add_numeric_field(&mut self, field_number: i32, max_doc: u32, values: &[(u32, i64)]) -> (r: Result<(), Error>)
        requires
            old(self).wf(),
            valid_docs(docs_of(values@), max_doc),
        ensures
            r is Ok,
            final(self).wf(),
            final(self).fields() == old(self).fields().push(FieldValues::Numeric { number: field_number, max_doc, values: values@ }),
            final(self).id() == old(self).id(),
            final(self).suffix() == old(self).suffix(),
            final(self).names() == old(self).names(),
    {
        broadcast use lemma_concat_assoc;
        let ghost (d0, m0) = (self.data.written(), self.meta.written());
        let ghost f = FieldValues::Numeric { number: field_number, max_doc, values: values@ };
        self.meta.write_int(field_number)?;
        self.meta.write_byte(TYPE_NUMERIC)?;
        write_values(&mut self.data, &mut self.meta, max_doc, values)?;
        proof {
            reveal(field_data);
            reveal(field_meta);
            Self::lemma_appended(self.fields@, f, self.id@, self.suffix@);
            assert(self.meta.written() == m0 + field_meta(f, d0.len()));
            self.fields@ = self.fields@.push(f);
        }
        Ok(())
    }

    /// Adds a sorted field: the terms in byte order, and one ordinal per
    /// document, in document order; every term is used.
    pub fn add_sorted_field(&mut self, field_number: i32, max_doc: u32, dict: &[&[u8]], ords: &[(u32, u32)]) -> (r: Result<(), Error>)
        requires
            old(self).wf(),
            valid_docs(docs_of(ords@), max_doc),
            term_list(dict_view(dict@)),
            valid_ords(ords@, dict_view(dict@)),
            dict@.len() <= i32::MAX,
        ensures
            r is Ok,
            final(self).wf(),
            exists|chunks: Seq<Seq<u8>>| chunks_ok(dict_view(dict@), chunks) && #[trigger] final(self).fields() == old(self).fields().push(
                (FieldValues::Sorted { number: field_number, max_doc, dict: dict_view(dict@), ords: ords@, chunks }),
            ),
            final(self).id() == old(self).id(),
            final(self).suffix() == old(self).suffix(),
            final(self).names() == old(self).names(),
    {
        let ghost (d0, m0) = (self.data.written(), self.meta.written());
        self.meta.write_int(field_number)?;
        self.meta.write_byte(TYPE_SORTED)?;
        let values = ords_as_values(ords);
        assert(docs_of(values@) =~= docs_of(ords@));
        let ghost m1 = self.meta.written();
        write_values(&mut self.data, &mut self.meta, max_doc, values.as_slice())?;
        let chunks = add_terms_dict(&mut self.data, &mut self.meta, dict)?;
        proof {
            let f = FieldValues::Sorted { number: field_number, max_doc, dict: dict_view(dict@), ords: ords@, chunks: chunks@ };
            reveal(field_data);
            reveal(field_meta);
            Self::lemma_appended(self.fields@, f, self.id@, self.suffix@);
            let values = ord_values(ords@);
            let at = d0.len() + numeric_data(values, max_doc).len();
            lemma_concat_assoc(d0, numeric_data(values, max_doc), terms_data(dict_view(dict@), chunks@));
            assert(self.data.written() == d0 + field_data(f));
            Self::lemma_sorted_parts(m0, int_bytes(field_number), seq![TYPE_SORTED], numeric_meta(values, max_doc, d0.len()), terms_meta(dict_view(dict@), chunks@, at));
            assert(self.meta.written() == m0 + field_meta(f, d0.len()));
            self.fields@ = self.fields@.push(f);
        }
        Ok(())
    }

    /// Adds a byte-string field: one value per document, in document order.
    pub fn add_binary_field(&mut self, field_number: i32, max_doc: u32, values: &[(u32, Vec<u8>)]) -> (r: Result<(), Error>)
        requires
            old(self).wf(),
            valid_docs(docs_of(binary_view(values@)), max_doc),
            valid_lengths(binary_view(values@)),
        ensures
            r is Ok,
            final(self).wf(),
            final(self).fields() == old(self).fields().push(FieldValues::Binary { number: field_number, max_doc, strings: binary_view(values@) }),
            final(self).id() == old(self).id(),
            final(self).suffix() == old(self).suffix(),
            final(self).names() == old(self).names(),
    {
        broadcast use lemma_concat_assoc;
        let ghost (d0, m0) = (self.data.written(), self.meta.written());
        let ghost f = FieldValues::Binary { number: field_number, max_doc, strings: binary_view(values@) };
        self.meta.write_int(field_number)?;
        self.meta.write_byte(TYPE_BINARY)?;
        write_binary(&mut self.data, &mut self.meta, max_doc, values)?;
        proof {
            reveal(field_data);
            reveal(field_meta);
            Self::lemma_appended(self.fields@, f, self.id@, self.suffix@);
            assert(self.meta.written() == m0 + field_meta(f, d0.len()));
            self.fields@ = self.fields@.push(f);
        }
        Ok(())
    }

    /// Ends both files: the end mark, and the footers. Gives the data and the
    /// metadata file.
    pub fn finish(self) -> (r: Result<Vec<SegmentFile>, Error>)
        requires
            self.wf(),
        ensures
            r is Ok,
            r->Ok_0@.len() == 2,
            r->Ok_0@[0].name@ == self.names().0,
            r->Ok_0@[0].bytes@ == data_file(self.fields(), self.id(), self.suffix()),
            r->Ok_0@[1].name@ == self.names().1,
            r->Ok_0@[1].bytes@ == meta_file(self.fields(), self.id(), self.suffix()),
    {
        let mut meta = self.meta;
        let mut data = self.data;
        meta.write_int(-1)?;
        write_footer(&mut meta)?;
        write_footer(&mut data)?;
        let mut files: Vec<SegmentFile> = Vec::new();
        files.push(SegmentFile { name: self.dvd_name, bytes: data.into_bytes() });
        files.push(SegmentFile { name: self.dvm_name, bytes: meta.into_bytes() });
        Ok(files)
    }
}

} // verus!
