//! What was written is read back: numbers, ordinals, terms and byte strings.

use crate::bytes::{holds_at, int_at, int_bytes, lemma_holds_byte, lemma_holds_concat, lemma_holds_int, lemma_holds_long, lemma_holds_parts, lemma_le_bytes_len, short_at, varint_bytes, vint_at};
use crate::codec_util::{any_index_header_at, footer_structure, index_header_at, index_header_bytes, valid_footer_at, law_footer_round_trip, law_footer_structure, law_index_header_round_trip};
use crate::disi::{disi_bytes, doc_set, jump_count, law_disi_round_trip};
use crate::doc_values::{
    binary_data, binary_meta, data_body, data_file, docs_data, docs_meta, docs_of, field_data, field_meta, fields_data, fields_meta, greatest_value, joined_values, least_value, lemma_joined_len,
    lemma_valid_docs_len, lemma_values_fit, lemma_values_range, max_length, meta_body, meta_file, min_length, numeric_data, numeric_meta, ord_values, terms_data, terms_meta, total_length,
    valid_docs, valid_lengths, valid_ords, value_addresses, values_data, values_packed, values_width, FieldValues, DATA_CODEC, META_CODEC, TYPE_BINARY, TYPE_NUMERIC, TYPE_SORTED, VERSION,
};
use crate::doc_values_read::{
    address_read, binary_meta_at, binary_read, block_read, blocks_read, bounds_read, dict_read, docs_read, entries_at, entry_at, entry_of, extra_at, numeric_meta_at, numeric_read, opened,
    ords_read, packed_region, records_len, region, sorted_read, term_at, term_block_read, terms_at, terms_meta_at, terms_total, value_read, BinaryMeta, FieldEntry, NumericMeta, TermsMeta,
};
use crate::doc_values_reader::{ascending_docs, dict_parts, later_term_at, law_batch_is_each, law_doc_place, lemma_ascending, next_term_at, disi_parsed, field_found, first_docs, number_of, numbers_batch, numbers_of, numeric_opened, part_of, prefix_at, sorted_opened, term_in_block, term_of, DictParts};
use crate::error::ErrorKind;
use crate::num::{spec_to_i16, spec_to_i64, spec_to_u64, spec_wrap_add, spec_wrap_mul};
use crate::packed::{direct_bytes, law_direct_round_trip, law_monotonic_round_trip, monotonic_data, monotonic_meta};
use crate::terms_dict::{block_addresses, block_end, block_entries, blocks_data, chunks_ok, entries_bytes, entry_bytes, key_addresses, key_count, keys_data, term_block, term_blocks, term_list};
use vstd::arithmetic::power2::lemma2_to64;
use vstd::prelude::*;
use vstd::utf8::encode_utf8;

verus! {

/// The documents can be told apart from the end mark of their blocks: none
/// has a value, all have, or they end before the mark's block.
pub open spec fn docs_recoverable(docs: Seq<u32>, max_doc: u32) -> bool {
    &&& valid_docs(docs, max_doc)
    &&& docs.len() == 0 || docs.len() == max_doc || docs.last() < 0x7FFF_0000
}

/// Where the documents' data is; -2 and -1 for none and all.
pub open spec fn docs_offset(docs: Seq<u32>, max_doc: u32, at: nat) -> i64 {
    if docs.len() == 0 {
        -2i64
    } else if docs.len() == max_doc {
        -1i64
    } else {
        at as i64
    }
}

/// The entry of a numeric field whose data begins at `at`.
pub open spec fn numeric_entry(values: Seq<(u32, i64)>, max_doc: u32, at: nat) -> NumericMeta {
    let docs = docs_of(values);
    NumericMeta {
        docs_offset: docs_offset(docs, max_doc, at),
        docs_length: docs_data(docs, max_doc).len() as i64,
        num_values: values.len() as u64,
        bpv: values_width(values) as u8,
        min: least_value(values),
        gcd: 1,
        values_offset: (at + docs_data(docs, max_doc).len()) as i64,
        values_length: values_data(values).len() as i64,
    }
}

pub(crate) proof fn lemma_numeric_meta(s: Seq<u8>, p: int, values: Seq<(u32, i64)>, max_doc: u32, at: nat)
    requires
        holds_at(s, p, numeric_meta(values, max_doc, at)),
        valid_docs(docs_of(values), max_doc),
        at + numeric_data(values, max_doc).len() <= i64::MAX,
    ensures
        numeric_meta_at(s, p) == Ok::<(NumericMeta, int), ErrorKind>((numeric_entry(values, max_doc, at), p + 72)),
        numeric_meta(values, max_doc, at).len() == 72,
{
    broadcast use lemma_holds_parts, lemma_holds_long, lemma_holds_int, lemma_holds_byte, lemma_le_bytes_len;
    lemma_valid_docs_len(docs_of(values), max_doc, docs_of(values).len() as int);
    assert(docs_meta(docs_of(values), max_doc, at).len() == 19);
}

/// Where all documents have a value, they are the first ones.
proof fn lemma_dense(docs: Seq<u32>, max_doc: u32, i: int)
    requires
        valid_docs(docs, max_doc),
        docs.len() == max_doc,
        0 <= i < docs.len(),
    ensures
        docs[i] == i,
    decreases docs.len() - i,
{
    lemma_valid_docs_len(docs, max_doc, i + 1);
    if i + 1 < docs.len() {
        lemma_dense(docs, max_doc, i + 1);
        assert(docs[i] < docs[i + 1]);
    } else {
        assert(docs[i] < max_doc);
    }
}

pub(crate) proof fn lemma_docs_read(dvd: Seq<u8>, header: int, docs: Seq<u32>, max_doc: u32, at: nat)
    requires
        docs_recoverable(docs, max_doc),
        holds_at(dvd, at as int, docs_data(docs, max_doc)),
        0 <= header <= at,
        dvd.len() <= i64::MAX,
    ensures
        docs_read(
            dvd,
            header,
            docs_offset(docs, max_doc, at),
            docs_data(docs, max_doc).len() as i64,
            docs.len() as u64,
        ) == Ok::<Seq<u32>, ErrorKind>(docs),
{
    lemma_valid_docs_len(docs, max_doc, docs.len() as int);
    if docs.len() == 0 {
        assert(docs =~= Seq::empty());
    } else if docs.len() == max_doc {
        assert forall|i: int| 0 <= i < docs.len() implies docs[i] == i as u32 by {
            lemma_dense(docs, max_doc, i);
        }
        assert(docs =~= Seq::new(docs.len(), |i: int| i as u32));
    } else {
        let b = disi_bytes(docs);
        let r = dvd.subrange(at as int, (at + b.len()) as int);
        assert(r.subrange(0, b.len() as int) =~= b);
        assert(doc_set(docs)) by {
            assert forall|i: int| 0 <= i < docs.len() implies #[trigger] docs[i] < 0x7FFF_FFFF by {
                assert(docs[i] < max_doc);
            }
        }
        law_disi_round_trip(r, docs);
    }
}

/// The packed form of `n` values is large enough for them.
pub(crate) proof fn lemma_direct_len(values: Seq<u64>, b: nat)
    ensures
        8 * direct_bytes(values, b).len() >= values.len() * b,
{
    broadcast use lemma_le_bytes_len;
    let bits = values.len() * b;
    assert(bits >= 0) by (nonlinear_arith)
        requires
            bits == values.len() * b,
    ;
}

/// A value is its distance from the least one added to it.
pub(crate) proof fn lemma_counted_from(v: i64, least: i64)
    requires
        least <= v,
    ensures
        spec_to_i64(spec_wrap_add(spec_wrap_mul((v - least) as u64, spec_to_u64(1)), spec_to_u64(least))) == v,
{
    let d = (v - least) as u64;
    assert(d * 1 == d);
    assert(spec_wrap_mul(d, spec_to_u64(1)) == d);
}

pub(crate) proof fn lemma_numeric_read(dvd: Seq<u8>, header: int, values: Seq<(u32, i64)>, max_doc: u32, at: nat)
    requires
        docs_recoverable(docs_of(values), max_doc),
        holds_at(dvd, at as int, numeric_data(values, max_doc)),
        0 <= header <= at,
        dvd.len() <= i64::MAX,
    ensures
        numeric_read(dvd, header, numeric_entry(values, max_doc, at)) == Ok::<Seq<(u32, i64)>, ErrorKind>(values),
{
    let docs = docs_of(values);
    let m = numeric_entry(values, max_doc, at);
    let dd = docs_data(docs, max_doc);
    let vd = values_data(values);
    lemma_holds_concat(dvd, at as int, dd, vd);
    lemma_docs_read(dvd, header, docs, max_doc, at);
    lemma_valid_docs_len(docs, max_doc, docs.len() as int);
    lemma_values_range(values);
    let w = values_width(values);
    if w > 0 {
        lemma_values_fit(values);
        let packed = values_packed(values);
        lemma_direct_len(packed, w);
        let data = dvd.subrange((at + dd.len()) as int, (at + dd.len() + vd.len()) as int);
        assert(data =~= vd);
        assert(data.subrange(0, vd.len() as int) =~= vd);
        assert(m.num_values * m.bpv <= u64::MAX) by (nonlinear_arith)
            requires
                0 <= m.num_values <= i32::MAX,
                0 <= m.bpv <= 64,
        ;
        assert(packed_region(dvd, header, m) == Ok::<Seq<u8>, ErrorKind>(data));
        assert forall|i: int| 0 <= i < values.len() implies value_read(m, data, i) == values[i].1 by {
            law_direct_round_trip(data, 0, packed, w, i);
            lemma_counted_from(values[i].1, least_value(values));
        }
        assert(Seq::new(docs.len(), |i: int| (docs[i], value_read(m, data, i))) =~= values);
    } else {
        if least_value(values) < greatest_value(values) {
            crate::packed::lemma_direct_width((greatest_value(values) - least_value(values)) as u64);
        }
        assert forall|i: int| 0 <= i < values.len() implies #[trigger] values[i].1 == m.min by {
            assert(least_value(values) <= values[i].1 <= greatest_value(values));
        }
        assert(Seq::new(docs.len(), |i: int| (docs[i], value_read(m, Seq::<u8>::empty(), i))) =~= values);
    }
}

/// A small number's variable-length form as an int.
proof fn lemma_small_vint(s: Seq<u8>, p: int, v: nat)
    requires
        v <= i32::MAX,
        holds_at(s, p, varint_bytes(v)),
    ensures
        vint_at(s, p) == Ok::<(i32, int), ErrorKind>((v as i32, p + varint_bytes(v).len())),
{
    crate::bytes::law_vint_round_trip(s, p, v as i32);
}

/// A term is read back behind the one before it.
proof fn lemma_term_read(s: Seq<u8>, p: int, prev: Seq<u8>, term: Seq<u8>)
    requires
        crate::bytes::lex_less(prev, term),
        term.len() <= 32766,
        holds_at(s, p, entry_bytes(prev, term)),
    ensures
        term_at(s, p, prev) == Ok::<(Seq<u8>, int), ErrorKind>((term, p + entry_bytes(prev, term).len())),
{
    crate::bytes::lemma_common_prefix(prev, term);
    let prefix = crate::bytes::common_prefix(prev, term) as int;
    let suffix = term.len() - prefix;
    let lo = crate::terms_dict::least_of(prefix, 15);
    let hi = crate::terms_dict::least_of(suffix - 1, 15);
    let token = seq![(lo + 16 * hi) as u8];
    let x = if prefix >= 15 {
        varint_bytes((prefix - 15) as nat)
    } else {
        Seq::empty()
    };
    let y = if suffix >= 16 {
        varint_bytes((suffix - 16) as nat)
    } else {
        Seq::empty()
    };
    lemma_holds_concat(s, p, token + x + y, term.skip(prefix));
    lemma_holds_concat(s, p, token + x, y);
    lemma_holds_concat(s, p, token, x);
    lemma_holds_byte(s, p, (lo + 16 * hi) as u8);
    assert((lo + 16 * hi) % 16 == lo && (lo + 16 * hi) / 16 == hi);
    let q = p + 1;
    if prefix >= 15 {
        lemma_small_vint(s, q, (prefix - 15) as nat);
    }
    assert(extra_at(s, q, lo == 15) == Ok::<(int, int), ErrorKind>((prefix - lo, q + x.len())));
    let e = q + x.len();
    if suffix >= 16 {
        lemma_small_vint(s, e, (suffix - 16) as nat);
    }
    assert(extra_at(s, e, hi == 15) == Ok::<(int, int), ErrorKind>((suffix - 1 - hi, e + y.len())));
    assert(prev.take(prefix) + term.skip(prefix) =~= term);
}

pub(crate) proof fn lemma_total_take(terms: Seq<Seq<u8>>, a: int, k: int)
    requires
        0 <= a <= k <= terms.len(),
    ensures
        terms_total(terms.subrange(a, k)) <= terms_total(terms),
        k < terms.len() ==> terms_total(terms.subrange(a, k)) + terms[k].len() <= terms_total(terms),
    decreases terms.len(), k - a,
{
    if terms.len() > 0 {
        let d = terms.drop_last();
        if k < terms.len() {
            assert(terms.subrange(a, k) =~= d.subrange(a, k));
            lemma_total_take(d, a, k);
            if k < d.len() {
                assert(d[k] == terms[k]);
            }
        } else if a < k {
            assert(terms.subrange(a, k).drop_last() =~= d.subrange(a, k - 1));
            lemma_total_take(d, a, k - 1);
        } else {
            assert(terms.subrange(a, k) =~= Seq::empty());
        }
    }
}

/// The terms of a block behind its first are read back from the `k`-th up to
/// the `to`-th.
pub(crate) proof fn lemma_terms_read(s: Seq<u8>, dict: Seq<Seq<u8>>, a: int, from: int, k: int, to: int, end: int)
    requires
        term_list(dict),
        terms_total(dict) <= u32::MAX,
        0 <= a <= from < k <= to <= end <= dict.len(),
        s == entries_bytes(dict, from, end),
    ensures
        terms_at(s, entries_bytes(dict, from, k).len() as int, (to - k) as nat, dict.subrange(a, k)) == Ok::<Seq<Seq<u8>>, ErrorKind>(dict.subrange(a, to)),
    decreases to - k,
{
    if k < to {
        let p = entries_bytes(dict, from, k).len() as int;
        crate::terms_dict::lemma_term_pair(dict, k - 1, k);
        lemma_entries_prefix(dict, from, k + 1, end);
        lemma_holds_concat(s, 0, entries_bytes(dict, from, k), entry_bytes(dict[k - 1], dict[k]));
        assert(dict.subrange(a, k).last() == dict[k - 1]);
        lemma_term_read(s, p, dict[k - 1], dict[k]);
        lemma_total_take(dict, a, k);
        assert(dict.subrange(a, k).push(dict[k]) =~= dict.subrange(a, k + 1));
        lemma_terms_read(s, dict, a, from, k + 1, to, end);
    }
}

proof fn lemma_entries_prefix(dict: Seq<Seq<u8>>, from: int, k: int, to: int)
    requires
        from < k <= to,
    ensures
        holds_at(entries_bytes(dict, from, to), 0, entries_bytes(dict, from, k)),
    decreases to - k,
{
    let s = entries_bytes(dict, from, to);
    if k < to {
        lemma_entries_prefix(dict, from, k, to - 1);
        let t = entries_bytes(dict, from, to - 1);
        let e = entries_bytes(dict, from, k);
        assert(s.subrange(0, e.len() as int) =~= t.subrange(0, e.len() as int));
    } else {
        assert(s.subrange(0, s.len() as int) =~= s);
    }
}

/// The first `n` terms of a block are read back.
pub(crate) proof fn lemma_block_read(dict: Seq<Seq<u8>>, chunks: Seq<Seq<u8>>, a: int, b: int, n: nat)
    requires
        term_list(dict),
        terms_total(dict) <= u32::MAX,
        chunks_ok(dict, chunks),
        0 <= b < chunks.len(),
        0 <= a <= 64 * b,
        1 <= n <= block_end(dict.len() as int, b) - 64 * b,
    ensures
        block_read(term_block(dict, b, chunks[b]), n, dict.subrange(a, 64 * b)) == Ok::<Seq<Seq<u8>>, ErrorKind>(dict.subrange(a, 64 * b + n)),
{
    let block = term_block(dict, b, chunks[b]);
    let first = dict[64 * b];
    let end = block_end(dict.len() as int, b);
    crate::terms_dict::lemma_term_length(dict, 64 * b);
    let v = varint_bytes(first.len());
    let tail = if end > 64 * b + 1 {
        varint_bytes(block_entries(dict, b).len()) + chunks[b]
    } else {
        Seq::empty()
    };
    assert(block.subrange(0, block.len() as int) =~= block);
    lemma_holds_concat(block, 0, v + first, tail);
    lemma_holds_concat(block, 0, v, first);
    lemma_small_vint(block, 0, first.len());
    lemma_total_take(dict, a, 64 * b);
    assert(dict.subrange(a, 64 * b).push(first) =~= dict.subrange(a, 64 * b + 1));
    if n > 1 {
        let entries = block_entries(dict, b);
        crate::terms_dict::lemma_entries_len(dict, 64 * b, end);
        assert((end - 64 * b) * 32773 <= 64 * 32773);
        let q = (v + first).len() as int;
        let w = varint_bytes(entries.len());
        lemma_holds_concat(block, q, w, chunks[b]);
        lemma_small_vint(block, q, entries.len());
        assert(block.skip(q + w.len()) =~= chunks[b]);
        assert(lz4_fact(dict, chunks, b));
        lemma_terms_read(entries, dict, a, 64 * b, 64 * b + 1, 64 * b + n, end);
        assert(entries_bytes(dict, 64 * b, 64 * b + 1).len() == 0);
    }
}

spec fn lz4_fact(dict: Seq<Seq<u8>>, chunks: Seq<Seq<u8>>, b: int) -> bool {
    crate::lz4_block::lz4_decompressed(chunks[b], block_entries(dict, b).len() as i32) == Some(block_entries(dict, b))
}

/// The blocks before `b` come first.
proof fn lemma_blocks_prefix(dict: Seq<Seq<u8>>, chunks: Seq<Seq<u8>>, b: int, n: int)
    requires
        0 <= b <= n,
    ensures
        holds_at(blocks_data(dict, chunks, n), 0, blocks_data(dict, chunks, b)),
    decreases n - b,
{
    let s = blocks_data(dict, chunks, n);
    let e = blocks_data(dict, chunks, b);
    if b < n {
        lemma_blocks_prefix(dict, chunks, b, n - 1);
        let t = blocks_data(dict, chunks, n - 1);
        assert(s.subrange(0, e.len() as int) =~= t.subrange(0, e.len() as int));
    } else {
        assert(s.subrange(0, s.len() as int) =~= s);
    }
}

/// An address is read back.
proof fn lemma_address_read(meta: Seq<u8>, data: Seq<u8>, values: Seq<u64>, i: int)
    requires
        0 <= i < values.len(),
        holds_at(meta, 0, monotonic_meta(values, 65536, 0)),
        holds_at(data, 0, monotonic_data(values, 65536)),
        data.len() < 0x2000_0000_0000_0000,
    ensures
        address_read(meta, data, values.len(), i) == Some(values[i]),
{
    lemma2_to64();
    law_monotonic_round_trip(meta, data, values, 16, i);
    assert(i / 65536 <= (values.len() - 1) / 65536) by (nonlinear_arith)
        requires
            0 <= i <= values.len() - 1,
    ;
}

/// The records of `n` values take 21 bytes per block.
pub(crate) proof fn lemma_records_len(values: Seq<u64>, offset: nat)
    ensures
        monotonic_meta(values, 65536, offset).len() == records_len(values.len(), 16),
    decreases values.len(),
{
    broadcast use lemma_le_bytes_len;
    lemma2_to64();
    if values.len() > 0 {
        let rest = crate::packed::after_block(values, 65536);
        let block = crate::packed::first_block(values, 65536);
        lemma_records_len(rest, offset + crate::packed::block_data(block).len());
        assert(crate::packed::block_meta(block, offset).len() == 21);
        if values.len() > 65536 {
            assert((values.len() - 1) / 65536 == (values.len() - 65536 - 1) / 65536 + 1);
        }
    }
}

/// A block is found by its address.
pub(crate) proof fn lemma_block_found(data: Seq<u8>, meta: Seq<u8>, addresses: Seq<u8>, dict: Seq<Seq<u8>>, chunks: Seq<Seq<u8>>, b: int)
    requires
        0 <= b < chunks.len(),
        data == blocks_data(dict, chunks, chunks.len() as int),
        data.len() < 0x2000_0000_0000_0000,
        addresses.len() < 0x2000_0000_0000_0000,
        holds_at(meta, 0, monotonic_meta(block_addresses(dict, chunks), 65536, 0)),
        holds_at(addresses, 0, monotonic_data(block_addresses(dict, chunks), 65536)),
    ensures
        term_block_read(data, meta, addresses, chunks.len(), b) == Ok::<Seq<u8>, ErrorKind>(term_block(dict, b, chunks[b])),
{
    let n = chunks.len() as int;
    let addrs = block_addresses(dict, chunks);
    let block = term_block(dict, b, chunks[b]);
    lemma_blocks_prefix(dict, chunks, b, n);
    lemma_blocks_prefix(dict, chunks, b + 1, n);
    lemma_holds_concat(data, 0, blocks_data(dict, chunks, b), block);
    lemma_address_read(meta, addresses, addrs, b);
    if b + 1 < n {
        lemma_address_read(meta, addresses, addrs, b + 1);
    }
}

/// The terms from block `b` on are read back.
proof fn lemma_blocks_read(data: Seq<u8>, meta: Seq<u8>, addresses: Seq<u8>, dict: Seq<Seq<u8>>, chunks: Seq<Seq<u8>>, b: int)
    requires
        term_list(dict),
        terms_total(dict) <= u32::MAX,
        dict.len() <= i32::MAX,
        chunks_ok(dict, chunks),
        0 <= b <= chunks.len(),
        data == blocks_data(dict, chunks, chunks.len() as int),
        data.len() < 0x2000_0000_0000_0000,
        addresses.len() < 0x2000_0000_0000_0000,
        holds_at(meta, 0, monotonic_meta(block_addresses(dict, chunks), 65536, 0)),
        holds_at(addresses, 0, monotonic_data(block_addresses(dict, chunks), 65536)),
    ensures
        blocks_read(data, meta, addresses, dict.len(), b, dict.take(crate::terms_dict::least_of(dict.len() as int, 64 * b))) == Ok::<Seq<Seq<u8>>, ErrorKind>(dict),
    decreases chunks.len() - b,
{
    let n = chunks.len() as int;
    if b < n {
        lemma_block_found(data, meta, addresses, dict, chunks, b);
        lemma_block_read(dict, chunks, 0, b, (block_end(dict.len() as int, b) - 64 * b) as nat);
        lemma_blocks_read(data, meta, addresses, dict, chunks, b + 1);
    } else {
        assert(dict.take(dict.len() as int) =~= dict);
    }
}

/// The entry of a dictionary whose data begins at `at`.
pub open spec fn terms_entry(dict: Seq<Seq<u8>>, chunks: Seq<Seq<u8>>, at: nat) -> TermsMeta {
    let blocks = blocks_data(dict, chunks, chunks.len() as int).len();
    TermsMeta {
        dict_size: dict.len() as u64,
        data_offset: at as i64,
        data_length: blocks as i64,
        addresses_offset: (at + blocks) as i64,
        addresses_length: monotonic_data(block_addresses(dict, chunks), 65536).len() as i64,
    }
}

#[verifier::rlimit(60)]
pub(crate) proof fn lemma_terms_meta(s: Seq<u8>, p: int, dict: Seq<Seq<u8>>, chunks: Seq<Seq<u8>>, at: nat)
    requires
        holds_at(s, p, terms_meta(dict, chunks, at)),
        dict.len() <= i32::MAX,
        chunks_ok(dict, chunks),
        at + terms_data(dict, chunks).len() <= i64::MAX,
    ensures
        terms_meta_at(s, p) == Ok::<((TermsMeta, Seq<u8>), int), ErrorKind>(
            ((terms_entry(dict, chunks, at), monotonic_meta(block_addresses(dict, chunks), 65536, 0)), p + terms_meta(dict, chunks, at).len()),
        ),
{
    broadcast use lemma_holds_parts, lemma_holds_long, lemma_holds_int, lemma_holds_byte, lemma_le_bytes_len;
    crate::bytes::law_vlong_round_trip(s, p, dict.len() as i64);
    lemma_records_len(block_addresses(dict, chunks), 0);
    lemma_records_len(key_addresses(dict), 0);
}

pub(crate) proof fn lemma_dict_read(dvd: Seq<u8>, header: int, dict: Seq<Seq<u8>>, chunks: Seq<Seq<u8>>, at: nat)
    requires
        term_list(dict),
        terms_total(dict) <= u32::MAX,
        dict.len() <= i32::MAX,
        chunks_ok(dict, chunks),
        holds_at(dvd, at as int, terms_data(dict, chunks)),
        0 <= header <= at,
        dvd.len() < 0x2000_0000_0000_0000,
    ensures
        dict_read(dvd, header, terms_entry(dict, chunks, at), monotonic_meta(block_addresses(dict, chunks), 65536, 0)) == Ok::<Seq<Seq<u8>>, ErrorKind>(dict),
{
    let meta = monotonic_meta(block_addresses(dict, chunks), 65536, 0);
    let t = terms_entry(dict, chunks, at);
    let blocks = blocks_data(dict, chunks, chunks.len() as int);
    let addresses = monotonic_data(block_addresses(dict, chunks), 65536);
    let keys = keys_data(dict, key_count(dict.len() as int));
    let rest = monotonic_data(key_addresses(dict), 65536);
    lemma_holds_concat(dvd, at as int, blocks + addresses + keys, rest);
    lemma_holds_concat(dvd, at as int, blocks + addresses, keys);
    lemma_holds_concat(dvd, at as int, blocks, addresses);
    lemma_records_len(block_addresses(dict, chunks), 0);
    if dict.len() == 0 {
        assert(dict =~= Seq::empty());
    } else {
        assert(meta.subrange(0, meta.len() as int) =~= meta);
        assert(addresses.subrange(0, addresses.len() as int) =~= addresses);
        lemma_blocks_read(blocks, meta, addresses, dict, chunks, 0);
        assert(dict.take(0) =~= Seq::empty());
    }
}

/// The entry of a byte-string field whose data begins at `at`.
pub open spec fn binary_entry(values: Seq<(u32, Seq<u8>)>, max_doc: u32, at: nat) -> BinaryMeta {
    let docs = docs_of(values);
    let joined = joined_values(values, values.len() as int).len();
    let varied = max_length(values) > min_length(values);
    BinaryMeta {
        data_offset: at as i64,
        data_length: joined as i64,
        docs_offset: docs_offset(docs, max_doc, at + joined),
        docs_length: docs_data(docs, max_doc).len() as i64,
        num_values: values.len() as u32,
        min_length: min_length(values) as i32,
        max_length: max_length(values) as i32,
        addresses_offset: if varied {
            (at + joined + docs_data(docs, max_doc).len()) as i64
        } else {
            0
        },
        addresses_length: if varied {
            monotonic_data(value_addresses(values), 65536).len() as i64
        } else {
            0
        },
    }
}

/// The records of its addresses.
pub open spec fn binary_records(values: Seq<(u32, Seq<u8>)>) -> Seq<u8> {
    if max_length(values) > min_length(values) {
        monotonic_meta(value_addresses(values), 65536, 0)
    } else {
        Seq::empty()
    }
}

proof fn lemma_lengths(values: Seq<(u32, Seq<u8>)>, n: int)
    requires
        valid_lengths(values),
        0 <= n <= values.len(),
    ensures
        0 <= crate::doc_values::shortest_length(values, n) <= 0x7FFF_FFFF,
        0 <= crate::doc_values::longest_length(values, n) <= 0x7FFF_FFFF,
        forall|i: int| 0 <= i < n ==> crate::doc_values::shortest_length(values, n) <= (#[trigger] values[i]).1.len() <= crate::doc_values::longest_length(values, n),
    decreases n,
{
    if n > 0 {
        lemma_lengths(values, n - 1);
        assert(values[n - 1].1.len() <= i32::MAX);
    }
}

pub(crate) proof fn lemma_binary_meta(s: Seq<u8>, p: int, values: Seq<(u32, Seq<u8>)>, max_doc: u32, at: nat)
    requires
        holds_at(s, p, binary_meta(values, max_doc, at)),
        valid_docs(docs_of(values), max_doc),
        valid_lengths(values),
        at + binary_data(values, max_doc).len() <= i64::MAX,
    ensures
        binary_meta_at(s, p) == Ok::<((BinaryMeta, Seq<u8>), int), ErrorKind>(
            ((binary_entry(values, max_doc, at), binary_records(values)), p + binary_meta(values, max_doc, at).len()),
        ),
{
    broadcast use lemma_holds_parts, lemma_holds_long, lemma_holds_int, lemma_holds_byte, lemma_le_bytes_len;
    let docs = docs_of(values);
    let joined = joined_values(values, values.len() as int).len();
    lemma_valid_docs_len(docs, max_doc, docs.len() as int);
    lemma_lengths(values, values.len() as int);
    assert(docs_meta(docs, max_doc, at + joined).len() == 19);
    if max_length(values) > min_length(values) {
        crate::bytes::law_vint_round_trip(s, p + 55, 16);
        lemma_records_len(value_addresses(values), 0);
    }
}

/// Where value `i` stands among the joined values.
proof fn lemma_joined_at(values: Seq<(u32, Seq<u8>)>, i: int, n: int)
    requires
        0 <= i < n <= values.len(),
    ensures
        total_length(values, i) + values[i].1.len() <= total_length(values, n),
        joined_values(values, n).len() == total_length(values, n),
        holds_at(joined_values(values, n), total_length(values, i) as int, values[i].1),
    decreases n,
{
    lemma_joined_len(values, n);
    lemma_joined_len(values, n - 1);
    let s = joined_values(values, n);
    let t = joined_values(values, n - 1);
    let from = total_length(values, i) as int;
    let len = values[i].1.len();
    if i < n - 1 {
        lemma_joined_at(values, i, n - 1);
        assert(s.subrange(from, from + len) =~= t.subrange(from, from + len));
    } else {
        assert(s.subrange(from, from + len) =~= values[i].1);
    }
}

proof fn lemma_total_ascends(values: Seq<(u32, Seq<u8>)>, i: int, j: int)
    requires
        0 <= i <= j <= values.len(),
    ensures
        total_length(values, i) <= total_length(values, j),
    decreases j - i,
{
    if i < j {
        lemma_total_ascends(values, i, j - 1);
    }
}

proof fn lemma_equal_lengths(values: Seq<(u32, Seq<u8>)>, len: int, i: int)
    requires
        0 <= i <= values.len(),
        forall|k: int| 0 <= k < values.len() ==> (#[trigger] values[k]).1.len() == len,
    ensures
        total_length(values, i) == i * len,
    decreases i,
{
    if i > 0 {
        lemma_equal_lengths(values, len, i - 1);
        assert(values[i - 1].1.len() == len);
        assert((i - 1) * len + len == i * len) by (nonlinear_arith);
    }
}

/// The bounds are the sums of the lengths.
proof fn lemma_bounds_read(dvd: Seq<u8>, header: int, values: Seq<(u32, Seq<u8>)>, max_doc: u32, at: nat)
    requires
        values.len() > 0,
        docs_recoverable(docs_of(values), max_doc),
        valid_lengths(values),
        holds_at(dvd, at as int, binary_data(values, max_doc)),
        0 <= header <= at,
        dvd.len() < 0x2000_0000_0000_0000,
    ensures
        bounds_read(dvd, header, binary_entry(values, max_doc, at), binary_records(values)) == Ok::<Seq<u64>, ErrorKind>(value_addresses(values)),
{
    let n = values.len();
    let m = binary_entry(values, max_doc, at);
    let docs = docs_of(values);
    let joined = joined_values(values, n as int);
    let dd = docs_data(docs, max_doc);
    lemma_valid_docs_len(docs, max_doc, n as int);
    lemma_lengths(values, n as int);
    assert(values[0].1.len() >= min_length(values));
    let want = value_addresses(values);
    if max_length(values) > min_length(values) {
        let meta = binary_records(values);
        let addrs = monotonic_data(want, 65536);
        lemma_holds_concat(dvd, at as int, joined + dd, addrs);
        lemma_records_len(want, 0);
        assert(meta.subrange(0, meta.len() as int) =~= meta);
        assert(addrs.subrange(0, addrs.len() as int) =~= addrs);
        assert(region(dvd, header, m.addresses_offset, m.addresses_length) == Ok::<Seq<u8>, ErrorKind>(addrs));
        assert forall|i: int| 0 <= i < n + 1 implies #[trigger] address_read(meta, addrs, n + 1, i) == Some(want[i]) by {
            lemma_address_read(meta, addrs, want, i);
        }
        assert(Seq::new(n + 1, |i: int| address_read(meta, addrs, n + 1, i)->Some_0) =~= want);
    } else {
        let len = m.min_length as int;
        assert forall|k: int| 0 <= k < n implies (#[trigger] values[k]).1.len() == len by {
        }
        assert forall|i: int| 0 <= i < n + 1 implies (i * m.min_length) as u64 == #[trigger] want[i] by {
            lemma_equal_lengths(values, len, i);
        }
        assert(Seq::new(n + 1, |i: int| (i * m.min_length) as u64) =~= want);
    }
}

proof fn lemma_binary_read(dvd: Seq<u8>, header: int, values: Seq<(u32, Seq<u8>)>, max_doc: u32, at: nat)
    requires
        docs_recoverable(docs_of(values), max_doc),
        valid_lengths(values),
        holds_at(dvd, at as int, binary_data(values, max_doc)),
        0 <= header <= at,
        dvd.len() < 0x2000_0000_0000_0000,
    ensures
        binary_read(dvd, header, binary_entry(values, max_doc, at), binary_records(values)) == Ok::<Seq<(u32, Seq<u8>)>, ErrorKind>(values),
{
    let n = values.len();
    let m = binary_entry(values, max_doc, at);
    let docs = docs_of(values);
    lemma_valid_docs_len(docs, max_doc, n as int);
    if n == 0 {
        assert(values =~= Seq::empty());
    } else {
        let joined = joined_values(values, n as int);
        let dd = docs_data(docs, max_doc);
        let tail = if max_length(values) > min_length(values) {
            monotonic_data(value_addresses(values), 65536)
        } else {
            Seq::empty()
        };
        lemma_holds_concat(dvd, at as int, joined + dd, tail);
        lemma_holds_concat(dvd, at as int, joined, dd);
        lemma_docs_read(dvd, header, docs, max_doc, at + joined.len());
        lemma_bounds_read(dvd, header, values, max_doc, at);
        lemma_joined_len(values, n as int);
        let bounds = value_addresses(values);
        assert forall|i: int| 0 <= i < bounds.len() implies #[trigger] bounds[i] <= joined.len() && bounds[i] == total_length(values, i) by {
            lemma_total_ascends(values, i, n as int);
        }
        assert forall|i: int, j: int| 0 <= i <= j < bounds.len() implies #[trigger] bounds[i] <= #[trigger] bounds[j] by {
            lemma_total_ascends(values, i, j);
        }
        let got = Seq::new(docs.len(), |i: int| (docs[i], joined.subrange(bounds[i] as int, bounds[i + 1] as int)));
        assert forall|i: int| 0 <= i < n implies #[trigger] got[i] == values[i] by {
            lemma_joined_at(values, i, n as int);
            assert(bounds[i] == total_length(values, i));
            assert(bounds[i + 1] == total_length(values, i + 1));
        }
        assert(got =~= values);
        assert(region(dvd, header, m.data_offset, m.data_length) == Ok::<Seq<u8>, ErrorKind>(joined));
    }
}

/// Ordinals are read back.
proof fn lemma_ords_read(dvd: Seq<u8>, header: int, ords: Seq<(u32, u32)>, max_doc: u32, at: nat)
    requires
        docs_recoverable(docs_of(ords), max_doc),
        holds_at(dvd, at as int, numeric_data(ord_values(ords), max_doc)),
        0 <= header <= at,
        dvd.len() <= i64::MAX,
    ensures
        ords_read(dvd, header, numeric_entry(ord_values(ords), max_doc, at)) == Ok::<Seq<(u32, u32)>, ErrorKind>(ords),
{
    let values = ord_values(ords);
    let docs = docs_of(values);
    assert(docs =~= docs_of(ords));
    lemma_numeric_read(dvd, header, values, max_doc, at);
    lemma_ords_are_values(dvd, header, ords, numeric_entry(values, max_doc, at));
}

/// Ordinals are read as the values that stand for them.
proof fn lemma_ords_are_values(dvd: Seq<u8>, header: int, ords: Seq<(u32, u32)>, m: NumericMeta)
    requires
        numeric_read(dvd, header, m) == Ok::<Seq<(u32, i64)>, ErrorKind>(ord_values(ords)),
    ensures
        ords_read(dvd, header, m) == Ok::<Seq<(u32, u32)>, ErrorKind>(ords),
{
    let values = ord_values(ords);
    let docs = docs_read(dvd, header, m.docs_offset, m.docs_length, m.num_values)->Ok_0;
    let data = packed_region(dvd, header, m)->Ok_0;
    let got = ords_read(dvd, header, m)->Ok_0;
    let read = Seq::new(docs.len(), |i: int| (docs[i], value_read(m, data, i)));
    assert(read == values);
    assert forall|i: int| 0 <= i < ords.len() implies #[trigger] got[i] == ords[i] by {
        assert(values[i] == (ords[i].0, ords[i].1 as i64));
        assert(read[i] == values[i]);
    }
    assert(got =~= ords);
}

/// Terms are read through ordinals and dictionary.
proof fn lemma_sorted_read(dvd: Seq<u8>, header: int, m: NumericMeta, t: TermsMeta, meta: Seq<u8>, ords: Seq<(u32, u32)>, dict: Seq<Seq<u8>>)
    requires
        ords_read(dvd, header, m) == Ok::<Seq<(u32, u32)>, ErrorKind>(ords),
        dict_read(dvd, header, t, meta) == Ok::<Seq<Seq<u8>>, ErrorKind>(dict),
        valid_ords(ords, dict),
    ensures
        sorted_read(dvd, header, m, t, meta) == Ok::<Seq<(u32, Seq<u8>)>, ErrorKind>(ords.map_values(|o: (u32, u32)| (o.0, dict[o.1 as int]))),
{
    assert(sorted_read(dvd, header, m, t, meta)->Ok_0 =~= ords.map_values(|o: (u32, u32)| (o.0, dict[o.1 as int])));
}

// ---------------------------------------------------------------------------
// Whole files
// ---------------------------------------------------------------------------

/// A field as it can be written. The number -1 is the end mark's.
#[verifier::opaque]
pub open spec fn field_written(f: FieldValues) -> bool {
    match f {
        FieldValues::Numeric { number, max_doc, values } => number != -1 && valid_docs(docs_of(values), max_doc),
        FieldValues::Sorted { number, max_doc, dict, ords, chunks } => {
            &&& number != -1
            &&& valid_docs(docs_of(ords), max_doc)
            &&& term_list(dict)
            &&& dict.len() <= i32::MAX
            &&& valid_ords(ords, dict)
            &&& chunks_ok(dict, chunks)
        },
        FieldValues::Binary { number, max_doc, strings } => number != -1 && valid_docs(docs_of(strings), max_doc) && valid_lengths(strings),
    }
}

/// The documents of a field can be read back.
pub open spec fn field_docs_recoverable(f: FieldValues) -> bool {
    match f {
        FieldValues::Numeric { max_doc, values, .. } => docs_recoverable(docs_of(values), max_doc),
        FieldValues::Sorted { max_doc, ords, .. } => docs_recoverable(docs_of(ords), max_doc),
        FieldValues::Binary { max_doc, strings, .. } => docs_recoverable(docs_of(strings), max_doc),
    }
}

pub open spec fn field_number(f: FieldValues) -> i32 {
    match f {
        FieldValues::Numeric { number, .. } => number,
        FieldValues::Sorted { number, .. } => number,
        FieldValues::Binary { number, .. } => number,
    }
}

/// The entry of a field whose data begins at `at`.
#[verifier::opaque]
pub open spec fn field_entry(f: FieldValues, at: nat) -> FieldEntry {
    match f {
        FieldValues::Numeric { number, max_doc, values } => FieldEntry::Numeric(numeric_entry(values, max_doc, at)),
        FieldValues::Sorted { number, max_doc, dict, ords, chunks } => FieldEntry::Sorted(
            numeric_entry(ord_values(ords), max_doc, at),
            terms_entry(dict, chunks, at + numeric_data(ord_values(ords), max_doc).len()),
            monotonic_meta(block_addresses(dict, chunks), 65536, 0),
        ),
        FieldValues::Binary { number, max_doc, strings } => FieldEntry::Binary(binary_entry(strings, max_doc, at), binary_records(strings)),
    }
}

/// Where the data of field `k` begins, if that of the first begins at `at`.
pub open spec fn field_at(fields: Seq<FieldValues>, k: int, at: nat) -> nat {
    at + fields_data(fields.take(k)).len()
}

/// The entries of the first `k` fields.
pub open spec fn field_entries(fields: Seq<FieldValues>, k: int, at: nat) -> Seq<(i32, FieldEntry)> {
    Seq::new(k as nat, |i: int| (field_number(fields[i]), field_entry(fields[i], field_at(fields, i, at))))
}

/// An entry begins with number and kind.
pub(crate) proof fn lemma_entry_head(s: Seq<u8>, p: int, number: i32, kind: u8, rest: Seq<u8>)
    requires
        holds_at(s, p, int_bytes(number) + seq![kind] + rest),
    ensures
        int_at(s, p) == Ok::<(i32, int), ErrorKind>((number, p + 4)),
        0 <= p < p + 5 <= s.len(),
        s[p + 4] == kind,
        holds_at(s, p + 5, rest),
        (int_bytes(number) + seq![kind] + rest).len() == 5 + rest.len(),
{
    broadcast use lemma_le_bytes_len;
    lemma_holds_concat(s, p, int_bytes(number) + seq![kind], rest);
    lemma_holds_concat(s, p, int_bytes(number), seq![kind]);
    lemma_holds_byte(s, p + 4, kind);
    crate::bytes::law_int_round_trip(s, p, number);
}

proof fn lemma_sorted_entry(s: Seq<u8>, p: int, number: i32, max_doc: u32, dict: Seq<Seq<u8>>, ords: Seq<(u32, u32)>, chunks: Seq<Seq<u8>>, at: nat)
    requires
        ({
            let f = FieldValues::Sorted { number, max_doc, dict, ords, chunks };
            field_written(f) && holds_at(s, p, field_meta(f, at)) && at + field_data(f).len() <= i64::MAX
        }),
    ensures
        ({
            let f = FieldValues::Sorted { number, max_doc, dict, ords, chunks };
            &&& int_at(s, p) == Ok::<(i32, int), ErrorKind>((number, p + 4))
            &&& entry_at(s, p + 4) == Ok::<(FieldEntry, int), ErrorKind>((field_entry(f, at), p + field_meta(f, at).len()))
        }),
{
    reveal(field_data);
    reveal(field_meta);
    reveal(field_entry);
    reveal(field_written);
    let values = ord_values(ords);
    assert(docs_of(values) =~= docs_of(ords));
    let m = numeric_meta(values, max_doc, at);
    let later = at + numeric_data(values, max_doc).len();
    let t = terms_meta(dict, chunks, later);
    lemma_entry_head(s, p, number, TYPE_SORTED, m + t);
    lemma_holds_concat(s, p + 5, m, t);
    lemma_numeric_meta(s, p + 5, values, max_doc, at);
    lemma_terms_meta(s, p + 77, dict, chunks, later);
}

proof fn lemma_field_entry(s: Seq<u8>, p: int, f: FieldValues, at: nat)
    requires
        field_written(f),
        holds_at(s, p, field_meta(f, at)),
        at + field_data(f).len() <= i64::MAX,
    ensures
        int_at(s, p) == Ok::<(i32, int), ErrorKind>((field_number(f), p + 4)),
        entry_at(s, p + 4) == Ok::<(FieldEntry, int), ErrorKind>((field_entry(f, at), p + field_meta(f, at).len())),
        field_meta(f, at).len() >= 5,
{
    reveal(field_data);
    reveal(field_meta);
    reveal(field_entry);
    reveal(field_written);
    match f {
        FieldValues::Numeric { number, max_doc, values } => {
            lemma_entry_head(s, p, number, TYPE_NUMERIC, numeric_meta(values, max_doc, at));
            lemma_numeric_meta(s, p + 5, values, max_doc, at);
        },
        FieldValues::Sorted { number, max_doc, dict, ords, chunks } => {
            lemma_sorted_entry(s, p, number, max_doc, dict, ords, chunks, at);
            let values = ord_values(ords);
            let m = numeric_meta(values, max_doc, at);
            let t = terms_meta(dict, chunks, at + numeric_data(values, max_doc).len());
            lemma_entry_head(s, p, number, TYPE_SORTED, m + t);
        },
        FieldValues::Binary { number, max_doc, strings } => {
            lemma_entry_head(s, p, number, TYPE_BINARY, binary_meta(strings, max_doc, at));
            lemma_binary_meta(s, p + 5, strings, max_doc, at);
        },
    }
}

/// The data and the entries of the first `k` fields come first.
proof fn lemma_fields_prefix(fields: Seq<FieldValues>, k: int, at: nat)
    requires
        0 <= k <= fields.len(),
    ensures
        holds_at(fields_data(fields), 0, fields_data(fields.take(k))),
        holds_at(fields_meta(fields, at), 0, fields_meta(fields.take(k), at)),
    decreases fields.len() - k,
{
    let a = fields_data(fields.take(k));
    let b = fields_meta(fields.take(k), at);
    if k < fields.len() {
        lemma_fields_prefix(fields, k + 1, at);
        let next = fields.take(k + 1);
        assert(next.drop_last() =~= fields.take(k));
        lemma_holds_concat(fields_data(fields), 0, a, field_data(fields[k]));
        lemma_holds_concat(fields_meta(fields, at), 0, b, field_meta(fields[k], field_at(fields, k, at)));
    } else {
        assert(fields.take(k) =~= fields);
        assert(a.subrange(0, a.len() as int) =~= a);
        assert(b.subrange(0, b.len() as int) =~= b);
    }
}

/// Where field `k`'s data and entry stand.
pub(crate) proof fn lemma_field_holds(fields: Seq<FieldValues>, k: int, at: nat)
    requires
        0 <= k < fields.len(),
    ensures
        holds_at(fields_data(fields), fields_data(fields.take(k)).len() as int, field_data(fields[k])),
        holds_at(fields_meta(fields, at), fields_meta(fields.take(k), at).len() as int, field_meta(fields[k], field_at(fields, k, at))),
        fields_meta(fields.take(k + 1), at).len() == fields_meta(fields.take(k), at).len() + field_meta(fields[k], field_at(fields, k, at)).len(),
{
    lemma_fields_prefix(fields, k + 1, at);
    assert(fields.take(k + 1).drop_last() =~= fields.take(k));
    lemma_holds_concat(fields_data(fields), 0, fields_data(fields.take(k)), field_data(fields[k]));
    lemma_holds_concat(fields_meta(fields, at), 0, fields_meta(fields.take(k), at), field_meta(fields[k], field_at(fields, k, at)));
}

/// What stands in a part stands in the whole.
pub(crate) proof fn lemma_holds_inside(s: Seq<u8>, p: int, a: Seq<u8>, q: int, b: Seq<u8>)
    requires
        holds_at(s, p, a),
        holds_at(a, q, b),
    ensures
        holds_at(s, p + q, b),
{
    assert(s.subrange(p + q, p + q + b.len()) =~= s.subrange(p, p + a.len()).subrange(q, q + b.len()));
}

/// One entry of several.
proof fn lemma_entries_step(s: Seq<u8>, p: int, acc: Seq<(i32, FieldEntry)>, number: i32, e: FieldEntry, z: int)
    requires
        int_at(s, p) == Ok::<(i32, int), ErrorKind>((number, p + 4)),
        number != -1,
        entry_at(s, p + 4) == Ok::<(FieldEntry, int), ErrorKind>((e, z)),
        z > p,
    ensures
        entries_at(s, p, acc) == entries_at(s, z, acc.push((number, e))),
{
    reveal_with_fuel(entries_at, 2);
}

pub(crate) proof fn lemma_number_valid(f: FieldValues)
    requires
        field_written(f),
    ensures
        field_number(f) != -1,
{
    reveal(field_written);
}

/// The entry of field `k` is read as it should.
proof fn lemma_entry_read(s: Seq<u8>, p: int, fields: Seq<FieldValues>, k: int, at: nat)
    requires
        0 <= k < fields.len(),
        field_written(fields[k]),
        holds_at(s, p, fields_meta(fields, at)),
        at + fields_data(fields).len() <= i64::MAX,
    ensures
        ({
            let from = p + fields_meta(fields.take(k), at).len();
            let to = p + fields_meta(fields.take(k + 1), at).len();
            &&& int_at(s, from) == Ok::<(i32, int), ErrorKind>((field_number(fields[k]), from + 4))
            &&& field_number(fields[k]) != -1
            &&& entry_at(s, from + 4) == Ok::<(FieldEntry, int), ErrorKind>((field_entry(fields[k], field_at(fields, k, at)), to))
            &&& to > from
        }),
{
    let f = fields[k];
    let here = field_at(fields, k, at);
    lemma_field_holds(fields, k, at);
    let off = fields_meta(fields.take(k), at).len() as int;
    lemma_holds_inside(s, p, fields_meta(fields, at), off, field_meta(f, here));
    lemma_field_entry(s, p + off, f, here);
    lemma_number_valid(f);
}

/// The entries from field `k` on are read back.
proof fn lemma_entries_read(s: Seq<u8>, p: int, fields: Seq<FieldValues>, k: int, at: nat)
    requires
        0 <= k <= fields.len(),
        all_written(fields),
        holds_at(s, p, fields_meta(fields, at)),
        int_at(s, p + fields_meta(fields, at).len()) == Ok::<(i32, int), ErrorKind>((-1i32, p + fields_meta(fields, at).len() + 4)),
        at + fields_data(fields).len() <= i64::MAX,
    ensures
        entries_at(s, p + fields_meta(fields.take(k), at).len(), field_entries(fields, k, at)) == Ok::<(Seq<(i32, FieldEntry)>, int), ErrorKind>(
            (field_entries(fields, fields.len() as int, at), p + fields_meta(fields, at).len() + 4),
        ),
    decreases fields.len() - k,
{
    if k < fields.len() {
        lemma_one_written(fields, k);
        lemma_entry_read(s, p, fields, k, at);
        lemma_entries_next(s, p, fields, k, at);
        lemma_entries_read(s, p, fields, k + 1, at);
    } else {
        assert(fields.take(k) =~= fields);
    }
}

pub(crate) proof fn lemma_one_written(fields: Seq<FieldValues>, k: int)
    requires
        all_written(fields),
        0 <= k < fields.len(),
    ensures
        field_written(fields[k]),
{
    reveal(all_written);
}

/// From one entry to the next.
proof fn lemma_entries_next(s: Seq<u8>, p: int, fields: Seq<FieldValues>, k: int, at: nat)
    requires
        0 <= k < fields.len(),
        ({
            let from = p + fields_meta(fields.take(k), at).len();
            let to = p + fields_meta(fields.take(k + 1), at).len();
            &&& int_at(s, from) == Ok::<(i32, int), ErrorKind>((field_number(fields[k]), from + 4))
            &&& field_number(fields[k]) != -1
            &&& entry_at(s, from + 4) == Ok::<(FieldEntry, int), ErrorKind>((field_entry(fields[k], field_at(fields, k, at)), to))
            &&& to > from
        }),
    ensures
        entries_at(s, p + fields_meta(fields.take(k), at).len(), field_entries(fields, k, at)) == entries_at(
            s,
            p + fields_meta(fields.take(k + 1), at).len(),
            field_entries(fields, k + 1, at),
        ),
{
    let e = (field_number(fields[k]), field_entry(fields[k], field_at(fields, k, at)));
    lemma_entries_step(s, p + fields_meta(fields.take(k), at).len(), field_entries(fields, k, at), e.0, e.1, p + fields_meta(fields.take(k + 1), at).len());
    assert(field_entries(fields, k, at).push(e) =~= field_entries(fields, k + 1, at));
}

/// The header of the data file.
pub open spec fn data_header(id: Seq<u8>, suffix: Seq<char>) -> Seq<u8> {
    index_header_bytes(DATA_CODEC@, VERSION, id, suffix)
}

/// Fields as they can be written.
#[verifier::opaque]
pub open spec fn all_written(fields: Seq<FieldValues>) -> bool {
    forall|i: int| 0 <= i < fields.len() ==> field_written(#[trigger] fields[i])
}

/// Fields as they can be written, in files of a possible size.
pub open spec fn files_written(fields: Seq<FieldValues>, id: Seq<u8>, suffix: Seq<char>) -> bool {
    &&& all_written(fields)
    &&& id.len() == 16
    &&& encode_utf8(suffix).len() < 256
    &&& data_file(fields, id, suffix).len() < 0x2000_0000_0000_0000
}

/// Files that were written can be opened, and have the entries of the fields
/// that were added, in the order in which they were added.
pub proof fn law_files_open(fields: Seq<FieldValues>, id: Seq<u8>, suffix: Seq<char>)
    requires
        files_written(fields, id, suffix),
    ensures
        opened(data_file(fields, id, suffix), meta_file(fields, id, suffix), id, suffix) == Ok::<(Seq<(i32, FieldEntry)>, int), ErrorKind>(
            (field_entries(fields, fields.len() as int, data_header(id, suffix).len()), data_header(id, suffix).len() as int),
        ),
{
    lemma_meta_opens(fields, id, suffix);
    lemma_data_opens(fields, id, suffix);
}

proof fn lemma_meta_opens(fields: Seq<FieldValues>, id: Seq<u8>, suffix: Seq<char>)
    requires
        files_written(fields, id, suffix),
    ensures
        ({
            let dvm = meta_file(fields, id, suffix);
            let h = data_header(id, suffix).len();
            let p = index_header_bytes(META_CODEC@, VERSION, id, suffix).len() as int;
            let q = p + fields_meta(fields, h).len() + 4;
            &&& index_header_at(dvm, 0, META_CODEC@, VERSION, VERSION, id, suffix) == Ok::<(u32, int), ErrorKind>((VERSION, p))
            &&& entries_at(dvm, p, Seq::empty()) == Ok::<(Seq<(i32, FieldEntry)>, int), ErrorKind>((field_entries(fields, fields.len() as int, h), q))
            &&& valid_footer_at(dvm, q, 0)
        }),
{
    lemma_codec_lengths();
    let dvm = meta_file(fields, id, suffix);
    let dh = data_header(id, suffix);
    let mh = index_header_bytes(META_CODEC@, VERSION, id, suffix);
    lemma_meta_parts(fields, id, suffix);
    law_index_header_round_trip(dvm, 0, META_CODEC@, VERSION, VERSION, VERSION, id, suffix);
    lemma_entries_read(dvm, mh.len() as int, fields, 0, dh.len());
    assert(fields.take(0) =~= Seq::empty());
    assert(field_entries(fields, 0, dh.len()) =~= Seq::empty());
    law_footer_round_trip(meta_body(fields, id, suffix) + int_bytes(-1i32));
}

proof fn lemma_data_opens(fields: Seq<FieldValues>, id: Seq<u8>, suffix: Seq<char>)
    requires
        files_written(fields, id, suffix),
    ensures
        ({
            let dvd = data_file(fields, id, suffix);
            &&& index_header_at(dvd, 0, DATA_CODEC@, VERSION, VERSION, id, suffix) == Ok::<(u32, int), ErrorKind>((VERSION, data_header(id, suffix).len() as int))
            &&& footer_structure(dvd, dvd.len() as int)
        }),
{
    lemma_codec_lengths();
    let dvd = data_file(fields, id, suffix);
    let dh = data_header(id, suffix);
    assert(dvd.subrange(0, dh.len() as int) =~= dh);
    law_index_header_round_trip(dvd, 0, DATA_CODEC@, VERSION, VERSION, VERSION, id, suffix);
    law_footer_structure(data_body(fields, id, suffix));
}

pub(crate) proof fn lemma_codec_lengths()
    ensures
        encode_utf8(DATA_CODEC@).len() < 256,
        encode_utf8(META_CODEC@).len() < 256,
{
    reveal_strlit("Lucene90DocValuesData");
    reveal_strlit("Lucene90DocValuesMetadata");
    vstd::utf8::is_ascii_chars_encode_utf8(DATA_CODEC@);
    vstd::utf8::is_ascii_chars_encode_utf8(META_CODEC@);
}

/// The parts of the metadata file.
pub(crate) proof fn lemma_meta_parts(fields: Seq<FieldValues>, id: Seq<u8>, suffix: Seq<char>)
    ensures
        ({
            let dvm = meta_file(fields, id, suffix);
            let mh = index_header_bytes(META_CODEC@, VERSION, id, suffix);
            let all = fields_meta(fields, data_header(id, suffix).len());
            &&& holds_at(dvm, 0, mh)
            &&& holds_at(dvm, mh.len() as int, all)
            &&& int_at(dvm, (mh.len() + all.len()) as int) == Ok::<(i32, int), ErrorKind>((-1i32, (mh.len() + all.len() + 4) as int))
            &&& (meta_body(fields, id, suffix) + int_bytes(-1i32)).len() == mh.len() + all.len() + 4
        }),
{
    broadcast use lemma_le_bytes_len;
    let dvm = meta_file(fields, id, suffix);
    let mh = index_header_bytes(META_CODEC@, VERSION, id, suffix);
    let end = int_bytes(-1i32);
    let all = fields_meta(fields, data_header(id, suffix).len());
    let p = mh.len() as int;
    assert(dvm.subrange(0, p) =~= mh);
    assert(dvm.subrange(p, p + all.len()) =~= all);
    assert(dvm.subrange(p + all.len(), p + all.len() + 4) =~= end);
    crate::bytes::law_int_round_trip(dvm, p + all.len(), -1i32);
}

/// A field's first entry is found by its number.
proof fn lemma_entry_found(entries: Seq<(i32, FieldEntry)>, k: int, i: int)
    requires
        0 <= i <= k < entries.len(),
        forall|j: int| 0 <= j < k ==> (#[trigger] entries[j]).0 != entries[k].0,
    ensures
        entry_of(entries, entries[k].0, i) == Some(entries[k].1),
    decreases k - i,
{
    if i < k {
        assert(entries[i].0 != entries[k].0);
        lemma_entry_found(entries, k, i + 1);
    }
}

/// Field `k` is the first of its number.
pub open spec fn first_of_number(fields: Seq<FieldValues>, k: int) -> bool {
    &&& 0 <= k < fields.len()
    &&& forall|j: int| 0 <= j < k ==> field_number(#[trigger] fields[j]) != field_number(fields[k])
}

/// The entry that a reader finds for the field of that number, and where its
/// data stands.
pub(crate) proof fn lemma_found(fields: Seq<FieldValues>, id: Seq<u8>, suffix: Seq<char>, k: int)
    requires
        files_written(fields, id, suffix),
        first_of_number(fields, k),
    ensures
        ({
            let h = data_header(id, suffix).len();
            let at = field_at(fields, k, h);
            &&& entry_of(field_entries(fields, fields.len() as int, h), field_number(fields[k]), 0) == Some(field_entry(fields[k], at))
            &&& holds_at(data_file(fields, id, suffix), at as int, field_data(fields[k]))
        }),
{
    let h = data_header(id, suffix).len();
    let entries = field_entries(fields, fields.len() as int, h);
    assert forall|j: int| 0 <= j < k implies (#[trigger] entries[j]).0 != entries[k].0 by {
        assert(field_number(fields[j]) != field_number(fields[k]));
    }
    lemma_entry_found(entries, k, 0);
    lemma_field_holds(fields, k, h);
    let dvd = data_file(fields, id, suffix);
    let d = fields_data(fields);
    assert(dvd.subrange(h as int, (h + d.len()) as int) =~= d);
    lemma_holds_inside(dvd, h as int, d, fields_data(fields.take(k)).len() as int, field_data(fields[k]));
}

/// No entry is found for a number that was not written.
pub proof fn law_unknown_number(fields: Seq<FieldValues>, id: Seq<u8>, suffix: Seq<char>, number: i32)
    requires
        files_written(fields, id, suffix),
        forall|i: int| 0 <= i < fields.len() ==> field_number(#[trigger] fields[i]) != number,
    ensures
        opened(data_file(fields, id, suffix), meta_file(fields, id, suffix), id, suffix) matches Ok((entries, _)) && entry_of(entries, number, 0) is None,
{
    law_files_open(fields, id, suffix);
    let entries = field_entries(fields, fields.len() as int, data_header(id, suffix).len());
    assert forall|i: int| 0 <= i < entries.len() implies (#[trigger] entries[i]).0 != number by {
        assert(field_number(fields[i]) != number);
    }
    lemma_no_entry(entries, number, 0);
}

proof fn lemma_no_entry(entries: Seq<(i32, FieldEntry)>, number: i32, i: int)
    requires
        0 <= i <= entries.len(),
        forall|j: int| 0 <= j < entries.len() ==> (#[trigger] entries[j]).0 != number,
    ensures
        entry_of(entries, number, i) is None,
    decreases entries.len() - i,
{
    if i < entries.len() {
        lemma_no_entry(entries, number, i + 1);
    }
}

/// The values of a numeric field that was written are read back, whatever the
/// other fields are. Left out is a field with documents in the block of the end
/// mark.
pub proof fn law_numeric_values_read_back(fields: Seq<FieldValues>, id: Seq<u8>, suffix: Seq<char>, k: int)
    requires
        files_written(fields, id, suffix),
        first_of_number(fields, k),
        fields[k] is Numeric,
        field_docs_recoverable(fields[k]),
    ensures
        opened(data_file(fields, id, suffix), meta_file(fields, id, suffix), id, suffix) matches Ok((entries, header)) && entry_of(entries, field_number(fields[k]), 0) matches Some(
            FieldEntry::Numeric(m),
        ) && numeric_read(data_file(fields, id, suffix), header, m) == Ok::<Seq<(u32, i64)>, ErrorKind>(fields[k]->Numeric_values),
{
    reveal(field_data);
    reveal(field_meta);
    reveal(field_entry);
    reveal(field_written);
    law_files_open(fields, id, suffix);
    lemma_found(fields, id, suffix, k);
    lemma_one_written(fields, k);
    let h = data_header(id, suffix).len();
    match fields[k] {
        FieldValues::Numeric { number, max_doc, values } => {
            lemma_numeric_read(data_file(fields, id, suffix), h as int, values, max_doc, field_at(fields, k, h));
        },
        _ => {},
    }
}

/// The ordinals and the dictionary of a sorted field that was written are
/// read back, and so is each document's term, whatever the other fields are.
/// Left out are the ordinals of a field with documents in the block of the end
/// mark, and a dictionary whose length does not fit 32 bits.
pub proof fn law_sorted_values_read_back(fields: Seq<FieldValues>, id: Seq<u8>, suffix: Seq<char>, k: int)
    requires
        files_written(fields, id, suffix),
        first_of_number(fields, k),
        fields[k] is Sorted,
    ensures
        opened(data_file(fields, id, suffix), meta_file(fields, id, suffix), id, suffix) matches Ok((entries, header)) && entry_of(entries, field_number(fields[k]), 0) matches Some(
            FieldEntry::Sorted(m, t, a),
        ) && ({
            let dvd = data_file(fields, id, suffix);
            let (dict, ords) = (fields[k]->dict, fields[k]->ords);
            &&& field_docs_recoverable(fields[k]) ==> ords_read(dvd, header, m) == Ok::<Seq<(u32, u32)>, ErrorKind>(ords)
            &&& terms_total(dict) <= u32::MAX ==> dict_read(dvd, header, t, a) == Ok::<Seq<Seq<u8>>, ErrorKind>(dict)
            &&& field_docs_recoverable(fields[k]) && terms_total(dict) <= u32::MAX ==> sorted_read(dvd, header, m, t, a) == Ok::<Seq<(u32, Seq<u8>)>, ErrorKind>(
                ords.map_values(|o: (u32, u32)| (o.0, dict[o.1 as int])),
            )
        }),
{
    reveal(field_data);
    reveal(field_meta);
    reveal(field_entry);
    reveal(field_written);
    law_files_open(fields, id, suffix);
    lemma_found(fields, id, suffix, k);
    lemma_one_written(fields, k);
    let h = data_header(id, suffix).len();
    let dvd = data_file(fields, id, suffix);
    let at = field_at(fields, k, h);
    match fields[k] {
        FieldValues::Sorted { number, max_doc, dict, ords, chunks } => {
            let values = ord_values(ords);
            assert(docs_of(values) =~= docs_of(ords));
            let nd = numeric_data(values, max_doc);
            lemma_holds_concat(dvd, at as int, nd, terms_data(dict, chunks));
            let m = numeric_entry(values, max_doc, at);
            if field_docs_recoverable(fields[k]) {
                lemma_ords_read(dvd, h as int, ords, max_doc, at);
            }
            if terms_total(dict) <= u32::MAX {
                lemma_dict_read(dvd, h as int, dict, chunks, at + nd.len());
                if field_docs_recoverable(fields[k]) {
                    lemma_sorted_read(dvd, h as int, m, terms_entry(dict, chunks, at + nd.len()), monotonic_meta(block_addresses(dict, chunks), 65536, 0), ords, dict);
                }
            }
        },
        _ => {},
    }
}

/// The values of a byte-string field that was written are read back, whatever
/// the other fields are. Left out is a field with documents in the block of the
/// end mark.
pub proof fn law_binary_values_read_back(fields: Seq<FieldValues>, id: Seq<u8>, suffix: Seq<char>, k: int)
    requires
        files_written(fields, id, suffix),
        first_of_number(fields, k),
        fields[k] is Binary,
        field_docs_recoverable(fields[k]),
    ensures
        opened(data_file(fields, id, suffix), meta_file(fields, id, suffix), id, suffix) matches Ok((entries, header)) && entry_of(entries, field_number(fields[k]), 0) matches Some(
            FieldEntry::Binary(m, a),
        ) && binary_read(data_file(fields, id, suffix), header, m, a) == Ok::<Seq<(u32, Seq<u8>)>, ErrorKind>(fields[k]->strings),
{
    reveal(field_data);
    reveal(field_meta);
    reveal(field_entry);
    reveal(field_written);
    law_files_open(fields, id, suffix);
    lemma_found(fields, id, suffix, k);
    lemma_one_written(fields, k);
    let h = data_header(id, suffix).len();
    match fields[k] {
        FieldValues::Binary { number, max_doc, strings } => {
            lemma_binary_read(data_file(fields, id, suffix), h as int, strings, max_doc, field_at(fields, k, h));
        },
        _ => {},
    }
}

// ---------------------------------------------------------------------------
// Random access
// ---------------------------------------------------------------------------

/// The number of jumps in a numeric description.
spec fn jumps_of(docs: Seq<u32>, max_doc: u32) -> i16 {
    if docs.len() == 0 || docs.len() == max_doc {
        -1i16
    } else {
        spec_to_i16(jump_count(docs) as u16)
    }
}

proof fn lemma_prefix(s: Seq<u8>, p: int, values: Seq<(u32, i64)>, max_doc: u32, at: nat)
    requires
        holds_at(s, p, numeric_meta(values, max_doc, at)),
        valid_docs(docs_of(values), max_doc),
        at + numeric_data(values, max_doc).len() <= i64::MAX,
    ensures
        prefix_at(s, p) == Ok::<((NumericMeta, i16), int), ErrorKind>(((numeric_entry(values, max_doc, at), jumps_of(docs_of(values), max_doc)), p + 72)),
{
    lemma_numeric_meta(s, p, values, max_doc, at);
    lemma_jumps_read(s, p, values, max_doc, at);
}

proof fn lemma_jumps_read(s: Seq<u8>, p: int, values: Seq<(u32, i64)>, max_doc: u32, at: nat)
    requires
        holds_at(s, p, numeric_meta(values, max_doc, at)),
    ensures
        short_at(s, p + 16) == Ok::<(i16, int), ErrorKind>((jumps_of(docs_of(values), max_doc), p + 18)),
{
    broadcast use lemma_holds_parts, lemma_le_bytes_len;
    let docs = docs_of(values);
    assert(holds_at(s, p, docs_meta(docs, max_doc, at)));
    crate::bytes::law_short_round_trip(s, p + 16, jumps_of(docs, max_doc));
}

/// A numeric description is opened.
proof fn lemma_numbers_of(dvd: Seq<u8>, values: Seq<(u32, i64)>, max_doc: u32, at: nat)
    requires
        docs_recoverable(docs_of(values), max_doc),
        holds_at(dvd, at as int, numeric_data(values, max_doc)),
        dvd.len() <= i64::MAX,
    ensures
        numbers_of(dvd, numeric_entry(values, max_doc, at), jumps_of(docs_of(values), max_doc)) == Ok::<(Seq<u32>, Seq<u8>), ErrorKind>((docs_of(values), values_data(values))),
{
    let docs = docs_of(values);
    let m = numeric_entry(values, max_doc, at);
    lemma_holds_concat(dvd, at as int, docs_data(docs, max_doc), values_data(values));
    lemma_disi_parsed(dvd, docs, max_doc, at);
    lemma_valid_docs_len(docs, max_doc, docs.len() as int);
    let vd = values_data(values);
    let from = (at + docs_data(docs, max_doc).len()) as int;
    assert(part_of(dvd, m.values_offset, m.values_length) == Ok::<Seq<u8>, ErrorKind>(vd)) by {
        if vd.len() == 0 {
            assert(vd =~= Seq::empty());
        }
    }
    lemma_values_width(values);
}

proof fn lemma_values_width(values: Seq<(u32, i64)>)
    ensures
        values_width(values) <= 64,
        values_width(values) == 0 || crate::packed::supported(values_width(values) as int),
{
    if least_value(values) < greatest_value(values) {
        crate::packed::lemma_direct_width((greatest_value(values) - least_value(values)) as u64);
    }
}

proof fn lemma_disi_parsed(dvd: Seq<u8>, docs: Seq<u32>, max_doc: u32, at: nat)
    requires
        docs_recoverable(docs, max_doc),
        holds_at(dvd, at as int, docs_data(docs, max_doc)),
        dvd.len() <= i64::MAX,
    ensures
        disi_parsed(dvd, docs_offset(docs, max_doc, at), docs_data(docs, max_doc).len() as i64, jumps_of(docs, max_doc), docs.len() as u32) == Ok::<Seq<u32>, ErrorKind>(docs),
{
    lemma_valid_docs_len(docs, max_doc, docs.len() as int);
    if docs.len() == 0 {
        assert(docs =~= Seq::empty());
    } else if docs.len() == max_doc {
        assert forall|i: int| 0 <= i < docs.len() implies docs[i] == i as u32 by {
            lemma_dense(docs, max_doc, i);
        }
        assert(docs =~= first_docs(docs.len() as u32));
    } else {
        let b = disi_bytes(docs);
        let r = dvd.subrange(at as int, (at + b.len()) as int);
        assert(r.subrange(0, b.len() as int) =~= b);
        assert(doc_set(docs)) by {
            assert forall|i: int| 0 <= i < docs.len() implies #[trigger] docs[i] < 0x7FFF_FFFF by {
                assert(docs[i] < max_doc);
            }
        }
        law_disi_round_trip(r, docs);
        assert(0 <= jump_count(docs) <= 0x8000);
    }
}

/// The values that random access finds.
spec fn finds_values(m: NumericMeta, docs: Seq<u32>, data: Seq<u8>, values: Seq<(u32, i64)>) -> bool {
    &&& forall|i: int| 0 <= i < values.len() ==> number_of(m, docs, data, (#[trigger] values[i]).0) == Ok::<Option<i64>, ErrorKind>(Some(values[i].1))
    &&& forall|doc: u32| !docs_of(values).contains(doc) ==> #[trigger] number_of(m, docs, data, doc) == Ok::<Option<i64>, ErrorKind>(None)
}

proof fn lemma_finds_values(dvd: Seq<u8>, header: int, values: Seq<(u32, i64)>, max_doc: u32, at: nat)
    requires
        docs_recoverable(docs_of(values), max_doc),
        holds_at(dvd, at as int, numeric_data(values, max_doc)),
        0 <= header <= at,
        dvd.len() <= i64::MAX,
    ensures
        finds_values(numeric_entry(values, max_doc, at), docs_of(values), values_data(values), values),
{
    let m = numeric_entry(values, max_doc, at);
    let docs = docs_of(values);
    let data = values_data(values);
    lemma_numeric_read(dvd, header, values, max_doc, at);
    lemma_docs_strict(docs, max_doc);
    lemma_holds_concat(dvd, at as int, docs_data(docs, max_doc), data);
    lemma_docs_read(dvd, header, docs, max_doc, at);
    lemma_values_found(dvd, header, m, docs, values, data);
}

proof fn lemma_docs_strict(docs: Seq<u32>, max_doc: u32)
    requires
        valid_docs(docs, max_doc),
    ensures
        ascending_docs(docs),
{
}

proof fn lemma_values_found(dvd: Seq<u8>, header: int, m: NumericMeta, docs: Seq<u32>, values: Seq<(u32, i64)>, data: Seq<u8>)
    requires
        numeric_read(dvd, header, m) == Ok::<Seq<(u32, i64)>, ErrorKind>(values),
        docs_read(dvd, header, m.docs_offset, m.docs_length, m.num_values) == Ok::<Seq<u32>, ErrorKind>(docs),
        docs == docs_of(values),
        ascending_docs(docs),
        m.values_length == data.len(),
        holds_at(dvd, m.values_offset as int, data),
    ensures
        finds_values(m, docs, data, values),
{
    assert forall|i: int| 0 <= i < values.len() implies number_of(m, docs, data, (#[trigger] values[i]).0) == Ok::<Option<i64>, ErrorKind>(Some(values[i].1)) by {
        let doc = values[i].0;
        assert(docs[i] == doc);
        law_doc_place(docs, doc);
        lemma_ascending(docs, i);
        let found = packed_region(dvd, header, m)->Ok_0;
        let read = Seq::new(docs.len(), |i: int| (docs[i], value_read(m, found, i)));
        assert(read[i] == values[i]);
        if m.bpv != 0 {
            assert(found == data);
            assert((i + 1) * m.bpv <= m.num_values * m.bpv) by (nonlinear_arith)
                requires
                    i + 1 <= m.num_values,
                    0 <= m.bpv,
            ;
            assert((i + 1) * m.bpv <= 0x1_0000_0000 * 255) by (nonlinear_arith)
                requires
                    0 <= i <= 0xFFFF_FFFF,
                    0 <= m.bpv <= 255,
            ;
        }
    }
    assert forall|doc: u32| !docs_of(values).contains(doc) implies #[trigger] number_of(m, docs, data, doc) == Ok::<Option<i64>, ErrorKind>(None) by {
        law_doc_place(docs, doc);
    }
}

/// The search for a field steps over a numeric or a sorted entry, or stops
/// at it.
proof fn lemma_found_or_next(s: Seq<u8>, p: int, own: i32, kind: u8, number: i32, m: NumericMeta, jumps: i16, z: int)
    requires
        int_at(s, p) == Ok::<(i32, int), ErrorKind>((own, p + 4)),
        own != -1,
        0 <= p < p + 5 <= s.len(),
        s[p + 4] == kind,
        kind != TYPE_BINARY,
        prefix_at(s, p + 5) == Ok::<((NumericMeta, i16), int), ErrorKind>(((m, jumps), z)),
        z > p,
    ensures
        own == number ==> field_found(s, p, number) == Ok::<((u8, NumericMeta, i16), int), ErrorKind>(((kind, m, jumps), z)),
        own != number && kind != TYPE_SORTED ==> field_found(s, p, number) == field_found(s, z, number),
        own != number && kind == TYPE_SORTED ==> (terms_meta_at(s, z) matches Ok((_, y)) ==> (y > p ==> field_found(s, p, number) == field_found(s, y, number))),
{
    reveal_with_fuel(field_found, 2);
}

/// The search for a field steps over a byte-string entry.
proof fn lemma_next_binary(s: Seq<u8>, p: int, own: i32, number: i32, z: int)
    requires
        int_at(s, p) == Ok::<(i32, int), ErrorKind>((own, p + 4)),
        own != -1,
        own != number,
        0 <= p < p + 5 <= s.len(),
        s[p + 4] == TYPE_BINARY,
        binary_meta_at(s, p + 5) matches Ok((_, y)) && y == z,
        z > p,
    ensures
        field_found(s, p, number) == field_found(s, z, number),
{
    reveal_with_fuel(field_found, 2);
}

/// The search for a field steps over one entry.
proof fn lemma_search_step(s: Seq<u8>, p: int, f: FieldValues, at: nat, number: i32)
    requires
        field_written(f),
        field_number(f) != number,
        holds_at(s, p, field_meta(f, at)),
        at + field_data(f).len() <= i64::MAX,
    ensures
        field_found(s, p, number) == field_found(s, p + field_meta(f, at).len(), number),
{
    match f {
        FieldValues::Numeric { number: own, max_doc, values } => {
            lemma_search_numeric(s, p, own, max_doc, values, at);
            lemma_found_or_next(s, p, own, TYPE_NUMERIC, number, numeric_entry(values, max_doc, at), jumps_of(docs_of(values), max_doc), p + 77);
        },
        FieldValues::Sorted { number: own, max_doc, dict, ords, chunks } => {
            lemma_search_sorted(s, p, own, max_doc, dict, ords, chunks, at);
            lemma_number_valid(f);
            lemma_found_or_next(s, p, own, TYPE_SORTED, number, numeric_entry(ord_values(ords), max_doc, at), jumps_of(docs_of(ords), max_doc), p + 77);
        },
        FieldValues::Binary { number: own, max_doc, strings } => {
            lemma_search_binary(s, p, own, max_doc, strings, at);
            lemma_next_binary(s, p, own, number, p + field_meta(f, at).len());
        },
    }
}

/// Where the parts of a numeric field's entry are.
proof fn lemma_search_numeric(s: Seq<u8>, p: int, own: i32, max_doc: u32, values: Seq<(u32, i64)>, at: nat)
    requires
        ({
            let f = FieldValues::Numeric { number: own, max_doc, values };
            field_written(f) && holds_at(s, p, field_meta(f, at)) && at + field_data(f).len() <= i64::MAX
        }),
    ensures
        int_at(s, p) == Ok::<(i32, int), ErrorKind>((own, p + 4)),
        own != -1,
        0 <= p < p + 5 <= s.len(),
        s[p + 4] == TYPE_NUMERIC,
        prefix_at(s, p + 5) == Ok::<((NumericMeta, i16), int), ErrorKind>(((numeric_entry(values, max_doc, at), jumps_of(docs_of(values), max_doc)), p + 77)),
        field_meta(FieldValues::Numeric { number: own, max_doc, values }, at).len() == 77,
        field_data(FieldValues::Numeric { number: own, max_doc, values }) == numeric_data(values, max_doc),
{
    reveal(field_data);
    reveal(field_meta);
    reveal(field_written);
    lemma_entry_head(s, p, own, TYPE_NUMERIC, numeric_meta(values, max_doc, at));
    lemma_prefix(s, p + 5, values, max_doc, at);
    lemma_numeric_meta(s, p + 5, values, max_doc, at);
}

/// Where the parts of a byte-string field's entry are.
proof fn lemma_search_binary(s: Seq<u8>, p: int, own: i32, max_doc: u32, strings: Seq<(u32, Seq<u8>)>, at: nat)
    requires
        ({
            let f = FieldValues::Binary { number: own, max_doc, strings };
            field_written(f) && holds_at(s, p, field_meta(f, at)) && at + field_data(f).len() <= i64::MAX
        }),
    ensures
        int_at(s, p) == Ok::<(i32, int), ErrorKind>((own, p + 4)),
        own != -1,
        0 <= p < p + 5 <= s.len(),
        s[p + 4] == TYPE_BINARY,
        binary_meta_at(s, p + 5) matches Ok((_, y)) && y == p + field_meta(FieldValues::Binary { number: own, max_doc, strings }, at).len(),
        field_meta(FieldValues::Binary { number: own, max_doc, strings }, at).len() >= 5,
{
    reveal(field_data);
    reveal(field_meta);
    reveal(field_written);
    lemma_entry_head(s, p, own, TYPE_BINARY, binary_meta(strings, max_doc, at));
    lemma_binary_meta(s, p + 5, strings, max_doc, at);
}

/// Where the parts of a sorted field's entry are.
proof fn lemma_search_sorted(s: Seq<u8>, p: int, own: i32, max_doc: u32, dict: Seq<Seq<u8>>, ords: Seq<(u32, u32)>, chunks: Seq<Seq<u8>>, at: nat)
    requires
        ({
            let f = FieldValues::Sorted { number: own, max_doc, dict, ords, chunks };
            field_written(f) && holds_at(s, p, field_meta(f, at)) && at + field_data(f).len() <= i64::MAX
        }),
    ensures
        ({
            let f = FieldValues::Sorted { number: own, max_doc, dict, ords, chunks };
            let later = at + numeric_data(ord_values(ords), max_doc).len();
            &&& int_at(s, p) == Ok::<(i32, int), ErrorKind>((own, p + 4))
            &&& 0 <= p < p + 5 <= s.len()
            &&& s[p + 4] == TYPE_SORTED
            &&& prefix_at(s, p + 5) == Ok::<((NumericMeta, i16), int), ErrorKind>(((numeric_entry(ord_values(ords), max_doc, at), jumps_of(docs_of(ords), max_doc)), p + 77))
            &&& terms_meta_at(s, p + 77) == Ok::<((TermsMeta, Seq<u8>), int), ErrorKind>(
                ((terms_entry(dict, chunks, later), monotonic_meta(block_addresses(dict, chunks), 65536, 0)), p + field_meta(f, at).len()),
            )
            &&& field_meta(f, at).len() >= 77
        }),
{
    reveal(field_data);
    reveal(field_meta);
    reveal(field_written);
    let values = ord_values(ords);
    assert(docs_of(values) =~= docs_of(ords));
    let m = numeric_meta(values, max_doc, at);
    let later = at + numeric_data(values, max_doc).len();
    let t = terms_meta(dict, chunks, later);
    lemma_entry_head(s, p, own, TYPE_SORTED, m + t);
    lemma_holds_concat(s, p + 5, m, t);
    lemma_prefix(s, p + 5, values, max_doc, at);
    lemma_numeric_meta(s, p + 5, values, max_doc, at);
    lemma_terms_meta(s, p + 77, dict, chunks, later);
}

/// The search goes past the fields of other numbers.
proof fn lemma_search(s: Seq<u8>, p: int, fields: Seq<FieldValues>, j: int, k: int, at: nat, number: i32)
    requires
        0 <= j <= k <= fields.len(),
        forall|i: int| 0 <= i < k ==> field_number(#[trigger] fields[i]) != number,
        all_written(fields),
        holds_at(s, p, fields_meta(fields, at)),
        at + fields_data(fields).len() <= i64::MAX,
    ensures
        field_found(s, p + fields_meta(fields.take(j), at).len(), number) == field_found(s, p + fields_meta(fields.take(k), at).len(), number),
    decreases k - j,
{
    if j < k {
        lemma_one_written(fields, j);
        lemma_field_holds(fields, j, at);
        let off = fields_meta(fields.take(j), at).len() as int;
        let here = field_at(fields, j, at);
        lemma_holds_inside(s, p, fields_meta(fields, at), off, field_meta(fields[j], here));
        lemma_search_step(s, p + off, fields[j], here, number);
        lemma_search(s, p, fields, j + 1, k, at, number);
    }
}

/// Where the search for a field ends up in a file that was written.
proof fn lemma_search_files(fields: Seq<FieldValues>, id: Seq<u8>, suffix: Seq<char>, k: int) -> (q: int)
    requires
        files_written(fields, id, suffix),
        first_of_number(fields, k),
    ensures
        any_index_header_at(meta_file(fields, id, suffix), 0) is Ok,
        field_found(meta_file(fields, id, suffix), any_index_header_at(meta_file(fields, id, suffix), 0)->Ok_0.1, field_number(fields[k])) == field_found(
            meta_file(fields, id, suffix),
            q,
            field_number(fields[k]),
        ),
        holds_at(meta_file(fields, id, suffix), q, field_meta(fields[k], field_at(fields, k, data_header(id, suffix).len()))),
{
    lemma_codec_lengths();
    lemma_meta_parts(fields, id, suffix);
    let dvm = meta_file(fields, id, suffix);
    let h = data_header(id, suffix).len();
    let mh = index_header_bytes(META_CODEC@, VERSION, id, suffix);
    law_index_header_round_trip(dvm, 0, META_CODEC@, VERSION, VERSION, VERSION, id, suffix);
    let p = mh.len() as int;
    assert(fields.take(0) =~= Seq::empty());
    lemma_search(dvm, p, fields, 0, k, h, field_number(fields[k]));
    lemma_field_holds(fields, k, h);
    let off = fields_meta(fields.take(k), h).len() as int;
    lemma_holds_inside(dvm, p, fields_meta(fields, h), off, field_meta(fields[k], field_at(fields, k, h)));
    p + off
}

/// Random access finds the value of every document of a numeric field that
/// was written, and none for any other document, whatever the other fields are.
/// Left out is a field with documents in the block of the end mark.
pub proof fn law_numeric_random_access(fields: Seq<FieldValues>, id: Seq<u8>, suffix: Seq<char>, k: int)
    requires
        files_written(fields, id, suffix),
        first_of_number(fields, k),
        fields[k] is Numeric,
        field_docs_recoverable(fields[k]),
    ensures
        numeric_opened(meta_file(fields, id, suffix), data_file(fields, id, suffix), field_number(fields[k])) matches Ok((m, docs, data)) && ({
            let values = fields[k]->Numeric_values;
            &&& forall|i: int| 0 <= i < values.len() ==> number_of(m, docs, data, (#[trigger] values[i]).0) == Ok::<Option<i64>, ErrorKind>(Some(values[i].1))
            &&& forall|doc: u32| !docs_of(values).contains(doc) ==> #[trigger] number_of(m, docs, data, doc) == Ok::<Option<i64>, ErrorKind>(None)
        }),
{
    let dvm = meta_file(fields, id, suffix);
    let dvd = data_file(fields, id, suffix);
    let h = data_header(id, suffix).len();
    let at = field_at(fields, k, h);
    let q = lemma_search_files(fields, id, suffix, k);
    lemma_found(fields, id, suffix, k);
    lemma_one_written(fields, k);
    match fields[k] {
        FieldValues::Numeric { number, max_doc, values } => {
            assert(at + field_data(fields[k]).len() <= dvd.len());
            lemma_search_numeric(dvm, q, number, max_doc, values, at);
            lemma_found_or_next(dvm, q, number, TYPE_NUMERIC, number, numeric_entry(values, max_doc, at), jumps_of(docs_of(values), max_doc), q + 77);
            lemma_numbers_of(dvd, values, max_doc, at);
            lemma_finds_values(dvd, h as int, values, max_doc, at);
        },
        _ => {},
    }
}

/// A batch over a numeric field that was written gives, for each document that
/// is asked for, the value that was written for it, and none where none was,
/// in whatever order the documents come. Left out is a field with documents in
/// the block of the end mark.
pub proof fn law_numeric_batch(fields: Seq<FieldValues>, id: Seq<u8>, suffix: Seq<char>, k: int, asked: Seq<u32>)
    requires
        files_written(fields, id, suffix),
        first_of_number(fields, k),
        fields[k] is Numeric,
        field_docs_recoverable(fields[k]),
    ensures
        numeric_opened(meta_file(fields, id, suffix), data_file(fields, id, suffix), field_number(fields[k])) matches Ok((m, docs, data)) && numbers_batch(
            m,
            docs,
            data,
            asked,
            asked.len() as int,
        ) matches Ok(v) && v.len() == asked.len() && ({
            let values = fields[k]->Numeric_values;
            forall|i: int|
                0 <= i < asked.len() ==> match #[trigger] v[i] {
                    Some(x) => values.contains((asked[i], x)),
                    None => forall|j: int| 0 <= j < values.len() ==> (#[trigger] values[j]).0 != asked[i],
                }
        }),
{
    law_numeric_random_access(fields, id, suffix, k);
    let (m, docs, data) = numeric_opened(meta_file(fields, id, suffix), data_file(fields, id, suffix), field_number(fields[k]))->Ok_0;
    let values = fields[k]->Numeric_values;
    law_batch_is_each(m, docs, data, asked);
    assert forall|i: int| 0 <= i < asked.len() implies number_of(m, docs, data, #[trigger] asked[i]) matches Ok(v) && match v {
        Some(x) => values.contains((asked[i], x)),
        None => forall|j: int| 0 <= j < values.len() ==> (#[trigger] values[j]).0 != asked[i],
    } by {
        if docs_of(values).contains(asked[i]) {
            let j = choose|j: int| 0 <= j < docs_of(values).len() && docs_of(values)[j] == asked[i];
            assert(values[j].0 == asked[i]);
            assert(values[j] == (asked[i], values[j].1));
        } else {
            assert forall|j: int| 0 <= j < values.len() implies (#[trigger] values[j]).0 != asked[i] by {
                assert(docs_of(values)[j] == values[j].0);
            }
        }
    }
    assert(numbers_batch(m, docs, data, asked, asked.len() as int) is Ok);
}

/// Random access finds no field of a number that was not written.
#[verifier::rlimit(60)]
pub proof fn law_random_access_unknown(fields: Seq<FieldValues>, id: Seq<u8>, suffix: Seq<char>, number: i32)
    requires
        files_written(fields, id, suffix),
        forall|i: int| 0 <= i < fields.len() ==> field_number(#[trigger] fields[i]) != number,
    ensures
        numeric_opened(meta_file(fields, id, suffix), data_file(fields, id, suffix), number) == Err::<(NumericMeta, Seq<u32>, Seq<u8>), ErrorKind>(ErrorKind::NotFound),
        sorted_opened(meta_file(fields, id, suffix), data_file(fields, id, suffix), number) == Err::<(NumericMeta, Seq<u32>, Seq<u8>, DictParts), ErrorKind>(
            ErrorKind::NotFound,
        ),
{
    lemma_codec_lengths();
    lemma_meta_parts(fields, id, suffix);
    let dvm = meta_file(fields, id, suffix);
    let h = data_header(id, suffix).len();
    let mh = index_header_bytes(META_CODEC@, VERSION, id, suffix);
    law_index_header_round_trip(dvm, 0, META_CODEC@, VERSION, VERSION, VERSION, id, suffix);
    let p = mh.len() as int;
    let n = fields.len() as int;
    assert(fields.take(0) =~= Seq::empty());
    assert(fields.take(n) =~= fields);
    lemma_search(dvm, p, fields, 0, n, h, number);
    lemma_not_found(dvm, p + fields_meta(fields, h).len(), number);
}

/// The search ends at the end mark.
proof fn lemma_not_found(s: Seq<u8>, p: int, number: i32)
    requires
        int_at(s, p) matches Ok((f, _)) && f == -1,
    ensures
        field_found(s, p, number) == Err::<((u8, NumericMeta, i16), int), ErrorKind>(ErrorKind::NotFound),
{
    reveal_with_fuel(field_found, 1);
}

/// Random access to a field of another kind is refused: a numeric field is
/// not opened as a sorted one, a sorted field not as a numeric one, and a
/// byte-string field as neither.
pub proof fn law_random_access_other_kind(fields: Seq<FieldValues>, id: Seq<u8>, suffix: Seq<char>, k: int)
    requires
        files_written(fields, id, suffix),
        first_of_number(fields, k),
    ensures
        !(fields[k] is Numeric) ==> numeric_opened(meta_file(fields, id, suffix), data_file(fields, id, suffix), field_number(fields[k])) == Err::<
            (NumericMeta, Seq<u32>, Seq<u8>),
            ErrorKind,
        >(ErrorKind::InvalidData),
        !(fields[k] is Sorted) ==> sorted_opened(meta_file(fields, id, suffix), data_file(fields, id, suffix), field_number(fields[k])) == Err::<
            (NumericMeta, Seq<u32>, Seq<u8>, DictParts),
            ErrorKind,
        >(ErrorKind::InvalidData),
{
    let dvm = meta_file(fields, id, suffix);
    let h = data_header(id, suffix).len();
    let at = field_at(fields, k, h);
    let q = lemma_search_files(fields, id, suffix, k);
    lemma_found(fields, id, suffix, k);
    lemma_one_written(fields, k);
    assert(at + field_data(fields[k]).len() <= data_file(fields, id, suffix).len());
    match fields[k] {
        FieldValues::Numeric { number, max_doc, values } => {
            lemma_search_numeric(dvm, q, number, max_doc, values, at);
            lemma_found_or_next(dvm, q, number, TYPE_NUMERIC, number, numeric_entry(values, max_doc, at), jumps_of(docs_of(values), max_doc), q + 77);
        },
        FieldValues::Sorted { number, max_doc, dict, ords, chunks } => {
            lemma_search_sorted(dvm, q, number, max_doc, dict, ords, chunks, at);
            lemma_number_valid(fields[k]);
            lemma_found_or_next(dvm, q, number, TYPE_SORTED, number, numeric_entry(ord_values(ords), max_doc, at), jumps_of(docs_of(ords), max_doc), q + 77);
        },
        FieldValues::Binary { number, max_doc, strings } => {
            lemma_search_binary(dvm, q, number, max_doc, strings, at);
            reveal_with_fuel(field_found, 2);
        },
    }
}

/// Random access finds the ordinal of every document of a sorted field that
/// was written, none for any other document, the term of every ordinal, and
/// nothing for an ordinal past the dictionary, whatever the other fields are.
/// Left out is a field with documents in the block of the end mark.
pub proof fn law_sorted_random_access(fields: Seq<FieldValues>, id: Seq<u8>, suffix: Seq<char>, k: int)
    requires
        files_written(fields, id, suffix),
        first_of_number(fields, k),
        fields[k] is Sorted,
        field_docs_recoverable(fields[k]),
    ensures
        sorted_opened(meta_file(fields, id, suffix), data_file(fields, id, suffix), field_number(fields[k])) matches Ok((m, docs, data, d)) && ({
            let ords = fields[k]->ords;
            let dict = fields[k]->dict;
            &&& forall|i: int| 0 <= i < ords.len() ==> number_of(m, docs, data, (#[trigger] ords[i]).0) == Ok::<Option<i64>, ErrorKind>(Some(ords[i].1 as i64))
            &&& forall|doc: u32| !docs_of(ords).contains(doc) ==> #[trigger] number_of(m, docs, data, doc) == Ok::<Option<i64>, ErrorKind>(None)
            &&& forall|ord: u32| ord < dict.len() ==> #[trigger] term_of(d, ord) == dict[ord as int]
            &&& forall|ord: u32| ord >= dict.len() ==> #[trigger] term_of(d, ord) == Seq::<u8>::empty()
        }),
{
    let dvm = meta_file(fields, id, suffix);
    let dvd = data_file(fields, id, suffix);
    let h = data_header(id, suffix).len();
    let at = field_at(fields, k, h);
    let q = lemma_search_files(fields, id, suffix, k);
    lemma_found(fields, id, suffix, k);
    lemma_one_written(fields, k);
    match fields[k] {
        FieldValues::Sorted { number, max_doc, dict, ords, chunks } => {
            assert(at + field_data(fields[k]).len() <= dvd.len());
            lemma_search_sorted(dvm, q, number, max_doc, dict, ords, chunks, at);
            lemma_sorted_access(dvm, dvd, h as int, q, number, max_doc, dict, ords, chunks, at);
        },
        _ => {},
    }
}

proof fn lemma_sorted_access(dvm: Seq<u8>, dvd: Seq<u8>, header: int, q: int, number: i32, max_doc: u32, dict: Seq<Seq<u8>>, ords: Seq<(u32, u32)>, chunks: Seq<Seq<u8>>, at: nat)
    requires
        ({
            let f = FieldValues::Sorted { number, max_doc, dict, ords, chunks };
            field_written(f) && field_docs_recoverable(f) && holds_at(dvm, q, field_meta(f, at)) && holds_at(dvd, at as int, field_data(f))
        }),
        0 <= header <= at,
        dvd.len() < 0x2000_0000_0000_0000,
    ensures
        field_found(dvm, q, number) matches Ok(((kind, m, jumps), z)) && numbers_of(dvd, m, jumps) matches Ok((docs, data)) && dict_parts(dvm, z, dvd) matches Ok(d) && ({
            &&& kind == TYPE_SORTED
            &&& forall|i: int| 0 <= i < ords.len() ==> number_of(m, docs, data, (#[trigger] ords[i]).0) == Ok::<Option<i64>, ErrorKind>(Some(ords[i].1 as i64))
            &&& forall|doc: u32| !docs_of(ords).contains(doc) ==> #[trigger] number_of(m, docs, data, doc) == Ok::<Option<i64>, ErrorKind>(None)
            &&& forall|ord: u32| ord < dict.len() ==> #[trigger] term_of(d, ord) == dict[ord as int]
            &&& forall|ord: u32| ord >= dict.len() ==> #[trigger] term_of(d, ord) == Seq::<u8>::empty()
        }),
{
    let values = ord_values(ords);
    let f = FieldValues::Sorted { number, max_doc, dict, ords, chunks };
    lemma_search_sorted(dvm, q, number, max_doc, dict, ords, chunks, at);
    lemma_number_valid(f);
    lemma_found_or_next(dvm, q, number, TYPE_SORTED, number, numeric_entry(values, max_doc, at), jumps_of(docs_of(ords), max_doc), q + 77);
    reveal(field_data);
    reveal(field_written);
    assert(docs_of(values) =~= docs_of(ords));
    let nd = numeric_data(values, max_doc);
    lemma_holds_concat(dvd, at as int, nd, terms_data(dict, chunks));
    lemma_numbers_of(dvd, values, max_doc, at);
    lemma_finds_values(dvd, header, values, max_doc, at);
    let m = numeric_entry(values, max_doc, at);
    let data = values_data(values);
    let docs = docs_of(values);
    assert forall|i: int| 0 <= i < ords.len() implies number_of(m, docs, data, (#[trigger] ords[i]).0) == Ok::<Option<i64>, ErrorKind>(Some(ords[i].1 as i64)) by {
        assert(values[i] == (ords[i].0, ords[i].1 as i64));
    }
    lemma_dict_parts(dvm, q + 77, dvd, dict, chunks, at + nd.len());
}

proof fn lemma_dict_parts(dvm: Seq<u8>, z: int, dvd: Seq<u8>, dict: Seq<Seq<u8>>, chunks: Seq<Seq<u8>>, at: nat)
    requires
        term_list(dict),
        dict.len() <= i32::MAX,
        chunks_ok(dict, chunks),
        holds_at(dvd, at as int, terms_data(dict, chunks)),
        dvd.len() < 0x2000_0000_0000_0000,
        terms_meta_at(dvm, z) matches Ok(((t, a), _)) && t == terms_entry(dict, chunks, at) && a == monotonic_meta(block_addresses(dict, chunks), 65536, 0),
    ensures
        dict_parts(dvm, z, dvd) matches Ok(d) && (forall|ord: u32| ord < dict.len() ==> #[trigger] term_of(d, ord) == dict[ord as int]) && (forall|ord: u32|
            ord >= dict.len() ==> #[trigger] term_of(d, ord) == Seq::<u8>::empty()),
{
    let meta = monotonic_meta(block_addresses(dict, chunks), 65536, 0);
    let t = terms_entry(dict, chunks, at);
    let blocks = blocks_data(dict, chunks, chunks.len() as int);
    let addresses = monotonic_data(block_addresses(dict, chunks), 65536);
    let keys = keys_data(dict, key_count(dict.len() as int));
    let rest = monotonic_data(key_addresses(dict), 65536);
    lemma_holds_concat(dvd, at as int, blocks + addresses + keys, rest);
    lemma_holds_concat(dvd, at as int, blocks + addresses, keys);
    lemma_holds_concat(dvd, at as int, blocks, addresses);
    if blocks.len() == 0 {
        assert(blocks =~= Seq::empty());
    }
    if addresses.len() == 0 {
        assert(addresses =~= Seq::empty());
    }
    let d = DictParts { meta: t, data: blocks, records: meta, addresses };
    assert(dict_parts(dvm, z, dvd) == Ok::<DictParts, ErrorKind>(d));
    lemma_records_len(block_addresses(dict, chunks), 0);
    assert(meta.subrange(0, meta.len() as int) =~= meta);
    assert(addresses.subrange(0, addresses.len() as int) =~= addresses);
    assert forall|ord: u32| ord < dict.len() implies #[trigger] term_of(d, ord) == dict[ord as int] by {
        lemma_term_of(d, dict, chunks, ord);
    }
    assert forall|ord: u32| ord >= dict.len() implies #[trigger] term_of(d, ord) == Seq::<u8>::empty() by {
        lemma_term_past(d, ord);
    }
}

/// There is no term past the dictionary.
proof fn lemma_term_past(d: DictParts, ord: u32)
    requires
        0 <= d.meta.dict_size <= i32::MAX,
        ord >= d.meta.dict_size,
    ensures
        term_of(d, ord) == Seq::<u8>::empty(),
{
}

/// A term that is read behind another one is found behind it.
proof fn lemma_next_term(s: Seq<u8>, p: int, prev: Seq<u8>)
    ensures
        term_at(s, p, prev) is Ok ==> next_term_at(s, p, prev) == term_at(s, p, prev),
{
}

/// The terms of a block behind its first are found from the `k`-th on.
proof fn lemma_later_term(s: Seq<u8>, dict: Seq<Seq<u8>>, from: int, k: int, n: nat, end: int)
    requires
        term_list(dict),
        0 <= from < k,
        k + n <= end <= dict.len(),
        s == entries_bytes(dict, from, end),
    ensures
        later_term_at(s, entries_bytes(dict, from, k).len() as int, n, dict[k - 1]) == Ok::<Seq<u8>, ErrorKind>(dict[k - 1 + n]),
    decreases n,
{
    if n > 0 {
        let p = entries_bytes(dict, from, k).len() as int;
        crate::terms_dict::lemma_term_pair(dict, k - 1, k);
        lemma_entries_prefix(dict, from, k + 1, end);
        lemma_holds_concat(s, 0, entries_bytes(dict, from, k), entry_bytes(dict[k - 1], dict[k]));
        lemma_term_read(s, p, dict[k - 1], dict[k]);
        lemma_next_term(s, p, dict[k - 1]);
        lemma_later_term(s, dict, from, k + 1, (n - 1) as nat, end);
    }
}

/// A term of a block is found.
proof fn lemma_term_in_block(dict: Seq<Seq<u8>>, chunks: Seq<Seq<u8>>, b: int, n: nat)
    requires
        term_list(dict),
        chunks_ok(dict, chunks),
        0 <= b < chunks.len(),
        n < block_end(dict.len() as int, b) - 64 * b,
    ensures
        term_in_block(term_block(dict, b, chunks[b]), n) == Ok::<Seq<u8>, ErrorKind>(dict[64 * b + n]),
{
    let block = term_block(dict, b, chunks[b]);
    let first = dict[64 * b];
    let end = block_end(dict.len() as int, b);
    crate::terms_dict::lemma_term_length(dict, 64 * b);
    let v = varint_bytes(first.len());
    let tail = if end > 64 * b + 1 {
        varint_bytes(block_entries(dict, b).len()) + chunks[b]
    } else {
        Seq::empty()
    };
    assert(block.subrange(0, block.len() as int) =~= block);
    lemma_holds_concat(block, 0, v + first, tail);
    lemma_holds_concat(block, 0, v, first);
    lemma_small_vint(block, 0, first.len());
    if n > 0 {
        let entries = block_entries(dict, b);
        crate::terms_dict::lemma_entries_len(dict, 64 * b, end);
        assert((end - 64 * b) * 32773 <= 64 * 32773);
        let q = (v + first).len() as int;
        let w = varint_bytes(entries.len());
        lemma_holds_concat(block, q, w, chunks[b]);
        lemma_small_vint(block, q, entries.len());
        assert(block.skip(q + w.len()) =~= chunks[b]);
        assert(lz4_fact(dict, chunks, b));
        lemma_later_term(entries, dict, 64 * b, 64 * b + 1, n, end);
        assert(entries_bytes(dict, 64 * b, 64 * b + 1).len() == 0);
    }
}

/// The term of an ordinal is found.
proof fn lemma_term_of(d: DictParts, dict: Seq<Seq<u8>>, chunks: Seq<Seq<u8>>, ord: u32)
    requires
        ord < dict.len() <= i32::MAX,
        term_list(dict),
        chunks_ok(dict, chunks),
        d.meta.dict_size == dict.len(),
        d.data == blocks_data(dict, chunks, chunks.len() as int),
        d.data.len() < 0x2000_0000_0000_0000,
        d.addresses.len() < 0x2000_0000_0000_0000,
        d.records.len() == records_len(chunks.len(), 16),
        holds_at(d.records, 0, monotonic_meta(block_addresses(dict, chunks), 65536, 0)),
        holds_at(d.addresses, 0, monotonic_data(block_addresses(dict, chunks), 65536)),
    ensures
        term_of(d, ord) == dict[ord as int],
{
    let b = ord as int / 64;
    lemma_block_found(d.data, d.records, d.addresses, dict, chunks, b);
    lemma_term_in_block(dict, chunks, b, ord as nat % 64);
    lemma_some_blocks(dict, chunks);
    lemma_term_from_block(d, ord, term_block(dict, b, chunks[b]), dict[ord as int]);
}

proof fn lemma_term_from_block(d: DictParts, ord: u32, block: Seq<u8>, term: Seq<u8>)
    requires
        d.data.len() > 0,
        ord < d.meta.dict_size <= i32::MAX,
        d.records.len() == records_len(term_blocks(d.meta.dict_size as int) as nat, 16),
        term_block_read(d.data, d.records, d.addresses, term_blocks(d.meta.dict_size as int) as nat, ord as int / 64) == Ok::<Seq<u8>, ErrorKind>(block),
        term_in_block(block, ord as nat % 64) == Ok::<Seq<u8>, ErrorKind>(term),
    ensures
        term_of(d, ord) == term,
{
}

/// A dictionary with terms has blocks that are not empty.
proof fn lemma_some_blocks(dict: Seq<Seq<u8>>, chunks: Seq<Seq<u8>>)
    requires
        dict.len() > 0,
        chunks.len() > 0,
    ensures
        blocks_data(dict, chunks, chunks.len() as int).len() > 0,
{
    lemma_blocks_prefix(dict, chunks, 1, chunks.len() as int);
    crate::bytes::lemma_varint_len(dict[0].len());
    reveal_with_fuel(blocks_data, 2);
}

} // verus!
