//! What is known of fields is read back from where it was written.

use crate::bytes::{byte_at, holds_at, law_long_round_trip, law_vint_round_trip, lemma_holds_byte, lemma_holds_concat, long_at, long_bytes, vint_at, vint_bytes, vint_of};
use crate::codec_util::{footer_bytes, index_header_at, index_header_bytes, law_footer_round_trip, law_index_header_round_trip, valid_footer_at};
use crate::error::ErrorKind;
use crate::field_infos::{
    field_bits, field_bytes, fields_bytes, infos_body, DocValuesType, FieldInfo, IndexOptions, VectorEncoding, VectorSimilarity, CODEC_NAME, FORMAT_CURRENT,
};
use crate::strings::{law_string_map_round_trip, law_string_round_trip, pairs_map, string_at, string_bytes, string_map_at, string_map_bytes};
use vstd::prelude::*;
use vstd::utf8::encode_utf8;

verus! {

/// What the codes of a field's entry stand for.
pub open spec fn index_options_of(code: u8) -> Option<IndexOptions> {
    if code == 0 {
        Some(IndexOptions::NotIndexed)
    } else if code == 1 {
        Some(IndexOptions::Docs)
    } else if code == 2 {
        Some(IndexOptions::DocsAndFreqs)
    } else if code == 3 {
        Some(IndexOptions::DocsAndFreqsAndPositions)
    } else if code == 4 {
        Some(IndexOptions::DocsAndFreqsAndPositionsAndOffsets)
    } else {
        None
    }
}

pub open spec fn doc_values_type_of(code: u8) -> Option<DocValuesType> {
    if code == 0 {
        Some(DocValuesType::NoValues)
    } else if code == 1 {
        Some(DocValuesType::Numeric)
    } else if code == 2 {
        Some(DocValuesType::Binary)
    } else if code == 3 {
        Some(DocValuesType::Sorted)
    } else if code == 4 {
        Some(DocValuesType::SortedSet)
    } else if code == 5 {
        Some(DocValuesType::SortedNumeric)
    } else {
        None
    }
}

pub open spec fn vector_encoding_of(code: u8) -> Option<VectorEncoding> {
    if code == 0 {
        Some(VectorEncoding::Byte)
    } else if code == 1 {
        Some(VectorEncoding::Float32)
    } else {
        None
    }
}

pub open spec fn vector_similarity_of(code: u8) -> Option<VectorSimilarity> {
    if code == 0 {
        Some(VectorSimilarity::Euclidean)
    } else if code == 1 {
        Some(VectorSimilarity::DotProduct)
    } else if code == 2 {
        Some(VectorSimilarity::Cosine)
    } else if code == 3 {
        Some(VectorSimilarity::MaximumInnerProduct)
    } else {
        None
    }
}

/// Options that keep positions keep frequencies, and the codes order the options
/// by how much they keep.
pub proof fn law_options_order(a: IndexOptions, b: IndexOptions)
    ensures
        a.spec_has_positions() ==> a.spec_has_freqs(),
        a != IndexOptions::NotIndexed ==> (a.spec_has_freqs() <==> a.spec_ordinal() >= 2),
        a.spec_has_positions() <==> a.spec_ordinal() >= 3,
        a.spec_ordinal() == b.spec_ordinal() ==> a == b,
{
}

/// The begin of a field's entry: name, number, flags, what its postings hold, and
/// the kind of its values.
#[verifier::opaque]
pub open spec fn info_front_at(s: Seq<u8>, p: int) -> Result<((Seq<char>, i32, u8, Option<IndexOptions>, Option<DocValuesType>), int), ErrorKind> {
    match string_at(s, p) {
        Ok((name, p1)) => match vint_at(s, p1) {
            Ok((number, p2)) => match byte_at(s, p2) {
                Ok((bits, p3)) => match byte_at(s, p3) {
                    Ok((options, p4)) => match byte_at(s, p4) {
                        Ok((kind, p5)) => Ok(((name, number, bits, index_options_of(options), doc_values_type_of(kind)), p5)),
                        Err(k) => Err(k),
                    },
                    Err(k) => Err(k),
                },
                Err(k) => Err(k),
            },
            Err(k) => Err(k),
        },
        Err(k) => Err(k),
    }
}

/// The attributes behind the generation of the values.
#[verifier::opaque]
pub open spec fn info_middle_at(s: Seq<u8>, p: int) -> Result<((i64, Map<Seq<char>, Seq<char>>), int), ErrorKind> {
    match long_at(s, p) {
        Ok((gen, q)) => match string_map_at(s, q) {
            Ok((attributes, z)) => Ok(((gen, attributes), z)),
            Err(k) => Err(k),
        },
        Err(k) => Err(k),
    }
}

/// The dimensions of a field's points: without any, nothing more is said of them.
#[verifier::opaque]
pub open spec fn info_points_at(s: Seq<u8>, p: int) -> Result<((i32, i32, i32), int), ErrorKind> {
    match vint_at(s, p) {
        Ok((dims, q)) => if dims == 0 {
            Ok(((0, 0, 0), q))
        } else {
            match vint_at(s, q) {
                Ok((index, e)) => match vint_at(s, e) {
                    Ok((bytes, z)) => Ok(((dims, index, bytes), z)),
                    Err(k) => Err(k),
                },
                Err(k) => Err(k),
            }
        },
        Err(k) => Err(k),
    }
}

/// What is said of a field's vectors.
#[verifier::opaque]
pub open spec fn info_vectors_at(s: Seq<u8>, p: int) -> Result<((i32, Option<VectorEncoding>, Option<VectorSimilarity>), int), ErrorKind> {
    match vint_at(s, p) {
        Ok((dim, q)) => match byte_at(s, q) {
            Ok((encoding, e)) => match byte_at(s, e) {
                Ok((similarity, z)) => Ok(((dim, vector_encoding_of(encoding), vector_similarity_of(similarity)), z)),
                Err(k) => Err(k),
            },
            Err(k) => Err(k),
        },
        Err(k) => Err(k),
    }
}

/// The entry of a field at `p` says what is known of the field, and ends at
/// `end`.
#[verifier::opaque]
pub open spec fn tells_field(s: Seq<u8>, p: int, f: FieldInfo, end: int) -> bool {
    info_front_at(s, p) matches Ok(((name, number, bits, options, kind), p1)) && info_middle_at(s, p1) matches Ok(((gen, attributes), p2)) && info_points_at(s, p2) matches Ok(
        ((dims, index, bytes), p3),
    ) && info_vectors_at(s, p3) matches Ok(((dim, encoding, similarity), p4)) && ({
        &&& name == f.name@ && number == f.number
        &&& (bits % 2 == 1) == f.store_termvector
        &&& (bits / 2 % 2 == 1) == f.omit_norms
        &&& (bits / 4 % 2 == 1) == f.store_payloads
        &&& (bits / 8 % 2 == 1) == f.soft_deletes
        &&& (bits / 16 % 2 == 1) == f.parent_field
        &&& bits < 32
        &&& options == Some(f.index_options)
        &&& kind == Some(f.doc_values_type)
        &&& gen == f.doc_values_gen
        &&& attributes == pairs_map(f.attributes.pairs())
        &&& dims == f.point_dimension_count
        &&& dims != 0 ==> index == f.point_index_dimension_count && bytes == f.point_num_bytes
        &&& dim == f.vector_dimension
        &&& encoding == Some(f.vector_encoding)
        &&& similarity == Some(f.vector_similarity)
        &&& p4 == end
    })
}

/// A field whose strings have lengths that can be said.
pub open spec fn tellable_field(f: FieldInfo) -> bool {
    let pairs = f.attributes.pairs();
    &&& encode_utf8(f.name@).len() < 0x8000_0000
    &&& pairs.len() < 0x8000_0000
    &&& forall|j: int| 0 <= j < pairs.len() ==> encode_utf8(#[trigger] pairs[j].0).len() < 0x8000_0000 && encode_utf8(pairs[j].1).len() < 0x8000_0000
}

spec fn front_of(f: FieldInfo) -> Seq<u8> {
    string_bytes(f.name@) + vint_bytes(f.number) + seq![field_bits(f)] + seq![f.index_options.spec_ordinal()] + seq![f.doc_values_type.spec_ordinal()]
}

spec fn points_part(f: FieldInfo) -> Seq<u8> {
    vint_bytes(f.point_dimension_count) + if f.point_dimension_count != 0 {
        vint_bytes(f.point_index_dimension_count) + vint_bytes(f.point_num_bytes)
    } else {
        Seq::empty()
    }
}

spec fn vectors_part(f: FieldInfo) -> Seq<u8> {
    vint_bytes(f.vector_dimension) + seq![f.vector_encoding.spec_ordinal()] + seq![f.vector_similarity.spec_ordinal()]
}

proof fn lemma_front(s: Seq<u8>, p: int, f: FieldInfo)
    requires
        tellable_field(f),
        holds_at(s, p, front_of(f)),
    ensures
        info_front_at(s, p) == Ok::<((Seq<char>, i32, u8, Option<IndexOptions>, Option<DocValuesType>), int), ErrorKind>(
            ((f.name@, f.number, field_bits(f), Some(f.index_options), Some(f.doc_values_type)), p + front_of(f).len()),
        ),
{
    reveal(info_front_at);
    let (a, b) = (string_bytes(f.name@), vint_bytes(f.number));
    let (x, y, z) = (field_bits(f), f.index_options.spec_ordinal(), f.doc_values_type.spec_ordinal());
    lemma_holds_concat(s, p, a + b + seq![x] + seq![y], seq![z]);
    lemma_holds_concat(s, p, a + b + seq![x], seq![y]);
    lemma_holds_concat(s, p, a + b, seq![x]);
    lemma_holds_concat(s, p, a, b);
    law_string_round_trip(s, p, f.name@);
    law_vint_round_trip(s, p + a.len(), f.number);
    let q = p + a.len() + b.len();
    lemma_holds_byte(s, q, x);
    lemma_holds_byte(s, q + 1, y);
    lemma_holds_byte(s, q + 2, z);
}

proof fn lemma_middle(s: Seq<u8>, p: int, f: FieldInfo)
    requires
        tellable_field(f),
        holds_at(s, p, long_bytes(f.doc_values_gen) + string_map_bytes(f.attributes.pairs())),
    ensures
        info_middle_at(s, p) == Ok::<((i64, Map<Seq<char>, Seq<char>>), int), ErrorKind>(
            ((f.doc_values_gen, pairs_map(f.attributes.pairs())), p + (long_bytes(f.doc_values_gen) + string_map_bytes(f.attributes.pairs())).len()),
        ),
{
    broadcast use crate::bytes::lemma_le_bytes_len;
    reveal(info_middle_at);
    let a = long_bytes(f.doc_values_gen);
    lemma_holds_concat(s, p, a, string_map_bytes(f.attributes.pairs()));
    law_long_round_trip(s, p, f.doc_values_gen);
    law_string_map_round_trip(s, p + a.len(), f.attributes.pairs());
}

proof fn lemma_points(s: Seq<u8>, p: int, f: FieldInfo)
    requires
        holds_at(s, p, points_part(f)),
    ensures
        info_points_at(s, p) matches Ok(((dims, index, bytes), q)) && dims == f.point_dimension_count && (dims != 0 ==> index == f.point_index_dimension_count && bytes == f.point_num_bytes) && q == p
            + points_part(f).len(),
{
    reveal(info_points_at);
    let a = vint_bytes(f.point_dimension_count);
    if f.point_dimension_count != 0 {
        let (b, c) = (vint_bytes(f.point_index_dimension_count), vint_bytes(f.point_num_bytes));
        lemma_holds_concat(s, p, a, b + c);
        lemma_holds_concat(s, p + a.len(), b, c);
        law_vint_round_trip(s, p + a.len(), f.point_index_dimension_count);
        law_vint_round_trip(s, p + a.len() + b.len(), f.point_num_bytes);
    } else {
        assert(points_part(f) =~= a);
    }
    law_vint_round_trip(s, p, f.point_dimension_count);
}

proof fn lemma_vectors(s: Seq<u8>, p: int, f: FieldInfo)
    requires
        holds_at(s, p, vectors_part(f)),
    ensures
        info_vectors_at(s, p) == Ok::<((i32, Option<VectorEncoding>, Option<VectorSimilarity>), int), ErrorKind>(
            ((f.vector_dimension, Some(f.vector_encoding), Some(f.vector_similarity)), p + vectors_part(f).len()),
        ),
{
    reveal(info_vectors_at);
    let a = vint_bytes(f.vector_dimension);
    let (x, y) = (f.vector_encoding.spec_ordinal(), f.vector_similarity.spec_ordinal());
    lemma_holds_concat(s, p, a + seq![x], seq![y]);
    lemma_holds_concat(s, p, a, seq![x]);
    law_vint_round_trip(s, p, f.vector_dimension);
    lemma_holds_byte(s, p + a.len(), x);
    lemma_holds_byte(s, p + a.len() + 1, y);
}

proof fn lemma_field_parts(f: FieldInfo)
    ensures
        field_bytes(f) == front_of(f) + (long_bytes(f.doc_values_gen) + string_map_bytes(f.attributes.pairs())) + points_part(f) + vectors_part(f),
{
    assert(field_bytes(f) =~= front_of(f) + (long_bytes(f.doc_values_gen) + string_map_bytes(f.attributes.pairs())) + points_part(f) + vectors_part(f));
}

/// Each flag has its own bit.
proof fn lemma_bits(f: FieldInfo)
    ensures
        field_bits(f) < 32,
        (field_bits(f) % 2 == 1) == f.store_termvector,
        (field_bits(f) / 2 % 2 == 1) == f.omit_norms,
        (field_bits(f) / 4 % 2 == 1) == f.store_payloads,
        (field_bits(f) / 8 % 2 == 1) == f.soft_deletes,
        (field_bits(f) / 16 % 2 == 1) == f.parent_field,
{
    let bits = field_bits(f) as int;
    let one = |on: bool| if on { 1int } else { 0 };
    let (a, b, c, d, e) = (one(f.store_termvector), one(f.omit_norms), one(f.store_payloads), one(f.soft_deletes), one(f.parent_field));
    assert(bits == a + 2 * b + 4 * c + 8 * d + 16 * e);
    assert(bits / 2 == b + 2 * c + 4 * d + 8 * e);
    assert(bits / 4 == c + 2 * d + 4 * e);
    assert(bits / 8 == d + 2 * e);
    assert(bits / 16 == e);
}

/// A field's entry is read as what is known of the field: each flag from its own
/// bit, each kind from its code, and the dimensions of its points where it has
/// any.
pub proof fn law_field_read(s: Seq<u8>, p: int, f: FieldInfo)
    requires
        tellable_field(f),
        holds_at(s, p, field_bytes(f)),
    ensures
        tells_field(s, p, f, p + field_bytes(f).len()),
{
    reveal(tells_field);
    let a = front_of(f);
    let b = long_bytes(f.doc_values_gen) + string_map_bytes(f.attributes.pairs());
    let (c, d) = (points_part(f), vectors_part(f));
    lemma_field_parts(f);
    lemma_holds_concat(s, p, a + b + c, d);
    lemma_holds_concat(s, p, a + b, c);
    lemma_holds_concat(s, p, a, b);
    lemma_front(s, p, f);
    let p1 = p + a.len();
    lemma_middle(s, p1, f);
    let p2 = p1 + b.len();
    lemma_points(s, p2, f);
    let p3 = p2 + c.len();
    lemma_vectors(s, p3, f);
    lemma_bits(f);
    assert(p3 + d.len() == p + field_bytes(f).len());
}

/// Where the entry of field `i` stands among those of the first `n`.
proof fn lemma_field_stands(s: Seq<u8>, p: int, fields: Seq<FieldInfo>, n: int, i: int)
    requires
        0 <= i < n,
        holds_at(s, p, fields_bytes(fields, n)),
    ensures
        holds_at(s, p + fields_bytes(fields, i).len(), field_bytes(fields[i])),
    decreases n,
{
    lemma_holds_concat(s, p, fields_bytes(fields, n - 1), field_bytes(fields[n - 1]));
    if i < n - 1 {
        lemma_field_stands(s, p, fields, n - 1, i);
    }
}

/// A file whose header and whose footer at `end` pass their checks: how many
/// fields it has, and where their entries begin.
#[verifier::opaque]
pub open spec fn infos_front_at(s: Seq<u8>, id: Seq<u8>, suffix: Seq<char>, end: int) -> Result<(int, int), ErrorKind> {
    if !valid_footer_at(s, end, 0) {
        Err(ErrorKind::InvalidData)
    } else {
        match index_header_at(s, 0, CODEC_NAME@, FORMAT_CURRENT, FORMAT_CURRENT, id, suffix) {
            Ok((_, p)) => match vint_at(s, p) {
                Ok((n, q)) => Ok((n as int, q)),
                Err(k) => Err(k),
            },
            Err(k) => Err(k),
        }
    }
}

proof fn lemma_infos_front(fields: Seq<FieldInfo>, id: Seq<u8>, suffix: Seq<char>) -> (q: int)
    requires
        fields.len() <= i32::MAX,
        id.len() == 16,
        encode_utf8(suffix).len() < 256,
    ensures
        ({
            let body = infos_body(fields, id, suffix);
            let s = body + footer_bytes(body);
            &&& infos_front_at(s, id, suffix, body.len() as int) == Ok::<(int, int), ErrorKind>((fields.len() as int, q))
            &&& holds_at(s, q, fields_bytes(fields, fields.len() as int))
            &&& q + fields_bytes(fields, fields.len() as int).len() == body.len()
        }),
{
    let body = infos_body(fields, id, suffix);
    let s = body + footer_bytes(body);
    let n = fields.len() as int;
    let h = index_header_bytes(CODEC_NAME@, FORMAT_CURRENT, id, suffix);
    let c = vint_of(n);
    let all = fields_bytes(fields, n);
    assert(body =~= h + (c + all));
    lemma_opens(body, c, all, n as i32, id, suffix);
    (h.len() + c.len()) as int
}

/// A file with its header and its footer passes its checks.
#[verifier::rlimit(50)]
proof fn lemma_opens(body: Seq<u8>, count: Seq<u8>, rest: Seq<u8>, n: i32, id: Seq<u8>, suffix: Seq<char>)
    requires
        body == index_header_bytes(CODEC_NAME@, FORMAT_CURRENT, id, suffix) + (count + rest),
        count == vint_bytes(n),
        id.len() == 16,
        encode_utf8(suffix).len() < 256,
    ensures
        ({
            let s = body + footer_bytes(body);
            let h = index_header_bytes(CODEC_NAME@, FORMAT_CURRENT, id, suffix);
            &&& infos_front_at(s, id, suffix, body.len() as int) == Ok::<(int, int), ErrorKind>((n as int, (h.len() + count.len()) as int))
            &&& holds_at(s, (h.len() + count.len()) as int, rest)
        }),
{
    reveal(infos_front_at);
    reveal_strlit("Lucene94FieldInfos");
    vstd::utf8::is_ascii_chars_encode_utf8(CODEC_NAME@);
    let s = body + footer_bytes(body);
    let h = index_header_bytes(CODEC_NAME@, FORMAT_CURRENT, id, suffix);
    assert(s.subrange(0, h.len() as int) =~= h);
    assert(s.subrange(h.len() as int, body.len() as int) =~= count + rest);
    lemma_holds_concat(s, h.len() as int, count, rest);
    law_vint_round_trip(s, h.len() as int, n);
    law_index_header_round_trip(s, 0, CODEC_NAME@, FORMAT_CURRENT, FORMAT_CURRENT, FORMAT_CURRENT, id, suffix);
    law_footer_round_trip(body);
}

/// From `from` to `to` stand the entries of the fields, one behind the other.
#[verifier::opaque]
pub open spec fn tells_fields(s: Seq<u8>, fields: Seq<FieldInfo>, places: Seq<int>, from: int, to: int) -> bool {
    &&& places.len() == fields.len() + 1
    &&& places[0] == from
    &&& places[fields.len() as int] == to
    &&& forall|i: int| 0 <= i < fields.len() ==> tells_field(s, #[trigger] places[i], fields[i], places[i + 1])
}

/// A file that passes its checks says how many fields there are and, from `q` to
/// `end`, what is known of each.
pub open spec fn tells_infos(s: Seq<u8>, fields: Seq<FieldInfo>, id: Seq<u8>, suffix: Seq<char>, q: int, places: Seq<int>, end: int) -> bool {
    &&& infos_front_at(s, id, suffix, end) == Ok::<(int, int), ErrorKind>((fields.len() as int, q))
    &&& tells_fields(s, fields, places, q, end)
}

proof fn lemma_fields_told(s: Seq<u8>, q: int, fields: Seq<FieldInfo>) -> (places: Seq<int>)
    requires
        forall|i: int| 0 <= i < fields.len() ==> tellable_field(#[trigger] fields[i]),
        holds_at(s, q, fields_bytes(fields, fields.len() as int)),
    ensures
        tells_fields(s, fields, places, q, q + fields_bytes(fields, fields.len() as int).len()),
{
    reveal(tells_fields);
    let n = fields.len() as int;
    let places = Seq::new((n + 1) as nat, |i: int| q + fields_bytes(fields, i).len());
    assert forall|i: int| 0 <= i < n implies tells_field(s, #[trigger] places[i], fields[i], places[i + 1]) by {
        lemma_field_stands(s, q, fields, n, i);
        assert(tellable_field(fields[i]));
        law_field_read(s, places[i], fields[i]);
    }
    places
}

/// The file of field infos passes its checks, and behind its header says how many
/// fields there are and, one behind the other, what is known of each.
pub proof fn law_field_infos_read(fields: Seq<FieldInfo>, id: Seq<u8>, suffix: Seq<char>)
    requires
        fields.len() <= i32::MAX,
        forall|i: int| 0 <= i < fields.len() ==> tellable_field(#[trigger] fields[i]),
        id.len() == 16,
        encode_utf8(suffix).len() < 256,
    ensures
        ({
            let body = infos_body(fields, id, suffix);
            let s = body + footer_bytes(body);
            exists|q: int, places: Seq<int>| #[trigger] tells_infos(s, fields, id, suffix, q, places, body.len() as int)
        }),
{
    let body = infos_body(fields, id, suffix);
    let s = body + footer_bytes(body);
    let q = lemma_infos_front(fields, id, suffix);
    let places = lemma_fields_told(s, q, fields);
    assert(tells_infos(s, fields, id, suffix, q, places, body.len() as int));
}

} // verus!
