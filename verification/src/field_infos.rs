//! What a segment knows of its fields, and the file that holds it.

use crate::bytes::{bytes_equal, lemma_concat_assoc, long_bytes, vint_bytes, vint_of};
use crate::codec_util::{footer_bytes, index_header_bytes, write_footer, write_index_header};
use crate::error::Error;
use crate::io::{put_vint, ChecksumIndexOutput, DataOutput, IndexOutput, SegmentFile};
use crate::strings::{lemma_utf8_injective, string_bytes, string_map_bytes, StringMap};
use vstd::prelude::*;
use vstd::string::*;
use vstd::utf8::encode_utf8;

verus! {

pub const CODEC_NAME: &'static str = "Lucene94FieldInfos";
pub const FORMAT_CURRENT: u32 = 1;
pub const EXTENSION: &'static str = "fnm";

pub const STORE_TERMVECTOR: u8 = 1;
pub const OMIT_NORMS: u8 = 2;
pub const STORE_PAYLOADS: u8 = 4;
pub const SOFT_DELETES_FIELD: u8 = 8;
pub const PARENT_FIELD_FIELD: u8 = 16;

/// What a field's postings hold.
#[derive(Clone, Copy, PartialEq, Eq, Debug, Structural)]
pub enum IndexOptions {
    NotIndexed,
    Docs,
    DocsAndFreqs,
    DocsAndFreqsAndPositions,
    DocsAndFreqsAndPositionsAndOffsets,
}

/// What values a field has per document.
#[derive(Clone, Copy, PartialEq, Eq, Debug, Structural)]
pub enum DocValuesType {
    NoValues,
    Numeric,
    Binary,
    Sorted,
    SortedSet,
    SortedNumeric,
}

/// What a field's vectors are made of.
#[derive(Clone, Copy, PartialEq, Eq, Debug, Structural)]
pub enum VectorEncoding {
    Byte,
    Float32,
}

/// How a field's vectors are compared.
#[derive(Clone, Copy, PartialEq, Eq, Debug, Structural)]
pub enum VectorSimilarity {
    Euclidean,
    DotProduct,
    Cosine,
    MaximumInnerProduct,
}

impl IndexOptions {
    pub open spec fn spec_ordinal(self) -> u8 {
        match self {
            IndexOptions::NotIndexed => 0,
            IndexOptions::Docs => 1,
            IndexOptions::DocsAndFreqs => 2,
            IndexOptions::DocsAndFreqsAndPositions => 3,
            IndexOptions::DocsAndFreqsAndPositionsAndOffsets => 4,
        }
    }

    /// The byte that stands for it.
    #[verifier::when_used_as_spec(spec_ordinal)]
    pub fn ordinal(self) -> (r: u8)
        ensures
            r == self.spec_ordinal(),
    {
        match self {
            IndexOptions::NotIndexed => 0,
            IndexOptions::Docs => 1,
            IndexOptions::DocsAndFreqs => 2,
            IndexOptions::DocsAndFreqsAndPositions => 3,
            IndexOptions::DocsAndFreqsAndPositionsAndOffsets => 4,
        }
    }

    pub open spec fn spec_has_freqs(self) -> bool {
        self != IndexOptions::Docs
    }

    /// Whether frequencies are kept.
    #[verifier::when_used_as_spec(spec_has_freqs)]
    pub fn has_freqs(self) -> (r: bool)
        ensures
            r == self.spec_has_freqs(),
    {
        match self {
            IndexOptions::Docs => false,
            _ => true,
        }
    }

    pub open spec fn spec_has_positions(self) -> bool {
        self == IndexOptions::DocsAndFreqsAndPositions || self == IndexOptions::DocsAndFreqsAndPositionsAndOffsets
    }

    /// Whether positions are kept.
    #[verifier::when_used_as_spec(spec_has_positions)]
    pub fn has_positions(self) -> (r: bool)
        ensures
            r == self.spec_has_positions(),
    {
        match self {
            IndexOptions::DocsAndFreqsAndPositions => true,
            IndexOptions::DocsAndFreqsAndPositionsAndOffsets => true,
            _ => false,
        }
    }
}

impl DocValuesType {
    pub open spec fn spec_ordinal(self) -> u8 {
        match self {
            DocValuesType::NoValues => 0,
            DocValuesType::Numeric => 1,
            DocValuesType::Binary => 2,
            DocValuesType::Sorted => 3,
            DocValuesType::SortedSet => 4,
            DocValuesType::SortedNumeric => 5,
        }
    }

    /// The byte that stands for it.
    #[verifier::when_used_as_spec(spec_ordinal)]
    pub fn ordinal(self) -> (r: u8)
        ensures
            r == self.spec_ordinal(),
    {
        match self {
            DocValuesType::NoValues => 0,
            DocValuesType::Numeric => 1,
            DocValuesType::Binary => 2,
            DocValuesType::Sorted => 3,
            DocValuesType::SortedSet => 4,
            DocValuesType::SortedNumeric => 5,
        }
    }
}

impl VectorEncoding {
    pub open spec fn spec_ordinal(self) -> u8 {
        match self {
            VectorEncoding::Byte => 0,
            VectorEncoding::Float32 => 1,
        }
    }

    /// The byte that stands for it.
    #[verifier::when_used_as_spec(spec_ordinal)]
    pub fn ordinal(self) -> (r: u8)
        ensures
            r == self.spec_ordinal(),
    {
        match self {
            VectorEncoding::Byte => 0,
            VectorEncoding::Float32 => 1,
        }
    }
}

impl VectorSimilarity {
    pub open spec fn spec_ordinal(self) -> u8 {
        match self {
            VectorSimilarity::Euclidean => 0,
            VectorSimilarity::DotProduct => 1,
            VectorSimilarity::Cosine => 2,
            VectorSimilarity::MaximumInnerProduct => 3,
        }
    }

    /// The byte that stands for it.
    #[verifier::when_used_as_spec(spec_ordinal)]
    pub fn ordinal(self) -> (r: u8)
        ensures
            r == self.spec_ordinal(),
    {
        match self {
            VectorSimilarity::Euclidean => 0,
            VectorSimilarity::DotProduct => 1,
            VectorSimilarity::Cosine => 2,
            VectorSimilarity::MaximumInnerProduct => 3,
        }
    }
}

/// What is known of one field.
pub struct FieldInfo {
    pub name: String,
    pub number: i32,
    pub store_termvector: bool,
    pub omit_norms: bool,
    pub store_payloads: bool,
    pub soft_deletes: bool,
    pub parent_field: bool,
    pub index_options: IndexOptions,
    pub doc_values_type: DocValuesType,
    /// -1 where the values per document were never updated.
    pub doc_values_gen: i64,
    pub attributes: StringMap,
    pub point_dimension_count: i32,
    pub point_index_dimension_count: i32,
    pub point_num_bytes: i32,
    pub vector_dimension: i32,
    pub vector_encoding: VectorEncoding,
    pub vector_similarity: VectorSimilarity,
}

pub open spec fn flag(on: bool, bit: u8) -> int {
    if on {
        bit as int
    } else {
        0
    }
}

/// The flags of a field in one byte.
pub open spec fn field_bits(f: FieldInfo) -> u8 {
    (flag(f.store_termvector, STORE_TERMVECTOR) + flag(f.omit_norms, OMIT_NORMS) + flag(f.store_payloads, STORE_PAYLOADS) + flag(f.soft_deletes, SOFT_DELETES_FIELD) + flag(
        f.parent_field,
        PARENT_FIELD_FIELD,
    )) as u8
}

impl FieldInfo {
    /// A field that is stored and nothing else.
    pub fn stored(name: &str, number: i32) -> (r: Self)
        ensures
            r.name@ == name@,
            r.number == number,
            !r.store_termvector && !r.omit_norms && !r.store_payloads && !r.soft_deletes && !r.parent_field,
            r.index_options == IndexOptions::NotIndexed,
            r.doc_values_type == DocValuesType::NoValues,
            r.doc_values_gen == -1,
            r.attributes.pairs() == Seq::<(Seq<char>, Seq<char>)>::empty(),
            r.point_dimension_count == 0 && r.point_index_dimension_count == 0 && r.point_num_bytes == 0,
            r.vector_dimension == 0,
            r.vector_encoding == VectorEncoding::Float32,
            r.vector_similarity == VectorSimilarity::Euclidean,
    {
        FieldInfo {
            name: name.to_owned(),
            number,
            store_termvector: false,
            omit_norms: false,
            store_payloads: false,
            soft_deletes: false,
            parent_field: false,
            index_options: IndexOptions::NotIndexed,
            doc_values_type: DocValuesType::NoValues,
            doc_values_gen: -1,
            attributes: StringMap::new(),
            point_dimension_count: 0,
            point_index_dimension_count: 0,
            point_num_bytes: 0,
            vector_dimension: 0,
            vector_encoding: VectorEncoding::Float32,
            vector_similarity: VectorSimilarity::Euclidean,
        }
    }

    /// The flags in one byte.
    pub fn bits(&self) -> (r: u8)
        ensures
            r == field_bits(*self),
    {
        let mut bits: u8 = 0;
        if self.store_termvector {
            bits = bits + STORE_TERMVECTOR;
        }
        if self.omit_norms {
            bits = bits + OMIT_NORMS;
        }
        if self.store_payloads {
            bits = bits + STORE_PAYLOADS;
        }
        if self.soft_deletes {
            bits = bits + SOFT_DELETES_FIELD;
        }
        if self.parent_field {
            bits = bits + PARENT_FIELD_FIELD;
        }
        bits
    }

    /// Appends the field's entry.
    fn write_to(&self, out: &mut ChecksumIndexOutput) -> (r: Result<(), Error>)
        ensures
            final(out).since() == old(out).since(),
            r is Ok,
            final(out).written() == old(out).written() + field_bytes(*self),
    {
        broadcast use lemma_concat_assoc;
        let ghost base = out.written();
        out.write_string(self.name.as_str())?;
        out.write_vint(self.number)?;
        out.write_byte(self.bits())?;
        out.write_byte(self.index_options.ordinal())?;
        out.write_byte(self.doc_values_type.ordinal())?;
        out.write_long(self.doc_values_gen)?;
        out.write_map_of_strings(&self.attributes)?;
        out.write_vint(self.point_dimension_count)?;
        if self.point_dimension_count != 0 {
            out.write_vint(self.point_index_dimension_count)?;
            out.write_vint(self.point_num_bytes)?;
        } else {
            assert(out.written() + Seq::<u8>::empty() =~= out.written());
        }
        out.write_vint(self.vector_dimension)?;
        out.write_byte(self.vector_encoding.ordinal())?;
        out.write_byte(self.vector_similarity.ordinal())?;
        assert(out.written() == base + field_bytes(*self));
        Ok(())
    }
}

/// A field's entry.
pub open spec fn field_bytes(f: FieldInfo) -> Seq<u8> {
    string_bytes(f.name@) + vint_bytes(f.number) + seq![field_bits(f)] + seq![f.index_options.spec_ordinal()] + seq![f.doc_values_type.spec_ordinal()] + long_bytes(f.doc_values_gen)
        + string_map_bytes(f.attributes.pairs()) + vint_bytes(f.point_dimension_count) + (if f.point_dimension_count != 0 {
        vint_bytes(f.point_index_dimension_count) + vint_bytes(f.point_num_bytes)
    } else {
        Seq::empty()
    }) + vint_bytes(f.vector_dimension) + seq![f.vector_encoding.spec_ordinal()] + seq![f.vector_similarity.spec_ordinal()]
}

/// The entries of the first `n` fields.
pub open spec fn fields_bytes(fields: Seq<FieldInfo>, n: int) -> Seq<u8>
    decreases n,
{
    if n <= 0 {
        Seq::empty()
    } else {
        fields_bytes(fields, n - 1) + field_bytes(fields[n - 1])
    }
}

/// The file up to the footer.
pub open spec fn infos_body(fields: Seq<FieldInfo>, id: Seq<u8>, suffix: Seq<char>) -> Seq<u8> {
    index_header_bytes(CODEC_NAME@, FORMAT_CURRENT, id, suffix) + vint_of(fields.len() as int) + fields_bytes(fields, fields.len() as int)
}

/// The fields of a segment.
pub struct FieldInfos {
    pub fields: Vec<FieldInfo>,
}

impl FieldInfos {
    pub fn new(fields: Vec<FieldInfo>) -> (r: Self)
        ensures
            r.fields == fields,
    {
        FieldInfos { fields }
    }

    /// The first field of that name.
    pub fn by_name(&self, name: &str) -> (r: Option<&FieldInfo>)
        ensures
            match r {
                Some(f) => exists|i: int| 0 <= i < self.fields@.len() && *f == #[trigger] self.fields@[i] && f.name@ == name@ && forall|j: int| 0 <= j < i ==> (#[trigger] self.fields@[j]).name@
                    != name@,
                None => forall|i: int| 0 <= i < self.fields@.len() ==> (#[trigger] self.fields@[i]).name@ != name@,
            },
    {
        let mut i: usize = 0;
        while i < self.fields.len()
            invariant
                i <= self.fields@.len(),
                forall|j: int| 0 <= j < i ==> (#[trigger] self.fields@[j]).name@ != name@,
            decreases self.fields@.len() - i,
        {
            proof {
                lemma_utf8_injective(self.fields@[i as int].name@, name@);
            }
            if bytes_equal(self.fields[i].name.as_str().as_bytes(), name.as_bytes()) {
                return Some(&self.fields[i]);
            }
            i = i + 1;
        }
        None
    }

    /// The first field of that number.
    pub fn by_number(&self, number: i32) -> (r: Option<&FieldInfo>)
        ensures
            match r {
                Some(f) => exists|i: int| 0 <= i < self.fields@.len() && *f == #[trigger] self.fields@[i] && f.number == number && forall|j: int| 0 <= j < i ==> (#[trigger] self.fields@[j]).number
                    != number,
                None => forall|i: int| 0 <= i < self.fields@.len() ==> (#[trigger] self.fields@[i]).number != number,
            },
    {
        let mut i: usize = 0;
        while i < self.fields.len()
            invariant
                i <= self.fields@.len(),
                forall|j: int| 0 <= j < i ==> (#[trigger] self.fields@[j]).number != number,
            decreases self.fields@.len() - i,
        {
            if self.fields[i].number == number {
                return Some(&self.fields[i]);
            }
            i = i + 1;
        }
        None
    }

    /// The file of field infos: segment and suffix, with the extension.
    pub fn write(&self, segment: &str, segment_id: &[u8; 16], suffix: &str) -> (r: Result<SegmentFile, Error>)
        requires
            encode_utf8(suffix@).len() < 256,
        ensures
            r is Ok,
            r->Ok_0.name@ == segment@ + suffix@ + "."@ + EXTENSION@,
            r->Ok_0.bytes@ == infos_body(self.fields@, segment_id@, suffix@) + footer_bytes(infos_body(self.fields@, segment_id@, suffix@)),
    {
        proof {
            reveal_strlit("Lucene94FieldInfos");
            vstd::utf8::is_ascii_chars_encode_utf8(CODEC_NAME@);
        }
        let mut name = segment.to_owned();
        name.append(suffix);
        name.append(".");
        name.append(EXTENSION);
        let mut out = ChecksumIndexOutput::new(IndexOutput::in_memory());
        write_index_header(&mut out, CODEC_NAME, FORMAT_CURRENT, segment_id, suffix)?;
        put_vint(&mut out, self.fields.len() as u128)?;
        let ghost base = out.written();
        let mut i: usize = 0;
        assert(base + fields_bytes(self.fields@, 0) =~= base);
        while i < self.fields.len()
            invariant
                i <= self.fields@.len(),
                out.written() == base + fields_bytes(self.fields@, i as int),
                out.since() == 0,
            decreases self.fields@.len() - i,
        {
            self.fields[i].write_to(&mut out)?;
            proof {
                lemma_concat_assoc(base, fields_bytes(self.fields@, i as int), field_bytes(self.fields@[i as int]));
            }
            i = i + 1;
        }
        assert(out.written() =~= infos_body(self.fields@, segment_id@, suffix@));
        write_footer(&mut out)?;
        Ok(SegmentFile { name, bytes: out.into_bytes() })
    }
}

} // verus!
