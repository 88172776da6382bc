//! Field infos.

use codec_lucene9::codec_util::{index_header_length, FOOTER_LENGTH};
use codec_lucene9::field_infos::{DocValuesType, FieldInfo, FieldInfos, IndexOptions, VectorEncoding, VectorSimilarity, OMIT_NORMS, STORE_PAYLOADS, STORE_TERMVECTOR};
use codec_lucene9::io::{ChecksumIndexOutput, DataOutput, IndexOutput};

#[test]
fn enum_ordinals() {
    assert_eq!(IndexOptions::NotIndexed.ordinal(), 0);
    assert_eq!(IndexOptions::DocsAndFreqsAndPositionsAndOffsets.ordinal(), 4);
    assert_eq!(DocValuesType::NoValues.ordinal(), 0);
    assert_eq!(DocValuesType::SortedNumeric.ordinal(), 5);
    assert_eq!(VectorEncoding::Byte.ordinal(), 0);
    assert_eq!(VectorEncoding::Float32.ordinal(), 1);
    assert_eq!(VectorSimilarity::Euclidean.ordinal(), 0);
    assert_eq!(VectorSimilarity::MaximumInnerProduct.ordinal(), 3);
}

#[test]
fn bits_byte() {
    let fi = FieldInfo::stored("body", 0);
    assert_eq!(fi.bits(), 0);
    let fi = FieldInfo {
        omit_norms: true,
        index_options: IndexOptions::Docs,
        ..FieldInfo::stored("f", 1)
    };
    assert_eq!(fi.bits(), OMIT_NORMS);
    let fi = FieldInfo {
        store_termvector: true,
        store_payloads: true,
        index_options: IndexOptions::DocsAndFreqsAndPositions,
        ..FieldInfo::stored("f", 1)
    };
    assert_eq!(fi.bits(), STORE_TERMVECTOR | STORE_PAYLOADS);
}

#[test]
fn stored_field_layout() {
    let fi = FieldInfo::stored("body", 3);
    let mut out = ChecksumIndexOutput::new(IndexOutput::in_memory());
    out.write_string(&fi.name).unwrap();
    out.write_vint(fi.number).unwrap();
    out.write_byte(fi.bits()).unwrap();
    out.write_byte(fi.index_options.ordinal()).unwrap();
    out.write_byte(fi.doc_values_type.ordinal()).unwrap();
    out.write_long(fi.doc_values_gen).unwrap();
    out.write_map_of_strings(&fi.attributes).unwrap();
    out.write_vint(fi.point_dimension_count).unwrap();
    out.write_vint(fi.vector_dimension).unwrap();
    out.write_byte(fi.vector_encoding.ordinal()).unwrap();
    out.write_byte(fi.vector_similarity.ordinal()).unwrap();
    let bytes = out.into_bytes();
    assert_eq!(
        bytes,
        vec![
            4, b'b', b'o', b'd', b'y',
            3,
            0,
            0,
            0,
            0xff, 0xff, 0xff, 0xff, 0xff, 0xff, 0xff, 0xff,
            0,
            0,
            0,
            1,
            0,
        ]
    );
}

#[test]
fn fields_by_name_and_number() {
    let infos = FieldInfos::new(vec![FieldInfo::stored("a", 4), FieldInfo::stored("b", 2), FieldInfo::stored("a", 7)]);
    assert_eq!(infos.by_name("a").unwrap().number, 4);
    assert_eq!(infos.by_number(7).unwrap().name, "a");
    assert!(infos.by_name("c").is_none());
    assert!(infos.by_number(0).is_none());
}

#[test]
fn field_infos_file_has_header_fields_and_footer() {
    let infos = FieldInfos::new(vec![FieldInfo::stored("body", 3)]);
    let file = infos.write("_0", &[1; 16], "").unwrap();
    assert_eq!(file.name, "_0.fnm");
    let header = index_header_length("Lucene94FieldInfos", "");
    assert_eq!(file.bytes.len(), header + 1 + 22 + FOOTER_LENGTH);
    assert_eq!(&file.bytes[header..header + 6], &[1, 4, b'b', b'o', b'd', b'y']);
}
