//! Random access to doc values.

use codec_lucene9::doc_values::DocValuesWriter;
use codec_lucene9::doc_values_reader::{NumericDocValuesReader, SortedDocValuesReader};

const SEGMENT_ID: [u8; 16] = [0xA1; 16];
const SUFFIX: &str = "Lucene90_0";

fn round_trip(
    max_doc: u32,
    values: &[(u32, i64)],
    check_docs: &[u32],
) {
    let mut w = DocValuesWriter::new("_0", &SEGMENT_ID, SUFFIX).unwrap();
    w.add_numeric_field(3, max_doc, values).unwrap();
    let files = w.finish().unwrap();
    let dvd = files[0].bytes.clone();
    let dvm = files[1].bytes.clone();

    let mut reader = NumericDocValuesReader::open(&dvm, &dvd, 3).unwrap();

    let expected: std::collections::BTreeMap<u32, i64> =
        values.iter().copied().collect();

    for &doc in check_docs {
        let got = reader.get(doc).unwrap();
        let want = expected.get(&doc).copied();
        assert_eq!(
            got, want,
            "get({doc}): got {got:?}, want {want:?}"
        );
    }

    for doc in 0..max_doc {
        let got = reader.get(doc).unwrap();
        let want = expected.get(&doc).copied();
        assert_eq!(
            got, want,
            "get({doc}): got {got:?}, want {want:?}"
        );
    }

    let batch_docs: Vec<u32> = (0..max_doc).collect();
    let batch = reader.get_batch(&batch_docs).unwrap();
    for (doc, got) in batch_docs.iter().zip(batch.iter()) {
        let want = expected.get(doc).copied();
        assert_eq!(*got, want, "get_batch({doc}): got {got:?}, want {want:?}");
    }
}

#[test]
fn all_docs_constant() {
    let max_doc = 100u32;
    let values: Vec<(u32, i64)> = (0..max_doc).map(|d| (d, 42)).collect();
    round_trip(max_doc, &values, &[0, 50, 99]);
}

#[test]
fn all_docs_linear() {
    let max_doc = 1000u32;
    let values: Vec<(u32, i64)> = (0..max_doc).map(|d| (d, d as i64 * 7 - 3000)).collect();
    round_trip(max_doc, &values, &[0, 500, 999]);
}

#[test]
fn all_docs_extreme_i64() {
    let max_doc = 100u32;
    let mut vals = vec![i64::MIN, i64::MAX, 0, -1, 1];
    vals.extend((5..max_doc).map(|d| (d as i64) << 40));
    let values: Vec<(u32, i64)> = vals.iter().enumerate().map(|(d, &v)| (d as u32, v)).collect();
    round_trip(max_doc, &values, &[0, 1, 2, 3, 4, 50]);
}

#[test]
fn sparse_mixed_blocks() {
    let max_doc = 200_000u32;
    let mut values: Vec<(u32, i64)> = Vec::new();

    for d in [5u32, 100, 4095] {
        values.push((d, d as i64 * 11 - 20_000));
    }
    for i in 0..5000u32 {
        let d = 65536 + i;
        values.push((d, d as i64 * 11 - 20_000));
    }
    for i in 0..65536u32 {
        let d = 131072 + i;
        values.push((d, d as i64 * 11 - 20_000));
    }
    let last_doc = 196608 + 42;
    values.push((last_doc, last_doc as i64 * 11 - 20_000));

    let check_docs = &[
        0,
        5,
        100,
        65536,
        65536 + 4999,
        131072,
        131072 + 32767,
        196608 - 1,
        last_doc,
        last_doc + 1,
    ];
    round_trip(max_doc, &values, check_docs);
}

#[test]
fn single_sparse_block() {
    let max_doc = 500u32;
    let values: Vec<(u32, i64)> = (0..100u32).map(|d| (d * 2, 7)).collect();
    round_trip(max_doc, &values, &[0, 1, 2, 198, 199]);
}

#[test]
fn block_one_only() {
    let max_doc = 200_000u32;
    let values: Vec<(u32, i64)> = (0..10u32).map(|d| (70000 + d, 1000 + d as i64)).collect();
    round_trip(max_doc, &values, &[0, 69999, 70000, 70009, 70010]);
}

#[test]
fn empty_field() {
    let max_doc = 10u32;
    let values: Vec<(u32, i64)> = vec![];
    round_trip(max_doc, &values, &[0, 5, 9]);
}

#[test]
fn field_not_found_is_error() {
    let mut w = DocValuesWriter::new("_0", &SEGMENT_ID, SUFFIX).unwrap();
    w.add_numeric_field(1, 10, &[(0, 42)]).unwrap();
    let files = w.finish().unwrap();
    let dvd = files[0].bytes.clone();
    let dvm = files[1].bytes.clone();

    assert!(NumericDocValuesReader::open(&dvm, &dvd, 99).is_err());
}

fn sorted_round_trip(
    max_doc: u32,
    dict: &[&[u8]],
    ords: &[(u32, u32)],
    check_docs: &[u32],
) {
    let mut w = DocValuesWriter::new("_0", &SEGMENT_ID, SUFFIX).unwrap();
    w.add_sorted_field(1, max_doc, dict, ords).unwrap();
    let files = w.finish().unwrap();
    let dvd = files[0].bytes.clone();
    let dvm = files[1].bytes.clone();

    let mut reader = SortedDocValuesReader::open(&dvm, &dvd, 1).unwrap();

    let ord_map: std::collections::BTreeMap<u32, u32> =
        ords.iter().map(|&(d, o)| (d, o)).collect();

    for &doc in check_docs {
        let got = reader.get_ord(doc).unwrap();
        let want = ord_map.get(&doc).copied();
        assert_eq!(
            got, want,
            "get_ord({doc}): got {got:?}, want {want:?}"
        );
    }

    for doc in 0..max_doc {
        let got = reader.get_ord(doc).unwrap();
        let want = ord_map.get(&doc).copied();
        assert_eq!(
            got, want,
            "get_ord({doc}): got {got:?}, want {want:?}"
        );
    }

    for ord in 0..dict.len() as u32 {
        let term = reader.lookup_ord(ord);
        assert_eq!(
            &term, dict[ord as usize],
            "lookup_ord({ord}): got {term:?}, want {:?}",
            dict[ord as usize]
        );
    }
}

#[test]
fn sorted_single_block() {
    let dict: Vec<String> = (0..50).map(|i| format!("term-{i:03}")).collect();
    let dict_refs: Vec<&[u8]> = dict.iter().map(|s| s.as_bytes()).collect();
    let ords: Vec<(u32, u32)> = (0..500u32).map(|d| (d, d % 50)).collect();
    sorted_round_trip(
        500,
        &dict_refs,
        &ords,
        &[0, 1, 49, 50, 250, 499],
    );
}

#[test]
fn sorted_multi_block_with_vint_extensions() {
    let dict150: Vec<String> = (0..150).map(|i| format!("term-{i:04}")).collect();
    let dict150_refs: Vec<&[u8]> = dict150.iter().map(|s| s.as_bytes()).collect();
    let ords150: Vec<(u32, u32)> = (0..300u32).map(|d| (d, d % 150)).collect();
    sorted_round_trip(
        300,
        &dict150_refs,
        &ords150,
        &[0, 75, 149, 150, 299],
    );

    let mut dict1030: Vec<String> = (0..700)
        .map(|i| format!("shared-prefix-is-here-{i:04}"))
        .collect();
    dict1030.extend((0..330).map(|i| format!("z{i:03}tail-padding-padding")));
    let dict1030_refs: Vec<&[u8]> = dict1030.iter().map(|s| s.as_bytes()).collect();
    let ords1030: Vec<(u32, u32)> = (0..2060u32).map(|d| (d, d % 1030)).collect();
    sorted_round_trip(
        2060,
        &dict1030_refs,
        &ords1030,
        &[0, 512, 1024, 1025, 1500, 2059],
    );
}

#[test]
fn sorted_sparse_ords() {
    let dict: Vec<String> = (0..8).map(|i| format!("color-{i}")).collect();
    let dict_refs: Vec<&[u8]> = dict.iter().map(|s| s.as_bytes()).collect();
    let max_doc = 100_000u32;
    let ords: Vec<(u32, u32)> = vec![
        (0, 0),
        (1000, 1),
        (2000, 4),
        (3000, 2),
        (4000, 5),
        (50000, 3),
        (65536, 6),
        (65537, 7),
        (90000, 3),
    ];
    sorted_round_trip(max_doc, &dict_refs, &ords, &[0, 1, 999, 1000, 65536]);
}

#[test]
fn sorted_all_docs_same_ord() {
    let dict: Vec<String> = vec!["only-term".to_string()];
    let dict_refs: Vec<&[u8]> = dict.iter().map(|s| s.as_bytes()).collect();
    let ords: Vec<(u32, u32)> = (0..1000u32).map(|d| (d, 0)).collect();
    sorted_round_trip(1000, &dict_refs, &ords, &[0, 500, 999]);
}

#[test]
fn sorted_empty_field() {
    let dict: Vec<&[u8]> = vec![];
    let ords: Vec<(u32, u32)> = vec![];
    sorted_round_trip(10, &dict, &ords, &[0, 5, 9]);
}

#[test]
fn sorted_field_not_found_is_error() {
    let mut w = DocValuesWriter::new("_0", &SEGMENT_ID, SUFFIX).unwrap();
    w.add_sorted_field(1, 10, &[b"hello"], &[(0, 0)])
        .unwrap();
    let files = w.finish().unwrap();
    let dvd = files[0].bytes.clone();
    let dvm = files[1].bytes.clone();

    assert!(SortedDocValuesReader::open(&dvm, &dvd, 99).is_err());
}
