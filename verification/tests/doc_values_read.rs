//! Reading of doc values.

use codec_lucene9::codec_util::index_header_length;
use codec_lucene9::doc_values::{DocValuesWriter, DATA_CODEC, META_CODEC};
use codec_lucene9::doc_values_read::DocValuesReader;
use codec_lucene9::error::{Error, ErrorKind};
use codec_lucene9::io::crc32;

const SEGMENT_ID: [u8; 16] = [0x5A; 16];
const SUFFIX: &str = "Lucene90_0";

struct Index {
    dvd: Vec<u8>,
    dvm: Vec<u8>,
}

fn write_index(f: impl FnOnce(&mut DocValuesWriter)) -> Index {
    let mut w = DocValuesWriter::new("_0", &SEGMENT_ID, SUFFIX).unwrap();
    f(&mut w);
    let files = w.finish().unwrap();
    Index { dvd: files[0].bytes.clone(), dvm: files[1].bytes.clone() }
}

fn open(index: &Index) -> Result<DocValuesReader, Error> {
    DocValuesReader::open(index.dvd.clone(), index.dvm.clone(), &SEGMENT_ID, SUFFIX)
}

#[test]
fn numeric_dense_sparse_empty() {
    let max_doc = 200_000u32;
    let constant: Vec<(u32, i64)> = (0..1000).map(|d| (d, 42)).collect();
    let mut sparse: Vec<(u32, i64)> = vec![(5, -7), (100, 8), (4095, 9)];
    for i in 0..5000u32 {
        sparse.push((65536 + i, i as i64 * 3));
    }
    for i in 0..65536u32 {
        sparse.push((131072 + i, -1));
    }
    let root = write_index(|w| {
        w.add_numeric_field(0, max_doc, &constant).unwrap();
        w.add_numeric_field(1, max_doc, &sparse).unwrap();
        w.add_numeric_field(2, max_doc, &[]).unwrap();
    });
    let r = open(&root).unwrap();
    assert_eq!(r.numeric_values(0).unwrap(), constant);
    assert_eq!(r.numeric_values(1).unwrap(), sparse);
    assert_eq!(r.numeric_values(2).unwrap(), Vec::<(u32, i64)>::new());
}

#[test]
fn sorted_dict_and_ords() {
    let dict: Vec<String> = (0..150).map(|i| format!("term-{i:04}")).collect();
    let dict_refs: Vec<&[u8]> = dict.iter().map(|s| s.as_bytes()).collect();
    let ords: Vec<(u32, u32)> = (0..300u32)
        .filter(|d| d % 3 != 0)
        .enumerate()
        .map(|(i, d)| (d, (i % 150) as u32))
        .collect();
    let root = write_index(|w| {
        w.add_sorted_field(0, 300, &dict_refs, &ords).unwrap();
    });
    let r = open(&root).unwrap();
    let got_dict = r.sorted_dict(0).unwrap();
    assert_eq!(got_dict.len(), 150);
    for (got, want) in got_dict.iter().zip(dict.iter()) {
        assert_eq!(got, want.as_bytes());
    }
    assert_eq!(r.sorted_ords(0).unwrap(), ords);
}

#[test]
fn empty_sorted_field() {
    let root = write_index(|w| {
        w.add_sorted_field(1, 10, &[], &[]).unwrap();
    });
    let r = open(&root).unwrap();
    assert!(r.sorted_dict(1).unwrap().is_empty());
    assert!(r.sorted_ords(1).unwrap().is_empty());
}

fn dvm_bpv_offset() -> usize {
    index_header_length(META_CODEC, SUFFIX) + 4 + 1 + 8 + 8 + 2 + 1 + 8 + 4
}

fn rewrite_dvm_crc(bytes: &mut [u8]) {
    let n = bytes.len();
    let crc = crc32(&bytes[..n - 8]);
    bytes[n - 8..].copy_from_slice(&crc.to_be_bytes());
}

fn dvm_num_values_offset() -> usize {
    index_header_length(META_CODEC, SUFFIX) + 4 + 1 + 8 + 8 + 2 + 1
}

fn dvm_docs_offset() -> usize {
    index_header_length(META_CODEC, SUFFIX) + 4 + 1
}

fn dvm_values_offset_offset() -> usize {
    dvm_bpv_offset() + 1 + 8 + 8
}

fn dvm_values_length_offset() -> usize {
    dvm_values_offset_offset() + 8
}

#[test]
fn corrupt_dvd_truncated_open_fails() {
    let root = write_index(|w| {
        w.add_numeric_field(0, 100, &[(0, 1), (50, 2)]).unwrap();
    });
    let header_len = index_header_length(DATA_CODEC, SUFFIX);
    let root = Index { dvd: root.dvd[..header_len + 1].to_vec(), dvm: root.dvm };
    let err = open(&root).err().unwrap();
    assert_eq!(err.kind(), ErrorKind::InvalidData);
}

#[test]
fn corrupt_bpv_numeric_values_fails() {
    let root = write_index(|w| {
        w.add_numeric_field(0, 100, &[(0, 1), (50, 2)]).unwrap();
    });
    let mut bytes = root.dvm.clone();
    bytes[dvm_bpv_offset()] = 7;
    rewrite_dvm_crc(&mut bytes);
    let root = Index { dvd: root.dvd, dvm: bytes };

    let r = open(&root).unwrap();
    let err = r.numeric_values(0).unwrap_err();
    assert_eq!(err.kind(), ErrorKind::InvalidData);
}

#[test]
fn corrupt_docs_length_numeric_values_fails() {
    let root = write_index(|w| {
        w.add_numeric_field(0, 100, &[(0, 1), (50, 2)]).unwrap();
    });
    let mut bytes = root.dvm.clone();
    let docs_length_offset = index_header_length(META_CODEC, SUFFIX) + 4 + 1 + 8;
    bytes[docs_length_offset..docs_length_offset + 8].copy_from_slice(&u64::MAX.to_le_bytes());
    rewrite_dvm_crc(&mut bytes);
    let root = Index { dvd: root.dvd, dvm: bytes };

    let r = open(&root).unwrap();
    let err = r.numeric_values(0).unwrap_err();
    assert_eq!(err.kind(), ErrorKind::InvalidData);
}

#[test]
fn corrupt_bpv_sorted_ords_fails() {
    let dict: Vec<String> = (0..10).map(|i| format!("t{i}")).collect();
    let dict_refs: Vec<&[u8]> = dict.iter().map(|s| s.as_bytes()).collect();
    let ords: Vec<(u32, u32)> = (0..20u32).map(|d| (d, d % 10)).collect();
    let root = write_index(|w| {
        w.add_sorted_field(0, 20, &dict_refs, &ords).unwrap();
    });
    let mut bytes = root.dvm.clone();
    bytes[dvm_bpv_offset()] = 7;
    rewrite_dvm_crc(&mut bytes);
    let root = Index { dvd: root.dvd, dvm: bytes };

    let r = open(&root).unwrap();
    let err = r.sorted_ords(0).unwrap_err();
    assert_eq!(err.kind(), ErrorKind::InvalidData);
}

#[test]
fn corrupt_num_values_overflow_fails() {
    let root = write_index(|w| {
        w.add_numeric_field(0, 100, &[(0, 1), (50, 2)]).unwrap();
    });
    let mut bytes = root.dvm.clone();
    bytes[dvm_docs_offset()..dvm_docs_offset() + 8].copy_from_slice(&(-2i64).to_le_bytes());
    bytes[dvm_num_values_offset()..dvm_num_values_offset() + 8]
        .copy_from_slice(&u64::MAX.to_le_bytes());
    bytes[dvm_bpv_offset()] = 64;
    rewrite_dvm_crc(&mut bytes);
    let root = Index { dvd: root.dvd, dvm: bytes };

    let r = open(&root).unwrap();
    let err = r.numeric_values(0).unwrap_err();
    assert_eq!(err.kind(), ErrorKind::InvalidData);
}

#[test]
fn corrupt_values_bounds_overflow_fails() {
    let root = write_index(|w| {
        w.add_numeric_field(0, 100, &[(0, 1), (50, 2)]).unwrap();
    });
    let mut bytes = root.dvm.clone();
    bytes[dvm_values_offset_offset()..dvm_values_offset_offset() + 8]
        .copy_from_slice(&i64::MAX.to_le_bytes());
    bytes[dvm_values_length_offset()..dvm_values_length_offset() + 8]
        .copy_from_slice(&i64::MAX.to_le_bytes());
    rewrite_dvm_crc(&mut bytes);
    let root = Index { dvd: root.dvd, dvm: bytes };

    let r = open(&root).unwrap();
    let err = r.numeric_values(0).unwrap_err();
    assert_eq!(err.kind(), ErrorKind::InvalidData);
}

#[test]
fn corrupt_docs_count_mismatch_fails() {
    let root = write_index(|w| {
        w.add_numeric_field(0, 100, &[(0, 1), (50, 2)]).unwrap();
    });
    let mut bytes = root.dvm.clone();
    bytes[dvm_num_values_offset()..dvm_num_values_offset() + 8]
        .copy_from_slice(&1u64.to_le_bytes());
    rewrite_dvm_crc(&mut bytes);
    let root = Index { dvd: root.dvd, dvm: bytes };

    let r = open(&root).unwrap();
    let err = r.numeric_values(0).unwrap_err();
    assert_eq!(err.kind(), ErrorKind::InvalidData);
}

/// Where the terms of a dictionary of one block are, and their length, from
/// the entry of the first field.
fn terms_data(dvm: &[u8]) -> (usize, usize) {
    let terms_entry = dvm_values_length_offset() + 8 + 8;
    let at = terms_entry + 1 + 4 + 21 + 4 + 4;
    let long = |p: usize| u64::from_le_bytes(dvm[p..p + 8].try_into().unwrap()) as usize;
    (long(at), long(at + 8))
}

#[test]
fn corrupt_terms_dict_prefix_overflow_fails() {
    let dict: Vec<String> = vec!["aaa".into(), "aab".into()];
    let dict_refs: Vec<&[u8]> = dict.iter().map(|s| s.as_bytes()).collect();
    let ords: Vec<(u32, u32)> = vec![(0, 0), (1, 1)];
    let root = write_index(|w| {
        w.add_sorted_field(0, 2, &dict_refs, &ords).unwrap();
    });
    let mut bytes = root.dvd.clone();
    let (off, len) = terms_data(&root.dvm);
    let region = &bytes[off..off + len];
    assert_eq!(region[0], 3, "first term len"); // "aaa"
    let p = 1 + 3;
    assert_eq!(region[p], 2, "uncompressed length");
    let old_compressed = &region[p + 1..];
    let malicious = lz4::block::compress(
        &[0x05u8, b'z'],
        Some(lz4::block::CompressionMode::FAST(2)),
        false,
    )
    .unwrap();
    assert_eq!(
        malicious.len(),
        old_compressed.len(),
        "the replacement has the same length"
    );
    bytes[off + p + 1..off + len].copy_from_slice(&malicious);
    let root = Index { dvd: bytes, dvm: root.dvm };

    let r = open(&root).unwrap();
    let err = r.sorted_dict(0).unwrap_err();
    assert_eq!(err.kind(), ErrorKind::InvalidData);
}

#[test]
fn test_binary_dv_write_read() {
    let root = write_index(|w| {
        let values = vec![
            (0u32, b"hello".to_vec()),
            (1u32, b"world!!".to_vec()),
            (2u32, b"".to_vec()),
        ];
        w.add_binary_field(0, 3, &values).unwrap();
    });
    let r = open(&root).unwrap();
    let bins = r.binary_values(0).unwrap();
    assert_eq!(bins.len(), 3);
    assert_eq!(bins[0], (0, b"hello".to_vec()));
    assert_eq!(bins[1], (1, b"world!!".to_vec()));
    assert_eq!(bins[2], (2, b"".to_vec()));
}

#[test]
fn test_binary_dv_fixed_length() {
    let root = write_index(|w| {
        let values = vec![
            (0u32, vec![0xDE, 0xAD]),
            (1u32, vec![0xBE, 0xEF]),
        ];
        w.add_binary_field(0, 2, &values).unwrap();
    });
    let r = open(&root).unwrap();
    let bins = r.binary_values(0).unwrap();
    assert_eq!(bins.len(), 2);
    assert_eq!(bins[0], (0, vec![0xDE, 0xAD]));
    assert_eq!(bins[1], (1, vec![0xBE, 0xEF]));
}

#[test]
fn test_binary_dv_sparse() {
    let root = write_index(|w| {
        let values = vec![
            (1u32, b"aaa".to_vec()),
            (3u32, b"bbbbb".to_vec()),
        ];
        w.add_binary_field(0, 5, &values).unwrap();
    });
    let r = open(&root).unwrap();
    let bins = r.binary_values(0).unwrap();
    assert_eq!(bins.len(), 2);
    assert_eq!(bins[0], (1, b"aaa".to_vec()));
    assert_eq!(bins[1], (3, b"bbbbb".to_vec()));
}

fn assert_binary_iter_matches(r: &DocValuesReader, field: i32) {
    let want = r.binary_values(field).unwrap();
    let mut it = r.binary_doc_values(field).unwrap();
    assert_eq!(it.len(), want.len());
    assert_eq!(it.is_empty(), want.is_empty());
    let mut got: Vec<(u32, Vec<u8>)> = Vec::with_capacity(it.len());
    while let Some((doc, bytes)) = it.next() {
        got.push((doc, bytes.to_vec()));
    }
    assert_eq!(got, want);
    assert!(it.next().is_none(), "exhausted iterator stays exhausted");
}

#[test]
fn binary_doc_values_variable_length() {
    let root = write_index(|w| {
        let values = vec![
            (0u32, b"hello".to_vec()),
            (1u32, b"world!!".to_vec()),
            (2u32, b"".to_vec()),
        ];
        w.add_binary_field(0, 3, &values).unwrap();
    });
    let r = open(&root).unwrap();
    assert_binary_iter_matches(&r, 0);
}

#[test]
fn binary_doc_values_fixed_length() {
    let root = write_index(|w| {
        let values = vec![
            (0u32, vec![0xDE, 0xAD]),
            (1u32, vec![0xBE, 0xEF]),
        ];
        w.add_binary_field(0, 2, &values).unwrap();
    });
    let r = open(&root).unwrap();
    assert_binary_iter_matches(&r, 0);
}

#[test]
fn binary_doc_values_sparse() {
    let root = write_index(|w| {
        let values = vec![
            (1u32, b"aaa".to_vec()),
            (3u32, b"bbbbb".to_vec()),
            (7u32, b"c".to_vec()),
        ];
        w.add_binary_field(0, 10, &values).unwrap();
    });
    let r = open(&root).unwrap();
    assert_binary_iter_matches(&r, 0);
}

#[test]
fn binary_doc_values_empty_field() {
    let root = write_index(|w| {
        w.add_binary_field(0, 5, &[]).unwrap();
    });
    let r = open(&root).unwrap();
    let mut it = r.binary_doc_values(0).unwrap();
    assert_eq!(it.len(), 0);
    assert!(it.is_empty());
    assert!(it.next().is_none());
    assert_binary_iter_matches(&r, 0);
}

#[test]
fn binary_doc_values_missing_field_not_found() {
    let root = write_index(|w| {
        w.add_binary_field(0, 1, &[(0u32, b"x".to_vec())]).unwrap();
    });
    let r = open(&root).unwrap();
    let err = r.binary_doc_values(7).err().unwrap();
    assert_eq!(err.kind(), ErrorKind::NotFound);
}

#[test]
fn sorted_doc_values_matches_dict_and_ords() {
    let dict: Vec<String> = (0..150).map(|i| format!("term-{i:04}")).collect();
    let dict_refs: Vec<&[u8]> = dict.iter().map(|s| s.as_bytes()).collect();
    let ords: Vec<(u32, u32)> = (0..300u32)
        .filter(|d| d % 3 != 0)
        .enumerate()
        .map(|(i, d)| (d, (i % 150) as u32))
        .collect();
    let root = write_index(|w| {
        w.add_sorted_field(0, 300, &dict_refs, &ords).unwrap();
    });
    let r = open(&root).unwrap();

    let want_dict = r.sorted_dict(0).unwrap();
    let want_ords = r.sorted_ords(0).unwrap();

    let mut it = r.sorted_doc_values(0).unwrap();
    assert_eq!(it.len(), want_ords.len());
    assert!(!it.is_empty());
    let mut got: Vec<(u32, Vec<u8>)> = Vec::with_capacity(it.len());
    while let Some((doc, term)) = it.next() {
        got.push((doc, term.to_vec()));
    }
    assert!(it.next().is_none());
    let want: Vec<(u32, Vec<u8>)> = want_ords
        .iter()
        .map(|&(d, o)| (d, want_dict[o as usize].clone()))
        .collect();
    assert_eq!(got, want);

    let (buf, offsets) = r.sorted_dict_packed(0).unwrap();
    assert_eq!(offsets.len(), want_dict.len());
    for (i, &(s, l)) in offsets.iter().enumerate() {
        assert_eq!(&buf[s as usize..(s + l) as usize], want_dict[i].as_slice());
    }
}

#[test]
fn sorted_doc_values_empty_field() {
    let root = write_index(|w| {
        w.add_sorted_field(1, 10, &[], &[]).unwrap();
    });
    let r = open(&root).unwrap();
    let mut it = r.sorted_doc_values(1).unwrap();
    assert_eq!(it.len(), 0);
    assert!(it.is_empty());
    assert!(it.next().is_none());
}
