//! Statistics, impacts and states of terms.

use codec_lucene9::block_tree::{empty_state, encode_term, StatsWriter, TermState};
use codec_lucene9::doc_postings::write_impacts;
use codec_lucene9::error::{Error, ErrorKind};
use codec_lucene9::io::{DataOutput, IndexOutput};

fn enc(f: impl FnOnce(&mut IndexOutput) -> Result<(), Error>) -> Vec<u8> {
    let mut out = IndexOutput::in_memory();
    f(&mut out).unwrap();
    out.into_bytes()
}

#[test]
fn stats_writer_runs() {
    let mut sw = StatsWriter::new(true);
    sw.add(1, 1).unwrap();
    sw.add(1, 1).unwrap();
    sw.add(3, 5).unwrap();
    sw.add(1, 1).unwrap();
    sw.finish().unwrap();
    let bytes = sw.into_bytes();
    let mut expect = Vec::new();
    expect.push(((2 - 1) << 1 | 1) as u8);
    expect.push((3 << 1) as u8);
    expect.push((5 - 3) as u8);
    expect.push((0 << 1 | 1) as u8);
    assert_eq!(bytes, expect);
}

#[test]
fn write_impacts_no_norms() {
    let bytes = enc(|o| write_impacts(o, &[(5, 1)]));
    assert_eq!(bytes, vec![(4 << 1) as u8]);
}

#[test]
fn encode_term_singleton_zigzag() {
    let mut last = empty_state();
    let s1 = TermState {
        doc_start_fp: 10,
        singleton_doc_id: 7,
        ..Default::default()
    };
    let s2 = TermState {
        doc_start_fp: 10,
        singleton_doc_id: 9,
        ..Default::default()
    };
    let mut out = IndexOutput::in_memory();
    encode_term(&mut out, &s1, &mut last, false).unwrap();
    encode_term(&mut out, &s2, &mut last, false).unwrap();
    let bytes = out.into_bytes();
    assert_eq!(bytes, vec![21, 7, 9]);
}

#[test]
fn encode_term_last_pos_block_offset() {
    let mut last = empty_state();
    let s = TermState {
        doc_start_fp: 0,
        pos_start_fp: 0,
        last_pos_block_offset: 1234,
        singleton_doc_id: -1,
    };
    let mut out = IndexOutput::in_memory();
    encode_term(&mut out, &s, &mut last, true).unwrap();
    let bytes = out.into_bytes();
    assert_eq!(bytes[0], 0);
    assert_eq!(bytes[1], 0);
    assert_eq!(&bytes[2..], &[0xD2, 0x09]);
}

#[test]
fn places_that_do_not_follow_are_refused() {
    let state = |doc_start_fp: u64, pos_start_fp: u64| TermState {
        doc_start_fp,
        pos_start_fp,
        last_pos_block_offset: -1,
        singleton_doc_id: -1,
    };
    let mut last = state(100, 40);
    let mut out = IndexOutput::in_memory();
    assert_eq!(encode_term(&mut out, &state(50, 60), &mut last, true).unwrap_err().kind(), ErrorKind::InvalidInput);
    assert_eq!(out.file_pointer(), 0);
    assert_eq!(encode_term(&mut out, &state(120, 30), &mut last, true).unwrap_err().kind(), ErrorKind::InvalidInput);
    assert_eq!((last.doc_start_fp, last.pos_start_fp), (100, 40));
    encode_term(&mut out, &state(120, 30), &mut last, false).unwrap();
    assert_eq!((last.doc_start_fp, last.pos_start_fp), (120, 30));
    assert_eq!(out.into_bytes(), vec![40, 40]);
}

#[test]
fn fewer_occurrences_than_documents_are_refused() {
    let mut sw = StatsWriter::new(true);
    sw.add(1, 1).unwrap();
    assert_eq!(sw.add(3, 2).unwrap_err().kind(), ErrorKind::InvalidInput);
    assert_eq!(sw.into_bytes(), vec![1, 6]);
    let mut sw = StatsWriter::new(false);
    sw.add(3, 2).unwrap();
    assert_eq!(sw.into_bytes(), vec![6]);
}
