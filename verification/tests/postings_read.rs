//! Reading of postings, with the terms looked up by a decoder of their own.

use codec_lucene9::block_tree::TermState;
use codec_lucene9::codec_util::{index_header_length, write_footer, write_index_header};
use codec_lucene9::error::ErrorKind;
use codec_lucene9::field_infos::{FieldInfo, FieldInfos, IndexOptions};
use codec_lucene9::io::{ChecksumIndexOutput, DataOutput, IndexOutput, SegmentFile};
use codec_lucene9::postings::PostingsWriter;
use codec_lucene9::postings_read::{DocsEnum, DocsFreqsEnum, PositionsEnum, PostingsReader, TermEntry, NO_MORE_DOCS};

struct Bytes<'a> {
    bytes: &'a [u8],
    pos: usize,
}

impl<'a> Bytes<'a> {
    fn at(bytes: &'a [u8], pos: usize) -> Self {
        Bytes { bytes, pos }
    }

    fn byte(&mut self) -> u8 {
        let b = self.bytes[self.pos];
        self.pos += 1;
        b
    }

    fn vlong(&mut self) -> u64 {
        let mut v = 0u64;
        let mut shift = 0;
        loop {
            let b = self.byte();
            v |= ((b & 0x7f) as u64) << shift;
            if b & 0x80 == 0 {
                return v;
            }
            shift += 7;
        }
    }

    fn take(&mut self, n: usize) -> &'a [u8] {
        let s = &self.bytes[self.pos..self.pos + n];
        self.pos += n;
        s
    }

    fn counted(&mut self) -> &'a [u8] {
        let n = self.vlong() as usize;
        self.take(n)
    }
}

fn zigzag_decode(v: u64) -> i64 {
    ((v >> 1) as i64) ^ -((v & 1) as i64)
}

/// Decodes the statistics of `n` terms.
fn decode_stats(bytes: &[u8], n: usize, has_freqs: bool) -> Vec<(u32, u64)> {
    let mut r = Bytes::at(bytes, 0);
    let mut out = Vec::new();
    while out.len() < n {
        let token = r.vlong();
        if token & 1 == 1 {
            for _ in 0..(token >> 1) + 1 {
                out.push((1, 1));
            }
        } else {
            let df = (token >> 1) as u32;
            let ttf = if has_freqs { df as u64 + r.vlong() } else { df as u64 };
            out.push((df, ttf));
        }
    }
    assert_eq!(out.len(), n);
    assert_eq!(r.pos, bytes.len());
    out
}

/// Decodes the group of blocks at `fp`, and the groups below it.
fn decode_group(tim: &[u8], fp: usize, prefix: &[u8], has_freqs: bool, has_positions: bool, out: &mut Vec<(Vec<u8>, TermEntry)>) {
    let mut r = Bytes::at(tim, fp);
    loop {
        let block_fp = r.pos;
        let code = r.vlong();
        let token = r.vlong();
        let leaf = token & 4 != 0;
        let suffixes = r.take((token >> 3) as usize);
        let lengths_code = r.vlong();
        let lengths = if lengths_code & 1 == 1 {
            vec![r.byte(); (lengths_code >> 1) as usize]
        } else {
            r.take((lengths_code >> 1) as usize).to_vec()
        };
        let stats = r.counted();
        let meta = r.counted();
        let mut lengths = Bytes::at(&lengths, 0);
        let mut suffixes = Bytes::at(suffixes, 0);
        let mut keys: Vec<(Vec<u8>, Option<usize>)> = Vec::new();
        for _ in 0..code >> 1 {
            let c = lengths.vlong();
            let (len, below) = if leaf {
                (c as usize, None)
            } else if c & 1 == 1 {
                let back = lengths.vlong() as usize;
                ((c >> 1) as usize, Some(block_fp - back))
            } else {
                ((c >> 1) as usize, None)
            };
            let mut key = prefix.to_vec();
            key.extend_from_slice(suffixes.take(len));
            keys.push((key, below));
        }
        let terms = keys.iter().filter(|k| k.1.is_none()).count();
        let mut stats = decode_stats(stats, terms, has_freqs).into_iter();
        let mut meta = Bytes::at(meta, 0);
        let mut last = TermState { doc_start_fp: 0, pos_start_fp: 0, last_pos_block_offset: -1, singleton_doc_id: -1 };
        for (key, below) in keys {
            match below {
                Some(sub) => decode_group(tim, sub, &key, has_freqs, has_positions, out),
                None => {
                    let (doc_freq, total_term_freq) = stats.next().unwrap();
                    let l = meta.vlong();
                    let mut state = last;
                    if l & 1 == 1 && last.singleton_doc_id != -1 {
                        state.singleton_doc_id = last.singleton_doc_id + zigzag_decode(l >> 1);
                    } else {
                        state.doc_start_fp += l >> 1;
                        state.singleton_doc_id = if l & 1 == 1 { meta.vlong() as i64 } else { -1 };
                    }
                    if has_positions {
                        state.pos_start_fp += meta.vlong();
                        let offset = meta.vlong() as i64;
                        state.last_pos_block_offset = if total_term_freq > 128 { offset } else { -1 };
                    }
                    last = state;
                    out.push((key, TermEntry { doc_freq, total_term_freq, state }));
                }
            }
        }
        assert_eq!(meta.pos, meta.bytes.len());
        if code & 1 == 1 {
            return;
        }
    }
}

struct Segment {
    files: Vec<SegmentFile>,
    infos: FieldInfos,
}

impl Segment {
    fn new(files: Vec<SegmentFile>, infos: FieldInfos) -> Self {
        Segment { files, infos }
    }

    fn file(&self, extension: &str) -> Option<Vec<u8>> {
        self.files.iter().find(|f| f.name.ends_with(extension)).map(|f| f.bytes.clone())
    }

    fn open(&self, id: &[u8; 16]) -> PostingsReader {
        PostingsReader::open(self.file(".psm").unwrap(), self.file(".doc").unwrap(), self.file(".pos"), id).unwrap()
    }

    /// All terms of a field, in the order of the dictionary.
    fn terms(&self, field: &str) -> Vec<(Vec<u8>, TermEntry)> {
        let tmd = self.file(".tmd").unwrap();
        let tim = self.file(".tim").unwrap();
        let start = index_header_length("BlockTreeTermsMeta", "Lucene912_0") + index_header_length("Lucene90PostingsWriterTerms", "Lucene912_0");
        let mut r = Bytes::at(&tmd, start);
        assert_eq!(r.vlong(), 128);
        for _ in 0..r.vlong() {
            let number = r.vlong() as i32;
            let info = self.infos.by_number(number).unwrap();
            let has_freqs = info.index_options.has_freqs();
            let num_terms = r.vlong();
            let root = r.counted().to_vec();
            if has_freqs {
                r.vlong();
            }
            r.vlong();
            r.vlong();
            let min = r.counted().to_vec();
            let max = r.counted().to_vec();
            r.vlong();
            r.take(4 + 4 + 4);
            assert_eq!(r.byte(), 1);
            r.counted();
            r.byte();
            r.vlong();
            r.vlong();
            if info.name == field {
                let mut code = 0u64;
                for &b in &root {
                    code = code << 7 | (b & 0x7f) as u64;
                    if b & 0x80 == 0 {
                        break;
                    }
                }
                let mut out = Vec::new();
                decode_group(&tim, (code >> 2) as usize, &[], has_freqs, info.index_options.has_positions(), &mut out);
                assert_eq!(out.len() as u64, num_terms);
                assert_eq!(out.first().unwrap().0, min);
                assert_eq!(out.last().unwrap().0, max);
                return out;
            }
        }
        panic!("no such field");
    }

    fn seek(&self, field: &str, term: &[u8]) -> TermEntry {
        let found = self.terms(field).into_iter().find(|t| t.0 == term);
        found.expect("term must exist").1
    }
}

fn indexed(name: &str, number: i32, opts: IndexOptions) -> FieldInfo {
    FieldInfo {
        name: name.to_string(),
        number,
        omit_norms: true,
        index_options: opts,
        ..FieldInfo::stored(name, number)
    }
}

fn write_segment() -> (Segment, Vec<u32>, Vec<u32>) {
    let id = [4u8; 16];
    let kw = indexed("kw", 0, IndexOptions::Docs);
    let tx = indexed("tx", 1, IndexOptions::DocsAndFreqs);
    let mut w = PostingsWriter::new("_0", &id).unwrap();
    w.start_field(&kw, 6000).unwrap();
    let big: Vec<u32> = (0..200).collect();
    w.write_term(b"big", &big, &vec![1; 200], None).unwrap();
    w.write_term(b"tail", &[10, 20, 30], &[1, 1, 1], None)
        .unwrap();
    w.finish_field().unwrap();
    w.start_field(&tx, 6000).unwrap();
    let hot: Vec<u32> = (0..5000).collect();
    w.write_term(b"hot", &hot, &vec![1; 5000], None).unwrap();
    w.write_term(b"one", &[42], &[7], None).unwrap();
    let warm_docs: Vec<u32> = (0..200).map(|i| i * 3).collect();
    let mut warm_freqs: Vec<u32> = (0..200).map(|i| (i % 5) + 1).collect();
    warm_freqs[3] = 3000;
    warm_freqs[77] = 65535;
    warm_freqs[100] = 999;
    w.write_term(b"warm", &warm_docs, &warm_freqs, None)
        .unwrap();
    w.finish_field().unwrap();
    let seg = Segment::new(w.finish().unwrap(), FieldInfos::new(vec![kw, tx]));
    (seg, warm_docs, warm_freqs)
}

fn entry(doc_freq: u32, ttf: u64, doc_start_fp: u64, singleton: i64) -> TermEntry {
    TermEntry {
        doc_freq,
        total_term_freq: ttf,
        state: TermState {
            doc_start_fp,
            pos_start_fp: 0,
            last_pos_block_offset: -1,
            singleton_doc_id: singleton,
        },
    }
}

#[test]
fn docs_enum_sequences() {
    let (seg, _, _) = write_segment();
    let postings = seg.open(&[4u8; 16]);
    let e = seg.seek("kw", b"big");
    let mut en = postings.docs(&e).unwrap();
    let mut got = Vec::new();
    loop {
        let d = en.next_doc().unwrap();
        if d == NO_MORE_DOCS {
            break;
        }
        got.push(d);
    }
    assert_eq!(got, (0..200).collect::<Vec<i32>>());
    let e = seg.seek("kw", b"tail");
    let mut en = postings.docs(&e).unwrap();
    assert_eq!(en.next_doc().unwrap(), 10);
    assert_eq!(en.next_doc().unwrap(), 20);
    assert_eq!(en.next_doc().unwrap(), 30);
    assert_eq!(en.next_doc().unwrap(), NO_MORE_DOCS);
}

#[test]
fn docs_freqs_across_level1_boundary() {
    let (seg, _, _) = write_segment();
    let postings = seg.open(&[4u8; 16]);
    let e = seg.seek("tx", b"hot");
    let mut en = postings.docs_and_freqs(&e).unwrap();
    for expected in 0..5000 {
        assert_eq!(en.next_doc().unwrap(), expected);
        assert_eq!(en.freq(), 1);
    }
    assert_eq!(en.next_doc().unwrap(), NO_MORE_DOCS);
}

#[test]
fn docs_freqs_with_pfor_exceptions_and_tail() {
    let (seg, warm_docs, warm_freqs) = write_segment();
    let postings = seg.open(&[4u8; 16]);
    let e = seg.seek("tx", b"warm");
    let mut en = postings.docs_and_freqs(&e).unwrap();
    for i in 0..200 {
        assert_eq!(en.next_doc().unwrap(), warm_docs[i] as i32, "doc {i}");
        assert_eq!(en.freq(), warm_freqs[i], "freq {i}");
    }
    assert_eq!(en.next_doc().unwrap(), NO_MORE_DOCS);
    let e = seg.seek("tx", b"one");
    assert_eq!(e.state.singleton_doc_id, 42);
    let mut en = postings.docs_and_freqs(&e).unwrap();
    assert_eq!(en.next_doc().unwrap(), 42);
    assert_eq!(en.freq(), 7);
    assert_eq!(en.next_doc().unwrap(), NO_MORE_DOCS);
}

#[test]
fn singleton_termstate_entry_constructed_by_hand() {
    let (seg, _, _) = write_segment();
    let postings = seg.open(&[4u8; 16]);
    let e = entry(1, 3, 0, 17);
    let mut en = postings.docs(&e).unwrap();
    assert_eq!(en.next_doc().unwrap(), 17);
    assert_eq!(en.next_doc().unwrap(), NO_MORE_DOCS);
}

#[test]
fn advance_block_local_and_tail() {
    let (seg, _, _) = write_segment();
    let postings = seg.open(&[4u8; 16]);
    let e = seg.seek("kw", b"big");
    let mut en = postings.docs(&e).unwrap();
    assert_eq!(en.advance(57).unwrap(), 57);
    assert_eq!(en.advance(57).unwrap(), 57);
    assert_eq!(en.advance(127).unwrap(), 127);
    assert_eq!(en.advance(128).unwrap(), 128);
    assert_eq!(en.advance(199).unwrap(), 199);
    assert_eq!(en.advance(200).unwrap(), NO_MORE_DOCS);
    assert_eq!(en.advance(5000).unwrap(), NO_MORE_DOCS);
}

#[test]
fn advance_skips_whole_blocks() {
    let (seg, _, _) = write_segment();
    let postings = seg.open(&[4u8; 16]);
    let e = seg.seek("tx", b"hot");
    let mut en = postings.docs_and_freqs(&e).unwrap();
    assert_eq!(en.advance(1300).unwrap(), 1300);
    assert_eq!(en.freq(), 1);
    assert_eq!(en.advance(4095).unwrap(), 4095);
    assert_eq!(en.advance(4096).unwrap(), 4096);
    assert_eq!(en.advance(4999).unwrap(), 4999);
    assert_eq!(en.advance(5000).unwrap(), NO_MORE_DOCS);
    assert_eq!(en.advance(9999).unwrap(), NO_MORE_DOCS);
    for target in [0, 1, 127, 128, 129, 4223, 4224, 4998, 4999] {
        let mut en = postings.docs_and_freqs(&e).unwrap();
        assert_eq!(en.advance(target).unwrap(), target, "target {target}");
    }
    for target in [5000, 6000, NO_MORE_DOCS - 1] {
        let mut en = postings.docs_and_freqs(&e).unwrap();
        assert_eq!(en.advance(target).unwrap(), NO_MORE_DOCS, "target {target}");
    }
}

#[test]
fn advance_miss_lands_on_next_doc_and_freqs_stay_aligned() {
    let (seg, warm_docs, warm_freqs) = write_segment();
    let postings = seg.open(&[4u8; 16]);
    let e = seg.seek("tx", b"warm");
    let mut en = postings.docs_and_freqs(&e).unwrap();
    assert_eq!(en.advance(9).unwrap(), 9);
    assert_eq!(en.freq(), 3000);
    assert_eq!(en.advance(301).unwrap(), 303);
    assert_eq!(en.freq(), warm_freqs[101]);
    assert_eq!(en.advance(597).unwrap(), 597);
    assert_eq!(en.freq(), warm_freqs[199]);
    assert_eq!(en.advance(598).unwrap(), NO_MORE_DOCS);
    for target in [0, 2, 3, 299, 300, 596, 597] {
        let mut en = postings.docs_and_freqs(&e).unwrap();
        let want = warm_docs
            .iter()
            .find(|&&d| d >= target as u32)
            .map(|&d| d as i32)
            .unwrap_or(NO_MORE_DOCS);
        assert_eq!(en.advance(target).unwrap(), want, "target {target}");
    }
}

#[test]
fn advance_interleaved_with_next_doc() {
    let (seg, _, _) = write_segment();
    let postings = seg.open(&[4u8; 16]);
    let e = seg.seek("tx", b"hot");
    let mut en = postings.docs_and_freqs(&e).unwrap();
    assert_eq!(en.advance(200).unwrap(), 200);
    assert_eq!(en.next_doc().unwrap(), 201);
    assert_eq!(en.advance(4096).unwrap(), 4096);
    assert_eq!(en.next_doc().unwrap(), 4097);
    assert_eq!(en.freq(), 1);
    assert_eq!(en.advance(4999).unwrap(), 4999);
    assert_eq!(en.next_doc().unwrap(), NO_MORE_DOCS);
}

#[test]
fn advance_singleton() {
    let (seg, _, _) = write_segment();
    let postings = seg.open(&[4u8; 16]);
    let e = entry(1, 3, 0, 17);
    let mut en = postings.docs(&e).unwrap();
    assert_eq!(en.advance(5).unwrap(), 17);
    assert_eq!(en.advance(17).unwrap(), 17);
    assert_eq!(en.advance(18).unwrap(), NO_MORE_DOCS);
    let e = entry(1, 3, 0, 17);
    let mut en = postings.docs(&e).unwrap();
    assert_eq!(en.advance(100).unwrap(), NO_MORE_DOCS);
}

#[test]
fn no_freq_mode_matches_decoding_mode_doc_sequence() {
    let (seg, warm_docs, _) = write_segment();
    let postings = seg.open(&[4u8; 16]);

    let e = seg.seek("tx", b"hot");
    let mut skip_en = postings.docs_and_freqs_no_freq(&e).unwrap();
    let mut dec_en = postings.docs_and_freqs(&e).unwrap();
    loop {
        let (a, b) = (skip_en.next_doc().unwrap(), dec_en.next_doc().unwrap());
        assert_eq!(a, b);
        if a == NO_MORE_DOCS {
            break;
        }
    }

    let e = seg.seek("tx", b"warm");
    let mut en = postings.docs_and_freqs_no_freq(&e).unwrap();
    for i in 0..200 {
        assert_eq!(en.next_doc().unwrap(), warm_docs[i] as i32, "doc {i}");
    }
    assert_eq!(en.next_doc().unwrap(), NO_MORE_DOCS);
    let e = seg.seek("tx", b"one");
    let mut en = postings.docs_and_freqs_no_freq(&e).unwrap();
    assert_eq!(en.next_doc().unwrap(), 42);
    assert_eq!(en.next_doc().unwrap(), NO_MORE_DOCS);
}

#[test]
fn no_freq_mode_advance_matches_decoding_mode() {
    let (seg, warm_docs, _) = write_segment();
    let postings = seg.open(&[4u8; 16]);

    let e = seg.seek("tx", b"hot");
    for target in [0, 1, 127, 128, 1300, 4095, 4096, 4224, 4999, 5000, 9999] {
        let mut skip_en = postings.docs_and_freqs_no_freq(&e).unwrap();
        let mut dec_en = postings.docs_and_freqs(&e).unwrap();
        assert_eq!(
            skip_en.advance(target).unwrap(),
            dec_en.advance(target).unwrap(),
            "target {target}"
        );
    }
    let mut skip_en = postings.docs_and_freqs_no_freq(&e).unwrap();
    let mut dec_en = postings.docs_and_freqs(&e).unwrap();
    for op in [200, 4096, 4999] {
        assert_eq!(skip_en.advance(op).unwrap(), dec_en.advance(op).unwrap());
        assert_eq!(skip_en.next_doc().unwrap(), dec_en.next_doc().unwrap());
    }
    let e = seg.seek("tx", b"warm");
    for target in [0, 2, 3, 299, 300, 596, 597, 598] {
        let mut en = postings.docs_and_freqs_no_freq(&e).unwrap();
        let want = warm_docs
            .iter()
            .find(|&&d| d >= target as u32)
            .map(|&d| d as i32)
            .unwrap_or(NO_MORE_DOCS);
        assert_eq!(en.advance(target).unwrap(), want, "target {target}");
    }
}

fn write_segment_pos() -> (Segment, Vec<Vec<u32>>, Vec<Vec<u32>>) {
    let id = [5u8; 16];
    let px = indexed("px", 0, IndexOptions::DocsAndFreqsAndPositions);
    let mut w = PostingsWriter::new("_0", &id).unwrap();
    w.start_field(&px, 6000).unwrap();
    let hot_docs: Vec<u32> = (0..5000).collect();
    let hot_freqs: Vec<u32> = (0..5000).map(|i| (i % 3) + 1).collect();
    let hot_pos: Vec<Vec<u32>> = hot_freqs
        .iter()
        .map(|&f| (0..f).map(|k| k * 2).collect())
        .collect();
    w.write_term(b"hot", &hot_docs, &hot_freqs, Some(&hot_pos))
        .unwrap();
    let one_pos: Vec<Vec<u32>> = vec![(0..7).collect()];
    w.write_term(b"one", &[42], &[7], Some(&one_pos)).unwrap();
    let warm_docs: Vec<u32> = (0..200).map(|i| i * 3).collect();
    let warm_freqs: Vec<u32> = (0..200).map(|i| (i % 4) + 1).collect();
    let warm_pos: Vec<Vec<u32>> = warm_freqs
        .iter()
        .map(|&f| (0..f).map(|k| k * 2 + 1).collect())
        .collect();
    w.write_term(b"warm", &warm_docs, &warm_freqs, Some(&warm_pos))
        .unwrap();
    w.finish_field().unwrap();
    let seg = Segment::new(w.finish().unwrap(), FieldInfos::new(vec![px]));
    (seg, hot_pos, warm_pos)
}

fn drain_positions(en: &mut PositionsEnum) -> Vec<(i32, Vec<u32>)> {
    let mut out = Vec::new();
    loop {
        let d = en.next_doc().unwrap();
        if d == NO_MORE_DOCS {
            break;
        }
        let f = en.freq();
        let mut ps = Vec::with_capacity(f as usize);
        for _ in 0..f {
            ps.push(en.next_position().unwrap());
        }
        out.push((d, ps));
    }
    out
}

#[test]
fn positions_sequential_round_trip() {
    let (seg, hot_pos, warm_pos) = write_segment_pos();
    let postings = seg.open(&[5u8; 16]);
    let e = seg.seek("px", b"hot");
    assert_eq!(e.total_term_freq, 9999);
    let mut en = postings.positions(&e).unwrap();
    let got = drain_positions(&mut en);
    assert_eq!(got.len(), 5000);
    for (d, ps) in &got {
        assert_eq!(ps, &hot_pos[*d as usize], "doc {d}");
    }
    let e = seg.seek("px", b"warm");
    let mut en = postings.positions(&e).unwrap();
    let got = drain_positions(&mut en);
    assert_eq!(got.len(), 200);
    for (i, (d, ps)) in got.iter().enumerate() {
        assert_eq!(*d, (i * 3) as i32);
        assert_eq!(ps, &warm_pos[i], "warm doc index {i}");
    }
    let e = seg.seek("px", b"one");
    let mut en = postings.positions(&e).unwrap();
    assert_eq!(en.next_doc().unwrap(), 42);
    assert_eq!(en.freq(), 7);
    for p in 0..7 {
        assert_eq!(en.next_position().unwrap(), p);
    }
    assert_eq!(en.next_doc().unwrap(), NO_MORE_DOCS);
}

#[test]
fn positions_advance_resync() {
    let (seg, hot_pos, _) = write_segment_pos();
    let postings = seg.open(&[5u8; 16]);
    let e = seg.seek("px", b"hot");
    let mut en = postings.positions(&e).unwrap();
    assert_eq!(en.advance(1300).unwrap(), 1300);
    assert_eq!(en.freq(), 2);
    let ps: Vec<u32> = (0..en.freq())
        .map(|_| en.next_position().unwrap())
        .collect();
    assert_eq!(ps, hot_pos[1300]);
    assert_eq!(en.advance(4095).unwrap(), 4095);
    let _: Vec<u32> = (0..en.freq())
        .map(|_| en.next_position().unwrap())
        .collect();
    assert_eq!(en.advance(4096).unwrap(), 4096);
    let ps: Vec<u32> = (0..en.freq())
        .map(|_| en.next_position().unwrap())
        .collect();
    assert_eq!(ps, hot_pos[4096]);
    assert_eq!(en.advance(4999).unwrap(), 4999);
    let ps: Vec<u32> = (0..en.freq())
        .map(|_| en.next_position().unwrap())
        .collect();
    assert_eq!(ps, hot_pos[4999]);
    assert_eq!(en.advance(5000).unwrap(), NO_MORE_DOCS);
    assert_eq!(en.advance(9999).unwrap(), NO_MORE_DOCS);
    let mut en = postings.positions(&e).unwrap();
    assert_eq!(en.advance(200).unwrap(), 200);
    assert_eq!(en.advance(200).unwrap(), 200);
    let ps: Vec<u32> = (0..en.freq())
        .map(|_| en.next_position().unwrap())
        .collect();
    assert_eq!(ps, hot_pos[200]);
    for target in [0i32, 1, 127, 128, 4223, 4224, 4998] {
        let mut en = postings.positions(&e).unwrap();
        assert_eq!(en.advance(target).unwrap(), target, "target {target}");
        let ps: Vec<u32> = (0..en.freq())
            .map(|_| en.next_position().unwrap())
            .collect();
        assert_eq!(ps, hot_pos[target as usize], "target {target}");
    }
}

#[test]
fn positions_skip_positions_catch_up() {
    let (seg, hot_pos, _) = write_segment_pos();
    let postings = seg.open(&[5u8; 16]);
    let e = seg.seek("px", b"hot");
    let mut en = postings.positions(&e).unwrap();
    for _ in 0..205 {
        en.next_doc().unwrap();
    }
    assert_eq!(en.doc_id(), 204);
    let ps: Vec<u32> = (0..en.freq())
        .map(|_| en.next_position().unwrap())
        .collect();
    assert_eq!(ps, hot_pos[204]);
    assert_eq!(en.next_doc().unwrap(), 205);
    let ps205: Vec<u32> = (0..en.freq())
        .map(|_| en.next_position().unwrap())
        .collect();
    assert_eq!(ps205, hot_pos[205]);
    assert_eq!(en.advance(210).unwrap(), 210);
    let ps: Vec<u32> = (0..en.freq())
        .map(|_| en.next_position().unwrap())
        .collect();
    assert_eq!(ps, hot_pos[210]);
}

#[test]
fn positions_missing_pos_file_is_error() {
    let (seg, _, _) = write_segment();
    let postings = seg.open(&[4u8; 16]);
    let e = seg.seek("kw", b"big");
    assert!(postings.positions(&e).is_err());
}

fn drain_next_docs(en: &mut DocsEnum, step: usize) -> Vec<u32> {
    let mut docs = Vec::new();
    let mut buf = vec![0u32; step];
    loop {
        let n = en.next_docs(&mut buf).unwrap();
        if n == 0 {
            break;
        }
        docs.extend_from_slice(&buf[..n]);
    }
    docs
}

fn drain_per_doc(en: &mut DocsEnum) -> Vec<u32> {
    let mut docs = Vec::new();
    loop {
        let d = en.next_doc().unwrap();
        if d == NO_MORE_DOCS {
            break;
        }
        docs.push(d as u32);
    }
    docs
}

fn drain_per_doc_freqs(en: &mut DocsFreqsEnum) -> Vec<u32> {
    let mut docs = Vec::new();
    loop {
        let d = en.next_doc().unwrap();
        if d == NO_MORE_DOCS {
            break;
        }
        docs.push(d as u32);
    }
    docs
}

#[test]
fn next_docs_matches_next_doc_all_terms() {
    let (seg, warm_docs, warm_freqs) = write_segment();
    let reader = seg.open(&[4u8; 16]);

    let big: Vec<u32> = (0..200).collect();
    let hot: Vec<u32> = (0..5000).collect();
    let docs_cases: Vec<(&str, &[u8], Vec<u32>)> = vec![
        ("kw", b"big", big.clone()),
        ("kw", b"tail", vec![10, 20, 30]),
    ];
    for (field, term, expect_docs) in docs_cases {
        let entry = seg.seek(field, term);
        for step in [1usize, 7, 128, 200, 4096] {
            let mut en = reader.docs(&entry).unwrap();
            assert_eq!(
                drain_next_docs(&mut en, step),
                expect_docs,
                "{field}:{term:?} step={step} docs"
            );
        }
        let mut en = reader.docs(&entry).unwrap();
        assert_eq!(drain_per_doc(&mut en), expect_docs);
    }
    let freqs_cases: Vec<(&str, &[u8], Vec<u32>, Option<Vec<u32>>)> = vec![
        ("tx", b"hot", hot, Some(vec![1; 5000])),
        ("tx", b"warm", warm_docs, Some(warm_freqs)),
        ("tx", b"one", vec![42], Some(vec![7])),
    ];
    for (field, term, expect_docs, expect_freqs) in freqs_cases {
        let entry = seg.seek(field, term);
        for step in [1usize, 7, 128, 200, 4096] {
            let mut en = reader.docs_and_freqs_no_freq(&entry).unwrap();
            assert_eq!(
                drain_next_docs_enum(&mut en, step),
                expect_docs,
                "{field}:{term:?} step={step} docs"
            );
        }
        let mut en = reader.docs_and_freqs_no_freq(&entry).unwrap();
        assert_eq!(drain_per_doc_freqs(&mut en), expect_docs);
        if let Some(expect_f) = expect_freqs {
            let mut en = reader.docs_and_freqs(&entry).unwrap();
            assert!(en.decodes_freqs());
            let mut docs = Vec::new();
            let mut freqs = Vec::new();
            let (mut db, mut fb) = (vec![0u32; 64], vec![0u32; 64]);
            loop {
                let n = en.next_docs_and_freqs(&mut db, &mut fb).unwrap();
                if n == 0 {
                    break;
                }
                docs.extend_from_slice(&db[..n]);
                freqs.extend_from_slice(&fb[..n]);
            }
            assert_eq!(docs, expect_docs, "{field}:{term:?} freq-mode docs");
            assert_eq!(freqs, expect_f, "{field}:{term:?} freqs");
        }
    }
}

#[test]
fn no_freq_enum_does_not_decode_freqs() {
    let (seg, warm_docs, _) = write_segment();
    let reader = seg.open(&[4u8; 16]);
    let entry = seg.seek("tx", b"warm");
    let mut en = reader.docs_and_freqs_no_freq(&entry).unwrap();
    assert!(!en.decodes_freqs());
    assert_eq!(drain_next_docs_enum(&mut en, 128), warm_docs);
}

fn drain_next_docs_enum(en: &mut DocsFreqsEnum, step: usize) -> Vec<u32> {
    let mut docs = Vec::new();
    let mut buf = vec![0u32; step];
    loop {
        let n = en.next_docs(&mut buf).unwrap();
        if n == 0 {
            break;
        }
        docs.extend_from_slice(&buf[..n]);
    }
    docs
}

// ---------------------------------------------------------------------------
// Dictionaries of many terms
// ---------------------------------------------------------------------------

#[test]
fn many_terms_are_all_in_the_blocks() {
    let px = indexed("px", 7, IndexOptions::DocsAndFreqsAndPositions);
    let id = [6u8; 16];
    let mut w = PostingsWriter::new("_0", &id).unwrap();
    w.start_field(&px, 10_000).unwrap();
    let mut terms: Vec<Vec<u8>> = (0..3000u32).map(|i| format!("key{:05}", i * 7).into_bytes()).collect();
    terms.extend((0..300u32).map(|i| format!("z{i:03}").into_bytes()));
    terms.push(b"".to_vec());
    terms.push(vec![0xff; 40]);
    terms.sort();
    let docs_of = |k: usize| -> Vec<u32> { (0..(k % 5) as u32 + 1).map(|j| k as u32 + j * 3).collect() };
    for (k, term) in terms.iter().enumerate() {
        let docs = docs_of(k);
        let freqs: Vec<u32> = docs.iter().map(|d| d % 3 + 1).collect();
        let positions: Vec<Vec<u32>> = freqs.iter().map(|&f| (0..f).map(|p| p * 5).collect()).collect();
        w.write_term(term, &docs, &freqs, Some(&positions)).unwrap();
    }
    w.finish_field().unwrap();
    let seg = Segment::new(w.finish().unwrap(), FieldInfos::new(vec![px]));
    let found = seg.terms("px");
    assert_eq!(found.iter().map(|t| t.0.clone()).collect::<Vec<_>>(), terms);
    let postings = seg.open(&id);
    for (k, (_, e)) in found.iter().enumerate() {
        let docs = docs_of(k);
        assert_eq!(e.doc_freq as usize, docs.len());
        let mut en = postings.positions(e).unwrap();
        for &d in &docs {
            assert_eq!(en.next_doc().unwrap(), d as i32);
            assert_eq!(en.freq(), d % 3 + 1);
            for p in 0..en.freq() {
                assert_eq!(en.next_position().unwrap(), p * 5);
            }
        }
        assert_eq!(en.next_doc().unwrap(), NO_MORE_DOCS);
    }
}

#[test]
fn fields_without_terms_leave_no_record() {
    let id = [6u8; 16];
    let (a, b) = (indexed("a", 0, IndexOptions::Docs), indexed("b", 1, IndexOptions::Docs));
    let mut w = PostingsWriter::new("_0", &id).unwrap();
    w.start_field(&a, 0).unwrap();
    w.finish_field().unwrap();
    w.start_field(&b, 1).unwrap();
    w.write_term(b"t", &[5], &[1], None).unwrap();
    w.finish_field().unwrap();
    let files = w.finish().unwrap();
    let names: Vec<&str> = files.iter().map(|f| f.name.as_str()).collect();
    assert_eq!(names, ["_0_Lucene912_0.doc", "_0_Lucene912_0.tim", "_0_Lucene912_0.tip", "_0_Lucene912_0.tmd", "_0_Lucene912_0.psm"]);
    let seg = Segment::new(files, FieldInfos::new(vec![a, b]));
    assert_eq!(seg.seek("b", b"t").state.singleton_doc_id, 5);
}

#[test]
fn postings_of_another_segment_are_refused() {
    let (seg, _, _) = write_segment();
    let open = |psm: Vec<u8>, id: &[u8; 16]| PostingsReader::open(psm, seg.file(".doc").unwrap(), None, id).err().map(|e| e.kind());
    assert_eq!(open(seg.file(".psm").unwrap(), &[4u8; 16]), None);
    assert_eq!(open(seg.file(".psm").unwrap(), &[5u8; 16]), Some(ErrorKind::InvalidData));
    let mut broken = seg.file(".psm").unwrap();
    let n = broken.len();
    broken[n - 20] ^= 1;
    assert_eq!(open(broken, &[4u8; 16]), Some(ErrorKind::InvalidData));
}

#[test]
fn entries_past_the_file_are_refused() {
    let (seg, _, _) = write_segment();
    let postings = seg.open(&[4u8; 16]);
    let e = entry(300, 300, 1 << 40, -1);
    assert_eq!(postings.docs(&e).err().unwrap().kind(), ErrorKind::UnexpectedEof);
}

#[test]
fn bitmaps_stand_before_the_documents() {
    let id = [4u8; 16];
    let mut doc = ChecksumIndexOutput::new(IndexOutput::in_memory());
    write_index_header(&mut doc, "Lucene912PostingsWriterDoc", 0, &id, "Lucene912_0").unwrap();
    doc.write_bytes(b"bitmap").unwrap();
    doc.write_int(6).unwrap();
    let fp = doc.file_pointer();
    write_footer(&mut doc).unwrap();
    let mut psm = ChecksumIndexOutput::new(IndexOutput::in_memory());
    write_index_header(&mut psm, "Lucene912PostingsWriterMeta", 0, &id, "Lucene912_0").unwrap();
    for _ in 0..4 {
        psm.write_int(0).unwrap();
    }
    psm.write_long(doc.file_pointer() as i64).unwrap();
    write_footer(&mut psm).unwrap();
    let postings = PostingsReader::open(psm.into_bytes(), doc.into_bytes(), None, &id).unwrap();
    let e = entry(5000, 5000, fp, -1);
    assert_eq!(postings.open_term_bitmap(&e, 4096, 100).unwrap(), Some(b"bitmap".to_vec()));
    assert_eq!(postings.open_term_bitmap(&e, 5001, 100).unwrap(), None);
    assert_eq!(postings.open_term_bitmap(&e, 4096, 5).unwrap(), None);
    assert_eq!(postings.open_term_bitmap(&entry(5000, 5000, 3, -1), 4096, 100).unwrap(), None);
    assert_eq!(postings.open_term_bitmap(&entry(5000, 5000, 1 << 40, -1), 4096, 100).unwrap_err().kind(), ErrorKind::UnexpectedEof);
}

#[test]
fn impacts_are_passed_over_whatever_they_are() {
    let id = [4u8; 16];
    let field = indexed("f", 0, IndexOptions::DocsAndFreqs);
    let docs: Vec<u32> = (0..5000).map(|i| i * 3 + 1).collect();
    let freqs: Vec<u32> = (0..5000).map(|i| i % 7 + 1).collect();
    let mut w = PostingsWriter::new("_0", &id).unwrap();
    w.start_field(&field, 5000).unwrap();
    w.write_term(b"t", &docs, &freqs, None).unwrap();
    w.finish_field().unwrap();
    let seg = Segment::new(w.finish().unwrap(), FieldInfos::new(vec![field]));
    let e = seg.seek("f", b"t");
    let mut doc = seg.file(".doc").unwrap();
    let psm = seg.file(".psm").unwrap();

    // The first group's head, and in it the first block's.
    let mut r = Bytes::at(&doc, e.state.doc_start_fp as usize);
    r.vlong();
    r.vlong();
    let skip = r.byte() as usize + 256 * r.byte() as usize;
    let group = r.pos + 2..r.pos + skip;
    r.take(skip);
    r.vlong();
    r.take(4);
    let n = r.vlong() as usize;
    let block = r.pos..r.pos + n;
    assert!(n > 0 && group.len() > 0);
    for i in group.chain(block) {
        doc[i] = 0x55;
    }

    let postings = PostingsReader::open(psm.clone(), doc.clone(), None, &id).unwrap();
    let mut en = postings.docs_and_freqs(&e).unwrap();
    for (d, f) in docs.iter().zip(&freqs) {
        assert_eq!((en.next_doc().unwrap(), en.freq()), (*d as i32, *f));
    }
    assert_eq!(en.next_doc().unwrap(), NO_MORE_DOCS);
    let mut en = postings.docs_and_freqs(&e).unwrap();
    assert_eq!(en.advance(12_290).unwrap(), 12_292);
    assert_eq!(en.freq(), 4097 % 7 + 1);
}

#[test]
fn a_block_that_cannot_be_read_ends_the_enumeration() {
    let (seg, _, _) = write_segment();
    let postings = seg.open(&[4u8; 16]);
    let doc = seg.file(".doc").unwrap();
    let mut en = postings.docs(&entry(2, 2, doc.len() as u64, -1)).unwrap();
    assert_eq!(en.next_doc().unwrap_err().kind(), ErrorKind::UnexpectedEof);
    let mut en = postings.docs(&entry(0, 0, 0, -1)).unwrap();
    assert_eq!(en.next_doc().unwrap(), NO_MORE_DOCS);
}

#[test]
fn documents_are_given_whatever_they_are() {
    let (seg, _, _) = write_segment();
    let postings = seg.open(&[4u8; 16]);
    let mut en = postings.docs(&entry(1, 1, 0, -5)).unwrap();
    assert_eq!(en.next_doc().unwrap(), -5);
    assert_eq!(en.next_doc().unwrap(), NO_MORE_DOCS);

    // A tail of two: 4, and 2^32 - 1 more.
    let id = [4u8; 16];
    let mut doc = ChecksumIndexOutput::new(IndexOutput::in_memory());
    write_index_header(&mut doc, "Lucene912PostingsWriterDoc", 0, &id, "Lucene912_0").unwrap();
    let fp = doc.file_pointer();
    doc.write_bytes(&[5, 0xff, 0xff, 0xff, 0xff, 0x0f]).unwrap();
    write_footer(&mut doc).unwrap();
    let mut psm = ChecksumIndexOutput::new(IndexOutput::in_memory());
    write_index_header(&mut psm, "Lucene912PostingsWriterMeta", 0, &id, "Lucene912_0").unwrap();
    for _ in 0..4 {
        psm.write_int(0).unwrap();
    }
    psm.write_long(doc.file_pointer() as i64).unwrap();
    write_footer(&mut psm).unwrap();
    let postings = PostingsReader::open(psm.into_bytes(), doc.into_bytes(), None, &id).unwrap();
    let mut en = postings.docs(&entry(2, 2, fp, -1)).unwrap();
    assert_eq!(en.next_doc().unwrap(), 4);
    assert_eq!(en.next_doc().unwrap(), 3);
    assert_eq!(en.next_doc().unwrap(), NO_MORE_DOCS);
    let mut batch = [0; 8];
    assert_eq!(postings.docs(&entry(2, 2, fp, -1)).unwrap().next_docs(&mut batch).unwrap(), 2);
    assert_eq!(batch, [4, 3, 0, 0, 0, 0, 0, 0]);
}

#[test]
fn a_block_ends_at_the_document_its_head_names() {
    let (seg, _, _) = write_segment();
    let e = seg.seek("kw", b"big");
    let mut doc = seg.file(".doc").unwrap();
    let at = e.state.doc_start_fp as usize + 1;
    assert_eq!(&doc[at..at + 2], &[128, 0]);
    doc[at] = 129;
    let postings = PostingsReader::open(seg.file(".psm").unwrap(), doc, None, &[4u8; 16]).unwrap();
    let mut en = postings.docs(&e).unwrap();
    assert_eq!(en.advance(0).unwrap(), 0);
    for d in 1..128 {
        assert_eq!(en.next_doc().unwrap(), d);
    }
    assert_eq!(en.next_doc().unwrap(), NO_MORE_DOCS);
    assert_eq!(drain_per_doc(&mut postings.docs(&e).unwrap()), (0..200).collect::<Vec<u32>>());
}

#[test]
fn a_group_that_is_passed_over_need_not_say_its_skips_length() {
    let (seg, _, _) = write_segment();
    let e = seg.seek("tx", b"hot");
    let mut doc = seg.file(".doc").unwrap();
    let mut r = Bytes::at(&doc, e.state.doc_start_fp as usize);
    r.vlong();
    r.vlong();
    let at = r.pos;
    doc[at] = 0xff;
    doc[at + 1] = 0x7f;
    let postings = PostingsReader::open(seg.file(".psm").unwrap(), doc, None, &[4u8; 16]).unwrap();
    let mut en = postings.docs_and_freqs(&e).unwrap();
    assert_eq!(en.advance(4500).unwrap(), 4500);
    assert_eq!(en.freq(), 1);
    assert_eq!(en.next_doc().unwrap(), 4501);
    let mut en = postings.docs_and_freqs(&e).unwrap();
    assert_eq!(en.next_doc().unwrap_err().kind(), ErrorKind::UnexpectedEof);
}

#[test]
fn a_tail_leaves_what_it_does_not_fill() {
    let (seg, _, _) = write_segment_pos();
    let postings = seg.open(&[5u8; 16]);
    let e = TermEntry {
        doc_freq: 1,
        total_term_freq: 256,
        state: TermState {
            doc_start_fp: 0,
            pos_start_fp: 50,
            last_pos_block_offset: 0,
            singleton_doc_id: 9,
        },
    };
    let mut en = postings.positions(&e).unwrap();
    assert_eq!((en.next_doc().unwrap(), en.freq()), (9, 256));
    for _ in 0..256 {
        assert_eq!(en.next_position().unwrap(), 0);
    }
    assert_eq!(en.next_doc().unwrap(), NO_MORE_DOCS);
}
