//! What holds of every input, on chosen ones, and the cases at the edges.

use codec_lucene9::automaton::{WildcardDfa, DEAD};
use codec_lucene9::bits::{bits_required, low_bits};
use codec_lucene9::codec_util::{check_footer, check_footer_structure, check_header, check_index_header, index_header_length, skip_index_header, write_footer, write_header, write_index_header};
use codec_lucene9::disi::{decode_disi_region, write_indexed_disi};
use codec_lucene9::doc_ids::{read_doc_ids, write_doc_ids};
use codec_lucene9::doc_values::DocValuesWriter;
use codec_lucene9::doc_values_read::DocValuesReader;
use codec_lucene9::doc_values_reader::{IndexedDISIReader, NumericDocValuesReader, SortedDocValuesReader};
use codec_lucene9::error::ErrorKind;
use codec_lucene9::field_infos::{FieldInfo, FieldInfos};
use codec_lucene9::float::{average_increment, expected_value};
use codec_lucene9::fst::{FstMetadata, FstReader};
use codec_lucene9::fst_compiler::FstCompiler;
use codec_lucene9::io::{ChecksumIndexInput, ChecksumIndexOutput, DataInput, DataOutput, IndexInput, IndexOutput};
use codec_lucene9::leaf_block::{read_leaf_block, write_leaf_block};
use codec_lucene9::packed::{direct_monotonic_write, DirectMonotonicReader};
use codec_lucene9::point_index::{get_num_left_leaf_nodes, pack_index, read_index};
use codec_lucene9::point_order::{long_to_key, sort_points};
use codec_lucene9::points::{file_names, int_to_sortable_bytes, long_to_sortable_bytes, PointsWriter};
use codec_lucene9::points_read::PointsReader;
use codec_lucene9::points_reader::BKDReader;
use codec_lucene9::postings_ll::for_util_decode;
use codec_lucene9::strings::{string_from_utf8, StringMap, StringSet};

const ID: [u8; 16] = [3; 16];

struct Rng(u64);

impl Rng {
    fn next(&mut self) -> u64 {
        self.0 ^= self.0 << 13;
        self.0 ^= self.0 >> 7;
        self.0 ^= self.0 << 17;
        self.0
    }
}

fn written(f: impl FnOnce(&mut ChecksumIndexOutput)) -> Vec<u8> {
    let mut out = ChecksumIndexOutput::new(IndexOutput::in_memory());
    f(&mut out);
    out.into_bytes()
}

// ---------------------------------------------------------------------------
// Basic values
// ---------------------------------------------------------------------------

#[test]
fn text_must_be_utf8() {
    assert_eq!(string_from_utf8(vec![0x68, 0xc3, 0xa9]), Some("hé".to_string()));
    assert_eq!(string_from_utf8(vec![0xc3]), None);
    assert_eq!(string_from_utf8(Vec::new()), Some(String::new()));
    let mut input = IndexInput::in_memory(vec![2, 0xff, 0xfe]);
    assert_eq!(input.read_string().unwrap_err().kind(), ErrorKind::InvalidData);
}

#[test]
fn negative_vlong_is_refused() {
    let mut out = IndexOutput::in_memory();
    assert_eq!(out.write_vlong(-1).unwrap_err().kind(), ErrorKind::InvalidInput);
    assert_eq!(out.write_vlong(i64::MIN).unwrap_err().kind(), ErrorKind::InvalidInput);
    out.write_vlong(5).unwrap();
    assert_eq!(out.into_bytes(), vec![5]);
}

#[test]
fn negative_vint_takes_five_bytes() {
    let mut out = IndexOutput::in_memory();
    out.write_vint(-1).unwrap();
    let bytes = out.into_bytes();
    assert_eq!(bytes, vec![0xff, 0xff, 0xff, 0xff, 0x0f]);
    assert_eq!(IndexInput::in_memory(bytes).read_vint().unwrap(), -1);
}

#[test]
fn maps_and_sets_keep_their_order() {
    let mut map = StringMap::new();
    map.insert("b".to_string(), "2".to_string());
    map.insert("a".to_string(), "1".to_string());
    map.insert("b".to_string(), "3".to_string());
    assert_eq!(map.len(), 2);
    assert_eq!(map.entry(0), &("a".to_string(), "1".to_string()));
    assert_eq!(map.get("b").unwrap(), "3");
    assert!(map.get("c").is_none());
    let mut set = StringSet::new();
    set.insert("y".to_string());
    set.insert("x".to_string());
    set.insert("y".to_string());
    assert_eq!(set.len(), 2);
    assert_eq!(set.member(0), "x");
    assert!(!set.contains("z") && !set.is_empty());
    let bytes = written(|o| {
        o.write_map_of_strings(&map).unwrap();
        o.write_set_of_strings(&set).unwrap();
    });
    let mut input = IndexInput::in_memory(bytes);
    let map_back = input.read_map_of_strings().unwrap();
    assert_eq!(map_back.len(), 2);
    assert_eq!(map_back.get("a").unwrap(), "1");
    let set_back = input.read_set_of_strings().unwrap();
    assert_eq!(set_back.len(), 2);
    assert!(set_back.contains("y"));
}

#[test]
fn headers_are_checked() {
    let bytes = written(|o| write_index_header(o, "Codec", 3, &ID, "sfx").unwrap());
    let open = |b: &[u8]| IndexInput::in_memory(b.to_vec());
    let mut input = open(&bytes);
    assert_eq!(check_index_header(&mut input, "Codec", 1, 4, &ID, "sfx").unwrap(), 3);
    assert_eq!(input.file_pointer(), index_header_length("Codec", "sfx") as u64);
    let mut input = open(&bytes);
    skip_index_header(&mut input).unwrap();
    assert_eq!(input.file_pointer(), bytes.len() as u64);
    assert!(check_index_header(&mut open(&bytes), "Other", 1, 4, &ID, "sfx").is_err());
    assert!(check_index_header(&mut open(&bytes), "Codec", 4, 9, &ID, "sfx").is_err());
    assert!(check_index_header(&mut open(&bytes), "Codec", 1, 4, &[4; 16], "sfx").is_err());
    assert!(check_index_header(&mut open(&bytes), "Codec", 1, 4, &ID, "sfy").is_err());
    let plain = written(|o| write_header(o, "Codec", 7).unwrap());
    assert_eq!(check_header(&mut open(&plain), "Codec", 7, 7).unwrap(), 7);
    assert_eq!(check_header(&mut open(&plain[..3]), "Codec", 7, 7).unwrap_err().kind(), ErrorKind::UnexpectedEof);
}

#[test]
fn footers_are_checked() {
    let bytes = written(|o| {
        o.write_bytes(b"some bytes").unwrap();
        write_footer(o).unwrap();
    });
    let n = bytes.len() as u64;
    assert!(check_footer_structure(&IndexInput::in_memory(bytes.clone()), n).is_ok());
    assert!(check_footer_structure(&IndexInput::in_memory(bytes.clone()), n + 1).is_err());
    let mut input = ChecksumIndexInput::new(IndexInput::in_memory(bytes.clone()));
    input.skip_bytes(9).unwrap();
    assert_eq!(check_footer(&mut input).unwrap_err().kind(), ErrorKind::InvalidData);
    let mut input = ChecksumIndexInput::new(IndexInput::in_memory(bytes));
    input.skip_bytes(10).unwrap();
    check_footer(&mut input).unwrap();
}

#[test]
fn bits_of_numbers() {
    assert_eq!(bits_required(0), 0);
    assert_eq!(bits_required(255), 8);
    assert_eq!(bits_required(256), 9);
    assert_eq!(bits_required(u64::MAX), 64);
    assert_eq!(low_bits(0xABCD, 8), 0xCD);
    assert_eq!(low_bits(u64::MAX, 64), u64::MAX);
    assert_eq!(low_bits(0xFF, 0), 0);
}

// ---------------------------------------------------------------------------
// Singles
// ---------------------------------------------------------------------------

#[test]
fn average_increments_are_those_of_floats() {
    let mut rng = Rng(0x9E37_79B9_7F4A_7C15);
    for _ in 0..20_000 {
        let total = rng.next() >> (rng.next() % 64);
        let steps = 1 + (rng.next() >> 34) % 70_000;
        let float = (total as f64 / steps as f64) as f32;
        assert_eq!(average_increment(total, steps), float.to_bits(), "{total} / {steps}");
    }
    assert_eq!(average_increment(0, 1), 0);
    assert_eq!(average_increment(1, 3), ((1f64 / 3f64) as f32).to_bits());
}

#[test]
fn expected_values_are_those_of_floats() {
    let mut rng = Rng(0x1234_5678_9ABC_DEF1);
    for round in 0..20_000u32 {
        let bits = if round % 2 == 0 {
            rng.next() as u32
        } else {
            (rng.next() as f32 / 1e9).to_bits()
        };
        let i = rng.next() >> (rng.next() % 64);
        let float = (f32::from_bits(bits) * i as f32) as i64;
        assert_eq!(expected_value(bits, i), float, "{bits:#x} * {i}");
    }
    assert_eq!(expected_value(1.5f32.to_bits(), 3), 4);
    assert_eq!(expected_value((-1.5f32).to_bits(), 3), -4);
    assert_eq!(expected_value(f32::NAN.to_bits(), 3), 0);
    assert_eq!(expected_value(f32::INFINITY.to_bits(), 3), i64::MAX);
    assert_eq!(expected_value(f32::NEG_INFINITY.to_bits(), 1), i64::MIN);
}

#[test]
fn records_that_are_missing_are_refused() {
    let values: Vec<u64> = (0..40).map(|i| i * i).collect();
    let mut meta = ChecksumIndexOutput::new(IndexOutput::in_memory());
    let mut data = ChecksumIndexOutput::new(IndexOutput::in_memory());
    direct_monotonic_write(&mut meta, &mut data, &values, 4).unwrap();
    let (meta, data) = (meta.into_bytes(), data.into_bytes());
    assert_eq!(meta.len(), 3 * DirectMonotonicReader::META_RECORD_BYTES);
    assert!(DirectMonotonicReader::new(&meta[..62], &data, 40, 4).is_err());
    let reader = DirectMonotonicReader::new(&meta, &data, 40, 4).unwrap();
    assert_eq!(reader.try_get(39), Some(39 * 39));
    assert_eq!(reader.try_get(48), None);
}

// ---------------------------------------------------------------------------
// Automata and transducers
// ---------------------------------------------------------------------------

/// The definition of matching: `*` takes any bytes, `?` takes one.
fn matches_wildcard(pattern: &[u8], s: &[u8]) -> bool {
    match pattern.first() {
        None => s.is_empty(),
        Some(b'*') => (0..=s.len()).any(|k| matches_wildcard(&pattern[1..], &s[k..])),
        Some(b'?') => !s.is_empty() && matches_wildcard(&pattern[1..], &s[1..]),
        Some(&b) => s.first() == Some(&b) && matches_wildcard(&pattern[1..], &s[1..]),
    }
}

#[test]
fn automata_accept_what_matches() {
    let mut rng = Rng(77);
    for _ in 0..300 {
        let pattern: Vec<u8> = (0..rng.next() % 7).map(|_| b"ab*?"[(rng.next() % 4) as usize]).collect();
        let dfa = WildcardDfa::compile(&pattern);
        for _ in 0..60 {
            let s: Vec<u8> = (0..rng.next() % 8).map(|_| b"abc"[(rng.next() % 3) as usize]).collect();
            assert_eq!(dfa.accepts(&s), matches_wildcard(&pattern, &s), "{pattern:?} {s:?}");
        }
    }
}

#[test]
fn forced_prefixes() {
    let (prefix, state) = WildcardDfa::compile(b"foo*bar").deterministic_prefix();
    assert_eq!(prefix, b"foo");
    assert!(!WildcardDfa::compile(b"foo*bar").is_accept(state));
    let dfa = WildcardDfa::compile(b"abc");
    let (prefix, state) = dfa.deterministic_prefix();
    assert_eq!(prefix, b"abc");
    assert!(dfa.is_accept(state));
    assert_eq!(WildcardDfa::compile(b"?a").deterministic_prefix().0, b"");
}

#[test]
fn walks_of_an_automaton() {
    let dfa = WildcardDfa::compile(b"a?");
    let s = dfa.start();
    assert!(!dfa.is_accept(s));
    let s = dfa.transition(s, b'a');
    let s = dfa.transition(s, 0);
    assert!(dfa.is_accept(s));
    assert!(dfa.ranges(s).is_empty());
}

#[test]
fn transducers_give_only_what_was_added() {
    let mut compiler = FstCompiler::new();
    compiler.add(b"", Some(b"root"));
    compiler.add(b"car", Some(b"1"));
    compiler.add(b"cart", None);
    let fst = compiler.finish();
    let meta = written(|o| fst.write_metadata(o).unwrap());
    let metadata = FstMetadata::read(&mut IndexInput::in_memory(meta.clone())).unwrap();
    let reader = FstReader::new(fst.bytes().to_vec(), &metadata);
    assert_eq!(reader.lookup(b"car").unwrap(), Some(b"1".to_vec()));
    assert_eq!(reader.lookup(b"cart").unwrap(), Some(Vec::new()));
    assert_eq!(reader.lookup(b"").unwrap(), Some(b"root".to_vec()));
    assert_eq!(reader.lookup(b"ca").unwrap(), None);
    assert!(FstMetadata::read(&mut IndexInput::in_memory(meta[..meta.len() - 1].to_vec())).is_err());
}

// ---------------------------------------------------------------------------
// Documents
// ---------------------------------------------------------------------------

#[test]
fn sets_of_documents_are_read_back() {
    let mut docs: Vec<u32> = vec![0, 7, 4094];
    docs.extend(65536..131072);
    docs.extend((200_000..230_000).step_by(3));
    let region = written(|o| {
        write_indexed_disi(o, &docs).unwrap();
    });
    assert_eq!(decode_disi_region(&region, docs.len() as u64).unwrap(), docs);
    assert_eq!(decode_disi_region(&region, 5).unwrap_err().kind(), ErrorKind::InvalidData);
    let jumps = (region.len() as i64, docs.last().unwrap() >> 16);
    let reader = IndexedDISIReader::parse(&region, 0, jumps.0, jumps.1 as i16 + 2, docs.len() as u32).unwrap();
    for (i, &d) in docs.iter().enumerate() {
        assert_eq!(reader.doc_index(d), Some(i));
    }
    assert!(!reader.has_doc(1) && !reader.has_doc(131072) && reader.has_doc(7));
    assert!(IndexedDISIReader::parse(&region, 1, jumps.0, 0, 3).is_err());
    let all = IndexedDISIReader::parse(&[], -1, 0, -1, 10).unwrap();
    assert_eq!(all.doc_index(9), Some(9));
    assert_eq!(all.doc_index(10), None);
    assert!(!IndexedDISIReader::parse(&[], -2, 0, -1, 0).unwrap().has_doc(0));
}

#[test]
fn document_ids_are_read_back() {
    let lists: Vec<Vec<u32>> = vec![
        vec![7],
        (100..612).collect(),
        (0..300).map(|i| i * 3).collect(),
        (0..511).map(|i| i / 2).collect(),
        (0..77).map(|i| i * 100_000).collect(),
        vec![0, 5, 1 << 24, 7, u32::MAX, 42],
    ];
    for docs in lists {
        let bytes = written(|o| write_doc_ids(o, &docs).unwrap());
        let n = bytes.len();
        let mut input = IndexInput::in_memory(bytes.clone());
        assert_eq!(read_doc_ids(&mut input, docs.len()).unwrap(), docs);
        assert_eq!(input.file_pointer(), n as u64);
        assert!(read_doc_ids(&mut IndexInput::in_memory(bytes[..n - 1].to_vec()), docs.len()).is_err());
    }
    assert_eq!(read_doc_ids(&mut IndexInput::in_memory(vec![99]), 1).unwrap_err().kind(), ErrorKind::InvalidData);
}

// ---------------------------------------------------------------------------
// Doc values
// ---------------------------------------------------------------------------

fn doc_values(f: impl FnOnce(&mut DocValuesWriter)) -> (Vec<u8>, Vec<u8>) {
    let mut w = DocValuesWriter::new("_3", &ID, "s").unwrap();
    f(&mut w);
    let files = w.finish().unwrap();
    assert_eq!(files[0].name, "_3_s.dvd");
    assert_eq!(files[1].name, "_3_s.dvm");
    (files[0].bytes.clone(), files[1].bytes.clone())
}

#[test]
fn fields_of_all_kinds_are_read_back() {
    let numbers: Vec<(u32, i64)> = vec![(0, i64::MIN), (3, i64::MAX), (70_000, -5)];
    let strings: Vec<(u32, Vec<u8>)> = vec![(2, b"".to_vec()), (9, b"xyz".to_vec()), (70_001, b"q".to_vec())];
    let ords: Vec<(u32, u32)> = vec![(1, 1), (5, 0), (6, 1)];
    let (dvd, dvm) = doc_values(|w| {
        w.add_numeric_field(4, 80_000, &numbers).unwrap();
        w.add_sorted_field(5, 100, &[b"left", b"right"], &ords).unwrap();
        w.add_binary_field(6, 80_000, &strings).unwrap();
    });
    let r = DocValuesReader::open(dvd.clone(), dvm.clone(), &ID, "s").unwrap();
    assert_eq!(r.numeric_values(4).unwrap(), numbers);
    assert_eq!(r.sorted_ords(5).unwrap(), ords);
    assert_eq!(r.sorted_dict(5).unwrap(), vec![b"left".to_vec(), b"right".to_vec()]);
    assert_eq!(r.binary_values(6).unwrap(), strings);
    let (docs, bytes, parts) = r.binary_values_packed(6).unwrap();
    assert_eq!(docs, vec![2, 9, 70_001]);
    assert_eq!(bytes, b"xyzq");
    assert_eq!(parts.len(), 3);
    for k in [4, 5] {
        assert_eq!(r.binary_values(k).unwrap_err().kind(), ErrorKind::NotFound);
    }
    assert_eq!(r.numeric_values(6).unwrap_err().kind(), ErrorKind::NotFound);
    assert_eq!(r.sorted_dict(4).unwrap_err().kind(), ErrorKind::NotFound);
    let mut n = NumericDocValuesReader::open(&dvm, &dvd, 4).unwrap();
    assert_eq!(n.get_batch(&[0, 1, 3, 70_000]).unwrap(), vec![Some(i64::MIN), None, Some(i64::MAX), Some(-5)]);
    let mut s = SortedDocValuesReader::open(&dvm, &dvd, 5).unwrap();
    assert_eq!(s.get_ord(6).unwrap(), Some(1));
    assert_eq!(s.get_ord(7).unwrap(), None);
    assert_eq!(s.lookup_ord(1), b"right");
    assert_eq!(NumericDocValuesReader::open(&dvm, &dvd, 9).err().unwrap().kind(), ErrorKind::NotFound);
}

#[test]
fn doc_values_of_another_segment_are_refused() {
    let (dvd, dvm) = doc_values(|w| w.add_numeric_field(0, 1, &[(0, 1)]).unwrap());
    assert!(DocValuesReader::open(dvd.clone(), dvm.clone(), &[9; 16], "s").is_err());
    assert!(DocValuesReader::open(dvd.clone(), dvm.clone(), &ID, "t").is_err());
    let mut broken = dvm.clone();
    let n = broken.len();
    broken[n - 30] ^= 1;
    assert!(DocValuesReader::open(dvd, broken, &ID, "s").is_err());
}

#[test]
fn dictionaries_that_do_not_decompress_are_refused() {
    let dict: Vec<String> = (0..64).map(|i| format!("some-term-{i:03}")).collect();
    let refs: Vec<&[u8]> = dict.iter().map(|s| s.as_bytes()).collect();
    let ords: Vec<(u32, u32)> = (0..64).map(|d| (d, d)).collect();
    let (mut dvd, dvm) = doc_values(|w| w.add_sorted_field(0, 64, &refs, &ords).unwrap());
    let r = DocValuesReader::open(dvd.clone(), dvm.clone(), &ID, "s").unwrap();
    assert_eq!(r.sorted_dict(0).unwrap().len(), 64);
    let at = dvd.windows(13).position(|w| w == b"some-term-000").unwrap() + 13;
    for b in &mut dvd[at + 2..at + 12] {
        *b = 0xff;
    }
    let r = DocValuesReader::open(dvd, dvm, &ID, "s").unwrap();
    assert!(r.sorted_dict(0).is_err());
}

// ---------------------------------------------------------------------------
// Points
// ---------------------------------------------------------------------------

#[test]
fn names_of_points_files() {
    assert_eq!(file_names("_7"), ["_7.kdd".to_string(), "_7.kdi".to_string(), "_7.kdm".to_string()]);
}

#[test]
fn points_are_sorted_by_value_and_document() {
    let points = vec![(5u64, 1u32), (2, 9), (5, 0), (2, 3), (0, 7)];
    assert_eq!(sort_points(&points), vec![(0, 7), (2, 3), (2, 9), (5, 0), (5, 1)]);
    assert!(sort_points(&[]).is_empty());
}

#[test]
fn left_subtrees() {
    let sizes: Vec<usize> = (2..10).map(get_num_left_leaf_nodes).collect();
    assert_eq!(sizes, vec![1, 2, 2, 3, 4, 4, 4, 5]);
}

#[test]
fn indexes_are_read_back() {
    for k in [1usize, 2, 3, 8, 21] {
        let fps: Vec<u64> = (0..k as u64).map(|i| 50 + i * i * 1000).collect();
        let starts: Vec<u64> = (1..k as u64).map(|i| i * 0x0101_0001).collect();
        let packed = pack_index(&fps, &starts, 8);
        let (fps_back, splits) = read_index(&packed, 8, k).unwrap();
        assert_eq!(fps_back, fps);
        let splits: Vec<u64> = splits.iter().map(|s| u64::from_be_bytes(s.as_slice().try_into().unwrap())).collect();
        assert_eq!(splits, starts);
        let mut longer = packed.clone();
        longer.push(0);
        assert_eq!(read_index(&longer, 8, k).unwrap_err().kind(), ErrorKind::InvalidData);
        assert!(read_index(&packed[..packed.len() - 1], 8, k).is_err());
    }
}

#[test]
fn leaves_are_read_within_bounds() {
    let points: Vec<(u64, u32)> = (0..300).map(|i| (long_to_key(i * i - 500), i as u32)).collect();
    let bytes = written(|o| {
        o.write_bytes(&[1, 2, 3]).unwrap();
        write_leaf_block(o, &points, 8).unwrap();
    });
    assert_eq!(read_leaf_block(&bytes, 3, 8, None, None).unwrap().len(), 300);
    let low = long_to_sortable_bytes(-400);
    let high = long_to_sortable_bytes(-100);
    assert_eq!(read_leaf_block(&bytes, 3, 8, Some(&low), Some(&high)).unwrap(), (10..=20).collect::<Vec<u32>>());
    assert_eq!(read_leaf_block(&bytes, 99_999, 8, None, None).unwrap_err().kind(), ErrorKind::UnexpectedEof);
}

struct Points {
    kdd: Vec<u8>,
    kdi: Vec<u8>,
    kdm: Vec<u8>,
    infos: FieldInfos,
}

fn int_points(points: &[(i32, u32)]) -> Points {
    let mut w = PointsWriter::new("_0", &ID).unwrap();
    w.write_field_int(2, &mut points.to_vec()).unwrap();
    let files = w.finish().unwrap();
    let mut info = FieldInfo::stored("age", 2);
    info.point_dimension_count = 1;
    info.point_index_dimension_count = 1;
    info.point_num_bytes = 4;
    Points {
        kdd: files[0].bytes.clone(),
        kdi: files[1].bytes.clone(),
        kdm: files[2].bytes.clone(),
        infos: FieldInfos::new(vec![info]),
    }
}

fn reader_of(p: &Points) -> BKDReader {
    let opened = PointsReader::open(Some(p.kdm.clone()), p.kdi.clone(), p.kdd.clone(), &ID, &p.infos).unwrap().unwrap();
    assert_eq!(opened.data_file(), p.kdd.as_slice());
    let shape = opened.fields()[0].shape;
    let from = shape.index_start_fp as usize;
    let packed = p.kdi[from..from + shape.packed_index_byte_length as usize].to_vec();
    let min = int_to_sortable_bytes(shape.min_value as i32)[..4].to_vec();
    let max = int_to_sortable_bytes(shape.max_value as i32)[..4].to_vec();
    let reader = BKDReader::new(p.kdd.clone(), packed, 4, shape.num_leaves as u32, min, max, shape.point_count as u32);
    assert_eq!(reader.bytes_per_dim(), 4);
    assert_eq!(reader.num_leaves() as usize, shape.num_leaves);
    assert_eq!(reader.point_count() as u64, shape.point_count);
    reader
}

#[test]
fn walks_find_exactly_the_points_within_bounds() {
    let mut rng = Rng(5);
    let points: Vec<(i32, u32)> = (0..4000).map(|_| ((rng.next() % 900) as i32 - 450, (rng.next() % 3000) as u32)).collect();
    let mut reader = reader_of(&int_points(&points));
    let mut sorted = points.clone();
    sorted.sort();
    for (low, high) in [(-450, 450), (-1000, -449), (0, 0), (17, 16), (300, 2000), (-3, 250)] {
        let want: Vec<u32> = sorted.iter().filter(|p| low <= p.0 && p.0 <= high).map(|p| p.1).collect();
        let bound = |v: i32| Some(int_to_sortable_bytes(v)[..4].to_vec());
        assert_eq!(reader.intersect(bound(low), bound(high)).unwrap(), want, "[{low}, {high}]");
    }
    let all: Vec<u32> = sorted.iter().map(|p| p.1).collect();
    assert_eq!(reader.intersect(None, None).unwrap(), all);
    assert_eq!(reader.intersect(Some(Vec::new()), None).unwrap(), all);
    assert!(reader.intersect(None, Some(Vec::new())).unwrap().is_empty());
}

#[test]
fn points_that_differ_from_their_infos_are_refused() {
    let p = int_points(&[(1, 1), (2, 2)]);
    let open = |infos: &FieldInfos| PointsReader::open(Some(p.kdm.clone()), p.kdi.clone(), p.kdd.clone(), &ID, infos).err().map(|e| e.kind());
    assert_eq!(open(&p.infos), None);
    assert_eq!(open(&FieldInfos::new(vec![FieldInfo::stored("age", 2)])), Some(ErrorKind::InvalidData));
    assert_eq!(open(&FieldInfos::new(vec![FieldInfo::stored("age", 3)])), Some(ErrorKind::InvalidData));
    let short = PointsReader::open(Some(p.kdm.clone()), p.kdi[..p.kdi.len() - 1].to_vec(), p.kdd.clone(), &ID, &p.infos);
    assert_eq!(short.err().unwrap().kind(), ErrorKind::InvalidData);
    let mut broken = p.kdm.clone();
    broken[60] ^= 1;
    assert!(PointsReader::open(Some(broken), p.kdi.clone(), p.kdd.clone(), &ID, &p.infos).is_err());
}

#[test]
fn damaged_trees_are_refused() {
    let p = int_points(&(0..2000).map(|i| (i, i as u32)).collect::<Vec<_>>());
    let shape = PointsReader::open(Some(p.kdm.clone()), p.kdi.clone(), p.kdd.clone(), &ID, &p.infos).unwrap().unwrap().fields()[0].shape;
    let from = shape.index_start_fp as usize;
    let packed = p.kdi[from..from + shape.packed_index_byte_length as usize - 1].to_vec();
    let min = int_to_sortable_bytes(0)[..4].to_vec();
    let max = int_to_sortable_bytes(1999)[..4].to_vec();
    let mut reader = BKDReader::new(p.kdd.clone(), packed, 4, shape.num_leaves as u32, min, max, 2000);
    assert_eq!(reader.intersect(None, None).unwrap_err().kind(), ErrorKind::UnexpectedEof);
}

#[test]
fn checksum_begins_where_the_output_was_wrapped() {
    let mut plain = IndexOutput::in_memory();
    plain.write_bytes(b"head").unwrap();
    let mut out = ChecksumIndexOutput::new(plain);
    out.write_bytes(b"123456789").unwrap();
    assert_eq!(out.get_checksum(), 0xCBF4_3926);
    assert_eq!(out.file_pointer(), 13);
    write_footer(&mut out).unwrap();
    let bytes = out.into_bytes();
    assert_eq!(&bytes[..13], b"head123456789");
    let mut tail = ChecksumIndexOutput::new(IndexOutput::in_memory());
    tail.write_bytes(&bytes[4..21]).unwrap();
    assert_eq!(&bytes[21..], &tail.get_checksum().to_be_bytes()[..]);
}

#[test]
fn clone_of_an_automaton_accepts_the_same() {
    let dfa = WildcardDfa::compile(b"a*b?");
    let copy = dfa.clone();
    for text in [&b"ab1"[..], b"axxbz", b"b1", b"ab", b""] {
        assert_eq!(copy.accepts(text), dfa.accepts(text));
    }
    assert!(copy.accepts(b"axxbz"));
}

#[test]
fn monotonic_blocks_may_dip_inside() {
    let values = [10u64, 50, 30, 90];
    let mut meta = ChecksumIndexOutput::new(IndexOutput::in_memory());
    let mut data = ChecksumIndexOutput::new(IndexOutput::in_memory());
    direct_monotonic_write(&mut meta, &mut data, &values, 4).unwrap();
    let (meta, data) = (meta.into_bytes(), data.into_bytes());
    let reader = DirectMonotonicReader::new(&meta, &data, values.len(), 4).unwrap();
    for (i, &v) in values.iter().enumerate() {
        assert_eq!(reader.get(i as u64), v);
    }
}

#[test]
fn an_automaton_has_few_states() {
    assert_eq!(WildcardDfa::compile(b"").num_states(), 1);
    assert_eq!(WildcardDfa::compile(b"abc").num_states(), 4);
    assert_eq!(WildcardDfa::compile(b"*").num_states(), 1);
    let dfa = WildcardDfa::compile("h\u{e9}llo?x*".as_bytes());
    assert_eq!(dfa.deterministic_prefix().0, "h\u{e9}llo".as_bytes().to_vec());
    assert_eq!(dfa.single_string(), None);
    assert!(dfa.num_states() < 100);
    for text in ["h\u{e9}llo\u{20ac}x", "h\u{e9}lloyxyz"] {
        assert!(dfa.accepts(text.as_bytes()));
    }
    assert!(!dfa.accepts("h\u{e9}llox".as_bytes()));
}

#[test]
fn a_byte_leads_nowhere_where_no_term_goes_on_so() {
    let dfa = WildcardDfa::compile(b"a*bc");
    let mut state = dfa.start();
    for b in *b"axxb" {
        state = dfa.transition(state, b);
        assert!((state as usize) < dfa.num_states());
    }
    assert_ne!(dfa.transition(state, b'c'), DEAD);
    assert_ne!(dfa.transition(state, b'z'), DEAD);
    assert_eq!(dfa.transition(dfa.start(), b'b'), DEAD);
}

#[test]
fn a_transducer_begins_with_a_byte_of_no_node() {
    let none = FstCompiler::new().finish();
    assert_eq!((none.bytes(), none.start_node(), none.num_bytes()), (&[0u8][..], 0, 1));
    let mut compiler = FstCompiler::new();
    compiler.add(b"", Some(b"all"));
    let only_empty = compiler.finish();
    assert_eq!((only_empty.bytes(), only_empty.start_node()), (&[0u8][..], 0));
    assert_eq!(only_empty.empty_output(), Some(&b"all"[..]));
    let inputs: [&[u8]; 4] = [b"", b"in", b"inn", b"out"];
    let (mut with, mut without) = (FstCompiler::new(), FstCompiler::new());
    for input in inputs {
        with.add(input, Some(b""));
        without.add(input, None);
    }
    let (with, without) = (with.finish(), without.finish());
    assert_eq!(with.bytes(), without.bytes());
    assert_eq!(with.start_node(), without.start_node());
    assert_eq!(with.empty_output(), without.empty_output());
    assert_eq!(with.bytes()[0], 0);
    assert_eq!(with.start_node(), with.num_bytes() - 1);
}

#[test]
fn frames_of_a_path_are_lookups() {
    let mut compiler = FstCompiler::new();
    for (input, output) in [(&b"a"[..], &b"one"[..]), (b"abc", b"three"), (b"abcde", b""), (b"b", b"x")] {
        compiler.add(input, Some(output));
    }
    let fst = compiler.finish();
    let meta = written(|o| fst.write_metadata(o).unwrap());
    let metadata = FstMetadata::read(&mut IndexInput::in_memory(meta)).unwrap();
    let reader = FstReader::new(fst.bytes().to_vec(), &metadata);
    let way = b"abcdef";
    let frames = reader.trace_path(way).unwrap();
    assert_eq!(frames, vec![(1, b"one".to_vec()), (3, b"three".to_vec()), (5, Vec::new())]);
    for n in 1..=way.len() {
        let found = frames.iter().find(|f| f.0 == n).map(|f| f.1.clone());
        assert_eq!(reader.lookup(&way[..n]).unwrap(), found);
    }
}

#[test]
fn wide_blocks_leave_the_input_alone() {
    let mut input = IndexInput::in_memory(vec![1; 64]);
    let mut values = [7u64; 128];
    assert_eq!(for_util_decode(&mut input, &mut values, 33).unwrap_err().kind(), ErrorKind::InvalidData);
    assert_eq!(input.file_pointer(), 0);
    assert_eq!(values, [7u64; 128]);
}

#[test]
fn documents_that_do_not_ascend_are_kept() {
    let region = [0u8, 0, 1, 0, 100, 0, 5, 0, 0xff, 0x7f, 0, 0, 0xff, 0xff];
    let reader = IndexedDISIReader::parse(&region, 0, 14, 0, 2).unwrap();
    assert_eq!(reader.doc_index(5), Some(1));
    assert_eq!(reader.doc_index(6), None);
    assert!(!reader.has_doc(7));
    assert_eq!(decode_disi_region(&region, 2).unwrap(), vec![100, 5]);
}

#[test]
fn a_bit_set_gives_the_documents_it_holds() {
    let mut bytes = vec![255u8, 1, 1];
    bytes.extend_from_slice(&0x8000_0000_0000_0005u64.to_le_bytes());
    for n in [0, 3, 64] {
        assert_eq!(read_doc_ids(&mut IndexInput::in_memory(bytes.clone()), n).unwrap(), vec![64, 66, 127]);
    }
}

#[test]
fn leaf_prefix_may_be_longer_than_a_value() {
    let head = [1u8, 254, 9];
    let equal = [&head[..], &[6, 1, 2, 3, 4, 5, 6, 255]].concat();
    assert_eq!(read_leaf_block(&equal, 0, 4, Some(&[1, 2, 3, 4]), Some(&[1, 2, 3, 4])).unwrap(), vec![9]);
    assert_eq!(read_leaf_block(&equal, 0, 4, Some(&[1, 2, 3, 5]), None).unwrap(), Vec::<u32>::new());
    let short = [&head[..], &[2, 1, 2, 255]].concat();
    assert_eq!(read_leaf_block(&short, 0, 4, Some(&[1, 2, 0, 0]), Some(&[1, 2, 0, 0])).unwrap(), vec![9]);
    let runs = [&head[..], &[4, 1, 2, 3, 4, 0, 77, 1]].concat();
    assert_eq!(read_leaf_block(&runs, 0, 4, Some(&[1, 2, 3, 4]), Some(&[1, 2, 3, 4])).unwrap(), vec![9]);
    let too_long = [&head[..], &[9, 1, 2, 3, 4, 5, 6, 7, 8, 9, 255]].concat();
    assert_eq!(read_leaf_block(&too_long, 0, 4, None, None).unwrap_err().kind(), ErrorKind::InvalidData);
}

#[test]
fn a_run_may_go_past_the_documents_out_of_the_bounds() {
    let leaf = [2u8, 254, 7, 0, 0, 5, 1, 200, 3];
    assert_eq!(read_leaf_block(&leaf, 0, 1, None, Some(&[100])).unwrap(), vec![7]);
    assert_eq!(read_leaf_block(&leaf, 0, 1, None, None).unwrap_err().kind(), ErrorKind::InvalidData);
    assert_eq!(read_leaf_block(&leaf[..7], 0, 1, None, None).unwrap_err().kind(), ErrorKind::UnexpectedEof);
}

#[test]
fn packed_values_may_begin_behind_their_end() {
    let values = [(0, b"a".to_vec()), (1, vec![b'b'; 10]), (2, b"c".to_vec())];
    let (mut dvd, dvm) = doc_values(|w| w.add_binary_field(1, 3, &values).unwrap());
    let reader = DocValuesReader::open(dvd.clone(), dvm.clone(), &ID, "s").unwrap();
    assert_eq!(reader.binary_values_packed(1).unwrap().2, vec![(0, 1), (1, 11), (11, 12)]);
    let at = dvd.windows(14).position(|w| w == b"abbbbbbbbbbc\x03\x36").unwrap();
    dvd[at + 13] = 0x06;
    let reader = DocValuesReader::open(dvd, dvm, &ID, "s").unwrap();
    let (docs, data, bounds) = reader.binary_values_packed(1).unwrap();
    assert_eq!((docs, data), (vec![0, 1, 2], b"abbbbbbbbbbc".to_vec()));
    assert_eq!(bounds, vec![(0, 1), (1, 11), (11, 9)]);
    assert_eq!(reader.binary_values(1).unwrap_err().kind(), ErrorKind::InvalidData);
}

#[test]
fn random_access_finds_no_other_field() {
    let dict: [&[u8]; 2] = [b"x", b"y"];
    let text = [(0, b"t".to_vec())];
    let (dvd, dvm) = doc_values(|w| {
        w.add_numeric_field(1, 4, &[(0, 10), (3, 13)]).unwrap();
        w.add_sorted_field(2, 4, &dict, &[(1, 1), (2, 0)]).unwrap();
        w.add_binary_field(3, 4, &text).unwrap();
    });
    let kind = |number: i32| {
        (
            NumericDocValuesReader::open(&dvm, &dvd, number).err().map(|e| e.kind()),
            SortedDocValuesReader::open(&dvm, &dvd, number).err().map(|e| e.kind()),
        )
    };
    assert_eq!(kind(1), (None, Some(ErrorKind::InvalidData)));
    assert_eq!(kind(2), (Some(ErrorKind::InvalidData), None));
    assert_eq!(kind(3), (Some(ErrorKind::InvalidData), Some(ErrorKind::InvalidData)));
    assert_eq!(kind(4), (Some(ErrorKind::NotFound), Some(ErrorKind::NotFound)));
}

#[test]
fn a_term_shares_no_more_than_the_term_before_it_has() {
    let dict: [&[u8]; 3] = [b"qa", b"zb", b"zbc"];
    let (mut dvd, dvm) = doc_values(|w| w.add_sorted_field(0, 3, &dict, &[(0, 0), (1, 1), (2, 2)]).unwrap());
    let r = SortedDocValuesReader::open(&dvm, &dvd, 0).unwrap();
    assert_eq!(r.lookup_ord(2), b"zbc");
    let at = dvd.windows(2).position(|w| w == b"zb").unwrap();
    assert_eq!(dvd[at - 1], 0x10);
    dvd[at - 1] = 0x15;
    let r = SortedDocValuesReader::open(&dvm, &dvd, 0).unwrap();
    assert_eq!(r.lookup_ord(0), b"qa");
    assert_eq!(r.lookup_ord(1), b"qazb");
    assert_eq!(r.lookup_ord(2), b"qac");
}

#[test]
fn a_place_of_the_index_may_take_ten_groups() {
    let points: Vec<(i32, u32)> = (0..1000).map(|i| (i, i as u32)).collect();
    let p = int_points(&points);
    let shape = PointsReader::open(Some(p.kdm.clone()), p.kdi.clone(), p.kdd.clone(), &ID, &p.infos).unwrap().unwrap().fields()[0].shape;
    let from = shape.index_start_fp as usize;
    let packed = p.kdi[from..from + shape.packed_index_byte_length as usize].to_vec();
    let n = packed.iter().position(|b| *b < 128).unwrap() + 1;
    let open = |groups: usize| {
        let mut longer: Vec<u8> = packed[..n].iter().map(|b| b | 128).collect();
        longer.resize(groups - 1, 128);
        longer.push(0);
        longer.extend_from_slice(&packed[n..]);
        let bound = |v: i32| int_to_sortable_bytes(v)[..4].to_vec();
        BKDReader::new(p.kdd.clone(), longer, 4, shape.num_leaves as u32, bound(0), bound(999), 1000)
    };
    let all: Vec<u32> = (0..1000).collect();
    assert_eq!(open(9).intersect(None, None).unwrap(), all);
    assert_eq!(open(10).intersect(None, None).unwrap(), all);
    assert_eq!(open(11).intersect(None, None).unwrap_err().kind(), ErrorKind::InvalidData);
}

#[test]
fn a_code_below_zero_steps_down_in_the_first_byte() {
    let p = int_points(&(0..1000).map(|i| (i, i as u32)).collect::<Vec<_>>());
    let shape = PointsReader::open(Some(p.kdm.clone()), p.kdi.clone(), p.kdd.clone(), &ID, &p.infos).unwrap().unwrap().fields()[0].shape;
    assert_eq!(shape.num_leaves, 2);
    let from = shape.index_start_fp as usize;
    let packed = p.kdi[from..from + shape.packed_index_byte_length as usize].to_vec();
    let place = packed.iter().position(|b| *b < 128).unwrap() + 1;
    // Behind the code come the bytes of the value that it leaves open.
    let mut input = IndexInput::in_memory(packed[place..].to_vec());
    let shared = input.read_vint().unwrap() as usize % 5;
    let right = packed[place + input.file_pointer() as usize + 3 - shared..].to_vec();
    let open = |code: i32| {
        let mut index = packed[..place].to_vec();
        index.extend_from_slice(&written(|o| o.write_vint(code).unwrap()));
        index.extend_from_slice(&[0, 0, 0]);
        index.extend_from_slice(&right);
        let bound = |v: i32| int_to_sortable_bytes(v)[..4].to_vec();
        BKDReader::new(p.kdd.clone(), index, 4, 2, bound(0), bound(999), 1000)
    };
    let all: Vec<u32> = (0..1000).collect();
    assert_eq!(open(-5).intersect(None, None).unwrap(), all);
    let high = int_to_sortable_bytes(998)[..4].to_vec();
    assert_eq!(open(-5).intersect(None, Some(high)).unwrap(), all[..512]);
    assert_eq!(open(-4).intersect(None, None).unwrap_err().kind(), ErrorKind::InvalidData);
}

#[test]
fn document_ids_are_written_in_the_form_that_fits() {
    let flag = |docs: &[u32]| written(|o| write_doc_ids(o, docs).unwrap())[0];
    assert_eq!(flag(&(100..612).collect::<Vec<u32>>()), 254);
    assert_eq!(flag(&(0..300).map(|i| i * 3).collect::<Vec<u32>>()), 255);
    assert_eq!(flag(&(0..511).map(|i| i / 2).collect::<Vec<u32>>()), 16);
    assert_eq!(flag(&(0..77).map(|i| i * 100_000).collect::<Vec<u32>>()), 24);
    assert_eq!(flag(&[0, 5, 1 << 24, 7, u32::MAX, 42]), 32);
}
