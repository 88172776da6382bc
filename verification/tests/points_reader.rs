//! Walks over trees of points.

use codec_lucene9::codec_util::{index_header_length, CODEC_MAGIC};
use codec_lucene9::points::{PointsWriter, MAX_POINTS_IN_LEAF_NODE};
use codec_lucene9::points_reader::BKDReader;
use std::collections::BTreeSet;

struct Rng(u64);

impl Rng {
    fn next(&mut self) -> u64 {
        self.0 = self.0.wrapping_add(0x9E3779B97F4A7C15);
        let mut z = self.0;
        z = (z ^ (z >> 30)).wrapping_mul(0xBF58476D1CE4E5B9);
        z = (z ^ (z >> 27)).wrapping_mul(0x94D049BB133111EB);
        z ^ (z >> 31)
    }
    fn below(&mut self, n: u64) -> u64 {
        self.next() % n
    }
}

fn long_to_sortable_bytes(value: i64) -> [u8; 8] {
    ((value as u64) ^ 0x8000_0000_0000_0000).to_be_bytes()
}

fn int_to_sortable_bytes(value: i32) -> [u8; 8] {
    let mut bytes = [0u8; 8];
    bytes[..4].copy_from_slice(&((value as u32) ^ 0x8000_0000).to_be_bytes());
    bytes
}

struct TestSegment {
    kdd_bytes: Vec<u8>,
    kdi_bytes: Vec<u8>,
    kdm_bytes: Vec<u8>,
}

fn segment_of(writer: PointsWriter) -> TestSegment {
    let files = writer.finish().unwrap();
    TestSegment {
        kdd_bytes: files[0].bytes.clone(),
        kdi_bytes: files[1].bytes.clone(),
        kdm_bytes: files[2].bytes.clone(),
    }
}

fn write_long_field(points: &[(i64, u32)]) -> TestSegment {
    let seg_id = [0xDBu8; 16];
    let mut writer = PointsWriter::new("_0", &seg_id).unwrap();
    writer.write_field_long(0, &mut points.to_vec()).unwrap();
    segment_of(writer)
}

fn write_int_field(points: &[(i32, u32)]) -> TestSegment {
    let seg_id = [0xDBu8; 16];
    let mut writer = PointsWriter::new("_0", &seg_id).unwrap();
    writer.write_field_int(0, &mut points.to_vec()).unwrap();
    segment_of(writer)
}

fn parse_kdm_meta(kdm: &[u8]) -> Vec<KdmFieldMeta> {
    let _data_codec = "Lucene90PointsFormatData";
    let _index_codec = "Lucene90PointsFormatIndex";
    let meta_codec = "Lucene90PointsFormatMeta";

    let hdr_len = index_header_length(meta_codec, "");
    let mut pos = hdr_len;

    let mut fields = Vec::new();
    loop {
        let field_number = i32::from_le_bytes(
            kdm[pos..pos + 4].try_into().unwrap(),
        );
        pos += 4;
        if field_number == -1 {
            break;
        }
        let magic = u32::from_be_bytes(kdm[pos..pos + 4].try_into().unwrap());
        pos += 4;
        assert_eq!(magic, CODEC_MAGIC);
        let name_len = read_vint_at(kdm, &mut pos);
        let name = &kdm[pos..pos + name_len];
        pos += name_len;
        assert_eq!(name, b"BKD");
        let version = u32::from_be_bytes(kdm[pos..pos + 4].try_into().unwrap());
        pos += 4;
        assert_eq!(version, 9);

        assert_eq!(read_vint_at(kdm, &mut pos), 1);
        assert_eq!(read_vint_at(kdm, &mut pos), 1);
        assert_eq!(read_vint_at(kdm, &mut pos), MAX_POINTS_IN_LEAF_NODE);
        let bytes_per_dim = read_vint_at(kdm, &mut pos);
        let num_leaves = read_vint_at(kdm, &mut pos);
        assert!(num_leaves > 0);

        let mut min_value = vec![0u8; bytes_per_dim];
        min_value.copy_from_slice(&kdm[pos..pos + bytes_per_dim]);
        pos += bytes_per_dim;

        let mut max_value = vec![0u8; bytes_per_dim];
        max_value.copy_from_slice(&kdm[pos..pos + bytes_per_dim]);
        pos += bytes_per_dim;

        let point_count = read_vlong_at(kdm, &mut pos);
        let _doc_count = read_vint_at(kdm, &mut pos);
        let packed_index_len = read_vint_at(kdm, &mut pos);
        let _data_start_fp = u64::from_le_bytes(
            kdm[pos..pos + 8].try_into().unwrap(),
        );
        pos += 8;
        let index_start_fp = u64::from_le_bytes(
            kdm[pos..pos + 8].try_into().unwrap(),
        );
        pos += 8;

        fields.push(KdmFieldMeta {
            field_number,
            bytes_per_dim: bytes_per_dim as u8,
            num_leaves: num_leaves as u32,
            min_value,
            max_value,
            point_count: point_count as u32,
            packed_index_len,
            index_start_fp,
        });
    }

    fields
}

struct KdmFieldMeta {
    field_number: i32,
    bytes_per_dim: u8,
    num_leaves: u32,
    min_value: Vec<u8>,
    max_value: Vec<u8>,
    point_count: u32,
    packed_index_len: usize,
    index_start_fp: u64,
}

fn read_vint_at(bytes: &[u8], pos: &mut usize) -> usize {
    let mut v = 0u32;
    let mut shift = 0;
    loop {
        let b = bytes[*pos];
        *pos += 1;
        v |= (b as u32 & 0x7f) << shift;
        if b & 0x80 == 0 {
            return v as usize;
        }
        shift += 7;
    }
}

fn read_vlong_at(bytes: &[u8], pos: &mut usize) -> u64 {
    let mut v = 0u64;
    let mut shift = 0;
    loop {
        let b = bytes[*pos];
        *pos += 1;
        v |= (b as u64 & 0x7f) << shift;
        if b & 0x80 == 0 {
            return v;
        }
        shift += 7;
    }
}

fn reader_from_segment(
    seg: &TestSegment,
) -> (BKDReader, KdmFieldMeta) {
    let metas = parse_kdm_meta(&seg.kdm_bytes);
    assert_eq!(metas.len(), 1, "expected exactly one field");
    let meta = metas.into_iter().next().unwrap();

    let idx_start = meta.index_start_fp as usize;
    let idx_end = idx_start + meta.packed_index_len;
    let packed_index = seg.kdi_bytes[idx_start..idx_end].to_vec();

    let data_input = seg.kdd_bytes.clone();

    let reader = BKDReader::new(
        data_input,
        packed_index,
        meta.bytes_per_dim,
        meta.num_leaves,
        meta.min_value.clone(),
        meta.max_value.clone(),
        meta.point_count,
    );

    (reader, meta)
}

fn value_in_range(value: &[u8], lower: Option<&[u8]>, upper: Option<&[u8]>) -> bool {
    lower.map_or(true, |l| value >= l) && upper.map_or(true, |u| value <= u)
}

fn expected_matches<T: Copy + Ord>(
    points: &[(T, u32)],
    bytes_per_dim: usize,
    to_sortable: fn(T) -> [u8; 8],
    lower: Option<&[u8]>,
    upper: Option<&[u8]>,
) -> Vec<u32> {
    let mut docs = BTreeSet::new();
    for &(value, doc) in points {
        let packed = to_sortable(value);
        if value_in_range(&packed[..bytes_per_dim], lower, upper) {
            docs.insert(doc);
        }
    }
    docs.into_iter().collect()
}

#[test]
fn intersect_empty_range() {
    let points: Vec<(i64, u32)> = (0..100).map(|i| (i as i64, i as u32)).collect();
    let seg = write_long_field(&points);
    let (mut reader, _meta) = reader_from_segment(&seg);

    let got = reader
        .intersect(
            Some(long_to_sortable_bytes(200).to_vec()),
            Some(long_to_sortable_bytes(300).to_vec()),
        )
        .unwrap();
    assert!(got.is_empty());
}

#[test]
fn intersect_full_range() {
    let points: Vec<(i64, u32)> = (0..1000).map(|i| (i as i64, (i % 50) as u32)).collect();
    let seg = write_long_field(&points);
    let (mut reader, meta) = reader_from_segment(&seg);

    let got = reader.intersect(None, None).unwrap();
    let expected = expected_matches(
        &points, 8, long_to_sortable_bytes, None, None,
    );
    assert_eq!(got.len(), meta.point_count as usize);
    let mut got_sorted = got.clone();
    got_sorted.sort_unstable();
    got_sorted.dedup();
    assert_eq!(got_sorted, expected);
}

#[test]
fn intersect_sub_range_long() {
    let mut rng = Rng(42);
    let n = 5000usize;
    let doc_range = 2000u64;
    let mut points = Vec::with_capacity(n);
    for _ in 0..n {
        let v = (rng.next() % 100_000) as i64 - 50_000;
        points.push((v, rng.below(doc_range) as u32));
    }

    let seg = write_long_field(&points);
    let (mut reader, _meta) = reader_from_segment(&seg);

    let lo = -10_000i64;
    let hi = 10_000i64;
    let lower = Some(long_to_sortable_bytes(lo).to_vec());
    let upper = Some(long_to_sortable_bytes(hi).to_vec());

    let got = reader.intersect(lower.clone(), upper.clone()).unwrap();

    let expected = expected_matches(
        &points,
        8,
        long_to_sortable_bytes,
        lower.as_deref().map(|v| &v[..]),
        upper.as_deref().map(|v| &v[..]),
    );
    let mut got_set: Vec<u32> = got.into_iter().collect();
    got_set.sort_unstable();
    got_set.dedup();
    assert_eq!(got_set, expected);
}

#[test]
fn intersect_sub_range_int() {
    let mut rng = Rng(77);
    let n = 3000usize;
    let doc_range = 1000u64;
    let mut points = Vec::with_capacity(n);
    for _ in 0..n {
        let v = (rng.next() % 500_000) as i32 - 250_000;
        points.push((v, rng.below(doc_range) as u32));
    }

    let seg = write_int_field(&points);
    let (mut reader, _meta) = reader_from_segment(&seg);

    let lo = -50_000i32;
    let hi = 50_000i32;
    let lower = Some(int_to_sortable_bytes(lo)[..4].to_vec());
    let upper = Some(int_to_sortable_bytes(hi)[..4].to_vec());

    let got = reader.intersect(lower.clone(), upper.clone()).unwrap();

    let expected = expected_matches(
        &points,
        4,
        |v| int_to_sortable_bytes(v),
        lower.as_deref().map(|v| &v[..]),
        upper.as_deref().map(|v| &v[..]),
    );
    let mut got_set: Vec<u32> = got.into_iter().collect();
    got_set.sort_unstable();
    got_set.dedup();
    assert_eq!(got_set, expected);
}

#[test]
fn intersect_single_point() {
    let points = vec![(42i64, 7u32)];
    let seg = write_long_field(&points);
    let (mut reader, _meta) = reader_from_segment(&seg);

    let val = long_to_sortable_bytes(42).to_vec();
    let got = reader
        .intersect(Some(val.clone()), Some(val.clone()))
        .unwrap();
    assert_eq!(got, vec![7]);

    let got = reader
        .intersect(
            Some(long_to_sortable_bytes(99).to_vec()),
            Some(long_to_sortable_bytes(99).to_vec()),
        )
        .unwrap();
    assert!(got.is_empty());
}

#[test]
fn intersect_boundary_exact() {
    let points: Vec<(i64, u32)> = vec![
        (-100, 1),
        (-50, 2),
        (0, 3),
        (50, 4),
        (100, 5),
    ];
    let seg = write_long_field(&points);
    let (mut reader, _meta) = reader_from_segment(&seg);

    let got = reader
        .intersect(Some(long_to_sortable_bytes(-50).to_vec()), None)
        .unwrap();
    let got_set: BTreeSet<u32> = got.into_iter().collect();
    assert_eq!(got_set, BTreeSet::from([2, 3, 4, 5]));

    let got = reader
        .intersect(None, Some(long_to_sortable_bytes(50).to_vec()))
        .unwrap();
    let got_set: BTreeSet<u32> = got.into_iter().collect();
    assert_eq!(got_set, BTreeSet::from([1, 2, 3, 4]));

    let got = reader
        .intersect(
            Some(long_to_sortable_bytes(-50).to_vec()),
            Some(long_to_sortable_bytes(50).to_vec()),
        )
        .unwrap();
    let got_set: BTreeSet<u32> = got.into_iter().collect();
    assert_eq!(got_set, BTreeSet::from([2, 3, 4]));
}

#[test]
fn intersect_all_equal_values() {
    let points: Vec<(i64, u32)> = (0..1200u32).map(|doc| (777, doc)).collect();
    let seg = write_long_field(&points);
    let (mut reader, meta) = reader_from_segment(&seg);
    assert_eq!(meta.point_count, 1200);
    assert!(meta.num_leaves > 1);

    let val = long_to_sortable_bytes(777).to_vec();
    let got = reader
        .intersect(Some(val.clone()), Some(val))
        .unwrap();
    let got_set: BTreeSet<u32> = got.into_iter().collect();
    assert_eq!(got_set, (0..1200u32).collect());

    let got = reader
        .intersect(
            Some(long_to_sortable_bytes(0).to_vec()),
            Some(long_to_sortable_bytes(100).to_vec()),
        )
        .unwrap();
    assert!(got.is_empty());
}

#[test]
fn intersect_multi_leaf_non_full_last() {
    for n in [511usize, 513, 1023, 1025, 2047] {
        let points: Vec<(i64, u32)> = (0..n)
            .map(|i| (i as i64 * 3, (i % 200) as u32))
            .collect();
        let seg = write_long_field(&points);
        let (mut reader, _meta) = reader_from_segment(&seg);

        let got = reader.intersect(None, None).unwrap();
        assert_eq!(got.len(), n);

        let lo = (n / 3) as i64 * 3;
        let hi = (2 * n / 3) as i64 * 3;
        let got = reader
            .intersect(
                Some(long_to_sortable_bytes(lo).to_vec()),
                Some(long_to_sortable_bytes(hi).to_vec()),
            )
            .unwrap();
        let got_set: BTreeSet<u32> = got.into_iter().collect();
        assert!(!got_set.is_empty());
    }
}

#[test]
fn intersect_multi_field_segment() {
    let long_pts: Vec<(i64, u32)> = (0..600u32)
        .map(|i| (i as i64 * 2, i % 100))
        .collect();
    let int_pts: Vec<(i32, u32)> = (0..600u32)
        .map(|i| (i as i32 - 300, (i + 50) % 100))
        .collect();

    let seg_id = [0xCCu8; 16];
    let mut writer = PointsWriter::new("_0", &seg_id).unwrap();
    writer.write_field_long(1, &mut long_pts.clone()).unwrap();
    writer.write_field_int(2, &mut int_pts.clone()).unwrap();
    let seg = segment_of(writer);
    let (kdd, kdi, kdm) = (seg.kdd_bytes, seg.kdi_bytes, seg.kdm_bytes);

    let metas = parse_kdm_meta(&kdm);
    assert_eq!(metas.len(), 2);

    let m0 = &metas[0];
    assert_eq!(m0.field_number, 1);
    let pi0 = kdi[m0.index_start_fp as usize..][..m0.packed_index_len].to_vec();
    let di0 = kdd.clone();
    let mut r0 = BKDReader::new(
        di0, pi0, m0.bytes_per_dim, m0.num_leaves,
        m0.min_value.clone(), m0.max_value.clone(), m0.point_count,
    );
    let got0 = r0.intersect(
        Some(long_to_sortable_bytes(100).to_vec()),
        Some(long_to_sortable_bytes(200).to_vec()),
    ).unwrap();
    assert!(!got0.is_empty());

    let m1 = &metas[1];
    assert_eq!(m1.field_number, 2);
    let pi1 = kdi[m1.index_start_fp as usize..][..m1.packed_index_len].to_vec();
    let di1 = kdd;
    let mut r1 = BKDReader::new(
        di1, pi1, m1.bytes_per_dim, m1.num_leaves,
        m1.min_value.clone(), m1.max_value.clone(), m1.point_count,
    );
    let got1 = r1.intersect(
        Some(int_to_sortable_bytes(-100)[..4].to_vec()),
        Some(int_to_sortable_bytes(100)[..4].to_vec()),
    ).unwrap();
    assert!(!got1.is_empty());
}

#[test]
fn intersect_5000_sequential() {
    let points: Vec<(i64, u32)> = (0..5000)
        .map(|i| ((i as i64 - 2500) * 7, (i % 700) as u32))
        .collect();
    let seg = write_long_field(&points);
    let (mut reader, meta) = reader_from_segment(&seg);
    assert_eq!(meta.point_count, 5000);
    assert!(meta.num_leaves > 5, "expected 10 leaves, got {}", meta.num_leaves);

    let got = reader.intersect(None, None).unwrap();
    assert_eq!(got.len(), 5000);
}

#[test]
fn intersect_random_larger() {
    
    let mut rng = Rng(42);
    let n = 5000usize;
    let doc_range = 2000u64;
    let mut points = Vec::with_capacity(n);
    for _ in 0..n {
        let v = (rng.next() % 100_000) as i64 - 50_000;
        points.push((v, rng.below(doc_range) as u32));
    }

    let seg = write_long_field(&points);
    let (mut reader, meta) = reader_from_segment(&seg);
    assert_eq!(meta.point_count, 5000);

    let got = reader.intersect(None, None).unwrap();
    assert_eq!(got.len(), 5000, "full range should match point count");
}
