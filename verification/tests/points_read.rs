//! Opening of points files.

use codec_lucene9::field_infos::{FieldInfo, FieldInfos};
use codec_lucene9::points::PointsWriter;
use codec_lucene9::points_read::PointsReader;
use std::collections::BTreeSet;

struct Rng(u64);

impl Rng {
    fn next(&mut self) -> u64 {
        self.0 = self.0.wrapping_add(0x9E3779B97F4A7C15);
        let mut z = self.0;
        z = (z ^ (z >> 30)).wrapping_mul(0xBF58476D1CE4E5B9);
        z = (z ^ (z >> 27)).wrapping_mul(0x94D049BB133111EB);
        z ^ (z >> 31)
    }
    fn below(&mut self, n: u64) -> u64 {
        self.next() % n
    }
}

struct Segment {
    kdd: Vec<u8>,
    kdi: Vec<u8>,
    kdm: Vec<u8>,
}

fn write_segment(long_fields: &[(i32, &str, Vec<(i64, u32)>)], int_fields: &[(i32, &str, Vec<(i32, u32)>)]) -> (Segment, FieldInfos) {
    let seg_id = [7u8; 16];
    let mut fis_vec = Vec::new();
    for &(number, name, _) in long_fields {
        let mut fi = FieldInfo::stored(name, number);
        fi.point_dimension_count = 1;
        fi.point_index_dimension_count = 1;
        fi.point_num_bytes = 8;
        fis_vec.push(fi);
    }
    for &(number, name, _) in int_fields {
        let mut fi = FieldInfo::stored(name, number);
        fi.point_dimension_count = 1;
        fi.point_index_dimension_count = 1;
        fi.point_num_bytes = 4;
        fis_vec.push(fi);
    }
    let fis = FieldInfos::new(fis_vec);
    fis.write("_0", &seg_id, "").unwrap();
    let mut w = PointsWriter::new("_0", &seg_id).unwrap();
    for (number, _, pts) in long_fields {
        w.write_field_long(*number, &mut pts.clone()).unwrap();
    }
    for (number, _, pts) in int_fields {
        w.write_field_int(*number, &mut pts.clone()).unwrap();
    }
    let files = w.finish().unwrap();
    let segment = Segment {
        kdd: files[0].bytes.clone(),
        kdi: files[1].bytes.clone(),
        kdm: files[2].bytes.clone(),
    };
    (segment, fis)
}

fn open(root: &Segment, fis: &FieldInfos) -> PointsReader {
    PointsReader::open(Some(root.kdm.clone()), root.kdi.clone(), root.kdd.clone(), &[7u8; 16], fis)
        .unwrap()
        .expect("has points")
}

fn gen_long_points(rng: &mut Rng, n: usize, doc_range: u64) -> Vec<(i64, u32)> {
    (0..n)
        .map(|_| {
            let value = match rng.below(6) {
                0 => (rng.below(1_000)) as i64,
                1 => (rng.below(100)) as i64 - 50,
                2 => rng.next() as i64,
                3 => [i64::MIN, i64::MAX, 0, -1, 1][rng.below(5) as usize],
                4 => (rng.next() % 1_000_000) as i64,
                _ => (rng.below(10)) as i64,
            };
            (value, rng.below(doc_range) as u32)
        })
        .collect()
}

#[test]
fn open_parses_meta_and_decodes_index() {
    let points: Vec<(i64, u32)> = (0..1200u32).map(|i| (i as i64 * 7 - 3000, i)).collect();
    let (root, fis) = write_segment(&[(0, "ts", points.clone())], &[]);
    let reader = open(&root, &fis);
    assert_eq!(reader.fields().len(), 1);
    let f0 = &reader.fields()[0];
    let name = &f0.name;
    let m = &f0.shape;
    assert_eq!(name, "ts");
    assert_eq!(m.field_number, 0);
    assert_eq!(m.bytes_per_dim, 8);
    assert_eq!(m.num_leaves, 3);
    assert_eq!(m.point_count, 1200);
    assert_eq!(m.doc_count, 1200);
    assert_eq!(m.min_value, -3000);
    assert_eq!(m.max_value, 1199 * 7 - 3000);
    assert_eq!(f0.leaf_fps.len(), 3);
    assert_eq!(f0.leaf_fps[0], m.data_start_fp);
    assert!(f0.leaf_fps[0] < f0.leaf_fps[1] && f0.leaf_fps[1] < f0.leaf_fps[2]);
    let mut sorted = points.clone();
    sorted.sort();
    assert_eq!(f0.splits, vec![sorted[512].0, sorted[1024].0]);
}

#[test]
fn open_multi_field_and_doc_count_dedup() {
    let mut rng = Rng(11);
    let longs = gen_long_points(&mut rng, 5000, 3000);
    let ints: Vec<(i32, u32)> = (0..700u32).map(|i| ((i % 97) as i32, i / 2)).collect();
    let (root, fis) = write_segment(&[(2, "ts", longs.clone())],
        &[(5, "lvl", ints.clone())],
    );
    let reader = open(&root, &fis);
    assert_eq!(reader.fields().len(), 2);
    let f0 = &reader.fields()[0];
    let n0 = &f0.name;
    let m0 = &f0.shape;
    assert_eq!(
        (n0.as_str(), m0.field_number, m0.bytes_per_dim),
        ("ts", 2, 8)
    );
    assert_eq!(m0.point_count, 5000);
    assert_eq!(
        m0.doc_count as usize,
        longs.iter().map(|p| p.1).collect::<BTreeSet<_>>().len(),
        "docCount counts distinct docs"
    );
    assert_eq!(m0.num_leaves, 10);
    assert_eq!(f0.splits.len(), 9);
    let f1 = &reader.fields()[1];
    let n1 = &f1.name;
    let m1 = &f1.shape;
    assert_eq!(
        (n1.as_str(), m1.field_number, m1.bytes_per_dim),
        ("lvl", 5, 4)
    );
    assert_eq!(m1.num_leaves, 2);
    assert_eq!(m1.min_value, 0);
    assert_eq!(m1.max_value, 96);
    assert!(m1.data_start_fp > m0.data_start_fp);
}

#[test]
fn open_single_leaf_tree() {
    let points: Vec<(i64, u32)> = (0..100u32).map(|i| (i as i64, i)).collect();
    let (root, fis) = write_segment(&[(0, "ts", points)], &[]);
    let reader = open(&root, &fis);
    let f0 = &reader.fields()[0];
    let m = &f0.shape;
    assert_eq!(m.num_leaves, 1);
    assert!(f0.splits.is_empty());
    assert_eq!(f0.leaf_fps.len(), 1);
    assert_eq!(f0.leaf_fps[0], m.data_start_fp);
}

#[test]
fn open_without_points_returns_none() {
    let fis = FieldInfos::new(vec![FieldInfo::stored("body", 0)]);
    assert!(
        PointsReader::open(None, Vec::new(), Vec::new(), &[7u8; 16], &fis)
            .unwrap()
            .is_none()
    );
}
