//! Points files, read by a decoder of their own.

use codec_lucene9::codec_util::{index_header_length, CODEC_MAGIC, FOOTER_LENGTH, FOOTER_MAGIC};
use codec_lucene9::doc_ids::write_doc_ids;
use codec_lucene9::io::{crc32, ChecksumIndexOutput, IndexOutput};
use codec_lucene9::leaf_block::write_leaf_block;
use codec_lucene9::point_index::get_num_left_leaf_nodes;
use codec_lucene9::points::{
    int_to_sortable_bytes, long_to_sortable_bytes, PointsWriter, BKD_VERSION, DATA_CODEC_NAME, FORMAT_VERSION, INDEX_CODEC_NAME, MAX_POINTS_IN_LEAF_NODE, META_CODEC_NAME,
};
use std::collections::BTreeSet;

struct Rng(u64);

impl Rng {
    fn next(&mut self) -> u64 {
        self.0 = self.0.wrapping_add(0x9E3779B97F4A7C15);
        let mut z = self.0;
        z = (z ^ (z >> 30)).wrapping_mul(0xBF58476D1CE4E5B9);
        z = (z ^ (z >> 27)).wrapping_mul(0x94D049BB133111EB);
        z ^ (z >> 31)
    }
    fn below(&mut self, n: u64) -> u64 {
        self.next() % n
    }
}

struct Cursor<'a> {
    buf: &'a [u8],
    pos: usize,
}

impl<'a> Cursor<'a> {
    fn at(buf: &'a [u8], pos: usize) -> Self {
        Cursor { buf, pos }
    }
    fn byte(&mut self) -> u8 {
        let b = self.buf[self.pos];
        self.pos += 1;
        b
    }
    fn i8(&mut self) -> i8 {
        self.byte() as i8
    }
    fn bytes(&mut self, n: usize) -> &'a [u8] {
        let s = &self.buf[self.pos..self.pos + n];
        self.pos += n;
        s
    }
    fn vint(&mut self) -> u32 {
        let mut v = 0u32;
        let mut shift = 0;
        loop {
            let b = self.byte();
            v |= u32::from(b & 0x7f) << shift;
            if b & 0x80 == 0 {
                return v;
            }
            shift += 7;
        }
    }
    fn vlong(&mut self) -> u64 {
        let mut v = 0u64;
        let mut shift = 0;
        loop {
            let b = self.byte();
            v |= u64::from(b & 0x7f) << shift;
            if b & 0x80 == 0 {
                return v;
            }
            shift += 7;
        }
    }
    fn short_le(&mut self) -> u16 {
        u16::from_le_bytes(self.bytes(2).try_into().unwrap())
    }
    fn int_le(&mut self) -> u32 {
        u32::from_le_bytes(self.bytes(4).try_into().unwrap())
    }
    fn long_le(&mut self) -> u64 {
        u64::from_le_bytes(self.bytes(8).try_into().unwrap())
    }
    fn be_int(&mut self) -> u32 {
        u32::from_be_bytes(self.bytes(4).try_into().unwrap())
    }
    fn be_long(&mut self) -> u64 {
        u64::from_be_bytes(self.bytes(8).try_into().unwrap())
    }
}

fn check_file_envelope(bytes: &[u8], codec: &str, segment_id: &[u8; 16]) {
    let mut cur = Cursor::at(bytes, 0);
    assert_eq!(cur.be_int(), CODEC_MAGIC);
    let name_len = cur.vint() as usize;
    assert_eq!(cur.bytes(name_len), codec.as_bytes());
    assert_eq!(cur.be_int(), FORMAT_VERSION);
    assert_eq!(cur.bytes(16), segment_id);
    assert_eq!(cur.byte(), 0, "empty suffix");
    assert_eq!(cur.pos, index_header_length(codec, ""));
    let n = bytes.len();
    let mut foot = Cursor::at(bytes, n - FOOTER_LENGTH);
    assert_eq!(foot.be_int(), FOOTER_MAGIC);
    assert_eq!(foot.be_int(), 0, "FOOTER_ALGORITHM_ID");
    assert_eq!(foot.be_long(), crc32(&bytes[..n - 8]));
}

struct FieldMeta {
    field_number: i32,
    bytes_per_dim: usize,
    num_leaves: usize,
    min_value: [u8; 8],
    max_value: [u8; 8],
    point_count: u64,
    doc_count: u32,
    packed_index_byte_length: usize,
    data_start_fp: u64,
    index_start_fp: u64,
}

fn parse_meta(bytes: &[u8]) -> (Vec<FieldMeta>, u64, u64) {
    let mut cur = Cursor::at(bytes, index_header_length(META_CODEC_NAME, ""));
    let mut fields = Vec::new();
    loop {
        let field_number = cur.int_le() as i32;
        if field_number == -1 {
            break;
        }
        assert_eq!(cur.be_int(), CODEC_MAGIC);
        assert_eq!(cur.vint(), 3);
        assert_eq!(cur.bytes(3), b"BKD");
        assert_eq!(cur.be_int(), BKD_VERSION);
        assert_eq!(cur.vint(), 1, "numDims");
        assert_eq!(cur.vint(), 1, "numIndexDims");
        assert_eq!(cur.vint(), MAX_POINTS_IN_LEAF_NODE as u32);
        let bytes_per_dim = cur.vint() as usize;
        let num_leaves = cur.vint() as usize;
        assert!(num_leaves > 0);
        let mut min_value = [0u8; 8];
        min_value[..bytes_per_dim].copy_from_slice(cur.bytes(bytes_per_dim));
        let mut max_value = [0u8; 8];
        max_value[..bytes_per_dim].copy_from_slice(cur.bytes(bytes_per_dim));
        assert!(
            min_value[..bytes_per_dim] <= max_value[..bytes_per_dim],
            "meta min <= max"
        );
        let point_count = cur.vlong();
        let doc_count = cur.vint();
        let packed_index_byte_length = cur.vint() as usize;
        let data_start_fp = cur.long_le();
        let index_start_fp = cur.long_le();
        fields.push(FieldMeta {
            field_number,
            bytes_per_dim,
            num_leaves,
            min_value,
            max_value,
            point_count,
            doc_count,
            packed_index_byte_length,
            data_start_fp,
            index_start_fp,
        });
    }
    let index_len = cur.long_le();
    let data_len = cur.long_le();
    (fields, index_len, data_len)
}

fn decode_doc_ids(cur: &mut Cursor, count: usize) -> Vec<u32> {
    let mut docs = vec![0u32; count];
    match cur.i8() {
        -2 => {
            let start = cur.vint();
            for (i, d) in docs.iter_mut().enumerate() {
                *d = start + i as u32;
            }
        }
        -1 => {
            let offset_words = cur.vint();
            let word_count = cur.vint() as usize;
            let mut pos = 0;
            for w in 0..word_count {
                let mut word = cur.long_le();
                while word != 0 {
                    let bit = word.trailing_zeros();
                    docs[pos] = (offset_words << 6) + 64 * w as u32 + bit;
                    pos += 1;
                    word &= word - 1;
                }
            }
            assert_eq!(pos, count, "bitset cardinality == count");
        }
        16 => {
            let min = cur.vint();
            let half_len = count / 2;
            let mut packed = Vec::with_capacity(half_len);
            for _ in 0..half_len {
                packed.push(cur.int_le());
            }
            for i in 0..half_len {
                docs[i] = (packed[i] >> 16) + min;
                docs[half_len + i] = (packed[i] & 0xFFFF) + min;
            }
            if count & 1 == 1 {
                docs[count - 1] = u32::from(cur.short_le()) + min;
            }
        }
        24 => {
            let mut i = 0;
            while i + 8 <= count {
                let l1 = cur.long_le();
                let l2 = cur.long_le();
                let l3 = cur.long_le();
                docs[i] = (l1 >> 40) as u32;
                docs[i + 1] = ((l1 >> 16) & 0xffffff) as u32;
                docs[i + 2] = (((l1 & 0xffff) << 8) | (l2 >> 56)) as u32;
                docs[i + 3] = ((l2 >> 32) & 0xffffff) as u32;
                docs[i + 4] = ((l2 >> 8) & 0xffffff) as u32;
                docs[i + 5] = (((l2 & 0xff) << 16) | (l3 >> 48)) as u32;
                docs[i + 6] = ((l3 >> 24) & 0xffffff) as u32;
                docs[i + 7] = (l3 & 0xffffff) as u32;
                i += 8;
            }
            while i < count {
                docs[i] = (u32::from(cur.short_le()) << 8) | u32::from(cur.byte());
                i += 1;
            }
        }
        32 => {
            for d in docs.iter_mut() {
                *d = cur.int_le();
            }
        }
        other => panic!("unknown doc ids flag {other}"),
    }
    docs
}

fn decode_leaf(data: &[u8], fp: u64, bytes_per_dim: usize) -> (Vec<([u8; 8], u32)>, u64) {
    let mut cur = Cursor::at(data, fp as usize);
    let count = cur.vint() as usize;
    let docs = decode_doc_ids(&mut cur, count);
    let common_prefix_len = cur.vint() as usize;
    assert!(common_prefix_len <= bytes_per_dim);
    let mut value_base = [0u8; 8];
    value_base[..common_prefix_len].copy_from_slice(cur.bytes(common_prefix_len));

    let compressed_dim = cur.i8();
    let mut points: Vec<([u8; 8], u32)> = Vec::with_capacity(count);
    if compressed_dim == -1 {
        for &doc in &docs {
            points.push((value_base, doc));
        }
    } else if compressed_dim == 0 {
        let suffix_len = bytes_per_dim - common_prefix_len - 1;
        let mut i = 0;
        while i < count {
            let run_byte = cur.byte();
            let run_len = cur.byte() as usize;
            for j in 0..run_len {
                let mut v = value_base;
                v[common_prefix_len] = run_byte;
                v[common_prefix_len + 1..common_prefix_len + 1 + suffix_len]
                    .copy_from_slice(cur.bytes(suffix_len));
                points.push((v, docs[i + j]));
            }
            i += run_len;
        }
        assert_eq!(i, count, "runs add up to count");
    } else {
        panic!("unexpected compressedDim {compressed_dim}; writer never emits -2");
    }
    (points, cur.pos as u64)
}

struct DecodedIndex {
    leaves: Vec<(u32, usize, u64)>,
    inners: Vec<(u32, [u8; 8], usize)>,
}

fn decode_packed_index(index: &[u8], num_leaves: usize, bytes_per_dim: usize) -> DecodedIndex {
    let mut decoded = DecodedIndex {
        leaves: Vec::new(),
        inners: Vec::new(),
    };
    let mut cur = Cursor::at(index, 0);
    decode_node(
        &mut cur,
        &mut decoded,
        1,
        num_leaves as u32,
        0,
        [0u8; 8],
        false,
        false,
        0,
        num_leaves,
        bytes_per_dim,
    );
    assert_eq!(cur.pos, index.len(), "packed index fully consumed");
    decoded
}

#[allow(clippy::too_many_arguments)]
fn decode_node(
    cur: &mut Cursor,
    decoded: &mut DecodedIndex,
    node_id: u32,
    total_num_leaves: u32,
    min_block_fp: u64,
    last_split_value: [u8; 8],
    negative_delta: bool,
    is_left: bool,
    leaves_offset: usize,
    num_leaves: usize,
    bytes_per_dim: usize,
) {
    let mut fp = min_block_fp;
    if !is_left {
        fp += cur.vlong();
    }
    if num_leaves == 1 {
        assert!(node_id >= total_num_leaves);
        decoded.leaves.push((node_id, leaves_offset, fp));
        return;
    }
    assert!(node_id < total_num_leaves, "inner node ids are < numLeaves");

    let code = cur.vint() as i32;
    let prefix = (code % (1 + bytes_per_dim as i32)) as usize;
    let suffix = bytes_per_dim - prefix;
    let mut split_value = last_split_value;
    if suffix > 0 {
        let mut first_diff_byte_delta = code / (1 + bytes_per_dim as i32);
        if negative_delta {
            first_diff_byte_delta = -first_diff_byte_delta;
        }
        let old_byte = i32::from(split_value[prefix]);
        split_value[prefix] = (old_byte + first_diff_byte_delta) as u8;
        split_value[prefix + 1..prefix + 1 + (suffix - 1)]
            .copy_from_slice(cur.bytes(suffix - 1));
    }

    let num_left = get_num_left_leaf_nodes(num_leaves);
    let right_offset = leaves_offset + num_left;
    decoded
        .inners
        .push((node_id, split_value, right_offset - 1));

    let left_num_bytes = if node_id * 2 < total_num_leaves {
        assert!(num_left > 1);
        cur.vlong() as usize
    } else {
        assert_eq!(num_left, 1);
        0
    };
    let right_node_position = cur.pos + left_num_bytes;
    decode_node(
        cur,
        decoded,
        node_id * 2,
        total_num_leaves,
        fp,
        split_value,
        true,
        true,
        leaves_offset,
        num_left,
        bytes_per_dim,
    );
    assert_eq!(
        cur.pos, right_node_position,
        "leftNumBytes measures the left subtree byte length"
    );
    decode_node(
        cur,
        decoded,
        node_id * 2 + 1,
        total_num_leaves,
        fp,
        split_value,
        false,
        false,
        right_offset,
        num_leaves - num_left,
        bytes_per_dim,
    );
}

enum FieldSpec {
    Long(i32, Vec<(i64, u32)>),
    Int(i32, Vec<(i32, u32)>),
}

impl FieldSpec {
    fn field_number(&self) -> i32 {
        match self {
            FieldSpec::Long(n, _) | FieldSpec::Int(n, _) => *n,
        }
    }
    fn point_count(&self) -> usize {
        match self {
            FieldSpec::Long(_, p) => p.len(),
            FieldSpec::Int(_, p) => p.len(),
        }
    }
    fn packed_points(&self) -> Vec<([u8; 8], u32)> {
        match self {
            FieldSpec::Long(_, pts) => pts
                .iter()
                .map(|&(v, d)| (long_to_sortable_bytes(v), d))
                .collect(),
            FieldSpec::Int(_, pts) => pts
                .iter()
                .map(|&(v, d)| (int_to_sortable_bytes(v), d))
                .collect(),
        }
    }
}

struct WrittenSegment {
    kdd: Vec<u8>,
    kdi: Vec<u8>,
    kdm: Vec<u8>,
    segment_id: [u8; 16],
}

fn write_segment(fields: &[FieldSpec]) -> WrittenSegment {
    let segment_id = [0xA5u8; 16];
    let mut writer = PointsWriter::new("_0", &segment_id).unwrap();
    for field in fields {
        match field {
            FieldSpec::Long(n, pts) => writer.write_field_long(*n, &mut pts.clone()).unwrap(),
            FieldSpec::Int(n, pts) => writer.write_field_int(*n, &mut pts.clone()).unwrap(),
        }
    }
    let files = writer.finish().unwrap();
    let names: Vec<String> = files.iter().map(|f| f.name.clone()).collect();
    assert_eq!(
        names,
        vec![
            "_0.kdd".to_string(),
            "_0.kdi".to_string(),
            "_0.kdm".to_string()
        ]
    );
    WrittenSegment {
        kdd: files[0].bytes.clone(),
        kdi: files[1].bytes.clone(),
        kdm: files[2].bytes.clone(),
        segment_id,
    }
}

fn check_segment(seg: &WrittenSegment, fields: &[FieldSpec]) {
    check_file_envelope(&seg.kdd, DATA_CODEC_NAME, &seg.segment_id);
    check_file_envelope(&seg.kdi, INDEX_CODEC_NAME, &seg.segment_id);
    check_file_envelope(&seg.kdm, META_CODEC_NAME, &seg.segment_id);

    let (metas, index_len, data_len) = parse_meta(&seg.kdm);
    assert_eq!(index_len, seg.kdi.len() as u64);
    assert_eq!(data_len, seg.kdd.len() as u64);

    let expected: Vec<&FieldSpec> = fields.iter().filter(|f| f.point_count() > 0).collect();
    assert_eq!(metas.len(), expected.len(), "0-point fields write no entry");

    let mut prev_data_end = None;
    let mut prev_index_end = None;
    for (meta, spec) in metas.iter().zip(expected.iter()) {
        let (data_end, index_end) = check_field(seg, meta, spec);
        if let Some(prev) = prev_data_end {
            assert_eq!(
                meta.data_start_fp, prev,
                "fields are tightly packed in .kdd"
            );
        }
        if let Some(prev) = prev_index_end {
            assert_eq!(
                meta.index_start_fp, prev,
                "fields are tightly packed in .kdi"
            );
        }
        prev_data_end = Some(data_end);
        prev_index_end = Some(index_end);
    }
    if let Some(end) = prev_data_end {
        assert_eq!(end, seg.kdd.len() as u64 - FOOTER_LENGTH as u64);
    }
    if let Some(end) = prev_index_end {
        assert_eq!(end, seg.kdi.len() as u64 - FOOTER_LENGTH as u64);
    }
}

fn check_field(seg: &WrittenSegment, meta: &FieldMeta, spec: &FieldSpec) -> (u64, u64) {
    let bpd = meta.bytes_per_dim;
    assert_eq!(meta.field_number, spec.field_number());
    match spec {
        FieldSpec::Long(..) => assert_eq!(bpd, 8),
        FieldSpec::Int(..) => assert_eq!(bpd, 4),
    }

    let mut expected = spec.packed_points();
    expected.sort_by(|a, b| a.0[..bpd].cmp(&b.0[..bpd]).then_with(|| a.1.cmp(&b.1)));

    assert_eq!(meta.point_count, expected.len() as u64);
    assert_eq!(
        meta.doc_count as usize,
        expected.iter().map(|p| p.1).collect::<BTreeSet<_>>().len(),
        "docCount counts distinct docs"
    );
    assert_eq!(&meta.min_value[..bpd], &expected.first().unwrap().0[..bpd]);
    assert_eq!(&meta.max_value[..bpd], &expected.last().unwrap().0[..bpd]);

    let index_start = meta.index_start_fp as usize;
    let index = &seg.kdi[index_start..index_start + meta.packed_index_byte_length];
    let decoded = decode_packed_index(index, meta.num_leaves, bpd);

    let mut bfs: Vec<(u32, usize, u64)> = decoded.leaves.clone();
    bfs.sort_by_key(|&(node, _, _)| node);
    for (i, &(node, _, _)) in bfs.iter().enumerate() {
        assert_eq!(node as usize, meta.num_leaves + i);
    }
    let mut inner_ids: Vec<u32> = decoded.inners.iter().map(|&(node, _, _)| node).collect();
    inner_ids.sort_unstable();
    for (i, &node) in inner_ids.iter().enumerate() {
        assert_eq!(node as usize, 1 + i);
    }

    let mut walked_fps = Vec::with_capacity(meta.num_leaves);
    let mut actual: Vec<([u8; 8], u32)> = Vec::new();
    let mut fp = meta.data_start_fp;
    for leaf_index in 0..meta.num_leaves {
        walked_fps.push(fp);
        let (points, end) = decode_leaf(&seg.kdd, fp, bpd);
        let want_count = if leaf_index + 1 == meta.num_leaves {
            expected.len() - (meta.num_leaves - 1) * MAX_POINTS_IN_LEAF_NODE
        } else {
            MAX_POINTS_IN_LEAF_NODE
        };
        assert_eq!(points.len(), want_count);
        actual.extend(points);
        fp = end;
    }
    let data_end = fp;

    let mut by_offset: Vec<(usize, u64)> = decoded
        .leaves
        .iter()
        .map(|&(_, offset, fp)| (offset, fp))
        .collect();
    by_offset.sort_unstable();
    assert_eq!(
        by_offset.iter().map(|&(_, fp)| fp).collect::<Vec<_>>(),
        walked_fps
    );

    assert_eq!(&actual[..], &expected[..]);

    check_split_chain(seg, meta, &decoded, &walked_fps);

    (
        data_end,
        meta.index_start_fp + meta.packed_index_byte_length as u64,
    )
}

fn check_split_chain(
    seg: &WrittenSegment,
    meta: &FieldMeta,
    decoded: &DecodedIndex,
    leaf_fps: &[u64],
) {
    let split_by_offset: std::collections::BTreeMap<usize, [u8; 8]> = decoded
        .inners
        .iter()
        .map(|&(_, split, offset)| (offset, split))
        .collect();
    check_node_bounds(
        seg,
        meta.bytes_per_dim,
        &split_by_offset,
        leaf_fps,
        0,
        meta.num_leaves,
        meta.min_value,
        meta.max_value,
    );
}

#[allow(clippy::too_many_arguments)]
fn check_node_bounds(
    seg: &WrittenSegment,
    bpd: usize,
    splits: &std::collections::BTreeMap<usize, [u8; 8]>,
    leaf_fps: &[u64],
    leaves_offset: usize,
    num_leaves: usize,
    lo: [u8; 8],
    hi: [u8; 8],
) {
    assert!(
        lo[..bpd] <= hi[..bpd],
        "cell min <= max"
    );
    if num_leaves == 1 {
        let (points, _) = decode_leaf(&seg.kdd, leaf_fps[leaves_offset], bpd);
        for (v, _) in points {
            assert!(
                lo[..bpd] <= v[..bpd] && v[..bpd] <= hi[..bpd],
                "leaf value inside its cell bounds"
            );
        }
        return;
    }
    let num_left = get_num_left_leaf_nodes(num_leaves);
    let right_offset = leaves_offset + num_left;
    let split = splits[&(right_offset - 1)];
    assert!(
        lo[..bpd] <= split[..bpd] && split[..bpd] <= hi[..bpd],
        "left <= split <= right"
    );
    let (right_leaf, _) = decode_leaf(&seg.kdd, leaf_fps[right_offset], bpd);
    assert_eq!(
        &split[..bpd],
        &right_leaf[0].0[..bpd],
        "split == first value of the right subtree's left-most leaf"
    );
    check_node_bounds(
        seg,
        bpd,
        splits,
        leaf_fps,
        leaves_offset,
        num_left,
        lo,
        split,
    );
    check_node_bounds(
        seg,
        bpd,
        splits,
        leaf_fps,
        right_offset,
        num_leaves - num_left,
        split,
        hi,
    );
}

fn gen_long_points(rng: &mut Rng, n: usize, doc_range: u64) -> Vec<(i64, u32)> {
    (0..n)
        .map(|_| {
            let value = match rng.below(6) {
                0 => (rng.below(1_000)) as i64,
                1 => (rng.below(100)) as i64 - 50,
                2 => rng.next() as i64,
                3 => [i64::MIN, i64::MAX, 0, -1, 1][rng.below(5) as usize],
                4 => (rng.next() % 1_000_000) as i64,
                _ => (rng.below(10)) as i64,
            };
            (value, rng.below(doc_range) as u32)
        })
        .collect()
}

fn gen_int_points(rng: &mut Rng, n: usize, doc_range: u64) -> Vec<(i32, u32)> {
    (0..n)
        .map(|_| {
            let value = match rng.below(5) {
                0 => (rng.below(1_000)) as i32,
                1 => (rng.below(100)) as i32 - 50,
                2 => rng.next() as u32 as i32,
                3 => [i32::MIN, i32::MAX, 0, -1, 1][rng.below(5) as usize],
                _ => (rng.below(10)) as i32,
            };
            (value, rng.below(doc_range) as u32)
        })
        .collect()
}

#[test]
fn sortable_bytes_order_preserving() {
    assert_eq!(long_to_sortable_bytes(i64::MIN), [0; 8]);
    assert_eq!(long_to_sortable_bytes(i64::MAX), [0xFF; 8]);
    assert_eq!(long_to_sortable_bytes(0), [0x80, 0, 0, 0, 0, 0, 0, 0]);
    assert!(long_to_sortable_bytes(-1) < long_to_sortable_bytes(0));
    assert!(long_to_sortable_bytes(0) < long_to_sortable_bytes(1));
    assert_eq!(&int_to_sortable_bytes(i32::MIN)[..4], &[0; 4]);
    assert_eq!(&int_to_sortable_bytes(i32::MAX)[..4], &[0xFF; 4]);
    assert_eq!(&int_to_sortable_bytes(0)[..4], &[0x80, 0, 0, 0]);
    assert!(int_to_sortable_bytes(-1) < int_to_sortable_bytes(0));
    assert!(int_to_sortable_bytes(0) < int_to_sortable_bytes(1));
}

fn doc_ids_roundtrip(docs: &[u32], expected_flag: i8) {
    let mut out = ChecksumIndexOutput::new(IndexOutput::in_memory());
    write_doc_ids(&mut out, docs).unwrap();
    let bytes = out.into_bytes();
    assert_eq!(bytes[0] as i8, expected_flag);
    let mut cur = Cursor::at(&bytes, 0);
    assert_eq!(decode_doc_ids(&mut cur, docs.len()), docs);
    assert_eq!(cur.pos, bytes.len());
}

#[test]
fn doc_ids_continuous() {
    doc_ids_roundtrip(&(100..612).collect::<Vec<_>>(), -2);
    doc_ids_roundtrip(&[7], -2);
}

#[test]
fn doc_ids_bitset() {
    let docs: Vec<u32> = (0..300).map(|i| i * 3).collect();
    doc_ids_roundtrip(&docs, -1);
    let docs: Vec<u32> = (0..100).map(|i| 1000 + i * 5).collect();
    doc_ids_roundtrip(&docs, -1);
}

#[test]
fn doc_ids_delta16() {
    let docs: Vec<u32> = (0..512).map(|i| (i / 2) as u32).collect();
    doc_ids_roundtrip(&docs, 16);
    let docs: Vec<u32> = (0..511).map(|i| (i / 2) as u32).collect();
    doc_ids_roundtrip(&docs, 16);
    let docs: Vec<u32> = (0..100).map(|i| i * 100).collect();
    doc_ids_roundtrip(&docs, 16);
}

#[test]
fn doc_ids_bpv24() {
    let docs: Vec<u32> = (0..512).map(|i| i * 1000).collect();
    doc_ids_roundtrip(&docs, 24);
    let docs: Vec<u32> = (0..10).map(|i| i * 100_000).collect();
    doc_ids_roundtrip(&docs, 24);
}

#[test]
fn doc_ids_bpv32() {
    let docs = vec![0, 5, 1 << 24, 7, (1 << 25) + 3, 42];
    doc_ids_roundtrip(&docs, 32);
}

fn keys(points: &[([u8; 8], u32)], bpd: usize) -> Vec<(u64, u32)> {
    points
        .iter()
        .map(|&(v, doc)| (u64::from_be_bytes(v) >> (64 - 8 * bpd), doc))
        .collect()
}

fn leaf_roundtrip(points: &mut [([u8; 8], u32)], bpd: usize) -> Vec<u8> {
    points.sort_by(|a, b| a.0[..bpd].cmp(&b.0[..bpd]).then_with(|| a.1.cmp(&b.1)));
    let mut out = ChecksumIndexOutput::new(IndexOutput::in_memory());
    write_leaf_block(&mut out, &keys(points, bpd), bpd).unwrap();
    let bytes = out.into_bytes();
    let (decoded, end) = decode_leaf(&bytes, 0, bpd);
    assert_eq!(end as usize, bytes.len());
    assert_eq!(&decoded[..], &points[..]);
    bytes
}

#[test]
fn leaf_all_equal_values_branch_minus1() {
    let mut points: Vec<([u8; 8], u32)> = (0..300u32)
        .map(|doc| (long_to_sortable_bytes(42), doc))
        .collect();
    let bytes = leaf_roundtrip(&mut points, 8);
    assert_eq!(*bytes.last().unwrap(), (-1i8) as u8);
}

#[test]
fn leaf_single_point() {
    let mut points = vec![(long_to_sortable_bytes(-123_456), 9u32)];
    leaf_roundtrip(&mut points, 8);
    let mut points = vec![(int_to_sortable_bytes(i32::MIN), 0u32)];
    leaf_roundtrip(&mut points, 4);
}

#[test]
fn leaf_run_length_split_at_255() {
    let mut points: Vec<([u8; 8], u32)> =
        (0..300u32).map(|i| ((i as u64).to_be_bytes(), i)).collect();
    leaf_roundtrip(&mut points, 8);
}

#[test]
fn leaf_zero_common_prefix_and_int() {
    let mut points = vec![
        (long_to_sortable_bytes(i64::MIN), 3u32),
        (long_to_sortable_bytes(0), 1),
        (long_to_sortable_bytes(i64::MAX), 2),
    ];
    leaf_roundtrip(&mut points, 8);
    let mut points: Vec<([u8; 8], u32)> = (0..64u32)
        .map(|i| (int_to_sortable_bytes(0x00AB_0000 + i as i32), i))
        .collect();
    leaf_roundtrip(&mut points, 4);
}

#[test]
fn single_leaf_index_is_one_vlong() {
    let seg = write_segment(&[FieldSpec::Long(0, gen_long_points(&mut Rng(1), 100, 1000))],
    );
    let (metas, _, _) = parse_meta(&seg.kdm);
    assert_eq!(metas.len(), 1);
    assert_eq!(metas[0].num_leaves, 1);
    let index = &seg.kdi[metas[0].index_start_fp as usize
        ..(metas[0].index_start_fp + metas[0].packed_index_byte_length as u64) as usize];
    assert_eq!(index, &[50u8]);
    let decoded = decode_packed_index(index, 1, 8);
    assert!(decoded.inners.is_empty());
    assert_eq!(decoded.leaves, vec![(1, 0, 50)]);
    check_segment(
        &seg,
        &[FieldSpec::Long(0, gen_long_points(&mut Rng(1), 100, 1000))],
    );
}

#[test]
fn empty_field_writes_no_meta_entry() {
    let fields = [
        FieldSpec::Long(0, vec![]),
        FieldSpec::Int(1, gen_int_points(&mut Rng(2), 700, 500)),
        FieldSpec::Long(2, vec![]),
    ];
    let seg = write_segment(&fields);
    let (metas, _, _) = parse_meta(&seg.kdm);
    assert_eq!(metas.len(), 1);
    assert_eq!(metas[0].field_number, 1);
    assert_eq!(
        metas[0].data_start_fp,
        index_header_length(DATA_CODEC_NAME, "") as u64
    );
    check_segment(&seg, &fields);
}

#[test]
fn all_equal_field_multi_leaf() {
    let points: Vec<(i64, u32)> = (0..1200u32).map(|doc| (777, doc)).collect();
    let seg = write_segment(&[FieldSpec::Long(0, points)]);
    check_segment(
        &seg,
        &[FieldSpec::Long(
            0,
            (0..1200u32).map(|doc| (777, doc)).collect(),
        )],
    );
}

#[test]
fn roundtrip_long_various_sizes() {
    for (i, n) in [1usize, 511, 512, 513, 5000, 100_000].iter().enumerate() {
        let mut rng = Rng(0xC0FFEE + i as u64);
        let points = gen_long_points(&mut rng, *n, 3000);
        let seg = write_segment(&[FieldSpec::Long(0, points.clone())]);
        check_segment(&seg, &[FieldSpec::Long(0, points)]);
    }
}

#[test]
fn roundtrip_long_doc_spreads() {
    let mut rng = Rng(42);
    let points = gen_long_points(&mut rng, 5000, 20_000_000);
    let seg = write_segment(&[FieldSpec::Long(0, points.clone())]);
    check_segment(&seg, &[FieldSpec::Long(0, points)]);
    let mut rng = Rng(43);
    let points = gen_long_points(&mut rng, 5000, 1_000_000_000);
    let seg = write_segment(&[FieldSpec::Long(0, points.clone())]);
    check_segment(&seg, &[FieldSpec::Long(0, points)]);
}

#[test]
fn roundtrip_long_sorted_docs() {
    let points: Vec<(i64, u32)> = (0..2000u32).map(|i| (i as i64 * 7, i)).collect();
    let seg = write_segment(&[FieldSpec::Long(0, points.clone())]);
    check_segment(&seg, &[FieldSpec::Long(0, points)]);
    let points: Vec<(i64, u32)> = (0..2000u32).map(|i| (i as i64, i * 3)).collect();
    let seg = write_segment(&[FieldSpec::Long(0, points.clone())]);
    check_segment(&seg, &[FieldSpec::Long(0, points)]);
}

#[test]
fn roundtrip_int_boundaries() {
    let mut points: Vec<(i32, u32)> = Vec::new();
    for (i, &v) in [i32::MIN, i32::MIN + 1, -1, 0, 1, i32::MAX - 1, i32::MAX]
        .iter()
        .enumerate()
    {
        for _ in 0..100 {
            points.push((v, (i % 50) as u32));
        }
    }
    let mut rng = Rng(7);
    points.extend(gen_int_points(&mut rng, 4000, 500));
    for slice in [&points[..1], &points[..513], &points[..]] {
        let seg = write_segment(&[FieldSpec::Int(5, slice.to_vec())]);
        check_segment(&seg, &[FieldSpec::Int(5, slice.to_vec())]);
    }
}

#[test]
fn multi_field_layout() {
    let mut rng = Rng(99);
    let fields = [
        FieldSpec::Long(0, gen_long_points(&mut rng, 100, 100)),
        FieldSpec::Int(1, gen_int_points(&mut rng, 6000, 1_000_000)),
        FieldSpec::Long(2, gen_long_points(&mut rng, 512, 50)),
        FieldSpec::Int(3, gen_int_points(&mut rng, 1, 1)),
    ];
    let seg = write_segment(&fields);
    check_segment(&seg, &fields);
}
