//! Files of doc values, read by a decoder of their own.

use codec_lucene9::bytes::bytes_difference;
use codec_lucene9::codec_util::{index_header_length, CODEC_MAGIC, FOOTER_MAGIC};
use codec_lucene9::disi::{DISI_BLOCK_SIZE, DISI_MAX_ARRAY_LENGTH, DISI_SENTINEL_BLOCK};
use codec_lucene9::doc_values::{file_names, DocValuesWriter, DATA_CODEC, DIRECT_MONOTONIC_BLOCK_SHIFT, TYPE_NUMERIC, TYPE_SORTED};
use codec_lucene9::io::crc32;
use codec_lucene9::terms_dict::{TERMS_DICT_BLOCK_SIZE, TERMS_DICT_REVERSE_INDEX_SIZE};

const SEGMENT_ID: [u8; 16] = [0x5A; 16];
const SUFFIX: &str = "Lucene90_0";

fn run_writer(f: impl FnOnce(&mut DocValuesWriter)) -> (Vec<u8>, Vec<u8>) {
    let mut w = DocValuesWriter::new("_0", &SEGMENT_ID, SUFFIX).unwrap();
    f(&mut w);
    let files = w.finish().unwrap();
    let names: Vec<String> = files.iter().map(|f| f.name.clone()).collect();
    assert_eq!(names, file_names("_0", SUFFIX).to_vec());
    (files[0].bytes.clone(), files[1].bytes.clone())
}

struct ByteReader<'a> {
    bytes: &'a [u8],
    pos: usize,
}

impl<'a> ByteReader<'a> {
    fn new(bytes: &'a [u8]) -> Self {
        ByteReader { bytes, pos: 0 }
    }
    fn read_u8(&mut self) -> u8 {
        let b = self.bytes[self.pos];
        self.pos += 1;
        b
    }
    fn read_bytes(&mut self, n: usize) -> &'a [u8] {
        let b = &self.bytes[self.pos..self.pos + n];
        self.pos += n;
        b
    }
    fn read_le_u16(&mut self) -> u16 {
        u16::from_le_bytes(self.read_bytes(2).try_into().unwrap())
    }
    fn read_le_i16(&mut self) -> i16 {
        self.read_le_u16() as i16
    }
    fn read_le_i32(&mut self) -> i32 {
        i32::from_le_bytes(self.read_bytes(4).try_into().unwrap())
    }
    fn read_le_i64(&mut self) -> i64 {
        i64::from_le_bytes(self.read_bytes(8).try_into().unwrap())
    }
    fn read_be_u32(&mut self) -> u32 {
        u32::from_be_bytes(self.read_bytes(4).try_into().unwrap())
    }
    fn read_vint(&mut self) -> i32 {
        let mut v = 0u32;
        let mut shift = 0;
        loop {
            let b = self.read_u8();
            v |= ((b & 0x7f) as u32) << shift;
            if b & 0x80 == 0 {
                break;
            }
            shift += 7;
        }
        v as i32
    }
    fn read_vlong(&mut self) -> i64 {
        let mut v = 0u64;
        let mut shift = 0;
        loop {
            let b = self.read_u8();
            v |= ((b & 0x7f) as u64) << shift;
            if b & 0x80 == 0 {
                break;
            }
            shift += 7;
        }
        v as i64
    }
}

fn parse_index_header(r: &mut ByteReader, codec: &str) {
    assert_eq!(r.read_be_u32(), CODEC_MAGIC);
    let len = r.read_vint() as usize;
    assert_eq!(r.read_bytes(len), codec.as_bytes());
    assert_eq!(r.read_be_u32(), 0, "version must be 0");
    assert_eq!(r.read_bytes(16), &SEGMENT_ID[..]);
    let suffix_len = r.read_u8() as usize;
    assert_eq!(r.read_bytes(suffix_len), SUFFIX.as_bytes());
}

fn check_footer(bytes: &[u8]) {
    let n = bytes.len();
    assert!(n >= 16);
    assert_eq!(
        u32::from_be_bytes(bytes[n - 16..n - 12].try_into().unwrap()),
        FOOTER_MAGIC
    );
    assert_eq!(&bytes[n - 12..n - 8], &[0, 0, 0, 0]);
    let crc = u64::from_be_bytes(bytes[n - 8..].try_into().unwrap());
    assert_eq!(crc, crc32(&bytes[..n - 8]));
}

#[derive(Debug)]
struct NumericMeta {
    docs_offset: i64,
    docs_length: i64,
    jump_count: i16,
    dense_rank_power: i8,
    num_values: i64,
    table_size: i32,
    bpv: u8,
    min: i64,
    gcd: i64,
    values_offset: i64,
    values_length: i64,
    value_jump_table_offset: i64,
}

fn read_numeric_meta(r: &mut ByteReader) -> NumericMeta {
    let docs_offset = r.read_le_i64();
    let docs_length = r.read_le_i64();
    let jump_count = r.read_le_i16();
    let dense_rank_power = r.read_u8() as i8;
    let num_values = r.read_le_i64();
    let table_size = r.read_le_i32();
    assert!(table_size <= 256);
    for _ in 0..table_size.max(0) {
        r.read_le_i64();
    }
    let bpv = r.read_u8();
    let min = r.read_le_i64();
    let gcd = r.read_le_i64();
    let values_offset = r.read_le_i64();
    let values_length = r.read_le_i64();
    let value_jump_table_offset = r.read_le_i64();
    NumericMeta {
        docs_offset,
        docs_length,
        jump_count,
        dense_rank_power,
        num_values,
        table_size,
        bpv,
        min,
        gcd,
        values_offset,
        values_length,
        value_jump_table_offset,
    }
}

fn direct_reader_get(slice: &[u8], bpv: u32, index: usize) -> u64 {
    let bit_offset = index * bpv as usize;
    let byte_offset = bit_offset / 8;
    let shift = bit_offset % 8;
    let mut buf = [0u8; 8];
    let take = (slice.len() - byte_offset).min(8);
    buf[..take].copy_from_slice(&slice[byte_offset..byte_offset + take]);
    let raw = u64::from_le_bytes(buf) >> shift;
    if bpv == 64 {
        raw
    } else {
        raw & ((1u64 << bpv) - 1)
    }
}

fn decode_values(dvd: &[u8], m: &NumericMeta) -> Vec<i64> {
    if m.bpv == 0 {
        return vec![m.min; m.num_values as usize];
    }
    let slice = &dvd[m.values_offset as usize..(m.values_offset + m.values_length) as usize];
    (0..m.num_values as usize)
        .map(|i| {
            (direct_reader_get(slice, m.bpv as u32, i) as i64)
                .wrapping_mul(m.gcd)
                .wrapping_add(m.min)
        })
        .collect()
}

fn decode_ords(dvd: &[u8], m: &NumericMeta) -> Vec<u32> {
    decode_values(dvd, m).iter().map(|&v| v as u32).collect()
}

struct DmMeta {
    mins: Vec<i64>,
    avgs: Vec<f32>,
    offsets: Vec<u64>,
    bpvs: Vec<u8>,
    block_shift: u32,
    num_values: usize,
}

fn read_dm(r: &mut ByteReader, num_values: usize, block_shift: u32) -> DmMeta {
    let num_blocks = if num_values == 0 {
        0
    } else {
        ((num_values - 1) >> block_shift) + 1
    };
    let mut dm = DmMeta {
        mins: Vec::new(),
        avgs: Vec::new(),
        offsets: Vec::new(),
        bpvs: Vec::new(),
        block_shift,
        num_values,
    };
    for _ in 0..num_blocks {
        dm.mins.push(r.read_le_i64());
        dm.avgs.push(f32::from_bits(r.read_le_i32() as u32));
        dm.offsets.push(r.read_le_i64() as u64);
        dm.bpvs.push(r.read_u8());
    }
    dm
}

impl DmMeta {
    fn get(&self, data: &[u8], index: usize) -> u64 {
        let block = index >> self.block_shift;
        let block_index = index & ((1 << self.block_shift) - 1);
        let bpv = self.bpvs[block] as usize;
        let delta = if bpv == 0 {
            0
        } else {
            let bit_offset = self.offsets[block] as usize * 8 + block_index * bpv;
            let byte_offset = bit_offset / 8;
            let shift = bit_offset % 8;
            let mut buf = [0u8; 8];
            let take = (data.len() - byte_offset).min(8);
            buf[..take].copy_from_slice(&data[byte_offset..byte_offset + take]);
            let raw = u64::from_le_bytes(buf) >> shift;
            if bpv == 64 {
                raw
            } else {
                raw & ((1u64 << bpv) - 1)
            }
        };
        self.mins[block]
            .wrapping_add((self.avgs[block] * block_index as f32) as i64)
            .wrapping_add(delta as i64) as u64
    }
}

struct DisiBlock {
    block_id: u32,
    cardinality: u32,
    header_offset: u32,
    docs: Vec<u32>,
}

fn decode_disi(dvd: &[u8], offset: usize, length: usize, jump_count: i16) -> Vec<DisiBlock> {
    let region = &dvd[offset..offset + length];
    let mut r = ByteReader::new(region);
    let mut blocks: Vec<DisiBlock> = Vec::new();
    let sentinel_offset = loop {
        let header_offset = r.pos as u32;
        let block_id = r.read_le_u16() as u32;
        let cardinality = r.read_le_u16() as u32 + 1;
        if cardinality <= DISI_MAX_ARRAY_LENGTH {
            let mut docs = Vec::with_capacity(cardinality as usize);
            for _ in 0..cardinality {
                docs.push((block_id << 16) | r.read_le_u16() as u32);
            }
            assert!(docs.windows(2).all(|w| w[0] < w[1]));
            if block_id == DISI_SENTINEL_BLOCK {
                assert_eq!(cardinality, 1);
                assert_eq!(docs, vec![0x7FFF_FFFF]);
                break header_offset;
            }
            blocks.push(DisiBlock {
                block_id,
                cardinality,
                header_offset,
                docs,
            });
        } else if cardinality == DISI_BLOCK_SIZE {
            assert_ne!(block_id, DISI_SENTINEL_BLOCK);
            let docs = (0..DISI_BLOCK_SIZE).map(|i| (block_id << 16) | i).collect();
            blocks.push(DisiBlock {
                block_id,
                cardinality,
                header_offset,
                docs,
            });
        } else {
            assert_ne!(block_id, DISI_SENTINEL_BLOCK);
            let rank = r.read_bytes(256);
            let mut bits = [0u64; 1024];
            for w in bits.iter_mut() {
                *w = r.read_le_i64() as u64;
            }
            let mut count = 0u32;
            for (word, &b) in bits.iter().enumerate() {
                if word & 7 == 0 {
                    let entry = ((rank[word >> 2] as u32) << 8) | rank[(word >> 2) + 1] as u32;
                    assert_eq!(entry, count, "rank entry {}", word >> 3);
                }
                count += b.count_ones();
            }
            assert_eq!(count, cardinality);
            let mut docs = Vec::with_capacity(cardinality as usize);
            for (word_index, &word) in bits.iter().enumerate() {
                let mut w = word;
                while w != 0 {
                    let bit = w.trailing_zeros();
                    docs.push((block_id << 16) | ((word_index as u32) << 6) | bit);
                    w &= w - 1;
                }
            }
            blocks.push(DisiBlock {
                block_id,
                cardinality,
                header_offset,
                docs,
            });
        }
    };

    let last_real = blocks.last().unwrap().block_id as usize;
    let expected_entries = if last_real == 0 { 0 } else { last_real + 2 };
    assert_eq!(jump_count as usize, expected_entries);
    let mut jumps = Vec::new();
    for _ in 0..expected_entries {
        jumps.push((r.read_le_i32(), r.read_le_i32()));
    }
    assert_eq!(r.pos, region.len(), "DISI region fully consumed");

    if !jumps.is_empty() {
        let mut real_idx = 0;
        let mut cum = 0i32;
        for b in 0..=last_real {
            while real_idx < blocks.len() && (blocks[real_idx].block_id as usize) < b {
                cum += blocks[real_idx].cardinality as i32;
                real_idx += 1;
            }
            let (index, offset) = jumps[b];
            assert_eq!(index, cum, "jump index for block {b}");
            assert_eq!(
                offset, blocks[real_idx].header_offset as i32,
                "jump offset for block {b}"
            );
        }
        let total: i32 = blocks.iter().map(|b| b.cardinality as i32).sum();
        assert_eq!(jumps[last_real + 1], (total, sentinel_offset as i32));
    }
    blocks
}

struct TermsMeta {
    dict_size: i64,
    addresses: DmMeta,
    max_term_length: i32,
    max_block_length: i32,
    terms_data_offset: i64,
    terms_data_length: i64,
    terms_addresses_offset: i64,
    terms_addresses_length: i64,
    index_addresses: DmMeta,
    terms_index_offset: i64,
    terms_index_length: i64,
    terms_index_addresses_offset: i64,
    terms_index_addresses_length: i64,
}

fn read_terms_meta(r: &mut ByteReader) -> TermsMeta {
    let dict_size = r.read_vlong();
    let block_shift = r.read_le_i32();
    assert_eq!(block_shift, DIRECT_MONOTONIC_BLOCK_SHIFT as i32);
    let addresses = read_dm(r, (dict_size as usize).div_ceil(64), block_shift as u32);
    let max_term_length = r.read_le_i32();
    let max_block_length = r.read_le_i32();
    let terms_data_offset = r.read_le_i64();
    let terms_data_length = r.read_le_i64();
    let terms_addresses_offset = r.read_le_i64();
    let terms_addresses_length = r.read_le_i64();
    let index_shift = r.read_le_i32();
    assert_eq!(index_shift, 10);
    let index_addresses = read_dm(
        r,
        1 + (dict_size as usize).div_ceil(1024),
        block_shift as u32,
    );
    let terms_index_offset = r.read_le_i64();
    let terms_index_length = r.read_le_i64();
    let terms_index_addresses_offset = r.read_le_i64();
    let terms_index_addresses_length = r.read_le_i64();
    TermsMeta {
        dict_size,
        addresses,
        max_term_length,
        max_block_length,
        terms_data_offset,
        terms_data_length,
        terms_addresses_offset,
        terms_addresses_length,
        index_addresses,
        terms_index_offset,
        terms_index_length,
        terms_index_addresses_offset,
        terms_index_addresses_length,
    }
}

fn decode_terms(dvd: &[u8], tm: &TermsMeta) -> Vec<Vec<u8>> {
    let data = &dvd
        [tm.terms_data_offset as usize..(tm.terms_data_offset + tm.terms_data_length) as usize];
    let addr = &dvd[tm.terms_addresses_offset as usize
        ..(tm.terms_addresses_offset + tm.terms_addresses_length) as usize];
    let size = tm.dict_size as usize;
    let num_blocks = size.div_ceil(TERMS_DICT_BLOCK_SIZE);
    let mut terms = Vec::with_capacity(size);
    let mut actual_max_block_length = 0;
    if num_blocks > 0 {
        assert_eq!(tm.addresses.get(addr, 0), 0, "first block at offset 0");
    }
    for b in 0..num_blocks {
        let start = tm.addresses.get(addr, b) as usize;
        let end = if b + 1 < num_blocks {
            tm.addresses.get(addr, b + 1) as usize
        } else {
            data.len()
        };
        assert!(start <= end && end <= data.len());
        let region = &data[start..end];
        let mut r = ByteReader::new(region);
        let first_len = r.read_vint() as usize;
        let first = r.read_bytes(first_len).to_vec();
        terms.push(first.clone());
        let block_count = (size - b * TERMS_DICT_BLOCK_SIZE).min(TERMS_DICT_BLOCK_SIZE);
        if block_count > 1 {
            let uncompressed = r.read_vint() as usize;
            actual_max_block_length = actual_max_block_length.max(uncompressed);
            let decompressed = lz4::block::decompress(&region[r.pos..], Some(uncompressed as i32)).unwrap();
            assert_eq!(decompressed.len(), uncompressed);
            let mut dr = ByteReader::new(&decompressed);
            let mut prev = first;
            for _ in 1..block_count {
                let token = dr.read_u8() as usize;
                let mut prefix = token & 0x0F;
                let mut suffix = 1 + (token >> 4);
                if prefix == 15 {
                    prefix += dr.read_vint() as usize;
                }
                if suffix == 16 {
                    suffix += dr.read_vint() as usize;
                }
                let sfx = dr.read_bytes(suffix);
                let mut term = prev[..prefix].to_vec();
                term.extend_from_slice(sfx);
                prev = term.clone();
                terms.push(term);
            }
            assert_eq!(dr.pos, decompressed.len());
        } else {
            assert_eq!(r.pos, region.len(), "single-term block has no LZ4 section");
        }
    }
    assert_eq!(tm.max_block_length as usize, actual_max_block_length);
    terms
}

fn check_reverse_index(dvd: &[u8], tm: &TermsMeta, dict: &[&[u8]]) {
    let index_data = &dvd[tm.terms_index_offset as usize
        ..(tm.terms_index_offset + tm.terms_index_length) as usize];
    let addr = &dvd[tm.terms_index_addresses_offset as usize
        ..(tm.terms_index_addresses_offset + tm.terms_index_addresses_length) as usize];
    let size = dict.len();
    let num_samples = size.div_ceil(TERMS_DICT_REVERSE_INDEX_SIZE);
    assert_eq!(tm.index_addresses.num_values, num_samples + 1);
    for i in 0..num_samples {
        let ord = i * TERMS_DICT_REVERSE_INDEX_SIZE;
        let start = tm.index_addresses.get(addr, i) as usize;
        let end = tm.index_addresses.get(addr, i + 1) as usize;
        let key = &index_data[start..end];
        let expected_len = if ord == 0 {
            0
        } else {
            bytes_difference(dict[ord - 1], dict[ord]) + 1
        };
        assert_eq!(key, &dict[ord][..expected_len], "sort key for ord {ord}");
    }
    let total = tm.index_addresses.get(addr, num_samples) as usize;
    assert_eq!(total, index_data.len(), "last index address = index length");
}

#[test]
fn file_names_with_and_without_suffix() {
    assert_eq!(
        file_names("_0", "Lucene90_0"),
        [
            "_0_Lucene90_0.dvd".to_string(),
            "_0_Lucene90_0.dvm".to_string()
        ]
    );
    assert_eq!(
        file_names("_0", ""),
        ["_0.dvd".to_string(), "_0.dvm".to_string()]
    );
}

#[test]
fn numeric_dense_constant_and_direct() {
    let max_doc = 1000u32;
    let constant: Vec<(u32, i64)> = (0..max_doc).map(|d| (d, 42)).collect();
    let ramp: Vec<(u32, i64)> = (0..max_doc).map(|d| (d, d as i64 * 7 - 3000)).collect();
    let mut extreme_vals = vec![i64::MIN, i64::MAX, 0, -1, 1];
    extreme_vals.extend((5..max_doc).map(|d| (d as i64) << 40));
    let extreme: Vec<(u32, i64)> = extreme_vals
        .iter()
        .enumerate()
        .map(|(d, &v)| (d as u32, v))
        .collect();

    let (dvd, dvm) = run_writer(|w| {
        w.add_numeric_field(0, max_doc, &constant).unwrap();
        w.add_numeric_field(1, max_doc, &ramp).unwrap();
        w.add_numeric_field(2, max_doc, &extreme).unwrap();
    });

    check_footer(&dvd);
    check_footer(&dvm);
    let header_len = index_header_length(DATA_CODEC, SUFFIX) as i64;

    let mut r = ByteReader::new(&dvm);
    parse_index_header(&mut r, "Lucene90DocValuesMetadata");
    let inputs = [&constant, &ramp, &extreme];
    let mut metas = Vec::new();
    for (field, input) in inputs.iter().enumerate() {
        assert_eq!(r.read_le_i32(), field as i32);
        assert_eq!(r.read_u8(), TYPE_NUMERIC);
        let m = read_numeric_meta(&mut r);
        assert_eq!(
            (
                m.docs_offset,
                m.docs_length,
                m.jump_count,
                m.dense_rank_power
            ),
            (-1, 0, -1, -1)
        );
        assert_eq!(m.num_values, max_doc as i64);
        assert_eq!(m.table_size, -1);
        assert_eq!(m.value_jump_table_offset, -1);
        let decoded = decode_values(&dvd, &m);
        let want: Vec<i64> = input.iter().map(|&(_, v)| v).collect();
        assert_eq!(decoded, want, "field {field} values");
        metas.push(m);
    }
    assert_eq!(r.read_le_i32(), -1, "dvm EOF marker");
    assert_eq!(r.pos, dvm.len() - 16, "dvm fully consumed");

    assert_eq!(metas[0].bpv, 0);
    assert_eq!(metas[0].min, 42);
    assert_eq!(metas[0].gcd, 1);
    assert_eq!(metas[0].values_offset, header_len);
    assert_eq!(metas[0].values_length, 0);
    assert_eq!(metas[1].bpv, 16);
    assert_eq!(metas[1].values_offset, header_len);
    assert_eq!(metas[1].values_length, max_doc as i64 * 2);
    assert_eq!(metas[2].bpv, 64);
    assert_eq!(metas[2].values_offset, header_len + max_doc as i64 * 2);
    assert_eq!(metas[2].values_length, max_doc as i64 * 8);
    assert_eq!(
        metas[2].values_offset + metas[2].values_length,
        dvd.len() as i64 - 16
    );
}

#[test]
fn numeric_sparse_disi_block_types_and_jumps() {
    let max_doc = 200_000u32;
    let mut values: Vec<(u32, i64)> = Vec::new();
    for d in [5u32, 100, 4095] {
        values.push((d, d as i64 * 11 - 20_000));
    }
    for i in 0..5000u32 {
        let d = 65536 + i;
        values.push((d, d as i64 * 11 - 20_000));
    }
    for i in 0..65536u32 {
        let d = 131072 + i;
        values.push((d, d as i64 * 11 - 20_000));
    }
    values.push((196608 + 42, (196608 + 42) * 11 - 20_000));

    let single: Vec<(u32, i64)> = (0..100u32).map(|d| (d * 2, 7)).collect();

    let block1_only: Vec<(u32, i64)> =
        (0..10u32).map(|d| (70000 + d, 1000 + d as i64)).collect();

    let (dvd, dvm) = run_writer(|w| {
        w.add_numeric_field(0, max_doc, &values).unwrap();
        w.add_numeric_field(1, max_doc, &single).unwrap();
        w.add_numeric_field(2, max_doc, &block1_only).unwrap();
    });

    check_footer(&dvd);
    check_footer(&dvm);
    let mut r = ByteReader::new(&dvm);
    parse_index_header(&mut r, "Lucene90DocValuesMetadata");

    let inputs = [&values, &single, &block1_only];
    let mut prev_end = index_header_length(DATA_CODEC, SUFFIX) as i64;
    for (field, input) in inputs.iter().enumerate() {
        assert_eq!(r.read_le_i32(), field as i32);
        assert_eq!(r.read_u8(), TYPE_NUMERIC);
        let m = read_numeric_meta(&mut r);
        assert_eq!(m.dense_rank_power, 9);
        assert_eq!(m.docs_offset, prev_end, "DISI follows previous data");
        assert_eq!(m.num_values, input.len() as i64);
        assert_eq!(m.table_size, -1);

        let blocks = decode_disi(
            &dvd,
            m.docs_offset as usize,
            m.docs_length as usize,
            m.jump_count,
        );
        let docs: Vec<u32> = blocks.iter().flat_map(|b| b.docs.iter().copied()).collect();
        let want_docs: Vec<u32> = input.iter().map(|&(d, _)| d).collect();
        assert_eq!(docs, want_docs, "field {field} DISI docs");

        assert_eq!(m.values_offset, m.docs_offset + m.docs_length);
        let decoded = decode_values(&dvd, &m);
        let want: Vec<i64> = input.iter().map(|&(_, v)| v).collect();
        assert_eq!(decoded, want, "field {field} values");
        prev_end = m.values_offset + m.values_length;

        if field == 0 {
            assert_eq!(m.jump_count, 5, "lastRealBlock 3 → 5 entries");
            assert_eq!(blocks.len(), 4);
            assert_eq!(blocks[0].cardinality, 3);
            assert_eq!(blocks[1].cardinality, 5000);
            assert_eq!(blocks[2].cardinality, 65536);
            assert_eq!(blocks[3].cardinality, 1);
        } else if field == 1 {
            assert_eq!(m.jump_count, 0, "single real block 0 → no jump table");
            assert_eq!(blocks.len(), 1);
            assert_eq!(m.bpv, 0);
            assert_eq!(m.min, 7);
            assert_eq!(m.values_length, 0);
        } else {
            assert_eq!(m.jump_count, 3, "lastRealBlock 1 → 3 entries");
            assert_eq!(blocks.len(), 1);
            assert_eq!(blocks[0].block_id, 1);
        }
    }
    assert_eq!(r.read_le_i32(), -1);
    assert_eq!(r.pos, dvm.len() - 16);
    assert_eq!(prev_end, dvd.len() as i64 - 16);
}

#[test]
fn sorted_terms_dict_multi_block_and_reverse_index() {
    let dict150: Vec<String> = (0..150).map(|i| format!("term-{i:04}")).collect();
    let dict150_refs: Vec<&[u8]> = dict150.iter().map(|s| s.as_bytes()).collect();
    let ords150: Vec<(u32, u32)> = (0..300u32).map(|d| (d, d % 150)).collect();

    let mut dict1030: Vec<String> = (0..700)
        .map(|i| format!("shared-prefix-is-here-{i:04}"))
        .collect();
    dict1030.extend((0..330).map(|i| format!("z{i:03}tail-padding-padding")));
    let dict1030_refs: Vec<&[u8]> = dict1030.iter().map(|s| s.as_bytes()).collect();
    let ords1030: Vec<(u32, u32)> = (0..2060u32).map(|d| (d, d % 1030)).collect();

    let (dvd, dvm) = run_writer(|w| {
        w.add_sorted_field(0, 300, &dict150_refs, &ords150).unwrap();
        w.add_sorted_field(2, 2060, &dict1030_refs, &ords1030)
            .unwrap();
    });

    check_footer(&dvd);
    check_footer(&dvm);
    let mut r = ByteReader::new(&dvm);
    parse_index_header(&mut r, "Lucene90DocValuesMetadata");

    assert_eq!(r.read_le_i32(), 0);
    assert_eq!(r.read_u8(), TYPE_SORTED);
    let om0 = read_numeric_meta(&mut r);
    assert_eq!(
        (
            om0.docs_offset,
            om0.docs_length,
            om0.jump_count,
            om0.dense_rank_power
        ),
        (-1, 0, -1, -1)
    );
    assert_eq!(om0.num_values, 300);
    assert_eq!(om0.min, 0);
    assert_eq!(om0.gcd, 1);
    assert_eq!(om0.bpv, 8);
    let got_ords0 = decode_ords(&dvd, &om0);
    let want_ords0: Vec<u32> = ords150.iter().map(|&(_, o)| o).collect();
    assert_eq!(got_ords0, want_ords0);

    let tm0 = read_terms_meta(&mut r);
    assert_eq!(tm0.dict_size, 150);
    assert_eq!(tm0.max_term_length, 9);
    assert_eq!(tm0.terms_data_offset, om0.values_offset + om0.values_length);
    let terms0 = decode_terms(&dvd, &tm0);
    assert_eq!(terms0.len(), 150);
    for (got, want) in terms0.iter().zip(dict150.iter()) {
        assert_eq!(got, want.as_bytes());
    }
    check_reverse_index(&dvd, &tm0, &dict150_refs);

    assert_eq!(r.read_le_i32(), 2);
    assert_eq!(r.read_u8(), TYPE_SORTED);
    let om1 = read_numeric_meta(&mut r);
    assert_eq!(om1.num_values, 2060);
    assert_eq!(om1.bpv, 12);
    assert_eq!(
        om1.values_offset,
        tm0.terms_index_addresses_offset + tm0.terms_index_addresses_length
    );
    let got_ords1 = decode_ords(&dvd, &om1);
    let want_ords1: Vec<u32> = ords1030.iter().map(|&(_, o)| o).collect();
    assert_eq!(got_ords1, want_ords1);

    let tm1 = read_terms_meta(&mut r);
    assert_eq!(tm1.dict_size, 1030);
    assert_eq!(tm1.max_term_length, 26);
    assert_eq!(tm1.terms_data_offset, om1.values_offset + om1.values_length);
    let terms1 = decode_terms(&dvd, &tm1);
    assert_eq!(terms1.len(), 1030);
    for (got, want) in terms1.iter().zip(dict1030.iter()) {
        assert_eq!(got, want.as_bytes());
    }
    check_reverse_index(&dvd, &tm1, &dict1030_refs);

    assert_eq!(r.read_le_i32(), -1);
    assert_eq!(r.pos, dvm.len() - 16);
    assert_eq!(
        tm1.terms_index_addresses_offset + tm1.terms_index_addresses_length,
        dvd.len() as i64 - 16
    );
}

#[test]
fn empty_fields_are_legal() {
    let (dvd, dvm) = run_writer(|w| {
        w.add_numeric_field(0, 10, &[]).unwrap();
        w.add_sorted_field(1, 10, &[], &[]).unwrap();
    });

    check_footer(&dvd);
    check_footer(&dvm);
    assert_eq!(dvd.len(), index_header_length(DATA_CODEC, SUFFIX) + 16);

    let mut r = ByteReader::new(&dvm);
    parse_index_header(&mut r, "Lucene90DocValuesMetadata");

    assert_eq!(r.read_le_i32(), 0);
    assert_eq!(r.read_u8(), TYPE_NUMERIC);
    let m = read_numeric_meta(&mut r);
    assert_eq!(
        (
            m.docs_offset,
            m.docs_length,
            m.jump_count,
            m.dense_rank_power
        ),
        (-2, 0, -1, -1)
    );
    assert_eq!(m.num_values, 0);
    assert_eq!(m.table_size, -1);
    assert_eq!(m.bpv, 0);
    assert_eq!(
        m.min,
        i64::MAX,
        "empty field keeps Long.MAX_VALUE min"
    );
    assert_eq!(m.values_length, 0);
    assert_eq!(m.value_jump_table_offset, -1);

    assert_eq!(r.read_le_i32(), 1);
    assert_eq!(r.read_u8(), TYPE_SORTED);
    let om = read_numeric_meta(&mut r);
    assert_eq!((om.docs_offset, om.num_values, om.bpv), (-2, 0, 0));
    let tm = read_terms_meta(&mut r);
    assert_eq!(tm.dict_size, 0);
    assert_eq!(tm.addresses.num_values, 0, "zero blocks → zero DM records");
    assert_eq!(tm.max_term_length, 0);
    assert_eq!(tm.max_block_length, 0);
    assert_eq!(tm.terms_data_length, 0);
    assert_eq!(tm.terms_addresses_length, 0);
    assert_eq!(tm.index_addresses.num_values, 1, "single all-zero record");
    assert_eq!(tm.index_addresses.mins, vec![0]);
    assert_eq!(tm.index_addresses.bpvs, vec![0]);
    assert_eq!(tm.terms_index_length, 0);
    assert_eq!(tm.terms_index_addresses_length, 0);

    assert_eq!(r.read_le_i32(), -1);
    assert_eq!(r.pos, dvm.len() - 16);
}
