//! Packed values.

use codec_lucene9::io::{ChecksumIndexOutput, IndexOutput};
use codec_lucene9::packed::{direct_monotonic_write, direct_writer_encode, direct_writer_unsigned_bits_required, DirectMonotonicReader, DirectReader};

fn round_trip(values: &[u64], block_shift: u32) {
    let mut meta = ChecksumIndexOutput::new(IndexOutput::in_memory());
    let mut data = ChecksumIndexOutput::new(IndexOutput::in_memory());
    direct_monotonic_write(&mut meta, &mut data, values, block_shift).unwrap();
    let meta_bytes = meta.into_bytes();
    let data_bytes = data.into_bytes();
    let reader =
        DirectMonotonicReader::new(&meta_bytes, &data_bytes, values.len(), block_shift)
            .unwrap();
    for (i, &v) in values.iter().enumerate() {
        assert_eq!(reader.get(i as u64), v, "value {i} of {values:?}");
    }
}

#[test]
fn single_block_constant() {
    round_trip(&[7, 7, 7, 7], 2);
}

#[test]
fn single_block_linear() {
    let values: Vec<u64> = (0..100).map(|i| 10 + 3 * i).collect();
    round_trip(&values, 4);
}

#[test]
fn cross_block_jitter() {
    let values: Vec<u64> = (0..40u64).map(|i| i * i + 5).collect();
    round_trip(&values, 4);
}

#[test]
fn large_values_bpv64() {
    let values: Vec<u64> = (0..8u64).map(|i| (i + 8) << 60).collect();
    round_trip(&values, 3);
}

#[test]
fn block_shift_10_like_stored_fields() {
    let values: Vec<u64> = (0..1025u64).map(|i| i * 81920 + i % 7).collect();
    round_trip(&values, 10);
}

#[test]
fn direct_writer_known_layouts() {
    assert_eq!(direct_writer_encode(&[1, 2, 255], 8), vec![1, 2, 255]);
    assert_eq!(direct_writer_encode(&[1, 0, 1], 1), vec![0b101]);
    assert_eq!(direct_writer_encode(&[0x0201], 16), vec![1, 2]);
    assert_eq!(
        direct_writer_encode(&[0xabc, 0xdef], 12),
        vec![0xbc, 0xfa, 0xde, 0x00]
    );
    assert_eq!(
        direct_writer_encode(&[0, 0x16C, 0x38D, 0x521, 0x665, 0], 12),
        vec![0x00, 0xC0, 0x16, 0x8D, 0x13, 0x52, 0x65, 0x06, 0x00, 0x00]
    );
    assert_eq!(
        direct_writer_encode(&[0x12345, 0xABCDE, 0x55], 20),
        vec![0x45, 0x23, 0xE1, 0xCD, 0xAB, 0x55, 0x00, 0x00, 0x00, 0x00]
    );
    assert_eq!(direct_writer_encode(&[0x04030201], 32), vec![1, 2, 3, 4]);
    assert_eq!(
        direct_writer_encode(&[0x0504030201], 40),
        vec![1, 2, 3, 4, 5, 0, 0, 0]
    );
}

#[test]
fn bits_required_rounding() {
    assert_eq!(direct_writer_unsigned_bits_required(0), 1);
    assert_eq!(direct_writer_unsigned_bits_required(1), 1);
    assert_eq!(direct_writer_unsigned_bits_required(2), 2);
    assert_eq!(direct_writer_unsigned_bits_required(3), 2);
    assert_eq!(direct_writer_unsigned_bits_required(4), 4);
    assert_eq!(direct_writer_unsigned_bits_required(0xff), 8);
    assert_eq!(direct_writer_unsigned_bits_required(0x100), 12);
    assert_eq!(direct_writer_unsigned_bits_required(0xffff), 16);
    assert_eq!(direct_writer_unsigned_bits_required(0x1_0000), 20);
    assert_eq!(direct_writer_unsigned_bits_required(u64::MAX), 64);
}

#[test]
fn direct_reader_round_trip_all_bpv() {
    let mut state = 0x243F6A8885A308D3u64;
    let mut rand = move || {
        state ^= state << 13;
        state ^= state >> 7;
        state ^= state << 17;
        state
    };
    for bpv in [1, 2, 4, 8, 12, 16, 20, 24, 28, 32, 40, 48, 56, 64] {
        let mask = if bpv == 64 {
            u64::MAX
        } else {
            (1u64 << bpv) - 1
        };
        let values: Vec<u64> = (0..100).map(|_| rand() & mask).collect();
        let bytes = direct_writer_encode(&values, bpv);
        let reader = DirectReader::new(&bytes, bpv, 0).unwrap();
        for (i, &v) in values.iter().enumerate() {
            assert_eq!(reader.get(i as u64), v, "bpv {bpv} index {i}");
        }
    }
}

#[test]
fn direct_reader_known_layouts() {
    let r = DirectReader::new(&[1, 2, 255], 8, 0).unwrap();
    assert_eq!(r.get(0), 1);
    assert_eq!(r.get(1), 2);
    assert_eq!(r.get(2), 255);
    let r = DirectReader::new(&[0b101], 1, 0).unwrap();
    assert_eq!(r.get(0), 1);
    assert_eq!(r.get(1), 0);
    assert_eq!(r.get(2), 1);
    let r = DirectReader::new(&[0xbc, 0xfa, 0xde, 0x00], 12, 0).unwrap();
    assert_eq!(r.get(0), 0xabc);
    assert_eq!(r.get(1), 0xdef);
    let r = DirectReader::new(&[1, 2], 16, 0).unwrap();
    assert_eq!(r.get(0), 0x0201);
    let r = DirectReader::new(&[0xFF, 1, 2], 16, 1).unwrap();
    assert_eq!(r.get(0), 0x0201);
    assert!(DirectReader::new(&[0u8; 8], 3, 0).is_err());
}
