//! Reading and writing of basic values.

use codec_lucene9::codec_util::{check_footer, write_footer};
use codec_lucene9::error::ErrorKind;
use codec_lucene9::io::{ChecksumIndexInput, ChecksumIndexOutput, DataInput, DataOutput, IndexInput, IndexOutput};
use codec_lucene9::strings::{StringMap, StringSet};

fn bytes(f: impl FnOnce(&mut IndexOutput)) -> Vec<u8> {
    let mut out = IndexOutput::in_memory();
    f(&mut out);
    out.into_bytes()
}

#[test]
fn vint_known_vectors() {
    assert_eq!(bytes(|o| o.write_vint(0).unwrap()), [0x00]);
    assert_eq!(bytes(|o| o.write_vint(1).unwrap()), [0x01]);
    assert_eq!(bytes(|o| o.write_vint(127).unwrap()), [0x7f]);
    assert_eq!(bytes(|o| o.write_vint(128).unwrap()), [0x80, 0x01]);
    assert_eq!(bytes(|o| o.write_vint(300).unwrap()), [0xac, 0x02]);
    assert_eq!(
        bytes(|o| o.write_vint(i32::MAX).unwrap()),
        [0xff, 0xff, 0xff, 0xff, 0x07]
    );
}

#[test]
fn vlong_known_vectors() {
    assert_eq!(bytes(|o| o.write_vlong(0).unwrap()), [0x00]);
    assert_eq!(bytes(|o| o.write_vlong(128).unwrap()), [0x80, 0x01]);
    assert_eq!(
        bytes(|o| o.write_vlong(1 << 35).unwrap()),
        [0x80, 0x80, 0x80, 0x80, 0x80, 0x01]
    );
    assert_eq!(
        bytes(|o| o.write_vlong(i64::MAX).unwrap()),
        [0xff, 0xff, 0xff, 0xff, 0xff, 0xff, 0xff, 0xff, 0x7f]
    );
}

#[test]
fn zint_zlong_known_vectors() {
    assert_eq!(bytes(|o| o.write_zint(0).unwrap()), [0x00]);
    assert_eq!(bytes(|o| o.write_zint(-1).unwrap()), [0x01]);
    assert_eq!(bytes(|o| o.write_zint(1).unwrap()), [0x02]);
    assert_eq!(bytes(|o| o.write_zint(-64).unwrap()), [0x7f]);
    assert_eq!(bytes(|o| o.write_zint(64).unwrap()), [0x80, 0x01]);
    assert_eq!(bytes(|o| o.write_zlong(-1).unwrap()), [0x01]);
    assert_eq!(
        bytes(|o| o.write_zlong(i64::MIN).unwrap()),
        [0xff, 0xff, 0xff, 0xff, 0xff, 0xff, 0xff, 0xff, 0xff, 0x01]
    );
}

#[test]
fn int_long_are_little_endian() {
    assert_eq!(bytes(|o| o.write_int(0x01020304).unwrap()), [4, 3, 2, 1]);
    assert_eq!(
        bytes(|o| o.write_long(0x0102030405060708).unwrap()),
        [8, 7, 6, 5, 4, 3, 2, 1]
    );
    assert_eq!(bytes(|o| o.write_int(-1).unwrap()), [0xff; 4]);
    assert_eq!(bytes(|o| o.write_long(-1).unwrap()), [0xff; 8]);
}

#[test]
fn string_layout() {
    assert_eq!(bytes(|o| o.write_string("").unwrap()), [0x00]);
    assert_eq!(bytes(|o| o.write_string("ab").unwrap()), [0x02, b'a', b'b']);
    assert_eq!(bytes(|o| o.write_string("é").unwrap()), [0x02, 0xc3, 0xa9]);
}

#[test]
fn map_and_set_layout() {
    let mut m = StringMap::new();
    m.insert("k".to_string(), "v".to_string());
    assert_eq!(
        bytes(|o| o.write_map_of_strings(&m).unwrap()),
        [0x01, 0x01, b'k', 0x01, b'v']
    );
    let mut s = StringSet::new();
    s.insert("a".to_string());
    s.insert("b".to_string());
    assert_eq!(
        bytes(|o| o.write_set_of_strings(&s).unwrap()),
        [0x02, 0x01, b'a', 0x01, b'b']
    );
}

#[test]
fn checksum_matches_java_crc32() {
    let mut out = ChecksumIndexOutput::new(IndexOutput::in_memory());
    out.write_bytes(b"123456789").unwrap();
    assert_eq!(out.get_checksum(), 0xCBF43926);
    assert_eq!(out.file_pointer(), 9);
}

#[test]
fn read_primitives_round_trip() {
    let bytes = bytes(|o| {
        o.write_byte(0xAB).unwrap();
        o.write_short(-2).unwrap();
        o.write_int(0x01020304).unwrap();
        o.write_long(-1).unwrap();
        o.write_vint(300).unwrap();
        o.write_vlong(1 << 35).unwrap();
        o.write_zint(-64).unwrap();
        o.write_string("héllo").unwrap();
        let mut m = StringMap::new();
        m.insert("k".to_string(), "v".to_string());
        o.write_map_of_strings(&m).unwrap();
        let mut s = StringSet::new();
        s.insert("a".to_string());
        s.insert("b".to_string());
        o.write_set_of_strings(&s).unwrap();
    });
    let mut i = IndexInput::in_memory(bytes);
    assert_eq!(i.read_byte().unwrap(), 0xAB);
    assert_eq!(i.read_short().unwrap(), -2);
    assert_eq!(i.read_int().unwrap(), 0x01020304);
    assert_eq!(i.read_long().unwrap(), -1);
    assert_eq!(i.read_vint().unwrap(), 300);
    assert_eq!(i.read_vlong().unwrap(), 1 << 35);
    assert_eq!(i.read_zint().unwrap(), -64);
    assert_eq!(i.read_string().unwrap(), "héllo");
    let m = i.read_map_of_strings().unwrap();
    assert_eq!(m.get("k").unwrap(), "v");
    let s = i.read_set_of_strings().unwrap();
    assert!(s.contains("a") && s.contains("b"));
    assert_eq!(i.file_pointer(), i.length());
}

#[test]
fn read_zint_large_magnitudes_round_trip() {
    let values = [i32::MIN, 1 << 30, -(1 << 30), 0, -1, i32::MAX];
    let bytes = bytes(|o| {
        for &n in &values {
            o.write_zint(n).unwrap();
        }
    });
    let mut i = IndexInput::in_memory(bytes);
    for &n in &values {
        assert_eq!(i.read_zint().unwrap(), n);
    }
}

#[test]
fn read_beyond_end_is_eof() {
    let mut i = IndexInput::in_memory(vec![1]);
    assert_eq!(i.read_byte().unwrap(), 1);
    let err = i.read_byte().unwrap_err();
    assert_eq!(err.kind(), ErrorKind::UnexpectedEof);
}

#[test]
fn skip_bytes_moves_pointer() {
    let bytes = bytes(|o| o.write_bytes(&[7; 100]).unwrap());
    let mut i = IndexInput::in_memory(bytes);
    i.skip_bytes(90).unwrap();
    assert_eq!(i.file_pointer(), 90);
    assert_eq!(i.read_byte().unwrap(), 7);
    assert!(i.skip_bytes(11).is_err(), "skip past end must fail");
}

#[test]
fn memory_slice_independent_positions() {
    let bytes = bytes(|o| o.write_bytes(&(0u8..100).collect::<Vec<_>>()).unwrap());
    let i = IndexInput::in_memory(bytes);
    let mut a = i.slice(10, 20).unwrap();
    let mut b = i.slice(50, 10).unwrap();
    assert_eq!(a.length(), 20);
    assert_eq!(a.read_byte().unwrap(), 10);
    assert_eq!(b.read_byte().unwrap(), 50);
    assert_eq!(a.read_byte().unwrap(), 11);
    assert!(i.slice(90, 20).is_err(), "slice past end must fail");
}

#[test]
fn checksum_input_footer_round_trip() {
    let mut out = ChecksumIndexOutput::new(IndexOutput::in_memory());
    out.write_bytes(b"payload").unwrap();
    write_footer(&mut out).unwrap();
    let bytes = out.into_bytes();
    let mut input = ChecksumIndexInput::new(IndexInput::in_memory(bytes));
    let mut payload = [0u8; 7];
    input.read_bytes(&mut payload).unwrap();
    assert_eq!(&payload, b"payload");
    check_footer(&mut input).unwrap();
}

#[test]
fn corrupted_payload_fails_footer() {
    let mut out = ChecksumIndexOutput::new(IndexOutput::in_memory());
    out.write_bytes(b"payload").unwrap();
    write_footer(&mut out).unwrap();
    let mut bytes = out.into_bytes();
    bytes[2] ^= 0xFF;
    let mut input = ChecksumIndexInput::new(IndexInput::in_memory(bytes));
    let mut payload = [0u8; 7];
    input.read_bytes(&mut payload).unwrap();
    assert!(check_footer(&mut input).is_err());
}
