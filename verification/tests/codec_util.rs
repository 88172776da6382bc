//! Headers and footers of index files.

use codec_lucene9::codec_util::{index_header_length, write_footer, write_index_header, FOOTER_LENGTH};
use codec_lucene9::io::{crc32, ChecksumIndexOutput, DataOutput, IndexOutput};

#[test]
fn index_header_byte_layout() {
    let id = [0xABu8; 16];
    let mut out = ChecksumIndexOutput::new(IndexOutput::in_memory());
    write_index_header(&mut out, "Lucene90SegmentInfo", 0, &id, "").unwrap();
    let bytes = out.into_bytes();

    let mut expected = vec![0x3f, 0xd7, 0x6c, 0x17];
    expected.push(19);
    expected.extend_from_slice(b"Lucene90SegmentInfo");
    expected.extend_from_slice(&[0, 0, 0, 0]);
    expected.extend_from_slice(&[0xAB; 16]);
    expected.push(0);
    assert_eq!(bytes, expected);
    assert_eq!(bytes.len(), index_header_length("Lucene90SegmentInfo", ""));
    assert_eq!(bytes.len(), 45);
}

#[test]
fn index_header_with_suffix() {
    let id = [0u8; 16];
    let mut out = ChecksumIndexOutput::new(IndexOutput::in_memory());
    write_index_header(&mut out, "segments", 10, &id, "1").unwrap();
    let bytes = out.into_bytes();
    assert_eq!(bytes.len(), index_header_length("segments", "1"));
    assert_eq!(*bytes.last().unwrap(), b'1');
    assert_eq!(bytes[bytes.len() - 2], 1);
}

#[test]
fn footer_layout_and_crc_coverage() {
    let mut out = ChecksumIndexOutput::new(IndexOutput::in_memory());
    out.write_bytes(b"abc").unwrap();
    write_footer(&mut out).unwrap();
    let bytes = out.into_bytes();

    assert_eq!(bytes.len(), 3 + FOOTER_LENGTH);
    assert_eq!(&bytes[3..11], &[0xc0, 0x28, 0x93, 0xe8, 0, 0, 0, 0]);
    let expected_crc = crc32(&bytes[..11]);
    let actual_crc = u64::from_be_bytes(bytes[11..19].try_into().unwrap());
    assert_eq!(actual_crc, expected_crc);
    assert_eq!(actual_crc >> 32, 0, "crc high 32 bits must be 0");
}
