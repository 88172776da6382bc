//! Encodings of blocks of integers.

use codec_lucene9::error::Error;
use codec_lucene9::io::{DataInput, IndexInput, IndexOutput};
use codec_lucene9::postings_ll::{
    for_delta_util_decode, for_delta_util_encode, for_util_decode, for_util_encode, pfor_util_decode, pfor_util_encode, pfor_util_skip, read_group_vints, read_msb_vlong, read_vint15, read_vlong15,
    write_group_vints, write_msb_vlong, write_vint15, write_vlong15,
};

fn enc(f: impl FnOnce(&mut IndexOutput) -> Result<(), Error>) -> Vec<u8> {
    let mut out = IndexOutput::in_memory();
    f(&mut out).unwrap();
    out.into_bytes()
}

fn unhex(s: &str) -> Vec<u8> {
    (0..s.len())
        .step_by(2)
        .map(|i| u8::from_str_radix(&s[i..i + 2], 16).unwrap())
        .collect()
}

fn java_vector(f: impl Fn(&mut u64, usize)) -> [u64; 128] {
    let mut v = [0u64; 128];
    for (i, x) in v.iter_mut().enumerate() {
        f(x, i);
    }
    v
}

#[test]
fn group_vints_layout() {
    let out = enc(|o| write_group_vints(o, &[0x12, 0x3456, 0x789ABC, 0xF0DE1A2B]));
    assert_eq!(
        out,
        vec![
            0b00_01_10_11,
            0x12,
            0x56, 0x34,
            0xBC, 0x9A, 0x78,
            0x2B, 0x1A, 0xDE, 0xF0,
        ]
    );
}

#[test]
fn group_vints_tail_uses_vint() {
    assert_eq!(enc(|o| write_group_vints(o, &[1, 2, 3])), vec![1, 2, 3]);
    assert_eq!(
        enc(|o| write_group_vints(o, &[0x80, 300])),
        vec![0x80, 0x01, 0xAC, 0x02]
    );
}

#[test]
fn for_util_matches_java_bpv1() {
    let v = java_vector(|x, i| *x = (i as u64 * 37) % 2);
    assert_eq!(
        enc(|o| for_util_encode(o, &v, 1)),
        unhex("0000000000000000ffffffffffffffff")
    );
}

#[test]
fn for_util_matches_java_bpv3() {
    let v = java_vector(|x, i| *x = (i as u64 * 37) % 8);
    assert_eq!(
        enc(|o| for_util_encode(o, &v, 3)),
        unhex("1a1a1a1a1a1a1a1aacacacacacacacac4141414141414141f7f7f7f7f7f7f7f788888888888888883f3f3f3f3f3f3f3f")
    );
}

#[test]
fn for_util_matches_java_bpv9() {
    let v = java_vector(|x, i| *x = (i as u64 * 37) % 512);
    assert_eq!(
        enc(|o| for_util_encode(o, &v, 9)),
        unhex("1ef076a04e502600c902dfb2d562cb127b1578c57e757b258827c8d78987c937743a24ea549a044ae14ccdfcf9ace55c695f640f6fbf6a6fce71cd21ccd1ce815884383418e47894df96b7468ff6e7a63aa9305926093cb997bb946b921b97cb0fce4f7e0e2e4edef6e0a690d64086f002f32ea31a53060391059cb59765921558185bc85a785828db2abbda9b8afb3a")
    );
}

#[test]
fn for_util_matches_java_bpv16() {
    let v = java_vector(|x, i| *x = (i as u64 * 37) % 65536);
    assert_eq!(
        enc(|o| for_util_encode(o, &v, 16)),
        unhex("e00d4009a0040000050e6509c50425002a0e8a09ea044a004f0eaf090f056f00740ed40934059400990ef9095905b900be0e1e0a7e05de00e30e430aa3050301080f680ac80528012d0f8d0aed054d01520fb20a12067201770fd70a370697019c0ffc0a5c06bc01c10f210b8106e101e60f460ba60606020b106b0bcb062b023010900bf00650025510b50b150775027a10da0b3a079a029f10ff0b5f07bf02c410240c8407e402e910490ca90709030e116e0cce072e033311930cf30753035811b80c180878037d11dd0c3d089d03a211020d6208c203c711270d8708e703ec114c0dac080c041112710dd10831043612960df60856045b12bb0d1b097b04")
    );
}

#[test]
fn for_delta_matches_java() {
    let ones = [1u64; 128];
    assert_eq!(enc(|o| for_delta_util_encode(o, &ones)), unhex("00"));

    let mixed = java_vector(|x, i| *x = (i as u64 * 37) % 50 + 1);
    assert_eq!(
        enc(|o| for_delta_util_encode(o, &mixed)),
        unhex("06fa0ed14cd58dd90625a22e1b0c590d9a5c6d5cae3a243a65833887798bba6330dc06bd44be85b7c6029a0213e250e291396531a6151c195d6d30667164b24528bac69a3c987d98bee391e70acb48c289175d159e1617ff544228406940aa2020")
    );
}

#[test]
fn pfor_matches_java_plain() {
    let freqs = java_vector(|x, i| *x = (i % 5 + 1) as u64);
    assert_eq!(
        enc(|o| pfor_util_encode(o, &freqs)),
        unhex("03724e29a594724e2996714f28a696714fa595704f2aa5957029a496724d29a4964c2aa695734c2aa6734e29a594734e29")
    );
}

#[test]
fn pfor_matches_java_exceptions() {
    let mut v = java_vector(|x, i| *x = (i % 5 + 1) as u64);
    v[3] = 3000;
    v[77] = 65535;
    v[100] = 999;
    assert_eq!(
        enc(|o| pfor_util_encode(o, &v)),
        unhex("6803020105040302010403020105040302050403020105040301050403020105b802e705040302010503020105040302010403020105040302050403020105040301050403020105040201050403020105030201050403020104030201050403020504030201050403010504ff0201050402010504030201050302010504030201030b4dff6403")
    );
}

#[test]
fn pfor_matches_java_many_large_values() {
    let mut v = java_vector(|x, i| *x = (i % 5 + 1) as u64);
    for i in 0..10 {
        v[i * 3] = 5000 + i as u64;
    }
    assert_eq!(
        enc(|o| pfor_util_encode(o, &v)),
        unhex("0d100028001800409c18000800200010002000100028001800290018000a00499c0c00240010002a001000280018000b00180008002000549c2100100029001c0028001c000a002200080020001000589c10002800180008001800080020001000250013002900649c28001800080020000800200010002800100028001800689c18000a00210012002400100028001c00280018000800709c080020001000280010002900180008001c000a0026007a9c20001000280018002800180008002000080020001000809c130029001c000a00")
    );
}

#[test]
fn pfor_constant_branch_with_exception() {
    let mut values = [1u64; 128];
    values[3] = 255;
    let out = enc(|o| pfor_util_encode(o, &values));
    assert_eq!(out[0], 1 << 5);
    assert_eq!(out[1], 1);
    assert_eq!(&out[2..], &[3, (255 >> 1 << 1) as u8]);
}

#[test]
fn vint15_boundaries() {
    assert_eq!(enc(|o| write_vint15(o, 0x7FFF)), vec![0xFF, 0x7F]);
    assert_eq!(enc(|o| write_vint15(o, 0x8000)), vec![0x00, 0x80, 0x01]);
    assert_eq!(enc(|o| write_vlong15(o, 0x1_FFFF)), vec![0xFF, 0xFF, 0x03]);
}

#[test]
fn msb_vlong_matches_javadoc_example() {
    assert_eq!(enc(|o| write_msb_vlong(o, 0x7FFF)), vec![0x81, 0xFF, 0x7F]);
    assert_eq!(enc(|o| write_msb_vlong(o, 0)), vec![0x00]);
    assert_eq!(enc(|o| write_msb_vlong(o, 1)), vec![0x01]);
    assert_eq!(enc(|o| write_msb_vlong(o, 0x80)), vec![0x81, 0x00]);
}

fn dec<T>(bytes: &[u8], f: impl FnOnce(&mut IndexInput) -> Result<T, Error>) -> T {
    f(&mut IndexInput::in_memory(bytes.to_vec())).unwrap()
}

#[test]
fn group_vints_decode_round_trip() {
    let values = [0x12, 0x3456, 0x789ABC, 0xF0DE1A2B, 1, 300];
    let bytes = enc(|o| write_group_vints(o, &values));
    let mut back = [0u32; 6];
    dec(&bytes, |i| read_group_vints(i, &mut back));
    assert_eq!(back, values);
}

#[test]
fn for_util_decode_round_trip_all_bpv() {
    for bpv in [1u8, 2, 3, 4, 5, 7, 8, 9, 11, 12, 16, 17, 24, 25, 31, 32] {
        let mask = if bpv == 64 { u64::MAX } else { (1u64 << bpv) - 1 };
        let v = java_vector(|x, i| *x = (i as u64 * 37 + 5) & mask);
        let bytes = enc(|o| for_util_encode(o, &v, bpv));
        let mut back = [0u64; 128];
        dec(&bytes, |i| for_util_decode(i, &mut back, bpv));
        assert_eq!(back, v, "bpv {bpv}");
    }
}

#[test]
fn for_util_decode_matches_java_vectors() {
    let v9 = java_vector(|x, i| *x = (i as u64 * 37) % 512);
    let bytes = unhex("1ef076a04e502600c902dfb2d562cb127b1578c57e757b258827c8d78987c937743a24ea549a044ae14ccdfcf9ace55c695f640f6fbf6a6fce71cd21ccd1ce815884383418e47894df96b7468ff6e7a63aa9305926093cb997bb946b921b97cb0fce4f7e0e2e4edef6e0a690d64086f002f32ea31a53060391059cb59765921558185bc85a785828db2abbda9b8afb3a");
    let mut back = [0u64; 128];
    dec(&bytes, |i| for_util_decode(i, &mut back, 9));
    assert_eq!(back, v9);
    let v16 = java_vector(|x, i| *x = (i as u64 * 37) % 65536);
    let bytes = unhex("e00d4009a0040000050e6509c50425002a0e8a09ea044a004f0eaf090f056f00740ed40934059400990ef9095905b900be0e1e0a7e05de00e30e430aa3050301080f680ac80528012d0f8d0aed054d01520fb20a12067201770fd70a370697019c0ffc0a5c06bc01c10f210b8106e101e60f460ba60606020b106b0bcb062b023010900bf00650025510b50b150775027a10da0b3a079a029f10ff0b5f07bf02c410240c8407e402e910490ca90709030e116e0cce072e033311930cf30753035811b80c180878037d11dd0c3d089d03a211020d6208c203c711270d8708e703ec114c0dac080c041112710dd10831043612960df60856045b12bb0d1b097b04");
    let mut back = [0u64; 128];
    dec(&bytes, |i| for_util_decode(i, &mut back, 16));
    assert_eq!(back, v16);
}

#[test]
fn for_delta_decode_all_ones_and_mixed() {
    let mut back = [0u64; 128];
    dec(&[0x00], |i| for_delta_util_decode(i, &mut back));
    assert_eq!(back, [1u64; 128]);
    let mixed = java_vector(|x, i| *x = (i as u64 * 37) % 50 + 1);
    let bytes = unhex("06fa0ed14cd58dd90625a22e1b0c590d9a5c6d5cae3a243a65833887798bba6330dc06bd44be85b7c6029a0213e250e291396531a6151c195d6d30667164b24528bac69a3c987d98bee391e70acb48c289175d159e1617ff544228406940aa2020");
    dec(&bytes, |i| for_delta_util_decode(i, &mut back));
    assert_eq!(back, mixed);
}

#[test]
fn pfor_decode_matches_java_vectors() {
    let mut back = [0u64; 128];
    let freqs = java_vector(|x, i| *x = (i % 5 + 1) as u64);
    let bytes = unhex("03724e29a594724e2996714f28a696714fa595704f2aa5957029a496724d29a4964c2aa695734c2aa6734e29a594734e29");
    dec(&bytes, |i| pfor_util_decode(i, &mut back));
    assert_eq!(back, freqs);
    let mut v = freqs;
    v[3] = 3000;
    v[77] = 65535;
    v[100] = 999;
    let bytes = unhex("6803020105040302010403020105040302050403020105040301050403020105b802e705040302010503020105040302010403020105040302050403020105040301050403020105040201050403020105030201050403020104030201050403020504030201050403010504ff0201050402010504030201050302010504030201030b4dff6403");
    dec(&bytes, |i| pfor_util_decode(i, &mut back));
    assert_eq!(back, v);
    let mut values = [1u64; 128];
    values[3] = 255;
    let bytes = enc(|o| pfor_util_encode(o, &values));
    dec(&bytes, |i| pfor_util_decode(i, &mut back));
    assert_eq!(back, values);
}

#[test]
fn pfor_skip_consumes_exact_block_bytes() {
    let mut with_exceptions = java_vector(|x, i| *x = (i % 5 + 1) as u64);
    with_exceptions[3] = 3000;
    with_exceptions[77] = 65535;
    with_exceptions[100] = 999;
    let mut constant_with_exception = [1u64; 128];
    constant_with_exception[3] = 255;
    let cases = [
        enc(|o| pfor_util_encode(o, &java_vector(|x, i| *x = (i % 5 + 1) as u64))),
        enc(|o| pfor_util_encode(o, &with_exceptions)),
        enc(|o| pfor_util_encode(o, &constant_with_exception)),
        enc(|o| pfor_util_encode(o, &[1u64; 128])),
    ];
    for bytes in cases {
        let len = bytes.len() as u64;
        let mut input = IndexInput::in_memory(bytes);
        pfor_util_skip(&mut input).unwrap();
        assert_eq!(input.file_pointer(), len);
    }
}

#[test]
fn vint15_vlong15_round_trip() {
    for v in [0u32, 1, 0x7FFF, 0x8000, 0x1_FFFF, u32::MAX] {
        let bytes = enc(|o| write_vint15(o, v));
        assert_eq!(dec(&bytes, read_vint15), v, "vint15 {v}");
    }
    for v in [0u64, 0x7FFF, 0x8000, 1 << 40] {
        let bytes = enc(|o| write_vlong15(o, v));
        assert_eq!(dec(&bytes, read_vlong15), v, "vlong15 {v}");
    }
}

#[test]
fn msb_vlong_round_trip() {
    for v in [0u64, 1, 0x80, 0x7FFF, 1 << 35, u64::MAX >> 1] {
        let bytes = enc(|o| write_msb_vlong(o, v));
        assert_eq!(dec(&bytes, read_msb_vlong), v, "msb_vlong {v}");
    }
}

struct Rng(u64);

impl Rng {
    fn next(&mut self) -> u64 {
        let mut x = self.0;
        x ^= x >> 12;
        x ^= x << 25;
        x ^= x >> 27;
        self.0 = x;
        x.wrapping_mul(0x2545_F491_4F6C_DD1D)
    }
}

#[test]
fn avx2_public_entries_round_trip() {
    let mut rng = Rng(7);

    for bpv in 1..=32u8 {
        let mask = (1u64 << bpv) - 1;
        let mut v = [0u64; 128];
        for x in v.iter_mut() {
            *x = rng.next() & mask;
        }
        let bytes = enc(|o| for_util_encode(o, &v, bpv));
        let mut got = [0u64; 128];
        for_util_decode(&mut IndexInput::in_memory(bytes), &mut got, bpv).unwrap();
        assert_eq!(got, v, "for_util_decode bpv={bpv}");
    }

    for max_log in [1u32, 4, 5, 11, 12, 20, 31] {
        let mut deltas = [0u64; 128];
        for d in deltas.iter_mut() {
            *d = (rng.next() & ((1u64 << max_log) - 1)) + 1;
        }
        let bytes = enc(|o| for_delta_util_encode(o, &deltas));
        let mut got = [0u64; 128];
        for_delta_util_decode(&mut IndexInput::in_memory(bytes), &mut got).unwrap();
        assert_eq!(got, deltas, "for_delta_util_decode max_log={max_log}");
    }
    let ones = [1u64; 128];
    let bytes = enc(|o| for_delta_util_encode(o, &ones));
    let mut got = [0u64; 128];
    for_delta_util_decode(&mut IndexInput::in_memory(bytes), &mut got).unwrap();
    assert_eq!(got, ones, "for_delta_util_decode all-ones");

    for trial in 0..4u32 {
        let mut v = [0u64; 128];
        for x in v.iter_mut() {
            *x = rng.next() & 0xF;
        }
        for e in 0..trial {
            v[(rng.next() % 128) as usize] = 1 << (20 + e);
        }
        let bytes = enc(|o| pfor_util_encode(o, &v));
        let mut got = [0u64; 128];
        pfor_util_decode(&mut IndexInput::in_memory(bytes), &mut got).unwrap();
        assert_eq!(got, v, "pfor_util_decode trial={trial}");
    }
}
