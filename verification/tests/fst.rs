//! Finite state transducers.

use codec_lucene9::fst::{FstMetadata, FstReader, BIT_ARC_HAS_FINAL_OUTPUT, BIT_ARC_HAS_OUTPUT, BIT_FINAL_ARC, BIT_LAST_ARC, BIT_STOP_NODE, BIT_TARGET_NEXT};
use codec_lucene9::fst_compiler::{Fst, FstCompiler};
use codec_lucene9::io::{ChecksumIndexOutput, IndexInput, IndexOutput};

struct ReadArc {
    label: u8,
    flags: u8,
    output: Option<Vec<u8>>,
    final_output: Option<Vec<u8>>,
    is_final: bool,
    is_last: bool,
    target: i64,
}

fn read_vlong_rev(bytes: &[u8], pos: &mut i64) -> u64 {
    let mut v = 0u64;
    let mut shift = 0;
    loop {
        let b = bytes[*pos as usize];
        *pos -= 1;
        v |= ((b & 0x7f) as u64) << shift;
        if b & 0x80 == 0 {
            break;
        }
        shift += 7;
    }
    v
}

fn read_output_rev(bytes: &[u8], pos: &mut i64) -> Vec<u8> {
    let len = read_vlong_rev(bytes, pos) as usize;
    let end = *pos as usize;
    let start = end + 1 - len;
    let mut v = bytes[start..=end].to_vec();
    v.reverse();
    *pos = start as i64 - 1;
    v
}

fn read_node(bytes: &[u8], addr: u64) -> (Vec<ReadArc>, i64) {
    let mut pos = addr as i64;
    let mut arcs = Vec::new();
    loop {
        let flags = bytes[pos as usize];
        pos -= 1;
        let label = bytes[pos as usize];
        pos -= 1;
        let output = if flags & BIT_ARC_HAS_OUTPUT != 0 {
            Some(read_output_rev(bytes, &mut pos))
        } else {
            None
        };
        let final_output = if flags & BIT_ARC_HAS_FINAL_OUTPUT != 0 {
            Some(read_output_rev(bytes, &mut pos))
        } else {
            None
        };
        let target = if flags & BIT_STOP_NODE != 0 {
            if flags & BIT_FINAL_ARC != 0 {
                -1
            } else {
                0
            }
        } else if flags & BIT_TARGET_NEXT != 0 {
            i64::MIN
        } else {
            read_vlong_rev(bytes, &mut pos) as i64
        };
        let is_last = flags & BIT_LAST_ARC != 0;
        arcs.push(ReadArc {
            label,
            flags,
            output,
            final_output,
            is_final: flags & BIT_FINAL_ARC != 0,
            is_last,
            target,
        });
        if is_last {
            break;
        }
    }
    for arc in &mut arcs {
        if arc.target == i64::MIN {
            arc.target = pos;
        }
    }
    (arcs, pos)
}

fn lookup(fst: &Fst, input: &[u8]) -> Option<Vec<u8>> {
    if input.is_empty() {
        return fst.empty_output().map(|o| o.to_vec());
    }
    let mut out = Vec::new();
    let mut node = fst.start_node() as i64;
    for (i, &b) in input.iter().enumerate() {
        if node <= 0 {
            return None;
        }
        let (arcs, _) = read_node(fst.bytes(), node as u64);
        let arc = arcs.iter().find(|a| a.label == b)?;
        if let Some(o) = &arc.output {
            out.extend_from_slice(o);
        }
        if i == input.len() - 1 {
            if !arc.is_final {
                return None;
            }
            if let Some(fo) = &arc.final_output {
                out.extend_from_slice(fo);
            }
            return Some(out);
        }
        if arc.target <= 0 {
            return None;
        }
        node = arc.target;
    }
    unreachable!()
}

fn check_structure(fst: &Fst) {
    assert_eq!(fst.bytes()[0], 0, "byte 0 is the padding byte");
    assert_eq!(fst.num_bytes(), fst.bytes().len() as u64);
    if fst.start_node() == 0 {
        return;
    }
    assert_eq!(fst.start_node(), fst.bytes().len() as u64 - 1);
    let mut stack = vec![fst.start_node()];
    let mut seen = std::collections::BTreeSet::new();
    while let Some(addr) = stack.pop() {
        if !seen.insert(addr) {
            continue;
        }
        let (arcs, prev_pos) = read_node(fst.bytes(), addr);
        assert!(
            arcs.last().unwrap().is_last,
            "last arc must have BIT_LAST_ARC"
        );
        assert!(arcs[..arcs.len() - 1].iter().all(|a| !a.is_last));
        for w in arcs.windows(2) {
            assert!(w[0].label < w[1].label, "arc labels ascending");
        }
        for arc in &arcs {
            if arc.flags & BIT_TARGET_NEXT != 0 {
                assert!(arc.target > 0);
                assert_eq!(arc.target, prev_pos);
            } else if arc.target > 0 {
                assert_ne!(
                    arc.target, prev_pos,
                    "BIT_TARGET_NEXT required when target == last frozen node"
                );
            }
            if arc.target > 0 {
                stack.push(arc.target as u64);
            }
        }
    }
}

fn check_round_trip(entries: &[(&[u8], Option<&[u8]>)]) -> Fst {
    let mut compiler = FstCompiler::new();
    for (input, output) in entries {
        compiler.add(input, *output);
    }
    let fst = compiler.finish();
    check_structure(&fst);
    for (input, output) in entries {
        let expected = output.unwrap_or(&[]).to_vec();
        assert_eq!(
            lookup(&fst, input).as_deref(),
            Some(expected.as_slice()),
            "lookup {:?}",
            String::from_utf8_lossy(input)
        );
    }
    fst
}

#[test]
fn round_trip_mixed() {
    let entries: &[(&[u8], Option<&[u8]>)] = &[
        (b"a", Some(b"\x01")),
        (b"ab", Some(b"\x02\x03")),
        (b"abc", Some(b"\x02")),
        (b"b", Some(b"\x05")),
        (b"ca", None),
        (b"cabd", Some(b"\x09\x09\x09")),
    ];
    let fst = check_round_trip(entries);
    assert_eq!(lookup(&fst, b""), None);
    assert_eq!(lookup(&fst, b"ac"), None);
    assert_eq!(lookup(&fst, b"abb"), None);
    assert_eq!(lookup(&fst, b"bX"), None);
    assert_eq!(lookup(&fst, b"d"), None);
    assert_eq!(fst.empty_output(), None);
}

#[test]
fn final_arc_mid_node() {
    let entries: &[(&[u8], Option<&[u8]>)] = &[
        (b"ab", Some(b"W")),
        (b"abc", Some(b"XYZ")),
        (b"abd", Some(b"XY")),
    ];
    check_round_trip(entries);
}

#[test]
fn fsa_mode_no_outputs() {
    let entries: &[(&[u8], Option<&[u8]>)] = &[
        (b"cat", None),
        (b"cats", None),
        (b"dog", None),
        (b"dogs", None),
    ];
    let fst = check_round_trip(entries);
    assert_eq!(lookup(&fst, b"cat"), Some(vec![]));
    assert_eq!(lookup(&fst, b"ca"), None);
    assert_eq!(lookup(&fst, b"do"), None);
}

#[test]
fn single_input() {
    let fst = check_round_trip(&[(b"hello", Some(b"world"))]);
    assert_eq!(lookup(&fst, b"hell"), None);
    assert_eq!(lookup(&fst, b"helloo"), None);
}

#[test]
fn empty_string_first() {
    let entries: &[(&[u8], Option<&[u8]>)] =
        &[(b"", Some(b"rc")), (b"a", Some(b"1")), (b"ab", Some(b"2"))];
    let fst = check_round_trip(entries);
    assert_eq!(fst.empty_output(), Some(&b"rc"[..]));
    assert_eq!(lookup(&fst, b""), Some(b"rc".to_vec()));
}

#[test]
fn only_empty_input_no_output() {
    let mut compiler = FstCompiler::new();
    compiler.add(b"", None);
    let fst = compiler.finish();
    assert_eq!(fst.start_node(), 0);
    assert_eq!(fst.bytes(), &[0u8]);
    assert_eq!(fst.num_bytes(), 1);
    assert_eq!(fst.empty_output(), Some(&[][..]));
    assert_eq!(lookup(&fst, b""), Some(vec![]));
    assert_eq!(lookup(&fst, b"a"), None);
}

#[test]
fn exact_byte_layout() {
    let fst = check_round_trip(&[(b"ab", Some(b"X")), (b"ac", Some(b"Y"))]);
    let expected: &[u8] = &[
        0x00,
        0x59, 0x01, 0x63, 0x1B, // 'c': FINAL|LAST|STOP|HAS_OUTPUT, output len 1 "Y"
        0x58, 0x01, 0x62, 0x19, // 'b': FINAL|STOP|HAS_OUTPUT, output len 1 "X"
        0x61, 0x06,
    ];
    assert_eq!(fst.bytes(), expected);
    assert_eq!(fst.start_node(), 10);
    assert_eq!(fst.num_bytes(), 11);
}

#[test]
fn target_next_flag_placement() {
    let fst = check_round_trip(&[(b"ab", Some(b"X")), (b"ac", Some(b"Y"))]);
    let (root_arcs, _) = read_node(fst.bytes(), fst.start_node());
    assert_eq!(root_arcs.len(), 1);
    assert_ne!(root_arcs[0].flags & BIT_TARGET_NEXT, 0);
    assert_eq!(root_arcs[0].flags & BIT_STOP_NODE, 0);
    let (child_arcs, _) = read_node(fst.bytes(), root_arcs[0].target as u64);
    assert_eq!(child_arcs.len(), 2);
    for arc in &child_arcs {
        assert_eq!(arc.flags & BIT_TARGET_NEXT, 0);
        assert_ne!(arc.flags & BIT_STOP_NODE, 0);
    }
}

#[test]
fn generated_round_trip() {
    let mut state = 0x243F6A8885A308D3u64;
    let mut rand = move || {
        state ^= state << 13;
        state ^= state >> 7;
        state ^= state << 17;
        state
    };
    let mut entries: Vec<(Vec<u8>, Option<Vec<u8>>)> = Vec::new();
    for _ in 0..2000 {
        let len = 1 + (rand() % 12) as usize;
        let input: Vec<u8> = (0..len).map(|_| b'a' + (rand() % 6) as u8).collect();
        let olen = (rand() % 9) as usize;
        let output = if olen == 0 {
            None
        } else {
            Some((0..olen).map(|_| (rand() % 256) as u8).collect::<Vec<u8>>())
        };
        entries.push((input, output));
    }
    entries.sort_by(|a, b| a.0.cmp(&b.0));
    entries.dedup_by(|a, b| a.0 == b.0);

    let mut compiler = FstCompiler::new();
    for (input, output) in &entries {
        compiler.add(input, output.as_deref());
    }
    let fst = compiler.finish();
    check_structure(&fst);
    assert!(fst.num_bytes() > 127, "exercises multi-byte VLong targets");
    for (input, output) in &entries {
        let expected = output.clone().unwrap_or_default();
        assert_eq!(lookup(&fst, input).as_deref(), Some(expected.as_slice()));
    }
    assert_eq!(lookup(&fst, b"z"), None);
    assert_eq!(lookup(&fst, &[b'a'; 13]), None);
}

#[test]
fn metadata_layout_with_empty_output() {
    let mut compiler = FstCompiler::new();
    compiler.add(b"", Some(b"xy"));
    let fst = compiler.finish();
    assert_eq!(fst.start_node(), 0);
    assert_eq!(fst.bytes(), &[0u8]);

    let mut out = ChecksumIndexOutput::new(IndexOutput::in_memory());
    fst.write_metadata(&mut out).unwrap();
    let bytes = out.into_bytes();

    let mut expected = vec![0x3f, 0xd7, 0x6c, 0x17];
    expected.push(3); // "FST" string length
    expected.extend_from_slice(b"FST");
    expected.extend_from_slice(&[0, 0, 0, 9]);
    expected.push(1);
    expected.push(3);
    expected.extend_from_slice(&[b'y', b'x', 0x02]);
    expected.push(0);
    expected.push(0);
    expected.push(1);
    assert_eq!(bytes, expected);
}

#[test]
fn metadata_layout_without_empty_output() {
    let fst = check_round_trip(&[(b"ab", Some(b"X")), (b"ac", Some(b"Y"))]);
    let mut out = ChecksumIndexOutput::new(IndexOutput::in_memory());
    fst.write_metadata(&mut out).unwrap();
    let bytes = out.into_bytes();

    let mut expected = vec![0x3f, 0xd7, 0x6c, 0x17];
    expected.push(3);
    expected.extend_from_slice(b"FST");
    expected.extend_from_slice(&[0, 0, 0, 9]);
    expected.push(0);
    expected.push(0);
    expected.push(10);
    expected.push(11);
    assert_eq!(bytes, expected);
}

fn fst_reader(entries: &[(&[u8], Option<&[u8]>)]) -> (FstReader, Vec<u8>) {
    let mut compiler = FstCompiler::new();
    for (input, output) in entries {
        compiler.add(input, *output);
    }
    let fst = compiler.finish();
    let mut out = ChecksumIndexOutput::new(IndexOutput::in_memory());
    fst.write_metadata(&mut out).unwrap();
    let meta_bytes = out.into_bytes();
    let metadata = FstMetadata::read(&mut IndexInput::in_memory(meta_bytes)).unwrap();
    assert_eq!(metadata.start_node, fst.start_node());
    assert_eq!(metadata.num_bytes, fst.num_bytes());
    (
        FstReader::new(fst.bytes().to_vec(), &metadata),
        fst.bytes().to_vec(),
    )
}

#[test]
fn reader_lookup_round_trip() {
    let entries: &[(&[u8], Option<&[u8]>)] = &[
        (b"a", Some(b"\x01")),
        (b"ab", Some(b"\x02\x03")),
        (b"abc", Some(b"\x02")),
        (b"b", Some(b"\x05")),
        (b"ca", None),
        (b"cabd", Some(b"\x09\x09\x09")),
    ];
    let (reader, _) = fst_reader(entries);
    for (input, output) in entries {
        assert_eq!(
            reader.lookup(input).unwrap().as_deref(),
            Some(output.unwrap_or(&[])),
            "lookup {:?}",
            String::from_utf8_lossy(input)
        );
    }
    assert_eq!(reader.lookup(b"").unwrap(), None);
    assert_eq!(reader.lookup(b"ac").unwrap(), None);
    assert_eq!(reader.lookup(b"abb").unwrap(), None);
    assert_eq!(reader.lookup(b"d").unwrap(), None);
}

#[test]
fn reader_metadata_empty_output() {
    let (reader, bytes) = fst_reader(&[(b"", Some(b"xy"))]);
    assert_eq!(bytes, vec![0u8]);
    assert_eq!(reader.empty_output(), Some(&b"xy"[..]));
    assert_eq!(reader.lookup(b"").unwrap(), Some(b"xy".to_vec()));
    assert_eq!(reader.lookup(b"a").unwrap(), None);
}

#[test]
fn reader_trace_path() {
    let entries: &[(&[u8], Option<&[u8]>)] = &[
        (b"", Some(b"R")),
        (b"ab", Some(b"X")),
        (b"abc", Some(b"Y")),
        (b"b", Some(b"Z")),
    ];
    let (reader, _) = fst_reader(entries);
    assert_eq!(
        reader.trace_path(b"abc").unwrap(),
        vec![(2usize, b"X".to_vec()), (3usize, b"Y".to_vec())]
    );
    assert_eq!(
        reader.trace_path(b"abd").unwrap(),
        vec![(2usize, b"X".to_vec())]
    );
    assert_eq!(
        reader.trace_path(b"c").unwrap(),
        Vec::<(usize, Vec<u8>)>::new()
    );
}

#[test]
fn reader_generated_round_trip() {
    let mut state = 0x243F6A8885A308D3u64;
    let mut rand = move || {
        state ^= state << 13;
        state ^= state >> 7;
        state ^= state << 17;
        state
    };
    let mut entries: Vec<(Vec<u8>, Option<Vec<u8>>)> = Vec::new();
    for _ in 0..2000 {
        let len = 1 + (rand() % 12) as usize;
        let input: Vec<u8> = (0..len).map(|_| b'a' + (rand() % 6) as u8).collect();
        let olen = (rand() % 9) as usize;
        let output = if olen == 0 {
            None
        } else {
            Some((0..olen).map(|_| (rand() % 256) as u8).collect::<Vec<u8>>())
        };
        entries.push((input, output));
    }
    entries.sort_by(|a, b| a.0.cmp(&b.0));
    entries.dedup_by(|a, b| a.0 == b.0);
    let refs: Vec<(&[u8], Option<&[u8]>)> = entries
        .iter()
        .map(|(i, o)| (i.as_slice(), o.as_deref()))
        .collect();
    let (reader, _) = fst_reader(&refs);
    for (input, output) in &entries {
        assert_eq!(
            reader.lookup(input).unwrap().as_deref(),
            Some(output.clone().unwrap_or_default().as_slice())
        );
    }
    assert_eq!(reader.lookup(b"z").unwrap(), None);
}
