//! The documents, frequencies and positions of a term: packed blocks of 128
//! with skip data on two levels, and a variable-length tail.

use crate::bytes::{lemma_concat_assoc, lemma_varint_len_max, short_bytes, varint_bytes, vint_of, vlong_of};
use crate::error::Error;
use crate::io::{ChecksumIndexOutput, DataOutput, IndexOutput};
use crate::num::{spec_to_i64, spec_wrap_sub, to_i64, wrap_add, wrap_sub, zigzag};
use crate::postings_ll::{for_delta_bytes, for_delta_util_encode, group_vints_bytes, patch_width, pfor_bytes, pfor_util_encode, seq_max, vlong15_bytes, write_group_vints, write_vint15, write_vlong15};
use vstd::arithmetic::power2::lemma2_to64;
use vstd::prelude::*;

verus! {

// ---------------------------------------------------------------------------
// Impacts
// ---------------------------------------------------------------------------

/// One pair of frequency and norm behind another.
pub open spec fn impact_bytes(prev: (u32, u64), cur: (u32, u64)) -> Seq<u8> {
    let freq_delta = cur.0 - prev.0 - 1;
    let norm_delta = spec_wrap_sub(spec_wrap_sub(cur.1, prev.1), 1);
    if norm_delta == 0 {
        vint_of(2 * freq_delta)
    } else {
        vint_of(2 * freq_delta + 1) + varint_bytes(zigzag(spec_to_i64(norm_delta) as int))
    }
}

/// The pairs, each behind the one before it.
pub open spec fn impacts_bytes(impacts: Seq<(u32, u64)>) -> Seq<u8>
    decreases impacts.len(),
{
    if impacts.len() == 0 {
        Seq::empty()
    } else {
        let rest = impacts.drop_last();
        impacts_bytes(rest) + impact_bytes(if rest.len() > 0 { rest.last() } else { (0u32, 0u64) }, impacts.last())
    }
}

/// Frequencies that start above 0 and increase.
pub open spec fn valid_impacts(impacts: Seq<(u32, u64)>) -> bool {
    &&& forall|i: int| 0 <= i < impacts.len() ==> (#[trigger] impacts[i]).0 > 0
    &&& forall|i: int, j: int| 0 <= i < j < impacts.len() ==> (#[trigger] impacts[i]).0 < (#[trigger] impacts[j]).0
}

/// Writes pairs of frequency and norm, frequencies strictly increasing.
pub fn write_impacts(out: &mut IndexOutput, impacts: &[(u32, u64)]) -> (r: Result<(), Error>)
    requires
        valid_impacts(impacts@),
    ensures
        r is Ok,
        final(out).written() == old(out).written() + impacts_bytes(impacts@),
{
    let ghost base = out.written();
    let ghost v = impacts@;
    let mut prev_freq: u32 = 0;
    let mut prev_norm: u64 = 0;
    let mut i: usize = 0;
    assert(base + impacts_bytes(v.take(0)) =~= base);
    while i < impacts.len()
        invariant
            i <= impacts@.len(),
            v == impacts@,
            valid_impacts(v),
            i == 0 ==> prev_freq == 0 && prev_norm == 0,
            i > 0 ==> (prev_freq, prev_norm) == v[i - 1],
            out.written() == base + impacts_bytes(v.take(i as int)),
        decreases impacts@.len() - i,
    {
        let (freq, norm) = impacts[i];
        let ghost before = out.written();
        assert(v[i as int].0 > 0);
        let freq_delta: u64 = freq as u64 - prev_freq as u64 - 1;
        let norm_delta: u64 = wrap_sub(wrap_sub(norm, prev_norm), 1);
        if norm_delta == 0 {
            out.write_varint((2 * freq_delta) % 0x1_0000_0000)?;
        } else {
            out.write_varint((2 * freq_delta + 1) % 0x1_0000_0000)?;
            out.write_zlong(to_i64(norm_delta))?;
        }
        proof {
            let next = v.take(i + 1);
            assert(next.drop_last() =~= v.take(i as int));
            assert(out.written() =~= before + impact_bytes((prev_freq, prev_norm), (freq, norm)));
            assert(out.written() =~= base + impacts_bytes(next));
        }
        prev_freq = freq;
        prev_norm = norm;
        i = i + 1;
    }
    assert(v.take(i as int) =~= v);
    Ok(())
}

// ---------------------------------------------------------------------------
// Documents and frequencies
// ---------------------------------------------------------------------------

/// A term's documents and frequencies, where its positions begin, and, for
/// every full block, where the positions stand behind it: a place in the
/// file, and how many of the positions behind that place are used up.
pub struct TermDocs {
    pub docs: Seq<u32>,
    pub freqs: Seq<u32>,
    pub has_freqs: bool,
    pub has_positions: bool,
    pub pos_start: u64,
    pub pos_index: Seq<(u64, u8)>,
}

/// Documents ascend and stay below the largest int; frequencies, where they
/// count, are positive ints.
#[verifier::opaque]
pub open spec fn valid_term_docs(t: TermDocs) -> bool {
    &&& forall|i: int, j: int| 0 <= i < j < t.docs.len() ==> #[trigger] t.docs[i] < #[trigger] t.docs[j]
    &&& forall|i: int| 0 <= i < t.docs.len() ==> #[trigger] t.docs[i] < 0x7FFF_FFFF
    &&& t.has_freqs ==> t.freqs.len() == t.docs.len() && forall|i: int| 0 <= i < t.freqs.len() ==> 0 < #[trigger] t.freqs[i] <= 0x7FFF_FFFF
    &&& t.has_freqs && t.has_positions ==> t.pos_index.len() >= t.docs.len() / 128
}

/// What valid documents give for two of them.
pub proof fn lemma_doc_pair(t: TermDocs, i: int, j: int)
    requires
        valid_term_docs(t),
        0 <= i < j < t.docs.len(),
    ensures
        t.docs[i] < t.docs[j] < 0x7FFF_FFFF,
{
    reveal(valid_term_docs);
}

pub proof fn lemma_doc_bound(t: TermDocs, i: int)
    requires
        valid_term_docs(t),
        0 <= i < t.docs.len(),
    ensures
        t.docs[i] < 0x7FFF_FFFF,
{
    reveal(valid_term_docs);
}

pub proof fn lemma_valid_freqs(t: TermDocs)
    requires
        valid_term_docs(t),
        t.has_freqs,
    ensures
        t.freqs.len() == t.docs.len(),
        forall|i: int| 0 <= i < t.freqs.len() ==> 0 < #[trigger] t.freqs[i] <= 0x7FFF_FFFF,
        t.has_positions ==> t.pos_index.len() >= t.docs.len() / 128,
{
    reveal(valid_term_docs);
}

/// The document before the `n`-th, -1 before the first.
pub open spec fn doc_before(docs: Seq<u32>, n: int) -> int {
    if n <= 0 {
        -1
    } else {
        docs[n - 1] as int
    }
}

/// The distances of block `b`'s documents.
pub open spec fn block_deltas(docs: Seq<u32>, b: int) -> Seq<u64> {
    Seq::new(128, |i: int| (docs[128 * b + i] - doc_before(docs, 128 * b + i)) as u64)
}

/// The frequencies of block `b`.
pub open spec fn block_freqs(freqs: Seq<u32>, b: int) -> Seq<u64> {
    Seq::new(128, |i: int| freqs[128 * b + i] as u64)
}

/// The greatest frequency from `from` to before `to`.
pub open spec fn max_freq(freqs: Seq<u32>, from: int, to: int) -> u32
    decreases to - from,
{
    if to <= from {
        0
    } else {
        let m = max_freq(freqs, from, to - 1);
        if freqs[to - 1] > m {
            freqs[to - 1]
        } else {
            m
        }
    }
}

/// The impacts of the documents from `from` to before `to`: one pair, as
/// there are no norms.
pub open spec fn range_impacts(freqs: Seq<u32>, from: int, to: int) -> Seq<u8> {
    impacts_bytes(seq![(max_freq(freqs, from, to), 1u64)])
}

/// Where the positions stand before block `b`.
pub open spec fn pos_before(t: TermDocs, b: int) -> u64 {
    if b <= 0 {
        t.pos_start
    } else {
        t.pos_index[b - 1].0
    }
}

/// How far the positions move from before block `from` to behind block `b`.
pub open spec fn pos_skip(t: TermDocs, from: int, b: int) -> Seq<u8> {
    vlong_of(t.pos_index[b].0 - pos_before(t, from)) + seq![t.pos_index[b].1]
}

/// What a full block says of itself besides where it ends.
#[verifier::opaque]
pub open spec fn block_skip(t: TermDocs, b: int) -> Seq<u8> {
    if t.has_freqs {
        let impacts = range_impacts(t.freqs, 128 * b, 128 * b + 128);
        vlong_of(impacts.len() as int) + impacts + if t.has_positions {
            pos_skip(t, b, b)
        } else {
            Seq::empty()
        }
    } else {
        Seq::empty()
    }
}

/// The packed documents and frequencies of a full block.
#[verifier::opaque]
pub open spec fn block_packed(t: TermDocs, b: int) -> Seq<u8> {
    for_delta_bytes(block_deltas(t.docs, b)) + if t.has_freqs {
        pfor_bytes(block_freqs(t.freqs, b))
    } else {
        Seq::empty()
    }
}

/// How many documents a full block goes on, and how many bytes.
#[verifier::opaque]
pub open spec fn block_head(t: TermDocs, b: int) -> Seq<u8> {
    vlong15_bytes((doc_before(t.docs, 128 * b + 128) - doc_before(t.docs, 128 * b)) as nat) + vlong15_bytes((block_skip(t, b) + block_packed(t, b)).len())
}

/// A full block.
#[verifier::opaque]
pub open spec fn block_bytes(t: TermDocs, b: int) -> Seq<u8> {
    vlong_of((block_skip(t, b).len() + block_head(t, b).len()) as int) + block_head(t, b) + (block_skip(t, b) + block_packed(t, b))
}

/// The full blocks from `from` to before `to`.
pub open spec fn blocks_bytes(t: TermDocs, from: int, to: int) -> Seq<u8>
    decreases to - from,
{
    if to <= from {
        Seq::empty()
    } else {
        blocks_bytes(t, from, to - 1) + block_bytes(t, to - 1)
    }
}

/// A group's impacts, and how far its positions go.
pub open spec fn group_skip(t: TermDocs, g: int) -> Seq<u8> {
    range_impacts(t.freqs, 4096 * g, 4096 * g + 4096) + if t.has_positions {
        pos_skip(t, 32 * g, 32 * g + 31)
    } else {
        Seq::empty()
    }
}

/// What stands before a group of 32 blocks: how many documents it goes on,
/// how many bytes, and, with frequencies, its impacts.
#[verifier::opaque]
pub open spec fn group_head(t: TermDocs, g: int) -> Seq<u8> {
    let blocks = blocks_bytes(t, 32 * g, 32 * g + 32).len();
    vint_of(doc_before(t.docs, 4096 * g + 4096) - doc_before(t.docs, 4096 * g)) + if t.has_freqs {
        let skip = group_skip(t, g);
        vlong_of((4 + skip.len() + blocks) as int) + short_bytes((skip.len() + 2) as i16) + short_bytes(range_impacts(t.freqs, 4096 * g, 4096 * g + 4096).len() as i16) + skip
    } else {
        vlong_of(blocks as int)
    }
}

/// The first `n` groups.
pub open spec fn groups_bytes(t: TermDocs, n: int) -> Seq<u8>
    decreases n,
{
    if n <= 0 {
        Seq::empty()
    } else {
        groups_bytes(t, n - 1) + (group_head(t, n - 1) + blocks_bytes(t, 32 * (n - 1), 32 * (n - 1) + 32))
    }
}

/// The number that stands for document `i` of the tail: its distance, and,
/// with frequencies, whether its frequency is one.
pub open spec fn tail_value(t: TermDocs, i: int) -> u32 {
    let delta = t.docs[i] - doc_before(t.docs, i);
    if t.has_freqs {
        (2 * delta + if t.freqs[i] == 1 { 1int } else { 0 }) as u32
    } else {
        delta as u32
    }
}

/// The frequencies from `from` to before `to` that are not one.
pub open spec fn other_freqs(freqs: Seq<u32>, from: int, to: int) -> Seq<u8>
    decreases to - from,
{
    if to <= from {
        Seq::empty()
    } else {
        other_freqs(freqs, from, to - 1) + if freqs[to - 1] != 1 {
            varint_bytes(freqs[to - 1] as nat)
        } else {
            Seq::empty()
        }
    }
}

/// The documents behind the last full block.
#[verifier::opaque]
pub open spec fn tail_bytes(t: TermDocs) -> Seq<u8> {
    let n = t.docs.len();
    let from = 128 * (n / 128);
    group_vints_bytes(Seq::new((n - from) as nat, |i: int| tail_value(t, from + i))) + if t.has_freqs {
        other_freqs(t.freqs, from as int, n as int)
    } else {
        Seq::empty()
    }
}

/// The documents and frequencies of a term: the full groups, the full blocks
/// behind them, the tail.
pub open spec fn doc_bytes(t: TermDocs) -> Seq<u8> {
    let blocks = t.docs.len() as int / 128;
    groups_bytes(t, blocks / 32) + blocks_bytes(t, 32 * (blocks / 32), blocks) + tail_bytes(t)
}

/// How many impacts, and how many bytes of them, the largest entry of each
/// skip level holds.
#[derive(Clone, Copy, Debug)]
pub struct ImpactStats {
    pub max_num_level0: i32,
    pub max_bytes_level0: i32,
    pub max_num_level1: i32,
    pub max_bytes_level1: i32,
}

pub open spec fn larger(a: i32, b: int) -> i32 {
    if b > a {
        b as i32
    } else {
        a
    }
}

/// Those of the first level after the first `n` blocks.
pub open spec fn stats_level0(s: (i32, i32), t: TermDocs, n: int) -> (i32, i32)
    decreases n,
{
    if n <= 0 || !t.has_freqs {
        s
    } else {
        let m = stats_level0(s, t, n - 1);
        (larger(m.0, 1), larger(m.1, range_impacts(t.freqs, 128 * (n - 1), 128 * (n - 1) + 128).len() as int))
    }
}

/// Those of the second level after the first `n` groups.
pub open spec fn stats_level1(s: (i32, i32), t: TermDocs, n: int) -> (i32, i32)
    decreases n,
{
    if n <= 0 || !t.has_freqs {
        s
    } else {
        let m = stats_level1(s, t, n - 1);
        (larger(m.0, 1), larger(m.1, range_impacts(t.freqs, 4096 * (n - 1), 4096 * (n - 1) + 4096).len() as int))
    }
}

/// Both levels after a term.
pub open spec fn stats_after(s: ImpactStats, t: TermDocs) -> ImpactStats {
    let blocks = t.docs.len() as int / 128;
    let a = stats_level0((s.max_num_level0, s.max_bytes_level0), t, blocks);
    let b = stats_level1((s.max_num_level1, s.max_bytes_level1), t, blocks / 32);
    ImpactStats { max_num_level0: a.0, max_bytes_level0: a.1, max_num_level1: b.0, max_bytes_level1: b.1 }
}

pub proof fn lemma_max_freq(freqs: Seq<u32>, from: int, to: int)
    requires
        0 <= from < to <= freqs.len(),
        forall|i: int| 0 <= i < freqs.len() ==> 0 < #[trigger] freqs[i] <= 0x7FFF_FFFF,
    ensures
        0 < max_freq(freqs, from, to) <= 0x7FFF_FFFF,
    decreases to - from,
{
    assert(0 < freqs[to - 1] <= 0x7FFF_FFFF);
    if from < to - 1 {
        lemma_max_freq(freqs, from, to - 1);
    } else {
        assert(max_freq(freqs, from, to - 1) == 0);
    }
}

/// The greatest frequency is not below any of them, and is one of them.
pub proof fn law_max_freq(freqs: Seq<u32>, from: int, to: int)
    requires
        0 <= from < to <= freqs.len(),
    ensures
        forall|i: int| from <= i < to ==> #[trigger] freqs[i] <= max_freq(freqs, from, to),
        exists|i: int| from <= i < to && #[trigger] freqs[i] == max_freq(freqs, from, to),
    decreases to - from,
{
    if from < to - 1 {
        law_max_freq(freqs, from, to - 1);
        let j = choose|i: int| from <= i < to - 1 && #[trigger] freqs[i] == max_freq(freqs, from, to - 1);
        if freqs[to - 1] > freqs[j] {
            assert(freqs[to - 1] == max_freq(freqs, from, to));
        } else {
            assert(freqs[j] == max_freq(freqs, from, to));
        }
    } else {
        assert(max_freq(freqs, from, to - 1) == 0);
        assert(freqs[to - 1] == max_freq(freqs, from, to));
    }
}

/// One pair takes at most five bytes.
pub proof fn lemma_range_impacts(freqs: Seq<u32>, from: int, to: int)
    requires
        0 <= from < to <= freqs.len(),
        forall|i: int| 0 <= i < freqs.len() ==> 0 < #[trigger] freqs[i] <= 0x7FFF_FFFF,
    ensures
        range_impacts(freqs, from, to) == varint_bytes((2 * max_freq(freqs, from, to) - 2) as nat),
        1 <= range_impacts(freqs, from, to).len() <= 5,
{
    lemma_max_freq(freqs, from, to);
    let f = max_freq(freqs, from, to);
    let one = seq![(f, 1u64)];
    assert(one.drop_last() =~= Seq::empty());
    reveal_with_fuel(impacts_bytes, 2);
    assert(impacts_bytes(one) =~= impact_bytes((0, 0), (f, 1)));
    lemma2_to64();
    crate::bytes::lemma_varint_len((2 * f - 2) as nat);
    vstd::arithmetic::power2::lemma2_to64_rest();
    lemma_varint_len_max((2 * f - 2) as nat, 5);
}

/// Frequencies fit a patched block.
pub proof fn lemma_small_fits(values: Seq<u64>)
    requires
        forall|i: int| 0 <= i < values.len() ==> #[trigger] values[i] <= 0x7FFF_FFFF,
    ensures
        patch_width(values) <= 31,
{
    lemma2_to64();
    crate::postings_ll::lemma_seq_max(values);
    crate::postings_ll::lemma_patch_width_bound(values, 31);
}

/// The greatest frequency from `from` to before `to`.
fn find_max_freq(freqs: &[u32], from: usize, to: usize) -> (r: u32)
    requires
        from <= to <= freqs@.len(),
    ensures
        r == max_freq(freqs@, from as int, to as int),
        forall|i: int| from <= i < to ==> #[trigger] freqs@[i] <= r,
        from < to ==> exists|i: int| from <= i < to && #[trigger] freqs@[i] == r,
{
    let mut m: u32 = 0;
    let mut i: usize = from;
    while i < to
        invariant
            from <= i <= to <= freqs@.len(),
            m == max_freq(freqs@, from as int, i as int),
        decreases to - i,
    {
        if freqs[i] > m {
            m = freqs[i];
        }
        i = i + 1;
    }
    proof {
        if from < to {
            law_max_freq(freqs@, from as int, to as int);
        }
    }
    m
}

fn impacts_of(freqs: &[u32], from: usize, to: usize) -> (r: Result<Vec<u8>, Error>)
    requires
        from < to <= freqs@.len(),
        forall|i: int| 0 <= i < freqs@.len() ==> 0 < #[trigger] freqs@[i] <= 0x7FFF_FFFF,
    ensures
        r is Ok,
        r->Ok_0@ == range_impacts(freqs@, from as int, to as int),
        1 <= r->Ok_0@.len() <= 5,
{
    proof {
        lemma_max_freq(freqs@, from as int, to as int);
        lemma_range_impacts(freqs@, from as int, to as int);
    }
    let m: u32 = find_max_freq(freqs, from, to);
    let pair: [(u32, u64); 1] = [(m, 1)];
    let mut out = IndexOutput::in_memory();
    assert(pair@ =~= seq![(m, 1u64)]);
    write_impacts(&mut out, pair.as_slice())?;
    let bytes = out.into_bytes();
    assert(bytes@ =~= range_impacts(freqs@, from as int, to as int));
    Ok(bytes)
}

/// What is written of a term, as arguments.
pub struct DocInput<'a> {
    pub docs: &'a [u32],
    pub freqs: &'a [u32],
    pub has_freqs: bool,
    pub has_positions: bool,
    pub pos_start: u64,
    pub pos_index: &'a [(u64, u8)],
}

impl<'a> View for DocInput<'a> {
    type V = TermDocs;

    open spec fn view(&self) -> TermDocs {
        TermDocs { docs: self.docs@, freqs: self.freqs@, has_freqs: self.has_freqs, has_positions: self.has_positions, pos_start: self.pos_start, pos_index: self.pos_index@ }
    }
}

fn write_pos_skip(out: &mut IndexOutput, t: &DocInput, from: usize, b: usize) -> (r: Result<(), Error>)
    requires
        from <= b < t.pos_index@.len(),
    ensures
        r is Ok,
        final(out).written() == old(out).written() + pos_skip(t@, from as int, b as int),
{
    broadcast use lemma_concat_assoc;
    let prev: u64 = if from == 0 { t.pos_start } else { t.pos_index[from - 1].0 };
    let (fp, upto) = t.pos_index[b];
    out.write_varint(wrap_sub(fp, prev))?;
    out.write_byte(upto)?;
    Ok(())
}

fn larger_of(a: i32, b: usize) -> (r: i32)
    requires
        b <= 5,
    ensures
        r == larger(a, b as int),
{
    if b as i32 > a {
        b as i32
    } else {
        a
    }
}

/// The skip data of block `b`; gives the number of bytes of its impacts.
fn write_block_skip(out: &mut IndexOutput, t: &DocInput, b: usize, stats: &mut ImpactStats) -> (r: Result<(), Error>)
    requires
        valid_term_docs(t@),
        128 * b + 128 <= t.docs@.len(),
    ensures
        r is Ok,
        final(out).written() == old(out).written() + block_skip(t@, b as int),
        t.has_freqs ==> *final(stats) == (ImpactStats {
            max_num_level0: larger(old(stats).max_num_level0, 1),
            max_bytes_level0: larger(old(stats).max_bytes_level0, range_impacts(t.freqs@, 128 * b as int, 128 * b + 128).len() as int),
            ..*old(stats)
        }),
        !t.has_freqs ==> *final(stats) == *old(stats),
{
    reveal(block_skip);
    broadcast use lemma_concat_assoc;
    let ghost base = out.written();
    let _n: usize = t.docs.len();
    if t.has_freqs {
        proof {
            lemma_valid_freqs(t@);
        }
        let impacts = impacts_of(t.freqs, 128 * b, 128 * b + 128)?;
        stats.max_num_level0 = larger_of(stats.max_num_level0, 1);
        stats.max_bytes_level0 = larger_of(stats.max_bytes_level0, impacts.len());
        out.write_varint(impacts.len() as u64)?;
        out.write_bytes(&impacts)?;
        if t.has_positions {
            write_pos_skip(out, t, b, b)?;
        } else {
            assert(out.written() + Seq::<u8>::empty() =~= out.written());
        }
    } else {
        assert(base + Seq::<u8>::empty() =~= base);
    }
    Ok(())
}

pub proof fn lemma_deltas(t: TermDocs, b: int)
    requires
        0 <= b,
        128 * b + 128 <= t.docs.len(),
        valid_term_docs(t),
    ensures
        0 < seq_max(block_deltas(t.docs, b)) <= 0x7FFF_FFFF,
        forall|i: int| 0 <= i < 128 ==> 0 < #[trigger] block_deltas(t.docs, b)[i] <= 0x7FFF_FFFF,
{
    let d = block_deltas(t.docs, b);
    crate::postings_ll::lemma_seq_max(d);
    assert forall|i: int| 0 <= i < 128 implies 0 < #[trigger] d[i] <= 0x7FFF_FFFF by {
        lemma_doc_bound(t, 128 * b + i);
        if 128 * b + i > 0 {
            lemma_doc_pair(t, 128 * b + i - 1, 128 * b + i);
        }
    }
    assert(d[0] > 0);
}

/// The packed documents and frequencies of block `b`.
fn write_block_packed(out: &mut IndexOutput, t: &DocInput, b: usize) -> (r: Result<(), Error>)
    requires
        valid_term_docs(t@),
        128 * b + 128 <= t.docs@.len(),
    ensures
        r is Ok,
        final(out).written() == old(out).written() + block_packed(t@, b as int),
{
    reveal(block_packed);
    let ghost base = out.written();
    let ghost docs = t.docs@;
    let _n: usize = t.docs.len();
    let start: usize = 128 * b;
    let mut deltas: [u64; 128] = [0u64; 128];
    let mut i: usize = 0;
    while i < 128
        invariant
            i <= 128,
            start == 128 * b,
            start + 128 <= t.docs@.len(),
            docs == t.docs@,
            valid_term_docs(t@),
            forall|k: int| 0 <= k < i ==> #[trigger] deltas@[k] == block_deltas(docs, b as int)[k],
        decreases 128 - i,
    {
        let d: u32 = t.docs[start + i];
        let _n: usize = t.docs.len();
        proof {
            lemma_doc_bound(t@, start + i);
        }
        if start + i == 0 {
            deltas[i] = d as u64 + 1;
        } else {
            let prev: u32 = t.docs[start + i - 1];
            proof {
                lemma_doc_pair(t@, start + i - 1, start + i);
            }
            deltas[i] = (d - prev) as u64;
        }
        i = i + 1;
    }
    assert(deltas@ =~= block_deltas(docs, b as int));
    proof {
        lemma_deltas(t@, b as int);
    }
    for_delta_util_encode(out, &deltas)?;
    if t.has_freqs {
        proof {
            lemma_valid_freqs(t@);
        }
        let mut freqs: [u64; 128] = [0u64; 128];
        let mut i: usize = 0;
        while i < 128
            invariant
                i <= 128,
                start == 128 * b,
                start + 128 <= t.freqs.len(),
                forall|k: int| 0 <= k < i ==> #[trigger] freqs@[k] == t.freqs@[start + k],
            decreases 128 - i,
        {
            freqs[i] = t.freqs[start + i] as u64;
            i = i + 1;
        }
        assert(freqs@ =~= block_freqs(t.freqs@, b as int));
        proof {
            assert forall|k: int| 0 <= k < 128 implies #[trigger] freqs@[k] <= 0x7FFF_FFFF by {
                assert(t@.freqs[start + k] <= 0x7FFF_FFFF);
            }
            lemma_small_fits(freqs@);
        }
        pfor_util_encode(out, &freqs)?;
        assert(out.written() =~= base + block_packed(t@, b as int));
    } else {
        assert(out.written() =~= base + block_packed(t@, b as int));
    }
    Ok(())
}

/// How far the documents go from before `from` to the last before `to`.
fn doc_step(t: &DocInput, from: usize, to: usize) -> (r: u32)
    requires
        valid_term_docs(t@),
        from < to <= t.docs@.len(),
    ensures
        r == doc_before(t@.docs, to as int) - doc_before(t@.docs, from as int),
        0 < r <= 0x7FFF_FFFF,
{
    let last: u32 = t.docs[to - 1];
    proof {
        lemma_doc_bound(t@, to - 1);
    }
    if from == 0 {
        last + 1
    } else {
        proof {
            lemma_doc_pair(t@, from - 1, to - 1);
        }
        last - t.docs[from - 1]
    }
}

/// Writes the full block `b`.
fn write_full_block(out: &mut IndexOutput, t: &DocInput, b: usize, stats: &mut ImpactStats) -> (r: Result<(), Error>)
    requires
        valid_term_docs(t@),
        128 * b + 128 <= t.docs@.len(),
    ensures
        r is Ok,
        final(out).written() == old(out).written() + block_bytes(t@, b as int),
        t.has_freqs ==> *final(stats) == (ImpactStats {
            max_num_level0: larger(old(stats).max_num_level0, 1),
            max_bytes_level0: larger(old(stats).max_bytes_level0, range_impacts(t.freqs@, 128 * b as int, 128 * b + 128).len() as int),
            ..*old(stats)
        }),
        !t.has_freqs ==> *final(stats) == *old(stats),
{
    reveal(block_bytes);
    reveal(block_head);
    let ghost base = out.written();
    let _n: usize = t.docs.len();
    let mut body = IndexOutput::in_memory();
    write_block_skip(&mut body, t, b, stats)?;
    let skip_len: u64 = body.file_pointer();
    assert(body.written() =~= block_skip(t@, b as int));
    write_block_packed(&mut body, t, b)?;
    let step: u32 = doc_step(t, 128 * b, 128 * b + 128);
    let mut head = IndexOutput::in_memory();
    write_vint15(&mut head, step)?;
    write_vlong15(&mut head, body.file_pointer())?;
    assert(head.written() =~= block_head(t@, b as int));
    out.write_varint(wrap_add(skip_len, head.file_pointer()))?;
    out.write_bytes(&head.into_bytes())?;
    out.write_bytes(&body.into_bytes())?;
    proof {
        let first = vlong_of((block_skip(t@, b as int).len() + block_head(t@, b as int).len()) as int);
        lemma_concat_assoc(base, first, block_head(t@, b as int));
        lemma_concat_assoc(base, first + block_head(t@, b as int), block_skip(t@, b as int) + block_packed(t@, b as int));
    }
    Ok(())
}

/// The tail behind the last full block.
fn write_tail(out: &mut IndexOutput, t: &DocInput) -> (r: Result<(), Error>)
    requires
        valid_term_docs(t@),
    ensures
        r is Ok,
        final(out).written() == old(out).written() + tail_bytes(t@),
{
    reveal(tail_bytes);
    let ghost base = out.written();
    let n: usize = t.docs.len();
    let from: usize = n / 128 * 128;
    let ghost v = t@;
    let ghost want = Seq::new((n - from) as nat, |i: int| tail_value(v, from + i));
    let mut values: Vec<u32> = Vec::new();
    let mut i: usize = from;
    while i < n
        invariant
            from <= i <= n == t.docs@.len(),
            v == t@,
            valid_term_docs(v),
            want == Seq::new((n - from) as nat, |i: int| tail_value(v, from + i)),
            values@ == want.take(i - from),
        decreases n - i,
    {
        let delta: u32 = doc_step(t, i, i + 1);
        if t.has_freqs {
            proof {
                lemma_valid_freqs(t@);
            }
            let one: u32 = if t.freqs[i] == 1 { 1 } else { 0 };
            values.push(2 * delta + one);
        } else {
            values.push(delta);
        }
        assert(values@ =~= want.take(i + 1 - from));
        i = i + 1;
    }
    assert(want.take(n - from) =~= want);
    write_group_vints(out, values.as_slice())?;
    let ghost mid = out.written();
    if t.has_freqs {
        proof {
            lemma_valid_freqs(t@);
        }
        let mut i: usize = from;
        assert(mid + other_freqs(v.freqs, from as int, from as int) =~= mid);
        while i < n
            invariant
                from <= i <= n == t.freqs@.len(),
                v == t@,
                out.written() == mid + other_freqs(v.freqs, from as int, i as int),
            decreases n - i,
        {
            let ghost before = out.written();
            let f: u32 = t.freqs[i];
            if f != 1 {
                out.write_varint(f as u64)?;
            }
            assert(out.written() =~= mid + other_freqs(v.freqs, from as int, i + 1));
            i = i + 1;
        }
        assert(out.written() =~= base + tail_bytes(v));
    } else {
        assert(out.written() =~= base + tail_bytes(v));
    }
    Ok(())
}

/// A group's impacts, and how far its positions go; gives also the number of
/// bytes of the impacts.
fn group_skip_of(t: &DocInput, g: usize) -> (r: Result<(Vec<u8>, usize), Error>)
    requires
        valid_term_docs(t@),
        t.has_freqs,
        4096 * g + 4096 <= t.docs@.len(),
    ensures
        r is Ok,
        r->Ok_0.0@ == group_skip(t@, g as int),
        r->Ok_0.0@.len() <= 16,
        r->Ok_0.1 == range_impacts(t.freqs@, 4096 * g as int, 4096 * g + 4096).len() <= 5,
{
    proof {
        lemma_valid_freqs(t@);
    }
    let _n: usize = t.docs.len();
    let mut skip = IndexOutput::in_memory();
    let impacts = impacts_of(t.freqs, 4096 * g, 4096 * g + 4096)?;
    skip.write_bytes(&impacts)?;
    assert(skip.written() =~= impacts@);
    if t.has_positions {
        write_pos_skip(&mut skip, t, 32 * g, 32 * g + 31)?;
        proof {
            lemma_pos_skip_len(t@, 32 * g as int, 32 * g + 31);
        }
    } else {
        assert(skip.written() + Seq::<u8>::empty() =~= skip.written());
    }
    Ok((skip.into_bytes(), impacts.len()))
}

/// What stands before group `g`, whose blocks take `len` bytes.
fn write_group_head(out: &mut ChecksumIndexOutput, t: &DocInput, g: usize, len: u64, stats: &mut ImpactStats) -> (r: Result<(), Error>)
    requires
        valid_term_docs(t@),
        4096 * g + 4096 <= t.docs@.len(),
        len == blocks_bytes(t@, 32 * g as int, 32 * g + 32).len(),
    ensures
        final(out).since() == old(out).since(),
        r is Ok,
        final(out).written() == old(out).written() + group_head(t@, g as int),
        t.has_freqs ==> *final(stats) == (ImpactStats {
            max_num_level1: larger(old(stats).max_num_level1, 1),
            max_bytes_level1: larger(old(stats).max_bytes_level1, range_impacts(t.freqs@, 4096 * g as int, 4096 * g + 4096).len() as int),
            ..*old(stats)
        }),
        !t.has_freqs ==> *final(stats) == *old(stats),
{
    reveal(group_head);
    let ghost base = out.written();
    let _n: usize = t.docs.len();
    let step: u32 = doc_step(t, 4096 * g, 4096 * g + 4096);
    out.write_varint(step as u64)?;
    let ghost a = vint_of(step as int);
    if t.has_freqs {
        let (skip, impacts_len) = group_skip_of(t, g)?;
        stats.max_num_level1 = larger_of(stats.max_num_level1, 1);
        stats.max_bytes_level1 = larger_of(stats.max_bytes_level1, impacts_len);
        let skip_len: u64 = skip.len() as u64;
        out.write_varint(wrap_add(4 + skip_len, len))?;
        out.write_short((skip_len + 2) as i16)?;
        out.write_short(impacts_len as i16)?;
        out.write_bytes(&skip)?;
        proof {
            let b = vlong_of(4 + skip_len + len);
            let c = short_bytes((skip_len + 2) as i16);
            let d = short_bytes(impacts_len as i16);
            lemma_five(base, a, b, c, d, skip@);
        }
    } else {
        out.write_varint(len)?;
        proof {
            lemma_concat_assoc(base, a, vlong_of(len as int));
        }
    }
    Ok(())
}

proof fn lemma_five(base: Seq<u8>, a: Seq<u8>, b: Seq<u8>, c: Seq<u8>, d: Seq<u8>, e: Seq<u8>)
    ensures
        base + a + b + c + d + e == base + (a + (b + c + d + e)),
{
    broadcast use lemma_concat_assoc;
}

proof fn lemma_pos_skip_len(t: TermDocs, from: int, b: int)
    ensures
        2 <= pos_skip(t, from, b).len() <= 11,
{
    let x = ((t.pos_index[b].0 - pos_before(t, from)) % 0x1_0000_0000_0000_0000) as nat;
    lemma2_to64();
    vstd::arithmetic::power2::lemma2_to64_rest();
    vstd::arithmetic::power2::lemma_pow2_strictly_increases(64, 70);
    lemma_varint_len_max(x, 10);
    crate::bytes::lemma_varint_len(x);
}

/// Blocks come one behind the other, and groups every 32.
proof fn lemma_block_steps(t: TermDocs, b: int)
    requires
        0 <= b,
    ensures
        blocks_bytes(t, 32 * (b / 32), b + 1) == blocks_bytes(t, 32 * (b / 32), b) + block_bytes(t, b),
        (b + 1) % 32 == 0 ==> (b + 1) / 32 == b / 32 + 1 && 32 * (b / 32) + 32 == b + 1 && blocks_bytes(t, 32 * ((b + 1) / 32), b + 1) == Seq::<u8>::empty(),
        (b + 1) % 32 != 0 ==> (b + 1) / 32 == b / 32,
{
}

/// Writes the documents and frequencies of a term.
pub fn write_doc_postings(doc_out: &mut ChecksumIndexOutput, t: &DocInput, stats: &mut ImpactStats) -> (r: Result<(), Error>)
    requires
        valid_term_docs(t@),
    ensures
        final(doc_out).since() == old(doc_out).since(),
        r is Ok,
        final(doc_out).written() == old(doc_out).written() + doc_bytes(t@),
        *final(stats) == stats_after(*old(stats), t@),
{
    let ghost base = doc_out.written();
    let ghost v = t@;
    let ghost s0 = *stats;
    let n: usize = t.docs.len() / 128;
    let mut pending = IndexOutput::in_memory();
    let mut b: usize = 0;
    assert(base + groups_bytes(v, 0) =~= base);
    while b < n
        invariant
            doc_out.since() == old(doc_out).since(),
            b <= n == v.docs.len() / 128,
            128 * n <= v.docs.len(),
            v == t@,
            valid_term_docs(v),
            pending.written() == blocks_bytes(v, 32 * (b as int / 32), b as int),
            doc_out.written() == base + groups_bytes(v, b as int / 32),
            (stats.max_num_level0, stats.max_bytes_level0) == stats_level0((s0.max_num_level0, s0.max_bytes_level0), v, b as int),
            (stats.max_num_level1, stats.max_bytes_level1) == stats_level1((s0.max_num_level1, s0.max_bytes_level1), v, b as int / 32),
        decreases n - b,
    {
        write_full_block(&mut pending, t, b, stats)?;
        proof {
            lemma_block_steps(v, b as int);
        }
        b = b + 1;
        if b % 32 == 0 {
            let g: usize = b / 32 - 1;
            write_group_head(doc_out, t, g, pending.file_pointer(), stats)?;
            let drained = pending.into_bytes();
            pending = IndexOutput::in_memory();
            doc_out.write_bytes(&drained)?;
            proof {
                lemma_concat_assoc(base + groups_bytes(v, g as int), group_head(v, g as int), drained@);
                lemma_concat_assoc(base, groups_bytes(v, g as int), group_head(v, g as int) + drained@);
            }
        }
    }
    write_tail(&mut pending, t)?;
    doc_out.write_bytes(&pending.into_bytes())?;
    proof {
        let g = groups_bytes(v, n as int / 32);
        let w = blocks_bytes(v, 32 * (n as int / 32), n as int);
        lemma_concat_assoc(base, g, w);
        lemma_concat_assoc(base + g, w, tail_bytes(v));
        lemma_concat_assoc(base, g + w, tail_bytes(v));
    }
    Ok(())
}

// ---------------------------------------------------------------------------
// The largest impacts
// ---------------------------------------------------------------------------

/// After a term, what is known of the largest impacts covers those of each of
/// its blocks and groups, and what was known before; and it is not more than
/// needed.
pub proof fn law_stats_cover(s: ImpactStats, t: TermDocs)
    requires
        valid_term_docs(t),
        s.max_num_level0 >= 0 && s.max_bytes_level0 >= 0 && s.max_num_level1 >= 0 && s.max_bytes_level1 >= 0,
    ensures
        ({
            let u = stats_after(s, t);
            let blocks = t.docs.len() as int / 128;
            &&& t.has_freqs ==> covers(s.max_bytes_level0, u.max_bytes_level0, t.freqs, 128, blocks)
            &&& t.has_freqs ==> covers(s.max_bytes_level1, u.max_bytes_level1, t.freqs, 4096, t.docs.len() as int / 4096)
            &&& u.max_num_level0 == if t.has_freqs && blocks > 0 && s.max_num_level0 == 0 { 1 } else { s.max_num_level0 }
            &&& u.max_num_level1 == if t.has_freqs && blocks >= 32 && s.max_num_level1 == 0 { 1 } else { s.max_num_level1 }
            &&& !t.has_freqs ==> u == s
        }),
{
    let blocks = t.docs.len() as int / 128;
    assert(blocks / 32 == t.docs.len() as int / 4096);
    if t.has_freqs {
        lemma_valid_freqs(t);
        lemma_level0((s.max_num_level0, s.max_bytes_level0), t, blocks);
        lemma_level1((s.max_num_level1, s.max_bytes_level1), t, blocks / 32);
    }
}

/// `after` is the largest of `before` and the lengths of the impacts of the first
/// `n` runs of `size` documents.
pub open spec fn covers(before: i32, after: i32, freqs: Seq<u32>, size: int, n: int) -> bool {
    &&& before <= after
    &&& forall|b: int| 0 <= b < n ==> (#[trigger] range_impacts(freqs, size * b, size * b + size)).len() <= after
    &&& after == before || exists|b: int| 0 <= b < n && (#[trigger] range_impacts(freqs, size * b, size * b + size)).len() == after
}

proof fn lemma_covers_more(before: i32, m: i32, freqs: Seq<u32>, size: int, n: int)
    requires
        0 < n,
        0 <= before,
        covers(before, m, freqs, size, n - 1),
        range_impacts(freqs, size * (n - 1), size * (n - 1) + size).len() <= 5,
    ensures
        covers(before, larger(m, range_impacts(freqs, size * (n - 1), size * (n - 1) + size).len() as int), freqs, size, n),
{
    let x = range_impacts(freqs, size * (n - 1), size * (n - 1) + size).len() as int;
    let after = larger(m, x);
    assert forall|b: int| 0 <= b < n implies (#[trigger] range_impacts(freqs, size * b, size * b + size)).len() <= after by {
        if b < n - 1 {
            assert(range_impacts(freqs, size * b, size * b + size).len() <= m);
        }
    }
    if x > m {
        assert(range_impacts(freqs, size * (n - 1), size * (n - 1) + size).len() == after);
    } else if m != before {
        let b = choose|b: int| 0 <= b < n - 1 && (#[trigger] range_impacts(freqs, size * b, size * b + size)).len() == m;
        assert(range_impacts(freqs, size * b, size * b + size).len() == after);
    }
}

proof fn lemma_level0(s: (i32, i32), t: TermDocs, n: int)
    requires
        t.has_freqs,
        0 <= s.0,
        0 <= s.1,
        0 <= 128 * n <= t.freqs.len(),
        forall|i: int| 0 <= i < t.freqs.len() ==> 0 < #[trigger] t.freqs[i] <= 0x7FFF_FFFF,
    ensures
        covers(s.1, stats_level0(s, t, n).1, t.freqs, 128, n),
        stats_level0(s, t, n).0 == if n > 0 && s.0 == 0 { 1 } else { s.0 },
    decreases n,
{
    if n > 0 {
        lemma_level0(s, t, n - 1);
        lemma_range_impacts(t.freqs, 128 * (n - 1), 128 * (n - 1) + 128);
        lemma_covers_more(s.1, stats_level0(s, t, n - 1).1, t.freqs, 128, n);
    }
}

proof fn lemma_level1(s: (i32, i32), t: TermDocs, n: int)
    requires
        t.has_freqs,
        0 <= s.0,
        0 <= s.1,
        0 <= 4096 * n <= t.freqs.len(),
        forall|i: int| 0 <= i < t.freqs.len() ==> 0 < #[trigger] t.freqs[i] <= 0x7FFF_FFFF,
    ensures
        covers(s.1, stats_level1(s, t, n).1, t.freqs, 4096, n),
        stats_level1(s, t, n).0 == if n > 0 && s.0 == 0 { 1 } else { s.0 },
    decreases n,
{
    if n > 0 {
        lemma_level1(s, t, n - 1);
        lemma_range_impacts(t.freqs, 4096 * (n - 1), 4096 * (n - 1) + 4096);
        lemma_covers_more(s.1, stats_level1(s, t, n - 1).1, t.freqs, 4096, n);
    }
}

} // verus!
