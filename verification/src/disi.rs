//! Sets of documents on disk: blocks of 65536 documents each, stored as a
//! list, as a bit set or as nothing at all where every document is in the set,
//! then a sentinel block and a table of jumps.

use crate::bits::{bits_u64, get_bit, lemma_bit_or, lemma_bit_shl, lemma_bit_zero, lemma_bits_u64, lemma_bits_u64_bit};
use crate::bytes::{holds_at, int_at, int_bytes, law_int_round_trip, le_bytes, le_nat, le_u64, lemma_holds_concat, lemma_le_bytes_len, lemma_le_round_trip, lemma_pow2_widths, short_bytes};
use crate::codec_util::corrupt;
use crate::error::{Error, ErrorKind};
use crate::for_util::{lemma_longs_len, lemma_longs_round_trip, long_in, longs_at, longs_bytes};
use crate::io::{ChecksumIndexOutput, DataOutput};
use crate::num::{spec_to_i16, spec_to_i32, to_i16, to_i32, to_i64, to_u64};
use vstd::prelude::*;

verus! {

/// Documents per block.
pub const DISI_BLOCK_SIZE: u32 = 65536;

/// A block with at most this many documents is a list.
pub const DISI_MAX_ARRAY_LENGTH: u32 = 4095;

/// The id of the block behind the last one.
pub const DISI_SENTINEL_BLOCK: u32 = 0x7FFF;

/// The documents ascend strictly, and are documents.
pub open spec fn doc_set(docs: Seq<u32>) -> bool {
    &&& forall|i: int, j: int| 0 <= i < j < docs.len() ==> #[trigger] docs[i] < #[trigger] docs[j]
    &&& forall|i: int| 0 <= i < docs.len() ==> #[trigger] docs[i] < 0x7FFF_FFFF
}

/// The block of a document.
pub open spec fn block_of(doc: u32) -> int {
    doc as int / 65536
}

// ---------------------------------------------------------------------------
// One block
// ---------------------------------------------------------------------------

/// Whether the document `low` places into its block is among `docs`.
pub open spec fn has_low(docs: Seq<u32>, low: int) -> bool {
    exists|i: int| 0 <= i < docs.len() && #[trigger] docs[i] as int % 65536 == low
}

/// How many documents of a block lie before place `low` in it.
pub open spec fn count_below(docs: Seq<u32>, low: int) -> nat
    decreases docs.len(),
{
    if docs.len() == 0 {
        0
    } else {
        count_below(docs.drop_last(), low) + if docs.last() as int % 65536 < low { 1nat } else { 0 }
    }
}

/// The bit set of a block, 64 documents per long.
pub open spec fn block_words(docs: Seq<u32>) -> Seq<u64> {
    Seq::new(1024, |w: int| bits_u64(|p: int| has_low(docs, 64 * w + p)))
}

/// The ranks of a block: before every 512 documents, how many are in the set,
/// most significant byte first.
pub open spec fn block_ranks(docs: Seq<u32>) -> Seq<u8> {
    Seq::new(256, |i: int| if i % 2 == 0 {
        (count_below(docs, 512 * (i / 2)) / 256) as u8
    } else {
        (count_below(docs, 512 * (i / 2)) % 256) as u8
    })
}

/// The low halves of the documents, one short each.
pub open spec fn low_bytes(docs: Seq<u32>) -> Seq<u8>
    decreases docs.len(),
{
    if docs.len() == 0 {
        Seq::empty()
    } else {
        low_bytes(docs.drop_last()) + le_bytes((docs.last() as int % 65536) as nat, 2)
    }
}

/// A block: its id, the number of documents less one, and how they are stored.
pub open spec fn block_bytes(docs: Seq<u32>) -> Seq<u8> {
    le_bytes(block_of(docs.last()) as nat, 2) + le_bytes((docs.len() - 1) as nat, 2) + if docs.len() <= DISI_MAX_ARRAY_LENGTH {
        low_bytes(docs)
    } else if docs.len() < DISI_BLOCK_SIZE {
        block_ranks(docs) + longs_bytes(block_words(docs))
    } else {
        Seq::empty()
    }
}

// ---------------------------------------------------------------------------
// All blocks
// ---------------------------------------------------------------------------

/// Where the run of documents in the same block as document `i` begins.
pub open spec fn run_start(docs: Seq<u32>, i: int) -> int
    decreases i,
{
    if i > 0 && block_of(docs[i - 1]) == block_of(docs[i]) {
        run_start(docs, i - 1)
    } else {
        i
    }
}

proof fn lemma_run_start(docs: Seq<u32>, i: int)
    requires
        0 <= i < docs.len(),
    ensures
        0 <= run_start(docs, i) <= i,
        forall|j: int| run_start(docs, i) <= j <= i ==> block_of(#[trigger] docs[j]) == block_of(docs[i]),
        run_start(docs, i) > 0 ==> block_of(docs[run_start(docs, i) - 1]) != block_of(docs[i]),
    decreases i,
{
    if i > 0 && block_of(docs[i - 1]) == block_of(docs[i]) {
        lemma_run_start(docs, i - 1);
    }
}

/// All blocks, one after the other.
pub open spec fn blocks_bytes(docs: Seq<u32>) -> Seq<u8>
    decreases docs.len(),
    via blocks_bytes_shrinks
{
    if docs.len() == 0 {
        Seq::empty()
    } else {
        let k = run_start(docs, docs.len() - 1);
        blocks_bytes(docs.take(k)) + block_bytes(docs.skip(k))
    }
}

#[via_fn]
proof fn blocks_bytes_shrinks(docs: Seq<u32>) {
    if docs.len() > 0 {
        lemma_run_start(docs, docs.len() - 1);
    }
}

/// How many documents lie in blocks before block `b`.
pub open spec fn docs_before(docs: Seq<u32>, b: int) -> nat
    decreases docs.len(),
{
    if docs.len() == 0 {
        0
    } else if block_of(docs.last()) < b {
        docs.len()
    } else {
        docs_before(docs.drop_last(), b)
    }
}

/// The jump to block `b`: how many documents lie before it, and where it (or
/// the next block that is there) begins.
pub open spec fn jump_bytes(docs: Seq<u32>, b: int) -> Seq<u8> {
    let k = docs_before(docs, b);
    int_bytes(spec_to_i32((k % 0x1_0000_0000) as u32)) + int_bytes(spec_to_i32((blocks_bytes(docs.take(k as int)).len() % 0x1_0000_0000) as u32))
}

/// The jumps to the first `n` blocks.
pub open spec fn jumps_bytes(docs: Seq<u32>, n: int) -> Seq<u8>
    decreases n,
{
    if n <= 0 {
        Seq::empty()
    } else {
        jumps_bytes(docs, n - 1) + jump_bytes(docs, n - 1)
    }
}

/// The block behind the last one.
pub open spec fn sentinel_bytes() -> Seq<u8> {
    short_bytes(0x7FFF) + short_bytes(0) + short_bytes(-1i16)
}

/// The number of jumps: none where only the first block is there, else one for
/// each block up to the last and one for the sentinel.
pub open spec fn jump_count(docs: Seq<u32>) -> int {
    if block_of(docs.last()) == 0 {
        0
    } else {
        block_of(docs.last()) + 2
    }
}

/// A set of documents on disk.
pub open spec fn disi_bytes(docs: Seq<u32>) -> Seq<u8> {
    blocks_bytes(docs) + sentinel_bytes() + jumps_bytes(docs, jump_count(docs))
}

// ---------------------------------------------------------------------------
// Writing
// ---------------------------------------------------------------------------

proof fn lemma_count_below(docs: Seq<u32>, low: int)
    ensures
        count_below(docs, low) <= docs.len(),
    decreases docs.len(),
{
    if docs.len() > 0 {
        lemma_count_below(docs.drop_last(), low);
    }
}

/// In a block whose documents ascend, those below `low` come first.
proof fn lemma_count_below_ascending(docs: Seq<u32>, low: int, k: int)
    requires
        0 <= k <= docs.len(),
        forall|i: int| 0 <= i < k ==> (#[trigger] docs[i]) as int % 65536 < low,
        forall|i: int| k <= i < docs.len() ==> (#[trigger] docs[i]) as int % 65536 >= low,
    ensures
        count_below(docs, low) == k,
    decreases docs.len(),
{
    if docs.len() > 0 {
        let d = docs.drop_last();
        if k == docs.len() {
            lemma_count_below_ascending(d, low, k - 1);
        } else {
            lemma_count_below_ascending(d, low, k);
        }
    }
}

/// A block of documents: all in one block, ascending.
pub open spec fn one_block(docs: Seq<u32>) -> bool {
    &&& 1 <= docs.len() <= 65536
    &&& forall|i: int, j: int| 0 <= i < j < docs.len() ==> #[trigger] docs[i] < #[trigger] docs[j]
    &&& forall|i: int| 0 <= i < docs.len() ==> block_of(#[trigger] docs[i]) == block_of(docs.last())
}

/// Writes the low halves of the documents.
fn write_lows(data: &mut ChecksumIndexOutput, docs: &[u32])
    ensures
        final(data).since() == old(data).since(),
        final(data).written() == old(data).written() + low_bytes(docs@),
{
    let ghost base = data.written();
    let mut i: usize = 0;
    assert(docs@.take(0) =~= Seq::<u32>::empty());
    assert(base + Seq::<u8>::empty() =~= base);
    while i < docs.len()
        invariant
            data.since() == old(data).since(),
            i <= docs.len(),
            data.written() == base + low_bytes(docs@.take(i as int)),
        decreases docs.len() - i,
    {
        let b = crate::bytes::le_vec((docs[i] % 65536) as u64, 2);
        let _ = data.write_bytes(&b);
        proof {
            let next = docs@.take(i + 1);
            assert(next.drop_last() =~= docs@.take(i as int));
            assert(data.written() =~= base + low_bytes(next));
        }
        i = i + 1;
    }
    assert(docs@.take(i as int) =~= docs@);
}

/// The ranks of a block.
fn ranks_of(docs: &[u32]) -> (r: Vec<u8>)
    requires
        one_block(docs@),
        docs@.len() < 65536,
    ensures
        r@ == block_ranks(docs@),
{
    let n: usize = docs.len();
    let mut out: Vec<u8> = Vec::new();
    let mut k: usize = 0;
    let mut g: usize = 0;
    while g < 128
        invariant
            g <= 128,
            k <= n == docs@.len(),
            n < 65536,
            one_block(docs@),
            out@ == block_ranks(docs@).take(2 * g as int),
            forall|i: int| 0 <= i < k ==> (#[trigger] docs@[i]) as int % 65536 < 512 * g,
        decreases 128 - g,
    {
        while k < n && docs[k] % 65536 < 512 * g as u32
            invariant
                g < 128,
                k <= n == docs@.len(),
                forall|i: int| 0 <= i < k ==> (#[trigger] docs@[i]) as int % 65536 < 512 * g,
            decreases n - k,
        {
            k = k + 1;
        }
        proof {
            assert forall|i: int| k <= i < n implies (#[trigger] docs@[i]) as int % 65536 >= 512 * g by {
                assert(block_of(docs@[i]) == block_of(docs@.last()));
                assert(block_of(docs@[k as int]) == block_of(docs@.last()));
                if i > k {
                    assert(docs@[k as int] < docs@[i]);
                }
            }
            lemma_count_below_ascending(docs@, 512 * g, k as int);
        }
        let ghost before = out@;
        out.push((k / 256) as u8);
        out.push((k % 256) as u8);
        assert(out@ =~= block_ranks(docs@).take(2 * (g + 1)));
        g = g + 1;
    }
    assert(block_ranks(docs@).take(256) =~= block_ranks(docs@));
    out
}

/// The bit set of a block.
fn words_of(docs: &[u32]) -> (r: Vec<u64>)
    ensures
        r@ == block_words(docs@),
{
    let n: usize = docs.len();
    let mut out: Vec<u64> = Vec::new();
    let mut w: usize = 0;
    while w < 1024
        invariant
            w <= 1024,
            out@.len() == w,
            forall|i: int| 0 <= i < w ==> #[trigger] out@[i] == 0,
        decreases 1024 - w,
    {
        out.push(0);
        w = w + 1;
    }
    let ghost d = docs@;
    proof {
        assert forall|w: int, p: int| 0 <= w < 1024 && 0 <= p < 64 implies #[trigger] get_bit(out@[w], p) == has_low(d.take(0), 64 * w + p) by {
            lemma_bit_zero(p);
        }
    }
    let mut i: usize = 0;
    while i < n
        invariant
            i <= n == docs@.len(),
            d == docs@,
            out@.len() == 1024,
            forall|w: int, p: int| 0 <= w < 1024 && 0 <= p < 64 ==> #[trigger] get_bit(out@[w], p) == has_low(d.take(i as int), 64 * w + p),
        decreases n - i,
    {
        let low: u32 = docs[i] % 65536;
        let w: usize = (low / 64) as usize;
        let b: u64 = (low % 64) as u64;
        let ghost before = out@;
        out[w] = out[w] | (1u64 << b);
        proof {
            let next = d.take(i + 1);
            let prev = d.take(i as int);
            assert forall|v: int, p: int| 0 <= v < 1024 && 0 <= p < 64 implies #[trigger] get_bit(out@[v], p) == has_low(next, 64 * v + p) by {
                assert(get_bit(before[v], p) == has_low(prev, 64 * v + p));
                lemma_bit_or(before[w as int], 1u64 << b, p);
                lemma_bit_shl(1, b, p);
                if p >= b {
                    lemma_one_bit(p - b);
                }
                if has_low(prev, 64 * v + p) {
                    let k = choose|k: int| 0 <= k < prev.len() && #[trigger] prev[k] as int % 65536 == 64 * v + p;
                    assert(next[k] as int % 65536 == 64 * v + p);
                }
                if has_low(next, 64 * v + p) {
                    let k = choose|k: int| 0 <= k < next.len() && #[trigger] next[k] as int % 65536 == 64 * v + p;
                    if k < i {
                        assert(prev[k] as int % 65536 == 64 * v + p);
                    } else {
                        assert(v == w && p == b);
                    }
                }
                if v == w && p == b {
                    assert(next[i as int] as int % 65536 == 64 * v + p);
                }
            }
        }
        i = i + 1;
    }
    proof {
        assert(d.take(n as int) =~= d);
        assert forall|w: int| 0 <= w < 1024 implies out@[w] == block_words(d)[w] by {
            assert forall|p: int| 0 <= p < 64 implies get_bit(out@[w], p) == has_low(d, 64 * w + p) by {
            }
            lemma_bits_u64(out@[w], |p: int| has_low(d, 64 * w + p));
        }
        assert(out@ =~= block_words(d));
    }
    out
}

/// The bits of 1.
proof fn lemma_one_bit(p: int)
    requires
        0 <= p < 64,
    ensures
        get_bit(1, p) == (p == 0),
{
    let q = p as u64;
    assert((1u64 >> q) & 1 == (if q == 0 { 1u64 } else { 0u64 })) by (bit_vector)
        requires
            q < 64,
    ;
}

/// Writes one block.
fn flush_disi_block(data: &mut ChecksumIndexOutput, docs: &[u32])
    requires
        one_block(docs@),
    ensures
        final(data).since() == old(data).since(),
        final(data).written() == old(data).written() + block_bytes(docs@),
{
    let ghost base = data.written();
    let n: usize = docs.len();
    let block: u32 = docs[n - 1] / 65536;
    assert(docs@[n - 1] == docs@.last());
    let b = crate::bytes::le_vec(block as u64, 2);
    let _ = data.write_bytes(&b);
    let c = crate::bytes::le_vec(n as u64 - 1, 2);
    let _ = data.write_bytes(&c);
    let ghost head = data.written();
    if n <= DISI_MAX_ARRAY_LENGTH as usize {
        write_lows(data, docs);
        assert(data.written() =~= base + block_bytes(docs@));
    } else if n < DISI_BLOCK_SIZE as usize {
        let ranks = ranks_of(docs);
        let _ = data.write_bytes(&ranks);
        let words = words_of(docs);
        let ghost wv = words@;
        let ghost mid = data.written();
        let mut w: usize = 0;
        assert(wv.take(0) =~= Seq::<u64>::empty());
        assert(mid + Seq::<u8>::empty() =~= mid);
        while w < 1024
            invariant
                data.since() == old(data).since(),
                w <= 1024,
                wv == words@,
                wv.len() == 1024,
                data.written() == mid + longs_bytes(wv.take(w as int)),
            decreases 1024 - w,
        {
            let _ = data.write_long(to_i64(words[w]));
            proof {
                assert(to_u64(to_i64(words[w as int])) == words[w as int]);
                let next = wv.take(w + 1);
                assert(next.drop_last() =~= wv.take(w as int));
                assert(data.written() =~= mid + longs_bytes(next));
            }
            w = w + 1;
        }
        assert(wv.take(1024) =~= wv);
        assert(data.written() =~= base + block_bytes(docs@));
    } else {
        assert(data.written() =~= base + block_bytes(docs@));
    }
}

/// Counting up to a boundary between blocks.
proof fn lemma_docs_before(docs: Seq<u32>, b: int, k: int)
    requires
        0 <= k <= docs.len(),
        forall|i: int| 0 <= i < k ==> block_of(#[trigger] docs[i]) < b,
        forall|i: int| k <= i < docs.len() ==> block_of(#[trigger] docs[i]) >= b,
    ensures
        docs_before(docs, b) == k,
    decreases docs.len(),
{
    if docs.len() > 0 {
        if k < docs.len() {
            lemma_docs_before(docs.drop_last(), b, k);
        }
    }
}

proof fn lemma_low_bytes_len(docs: Seq<u32>)
    ensures
        low_bytes(docs).len() == 2 * docs.len(),
    decreases docs.len(),
{
    broadcast use lemma_le_bytes_len;
    if docs.len() > 0 {
        lemma_low_bytes_len(docs.drop_last());
    }
}

/// Writes a set of documents; gives the number of jumps.
pub fn write_indexed_disi(data: &mut ChecksumIndexOutput, docs: &[u32]) -> (r: Result<i16, Error>)
    requires
        docs@.len() > 0,
        doc_set(docs@),
    ensures
        final(data).since() == old(data).since(),
        r is Ok,
        final(data).written() == old(data).written() + disi_bytes(docs@),
        r->Ok_0 == spec_to_i16(jump_count(docs@) as u16),
{
    let ghost d = docs@;
    let ghost base = data.written();
    let origo: u64 = data.file_pointer();
    let n: usize = docs.len();
    let last: u32 = docs[n - 1] / 65536;
    // One entry per block up to the last and one for the sentinel: documents
    // before, and offset.
    let mut jumps: Vec<(u64, u64)> = Vec::new();
    let mut i: usize = 0;
    assert(d.take(0) =~= Seq::<u32>::empty());
    assert(base + Seq::<u8>::empty() =~= base);
    while i < n
        invariant
            data.since() == old(data).since(),
            i <= n == docs@.len(),
            n > 0,
            d == docs@,
            doc_set(d),
            base == old(data).written(),
            origo == base.len(),
            data.written() == base + blocks_bytes(d.take(i as int)),
            i > 0 ==> jumps@.len() == block_of(d[i - 1]) + 1,
            i == 0 ==> jumps@.len() == 0,
            i > 0 && i < n ==> block_of(d[i as int]) > block_of(d[i - 1]),
            forall|b: int| 0 <= b < jumps@.len() ==> #[trigger] jumps@[b].0 == docs_before(d, b) && jumps@[b].1 == blocks_bytes(d.take(docs_before(d, b) as int)).len(),
        decreases n - i,
    {
        let block: u32 = docs[i] / 65536;
        let offset: u64 = data.file_pointer() - origo;
        while jumps.len() <= block as usize
            invariant
                i < n == docs@.len(),
                d == docs@,
                doc_set(d),
                block == block_of(d[i as int]),
                offset == blocks_bytes(d.take(i as int)).len(),
                i > 0 ==> block_of(d[i as int]) > block_of(d[i - 1]),
                i > 0 ==> jumps@.len() > block_of(d[i - 1]),
                jumps@.len() <= block + 1,
                forall|b: int| 0 <= b < jumps@.len() ==> #[trigger] jumps@[b].0 == docs_before(d, b) && jumps@[b].1 == blocks_bytes(d.take(docs_before(d, b) as int)).len(),
            decreases block + 1 - jumps@.len(),
        {
            proof {
                let b = jumps@.len() as int;
                assert forall|j: int| 0 <= j < i implies block_of(#[trigger] d[j]) < b by {
                    if j < i - 1 {
                        assert(d[j] < d[i - 1]);
                    }
                }
                assert forall|j: int| i <= j < d.len() implies block_of(#[trigger] d[j]) >= b by {
                    if j > i {
                        assert(d[i as int] < d[j]);
                    }
                }
                lemma_docs_before(d, b, i as int);
            }
            jumps.push((i as u64, offset));
        }
        let mut j: usize = i + 1;
        while j < n && docs[j] / 65536 == block
            invariant
                i < j <= n == docs@.len(),
                d == docs@,
                block == block_of(d[i as int]),
                forall|k: int| i <= k < j ==> block_of(#[trigger] d[k]) == block,
            decreases n - j,
        {
            j = j + 1;
        }
        let part = &docs[i..j];
        let ghost before = data.written();
        proof {
            assert(part@ =~= d.subrange(i as int, j as int));
            assert(part@.last() == d[j - 1]);
            assert forall|a: int, b: int| 0 <= a < b < part@.len() implies #[trigger] part@[a] < #[trigger] part@[b] by {
                assert(d[i + a] < d[i + b]);
            }
            assert forall|a: int| 0 <= a < part@.len() implies block_of(#[trigger] part@[a]) == block_of(part@.last()) by {
                assert(block_of(d[i + a]) == block);
            }
            lemma_block_size(part@);
        }
        flush_disi_block(data, part);
        proof {
            let t = d.take(j as int);
            lemma_run_start(t, j - 1);
            let k = run_start(t, j - 1);
            if k < i {
                assert(block_of(t[i - 1]) == block_of(t[j - 1]));
                assert(t[i - 1] == d[i - 1]);
            }
            if k > i {
                assert(block_of(d[k - 1]) == block);
                assert(t[k - 1] == d[k - 1]);
            }
            assert(k == i);
            assert(t.take(i as int) =~= d.take(i as int));
            assert(t.skip(i as int) =~= part@);
            assert(data.written() =~= base + blocks_bytes(t));
            if j < n {
                assert(d[j - 1] < d[j as int]);
            }
        }
        i = j;
    }
    proof {
        assert(d.take(n as int) =~= d);
        let b = last + 1;
        assert(jumps@.len() == b);
        assert forall|j: int| 0 <= j < n implies block_of(#[trigger] d[j]) < b by {
            if j < n - 1 {
                assert(d[j] < d[n - 1]);
            }
        }
        lemma_docs_before(d, b as int, n as int);
    }
    let ghost so_far = jumps@;
    let end: u64 = data.file_pointer() - origo;
    jumps.push((n as u64, end));
    proof {
        let b = last as int + 1;
        assert(docs_before(d, b) == n);
        assert(end == blocks_bytes(d).len());
        assert(d.take(docs_before(d, b) as int) =~= d);
        assert forall|b: int| 0 <= b < jumps@.len() implies #[trigger] jumps@[b].0 == docs_before(d, b) && jumps@[b].1 == blocks_bytes(d.take(docs_before(d, b) as int)).len() by {
            if b < so_far.len() {
                assert(jumps@[b] == so_far[b]);
                assert(so_far[b].0 == docs_before(d, b));
            } else {
                assert(b == last + 1);
                assert(jumps@[b] == (n as u64, end));
                assert(jumps@[b].1 == blocks_bytes(d.take(docs_before(d, b) as int)).len());
            }
        }
    }
    data.write_short(0x7FFF)?;
    data.write_short(0)?;
    data.write_short(-1)?;
    let ghost mid = data.written();
    assert(mid =~= base + (blocks_bytes(d) + sentinel_bytes()));
    let count: usize = last as usize + 2;
    if count == 2 {
        assert(data.written() =~= base + disi_bytes(d));
        return Ok(0);
    }
    let mut b: usize = 0;
    assert(mid + Seq::<u8>::empty() =~= mid);
    while b < count
        invariant
            data.since() == old(data).since(),
            b <= count == jumps@.len(),
            data.written() == mid + jumps_bytes(d, b as int),
            forall|b: int| 0 <= b < jumps@.len() ==> #[trigger] jumps@[b].0 == docs_before(d, b) && jumps@[b].1 == blocks_bytes(d.take(docs_before(d, b) as int)).len(),
        decreases count - b,
    {
        let (index, offset) = jumps[b];
        assert(jumps@[b as int].0 == docs_before(d, b as int));
        data.write_int(to_i32((index % 0x1_0000_0000) as u32))?;
        data.write_int(to_i32((offset % 0x1_0000_0000) as u32))?;
        assert(data.written() =~= mid + jumps_bytes(d, b + 1));
        b = b + 1;
    }
    assert(data.written() =~= base + disi_bytes(d));
    Ok(to_i16(count as u16))
}

/// A block has at most 65536 documents.
proof fn lemma_block_size(docs: Seq<u32>)
    requires
        docs.len() >= 1,
        forall|i: int, j: int| 0 <= i < j < docs.len() ==> #[trigger] docs[i] < #[trigger] docs[j],
        forall|i: int| 0 <= i < docs.len() ==> block_of(#[trigger] docs[i]) == block_of(docs.last()),
    ensures
        docs.len() <= 65536,
{
    lemma_ascends_by(docs, docs.len() - 1);
    assert(block_of(docs[0]) == block_of(docs[docs.len() - 1]));
}

proof fn lemma_ascends_by(docs: Seq<u32>, i: int)
    requires
        0 <= i < docs.len(),
        forall|i: int, j: int| 0 <= i < j < docs.len() ==> #[trigger] docs[i] < #[trigger] docs[j],
    ensures
        docs[i] >= docs[0] + i,
    decreases i,
{
    if i > 0 {
        lemma_ascends_by(docs, i - 1);
        assert(docs[i - 1] < docs[i]);
    }
}

// ---------------------------------------------------------------------------
// Reading
// ---------------------------------------------------------------------------

/// The unsigned short at `p`.
pub open spec fn ushort_in(s: Seq<u8>, p: int) -> int {
    le_nat(s.subrange(p, p + 2)) as int
}

/// The documents of a list.
pub open spec fn listed_docs(s: Seq<u8>, p: int, n: int, block: int) -> Seq<u32> {
    Seq::new(n as nat, |i: int| (block * 65536 + ushort_in(s, p + 2 * i)) as u32)
}

/// The documents of a bit set, up to place `n` in the block.
pub open spec fn dense_docs(words: Seq<u64>, block: int, n: int) -> Seq<u32>
    decreases n,
{
    if n <= 0 {
        Seq::empty()
    } else {
        let before = dense_docs(words, block, n - 1);
        if get_bit(words[(n - 1) / 64], (n - 1) % 64) {
            before.push((block * 65536 + n - 1) as u32)
        } else {
            before
        }
    }
}

/// All documents of a block.
pub open spec fn all_docs(block: int) -> Seq<u32> {
    Seq::new(65536, |i: int| (block * 65536 + i) as u32)
}

/// The longs of the bit set at `p`.
pub open spec fn words_in(s: Seq<u8>, p: int) -> Seq<u64> {
    Seq::new(1024, |i: int| long_in(s, p + 8 * i))
}

/// The documents of the blocks from `p` to the sentinel, behind `acc`, and
/// where the sentinel's header ends.
pub open spec fn disi_at(s: Seq<u8>, p: int, acc: Seq<u32>) -> Result<(Seq<u32>, int), ErrorKind>
    decreases s.len() - p,
{
    if !(0 <= p && p + 4 <= s.len()) {
        Err(ErrorKind::InvalidData)
    } else {
        let block = ushort_in(s, p);
        let n = ushort_in(s, p + 2) + 1;
        let q = p + 4;
        if block == DISI_SENTINEL_BLOCK {
            Ok((acc, q))
        } else if n <= DISI_MAX_ARRAY_LENGTH {
            if q + 2 * n <= s.len() {
                disi_at(s, q + 2 * n, acc + listed_docs(s, q, n, block))
            } else {
                Err(ErrorKind::InvalidData)
            }
        } else if n == DISI_BLOCK_SIZE {
            disi_at(s, q, acc + all_docs(block))
        } else {
            if q + 8448 <= s.len() {
                disi_at(s, q + 8448, acc + dense_docs(words_in(s, q + 256), block, 65536))
            } else {
                Err(ErrorKind::InvalidData)
            }
        }
    }
}

fn read_ushort(s: &[u8], p: usize) -> (r: u32)
    requires
        p + 2 <= s@.len(),
    ensures
        r == ushort_in(s@, p as int),
        r < 65536,
{
    proof {
        lemma_pow2_widths();
    }
    le_u64(s, p, 2) as u32
}

/// Decodes the blocks of a region up to the sentinel. What follows it, the
/// jumps, is for random access.
pub fn decode_blocks(region: &[u8]) -> (r: Result<(Vec<u32>, usize), Error>)
    ensures
        match disi_at(region@, 0, Seq::empty()) {
            Ok((docs, end)) => r is Ok && r->Ok_0.0@ == docs && r->Ok_0.1 == end && end <= region@.len(),
            Err(k) => r is Err && r->Err_0.kind == k,
        },
{
    let ghost s = region@;
    let n: usize = region.len();
    let mut docs: Vec<u32> = Vec::new();
    let mut p: usize = 0;
    loop
        invariant
            s == region@,
            n == s.len(),
            p <= n,
            disi_at(s, 0, Seq::empty()) == disi_at(s, p as int, docs@),
        decreases n - p,
    {
        if n - p < 4 {
            return Err(corrupt("truncated DISI block header"));
        }
        let block: u32 = read_ushort(region, p);
        let count: u32 = read_ushort(region, p + 2) + 1;
        let ghost acc = docs@;
        let q: usize = p + 4;
        if block == DISI_SENTINEL_BLOCK {
            return Ok((docs, q));
        }
        if count <= DISI_MAX_ARRAY_LENGTH {
            if n - q < 2 * count as usize {
                return Err(corrupt("truncated DISI list"));
            }
            let ghost want = listed_docs(s, q as int, count as int, block as int);
            let mut i: usize = 0;
            assert(acc + want.take(0) =~= acc);
            while i < count as usize
                invariant
                    i <= count <= 4095,
                    s == region@,
                    n == s.len(),
                    q + 2 * count <= n,
                    block < 65536,
                    want == listed_docs(s, q as int, count as int, block as int),
                    docs@ == acc + want.take(i as int),
                decreases count - i,
            {
                let low: u32 = read_ushort(region, q + 2 * i);
                docs.push(block * 65536 + low);
                assert(docs@ =~= acc + want.take(i + 1));
                i = i + 1;
            }
            assert(want.take(count as int) =~= want);
            p = q + 2 * count as usize;
        } else if count == DISI_BLOCK_SIZE {
            let ghost want = all_docs(block as int);
            let mut i: u32 = 0;
            assert(acc + want.take(0) =~= acc);
            while i < 65536
                invariant
                    i <= 65536,
                    block < 65536,
                    want == all_docs(block as int),
                    docs@ == acc + want.take(i as int),
                decreases 65536 - i,
            {
                docs.push(block * 65536 + i);
                assert(docs@ =~= acc + want.take(i + 1));
                i = i + 1;
            }
            assert(want.take(65536) =~= want);
            p = q;
        } else {
            if n - q < 8448 {
                return Err(corrupt("truncated DISI dense block"));
            }
            let ghost words = words_in(s, q + 256);
            let mut i: u32 = 0;
            let mut word: u64 = 0;
            assert(acc + dense_docs(words, block as int, 0) =~= acc);
            while i < 65536
                invariant
                    i <= 65536,
                    s == region@,
                    n == s.len(),
                    q + 8448 <= n,
                    block < 65536,
                    words == words_in(s, q + 256),
                    i % 64 != 0 ==> word == words[i as int / 64],
                    docs@ == acc + dense_docs(words, block as int, i as int),
                decreases 65536 - i,
            {
                if i % 64 == 0 {
                    word = le_u64(region, q + 256 + 8 * (i / 64) as usize, 8);
                    assert(word == words[i as int / 64]);
                }
                let ghost before = docs@;
                if (word >> ((i % 64) as u64)) & 1 == 1 {
                    docs.push(block * 65536 + i);
                }
                proof {
                    let b = get_bit(words[i as int / 64], i as int % 64);
                    assert(b == ((word >> ((i % 64) as u64)) & 1 == 1));
                    assert(docs@ =~= acc + dense_docs(words, block as int, i + 1));
                }
                i = i + 1;
            }
            p = q + 8448;
        }
    }
}

/// Decodes a region that should hold `num_values` documents.
pub fn decode_disi_region(region: &[u8], num_values: u64) -> (r: Result<Vec<u32>, Error>)
    ensures
        match disi_at(region@, 0, Seq::empty()) {
            Ok((docs, _)) => if docs.len() == num_values {
                r is Ok && r->Ok_0@ == docs
            } else {
                r is Err && r->Err_0.kind == ErrorKind::InvalidData
            },
            Err(k) => r is Err && r->Err_0.kind == k,
        },
{
    let (docs, _end) = decode_blocks(region)?;
    if docs.len() as u64 != num_values {
        return Err(corrupt("DISI docs count mismatch"));
    }
    Ok(docs)
}

// ---------------------------------------------------------------------------
// Reading what was written
// ---------------------------------------------------------------------------

proof fn lemma_listed(s: Seq<u8>, p: int, docs: Seq<u32>, block: int)
    requires
        holds_at(s, p, low_bytes(docs)),
        0 <= block < 65536,
        forall|i: int| 0 <= i < docs.len() ==> block_of(#[trigger] docs[i]) == block,
    ensures
        listed_docs(s, p, docs.len() as int, block) == docs,
    decreases docs.len(),
{
    let got = listed_docs(s, p, docs.len() as int, block);
    if docs.len() > 0 {
        broadcast use lemma_le_bytes_len;
        let d = docs.drop_last();
        lemma_low_bytes_len(d);
        let low = (docs.last() as int % 65536) as nat;
        lemma_holds_concat(s, p, low_bytes(d), le_bytes(low, 2));
        lemma_listed(s, p, d, block);
        lemma_pow2_widths();
        lemma_le_round_trip(low, 2);
        let n = docs.len() - 1;
        assert(block_of(docs[n]) == block);
        assert forall|i: int| 0 <= i < docs.len() implies got[i] == docs[i] by {
            if i < n {
                assert(listed_docs(s, p, d.len() as int, block)[i] == d[i]);
            }
        }
    }
    assert(got =~= docs);
}

proof fn lemma_dense(docs: Seq<u32>, block: int, n: int, k: int)
    requires
        one_block(docs),
        block == block_of(docs.last()),
        0 <= n <= 65536,
        0 <= k <= docs.len(),
        forall|i: int| 0 <= i < k ==> (#[trigger] docs[i]) as int % 65536 < n,
        forall|i: int| k <= i < docs.len() ==> (#[trigger] docs[i]) as int % 65536 >= n,
    ensures
        dense_docs(block_words(docs), block, n) == docs.take(k),
    decreases n,
{
    if n == 0 {
        assert(k == 0) by {
            if k > 0 {
                assert(docs[0] as int % 65536 < 0);
            }
        }
        assert(docs.take(0) =~= Seq::<u32>::empty());
    } else {
        let m = n - 1;
        let words = block_words(docs);
        lemma_bits_u64_bit(|p: int| has_low(docs, 64 * (m / 64) + p), m % 64);
        assert(get_bit(words[m / 64], m % 64) == has_low(docs, m));
        if k > 0 && docs[k - 1] as int % 65536 == m {
            assert forall|i: int| 0 <= i < k - 1 implies (#[trigger] docs[i]) as int % 65536 < m by {
                assert(docs[i] < docs[k - 1]);
                assert(block_of(docs[i]) == block && block_of(docs[k - 1]) == block);
            }
            lemma_dense(docs, block, m, k - 1);
            assert(has_low(docs, m));
            assert(block_of(docs[k - 1]) == block);
            assert(docs.take(k) =~= docs.take(k - 1).push(docs[k - 1]));
        } else {
            assert forall|i: int| 0 <= i < k implies (#[trigger] docs[i]) as int % 65536 < m by {
                if docs[i] as int % 65536 == m {
                    if i < k - 1 {
                        assert(docs[i] < docs[k - 1]);
                        assert(block_of(docs[i]) == block && block_of(docs[k - 1]) == block);
                    }
                }
            }
            if has_low(docs, m) {
                let i = choose|i: int| 0 <= i < docs.len() && #[trigger] docs[i] as int % 65536 == m;
                assert(false);
            }
            lemma_dense(docs, block, m, k);
        }
    }
}

proof fn lemma_all(docs: Seq<u32>, block: int)
    requires
        one_block(docs),
        docs.len() == 65536,
        block == block_of(docs.last()),
    ensures
        all_docs(block) == docs,
{
    assert forall|i: int| 0 <= i < 65536 implies all_docs(block)[i] == docs[i] by {
        lemma_ascends_by(docs, i);
        lemma_descends_by(docs, i);
        assert(block_of(docs[0]) == block);
        assert(block_of(docs[65535]) == block);
    }
    assert(all_docs(block) =~= docs);
}

proof fn lemma_descends_by(docs: Seq<u32>, i: int)
    requires
        0 <= i < docs.len(),
        forall|i: int, j: int| 0 <= i < j < docs.len() ==> #[trigger] docs[i] < #[trigger] docs[j],
    ensures
        docs[docs.len() - 1] >= docs[i] + (docs.len() - 1 - i),
    decreases docs.len() - i,
{
    if i < docs.len() - 1 {
        lemma_descends_by(docs, i + 1);
        assert(docs[i] < docs[i + 1]);
    }
}

/// A block that was written is read back.
proof fn lemma_block_round_trip(s: Seq<u8>, p: int, docs: Seq<u32>, acc: Seq<u32>)
    requires
        one_block(docs),
        block_of(docs.last()) < 0x7FFF,
        holds_at(s, p, block_bytes(docs)),
    ensures
        disi_at(s, p, acc) == disi_at(s, p + block_bytes(docs).len(), acc + docs),
{
    broadcast use lemma_le_bytes_len;
    let block = block_of(docs.last());
    let n = docs.len();
    let (a, b) = (le_bytes(block as nat, 2), le_bytes((n - 1) as nat, 2));
    let body = if n <= DISI_MAX_ARRAY_LENGTH {
        low_bytes(docs)
    } else if n < DISI_BLOCK_SIZE {
        block_ranks(docs) + longs_bytes(block_words(docs))
    } else {
        Seq::empty()
    };
    lemma_holds_concat(s, p, a + b, body);
    lemma_holds_concat(s, p, a, b);
    lemma_pow2_widths();
    lemma_le_round_trip(block as nat, 2);
    lemma_le_round_trip((n - 1) as nat, 2);
    assert(ushort_in(s, p) == block);
    assert(ushort_in(s, p + 2) == n - 1);
    let q = p + 4;
    if n <= DISI_MAX_ARRAY_LENGTH {
        lemma_low_bytes_len(docs);
        lemma_listed(s, q, docs, block);
    } else if n < DISI_BLOCK_SIZE {
        let words = block_words(docs);
        lemma_holds_concat(s, q, block_ranks(docs), longs_bytes(words));
        lemma_longs_len(words);
        lemma_longs_round_trip(s, q + 256, words);
        assert(words_in(s, q + 256) =~= words) by {
            let got = longs_at(s, q + 256, 1024)->Ok_0.0;
            assert(got == words);
            assert forall|i: int| 0 <= i < 1024 implies words_in(s, q + 256)[i] == words[i] by {
                assert(got[i] == long_in(s, q + 256 + 8 * i));
            }
        }
        lemma_dense(docs, block, 65536, n as int);
        assert(docs.take(n as int) =~= docs);
    } else {
        lemma_all(docs, block);
    }
}

/// Blocks that were written are read back.
proof fn lemma_blocks_round_trip(s: Seq<u8>, p: int, docs: Seq<u32>, acc: Seq<u32>)
    requires
        doc_set(docs),
        docs.len() > 0 ==> block_of(docs.last()) < 0x7FFF,
        holds_at(s, p, blocks_bytes(docs)),
    ensures
        disi_at(s, p, acc) == disi_at(s, p + blocks_bytes(docs).len(), acc + docs),
    decreases docs.len(),
{
    if docs.len() == 0 {
        assert(acc + docs =~= acc);
    } else {
        let k = run_start(docs, docs.len() - 1);
        lemma_run_start(docs, docs.len() - 1);
        let (x, y) = (docs.take(k), docs.skip(k));
        assert forall|i: int, j: int| 0 <= i < j < x.len() implies #[trigger] x[i] < #[trigger] x[j] by {
            assert(docs[i] < docs[j]);
        }
        assert forall|i: int| 0 <= i < x.len() implies #[trigger] x[i] < 0x7FFF_FFFF by {
            assert(docs[i] < 0x7FFF_FFFF);
        }
        assert forall|i: int, j: int| 0 <= i < j < y.len() implies #[trigger] y[i] < #[trigger] y[j] by {
            assert(docs[k + i] < docs[k + j]);
        }
        assert forall|i: int| 0 <= i < y.len() implies block_of(#[trigger] y[i]) == block_of(y.last()) by {
            assert(block_of(docs[k + i]) == block_of(docs[docs.len() - 1]));
        }
        lemma_block_size(y);
        if k > 0 {
            assert(x.last() == docs[k - 1]);
            assert(docs[k - 1] < docs[docs.len() - 1]);
        }
        lemma_holds_concat(s, p, blocks_bytes(x), block_bytes(y));
        lemma_blocks_round_trip(s, p, x, acc);
        lemma_block_round_trip(s, p + blocks_bytes(x).len(), y, acc + x);
        assert(acc + x + y =~= acc + docs);
    }
}

proof fn lemma_jumps_len(docs: Seq<u32>, n: int)
    requires
        0 <= n,
    ensures
        jumps_bytes(docs, n).len() == 8 * n,
    decreases n,
{
    broadcast use lemma_le_bytes_len;
    if n > 0 {
        lemma_jumps_len(docs, n - 1);
    }
}

/// A set of documents that was written is read back, whichever way its blocks
/// are stored. Documents of the sentinel's own block, the last 65535, are
/// left out: reading stops there.
pub proof fn law_disi_round_trip(s: Seq<u8>, docs: Seq<u32>)
    requires
        docs.len() > 0,
        doc_set(docs),
        block_of(docs.last()) < 0x7FFF,
        holds_at(s, 0, disi_bytes(docs)),
    ensures
        disi_at(s, 0, Seq::empty()) == Ok::<(Seq<u32>, int), ErrorKind>((docs, disi_bytes(docs).len() - 2 - 8 * jump_count(docs))),
{
    broadcast use lemma_le_bytes_len;
    let b = blocks_bytes(docs);
    let t = sentinel_bytes();
    lemma_holds_concat(s, 0, b + t, jumps_bytes(docs, jump_count(docs)));
    lemma_holds_concat(s, 0, b, t);
    lemma_blocks_round_trip(s, 0, docs, Seq::empty());
    assert(Seq::<u32>::empty() + docs =~= docs);
    lemma_sentinel(s, b.len() as int, docs);
    lemma_jumps_len(docs, jump_count(docs));
}

/// Reading stops at the sentinel.
proof fn lemma_sentinel(s: Seq<u8>, q: int, docs: Seq<u32>)
    requires
        holds_at(s, q, sentinel_bytes()),
    ensures
        disi_at(s, q, docs) == Ok::<(Seq<u32>, int), ErrorKind>((docs, q + 4)),
{
    broadcast use lemma_le_bytes_len;
    lemma_holds_concat(s, q, short_bytes(0x7FFF) + short_bytes(0), short_bytes(-1i16));
    lemma_holds_concat(s, q, short_bytes(0x7FFF), short_bytes(0));
    lemma_pow2_widths();
    lemma_le_round_trip(0x7FFF, 2);
    assert(ushort_in(s, q) == 0x7FFF);
}

/// Documents up to some place, or from some place on, are a set too.
proof fn lemma_set_parts(docs: Seq<u32>, k: int)
    requires
        doc_set(docs),
        0 <= k <= docs.len(),
    ensures
        doc_set(docs.take(k)),
        doc_set(docs.skip(k)),
{
    let (x, y) = (docs.take(k), docs.skip(k));
    assert forall|i: int, j: int| 0 <= i < j < x.len() implies #[trigger] x[i] < #[trigger] x[j] by {
        assert(docs[i] < docs[j]);
    }
    assert forall|i: int| 0 <= i < x.len() implies #[trigger] x[i] < 0x7FFF_FFFF by {
        assert(docs[i] < 0x7FFF_FFFF);
    }
    assert forall|i: int, j: int| 0 <= i < j < y.len() implies #[trigger] y[i] < #[trigger] y[j] by {
        assert(docs[k + i] < docs[k + j]);
    }
    assert forall|i: int| 0 <= i < y.len() implies #[trigger] y[i] < 0x7FFF_FFFF by {
        assert(docs[k + i] < 0x7FFF_FFFF);
    }
}

/// The blocks of documents are those before a boundary and those behind it.
proof fn lemma_blocks_split(docs: Seq<u32>, k: int)
    requires
        doc_set(docs),
        0 <= k <= docs.len(),
        0 < k < docs.len() ==> block_of(docs[k - 1]) != block_of(docs[k]),
    ensures
        blocks_bytes(docs) == blocks_bytes(docs.take(k)) + blocks_bytes(docs.skip(k)),
    decreases docs.len(),
{
    if k == docs.len() {
        assert(docs.take(k) =~= docs);
        assert(blocks_bytes(docs.skip(k)) =~= Seq::<u8>::empty());
        assert(blocks_bytes(docs) + Seq::<u8>::empty() =~= blocks_bytes(docs));
    } else {
        let n = docs.len() as int;
        let r = run_start(docs, n - 1);
        lemma_run_start(docs, n - 1);
        assert(r >= k) by {
            if r < k {
                assert(block_of(docs[k - 1]) == block_of(docs[n - 1]));
                assert(block_of(docs[k]) == block_of(docs[n - 1]));
            }
        }
        let (y, x) = (docs.skip(k), docs.take(r));
        lemma_set_parts(docs, k);
        lemma_set_parts(docs, r);
        lemma_run_start(y, n - k - 1);
        let m = run_start(y, n - k - 1);
        assert(m == r - k) by {
            if m < r - k {
                assert(y[r - k - 1] == docs[r - 1]);
                assert(block_of(y[r - k - 1]) == block_of(y[n - k - 1]));
            }
            if m > r - k {
                assert(y[m - 1] == docs[k + m - 1]);
            }
        }
        assert(y.take(m) =~= x.skip(k));
        assert(y.skip(m) =~= docs.skip(r));
        assert(x.take(k) =~= docs.take(k));
        lemma_blocks_split(x, k);
        crate::bytes::lemma_concat_assoc(blocks_bytes(docs.take(k)), blocks_bytes(x.skip(k)), block_bytes(docs.skip(r)));
    }
}

/// A block takes few bytes.
proof fn lemma_blocks_len(docs: Seq<u32>)
    requires
        doc_set(docs),
    ensures
        docs.len() > 0 ==> blocks_bytes(docs).len() <= 8452 * (block_of(docs.last()) + 1),
        docs.len() == 0 ==> blocks_bytes(docs).len() == 0,
    decreases docs.len(),
{
    if docs.len() > 0 {
        broadcast use lemma_le_bytes_len;
        let n = docs.len() as int;
        let k = run_start(docs, n - 1);
        lemma_run_start(docs, n - 1);
        lemma_set_parts(docs, k);
        lemma_blocks_len(docs.take(k));
        let part = docs.skip(k);
        lemma_low_bytes_len(part);
        lemma_longs_len(block_words(part));
        if k > 0 {
            assert(docs.take(k).last() == docs[k - 1]);
            assert(docs[k - 1] < docs[n - 1]);
        }
    }
}

/// Where documents of blocks from `b` on begin.
proof fn lemma_boundary(docs: Seq<u32>, b: int)
    requires
        doc_set(docs),
    ensures
        docs_before(docs, b) <= docs.len(),
        forall|i: int| 0 <= i < docs_before(docs, b) ==> (#[trigger] docs[i]) as int / 65536 < b,
        forall|i: int| docs_before(docs, b) <= i < docs.len() ==> (#[trigger] docs[i]) as int / 65536 >= b,
    decreases docs.len(),
{
    if docs.len() > 0 {
        let n = docs.len() as int;
        lemma_set_parts(docs, n - 1);
        assert(docs.take(n - 1) =~= docs.drop_last());
        if block_of(docs.last()) < b {
            assert forall|i: int| 0 <= i < n implies (#[trigger] docs[i]) as int / 65536 < b by {
                if i < n - 1 {
                    assert(docs[i] < docs[n - 1]);
                }
            }
        } else {
            lemma_boundary(docs.drop_last(), b);
            assert forall|i: int| 0 <= i < docs_before(docs, b) implies (#[trigger] docs[i]) as int / 65536 < b by {
                assert(docs[i] == docs.drop_last()[i]);
            }
            assert forall|i: int| docs_before(docs, b) <= i < n implies (#[trigger] docs[i]) as int / 65536 >= b by {
                if i < n - 1 {
                    assert(docs[i] == docs.drop_last()[i]);
                }
            }
        }
    }
}

/// Where jump `b` stands among the jumps.
proof fn lemma_jump_holds(s: Seq<u8>, p: int, docs: Seq<u32>, n: int, b: int)
    requires
        0 <= b < n,
        holds_at(s, p, jumps_bytes(docs, n)),
    ensures
        holds_at(s, p + 8 * b, jump_bytes(docs, b)),
    decreases n,
{
    lemma_jumps_len(docs, n - 1);
    lemma_holds_concat(s, p, jumps_bytes(docs, n - 1), jump_bytes(docs, n - 1));
    if b < n - 1 {
        lemma_jump_holds(s, p, docs, n - 1, b);
    }
}

/// Documents from a boundary between blocks on are read from where their blocks
/// begin.
proof fn lemma_read_from(s: Seq<u8>, docs: Seq<u32>, k: int)
    requires
        docs.len() > 0,
        doc_set(docs),
        block_of(docs.last()) < 0x7FFF,
        holds_at(s, 0, disi_bytes(docs)),
        0 <= k <= docs.len(),
        0 < k < docs.len() ==> block_of(docs[k - 1]) != block_of(docs[k]),
    ensures
        disi_at(s, blocks_bytes(docs.take(k)).len() as int, Seq::empty()) == Ok::<(Seq<u32>, int), ErrorKind>(
            (docs.skip(k), disi_bytes(docs).len() - 2 - 8 * jump_count(docs)),
        ),
{
    let (x, y) = (docs.take(k), docs.skip(k));
    let t = sentinel_bytes();
    lemma_set_parts(docs, k);
    lemma_blocks_split(docs, k);
    lemma_holds_concat(s, 0, blocks_bytes(docs) + t, jumps_bytes(docs, jump_count(docs)));
    lemma_holds_concat(s, 0, blocks_bytes(docs), t);
    lemma_holds_concat(s, 0, blocks_bytes(x), blocks_bytes(y));
    if y.len() > 0 {
        assert(y.last() == docs.last());
    }
    lemma_blocks_round_trip(s, blocks_bytes(x).len() as int, y, Seq::empty());
    assert(Seq::<u32>::empty() + y =~= y);
    lemma_sentinel(s, blocks_bytes(docs).len() as int, y);
    broadcast use lemma_le_bytes_len;
    lemma_jumps_len(docs, jump_count(docs));
}

/// The jump table behind the blocks leads to every block: entry `b` says how
/// many documents lie before document 65536 `b`, and an offset from which
/// exactly the documents behind these are read. It has an entry for every block
/// up to the last and one behind it, whether or not a block has documents, and
/// none at all where the first block is the last. Documents of the sentinel's own
/// block are left out.
pub proof fn law_jumps_lead(s: Seq<u8>, docs: Seq<u32>, b: int)
    requires
        docs.len() > 0,
        doc_set(docs),
        docs.last() < 0x7FFF_0000,
        holds_at(s, 0, disi_bytes(docs)),
    ensures
        jump_count(docs) == if docs.last() < 65536 { 0 } else { docs.last() as int / 65536 + 2 },
        0 <= b < jump_count(docs) ==> ({
            let at = disi_bytes(docs).len() - 8 * jump_count(docs) + 8 * b;
            exists|k: int, offset: int|
                {
                    &&& 0 <= k <= docs.len()
                    &&& forall|i: int| 0 <= i < k ==> #[trigger] docs[i] < 65536 * b
                    &&& forall|i: int| k <= i < docs.len() ==> #[trigger] docs[i] >= 65536 * b
                    &&& int_at(s, at) == Ok::<(i32, int), ErrorKind>((k as i32, at + 4))
                    &&& int_at(s, at + 4) == Ok::<(i32, int), ErrorKind>((offset as i32, at + 8))
                    &&& 0 <= offset <= i32::MAX
                    &&& #[trigger] disi_at(s, offset, Seq::empty()) == Ok::<(Seq<u32>, int), ErrorKind>((#[trigger] docs.skip(k), disi_bytes(docs).len() - 2 - 8 * jump_count(docs)))
                }
        }),
{
    if 0 <= b < jump_count(docs) {
        broadcast use lemma_le_bytes_len;
        let n = jump_count(docs);
        let head = blocks_bytes(docs) + sentinel_bytes();
        lemma_jumps_len(docs, n);
        lemma_holds_concat(s, 0, head, jumps_bytes(docs, n));
        lemma_jump_holds(s, head.len() as int, docs, n, b);
        let k = docs_before(docs, b) as int;
        lemma_boundary(docs, b);
        lemma_set_parts(docs, k);
        let offset = blocks_bytes(docs.take(k)).len() as int;
        lemma_blocks_len(docs.take(k));
        if k > 0 {
            assert(docs.take(k).last() == docs[k - 1]);
            if k < docs.len() {
                assert(docs[k - 1] < docs[docs.len() - 1]);
            }
        }
        lemma_ascends_by(docs, docs.len() - 1);
        let at = head.len() + 8 * b;
        let (x, y) = (spec_to_i32((k % 0x1_0000_0000) as u32), spec_to_i32((offset % 0x1_0000_0000) as u32));
        lemma_holds_concat(s, at, int_bytes(x), int_bytes(y));
        law_int_round_trip(s, at, x);
        law_int_round_trip(s, at + 4, y);
        lemma_read_from(s, docs, k);
    }
}

/// The ranks of a block that is stored as a bit set: before every 512 places,
/// how many of its documents lie there.
pub proof fn law_ranks_count(docs: Seq<u32>, g: int, k: int)
    requires
        one_block(docs),
        DISI_MAX_ARRAY_LENGTH < docs.len() < DISI_BLOCK_SIZE,
        0 <= g < 128,
        0 <= k <= docs.len(),
        forall|i: int| 0 <= i < k ==> (#[trigger] docs[i]) as int % 65536 < 512 * g,
        forall|i: int| k <= i < docs.len() ==> (#[trigger] docs[i]) as int % 65536 >= 512 * g,
    ensures
        256 * block_bytes(docs)[4 + 2 * g] + block_bytes(docs)[5 + 2 * g] == k,
{
    broadcast use lemma_le_bytes_len;
    lemma_count_below_ascending(docs, 512 * g, k);
    let ranks = block_ranks(docs);
    assert(block_bytes(docs)[4 + 2 * g] == ranks[2 * g]);
    assert(block_bytes(docs)[5 + 2 * g] == ranks[2 * g + 1]);
}

} // verus!
