//! The positions of a term: their distances, packed in blocks of 128, with a
//! variable-length tail.

use crate::bytes::varint_bytes;
use crate::doc_postings::lemma_small_fits;
use crate::error::Error;
use crate::io::{ChecksumIndexOutput, DataOutput};
use crate::postings_ll::{pfor_bytes, pfor_util_encode};
use vstd::prelude::*;

verus! {

/// The distances of one document's positions, the first from 0.
pub open spec fn list_deltas(list: Seq<u32>) -> Seq<u64> {
    Seq::new(list.len(), |i: int| (list[i] - if i == 0 { 0int } else { list[i - 1] as int }) as u64)
}

/// The distances of the first `n` documents' positions.
pub open spec fn position_deltas(lists: Seq<Seq<u32>>, n: int) -> Seq<u64>
    decreases n,
{
    if n <= 0 {
        Seq::empty()
    } else {
        position_deltas(lists, n - 1) + list_deltas(lists[n - 1])
    }
}

/// The first `c` full blocks.
pub open spec fn full_chunks(deltas: Seq<u64>, c: int) -> Seq<u8>
    decreases c,
{
    if c <= 0 {
        Seq::empty()
    } else {
        full_chunks(deltas, c - 1) + pfor_bytes(deltas.subrange(128 * (c - 1), 128 * c))
    }
}

/// The distances from `from` to before `to`, one by one.
pub open spec fn loose_deltas(deltas: Seq<u64>, from: int, to: int) -> Seq<u8>
    decreases to - from,
{
    if to <= from {
        Seq::empty()
    } else {
        loose_deltas(deltas, from, to - 1) + varint_bytes(deltas[to - 1] as nat)
    }
}

/// The positions of a term.
pub open spec fn positions_bytes(deltas: Seq<u64>) -> Seq<u8> {
    let c = deltas.len() as int / 128;
    full_chunks(deltas, c) + loose_deltas(deltas, 128 * c, deltas.len() as int)
}

/// The frequencies of the first `n` documents together.
pub open spec fn freq_sum(freqs: Seq<u32>, n: int) -> nat
    decreases n,
{
    if n <= 0 {
        0
    } else {
        freq_sum(freqs, n - 1) + freqs[n - 1] as nat
    }
}

/// Where the positions stand behind document block `b`: the start of the
/// block of positions, and how many of it are used up.
pub open spec fn block_position(deltas: Seq<u64>, freqs: Seq<u32>, start: u64, b: int) -> (u64, u8) {
    let sum = freq_sum(freqs, 128 * b + 128);
    ((start + full_chunks(deltas, sum as int / 128).len()) as u64, (sum % 128) as u8)
}

/// That for every full document block.
pub open spec fn position_index(deltas: Seq<u64>, freqs: Seq<u32>, start: u64) -> Seq<(u64, u8)> {
    Seq::new(freqs.len() / 128, |b: int| block_position(deltas, freqs, start, b))
}

/// Where the tail begins, counted from the term's start, if there is more
/// than one block.
pub open spec fn tail_offset(deltas: Seq<u64>) -> int {
    if deltas.len() > 128 {
        full_chunks(deltas, deltas.len() as int / 128).len() as int
    } else {
        -1
    }
}

/// The view of position lists.
pub open spec fn lists_view(lists: Seq<Vec<u32>>) -> Seq<Seq<u32>> {
    lists.map_values(|l: Vec<u32>| l@)
}

/// Positions of a document do not descend, and are ints.
pub open spec fn valid_list(list: Seq<u32>) -> bool {
    &&& forall|i: int, j: int| 0 <= i < j < list.len() ==> #[trigger] list[i] <= #[trigger] list[j]
    &&& forall|i: int| 0 <= i < list.len() ==> #[trigger] list[i] <= 0x7FFF_FFFF
}

/// One list per document, as long as the document's frequency.
pub open spec fn valid_lists(lists: Seq<Seq<u32>>, freqs: Seq<u32>) -> bool {
    &&& lists.len() == freqs.len()
    &&& forall|i: int| 0 <= i < lists.len() ==> (#[trigger] lists[i]).len() == freqs[i] && valid_list(lists[i])
}

pub proof fn lemma_deltas_len(lists: Seq<Seq<u32>>, freqs: Seq<u32>, n: int)
    requires
        valid_lists(lists, freqs),
        0 <= n <= lists.len(),
    ensures
        position_deltas(lists, n).len() == freq_sum(freqs, n),
        forall|i: int| 0 <= i < position_deltas(lists, n).len() ==> #[trigger] position_deltas(lists, n)[i] <= 0x7FFF_FFFF,
    decreases n,
{
    if n > 0 {
        lemma_deltas_len(lists, freqs, n - 1);
        let list = lists[n - 1];
        assert(list.len() == freqs[n - 1] && valid_list(list));
        let d = list_deltas(list);
        assert forall|i: int| 0 <= i < d.len() implies #[trigger] d[i] <= 0x7FFF_FFFF by {
            assert(list[i] <= 0x7FFF_FFFF);
            if i > 0 {
                assert(list[i - 1] <= list[i]);
            }
        }
    }
}

pub proof fn lemma_freq_sum(freqs: Seq<u32>, a: int, b: int)
    requires
        0 <= a <= b <= freqs.len(),
    ensures
        freq_sum(freqs, a) <= freq_sum(freqs, b),
    decreases b - a,
{
    if a < b {
        lemma_freq_sum(freqs, a, b - 1);
    }
}

/// More blocks take more bytes.
pub proof fn lemma_chunks_len(deltas: Seq<u64>, a: int, b: int)
    requires
        0 <= a <= b,
    ensures
        full_chunks(deltas, a).len() <= full_chunks(deltas, b).len(),
    decreases b - a,
{
    if a < b {
        lemma_chunks_len(deltas, a, b - 1);
    }
}

/// The distances of all positions.
fn flatten(lists: &[Vec<u32>], freqs: Ghost<Seq<u32>>) -> (r: Vec<u64>)
    requires
        valid_lists(lists_view(lists@), freqs@),
    ensures
        r@ == position_deltas(lists_view(lists@), lists@.len() as int),
{
    let ghost v = lists_view(lists@);
    let mut out: Vec<u64> = Vec::new();
    let mut k: usize = 0;
    while k < lists.len()
        invariant
            k <= lists@.len(),
            v == lists_view(lists@),
            valid_lists(v, freqs@),
            out@ == position_deltas(v, k as int),
        decreases lists@.len() - k,
    {
        let list = &lists[k];
        let ghost before = out@;
        let ghost d = list_deltas(v[k as int]);
        assert(v[k as int] == list@);
        assert(valid_list(list@));
        let mut last: u32 = 0;
        let mut i: usize = 0;
        assert(before + d.take(0) =~= before);
        while i < list.len()
            invariant
                i <= list@.len(),
                valid_list(list@),
                d == list_deltas(list@),
                last == if i == 0 { 0int } else { list@[i - 1] as int },
                out@ == before + d.take(i as int),
            decreases list@.len() - i,
        {
            let p: u32 = list[i];
            if i > 0 {
                assert(list@[i - 1] <= list@[i as int]);
            }
            out.push((p - last) as u64);
            last = p;
            assert(out@ =~= before + d.take(i + 1));
            i = i + 1;
        }
        assert(d.take(i as int) =~= d);
        k = k + 1;
    }
    out
}

/// Writes the full blocks; gives how many bytes each takes.
fn write_chunks(pos_out: &mut ChecksumIndexOutput, deltas: &Vec<u64>) -> (r: Result<Vec<u64>, Error>)
    requires
        forall|i: int| 0 <= i < deltas@.len() ==> #[trigger] deltas@[i] <= 0x7FFF_FFFF,
    ensures
        final(pos_out).since() == old(pos_out).since(),
        r is Ok,
        r->Ok_0@.len() == deltas@.len() / 128,
        forall|c: int| 0 <= c < r->Ok_0@.len() ==> #[trigger] r->Ok_0@[c] == full_chunks(deltas@, c + 1).len() - full_chunks(deltas@, c).len(),
        final(pos_out).written() == old(pos_out).written() + full_chunks(deltas@, deltas@.len() as int / 128),
{
    let ghost base = pos_out.written();
    let n: usize = deltas.len() / 128;
    let mut sizes: Vec<u64> = Vec::new();
    let mut c: usize = 0;
    assert(base + full_chunks(deltas@, 0) =~= base);
    while c < n
        invariant
            pos_out.since() == old(pos_out).since(),
            c <= n == deltas@.len() / 128,
            forall|i: int| 0 <= i < deltas@.len() ==> #[trigger] deltas@[i] <= 0x7FFF_FFFF,
            sizes@.len() == c,
            forall|i: int| 0 <= i < c ==> #[trigger] sizes@[i] == full_chunks(deltas@, i + 1).len() - full_chunks(deltas@, i).len(),
            pos_out.written() == base + full_chunks(deltas@, c as int),
        decreases n - c,
    {
        let _n: usize = deltas.len();
        let mut chunk: [u64; 128] = [0u64; 128];
        let mut i: usize = 0;
        while i < 128
            invariant
                i <= 128,
                128 * c + 128 <= deltas.len(),
                forall|k: int| 0 <= k < i ==> #[trigger] chunk@[k] == deltas@[128 * c + k],
            decreases 128 - i,
        {
            chunk[i] = deltas[128 * c + i];
            i = i + 1;
        }
        assert(chunk@ =~= deltas@.subrange(128 * c as int, 128 * (c + 1)));
        proof {
            assert forall|k: int| 0 <= k < 128 implies #[trigger] chunk@[k] <= 0x7FFF_FFFF by {
                assert(deltas@[128 * c + k] <= 0x7FFF_FFFF);
            }
            lemma_small_fits(chunk@);
        }
        let before: u64 = pos_out.file_pointer();
        pfor_util_encode(pos_out, &chunk)?;
        assert(pos_out.written() =~= base + full_chunks(deltas@, c + 1));
        sizes.push(pos_out.file_pointer() - before);
        c = c + 1;
    }
    Ok(sizes)
}

/// Writes the positions of a term. Gives where they begin, where their tail
/// begins (or -1), and where they stand behind every full document block.
pub fn write_positions(pos_out: &mut ChecksumIndexOutput, freqs: &[u32], lists: &[Vec<u32>]) -> (r: Result<(u64, i64, Vec<(u64, u8)>), Error>)
    requires
        valid_lists(lists_view(lists@), freqs@),
    ensures
        final(pos_out).since() == old(pos_out).since(),
        r is Ok,
        ({
            let deltas = position_deltas(lists_view(lists@), lists@.len() as int);
            &&& final(pos_out).written() == old(pos_out).written() + positions_bytes(deltas)
            &&& r->Ok_0.0 == old(pos_out).written().len()
            &&& r->Ok_0.1 == crate::num::spec_to_i64((tail_offset(deltas) % 0x1_0000_0000_0000_0000) as u64)
            &&& r->Ok_0.2@ == position_index(deltas, freqs@, r->Ok_0.0)
        }),
{
    let ghost base = pos_out.written();
    let ghost v = lists_view(lists@);
    let start: u64 = pos_out.file_pointer();
    let deltas = flatten(lists, Ghost(freqs@));
    let ghost d = deltas@;
    proof {
        lemma_deltas_len(v, freqs@, lists@.len() as int);
    }
    let sizes = write_chunks(pos_out, &deltas)?;
    let n: usize = deltas.len();
    let full: usize = n / 128;
    let offset: i64 = if n > 128 { crate::num::to_i64(pos_out.file_pointer() - start) } else { -1 };
    let ghost mid = pos_out.written();
    let mut i: usize = full * 128;
    assert(mid + loose_deltas(d, 128 * full as int, 128 * full as int) =~= mid);
    while i < n
        invariant
            pos_out.since() == old(pos_out).since(),
            128 * full <= i <= n == deltas@.len(),
            d == deltas@,
            pos_out.written() == mid + loose_deltas(d, 128 * full as int, i as int),
        decreases n - i,
    {
        pos_out.write_varint(deltas[i])?;
        assert(pos_out.written() =~= mid + loose_deltas(d, 128 * full as int, i + 1));
        i = i + 1;
    }
    assert(pos_out.written() =~= base + positions_bytes(d));
    let mut index: Vec<(u64, u8)> = Vec::new();
    let mut sum: u64 = 0;
    let mut bytes: u64 = 0;
    let mut chunk: usize = 0;
    let mut k: usize = 0;
    let _end: u64 = pos_out.file_pointer();
    let ghost want = position_index(d, freqs@, start);
    while k < freqs.len()
        invariant
            k <= freqs@.len(),
            want == position_index(d, freqs@, start),
            n == d.len() == freq_sum(freqs@, freqs@.len() as int),
            full == n / 128,
            sizes@.len() == full,
            forall|c: int| 0 <= c < full ==> #[trigger] sizes@[c] == full_chunks(d, c + 1).len() - full_chunks(d, c).len(),
            start == base.len(),
            start + full_chunks(d, full as int).len() <= u64::MAX,
            sum == freq_sum(freqs@, k as int),
            chunk <= sum / 128,
            chunk <= full,
            bytes == full_chunks(d, chunk as int).len(),
            index@ == want.take(k as int / 128),
        decreases freqs@.len() - k,
    {
        proof {
            lemma_freq_sum(freqs@, k + 1, freqs@.len() as int);
        }
        sum = sum + freqs[k] as u64;
        k = k + 1;
        if k % 128 == 0 {
            let done: u64 = sum / 128;
            while (chunk as u64) < done
                invariant
                    chunk <= done == sum / 128 <= full,
                    sizes@.len() == full,
                    forall|c: int| 0 <= c < full ==> #[trigger] sizes@[c] == full_chunks(d, c + 1).len() - full_chunks(d, c).len(),
                    start + full_chunks(d, full as int).len() <= u64::MAX,
                    bytes == full_chunks(d, chunk as int).len(),
                decreases done - chunk,
            {
                proof {
                    lemma_chunks_len(d, chunk as int, chunk + 1);
                    lemma_chunks_len(d, chunk + 1, full as int);
                }
                bytes = bytes + sizes[chunk];
                chunk = chunk + 1;
            }
            proof {
                lemma_chunks_len(d, chunk as int, full as int);
                assert(want[k as int / 128 - 1] == block_position(d, freqs@, start, k as int / 128 - 1));
                assert((k - 1) as int / 128 == k as int / 128 - 1);
            }
            index.push((start + bytes, (sum % 128) as u8));
            assert(index@ =~= want.take(k as int / 128));
        } else {
            assert((k - 1) as int / 128 == k as int / 128);
        }
    }
    assert(want.take(k as int / 128) =~= want);
    Ok((start, offset, index))
}

} // verus!
