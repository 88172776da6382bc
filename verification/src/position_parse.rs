//! Where the parts of a term's positions stand, and what is read there.

use crate::bytes::{holds_at, law_vint_round_trip, lemma_holds_concat, varint_bytes, vint_at};
use crate::doc_parse::lemma_holds_within;
use crate::doc_postings::lemma_small_fits;
use crate::error::ErrorKind;
use crate::positions::{freq_sum, full_chunks, lemma_deltas_len, list_deltas, loose_deltas, position_deltas, positions_bytes, valid_list, valid_lists};
use crate::postings_ll::{law_pfor_round_trip, pfor_at, pfor_bytes};
use vstd::prelude::*;

verus! {

proof fn lemma_chunks_prefix(deltas: Seq<u64>, c: int, n: int)
    requires
        0 <= c <= n,
    ensures
        holds_at(full_chunks(deltas, n), 0, full_chunks(deltas, c)),
    decreases n - c,
{
    let s = full_chunks(deltas, n);
    let e = full_chunks(deltas, c);
    if c < n {
        lemma_chunks_prefix(deltas, c, n - 1);
        let d = full_chunks(deltas, n - 1);
        assert(s.subrange(0, e.len() as int) =~= d.subrange(0, e.len() as int));
    } else {
        assert(s.subrange(0, s.len() as int) =~= s);
    }
}

/// Later blocks begin later.
pub proof fn lemma_chunks_grow(deltas: Seq<u64>, a: int, b: int)
    requires
        0 <= a < b,
    ensures
        full_chunks(deltas, a).len() < full_chunks(deltas, b).len(),
    decreases b - a,
{
    assert(pfor_bytes(deltas.subrange(128 * (b - 1), 128 * b)).len() >= 1);
    if a < b - 1 {
        lemma_chunks_grow(deltas, a, b - 1);
    }
}

/// A full block of positions is read as it should.
pub proof fn lemma_chunk_read(s: Seq<u8>, p: int, deltas: Seq<u64>, c: int)
    requires
        holds_at(s, p, positions_bytes(deltas)),
        0 <= c < deltas.len() as int / 128,
        forall|i: int| 0 <= i < deltas.len() ==> #[trigger] deltas[i] <= 0x7FFF_FFFF,
    ensures
        pfor_at(s, p + full_chunks(deltas, c).len()) == Ok::<(Seq<u64>, int), ErrorKind>((deltas.subrange(128 * c, 128 * c + 128), p + full_chunks(deltas, c + 1).len())),
        p + full_chunks(deltas, c + 1).len() <= s.len(),
{
    let n = deltas.len() as int / 128;
    let all = full_chunks(deltas, n);
    lemma_holds_concat(s, p, all, loose_deltas(deltas, 128 * n, deltas.len() as int));
    lemma_chunks_prefix(deltas, c + 1, n);
    lemma_holds_within(s, p, all, 0, full_chunks(deltas, c + 1));
    let v = deltas.subrange(128 * c, 128 * (c + 1));
    lemma_holds_concat(s, p, full_chunks(deltas, c), pfor_bytes(v));
    assert forall|i: int| 0 <= i < v.len() implies #[trigger] v[i] <= 0x7FFF_FFFF by {
        assert(deltas[128 * c + i] <= 0x7FFF_FFFF);
    }
    lemma_small_fits(v);
    law_pfor_round_trip(s, p + full_chunks(deltas, c).len(), v);
}

proof fn lemma_loose_prefix(deltas: Seq<u64>, from: int, i: int, n: int)
    requires
        from <= i <= n,
    ensures
        holds_at(loose_deltas(deltas, from, n), 0, loose_deltas(deltas, from, i)),
    decreases n - i,
{
    let s = loose_deltas(deltas, from, n);
    let e = loose_deltas(deltas, from, i);
    if i < n {
        lemma_loose_prefix(deltas, from, i, n - 1);
        let d = loose_deltas(deltas, from, n - 1);
        assert(s.subrange(0, e.len() as int) =~= d.subrange(0, e.len() as int));
    } else {
        assert(s.subrange(0, s.len() as int) =~= s);
    }
}

/// A distance of the tail is read as it should.
pub proof fn lemma_loose_read(s: Seq<u8>, p: int, deltas: Seq<u64>, i: int)
    requires
        holds_at(s, p, positions_bytes(deltas)),
        128 * (deltas.len() as int / 128) <= i < deltas.len(),
        deltas[i] <= 0x7FFF_FFFF,
    ensures
        ({
            let n = deltas.len() as int / 128;
            let tail = p + full_chunks(deltas, n).len();
            vint_at(s, tail + loose_deltas(deltas, 128 * n, i).len()) == Ok::<(i32, int), ErrorKind>((deltas[i] as i32, tail + loose_deltas(deltas, 128 * n, i + 1).len()))
        }),
{
    let n = deltas.len() as int / 128;
    let all = full_chunks(deltas, n);
    let loose = loose_deltas(deltas, 128 * n, deltas.len() as int);
    lemma_holds_concat(s, p, all, loose);
    let tail = p + all.len();
    lemma_loose_prefix(deltas, 128 * n, i + 1, deltas.len() as int);
    lemma_holds_within(s, tail, loose, 0, loose_deltas(deltas, 128 * n, i + 1));
    let a = loose_deltas(deltas, 128 * n, i);
    lemma_holds_concat(s, tail, a, varint_bytes(deltas[i] as nat));
    law_vint_round_trip(s, tail + a.len(), deltas[i] as i32);
}

/// Where the tail begins is within the bytes.
pub proof fn lemma_tail_place(s: Seq<u8>, p: int, deltas: Seq<u64>)
    requires
        holds_at(s, p, positions_bytes(deltas)),
    ensures
        p + full_chunks(deltas, deltas.len() as int / 128).len() <= s.len(),
{
    let n = deltas.len() as int / 128;
    lemma_holds_concat(s, p, full_chunks(deltas, n), loose_deltas(deltas, 128 * n, deltas.len() as int));
}

/// Distance `j` of document `k` among all distances.
pub proof fn lemma_delta_at(lists: Seq<Seq<u32>>, freqs: Seq<u32>, k: int, j: int, n: int)
    requires
        valid_lists(lists, freqs),
        0 <= k < n <= lists.len(),
        0 <= j < lists[k].len(),
    ensures
        freq_sum(freqs, k) + j < position_deltas(lists, n).len(),
        position_deltas(lists, n)[freq_sum(freqs, k) + j] == list_deltas(lists[k])[j],
    decreases n,
{
    lemma_deltas_len(lists, freqs, n - 1);
    lemma_deltas_len(lists, freqs, n);
    if k < n - 1 {
        lemma_delta_at(lists, freqs, k, j, n - 1);
    }
}

/// The bytes of positions determine their distances.
pub proof fn law_distances_determined(s: Seq<u8>, p: int, a: Seq<u64>, b: Seq<u64>)
    requires
        a.len() == b.len(),
        holds_at(s, p, positions_bytes(a)),
        holds_at(s, p, positions_bytes(b)),
        forall|i: int| 0 <= i < a.len() ==> #[trigger] a[i] <= 0x7FFF_FFFF,
        forall|i: int| 0 <= i < b.len() ==> #[trigger] b[i] <= 0x7FFF_FFFF,
    ensures
        a == b,
{
    let n = a.len() as int / 128;
    lemma_same_chunks(s, p, a, b, n);
    lemma_same_loose(s, p, a, b, a.len() as int);
    assert(a =~= b);
}

proof fn lemma_same_chunks(s: Seq<u8>, p: int, a: Seq<u64>, b: Seq<u64>, c: int)
    requires
        a.len() == b.len(),
        holds_at(s, p, positions_bytes(a)),
        holds_at(s, p, positions_bytes(b)),
        forall|i: int| 0 <= i < a.len() ==> #[trigger] a[i] <= 0x7FFF_FFFF,
        forall|i: int| 0 <= i < b.len() ==> #[trigger] b[i] <= 0x7FFF_FFFF,
        0 <= c <= a.len() as int / 128,
    ensures
        full_chunks(a, c).len() == full_chunks(b, c).len(),
        forall|i: int| 0 <= i < 128 * c ==> #[trigger] a[i] == b[i],
    decreases c,
{
    if c > 0 {
        lemma_same_chunks(s, p, a, b, c - 1);
        lemma_chunk_read(s, p, a, c - 1);
        lemma_chunk_read(s, p, b, c - 1);
        let va = a.subrange(128 * (c - 1), 128 * (c - 1) + 128);
        let vb = b.subrange(128 * (c - 1), 128 * (c - 1) + 128);
        assert(va == vb);
        assert forall|i: int| 0 <= i < 128 * c implies #[trigger] a[i] == b[i] by {
            if i >= 128 * (c - 1) {
                assert(va[i - 128 * (c - 1)] == vb[i - 128 * (c - 1)]);
            }
        }
    }
}

proof fn lemma_same_loose(s: Seq<u8>, p: int, a: Seq<u64>, b: Seq<u64>, i: int)
    requires
        a.len() == b.len(),
        holds_at(s, p, positions_bytes(a)),
        holds_at(s, p, positions_bytes(b)),
        forall|i: int| 0 <= i < a.len() ==> #[trigger] a[i] <= 0x7FFF_FFFF,
        forall|i: int| 0 <= i < b.len() ==> #[trigger] b[i] <= 0x7FFF_FFFF,
        full_chunks(a, a.len() as int / 128).len() == full_chunks(b, a.len() as int / 128).len(),
        forall|i: int| 0 <= i < 128 * (a.len() as int / 128) ==> #[trigger] a[i] == b[i],
        128 * (a.len() as int / 128) <= i <= a.len(),
    ensures
        loose_deltas(a, 128 * (a.len() as int / 128), i).len() == loose_deltas(b, 128 * (a.len() as int / 128), i).len(),
        forall|k: int| 0 <= k < i ==> #[trigger] a[k] == b[k],
    decreases i,
{
    if i > 128 * (a.len() as int / 128) {
        lemma_same_loose(s, p, a, b, i - 1);
        assert(a[i - 1] <= 0x7FFF_FFFF);
        assert(b[i - 1] <= 0x7FFF_FFFF);
        lemma_loose_read(s, p, a, i - 1);
        lemma_loose_read(s, p, b, i - 1);
    }
}

/// Frequencies and distances determine the positions.
pub proof fn law_positions_determined(a: Seq<Seq<u32>>, b: Seq<Seq<u32>>, freqs: Seq<u32>)
    requires
        valid_lists(a, freqs),
        valid_lists(b, freqs),
        position_deltas(a, a.len() as int) == position_deltas(b, b.len() as int),
    ensures
        a == b,
{
    let n = a.len() as int;
    assert forall|k: int| 0 <= k < n implies #[trigger] a[k] == b[k] by {
        assert(a[k].len() == freqs[k] && valid_list(a[k]));
        assert(b[k].len() == freqs[k] && valid_list(b[k]));
        lemma_same_list(a, b, freqs, k, a[k].len() as int);
        assert(a[k] =~= b[k]);
    }
    assert(a =~= b);
}

proof fn lemma_same_list(a: Seq<Seq<u32>>, b: Seq<Seq<u32>>, freqs: Seq<u32>, k: int, j: int)
    requires
        valid_lists(a, freqs),
        valid_lists(b, freqs),
        position_deltas(a, a.len() as int) == position_deltas(b, b.len() as int),
        0 <= k < a.len(),
        0 <= j <= a[k].len(),
    ensures
        forall|i: int| 0 <= i < j ==> #[trigger] a[k][i] == b[k][i],
    decreases j,
{
    if j > 0 {
        lemma_same_list(a, b, freqs, k, j - 1);
        assert(a[k].len() == freqs[k] && valid_list(a[k]));
        assert(b[k].len() == freqs[k] && valid_list(b[k]));
        lemma_delta_at(a, freqs, k, j - 1, a.len() as int);
        lemma_delta_at(b, freqs, k, j - 1, b.len() as int);
        if j > 1 {
            assert(a[k][j - 2] <= a[k][j - 1]);
            assert(b[k][j - 2] <= b[k][j - 1]);
            assert(a[k][j - 2] == b[k][j - 2]);
        }
        assert(list_deltas(a[k])[j - 1] == list_deltas(b[k])[j - 1]);
        assert(a[k][j - 1] == b[k][j - 1]);
    }
}

} // verus!
