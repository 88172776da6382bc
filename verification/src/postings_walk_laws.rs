//! The documents and positions of a term are what going through them gives.

use crate::bytes::{byte_at, holds_at, lemma_holds_concat, vint_at, vlong_at};
use crate::doc_parse::{
    block_off, block_read_at, full_blocks, full_groups, group_off, group_read_at, lemma_block_holds, lemma_block_read, lemma_group_holds, lemma_group_read, lemma_step, lemma_tail_holds,
    packed_read_at,
};
use crate::doc_postings::{
    block_deltas, block_freqs, block_skip, doc_before, doc_bytes, lemma_doc_bound, lemma_doc_pair, lemma_valid_freqs, other_freqs, pos_before, tail_bytes, tail_value, valid_term_docs, TermDocs,
};
use crate::error::ErrorKind;
use crate::positions::{freq_sum, full_chunks, lemma_chunks_len, lemma_deltas_len, lemma_freq_sum, loose_deltas, position_deltas, position_index, positions_bytes, tail_offset, valid_list, valid_lists};
use crate::num::{spec_to_i64, spec_to_u64, spec_wrap_add};
use crate::position_parse::{lemma_chunk_read, lemma_chunks_grow, lemma_delta_at, lemma_loose_read, lemma_tail_place};
use crate::postings_ll::{for_delta_at, group_vints_at, law_group_vints_round_trip, law_pfor_skip_consumes_block, pfor_at, vint15_at, vlong15_at};
use crate::postings_read::{TermEntry, NO_MORE_DOCS};
use crate::postings_walk::{
    at_first_position, batch_walked, block_at, block_entered, block_head_at, block_loaded, block_reached, block_scanned, block_sought, block_taken, blocks_passed, blocks_skipped, delta_given,
    doc_advanced, doc_given, doc_stepped, first_not_below, freqs_between, group_head_at, group_pos_at, groups_passed, low_docs, low_words, no_doc, pending_more, plus,
    pos_skip_at, position_given, refilled, rest_passed, resynced, stream_skipped, summed, tail_at, tail_deltas, tail_freqs_at, tail_taken, vints_at, walk_freq, walk_remaining,
    walk_start, window, Block, StreamWalk, Walk,
};
use vstd::prelude::*;

verus! {

/// Where the positions stand behind the first `n` blocks.
pub open spec fn pos_after(t: TermDocs, n: int) -> (u64, u8) {
    if n <= 0 {
        (t.pos_start, 0)
    } else {
        t.pos_index[n - 1]
    }
}

/// Positions do not go back from block to block.
pub open spec fn pos_ascends(t: TermDocs) -> bool {
    &&& t.pos_index.len() >= full_blocks(t)
    &&& forall|i: int| 0 <= i < full_blocks(t) ==> t.pos_start <= (#[trigger] t.pos_index[i]).0 <= i64::MAX
    &&& forall|i: int, j: int| 0 <= i <= j < full_blocks(t) ==> (#[trigger] t.pos_index[i]).0 <= (#[trigger] t.pos_index[j]).0
}

/// How far the positions go is read as it should.
proof fn lemma_pos_step(s: Seq<u8>, p: int, t: TermDocs, from: int, b: int)
    requires
        pos_ascends(t),
        0 <= from <= b < full_blocks(t),
        holds_at(s, p, crate::doc_postings::pos_skip(t, from, b)),
    ensures
        crate::bytes::vlong_at(s, p) matches Ok((d, e)) && ({
            &&& d == t.pos_index[b].0 - pos_after(t, from).0
            &&& d >= 0
            &&& crate::bytes::byte_at(s, e) == Ok::<(u8, int), ErrorKind>((t.pos_index[b].1, e + 1))
            &&& e + 1 == p + crate::doc_postings::pos_skip(t, from, b).len()
        }),
{
    let d = t.pos_index[b].0 - pos_before(t, from);
    assert(t.pos_start <= t.pos_index[b].0 <= i64::MAX);
    if from > 0 {
        assert(t.pos_index[from - 1].0 <= t.pos_index[b].0);
    }
    let v = crate::bytes::vlong_of(d);
    lemma_holds_concat(s, p, v, seq![t.pos_index[b].1]);
    crate::bytes::law_vlong_round_trip(s, p, d as i64);
    crate::bytes::lemma_holds_byte(s, p + v.len(), t.pos_index[b].1);
}

/// The positions' part of a block's skip data is read as it should.
proof fn lemma_pos_skip(s: Seq<u8>, p: int, t: TermDocs, b: int)
    requires
        valid_term_docs(t),
        pos_ascends(t),
        t.has_freqs,
        t.has_positions,
        0 <= b < full_blocks(t),
        holds_at(s, p, block_skip(t, b)),
    ensures
        crate::bytes::vlong_at(s, p) matches Ok((n, q)) && ({
            &&& 0 <= q <= q + n <= s.len()
            &&& 0 <= n <= 5
            &&& crate::bytes::vlong_at(s, q + n) matches Ok((d, e)) && ({
                &&& d == t.pos_index[b].0 - pos_after(t, b).0
                &&& d >= 0
                &&& crate::bytes::byte_at(s, e) == Ok::<(u8, int), ErrorKind>((t.pos_index[b].1, e + 1))
                &&& e + 1 == p + block_skip(t, b).len()
            })
        }),
{
    reveal(block_skip);
    lemma_valid_freqs(t);
    let impacts = crate::doc_postings::range_impacts(t.freqs, 128 * b, 128 * b + 128);
    crate::doc_postings::lemma_range_impacts(t.freqs, 128 * b, 128 * b + 128);
    let a = crate::bytes::vlong_of(impacts.len() as int);
    let c = crate::doc_postings::pos_skip(t, b, b);
    lemma_holds_concat(s, p, a + impacts, c);
    lemma_holds_concat(s, p, a, impacts);
    crate::bytes::law_vlong_round_trip(s, p, impacts.len() as i64);
    lemma_pos_step(s, p + a.len() + impacts.len(), t, b, b);
}

proof fn lemma_other_prefix(freqs: Seq<u32>, from: int, i: int, n: int)
    requires
        from <= i <= n,
    ensures
        holds_at(other_freqs(freqs, from, n), 0, other_freqs(freqs, from, i)),
    decreases n - i,
{
    let s = other_freqs(freqs, from, n);
    let e = other_freqs(freqs, from, i);
    if i < n {
        lemma_other_prefix(freqs, from, i, n - 1);
        let d = other_freqs(freqs, from, n - 1);
        assert(s.subrange(0, e.len() as int) =~= d.subrange(0, e.len() as int));
    } else {
        assert(s.subrange(0, s.len() as int) =~= s);
    }
}

/// A frequency of the tail is read as it should.
pub(crate) proof fn lemma_other_freq(s: Seq<u8>, q: int, freqs: Seq<u32>, from: int, i: int, n: int)
    requires
        from <= i < n,
        holds_at(s, q, other_freqs(freqs, from, n)),
        freqs[i] <= 0x7FFF_FFFF,
    ensures
        freqs[i] != 1 ==> vint_at(s, q + other_freqs(freqs, from, i).len()) == Ok::<(i32, int), ErrorKind>((freqs[i] as i32, q + other_freqs(freqs, from, i + 1).len())),
        freqs[i] == 1 ==> other_freqs(freqs, from, i + 1).len() == other_freqs(freqs, from, i).len(),
{
    lemma_other_prefix(freqs, from, i + 1, n);
    let a = other_freqs(freqs, from, i);
    crate::doc_parse::lemma_holds_within(s, q, other_freqs(freqs, from, n), 0, other_freqs(freqs, from, i + 1));
    if freqs[i] != 1 {
        let v = crate::bytes::varint_bytes(freqs[i] as nat);
        lemma_holds_concat(s, q, a, v);
        crate::bytes::law_vint_round_trip(s, q + a.len(), freqs[i] as i32);
    }
}

/// What is read of the tail at `p`.
pub(crate) proof fn lemma_tail_read(s: Seq<u8>, p: int, t: TermDocs)
    requires
        valid_term_docs(t),
        holds_at(s, p, tail_bytes(t)),
    ensures
        ({
            let from = 128 * full_blocks(t);
            let left = t.docs.len() - from;
            group_vints_at(s, p, left as nat, Seq::empty()) matches Ok((v, q)) && ({
                &&& v == Seq::new(left as nat, |i: int| tail_value(t, from + i))
                &&& t.has_freqs ==> holds_at(s, q, other_freqs(t.freqs, from, t.docs.len() as int))
            })
        }),
{
    reveal(tail_bytes);
    let from = 128 * full_blocks(t);
    let left = t.docs.len() - from;
    let v = Seq::new(left as nat, |i: int| tail_value(t, from + i));
    let g = crate::postings_ll::group_vints_bytes(v);
    let rest = if t.has_freqs {
        other_freqs(t.freqs, from, t.docs.len() as int)
    } else {
        Seq::empty()
    };
    lemma_holds_concat(s, p, g, rest);
    law_group_vints_round_trip(s, p, v, Seq::empty());
    assert(Seq::<u32>::empty() + v =~= v);
}

/// The first place from `from` on where a document is not below `target`.
pub open spec fn first_from(docs: Seq<u32>, from: int, target: int) -> int
    decreases docs.len() - from,
{
    if from >= docs.len() || docs[from] >= target {
        from
    } else {
        first_from(docs, from + 1, target)
    }
}

/// Documents below the target can be passed over.
proof fn lemma_first_skip(t: TermDocs, from: int, to: int, target: int)
    requires
        valid_term_docs(t),
        0 <= from <= to <= t.docs.len(),
        doc_before(t.docs, to) < target,
    ensures
        first_from(t.docs, from, target) == first_from(t.docs, to, target),
    decreases to - from,
{
    if from < to {
        if from < to - 1 {
            lemma_doc_pair(t, from, to - 1);
        }
        lemma_first_skip(t, from + 1, to, target);
    }
}

proof fn lemma_first_bounds(docs: Seq<u32>, from: int, target: int)
    requires
        0 <= from <= docs.len(),
    ensures
        from <= first_from(docs, from, target) <= docs.len(),
        first_from(docs, from, target) < docs.len() ==> docs[first_from(docs, from, target)] >= target,
    decreases docs.len() - from,
{
    if from < docs.len() && docs[from] < target {
        lemma_first_bounds(docs, from + 1, target);
    }
}

/// Where the last full group ends is within the bytes.
proof fn lemma_off_bound(s: Seq<u8>, p: int, t: TermDocs)
    requires
        holds_at(s, p, doc_bytes(t)),
    ensures
        0 <= p + group_off(t, full_groups(t)) <= s.len(),
{
    let all = crate::doc_postings::groups_bytes(t, full_groups(t));
    let rest = crate::doc_postings::blocks_bytes(t, 32 * full_groups(t), full_blocks(t));
    lemma_holds_concat(s, p, all + rest, tail_bytes(t));
    lemma_holds_concat(s, p, all, rest);
}

/// The entry is that of term `t`, whose documents stand where it says.
pub open spec fn entry_term(doc: Seq<u8>, entry: TermEntry, has_freqs: bool, t: TermDocs) -> bool {
    &&& valid_term_docs(t)
    &&& t.docs.len() == entry.doc_freq
    &&& t.has_freqs == has_freqs
    &&& doc.len() <= i64::MAX
    &&& entry.doc_freq == 1 ==> entry.state.singleton_doc_id == t.docs[0] && (has_freqs ==> entry.total_term_freq == t.freqs[0])
    &&& entry.doc_freq > 1 ==> holds_at(doc, entry.state.doc_start_fp as int, doc_bytes(t))
}

/// An entry is that of one list of documents and frequencies at most.
pub proof fn law_entry_determined(doc: Seq<u8>, entry: TermEntry, has_freqs: bool, a: TermDocs, b: TermDocs)
    requires
        entry_term(doc, entry, has_freqs, a),
        entry_term(doc, entry, has_freqs, b),
    ensures
        a.docs == b.docs,
        has_freqs ==> a.freqs == b.freqs,
{
    if entry.doc_freq > 1 {
        crate::doc_unique::law_documents_determined(doc, entry.state.doc_start_fp as int, a, b);
    } else {
        assert(a.docs =~= b.docs);
        if has_freqs {
            lemma_valid_freqs(a);
            lemma_valid_freqs(b);
            assert(a.freqs =~= b.freqs);
        }
    }
}

/// The entry is that of term `t` with the positions `lists`, which stand where
/// it says.
pub open spec fn entry_positions(doc: Seq<u8>, pos: Seq<u8>, entry: TermEntry, t: TermDocs, lists: Seq<Seq<u32>>) -> bool {
    let d = position_deltas(lists, lists.len() as int);
    &&& entry_term(doc, entry, true, t)
    &&& t.has_positions
    &&& valid_lists(lists, t.freqs)
    &&& t.pos_start == entry.state.pos_start_fp
    &&& t.pos_index == position_index(d, t.freqs, t.pos_start)
    &&& holds_at(pos, t.pos_start as int, positions_bytes(d))
    &&& pos.len() <= i64::MAX
    &&& entry.total_term_freq == d.len()
    &&& d.len() > 128 ==> entry.state.last_pos_block_offset == tail_offset(d)
}

/// An entry is that of one term's positions at most.
pub proof fn law_entry_positions_determined(doc: Seq<u8>, pos: Seq<u8>, entry: TermEntry, a: TermDocs, x: Seq<Seq<u32>>, b: TermDocs, y: Seq<Seq<u32>>)
    requires
        entry_positions(doc, pos, entry, a, x),
        entry_positions(doc, pos, entry, b, y),
    ensures
        a.docs == b.docs,
        a.freqs == b.freqs,
        x == y,
{
    law_entry_determined(doc, entry, true, a, b);
    let d = position_deltas(x, x.len() as int);
    let e = position_deltas(y, y.len() as int);
    lemma_deltas_len(x, a.freqs, x.len() as int);
    lemma_deltas_len(y, b.freqs, y.len() as int);
    crate::position_parse::law_distances_determined(pos, a.pos_start as int, d, e);
    crate::position_parse::law_positions_determined(x, y, a.freqs);
}

/// The places of positions ascend.
proof fn lemma_places_ascend(pos: Seq<u8>, t: TermDocs, lists: Seq<Seq<u32>>)
    requires
        valid_term_docs(t),
        t.has_freqs,
        valid_lists(lists, t.freqs),
        ({
            let d = position_deltas(lists, lists.len() as int);
            &&& t.pos_index == position_index(d, t.freqs, t.pos_start)
            &&& holds_at(pos, t.pos_start as int, positions_bytes(d))
        }),
        pos.len() <= i64::MAX,
    ensures
        pos_ascends(t),
        forall|b: int| 0 <= b <= full_blocks(t) ==> #[trigger] pos_after(t, b) == place_after(t, lists, b),
{
    let d = position_deltas(lists, lists.len() as int);
    lemma_valid_freqs(t);
    lemma_deltas_len(lists, t.freqs, lists.len() as int);
    crate::position_parse::lemma_tail_place(pos, t.pos_start as int, d);
    assert forall|i: int| 0 <= i < full_blocks(t) implies t.pos_start <= (#[trigger] t.pos_index[i]).0 <= i64::MAX && t.pos_index[i] == place_after(t, lists, i + 1) && t.pos_index[i].0
        == t.pos_start + full_chunks(d, freq_sum(t.freqs, 128 * i + 128) as int / 128).len() by {
        lemma_freq_sum(t.freqs, 128 * i + 128, t.freqs.len() as int);
        lemma_chunks_len(d, freq_sum(t.freqs, 128 * i + 128) as int / 128, d.len() as int / 128);
        assert(t.pos_index[i] == crate::positions::block_position(d, t.freqs, t.pos_start, i));
    }
    assert forall|i: int, j: int| 0 <= i <= j < full_blocks(t) implies (#[trigger] t.pos_index[i]).0 <= (#[trigger] t.pos_index[j]).0 by {
        lemma_freq_sum(t.freqs, 128 * i + 128, 128 * j + 128);
        lemma_chunks_len(d, freq_sum(t.freqs, 128 * i + 128) as int / 128, freq_sum(t.freqs, 128 * j + 128) as int / 128);
        assert(t.pos_index[i] == place_after(t, lists, i + 1));
        assert(t.pos_index[j] == place_after(t, lists, j + 1));
    }
    assert forall|b: int| 0 <= b <= full_blocks(t) implies #[trigger] pos_after(t, b) == place_after(t, lists, b) by {
        if b == 0 {
            assert(full_chunks(d, 0) =~= Seq::<u8>::empty());
        } else {
            assert(t.pos_index[b - 1] == place_after(t, lists, b));
        }
    }
}

/// Where the positions stand behind the first `b` blocks: the block of
/// positions, and how many of it are used up.
pub open spec fn place_after(t: TermDocs, lists: Seq<Seq<u32>>, b: int) -> (u64, u8) {
    let d = position_deltas(lists, lists.len() as int);
    let sum = freq_sum(t.freqs, 128 * b);
    ((t.pos_start + full_chunks(d, sum as int / 128).len()) as u64, (sum % 128) as u8)
}

/// Documents in between have at least one position each.
proof fn lemma_sum_grows(t: TermDocs, a: int, b: int)
    requires
        valid_term_docs(t),
        t.has_freqs,
        0 <= a <= b <= t.docs.len(),
    ensures
        freq_sum(t.freqs, b) >= freq_sum(t.freqs, a) + (b - a),
    decreases b - a,
{
    lemma_valid_freqs(t);
    if a < b {
        lemma_sum_grows(t, a, b - 1);
        assert(t.freqs[b - 1] > 0);
    }
}

// ---------------------------------------------------------------------------
// What is read of a term's blocks
// ---------------------------------------------------------------------------

proof fn lemma_plus(a: int, d: int)
    requires
        -1 <= a <= 0x7FFF_FFFF,
        0 <= d <= 0x1_0000_0000,
    ensures
        plus(a as i64, d as u64) == a + d,
        a + d >= 0 ==> spec_wrap_add(d as u64, spec_to_u64(a as i64)) == a + d,
        a + d >= 0 ==> spec_to_u64((a + d) as i64) == a + d,
{
}

/// Documents are the sums of their distances.
proof fn lemma_summed(t: TermDocs, deltas: Seq<u64>, c: int, n: nat)
    requires
        valid_term_docs(t),
        0 <= c,
        c + n <= t.docs.len(),
        n <= deltas.len(),
        forall|i: int| 0 <= i < n ==> #[trigger] deltas[i] == t.docs[c + i] - doc_before(t.docs, c + i),
    ensures
        summed(deltas, n, spec_to_u64(doc_before(t.docs, c) as i64)) == Seq::new(n, |i: int| t.docs[c + i] as u64),
    decreases n,
{
    let base = spec_to_u64(doc_before(t.docs, c) as i64);
    let want = Seq::new(n, |i: int| t.docs[c + i] as u64);
    if n > 0 {
        lemma_summed(t, deltas, c, (n - 1) as nat);
        let before = summed(deltas, (n - 1) as nat, base);
        lemma_step(t, c + n - 1, c + n);
        assert(deltas[n - 1] == t.docs[c + n - 1] - doc_before(t.docs, c + n - 1));
        lemma_plus(doc_before(t.docs, c + n - 1), deltas[n - 1] as int);
        if n > 1 {
            lemma_doc_bound(t, c + n - 2);
            assert(before.last() == t.docs[c + n - 2] as u64);
        }
        assert(summed(deltas, n, base) =~= want);
    } else {
        assert(summed(deltas, n, base) =~= want);
    }
}

/// The documents from `c` on, as blocks hold them.
pub open spec fn docs_from(t: TermDocs, c: int, n: nat) -> Seq<u64> {
    Seq::new(n, |i: int| t.docs[c + i] as u64)
}

pub open spec fn freqs_from(t: TermDocs, c: int, n: nat) -> Seq<u32> {
    Seq::new(n, |i: int| t.freqs[c + i])
}

/// A full block is decoded.
proof fn lemma_block_decoded(s: Seq<u8>, p: int, t: TermDocs, b: int, end: int, decode_freqs: bool)
    requires
        valid_term_docs(t),
        0 <= b < full_blocks(t),
        packed_read_at(s, p, t, b, end),
    ensures
        block_at(s, p, spec_to_u64(doc_before(t.docs, 128 * b) as i64), t.has_freqs, decode_freqs) == Ok::<Block, ErrorKind>(
            (docs_from(t, 128 * b, 128), if t.has_freqs && decode_freqs { Some(freqs_from(t, 128 * b, 128)) } else { None }, end),
        ),
{
    reveal(block_at);
    let deltas = block_deltas(t.docs, b);
    assert forall|i: int| 0 <= i < 128 implies #[trigger] deltas[i] == t.docs[128 * b + i] - doc_before(t.docs, 128 * b + i) by {
        lemma_step(t, 128 * b + i, 128 * b + i + 1);
    }
    lemma_summed(t, deltas, 128 * b, 128);
    if t.has_freqs {
        lemma_valid_freqs(t);
        let v = block_freqs(t.freqs, b);
        assert forall|i: int| 0 <= i < 128 implies low_words(v)[i] == freqs_from(t, 128 * b, 128)[i] by {
            assert(t.freqs[128 * b + i] <= 0x7FFF_FFFF);
        }
        assert(low_words(v) =~= freqs_from(t, 128 * b, 128));
        let q = for_delta_at(s, p)->Ok_0.1;
        law_pfor_skip_consumes_block(s, q, ErrorKind::InvalidData);
    }
}

/// The first frequencies of the tail are read.
proof fn lemma_tail_freqs(s: Seq<u8>, q: int, t: TermDocs, n: int)
    requires
        valid_term_docs(t),
        t.has_freqs,
        0 <= n <= t.docs.len() - 128 * full_blocks(t),
        holds_at(s, q, other_freqs(t.freqs, 128 * full_blocks(t), t.docs.len() as int)),
    ensures
        ({
            let from = 128 * full_blocks(t);
            let values = Seq::new((t.docs.len() - from) as nat, |i: int| tail_value(t, from + i));
            tail_freqs_at(s, q, values, n) == Ok::<(Seq<u32>, int), ErrorKind>((freqs_from(t, from, n as nat), q + other_freqs(t.freqs, from, from + n).len()))
        }),
    decreases n,
{
    let from = 128 * full_blocks(t);
    let values = Seq::new((t.docs.len() - from) as nat, |i: int| tail_value(t, from + i));
    lemma_valid_freqs(t);
    if n > 0 {
        lemma_tail_freqs(s, q, t, n - 1);
        assert(0 < t.freqs[from + n - 1] <= 0x7FFF_FFFF);
        lemma_other_freq(s, q, t.freqs, from, from + n - 1, t.docs.len() as int);
        lemma_step(t, from + n - 1, from + n);
        assert(values[n - 1] == tail_value(t, from + n - 1));
        assert(freqs_from(t, from, n as nat) =~= freqs_from(t, from, (n - 1) as nat).push(t.freqs[from + n - 1]));
    } else {
        assert(freqs_from(t, from, 0) =~= Seq::empty());
    }
}

/// The tail is decoded.
proof fn lemma_tail_decoded(s: Seq<u8>, p: int, t: TermDocs, decode_freqs: bool)
    requires
        valid_term_docs(t),
        holds_at(s, p, tail_bytes(t)),
    ensures
        ({
            let from = 128 * full_blocks(t);
            let left = (t.docs.len() - from) as nat;
            tail_at(s, p, spec_to_u64(doc_before(t.docs, from) as i64), left, t.has_freqs, decode_freqs) matches Ok((docs, freqs, _)) && docs == docs_from(t, from, left) && freqs == (
            if t.has_freqs && decode_freqs {
                Some(freqs_from(t, from, left))
            } else {
                None
            })
        }),
{
    reveal(tail_at);
    let from = 128 * full_blocks(t);
    let left = (t.docs.len() - from) as nat;
    lemma_tail_read(s, p, t);
    let (values, q) = group_vints_at(s, p, left, Seq::empty())->Ok_0;
    let deltas = tail_deltas(values, t.has_freqs);
    assert forall|i: int| 0 <= i < left implies #[trigger] deltas[i] == t.docs[from + i] - doc_before(t.docs, from + i) by {
        lemma_step(t, from + i, from + i + 1);
        assert(values[i] == tail_value(t, from + i));
    }
    lemma_summed(t, deltas, from, left);
    if t.has_freqs {
        lemma_tail_freqs(s, q, t, left as int);
    }
}

/// The head of a block is read; behind it stands the packed data.
proof fn lemma_head_read(s: Seq<u8>, p: int, t: TermDocs, b: int)
    requires
        valid_term_docs(t),
        t.has_freqs,
        t.has_positions,
        pos_ascends(t),
        0 <= b < full_blocks(t),
        block_read_at(s, p, t, b),
        s.len() <= i64::MAX,
    ensures
        block_head_at(s, p, pos_after(t, b)) matches Ok((head, z)) && ({
            &&& head.delta == doc_before(t.docs, 128 * b + 128) - doc_before(t.docs, 128 * b)
            &&& head.at + head.total == p + crate::doc_postings::block_bytes(t, b).len()
            &&& head.pos == pos_after(t, b + 1)
            &&& packed_read_at(s, z, t, b, p + crate::doc_postings::block_bytes(t, b).len())
        }),
{
    reveal(block_head_at);
    reveal(pos_skip_at);
    let from = vlong_at(s, p)->Ok_0.1;
    let q = vint15_at(s, from)->Ok_0.1;
    let at = vlong15_at(s, q)->Ok_0.1;
    lemma_pos_skip(s, at, t, b);
    let d = t.pos_index[b].0 - pos_after(t, b).0;
    assert(spec_wrap_add(pos_after(t, b).0, spec_to_u64(d as i64)) == t.pos_index[b].0);
}

/// The head of a group is read; behind it stands its first block.
proof fn lemma_group_head_read(s: Seq<u8>, p: int, t: TermDocs, g: int, has_positions: bool, target: i64)
    requires
        valid_term_docs(t),
        0 <= g < full_groups(t),
        group_read_at(s, p, t, g),
        has_positions ==> t.has_positions && t.has_freqs && pos_ascends(t),
        p + crate::doc_postings::group_head(t, g).len() + crate::doc_postings::blocks_bytes(t, 32 * g, 32 * g + 32).len() <= s.len() <= i64::MAX,
    ensures
        group_head_at(s, p, doc_before(t.docs, 4096 * g) as i64, t.has_freqs, has_positions, if has_positions { pos_after(t, 32 * g) } else { (0, 0) }, target) matches Ok((head, z)) && ({
            &&& head.last == doc_before(t.docs, 4096 * g + 4096)
            &&& head.end_fp == p + crate::doc_postings::group_head(t, g).len() + crate::doc_postings::blocks_bytes(t, 32 * g, 32 * g + 32).len()
            &&& has_positions ==> head.pos == pos_after(t, 32 * g + 32)
            &&& !has_positions ==> head.pos == (0u64, 0u8)
            &&& has_positions || !t.has_freqs || head.last >= target ==> z == p + crate::doc_postings::group_head(t, g).len()
        }),
{
    reveal(group_head_at);
    reveal(group_pos_at);
    lemma_step(t, 4096 * g, 4096 * g + 4096);
    lemma_plus(doc_before(t.docs, 4096 * g), doc_before(t.docs, 4096 * g + 4096) - doc_before(t.docs, 4096 * g));
    if has_positions {
        lemma_valid_freqs(t);
        let impacts = crate::doc_postings::range_impacts(t.freqs, 4096 * g, 4096 * g + 4096);
        crate::doc_postings::lemma_range_impacts(t.freqs, 4096 * g, 4096 * g + 4096);
        let q = vint_at(s, p)->Ok_0.1;
        let at = vlong_at(s, q)->Ok_0.1;
        lemma_holds_concat(s, at + 4, impacts, crate::doc_postings::pos_skip(t, 32 * g, 32 * g + 31));
        lemma_pos_step(s, at + 4 + impacts.len(), t, 32 * g, 32 * g + 31);
        let d = t.pos_index[32 * g + 31].0 - pos_after(t, 32 * g).0;
        assert(spec_wrap_add(pos_after(t, 32 * g).0, spec_to_u64(d as i64)) == t.pos_index[32 * g + 31].0);
    }
}

// ---------------------------------------------------------------------------
// The stream of a term's positions
// ---------------------------------------------------------------------------

/// The tail's place, as a term's entry gives it.
pub open spec fn tail_place(d: Seq<u64>, start: u64) -> int {
    if d.len() < 128 {
        start as int
    } else if d.len() == 128 {
        -1
    } else {
        start + tail_offset(d)
    }
}

/// The stream is that of the distances `d`, which begin at `start`.
#[verifier::opaque]
pub open spec fn stream_of(x: StreamWalk, d: Seq<u64>, start: u64, total: u64) -> bool {
    &&& holds_at(x.s, start as int, positions_bytes(d))
    &&& x.s.len() <= i64::MAX
    &&& total == d.len()
    &&& forall|i: int| 0 <= i < d.len() ==> #[trigger] d[i] <= 0x7FFF_FFFF
    &&& x.tail_fp == tail_place(d, start)
    &&& x.buffer.len() == 128
}

/// The stream stands behind `c` distances, and full blocks of `d` are before
/// its input.
pub open spec fn stream_full(x: StreamWalk, d: Seq<u64>, start: u64, c: int) -> bool {
    let a = c + 128 - x.upto;
    &&& a % 128 == 0
    &&& 0 <= a <= d.len()
    &&& x.p == start + full_chunks(d, a / 128).len()
    &&& forall|i: int| x.upto <= i < 128 ==> #[trigger] x.buffer[i] == d[a - 128 + i]
}

/// The stream stands behind `c` distances, and its tail is being given.
pub open spec fn stream_tail(x: StreamWalk, d: Seq<u64>, c: int) -> bool {
    let n = d.len() as int / 128;
    &&& d.len() % 128 != 0
    &&& c == 128 * n + x.upto
    &&& c <= d.len()
    &&& forall|i: int| x.upto <= i < d.len() % 128 ==> #[trigger] x.buffer[i] == d[128 * n + i]
}

/// The stream stands behind `c` distances.
#[verifier::opaque]
pub open spec fn stream_at(x: StreamWalk, d: Seq<u64>, start: u64, c: int) -> bool {
    &&& 0 <= c
    &&& 0 <= x.upto <= 128
    &&& stream_full(x, d, start, c) || stream_tail(x, d, c)
}

/// The first `i` distances of the tail are read as they should.
proof fn lemma_tail_vints(s: Seq<u8>, p: int, d: Seq<u64>, i: int)
    requires
        holds_at(s, p, positions_bytes(d)),
        forall|k: int| 0 <= k < d.len() ==> #[trigger] d[k] <= 0x7FFF_FFFF,
        0 <= i <= d.len() % 128,
    ensures
        ({
            let n = d.len() as int / 128;
            let tail = p + full_chunks(d, n).len();
            vints_at(s, tail, i) == Ok::<(Seq<u32>, int), ErrorKind>((Seq::new(i as nat, |k: int| d[128 * n + k] as u32), tail + loose_deltas(d, 128 * n, 128 * n + i).len()))
        }),
    decreases i,
{
    let n = d.len() as int / 128;
    if i > 0 {
        lemma_tail_vints(s, p, d, i - 1);
        assert(d[128 * n + i - 1] <= 0x7FFF_FFFF);
        lemma_loose_read(s, p, d, 128 * n + i - 1);
        let before = Seq::new((i - 1) as nat, |k: int| d[128 * n + k] as u32);
        assert(Seq::new(i as nat, |k: int| d[128 * n + k] as u32) =~= before.push(d[128 * n + i - 1] as u32));
    } else {
        assert(loose_deltas(d, 128 * n, 128 * n) =~= Seq::<u8>::empty());
        assert(Seq::new(0, |k: int| d[128 * n + k] as u32) =~= Seq::<u32>::empty());
    }
}

spec fn upto_set(x: StreamWalk, r: int) -> StreamWalk {
    StreamWalk { upto: r, ..x }
}

/// The block behind `a` distances is read: it holds as many as are left of it.
proof fn lemma_refilled(x: StreamWalk, d: Seq<u64>, start: u64, total: u64, a: int)
    requires
        stream_of(x, d, start, total),
        a % 128 == 0,
        0 <= a < d.len(),
        x.p == start + full_chunks(d, a / 128).len(),
    ensures
        refilled(x, total) matches Ok(y) && ({
            &&& stream_of(y, d, start, total)
            &&& y.pending == x.pending && y.position == x.position
            &&& forall|r: int| 0 <= r <= 128 && a + r <= d.len() ==> stream_at(#[trigger] upto_set(y, r), d, start, a + r)
            &&& forall|i: int| 0 <= i < 128 && a + i < d.len() ==> #[trigger] y.buffer[i] == d[a + i]
        }),
{
    reveal(stream_of);
    reveal(stream_at);
    let n = d.len() as int / 128;
    let m = a / 128;
    lemma_tail_place(x.s, start as int, d);
    let y = refilled(x, total);
    if m < n {
        lemma_chunk_read(x.s, start as int, d, m);
        lemma_chunks_grow(d, m, n);
        let v = d.subrange(128 * m, 128 * m + 128);
        assert(y is Ok);
        let z = y->Ok_0;
        assert forall|i: int| 0 <= i < 128 implies #[trigger] z.buffer[i] == d[a + i] by {
            assert(v[i] == d[128 * m + i]);
            assert(d[128 * m + i] <= 0x7FFF_FFFF);
        }
        assert forall|r: int| 0 <= r <= 128 && a + r <= d.len() implies stream_at(#[trigger] upto_set(z, r), d, start, a + r) by {
            assert((a + 128) / 128 == m + 1);
            assert(stream_full(upto_set(z, r), d, start, a + r));
        }
    } else {
        assert(m == n);
        let count = d.len() as int % 128;
        lemma_tail_vints(x.s, start as int, d, count);
        if d.len() < 128 {
            assert(full_chunks(d, 0) =~= Seq::<u8>::empty());
        }
        assert(y is Ok);
        let z = y->Ok_0;
        assert forall|i: int| 0 <= i < 128 && a + i < d.len() implies #[trigger] z.buffer[i] == d[a + i] by {
            assert(d[a + i] <= 0x7FFF_FFFF);
        }
        assert forall|r: int| 0 <= r <= 128 && a + r <= d.len() implies stream_at(#[trigger] upto_set(z, r), d, start, a + r) by {
            assert(stream_tail(upto_set(z, r), d, a + r));
        }
    }
}

/// Blocks are passed over, and what is left in the next one.
proof fn lemma_blocks_skipped(x: StreamWalk, d: Seq<u64>, start: u64, total: u64, a: int, m: int)
    requires
        stream_of(x, d, start, total),
        a % 128 == 0,
        0 <= a,
        0 <= m,
        a + m < d.len(),
        x.p == start + full_chunks(d, a / 128).len(),
    ensures
        blocks_skipped(x, m, total) matches Ok(y) && stream_of(y, d, start, total) && stream_at(y, d, start, a + m) && y.pending == x.pending && y.position == x.position,
    decreases m,
{
    reveal(stream_of);
    reveal(stream_at);
    if m >= 128 {
        lemma_chunk_read(x.s, start as int, d, a / 128);
        law_pfor_skip_consumes_block(x.s, x.p, ErrorKind::InvalidData);
        let z = start + full_chunks(d, a / 128 + 1).len();
        assert((a + 128) / 128 == a / 128 + 1);
        lemma_blocks_skipped(StreamWalk { p: z, ..x }, d, start, total, a + 128, m - 128);
    } else {
        lemma_refilled(x, d, start, total, a);
        let y = refilled(x, total)->Ok_0;
        assert(stream_at(upto_set(y, m), d, start, a + m));
    }
}

/// Distances are passed over.
proof fn lemma_stream_skipped(x: StreamWalk, d: Seq<u64>, start: u64, total: u64, c: int, n: int)
    requires
        stream_of(x, d, start, total),
        stream_at(x, d, start, c),
        0 <= n,
        c + n < d.len(),
    ensures
        stream_skipped(x, n, total) matches Ok(y) && stream_of(y, d, start, total) && stream_at(y, d, start, c + n) && y.pending == x.pending && y.position == x.position,
{
    reveal(stream_of);
    reveal(stream_at);
    reveal(stream_skipped);
    let left = 128 - x.upto;
    if n < left {
        let y = StreamWalk { upto: x.upto + n, ..x };
        if stream_full(x, d, start, c) {
            assert(stream_full(y, d, start, c + n));
        } else {
            assert(stream_tail(y, d, c + n));
        }
    } else {
        assert(stream_full(x, d, start, c));
        lemma_blocks_skipped(x, d, start, total, c + left, n - left);
    }
}

/// The next distance is given.
proof fn lemma_delta_given(x: StreamWalk, d: Seq<u64>, start: u64, total: u64, c: int)
    requires
        stream_of(x, d, start, total),
        stream_at(x, d, start, c),
        c < d.len(),
    ensures
        delta_given(x, total) matches Ok((y, v)) && v == d[c] && stream_of(y, d, start, total) && stream_at(y, d, start, c + 1) && y.pending == x.pending && y.position == x.position,
{
    reveal(stream_of);
    reveal(stream_at);
    reveal(delta_given);
    if x.upto == 128 {
        assert(stream_full(x, d, start, c));
        lemma_refilled(x, d, start, total, c);
        let y = refilled(x, total)->Ok_0;
        assert(stream_at(upto_set(y, 1), d, start, c + 1));
        assert(y.buffer[0] == d[c + 0]);
    } else {
        let y = StreamWalk { upto: x.upto + 1, ..x };
        if stream_full(x, d, start, c) {
            assert(stream_full(y, d, start, c + 1));
        } else {
            assert(stream_tail(y, d, c + 1));
        }
    }
}

/// The distances of all positions.
pub open spec fn all_deltas(lists: Seq<Seq<u32>>) -> Seq<u64> {
    position_deltas(lists, lists.len() as int)
}

/// The positions that a walk goes through, if any, are those of the term.
pub open spec fn stream_follows(w: Walk, t: TermDocs, lists: Seq<Seq<u32>>) -> bool {
    w.stream matches Some(x) ==> {
        &&& w.decode_freqs
        &&& t.has_freqs
        &&& t.has_positions
        &&& pos_ascends(t)
        &&& valid_lists(lists, t.freqs)
        &&& stream_of(x, all_deltas(lists), t.pos_start, w.total_term_freq)
        &&& forall|b: int| 0 <= b <= full_blocks(t) ==> #[trigger] pos_after(t, b) == place_after(t, lists, b)
    }
}

/// The stream, if any, stands behind `c` distances, and `n` are given or to be
/// given.
pub open spec fn stream_counts(w: Walk, t: TermDocs, lists: Seq<Seq<u32>>, c: int, n: int) -> bool {
    w.stream matches Some(x) ==> stream_at(x, all_deltas(lists), t.pos_start, c) && 0 <= x.pending && c + x.pending == n
}

/// The stream, if any, stands behind `c` distances, a block of positions or
/// more before `n`.
pub open spec fn stream_behind(w: Walk, t: TermDocs, lists: Seq<Seq<u32>>, c: int, n: int) -> bool {
    w.stream matches Some(x) ==> stream_at(x, all_deltas(lists), t.pos_start, c) && c + 128 <= n
}

/// A walk with another stream.
spec fn with_stream(w: Walk, x: Option<StreamWalk>) -> Walk {
    Walk { stream: x, ..w }
}

/// The stream goes to the block of documents behind `at` of them, if that does
/// not lie behind.
proof fn lemma_resynced(w: Walk, t: TermDocs, lists: Seq<Seq<u32>>, c: int, at: int) -> (e: int)
    requires
        valid_term_docs(t),
        w.stream is Some,
        stream_follows(w, t, lists),
        at % 128 == 0,
        0 <= at <= t.docs.len(),
        w.next_pos == pos_after(t, at / 128),
        stream_counts(w, t, lists, c, freq_sum(t.freqs, at) as int) || stream_behind(w, t, lists, c, freq_sum(t.freqs, at) as int) || w.next_pos.0 >= w.stream->Some_0.p,
    ensures
        resynced(w) matches Ok(v) && v == with_stream(w, v.stream) && v.stream is Some && stream_follows(v, t, lists) && stream_counts(v, t, lists, e, freq_sum(t.freqs, at) as int),
        !stream_counts(w, t, lists, c, freq_sum(t.freqs, at) as int) ==> w.next_pos.0 >= w.stream->Some_0.p,
{
    reveal(stream_of);
    reveal(stream_at);
    let d = all_deltas(lists);
    let x = w.stream->Some_0;
    let sum = freq_sum(t.freqs, at) as int;
    let m = sum / 128;
    lemma_valid_freqs(t);
    lemma_freq_sum(t.freqs, at, t.freqs.len() as int);
    lemma_deltas_len(lists, t.freqs, lists.len() as int);
    lemma_tail_place(x.s, t.pos_start as int, d);
    lemma_chunks_len(d, m, d.len() as int / 128);
    assert(128 * (at / 128) == at);
    assert(pos_after(t, at / 128) == place_after(t, lists, at / 128));
    if w.next_pos.0 >= x.p {
        let y = StreamWalk { p: w.next_pos.0 as int, pending: w.next_pos.1 as int, upto: 128, ..x };
        assert(stream_full(y, d, t.pos_start, 128 * m));
        128 * m
    } else {
        if !stream_counts(w, t, lists, c, sum) {
            assert(c + 128 <= sum);
            assert(stream_full(x, d, t.pos_start, c));
            let a = c + 128 - x.upto;
            assert(a <= sum);
            assert(a / 128 <= m);
            lemma_chunks_len(d, a / 128, m);
            assert(false);
        }
        c
    }
}

// ---------------------------------------------------------------------------
// Blocks and groups of a term
// ---------------------------------------------------------------------------

/// The walk is over the documents of `t`, which begin at `start`.
#[verifier::opaque]
pub open spec fn walk_of(w: Walk, t: TermDocs, start: int) -> bool {
    &&& valid_term_docs(t)
    &&& t.docs.len() == w.doc_freq
    &&& t.has_freqs == w.has_freqs
    &&& w.s.len() <= i64::MAX
    &&& w.docs.len() == 129
    &&& w.docs[128] == no_doc()
    &&& w.freqs.len() == 128
    &&& w.doc_freq == 1 ==> w.singleton_doc_id == t.docs[0] && (w.has_freqs ==> w.total_term_freq == t.freqs[0])
    &&& w.doc_freq > 1 ==> holds_at(w.s, start, doc_bytes(t))
}

/// What the walk knows of the group is so.
pub open spec fn groups_follow(w: Walk, t: TermDocs, start: int) -> bool {
    if w.group_last == NO_MORE_DOCS {
        w.count >= 4096 * full_groups(t)
    } else {
        &&& full_groups(t) >= 1
        &&& w.group_last == doc_before(t.docs, w.group_count)
        &&& w.group_count % 4096 == 0
        &&& w.count <= w.group_count <= w.count + 4096
        &&& 0 <= w.group_count <= 4096 * full_groups(t)
        &&& w.group_end_fp == start + group_off(t, w.group_count / 4096)
        &&& w.group_pos == if w.stream is Some { pos_after(t, w.group_count / 128) } else { (0u64, 0u8) }
    }
}

/// Whether the next block is the first of a group that is not entered.
pub open spec fn at_boundary(w: Walk) -> bool {
    w.group_last != NO_MORE_DOCS && w.count == w.group_count
}

/// The next block is that behind `count` documents.
pub open spec fn before_block(w: Walk, t: TermDocs, start: int) -> bool {
    &&& walk_of(w, t, start)
    &&& groups_follow(w, t, start)
    &&& w.count % 128 == 0
    &&& 0 <= w.count <= w.doc_freq
    &&& w.last == doc_before(t.docs, w.count)
    &&& 1 < w.doc_freq && w.count < w.doc_freq && !at_boundary(w) ==> w.p == start + block_off(t, w.count / 128)
    &&& w.stream is Some ==> w.next_pos == pos_after(t, w.count / 128)
}

/// The block holds the documents from `c` on.
pub open spec fn block_held(w: Walk, t: TermDocs, c: int, n: int) -> bool {
    &&& forall|i: int| 0 <= i < n ==> #[trigger] w.docs[i] == t.docs[c + i]
    &&& w.has_freqs && w.decode_freqs ==> forall|i: int| 0 <= i < n ==> #[trigger] w.freqs[i] == t.freqs[c + i]
}

/// The block behind `c` documents, or the tail, is taken in.
pub open spec fn block_ready(w: Walk, t: TermDocs, start: int, c: int) -> bool {
    &&& walk_of(w, t, start)
    &&& if t.docs.len() - c >= 128 {
        &&& before_block(w, t, start)
        &&& w.count == c + 128
        &&& block_held(w, t, c, 128)
    } else {
        &&& w.count == w.doc_freq
        &&& w.last == NO_MORE_DOCS
        &&& block_held(w, t, c, t.docs.len() - c)
        &&& w.docs[t.docs.len() - c] == no_doc()
    }
}

/// The two differ in their place in the groups only.
spec fn same_block(v: Walk, w: Walk) -> bool {
    &&& v.docs == w.docs
    &&& v.freqs == w.freqs
    &&& v.upto == w.upto
    &&& v.doc == w.doc
    &&& v.stream == w.stream
    &&& v.total_term_freq == w.total_term_freq
    &&& v.has_freqs == w.has_freqs
    &&& v.decode_freqs == w.decode_freqs
    &&& v.doc_freq == w.doc_freq
}

/// Groups that end before the target are passed over.
proof fn lemma_groups_passed(w: Walk, t: TermDocs, start: int, target: i64)
    requires
        walk_of(w, t, start),
        groups_follow(w, t, start),
        w.group_last != NO_MORE_DOCS,
        w.group_last < target,
        w.stream is Some ==> t.has_positions && t.has_freqs && pos_ascends(t),
    ensures
        groups_passed(w, target) matches Ok(v) && ({
            &&& before_block(v, t, start)
            &&& same_block(v, w)
            &&& !at_boundary(v)
            &&& v.group_last == NO_MORE_DOCS || target <= v.group_last
            &&& v.last < target
            &&& v.count >= w.group_count
            &&& target == w.group_last + 1 ==> v.count == w.group_count
        }),
    decreases t.docs.len() - w.group_count,
{
    reveal_with_fuel(groups_passed, 1);
    reveal(walk_of);
    let g = w.group_count / 4096;
    let has_positions = w.stream is Some;
    assert(4096 * g == w.group_count);
    lemma_off_bound(w.s, start, t);
    assert(w.group_count / 128 == 32 * g);
    if g < full_groups(t) {
        lemma_group_holds(w.s, start, t, g);
        lemma_group_read(w.s, start + group_off(t, g), t, g);
        lemma_group_head_read(w.s, start + group_off(t, g), t, g, has_positions, target);
        lemma_step(t, 4096 * g, 4096 * g + 4096);
        let v = Walk {
            p: w.group_end_fp as int,
            prev: w.group_last,
            last: w.group_last,
            next_pos: if w.stream is Some { w.group_pos } else { w.next_pos },
            count: w.group_count,
            group_count: w.group_count + 4096,
            ..w
        };
        let (head, z) = group_head_at(v.s, v.p, v.group_last, v.has_freqs, has_positions, v.group_pos, target)->Ok_0;
        let u = Walk { p: z, group_last: head.last, group_end_fp: head.end_fp, group_pos: head.pos, ..v };
        assert((w.group_count + 4096) / 4096 == g + 1);
        assert((w.group_count + 4096) / 128 == 32 * g + 32);
        assert(walk_of(u, t, start));
        assert(groups_follow(u, t, start));
        if head.last < target {
            lemma_groups_passed(u, t, start, target);
        }
    } else {
        assert(crate::doc_postings::blocks_bytes(t, 32 * full_groups(t), 32 * full_groups(t)) =~= Seq::<u8>::empty());
        assert(block_off(t, 32 * g) == group_off(t, g));
    }
}

/// Behind a block stands the next one, unless that begins a group.
proof fn lemma_behind_block(w: Walk, t: TermDocs, start: int, b: int)
    requires
        walk_of(w, t, start),
        groups_follow(w, t, start),
        w.count == 128 * b,
        0 <= b < full_blocks(t),
        !at_boundary(w),
    ensures
        ({
            let v = Walk { count: 128 * b + 128, ..w };
            groups_follow(v, t, start) && (!at_boundary(v) && v.count < v.doc_freq ==> block_off(t, b + 1) == block_off(t, b) + crate::doc_postings::block_bytes(t, b).len())
        }),
{
    reveal(walk_of);
    lemma_block_holds(w.s, start, t, b);
}

/// A full block is taken in.
proof fn lemma_block_taken(w: Walk, t: TermDocs, start: int)
    requires
        walk_of(w, t, start),
        groups_follow(w, t, start),
        !at_boundary(w),
        w.count % 128 == 0,
        0 <= w.count,
        t.docs.len() - w.count >= 128,
        w.prev == doc_before(t.docs, w.count),
        packed_read_at(w.s, w.p, t, w.count / 128, start + block_off(t, w.count / 128) + crate::doc_postings::block_bytes(t, w.count / 128).len()),
    ensures
        block_taken(w) matches Ok(v) && ({
            let b = w.count / 128;
            &&& walk_of(v, t, start)
            &&& groups_follow(v, t, start)
            &&& v.count == w.count + 128
            &&& !at_boundary(v) && v.count < v.doc_freq ==> v.p == start + block_off(t, v.count / 128)
            &&& block_held(v, t, w.count, 128)
            &&& v.docs[127] == doc_before(t.docs, w.count + 128)
            &&& v.upto == 0
            &&& v == (Walk { p: v.p, docs: v.docs, freqs: v.freqs, upto: 0, prev: v.prev, count: v.count, ..w })
        }),
{
    reveal(walk_of);
    let b = w.count / 128;
    assert(128 * b == w.count);
    lemma_block_decoded(w.s, w.p, t, b, start + block_off(t, b) + crate::doc_postings::block_bytes(t, b).len(), w.decode_freqs);
    lemma_behind_block(w, t, start, b);
    assert((w.count + 128) / 128 == b + 1);
    let docs = docs_from(t, 128 * b, 128);
    assert(docs[127] == t.docs[128 * b + 127]);
    let v = block_taken(w)->Ok_0;
    assert forall|i: int| 0 <= i < 128 implies #[trigger] v.docs[i] == t.docs[w.count + i] by {
        assert(docs[i] == t.docs[128 * b + i]);
    }
}

/// The tail is taken in.
proof fn lemma_tail_taken(w: Walk, t: TermDocs, start: int)
    requires
        walk_of(w, t, start),
        w.count % 128 == 0,
        0 <= w.count <= t.docs.len() < w.count + 128,
        w.prev == doc_before(t.docs, w.count),
        w.last == NO_MORE_DOCS,
        1 < w.doc_freq && w.count < w.doc_freq ==> w.p == start + block_off(t, w.count / 128),
    ensures
        tail_taken(w) matches Ok(v) && block_ready(v, t, start, w.count) && v.upto == 0 && v == (Walk { p: v.p, docs: v.docs, freqs: v.freqs, upto: 0, count: v.count, ..w }),
{
    reveal(walk_of);
    let left = t.docs.len() - w.count;
    assert(w.count == 128 * full_blocks(t));
    if w.doc_freq == 1 {
        lemma_doc_bound(t, 0);
        if t.has_freqs {
            lemma_valid_freqs(t);
            assert(t.freqs[0] <= 0x7FFF_FFFF);
        }
    } else if left > 0 {
        lemma_tail_holds(w.s, start, t);
        lemma_tail_decoded(w.s, w.p, t, w.decode_freqs);
        let (docs, freqs, z) = tail_at(w.s, w.p, spec_to_u64(w.prev), left as nat, w.has_freqs, w.decode_freqs)->Ok_0;
        let v = tail_taken(w)->Ok_0;
        assert forall|i: int| 0 <= i < left implies #[trigger] v.docs[i] == t.docs[w.count + i] by {
            assert(docs.push(no_doc())[i] == docs[i]);
            assert(docs[i] == docs_from(t, w.count, left as nat)[i]);
        }
        assert(docs.push(no_doc())[left] == no_doc());
        if w.has_freqs && w.decode_freqs {
            assert forall|i: int| 0 <= i < left implies #[trigger] v.freqs[i] == t.freqs[w.count + i] by {
                assert(freqs->Some_0[i] == freqs_from(t, w.count, left as nat)[i]);
            }
        }
    } else {
        reveal(tail_at);
        reveal_with_fuel(group_vints_at, 2);
        let (docs, freqs, z) = tail_at(w.s, w.p, spec_to_u64(w.prev), 0, w.has_freqs, w.decode_freqs)->Ok_0;
        assert(docs.push(no_doc())[0] == no_doc());
    }
}

/// The head of the next block is read, or passed over; then its packed data
/// comes.
proof fn lemma_block_entered(w: Walk, t: TermDocs, start: int)
    requires
        before_block(w, t, start),
        !at_boundary(w),
        t.docs.len() - w.count >= 128,
        w.stream is Some ==> t.has_positions && t.has_freqs && pos_ascends(t),
    ensures
        block_entered(w) matches Ok(v) && ({
            let b = w.count / 128;
            &&& v == (Walk { p: v.p, last: v.last, next_pos: v.next_pos, ..w })
            &&& packed_read_at(v.s, v.p, t, b, start + block_off(t, b) + crate::doc_postings::block_bytes(t, b).len())
            &&& w.stream is Some ==> v.last == doc_before(t.docs, w.count + 128) && v.next_pos == pos_after(t, b + 1)
            &&& w.stream is None ==> v.last == w.last
        }),
{
    reveal(walk_of);
    let b = w.count / 128;
    assert(128 * b == w.count);
    lemma_block_holds(w.s, start, t, b);
    lemma_block_read(w.s, start + block_off(t, b), t, b);
    lemma_step(t, 128 * b, 128 * b + 128);
    if w.stream is Some {
        lemma_head_read(w.s, w.p, t, b);
        lemma_plus(doc_before(t.docs, 128 * b), doc_before(t.docs, 128 * b + 128) - doc_before(t.docs, 128 * b));
    }
}

/// The block behind the one that is being given is taken in.
proof fn lemma_block_loaded(w: Walk, t: TermDocs, start: int, lists: Seq<Seq<u32>>, c: int) -> (e: int)
    requires
        before_block(w, t, start),
        w.doc == w.last,
        stream_follows(w, t, lists),
        stream_counts(w, t, lists, c, freq_sum(t.freqs, w.count) as int),
    ensures
        block_loaded(w) matches Ok(v) && ({
            &&& block_ready(v, t, start, w.count)
            &&& v.upto == 0
            &&& v.doc == w.doc
            &&& stream_follows(v, t, lists)
            &&& stream_counts(v, t, lists, e, freq_sum(t.freqs, w.count) as int)
            &&& (v.stream is Some) == (w.stream is Some)
            &&& v.decode_freqs == w.decode_freqs
        }),
{
    reveal(block_loaded);
    reveal(walk_of);
    let n = w.count;
    let last = doc_before(t.docs, n);
    if n > 0 {
        lemma_doc_bound(t, n - 1);
    }
    if w.group_last != NO_MORE_DOCS {
        if n < w.group_count {
            lemma_step(t, n, w.group_count);
        }
        if w.group_count > 0 {
            lemma_doc_bound(t, w.group_count - 1);
        }
        if n == w.group_count {
            lemma_plus(last, 1);
            lemma_groups_passed(w, t, start, (last + 1) as i64);
        }
    }
    let grouped = if w.doc == w.group_last { groups_passed(w, plus(w.doc, 1)) } else { Ok(w) };
    let g = grouped->Ok_0;
    assert(grouped is Ok && before_block(g, t, start) && !at_boundary(g) && g.count == n && same_block(g, w));
    let h = Walk { prev: g.last, ..g };
    let mut e = c;
    if w.stream is Some {
        e = lemma_resynced(h, t, lists, c, n);
    }
    let v = resynced(h)->Ok_0;
    assert(v == with_stream(h, v.stream));
    assert(before_block(v, t, start) && !at_boundary(v));
    if t.docs.len() - n >= 128 {
        lemma_block_entered(v, t, start);
        let u = block_entered(v)->Ok_0;
        assert(walk_of(u, t, start) && groups_follow(u, t, start) && !at_boundary(u));
        lemma_block_taken(u, t, start);
        let x = block_taken(u)->Ok_0;
        assert((n + 128) / 128 == n / 128 + 1);
        lemma_doc_bound(t, n + 127);
        let y = if x.stream is Some { x } else { Walk { last: spec_to_i64(x.docs[127]), ..x } };
        assert(before_block(y, t, start));
        assert(block_held(y, t, n, 128));
    } else {
        let u = Walk { last: NO_MORE_DOCS as i64, ..v };
        assert(walk_of(u, t, start));
        lemma_tail_taken(u, t, start);
    }
    e
}

// ---------------------------------------------------------------------------
// Seeking a block
// ---------------------------------------------------------------------------

/// Before the packed data of a block that reaches `target`, or before the tail.
spec fn before_packed(w: Walk, t: TermDocs, start: int, target: i64) -> bool {
    let b = w.count / 128;
    &&& walk_of(w, t, start)
    &&& w.count % 128 == 0
    &&& 0 <= w.count <= t.docs.len()
    &&& w.prev == doc_before(t.docs, w.count)
    &&& w.prev < target
    &&& if t.docs.len() - w.count >= 128 {
        &&& groups_follow(w, t, start)
        &&& !at_boundary(w)
        &&& packed_read_at(w.s, w.p, t, b, start + block_off(t, b) + crate::doc_postings::block_bytes(t, b).len())
        &&& w.last == doc_before(t.docs, w.count + 128)
        &&& target <= w.last
        &&& w.stream is Some ==> w.next_pos == pos_after(t, b + 1)
    } else {
        &&& w.last == NO_MORE_DOCS
        &&& 1 < w.doc_freq && w.count < w.doc_freq ==> w.p == start + block_off(t, b)
    }
}

/// What is read of the head of the next block to see whether it reaches
/// `target`.
proof fn lemma_reach_read(w: Walk, t: TermDocs, start: int, target: i64)
    requires
        before_block(w, t, start),
        !at_boundary(w),
        t.docs.len() - w.count >= 128,
        w.stream is Some ==> t.has_positions && t.has_freqs && pos_ascends(t),
    ensures
        block_reached(w, target) matches Ok((v, reached)) && ({
            let b = w.count / 128;
            let end = start + block_off(t, b) + crate::doc_postings::block_bytes(t, b).len();
            let last = doc_before(t.docs, w.count + 128);
            let next = if w.stream is Some { pos_after(t, b + 1) } else { w.next_pos };
            &&& reached == (target <= last)
            &&& reached ==> v == (Walk { p: v.p, last: last as i64, next_pos: next, ..w }) && packed_read_at(w.s, v.p, t, b, end)
            &&& !reached ==> v == (Walk { p: end, last: last as i64, next_pos: next, count: w.count + 128, ..w })
        }),
{
    reveal(walk_of);
    let b = w.count / 128;
    assert(128 * b == w.count);
    lemma_block_holds(w.s, start, t, b);
    lemma_block_read(w.s, start + block_off(t, b), t, b);
    lemma_step(t, 128 * b, 128 * b + 128);
    let delta = doc_before(t.docs, 128 * b + 128) - doc_before(t.docs, 128 * b);
    lemma_plus(doc_before(t.docs, 128 * b), delta);
    if w.stream is Some {
        lemma_head_read(w.s, w.p, t, b);
    }
}

/// The next block is passed over, or reached.
proof fn lemma_block_reached(w: Walk, t: TermDocs, start: int, target: i64)
    requires
        before_block(w, t, start),
        !at_boundary(w),
        w.group_last == NO_MORE_DOCS || target <= w.group_last,
        w.prev == w.last,
        w.last < target,
        t.docs.len() - w.count >= 128,
        w.stream is Some ==> t.has_positions && t.has_freqs && pos_ascends(t),
    ensures
        block_reached(w, target) matches Ok((v, reached)) && ({
            &&& v == (Walk { p: v.p, last: v.last, next_pos: v.next_pos, count: v.count, ..w })
            &&& reached ==> v.count == w.count && before_packed(v, t, start, target)
            &&& !reached ==> v.count == w.count + 128 && before_block(v, t, start) && !at_boundary(v) && v.last < target
        }),
{
    lemma_reach_read(w, t, start, target);
    let b = w.count / 128;
    assert(128 * b == w.count);
    let (v, reached) = block_reached(w, target)->Ok_0;
    assert(walk_of(v, t, start) && w.doc_freq == t.docs.len()) by {
        reveal(walk_of);
    }
    if !reached {
        lemma_behind_block(w, t, start, b);
        assert((w.count + 128) / 128 == b + 1);
        if at_boundary(v) {
            assert(w.group_last == doc_before(t.docs, w.count + 128));
            assert(false);
        }
    }
}

/// What is to be given does not change where a stream stands.
proof fn lemma_stands(x: StreamWalk, y: StreamWalk, d: Seq<u64>, start: u64, total: u64, e: int)
    requires
        y == (StreamWalk { pending: y.pending, position: y.position, ..x }),
    ensures
        stream_of(x, d, start, total) ==> stream_of(y, d, start, total),
        stream_at(x, d, start, e) ==> stream_at(y, d, start, e),
{
    reveal(stream_of);
    reveal(stream_at);
    if stream_full(x, d, start, e) {
        assert(stream_full(y, d, start, e));
    }
    if stream_tail(x, d, e) {
        assert(stream_tail(y, d, e));
    }
}

/// The positions of what is left of the block are counted, or passed over.
proof fn lemma_rest_passed(w: Walk, t: TermDocs, start: int, lists: Seq<Seq<u32>>, e: int) -> (f: int)
    requires
        walk_of(w, t, start),
        stream_follows(w, t, lists),
        w.count % 128 == 0,
        0 <= w.count <= t.docs.len(),
        w.stream is Some ==> w.next_pos == pos_after(t, w.count / 128),
        stream_counts(w, t, lists, e, freq_sum(t.freqs, w.count) - freqs_between(w.freqs, w.upto, 128)) || stream_behind(w, t, lists, e, freq_sum(t.freqs, w.count) as int),
    ensures
        rest_passed(w) matches Ok(v) && v == with_stream(w, v.stream) && (v.stream is Some) == (w.stream is Some) && stream_follows(v, t, lists) && stream_counts(
            v,
            t,
            lists,
            f,
            freq_sum(t.freqs, w.count) as int,
        ),
{
    reveal(stream_of);
    reveal(stream_at);
    reveal(walk_of);
    let sum = freq_sum(t.freqs, w.count) as int;
    match w.stream {
        Some(x) => {
            lemma_valid_freqs(t);
            lemma_freq_sum(t.freqs, w.count, t.freqs.len() as int);
            lemma_deltas_len(lists, t.freqs, lists.len() as int);
            if w.next_pos.0 >= x.p {
                lemma_resynced(w, t, lists, e, w.count)
            } else {
                if !stream_counts(w, t, lists, e, sum - freqs_between(w.freqs, w.upto, 128)) {
                    let r = lemma_resynced(w, t, lists, e, w.count);
                    assert(e + x.pending == sum);
                    lemma_behind_is_ahead(w, t, lists, e);
                    assert(false);
                }
                let n = freqs_between(w.freqs, w.upto, 128);
                lemma_between_positive(w.freqs, w.upto, 128);
                let y = StreamWalk { pending: x.pending + n, ..x };
                lemma_stands(x, y, all_deltas(lists), t.pos_start, w.total_term_freq, e);
                assert(rest_passed(w) == Ok::<Walk, ErrorKind>(with_stream(w, Some(y))));
                e
            }
        },
        None => 0,
    }
}

/// A stream that is a block or more behind the next documents has not passed
/// the place of their positions.
proof fn lemma_behind_is_ahead(w: Walk, t: TermDocs, lists: Seq<Seq<u32>>, e: int)
    requires
        valid_term_docs(t),
        w.stream is Some,
        stream_follows(w, t, lists),
        w.count % 128 == 0,
        0 <= w.count <= t.docs.len(),
        w.next_pos == pos_after(t, w.count / 128),
        stream_behind(w, t, lists, e, freq_sum(t.freqs, w.count) as int),
    ensures
        w.next_pos.0 >= w.stream->Some_0.p,
{
    reveal(stream_of);
    reveal(stream_at);
    let x = w.stream->Some_0;
    let y = StreamWalk { pending: x.pending + 1, ..x };
    let v = Walk { stream: Some(y), ..w };
    if e + x.pending == freq_sum(t.freqs, w.count) {
        let r = lemma_resynced(v, t, lists, e, w.count);
    } else {
        let r = lemma_resynced(w, t, lists, e, w.count);
    }
}

/// Blocks that end before the target are passed over.
proof fn lemma_blocks_passed(w: Walk, t: TermDocs, start: int, lists: Seq<Seq<u32>>, target: i64, e: int) -> (f: int)
    requires
        before_block(w, t, start),
        !at_boundary(w),
        w.group_last == NO_MORE_DOCS || target <= w.group_last,
        w.last < target,
        stream_follows(w, t, lists),
        stream_counts(w, t, lists, e, freq_sum(t.freqs, w.count) - freqs_between(w.freqs, w.upto, 128)) || stream_behind(w, t, lists, e, freq_sum(t.freqs, w.count) as int),
    ensures
        blocks_passed(w, target) matches Ok(v) && ({
            &&& before_packed(v, t, start, target)
            &&& v.count >= w.count
            &&& v.doc == w.doc && v.decode_freqs == w.decode_freqs
            &&& (v.stream is Some) == (w.stream is Some)
            &&& stream_follows(v, t, lists)
            &&& stream_counts(v, t, lists, f, freq_sum(t.freqs, v.count) as int)
        }),
    decreases t.docs.len() - w.count,
{
    reveal_with_fuel(blocks_passed, 1);
    let n = w.count;
    let h = Walk { prev: w.last, ..w };
    assert(walk_of(h, t, start) && w.doc_freq == t.docs.len()) by {
        reveal(walk_of);
    }
    let f = lemma_rest_passed(h, t, start, lists, e);
    let v = rest_passed(h)->Ok_0;
    assert(walk_of(v, t, start) && w.doc_freq == t.docs.len()) by {
        reveal(walk_of);
    }
    assert(before_block(v, t, start));
    if t.docs.len() - n >= 128 {
        lemma_block_reached(v, t, start, target);
        let (u, reached) = block_reached(v, target)->Ok_0;
        if reached {
            f
        } else {
            assert(valid_term_docs(t)) by {
                reveal(walk_of);
            }
            if u.stream is Some {
                lemma_sum_grows(t, n, n + 128);
                assert(stream_behind(u, t, lists, f, freq_sum(t.freqs, u.count) as int));
            }
            lemma_blocks_passed(u, t, start, lists, target, f)
        }
    } else {
        assert(walk_of(Walk { last: NO_MORE_DOCS as i64, ..v }, t, start)) by {
            reveal(walk_of);
        }
        f
    }
}

/// The rest of a block's frequencies.
proof fn lemma_freqs_between(w: Walk, t: TermDocs, c: int, from: int, to: int)
    requires
        block_held(w, t, c, to),
        w.has_freqs && w.decode_freqs,
        0 <= c,
        0 <= from <= to,
        c + to <= t.freqs.len(),
    ensures
        freqs_between(w.freqs, from, to) == freq_sum(t.freqs, c + to) - freq_sum(t.freqs, c + from),
    decreases to - from,
{
    if from < to {
        lemma_freqs_between(w, t, c, from, to - 1);
        assert(w.freqs[to - 1] == t.freqs[c + to - 1]);
    }
}

/// The block that may hold the target is taken in. Gives how many documents lie
/// before it, and how far the stream is.
proof fn lemma_block_sought(w: Walk, t: TermDocs, start: int, lists: Seq<Seq<u32>>, k: int, target: i64, e: int) -> (r: (int, int))
    requires
        before_block(w, t, start),
        w.last < target <= NO_MORE_DOCS,
        0 <= k <= w.count,
        k == 0 && w.count == 0 && w.upto == 128 || w.count >= 128 && w.count - 128 <= k && w.upto == k - (w.count - 128) && block_held(w, t, w.count - 128, 128),
        stream_follows(w, t, lists),
        stream_counts(w, t, lists, e, freq_sum(t.freqs, k) as int),
    ensures
        block_sought(w, target) matches Ok(v) && ({
            &&& block_ready(v, t, start, r.0)
            &&& v.upto == 0
            &&& v.doc == w.doc && v.decode_freqs == w.decode_freqs
            &&& r.0 % 128 == 0
            &&& w.count <= r.0 <= t.docs.len()
            &&& doc_before(t.docs, r.0) < target
            &&& v.last == NO_MORE_DOCS || target <= v.last
            &&& (v.stream is Some) == (w.stream is Some)
            &&& stream_follows(v, t, lists)
            &&& stream_counts(v, t, lists, r.1, freq_sum(t.freqs, r.0) as int)
        }),
{
    reveal(block_sought);
    reveal(walk_of);
    let grouped = if target > w.group_last { groups_passed(w, target) } else { Ok(w) };
    if target > w.group_last {
        lemma_groups_passed(w, t, start, target);
    } else if at_boundary(w) {
        assert(w.group_last == w.last);
        assert(false);
    }
    let g = grouped->Ok_0;
    assert(grouped is Ok && before_block(g, t, start) && !at_boundary(g) && same_block(g, w));
    if w.stream is Some {
        lemma_valid_freqs(t);
        lemma_freq_sum(t.freqs, k, w.count);
        if w.count >= 128 {
            lemma_freqs_between(w, t, w.count - 128, w.upto, 128);
        }
        if g.count > w.count {
            lemma_sum_grows(t, w.count, g.count);
            assert(g.count - w.count >= 128);
            assert(stream_behind(g, t, lists, e, freq_sum(t.freqs, g.count) as int));
        }
    }
    let f = lemma_blocks_passed(g, t, start, lists, target, e);
    let v = blocks_passed(g, target)->Ok_0;
    if t.docs.len() - v.count >= 128 {
        lemma_block_taken(v, t, start);
        let u = block_taken(v)->Ok_0;
        assert((v.count + 128) / 128 == v.count / 128 + 1);
        assert(before_block(u, t, start));
    } else {
        lemma_tail_taken(v, t, start);
    }
    (v.count, f)
}

// ---------------------------------------------------------------------------
// Going through a term
// ---------------------------------------------------------------------------

/// The position that was given last is that of the current document.
pub open spec fn position_follows(w: Walk, t: TermDocs, lists: Seq<Seq<u32>>, k: int) -> bool {
    w.stream matches Some(x) ==> (k > 0 ==> x.position == if x.pending >= t.freqs[k - 1] {
        0
    } else {
        lists[k - 1][t.freqs[k - 1] - x.pending - 1] as int
    })
}

/// `k` documents of the term were given, and none behind them.
pub open spec fn docs_follow(w: Walk, t: TermDocs, start: int, k: int) -> bool {
    if w.doc == NO_MORE_DOCS {
        walk_of(w, t, start) && k == t.docs.len()
    } else if k == 0 {
        before_block(w, t, start) && w.count == 0 && w.upto == 128 && w.doc == -1
    } else {
        let c = 128 * ((k - 1) / 128);
        &&& 0 < k <= t.docs.len()
        &&& w.doc == t.docs[k - 1]
        &&& w.upto == k - c
        &&& block_ready(w, t, start, c)
    }
}

/// The walk has given `k` documents of the term `t`, whose bytes begin at
/// `start` and whose positions are `lists`, where they are asked for.
#[verifier::opaque]
pub open spec fn follows(w: Walk, t: TermDocs, start: int, lists: Seq<Seq<u32>>, k: int) -> bool {
    &&& docs_follow(w, t, start, k)
    &&& stream_follows(w, t, lists)
    &&& w.doc != NO_MORE_DOCS ==> position_follows(w, t, lists, k) && exists|e: int| #[trigger] stream_counts(w, t, lists, e, freq_sum(t.freqs, k) as int)
}

/// What the next document adds to the stream.
proof fn lemma_pending(w: Walk, t: TermDocs, start: int, lists: Seq<Seq<u32>>, k: int, j: int, e: int, n: int)
    requires
        walk_of(w, t, start),
        stream_follows(w, t, lists),
        0 <= k < j <= t.docs.len(),
        stream_counts(w, t, lists, e, freq_sum(t.freqs, k) as int),
        w.stream is Some ==> n == freq_sum(t.freqs, j) - freq_sum(t.freqs, k),
        w.stream is None ==> n >= 0,
    ensures
        ({
            let v = at_first_position(pending_more(w, n));
            &&& v == with_stream(w, v.stream)
            &&& stream_follows(v, t, lists)
            &&& stream_counts(v, t, lists, e, freq_sum(t.freqs, j) as int)
            &&& position_follows(v, t, lists, j)
        }),
{
    reveal(stream_of);
    reveal(stream_at);
    reveal(walk_of);
    if let Some(x) = w.stream {
        lemma_valid_freqs(t);
        lemma_freq_sum(t.freqs, j, t.freqs.len() as int);
        lemma_freq_sum(t.freqs, k, j - 1);
        lemma_deltas_len(lists, t.freqs, lists.len() as int);
        assert(0 < t.freqs[j - 1]);
        assert(freq_sum(t.freqs, j) == freq_sum(t.freqs, j - 1) + t.freqs[j - 1]);
        let y = StreamWalk { pending: x.pending + n, position: 0, ..x };
        lemma_stands(x, y, all_deltas(lists), t.pos_start, w.total_term_freq, e);
        let v = at_first_position(pending_more(w, n));
        assert(v.stream == Some(y));
        assert(e <= freq_sum(t.freqs, k));
    }
}

/// The document at the place in the block is given.
proof fn lemma_stepped(w: Walk, t: TermDocs, start: int, lists: Seq<Seq<u32>>, c: int, k: int, e: int)
    requires
        block_ready(w, t, start, c),
        c % 128 == 0,
        0 <= c <= k <= t.docs.len(),
        k < c + 128,
        w.upto == k - c,
        stream_follows(w, t, lists),
        stream_counts(w, t, lists, e, freq_sum(t.freqs, k) as int),
    ensures
        k < t.docs.len() ==> follows(doc_stepped(w), t, start, lists, k + 1) && doc_stepped(w).doc == t.docs[k],
        k == t.docs.len() ==> follows(doc_stepped(w), t, start, lists, k) && doc_stepped(w).doc == NO_MORE_DOCS,
        k < t.docs.len() && w.stream is Some ==> walk_remaining(doc_stepped(w)) == t.freqs[k],
{
    reveal(follows);
    reveal(walk_of);
    let v = Walk { doc: spec_to_i64(w.docs[w.upto]), upto: w.upto + 1, ..w };
    assert(walk_of(v, t, start));
    if k < t.docs.len() {
        lemma_doc_bound(t, k);
        assert(w.docs[k - c] == t.docs[c + (k - c)]);
        let f = walk_freq(v) as int;
        if w.stream is Some {
            assert(w.freqs[k - c] == t.freqs[c + (k - c)]);
        }
        lemma_pending(v, t, start, lists, k, k + 1, e, f);
        let u = doc_stepped(w);
        assert(c == 128 * (k / 128));
        assert(walk_of(u, t, start));
        assert(block_ready(u, t, start, c));
        assert(docs_follow(u, t, start, k + 1));
    } else {
        assert(w.docs[t.docs.len() - c] == no_doc());
    }
}

/// Going on gives the next document of the term, or none where none is left.
pub proof fn law_next_doc(w: Walk, t: TermDocs, start: int, lists: Seq<Seq<u32>>, k: int)
    requires
        follows(w, t, start, lists, k),
    ensures
        doc_given(w) matches Ok(v) && v.decode_freqs == w.decode_freqs && (v.stream is Some) == (w.stream is Some) && if k < t.docs.len() {
            follows(v, t, start, lists, k + 1) && v.doc == t.docs[k] && (v.stream is Some ==> walk_remaining(v) == t.freqs[k])
        } else {
            follows(v, t, start, lists, k) && v.doc == NO_MORE_DOCS
        },
{
    reveal(follows);
    reveal(doc_given);
    reveal(walk_of);
    if w.doc != NO_MORE_DOCS {
        let e = choose|e: int| #[trigger] stream_counts(w, t, lists, e, freq_sum(t.freqs, k) as int);
        let c = 128 * ((k - 1) / 128);
        if k > 0 {
            lemma_doc_bound(t, k - 1);
            if k < c + 128 && t.docs.len() - c >= 128 {
                lemma_doc_pair(t, k - 1, c + 127);
            }
        }
        if k == 0 || (t.docs.len() - c >= 128 && k == c + 128) {
            let f = lemma_block_loaded(w, t, start, lists, e);
            lemma_stepped(block_loaded(w)->Ok_0, t, start, lists, k, k, f);
        } else {
            lemma_stepped(w, t, start, lists, c, k, e);
        }
    }
}

/// The first document of the block that is not below the target.
proof fn lemma_first_in_block(docs: Seq<u64>, t: TermDocs, c: int, n: int, i: int, target: i64)
    requires
        valid_term_docs(t),
        docs.len() == 129,
        0 <= c,
        0 <= i <= n <= 128,
        c + n <= t.docs.len(),
        forall|j: int| 0 <= j < n ==> #[trigger] docs[j] == t.docs[c + j],
        target <= NO_MORE_DOCS,
        (c + n == t.docs.len() && docs[n] == no_doc()) || (i < n && target <= t.docs[c + n - 1]),
    ensures
        first_not_below(docs, i, target) == first_from(t.docs, c + i, target as int) - c,
        first_from(t.docs, c + i, target as int) <= c + n,
        c + n < t.docs.len() || docs[n] != no_doc() ==> first_from(t.docs, c + i, target as int) < c + n,
    decreases n - i,
{
    if i < n {
        assert(docs[i] == t.docs[c + i]);
        lemma_doc_bound(t, c + i);
        if t.docs[c + i] < target {
            lemma_first_in_block(docs, t, c, n, i + 1, target);
        }
    }
}

/// The first document of the block that is not below the target is given.
proof fn lemma_scanned(w: Walk, t: TermDocs, start: int, lists: Seq<Seq<u32>>, c: int, k: int, target: i64, e: int)
    requires
        block_ready(w, t, start, c),
        c % 128 == 0,
        0 <= c <= k <= t.docs.len(),
        w.upto == k - c,
        target <= NO_MORE_DOCS,
        w.last == NO_MORE_DOCS || (target <= w.last && k < c + 128),
        stream_follows(w, t, lists),
        stream_counts(w, t, lists, e, freq_sum(t.freqs, k) as int),
    ensures
        ({
            let j = first_from(t.docs, k, target as int);
            let v = block_scanned(w, target);
            &&& j < t.docs.len() ==> follows(v, t, start, lists, j + 1) && v.doc == t.docs[j]
            &&& j >= t.docs.len() ==> follows(v, t, start, lists, t.docs.len() as int) && v.doc == NO_MORE_DOCS
        }),
{
    reveal(follows);
    reveal(block_scanned);
    reveal(walk_of);
    let n = if t.docs.len() - c >= 128 { 128 } else { t.docs.len() - c };
    if t.docs.len() - c >= 128 {
        lemma_doc_bound(t, c + 127);
    }
    lemma_first_in_block(w.docs, t, c, n, k - c, target);
    lemma_first_bounds(t.docs, k, target as int);
    let j = first_from(t.docs, k, target as int);
    let v = Walk { doc: spec_to_i64(w.docs[j - c]), upto: j - c + 1, ..w };
    assert(walk_of(v, t, start));
    if j < t.docs.len() {
        lemma_doc_bound(t, j);
        assert(w.docs[j - c] == t.docs[c + (j - c)]);
        let f = freqs_between(w.freqs, w.upto, j - c + 1);
        if w.stream is Some {
            lemma_valid_freqs(t);
            assert(block_held(w, t, c, j - c + 1));
            lemma_freqs_between(w, t, c, k - c, j - c + 1);
        } else {
            lemma_between_positive(w.freqs, w.upto, j - c + 1);
        }
        lemma_pending(v, t, start, lists, k, j + 1, e, f);
        let u = block_scanned(w, target);
        assert(c == 128 * (j / 128));
        assert(walk_of(u, t, start));
        assert(block_ready(u, t, start, c));
        assert(docs_follow(u, t, start, j + 1));
    }
}

proof fn lemma_between_positive(freqs: Seq<u32>, from: int, to: int)
    ensures
        freqs_between(freqs, from, to) >= 0,
    decreases to - from,
{
    if from < to {
        lemma_between_positive(freqs, from, to - 1);
    }
}

/// Going on to a target gives the first document of the term that is not below
/// it, or none where there is none; nothing changes where the last one was not.
pub proof fn law_advance(w: Walk, t: TermDocs, start: int, lists: Seq<Seq<u32>>, k: int, target: i32)
    requires
        follows(w, t, start, lists, k),
    ensures
        w.doc >= target ==> doc_advanced(w, target) == Ok::<Walk, ErrorKind>(w),
        w.doc < target ==> (doc_advanced(w, target) matches Ok(v) && ({
            let j = first_from(t.docs, k, target as int);
            &&& j < t.docs.len() ==> follows(v, t, start, lists, j + 1) && v.doc == t.docs[j]
            &&& j >= t.docs.len() ==> follows(v, t, start, lists, t.docs.len() as int) && v.doc == NO_MORE_DOCS
        })),
{
    reveal(follows);
    reveal(walk_of);
    if w.doc < target {
        let e = choose|e: int| #[trigger] stream_counts(w, t, lists, e, freq_sum(t.freqs, k) as int);
        let c = 128 * ((k - 1) / 128);
        let goal = target as i64;
        if target > w.last {
            if k > 0 && t.docs.len() - c < 128 {
                assert(false);
            }
            let (n, f) = lemma_block_sought(w, t, start, lists, k, goal, e);
            let v = block_sought(w, goal)->Ok_0;
            lemma_first_skip(t, k, n, goal as int);
            lemma_scanned(v, t, start, lists, n, n, goal, f);
        } else {
            if k > 0 && t.docs.len() - c >= 128 && k == c + 128 {
                assert(w.last == w.doc);
                assert(false);
            }
            lemma_scanned(w, t, start, lists, c, k, goal, e);
        }
    }
}

/// How many documents stand from a place in the block on.
proof fn lemma_window_is(docs: Seq<u64>, t: TermDocs, c: int, n: int, i: int, room: int)
    requires
        valid_term_docs(t),
        0 <= c,
        0 <= i <= n <= 128,
        c + n <= t.docs.len(),
        forall|j: int| 0 <= j < n ==> #[trigger] docs[j] == t.docs[c + j],
        docs[n] == no_doc(),
        0 <= room,
    ensures
        window(docs, i, room) == if room < n - i { room } else { n - i },
    decreases room,
{
    if room > 0 && i < n {
        assert(docs[i] == t.docs[c + i]);
        lemma_doc_bound(t, c + i);
        lemma_window_is(docs, t, c, n, i + 1, room - 1);
    }
}

/// A batch gives the next documents of the term, as many as there is room for,
/// and their frequencies where these are decoded.
pub proof fn law_batch(w: Walk, t: TermDocs, start: int, lists: Seq<Seq<u32>>, k: int, room: int)
    requires
        follows(w, t, start, lists, k),
        w.stream is None,
        0 <= room,
    ensures
        batch_walked(w, room) matches Ok((v, docs, freqs)) && ({
            let n = if room < t.docs.len() - k { room } else { t.docs.len() - k };
            &&& docs == t.docs.subrange(k, k + n)
            &&& freqs.len() == n
            &&& w.has_freqs && w.decode_freqs ==> freqs == t.freqs.subrange(k, k + n)
            &&& follows(v, t, start, lists, k + n)
            &&& v.stream is None
        }),
    decreases room,
{
    reveal_with_fuel(batch_walked, 1);
    law_current_doc(w, t, start, lists, k);
    assert(valid_term_docs(t) && w.doc_freq == t.docs.len() && w.has_freqs == t.has_freqs) by {
        reveal(walk_of);
    }
    if w.has_freqs {
        lemma_valid_freqs(t);
        assert(t.freqs.subrange(k, k) =~= Seq::empty());
    }
    assert(t.docs.subrange(k, k) =~= Seq::empty());
    if room > 0 && w.doc != NO_MORE_DOCS {
        let (v, c) = lemma_batch_block(w, t, start, lists, k);
        let n = window(v.docs, v.upto, room) as int;
        lemma_batch_step(v, t, start, lists, c, k, room);
        if n > 0 {
            let u = Walk { doc: spec_to_i64(v.docs[v.upto + n - 1]), upto: v.upto + n, ..v };
            law_batch(u, t, start, lists, k + n, room - n);
            let (x, docs, freqs) = batch_walked(u, room - n)->Ok_0;
            let m = n + docs.len();
            assert(t.docs.subrange(k, k + n) + docs =~= t.docs.subrange(k, k + m));
            if w.has_freqs && w.decode_freqs {
                assert(t.freqs.subrange(k, k + n) + freqs =~= t.freqs.subrange(k, k + m));
            }
        }
    }
}

/// The documents that stand in the block are given together.
proof fn lemma_batch_step(v: Walk, t: TermDocs, start: int, lists: Seq<Seq<u32>>, c: int, k: int, room: int)
    requires
        block_ready(v, t, start, c),
        c % 128 == 0,
        0 <= c <= k <= t.docs.len(),
        k < c + 128,
        v.upto == k - c,
        v.stream is None,
        0 < room,
    ensures
        ({
            let n = window(v.docs, v.upto, room) as int;
            let left = t.docs.len() - k;
            &&& 0 <= n <= room
            &&& n <= left
            &&& n == 0 ==> left == 0 && follows(Walk { doc: spec_to_i64(v.docs[v.upto]), upto: v.upto + 1, ..v }, t, start, lists, k)
            &&& n > 0 ==> follows(Walk { doc: spec_to_i64(v.docs[v.upto + n - 1]), upto: v.upto + n, ..v }, t, start, lists, k + n)
            &&& low_docs(v.docs, v.upto, n) == t.docs.subrange(k, k + n)
            &&& v.freqs.subrange(v.upto, v.upto + n).len() == n
            &&& v.has_freqs && v.decode_freqs ==> v.freqs.subrange(v.upto, v.upto + n) == t.freqs.subrange(k, k + n)
        }),
{
    reveal(follows);
    reveal(walk_of);
    let size = if t.docs.len() - c >= 128 { 128 } else { t.docs.len() - c };
    assert(v.docs[size] == no_doc());
    lemma_window_is(v.docs, t, c, size, v.upto, room);
    let n = window(v.docs, v.upto, room) as int;
    let more = low_docs(v.docs, v.upto, n);
    assert forall|i: int| 0 <= i < n implies #[trigger] more[i] == t.docs[k + i] by {
        assert(v.docs[v.upto + i] == t.docs[c + (v.upto + i)]);
        lemma_doc_bound(t, k + i);
    }
    assert(more =~= t.docs.subrange(k, k + n));
    if v.has_freqs && v.decode_freqs {
        lemma_valid_freqs(t);
        let extra = v.freqs.subrange(v.upto, v.upto + n);
        assert forall|i: int| 0 <= i < n implies #[trigger] extra[i] == t.freqs[k + i] by {
            assert(v.freqs[v.upto + i] == t.freqs[c + (v.upto + i)]);
        }
        assert(extra =~= t.freqs.subrange(k, k + n));
    }
    if n > 0 {
        let u = Walk { doc: spec_to_i64(v.docs[v.upto + n - 1]), upto: v.upto + n, ..v };
        assert(v.docs[v.upto + n - 1] == t.docs[c + (v.upto + n - 1)]);
        lemma_doc_bound(t, k + n - 1);
        assert(c == 128 * ((k + n - 1) / 128));
        assert(block_ready(u, t, start, c));
        assert(stream_counts(u, t, lists, 0, freq_sum(t.freqs, k + n) as int));
    }
}

/// The document that was given last is the `k`th of the term; it is -1 before
/// the first, and the end mark only behind the last.
pub proof fn law_current_doc(w: Walk, t: TermDocs, start: int, lists: Seq<Seq<u32>>, k: int)
    requires
        follows(w, t, start, lists, k),
    ensures
        walk_of(w, t, start),
        0 <= k <= t.docs.len(),
        w.doc != NO_MORE_DOCS && k > 0 ==> w.doc == t.docs[k - 1],
        w.doc != NO_MORE_DOCS && k == 0 ==> w.doc == -1,
        w.doc == NO_MORE_DOCS ==> k == t.docs.len(),
        -1 <= w.doc <= NO_MORE_DOCS,
        w.has_freqs == t.has_freqs,
{
    reveal(follows);
    assert(valid_term_docs(t) && w.has_freqs == t.has_freqs) by {
        reveal(walk_of);
    }
    if w.doc != NO_MORE_DOCS && k > 0 {
        lemma_doc_bound(t, k - 1);
    }
}

/// The block that holds the next document is at hand, or taken in.
proof fn lemma_batch_block(w: Walk, t: TermDocs, start: int, lists: Seq<Seq<u32>>, k: int) -> (r: (Walk, int))
    requires
        follows(w, t, start, lists, k),
        w.stream is None,
        w.doc != NO_MORE_DOCS,
    ensures
        (if w.doc == w.last { block_loaded(w) } else { Ok(w) }) == Ok::<Walk, ErrorKind>(r.0),
        block_ready(r.0, t, start, r.1),
        r.1 % 128 == 0,
        0 <= r.1 <= k <= t.docs.len(),
        k < r.1 + 128,
        r.0.upto == k - r.1,
        r.0.stream is None,
        r.0.decode_freqs == w.decode_freqs,
        r.0.has_freqs == w.has_freqs,
        t.docs.len() - r.1 >= 128 ==> r.0.docs[128] == no_doc(),
{
    reveal(follows);
    reveal(walk_of);
    let c = 128 * ((k - 1) / 128);
    if k > 0 {
        lemma_doc_bound(t, k - 1);
        if k < c + 128 && t.docs.len() - c >= 128 {
            lemma_doc_pair(t, k - 1, c + 127);
        }
    }
    if k == 0 || (t.docs.len() - c >= 128 && k == c + 128) {
        let e = lemma_block_loaded(w, t, start, lists, 0);
        (block_loaded(w)->Ok_0, k)
    } else {
        (w, c)
    }
}

/// The frequency of the last document is that of the term.
pub proof fn law_freq(w: Walk, t: TermDocs, start: int, lists: Seq<Seq<u32>>, k: int)
    requires
        follows(w, t, start, lists, k),
        w.doc != NO_MORE_DOCS,
        k > 0,
        w.has_freqs ==> w.decode_freqs,
    ensures
        w.has_freqs ==> walk_freq(w) == t.freqs[k - 1],
{
    reveal(follows);
    reveal(walk_of);
    let c = 128 * ((k - 1) / 128);
    if w.has_freqs {
        assert(w.freqs[k - 1 - c] == t.freqs[c + (k - 1 - c)]);
    }
}

/// The stream before the next position of a document: those of documents before
/// it were passed over.
spec fn position_reached(x: StreamWalk, freq: int, total: u64) -> Result<StreamWalk, ErrorKind> {
    if x.pending > freq {
        match stream_skipped(x, x.pending - freq, total) {
            Ok(y) => Ok(StreamWalk { pending: freq, position: 0, ..y }),
            Err(k) => Err(k),
        }
    } else {
        Ok(x)
    }
}

proof fn lemma_position_reached(x: StreamWalk, d: Seq<u64>, start: u64, total: u64, e: int, freq: int)
    requires
        stream_of(x, d, start, total),
        stream_at(x, d, start, e),
        0 < freq,
        0 < x.pending,
        e + x.pending <= d.len(),
    ensures
        position_reached(x, freq, total) matches Ok(y) && ({
            let left = if x.pending < freq { x.pending } else { freq };
            &&& stream_of(y, d, start, total)
            &&& stream_at(y, d, start, e + x.pending - left)
            &&& y.pending == left
            &&& y.position == if x.pending > freq { 0 } else { x.position }
        }),
{
    if x.pending > freq {
        lemma_stream_skipped(x, d, start, total, e, x.pending - freq);
        let z = stream_skipped(x, x.pending - freq, total)->Ok_0;
        lemma_stands(z, StreamWalk { pending: freq, position: 0, ..z }, d, start, total, e + x.pending - freq);
    }
}

/// The distance of the next position.
proof fn lemma_next_delta(t: TermDocs, lists: Seq<Seq<u32>>, k: int, left: int)
    requires
        valid_term_docs(t),
        t.has_freqs,
        valid_lists(lists, t.freqs),
        0 < k <= t.docs.len(),
        0 < left <= t.freqs[k - 1],
    ensures
        ({
            let j = t.freqs[k - 1] - left;
            let at = freq_sum(t.freqs, k) - left;
            let list = lists[k - 1];
            &&& 0 <= at < all_deltas(lists).len()
            &&& all_deltas(lists)[at] == list[j] - (if j > 0 { list[j - 1] as int } else { 0 })
            &&& list[j] <= 0x7FFF_FFFF
            &&& list.len() == t.freqs[k - 1]
            &&& freq_sum(t.freqs, k) <= all_deltas(lists).len()
        }),
{
    lemma_valid_freqs(t);
    let list = lists[k - 1];
    let j = t.freqs[k - 1] - left;
    lemma_deltas_len(lists, t.freqs, lists.len() as int);
    lemma_freq_sum(t.freqs, k, t.freqs.len() as int);
    assert(list.len() == t.freqs[k - 1] && valid_list(list));
    lemma_delta_at(lists, t.freqs, k - 1, j, lists.len() as int);
    assert(list[j] <= 0x7FFF_FFFF);
    if j > 0 {
        assert(list[j - 1] <= list[j]);
    }
}

/// What the next position does to the stream.
proof fn lemma_position_step(w: Walk, t: TermDocs, lists: Seq<Seq<u32>>, k: int, e: int)
    requires
        valid_term_docs(t),
        w.stream is Some,
        stream_follows(w, t, lists),
        stream_counts(w, t, lists, e, freq_sum(t.freqs, k) as int),
        position_follows(w, t, lists, k),
        0 < k <= t.docs.len(),
        walk_freq(w) == t.freqs[k - 1],
        walk_remaining(w) > 0,
    ensures
        position_given(w) matches Ok(v) && v.stream matches Some(u) && ({
            let left = walk_remaining(w);
            &&& v == with_stream(w, Some(u))
            &&& u.pending == left - 1
            &&& u.position == lists[k - 1][t.freqs[k - 1] - left]
            &&& stream_of(u, all_deltas(lists), t.pos_start, w.total_term_freq)
            &&& stream_at(u, all_deltas(lists), t.pos_start, freq_sum(t.freqs, k) - left + 1)
        }),
{
    let d = all_deltas(lists);
    let total = w.total_term_freq;
    let x = w.stream->Some_0;
    let f = t.freqs[k - 1] as int;
    let left = walk_remaining(w);
    let at = freq_sum(t.freqs, k) - left;
    lemma_next_delta(t, lists, k, left);
    lemma_position_reached(x, d, t.pos_start, total, e, f);
    let y = position_reached(x, f, total)->Ok_0;
    lemma_delta_given(y, d, t.pos_start, total, at);
    let (z, delta) = delta_given(y, total)->Ok_0;
    let u = StreamWalk { pending: z.pending - 1, position: ((z.position + delta) % 0x1_0000_0000) as u32, ..z };
    lemma_stands(z, u, d, t.pos_start, total, at + 1);
    assert(position_given(w) == Ok::<Walk, ErrorKind>(with_stream(w, Some(u))));
}

/// The next position is the document's next one in the term.
pub proof fn law_next_position(w: Walk, t: TermDocs, start: int, lists: Seq<Seq<u32>>, k: int)
    requires
        follows(w, t, start, lists, k),
        w.doc != NO_MORE_DOCS,
        w.stream is Some,
        k > 0,
        walk_remaining(w) > 0,
    ensures
        position_given(w) matches Ok(v) && v.stream is Some && ({
            &&& follows(v, t, start, lists, k)
            &&& v.stream->Some_0.position == lists[k - 1][t.freqs[k - 1] - walk_remaining(w)]
            &&& walk_remaining(v) == walk_remaining(w) - 1
            &&& v.doc == w.doc
        }),
{
    lemma_stream_freq(w, t, start, lists, k);
    law_current_doc(w, t, start, lists, k);
    reveal(follows);
    assert(valid_term_docs(t)) by {
        reveal(walk_of);
    }
    let e = choose|e: int| #[trigger] stream_counts(w, t, lists, e, freq_sum(t.freqs, k) as int);
    lemma_position_step(w, t, lists, k, e);
    let v = position_given(w)->Ok_0;
    assert(walk_of(v, t, start)) by {
        reveal(walk_of);
    }
    assert(docs_follow(v, t, start, k));
    assert(stream_counts(v, t, lists, freq_sum(t.freqs, k) - walk_remaining(w) + 1, freq_sum(t.freqs, k) as int));
}

proof fn lemma_stream_freq(w: Walk, t: TermDocs, start: int, lists: Seq<Seq<u32>>, k: int)
    requires
        follows(w, t, start, lists, k),
        w.doc != NO_MORE_DOCS,
        w.stream is Some,
        k > 0,
    ensures
        w.has_freqs && walk_freq(w) == t.freqs[k - 1],
{
    assert(w.decode_freqs && w.has_freqs) by {
        reveal(follows);
        reveal(walk_of);
    }
    law_freq(w, t, start, lists, k);
}

/// At the start no document of the entry's term was given.
pub proof fn law_walk_start(doc: Seq<u8>, entry: TermEntry, has_freqs: bool, decode_freqs: bool, t: TermDocs)
    requires
        entry_term(doc, entry, has_freqs, t),
    ensures
        follows(walk_start(doc, entry, has_freqs, decode_freqs, None), t, entry.state.doc_start_fp as int, Seq::empty(), 0),
{
    reveal(follows);
    reveal(walk_of);
    let w = walk_start(doc, entry, has_freqs, decode_freqs, None);
    lemma_started(w, doc, entry, has_freqs, t);
    assert(stream_counts(w, t, Seq::empty(), 0, freq_sum(t.freqs, 0) as int));
}

proof fn lemma_started(w: Walk, doc: Seq<u8>, entry: TermEntry, has_freqs: bool, t: TermDocs)
    requires
        entry_term(doc, entry, has_freqs, t),
        w == walk_start(doc, entry, has_freqs, w.decode_freqs, if w.stream is Some { Some(w.stream->Some_0.s) } else { None }),
        w.stream is Some ==> t.pos_start == entry.state.pos_start_fp,
    ensures
        docs_follow(w, t, entry.state.doc_start_fp as int, 0),
{
    reveal(walk_of);
    assert(crate::doc_postings::groups_bytes(t, 0) =~= Seq::<u8>::empty());
    assert(crate::doc_postings::blocks_bytes(t, 0, 0) =~= Seq::<u8>::empty());
}

/// At the start no position of the entry's term was given either.
pub proof fn law_positions_start(doc: Seq<u8>, pos: Seq<u8>, entry: TermEntry, t: TermDocs, lists: Seq<Seq<u32>>)
    requires
        entry_positions(doc, pos, entry, t, lists),
    ensures
        follows(walk_start(doc, entry, true, true, Some(pos)), t, entry.state.doc_start_fp as int, lists, 0),
{
    reveal(stream_of);
    reveal(stream_at);
    reveal(follows);
    let w = walk_start(doc, entry, true, true, Some(pos));
    let d = all_deltas(lists);
    lemma_places_ascend(pos, t, lists);
    lemma_deltas_len(lists, t.freqs, lists.len() as int);
    lemma_valid_freqs(t);
    lemma_tail_place(pos, t.pos_start as int, d);
    lemma_started(w, doc, entry, true, t);
    let x = w.stream->Some_0;
    assert(full_chunks(d, 0) =~= Seq::<u8>::empty());
    assert(stream_of(x, d, t.pos_start, w.total_term_freq));
    assert(stream_full(x, d, t.pos_start, 0));
    assert(stream_counts(w, t, lists, 0, freq_sum(t.freqs, 0) as int));
}

/// What going on to the next document `n` times gives.
pub open spec fn docs_on(w: Walk, n: nat) -> Result<Walk, ErrorKind>
    decreases n,
{
    if n == 0 {
        Ok(w)
    } else {
        match docs_on(w, (n - 1) as nat) {
            Ok(v) => doc_given(v),
            Err(k) => Err(k),
        }
    }
}

/// What going on to the next position `n` times gives.
pub open spec fn positions_on(w: Walk, n: nat) -> Result<Walk, ErrorKind>
    decreases n,
{
    if n == 0 {
        Ok(w)
    } else {
        match positions_on(w, (n - 1) as nat) {
            Ok(v) => position_given(v),
            Err(k) => Err(k),
        }
    }
}

/// The documents of a term are given one after the other, and behind the last
/// one the end mark, however often it is asked for.
pub proof fn law_docs_in_order(w: Walk, t: TermDocs, start: int, lists: Seq<Seq<u32>>, n: nat)
    requires
        follows(w, t, start, lists, 0),
    ensures
        docs_on(w, n) matches Ok(v) && v.decode_freqs == w.decode_freqs && (v.stream is Some) == (w.stream is Some) && if n <= t.docs.len() {
            &&& follows(v, t, start, lists, n as int)
            &&& n > 0 ==> v.doc == t.docs[n - 1] && (v.stream is Some ==> walk_remaining(v) == t.freqs[n - 1])
        } else {
            follows(v, t, start, lists, t.docs.len() as int) && v.doc == NO_MORE_DOCS
        },
    decreases n,
{
    if n > 0 {
        law_docs_in_order(w, t, start, lists, (n - 1) as nat);
        let v = docs_on(w, (n - 1) as nat)->Ok_0;
        law_next_doc(v, t, start, lists, if n - 1 < t.docs.len() { n - 1 } else { t.docs.len() as int });
    }
}

/// The positions of a document are given one after the other.
pub proof fn law_positions_in_order(w: Walk, t: TermDocs, start: int, lists: Seq<Seq<u32>>, k: int, n: nat)
    requires
        follows(w, t, start, lists, k),
        0 < k <= t.docs.len(),
        w.doc != NO_MORE_DOCS,
        w.stream is Some,
        walk_remaining(w) == t.freqs[k - 1],
        n <= t.freqs[k - 1],
    ensures
        positions_on(w, n) matches Ok(v) && v.stream is Some && ({
            &&& follows(v, t, start, lists, k)
            &&& v.doc == w.doc
            &&& walk_remaining(v) == t.freqs[k - 1] - n
            &&& n > 0 ==> v.stream->Some_0.position == lists[k - 1][n - 1]
        }),
    decreases n,
{
    if n > 0 {
        law_positions_in_order(w, t, start, lists, k, (n - 1) as nat);
        law_next_position(positions_on(w, (n - 1) as nat)->Ok_0, t, start, lists, k);
    }
}

// ---------------------------------------------------------------------------
// Passing frequencies over
// ---------------------------------------------------------------------------

/// The two differ in the frequencies only: in whether these are decoded, and in
/// what is held of them.
pub open spec fn alike(a: Walk, b: Walk) -> bool {
    a == (Walk { freqs: a.freqs, decode_freqs: a.decode_freqs, ..b })
}

/// The outcomes, where both succeed, differ in the frequencies only.
pub open spec fn both_alike(a: Result<Walk, ErrorKind>, b: Result<Walk, ErrorKind>) -> bool {
    a is Ok && b is Ok ==> alike(a->Ok_0, b->Ok_0)
}

/// A block ends at the same place whether its frequencies are decoded or not.
proof fn lemma_blocks_alike(s: Seq<u8>, p: int, base: u64, has_freqs: bool, x: bool, y: bool)
    ensures
        block_at(s, p, base, has_freqs, x) matches Ok(a) ==> (block_at(s, p, base, has_freqs, y) matches Ok(b) ==> a.0 == b.0 && a.2 == b.2),
{
    reveal(block_at);
    if let Ok((_, q)) = for_delta_at(s, p) {
        if pfor_at(s, q) is Ok {
            law_pfor_skip_consumes_block(s, q, ErrorKind::InvalidData);
        }
    }
}

proof fn lemma_tails_alike(s: Seq<u8>, p: int, base: u64, left: nat, has_freqs: bool, x: bool, y: bool)
    ensures
        tail_at(s, p, base, left, has_freqs, x) matches Ok(a) ==> (tail_at(s, p, base, left, has_freqs, y) matches Ok(b) ==> a.0 == b.0 && a.2 == b.2),
{
    reveal(tail_at);
}

proof fn lemma_taken_alike(a: Walk, b: Walk)
    requires
        alike(a, b),
    ensures
        both_alike(block_taken(a), block_taken(b)),
        both_alike(tail_taken(a), tail_taken(b)),
{
    lemma_blocks_alike(a.s, a.p, spec_to_u64(a.prev), a.has_freqs, a.decode_freqs, b.decode_freqs);
    lemma_tails_alike(a.s, a.p, spec_to_u64(a.prev), (a.doc_freq - a.count) as nat, a.has_freqs, a.decode_freqs, b.decode_freqs);
}

proof fn lemma_groups_alike(a: Walk, b: Walk, target: i64)
    requires
        alike(a, b),
    ensures
        both_alike(groups_passed(a, target), groups_passed(b, target)),
        groups_passed(a, target) matches Ok(v) ==> v.stream == a.stream,
    decreases a.doc_freq - a.group_count,
{
    reveal_with_fuel(groups_passed, 1);
    let v = Walk {
        p: a.group_end_fp as int,
        prev: a.group_last,
        last: a.group_last,
        next_pos: if a.stream is Some { a.group_pos } else { a.next_pos },
        count: a.group_count,
        group_count: a.group_count + 4096,
        ..a
    };
    if a.group_end_fp <= a.s.len() && v.doc_freq - v.count >= 4096 {
        if let Ok((head, z)) = group_head_at(v.s, v.p, v.group_last, v.has_freqs, v.stream is Some, v.group_pos, target) {
            let u = Walk { p: z, group_last: head.last, group_end_fp: head.end_fp, group_pos: head.pos, ..v };
            if head.last < target {
                lemma_groups_alike(u, Walk { freqs: b.freqs, decode_freqs: b.decode_freqs, ..u }, target);
            }
        }
    }
}

proof fn lemma_passed_alike(a: Walk, b: Walk, target: i64)
    requires
        alike(a, b),
        a.stream is None,
    ensures
        both_alike(blocks_passed(a, target), blocks_passed(b, target)),
        blocks_passed(a, target) matches Ok(v) ==> v.stream is None,
    decreases a.doc_freq - a.count,
{
    reveal_with_fuel(blocks_passed, 1);
    let (v, x) = (Walk { prev: a.last, ..a }, Walk { prev: b.last, ..b });
    if v.doc_freq - v.count >= 128 {
        if let Ok((u, reached)) = block_reached(v, target) {
            if !reached {
                lemma_passed_alike(u, Walk { freqs: b.freqs, decode_freqs: b.decode_freqs, ..u }, target);
            }
        }
    }
}

/// Passing frequencies over leaves the documents where decoding them does:
/// going on gives the same document, at the same place of the file.
pub proof fn law_next_doc_alike(a: Walk, b: Walk)
    requires
        alike(a, b),
        a.stream is None,
    ensures
        both_alike(doc_given(a), doc_given(b)),
        doc_given(a) matches Ok(v) ==> v.stream is None,
{
    reveal(doc_given);
    lemma_loaded_alike(a, b);
}

proof fn lemma_loaded_alike(a: Walk, b: Walk)
    requires
        alike(a, b),
        a.stream is None,
    ensures
        both_alike(block_loaded(a), block_loaded(b)),
        block_loaded(a) matches Ok(v) ==> v.stream is None,
{
    reveal(block_loaded);
    lemma_groups_alike(a, b, plus(a.doc, 1));
    let grouped = if a.doc == a.group_last { groups_passed(a, plus(a.doc, 1)) } else { Ok(a) };
    let other = if b.doc == b.group_last { groups_passed(b, plus(b.doc, 1)) } else { Ok(b) };
    if let (Ok(g), Ok(h)) = (grouped, other) {
        let (v, x) = (Walk { prev: g.last, ..g }, Walk { prev: h.last, ..h });
        if v.doc_freq - v.count >= 128 {
            if let (Ok(u), Ok(y)) = (block_entered(v), block_entered(x)) {
                lemma_taken_alike(u, y);
            }
        } else {
            lemma_taken_alike(Walk { last: NO_MORE_DOCS as i64, ..v }, Walk { last: NO_MORE_DOCS as i64, ..x });
        }
    }
}

/// An entry's documents are gone through alike with its frequencies decoded and
/// passed over, as long as both can be read.
pub proof fn law_docs_alike(doc: Seq<u8>, entry: TermEntry, has_freqs: bool, n: nat)
    ensures
        both_alike(docs_on(walk_start(doc, entry, has_freqs, true, None), n), docs_on(walk_start(doc, entry, has_freqs, false, None), n)),
        docs_on(walk_start(doc, entry, has_freqs, true, None), n) matches Ok(v) ==> v.stream is None,
    decreases n,
{
    if n > 0 {
        law_docs_alike(doc, entry, has_freqs, (n - 1) as nat);
        let a = docs_on(walk_start(doc, entry, has_freqs, true, None), (n - 1) as nat);
        let b = docs_on(walk_start(doc, entry, has_freqs, false, None), (n - 1) as nat);
        if a is Ok {
            law_next_doc_alike(a->Ok_0, if b is Ok { b->Ok_0 } else { a->Ok_0 });
        }
    }
}

/// The same holds of going on to a target.
pub proof fn law_advance_alike(a: Walk, b: Walk, target: i32)
    requires
        alike(a, b),
        a.stream is None,
    ensures
        both_alike(doc_advanced(a, target), doc_advanced(b, target)),
{
    reveal(block_sought);
    reveal(block_scanned);
    let goal = target as i64;
    if a.doc < target && target > a.last {
        lemma_groups_alike(a, b, goal);
        let grouped = if goal > a.group_last { groups_passed(a, goal) } else { Ok(a) };
        let other = if goal > b.group_last { groups_passed(b, goal) } else { Ok(b) };
        if let (Ok(g), Ok(h)) = (grouped, other) {
            lemma_passed_alike(g, h, goal);
            if let (Ok(v), Ok(x)) = (blocks_passed(g, goal), blocks_passed(h, goal)) {
                lemma_taken_alike(v, x);
                lemma_taken_alike(Walk { last: NO_MORE_DOCS as i64, ..v }, Walk { last: NO_MORE_DOCS as i64, ..x });
            }
        }
    }
}

} // verus!
