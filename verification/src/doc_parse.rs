//! Where the parts of a term's documents stand, and what is read there.

use crate::bytes::{
    holds_at, law_short_round_trip, law_vint_round_trip, law_vlong_round_trip, lemma_holds_concat, lemma_varint_len, lemma_varint_len_max, short_at, short_bytes, vint_at, vint_of, vlong_at,
    vlong_of,
};
use crate::doc_postings::{
    block_bytes, block_deltas, block_freqs, block_head, block_packed, block_skip, blocks_bytes, doc_before, doc_bytes, group_head, group_skip, groups_bytes, law_max_freq, lemma_deltas, lemma_doc_bound,
    lemma_doc_pair, lemma_range_impacts, lemma_small_fits, lemma_valid_freqs, max_freq, pos_before, pos_skip, range_impacts, tail_bytes, valid_term_docs, TermDocs,
};
use crate::error::ErrorKind;
use crate::num::spec_to_u32;
use crate::postings_ll::{for_delta_at, for_delta_bytes, law_for_delta_round_trip, law_pfor_round_trip, law_vlong15_round_trip, pfor_at, pfor_bytes, vint15_at, vlong15_at, vlong15_bytes};
use vstd::arithmetic::power2::{lemma2_to64, lemma2_to64_rest};
use vstd::prelude::*;

verus! {

/// The number of full blocks, and of full groups.
pub open spec fn full_blocks(t: TermDocs) -> int {
    t.docs.len() as int / 128
}

pub open spec fn full_groups(t: TermDocs) -> int {
    full_blocks(t) / 32
}

/// Where group `g` begins, counted from the term's start.
pub open spec fn group_off(t: TermDocs, g: int) -> int {
    groups_bytes(t, g).len() as int
}

/// Where block `b` begins; behind the last full block, where the tail does.
pub open spec fn block_off(t: TermDocs, b: int) -> int {
    let g = b / 32;
    if g < full_groups(t) {
        group_off(t, g) + group_head(t, g).len() + blocks_bytes(t, 32 * g, b).len()
    } else {
        group_off(t, full_groups(t)) + blocks_bytes(t, 32 * full_groups(t), b).len()
    }
}

proof fn lemma_groups_prefix(t: TermDocs, g: int, n: int)
    requires
        0 <= g <= n,
    ensures
        holds_at(groups_bytes(t, n), 0, groups_bytes(t, g)),
    decreases n - g,
{
    let s = groups_bytes(t, n);
    let e = groups_bytes(t, g);
    if g < n {
        lemma_groups_prefix(t, g, n - 1);
        let d = groups_bytes(t, n - 1);
        assert(s.subrange(0, e.len() as int) =~= d.subrange(0, e.len() as int));
    } else {
        assert(s.subrange(0, s.len() as int) =~= s);
    }
}

proof fn lemma_blocks_prefix(t: TermDocs, from: int, b: int, n: int)
    requires
        from <= b <= n,
    ensures
        holds_at(blocks_bytes(t, from, n), 0, blocks_bytes(t, from, b)),
    decreases n - b,
{
    let s = blocks_bytes(t, from, n);
    let e = blocks_bytes(t, from, b);
    if b < n {
        lemma_blocks_prefix(t, from, b, n - 1);
        let d = blocks_bytes(t, from, n - 1);
        assert(s.subrange(0, e.len() as int) =~= d.subrange(0, e.len() as int));
    } else {
        assert(s.subrange(0, s.len() as int) =~= s);
    }
}

/// What stands in a part stands in the whole.
pub proof fn lemma_holds_within(s: Seq<u8>, p: int, a: Seq<u8>, q: int, b: Seq<u8>)
    requires
        holds_at(s, p, a),
        holds_at(a, q, b),
    ensures
        holds_at(s, p + q, b),
{
    assert(s.subrange(p + q, p + q + b.len()) =~= s.subrange(p, p + a.len()).subrange(q, q + b.len()));
}

/// A group's head and its blocks stand at their place.
pub proof fn lemma_group_holds(s: Seq<u8>, p: int, t: TermDocs, g: int)
    requires
        holds_at(s, p, doc_bytes(t)),
        0 <= g < full_groups(t),
    ensures
        holds_at(s, p + group_off(t, g), group_head(t, g)),
        holds_at(s, p + group_off(t, g) + group_head(t, g).len(), blocks_bytes(t, 32 * g, 32 * g + 32)),
        group_off(t, g + 1) == group_off(t, g) + group_head(t, g).len() + blocks_bytes(t, 32 * g, 32 * g + 32).len(),
        block_off(t, 32 * g) == group_off(t, g) + group_head(t, g).len(),
        p + group_off(t, g + 1) <= s.len(),
{
    let all = groups_bytes(t, full_groups(t));
    let rest = blocks_bytes(t, 32 * full_groups(t), full_blocks(t));
    lemma_holds_concat(s, p, all + rest, tail_bytes(t));
    lemma_holds_concat(s, p, all, rest);
    lemma_groups_prefix(t, g + 1, full_groups(t));
    lemma_holds_within(s, p, all, 0, groups_bytes(t, g + 1));
    let h = group_head(t, g);
    let b = blocks_bytes(t, 32 * g, 32 * g + 32);
    lemma_holds_concat(s, p, groups_bytes(t, g), h + b);
    lemma_holds_concat(s, p + group_off(t, g), h, b);
    assert(blocks_bytes(t, 32 * g, 32 * g) =~= Seq::<u8>::empty());
}

/// A block stands at its place, and the next one behind it, or the next
/// group, or the tail.
pub proof fn lemma_block_holds(s: Seq<u8>, p: int, t: TermDocs, b: int)
    requires
        holds_at(s, p, doc_bytes(t)),
        0 <= b < full_blocks(t),
    ensures
        holds_at(s, p + block_off(t, b), block_bytes(t, b)),
        (b + 1) % 32 != 0 || b / 32 >= full_groups(t) ==> block_off(t, b + 1) == block_off(t, b) + block_bytes(t, b).len(),
        (b + 1) % 32 == 0 && b / 32 < full_groups(t) ==> group_off(t, b / 32 + 1) == block_off(t, b) + block_bytes(t, b).len(),
        (b + 1) % 32 == 0 && (b + 1) / 32 == full_groups(t) ==> block_off(t, b + 1) == group_off(t, full_groups(t)),
{
    let g = b / 32;
    let n = full_groups(t);
    if g < n {
        lemma_group_holds(s, p, t, g);
        let all = blocks_bytes(t, 32 * g, 32 * g + 32);
        lemma_blocks_prefix(t, 32 * g, b + 1, 32 * g + 32);
        lemma_holds_within(s, p + group_off(t, g) + group_head(t, g).len(), all, 0, blocks_bytes(t, 32 * g, b + 1));
        lemma_holds_concat(s, p + group_off(t, g) + group_head(t, g).len(), blocks_bytes(t, 32 * g, b), block_bytes(t, b));
        if (b + 1) % 32 == 0 {
            assert(b + 1 == 32 * g + 32);
            assert((b + 1) / 32 == g + 1);
            if g + 1 == n {
                assert(blocks_bytes(t, 32 * n, b + 1) =~= Seq::<u8>::empty());
            }
        } else {
            assert((b + 1) / 32 == g);
        }
    } else {
        let all = groups_bytes(t, n);
        let rest = blocks_bytes(t, 32 * n, full_blocks(t));
        lemma_holds_concat(s, p, all + rest, tail_bytes(t));
        lemma_holds_concat(s, p, all, rest);
        lemma_blocks_prefix(t, 32 * n, b + 1, full_blocks(t));
        lemma_holds_within(s, p + group_off(t, n), rest, 0, blocks_bytes(t, 32 * n, b + 1));
        lemma_holds_concat(s, p + group_off(t, n), blocks_bytes(t, 32 * n, b), block_bytes(t, b));
        assert((b + 1) / 32 >= n);
        assert((b + 1) / 32 > n || (b + 1) / 32 == n);
    }
}

/// The tail stands at its place.
pub proof fn lemma_tail_holds(s: Seq<u8>, p: int, t: TermDocs)
    requires
        holds_at(s, p, doc_bytes(t)),
    ensures
        holds_at(s, p + block_off(t, full_blocks(t)), tail_bytes(t)),
{
    let all = groups_bytes(t, full_groups(t));
    let rest = blocks_bytes(t, 32 * full_groups(t), full_blocks(t));
    lemma_holds_concat(s, p, all + rest, tail_bytes(t));
}

/// What is read of a block at `p`: the length of what comes before the packed
/// data, how far the documents go, how long the rest is, and the packed data.
pub open spec fn block_read_at(s: Seq<u8>, p: int, t: TermDocs, b: int) -> bool {
    let skip = block_skip(t, b).len() as int;
    let head = block_head(t, b).len() as int;
    let packed = block_packed(t, b).len() as int;
    &&& vlong_at(s, p) matches Ok((v, p1)) && ({
        &&& v == skip + head
        &&& vint15_at(s, p1) matches Ok((d, p2)) && ({
            &&& d == doc_before(t.docs, 128 * b + 128) - doc_before(t.docs, 128 * b)
            &&& vlong15_at(s, p2) == Ok::<(u64, int), ErrorKind>(((skip + packed) as u64, p1 + head))
        })
        &&& p1 + head + skip + packed == p + block_bytes(t, b).len()
        &&& holds_at(s, p1 + head, block_skip(t, b))
        &&& p1 >= 0
        &&& packed_read_at(s, p1 + head + skip, t, b, p + block_bytes(t, b).len())
    })
    &&& p + block_bytes(t, b).len() <= s.len()
}

/// What is read of packed data at `p`, which ends at `end`.
pub open spec fn packed_read_at(s: Seq<u8>, p: int, t: TermDocs, b: int, end: int) -> bool {
    if t.has_freqs {
        for_delta_at(s, p) matches Ok((d, q)) && ({
            &&& d == block_deltas(t.docs, b)
            &&& pfor_at(s, q) == Ok::<(Seq<u64>, int), ErrorKind>((block_freqs(t.freqs, b), end))
        })
    } else {
        for_delta_at(s, p) == Ok::<(Seq<u64>, int), ErrorKind>((block_deltas(t.docs, b), end))
    }
}

proof fn lemma_packed_read(s: Seq<u8>, p: int, t: TermDocs, b: int)
    requires
        valid_term_docs(t),
        0 <= b < full_blocks(t),
        holds_at(s, p, block_packed(t, b)),
    ensures
        packed_read_at(s, p, t, b, p + block_packed(t, b).len()),
{
    reveal(block_packed);
    let deltas = block_deltas(t.docs, b);
    let d = for_delta_bytes(deltas);
    lemma_deltas(t, b);
    if t.has_freqs {
        lemma_valid_freqs(t);
        let freqs = block_freqs(t.freqs, b);
        lemma_holds_concat(s, p, d, pfor_bytes(freqs));
        assert forall|i: int| 0 <= i < 128 implies #[trigger] freqs[i] <= 0x7FFF_FFFF by {
            assert(t.freqs[128 * b + i] <= 0x7FFF_FFFF);
        }
        lemma_small_fits(freqs);
        law_pfor_round_trip(s, p + d.len(), freqs);
    } else {
        assert(d + Seq::<u8>::empty() =~= d);
    }
    law_for_delta_round_trip(s, p, deltas);
}

/// Numbers of skip data take a few bytes.
proof fn lemma_vlong15_len(v: nat)
    requires
        v <= u64::MAX,
    ensures
        2 <= vlong15_bytes(v).len() <= 12,
{
    broadcast use crate::bytes::lemma_le_bytes_len;
    lemma2_to64();
    lemma2_to64_rest();
    vstd::arithmetic::power2::lemma_pow2_strictly_increases(64, 70);
    lemma_varint_len_max(v / 0x8000, 10);
}

pub proof fn lemma_block_skip_len(t: TermDocs, b: int)
    requires
        valid_term_docs(t),
        0 <= b < full_blocks(t),
    ensures
        block_skip(t, b).len() <= 17,
{
    reveal(block_skip);
    if t.has_freqs {
        lemma_valid_freqs(t);
        lemma_range_impacts(t.freqs, 128 * b, 128 * b + 128);
        lemma_varint_len(range_impacts(t.freqs, 128 * b, 128 * b + 128).len());
        if t.has_positions {
            lemma_pos_skip_short(t, b, b);
        }
    }
}

proof fn lemma_pos_skip_short(t: TermDocs, from: int, b: int)
    ensures
        2 <= pos_skip(t, from, b).len() <= 11,
{
    let x = ((t.pos_index[b].0 - pos_before(t, from)) % 0x1_0000_0000_0000_0000) as nat;
    lemma2_to64();
    lemma2_to64_rest();
    vstd::arithmetic::power2::lemma_pow2_strictly_increases(64, 70);
    lemma_varint_len_max(x, 10);
    lemma_varint_len(x);
}

/// A block that stands at `p` is read as it should.
pub proof fn lemma_block_read(s: Seq<u8>, p: int, t: TermDocs, b: int)
    requires
        valid_term_docs(t),
        0 <= b < full_blocks(t),
        holds_at(s, p, block_bytes(t, b)),
        s.len() <= i64::MAX,
    ensures
        block_read_at(s, p, t, b),
{
    let skip = block_skip(t, b);
    let packed = block_packed(t, b);
    let step = (doc_before(t.docs, 128 * b + 128) - doc_before(t.docs, 128 * b)) as nat;
    lemma_block_skip_len(t, b);
    lemma_step(t, 128 * b, 128 * b + 128);
    lemma_block_made(t, b);
    reveal(block_head);
    lemma_block_parts(s, p, skip, packed, step);
    let head = vlong15_bytes(step) + vlong15_bytes((skip + packed).len());
    let p1 = vlong_at(s, p)->Ok_0.1;
    lemma_packed_read(s, p1 + head.len() + skip.len(), t, b);
}

/// A block's bytes from its parts.
pub open spec fn made_of(skip: Seq<u8>, packed: Seq<u8>, step: nat) -> Seq<u8> {
    let head = vlong15_bytes(step) + vlong15_bytes((skip + packed).len());
    vlong_of((skip.len() + head.len()) as int) + head + (skip + packed)
}

proof fn lemma_block_made(t: TermDocs, b: int)
    ensures
        block_bytes(t, b) == made_of(block_skip(t, b), block_packed(t, b), (doc_before(t.docs, 128 * b + 128) - doc_before(t.docs, 128 * b)) as nat),
{
    reveal(block_bytes);
    reveal(block_head);
}

proof fn lemma_block_parts(s: Seq<u8>, p: int, skip: Seq<u8>, packed: Seq<u8>, step: nat)
    requires
        holds_at(s, p, made_of(skip, packed, step)),
        skip.len() <= 17,
        step <= 0x7FFF_FFFF,
        s.len() <= i64::MAX,
    ensures
        ({
            let head = (vlong15_bytes(step) + vlong15_bytes((skip + packed).len())).len();
            vlong_at(s, p) matches Ok((v, p1)) && ({
                &&& v == skip.len() + head
                &&& 0 <= p1
                &&& vint15_at(s, p1) matches Ok((d, p2)) && d == step && vlong15_at(s, p2) == Ok::<(u64, int), ErrorKind>(((skip.len() + packed.len()) as u64, p1 + head))
                &&& p1 + head + skip.len() + packed.len() == p + made_of(skip, packed, step).len()
                &&& holds_at(s, p1 + head, skip)
                &&& holds_at(s, p1 + head + skip.len(), packed)
            })
        }),
        p + made_of(skip, packed, step).len() <= s.len(),
{
    let total = (skip + packed).len();
    let head = vlong15_bytes(step) + vlong15_bytes(total);
    let n = skip.len() + head.len();
    let first = vlong_of(n as int);
    lemma_holds_concat(s, p, first + head, skip + packed);
    lemma_holds_concat(s, p, first, head);
    lemma_vlong15_len(step);
    lemma_vlong15_len(total);
    law_vlong_round_trip(s, p, n as i64);
    let p1 = p + first.len();
    lemma_holds_concat(s, p1, vlong15_bytes(step), vlong15_bytes(total));
    law_vlong15_round_trip(s, p1, step as u64);
    law_vlong15_round_trip(s, p1 + vlong15_bytes(step).len(), total as u64);
    lemma_holds_concat(s, p1 + head.len(), skip, packed);
}

/// How far documents go.
pub proof fn lemma_step(t: TermDocs, from: int, to: int)
    requires
        valid_term_docs(t),
        0 <= from < to <= t.docs.len(),
    ensures
        0 < doc_before(t.docs, to) - doc_before(t.docs, from) <= 0x7FFF_FFFF,
        -1 <= doc_before(t.docs, from) < doc_before(t.docs, to) < 0x7FFF_FFFF,
{
    lemma_doc_bound(t, to - 1);
    if from > 0 {
        lemma_doc_pair(t, from - 1, to - 1);
    }
}

/// What is read of the head of group `g` at `p`: how far the documents go,
/// where the group ends, and where its blocks begin.
pub open spec fn group_read_at(s: Seq<u8>, p: int, t: TermDocs, g: int) -> bool {
    let blocks = p + group_head(t, g).len();
    let end = blocks + blocks_bytes(t, 32 * g, 32 * g + 32).len();
    vint_at(s, p) matches Ok((d, p1)) && ({
        &&& d == doc_before(t.docs, 4096 * g + 4096) - doc_before(t.docs, 4096 * g)
        &&& vlong_at(s, p1) matches Ok((len, p2)) && ({
            &&& len == end - p2
            &&& 0 <= p2
            &&& if t.has_freqs {
                &&& short_at(s, p2) matches Ok((n, p3)) && ({
                    &&& n == group_skip(t, g).len() + 2
                    &&& n <= 18
                    &&& p3 == p2 + 2
                    &&& blocks == p3 + n
                    &&& short_at(s, p3) == Ok::<(i16, int), ErrorKind>((range_impacts(t.freqs, 4096 * g, 4096 * g + 4096).len() as i16, p3 + 2))
                    &&& holds_at(s, p3 + 2, group_skip(t, g))
                })
            } else {
                blocks == p2
            }
        })
    })
}

pub proof fn lemma_group_read(s: Seq<u8>, p: int, t: TermDocs, g: int)
    requires
        valid_term_docs(t),
        0 <= g < full_groups(t),
        holds_at(s, p, group_head(t, g)),
        p + group_head(t, g).len() + blocks_bytes(t, 32 * g, 32 * g + 32).len() <= s.len() <= i64::MAX,
    ensures
        group_read_at(s, p, t, g),
{
    broadcast use crate::bytes::lemma_le_bytes_len;
    reveal(group_head);
    let blocks = blocks_bytes(t, 32 * g, 32 * g + 32).len();
    let step = doc_before(t.docs, 4096 * g + 4096) - doc_before(t.docs, 4096 * g);
    lemma_step(t, 4096 * g, 4096 * g + 4096);
    let a = vint_of(step);
    if t.has_freqs {
        lemma_valid_freqs(t);
        let skip = group_skip(t, g);
        let impacts = range_impacts(t.freqs, 4096 * g, 4096 * g + 4096);
        lemma_range_impacts(t.freqs, 4096 * g, 4096 * g + 4096);
        if t.has_positions {
            lemma_pos_skip_short(t, 32 * g, 32 * g + 31);
        }
        assert(skip.len() <= 16);
        let b = vlong_of((4 + skip.len() + blocks) as int);
        let c = short_bytes((skip.len() + 2) as i16);
        let d = short_bytes(impacts.len() as i16);
        lemma_holds_concat(s, p, a, b + c + d + skip);
        lemma_holds_concat(s, p + a.len(), b + c + d, skip);
        lemma_holds_concat(s, p + a.len(), b + c, d);
        lemma_holds_concat(s, p + a.len(), b, c);
        law_vlong_round_trip(s, p + a.len(), (4 + skip.len() + blocks) as i64);
        let p2 = p + a.len() + b.len();
        law_short_round_trip(s, p2, (skip.len() + 2) as i16);
        law_short_round_trip(s, p2 + 2, impacts.len() as i16);
    } else {
        let b = vlong_of(blocks as int);
        lemma_holds_concat(s, p, a, b);
        law_vlong_round_trip(s, p + a.len(), blocks as i64);
    }
    law_vint_round_trip(s, p, step as i32);
}

/// The impacts of `len` bytes at `p` are one pair: the frequency `f` with the
/// norm 1.
pub open spec fn one_impact_at(s: Seq<u8>, p: int, len: int, f: u32) -> bool {
    vint_at(s, p) matches Ok((code, q)) && q == p + len && spec_to_u32(code) % 2 == 0 && spec_to_u32(code) / 2 + 1 == f
}

/// No frequency from `from` to before `to` is above `f`, and one is `f`.
pub open spec fn is_greatest(freqs: Seq<u32>, from: int, to: int, f: u32) -> bool {
    &&& forall|i: int| from <= i < to ==> #[trigger] freqs[i] <= f
    &&& exists|i: int| from <= i < to && #[trigger] freqs[i] == f
}

proof fn lemma_impact_read(s: Seq<u8>, p: int, freqs: Seq<u32>, from: int, to: int)
    requires
        0 <= from < to <= freqs.len(),
        forall|i: int| 0 <= i < freqs.len() ==> 0 < #[trigger] freqs[i] <= 0x7FFF_FFFF,
        holds_at(s, p, range_impacts(freqs, from, to)),
    ensures
        exists|f: u32| #[trigger] is_greatest(freqs, from, to, f) && one_impact_at(s, p, range_impacts(freqs, from, to).len() as int, f),
{
    lemma_range_impacts(freqs, from, to);
    law_max_freq(freqs, from, to);
    let f = max_freq(freqs, from, to);
    crate::doc_ids::lemma_read_u32(s, p, (2 * f - 2) as u32);
    assert(0 < f <= 0x7FFF_FFFF) by {
        let i = choose|i: int| from <= i < to && #[trigger] freqs[i] == f;
        assert(0 < freqs[i]);
    }
    assert(is_greatest(freqs, from, to, f));
}

/// A full block of a term with frequencies says what its greatest frequency
/// is: behind the two numbers of its head stand the length of its impacts and
/// these, one pair.
pub proof fn law_block_impacts(s: Seq<u8>, p: int, t: TermDocs, b: int)
    requires
        valid_term_docs(t),
        t.has_freqs,
        0 <= b < full_blocks(t),
        holds_at(s, p, doc_bytes(t)),
        s.len() <= i64::MAX,
    ensures
        vlong_at(s, p + block_off(t, b)) matches Ok((_, p1)) && vint15_at(s, p1) matches Ok((_, p2)) && vlong15_at(s, p2) matches Ok((_, p3)) && vlong_at(s, p3) matches Ok(
            (len, p4),
        ) && exists|f: u32| #[trigger] is_greatest(t.freqs, 128 * b, 128 * b + 128, f) && one_impact_at(s, p4, len as int, f),
{
    lemma_block_holds(s, p, t, b);
    lemma_block_read(s, p + block_off(t, b), t, b);
    lemma_valid_freqs(t);
    let at = p + block_off(t, b);
    let p1 = vlong_at(s, at)->Ok_0.1;
    let p3 = p1 + block_head(t, b).len();
    reveal(block_skip);
    let impacts = range_impacts(t.freqs, 128 * b, 128 * b + 128);
    let n = vlong_of(impacts.len() as int);
    lemma_range_impacts(t.freqs, 128 * b, 128 * b + 128);
    if t.has_positions {
        lemma_holds_concat(s, p3, n + impacts, pos_skip(t, b, b));
    } else {
        assert(block_skip(t, b) =~= n + impacts);
    }
    lemma_holds_concat(s, p3, n, impacts);
    law_vlong_round_trip(s, p3, impacts.len() as i64);
    lemma_impact_read(s, p3 + n.len(), t.freqs, 128 * b, 128 * b + 128);
}

/// A group of 32 blocks says what its greatest frequency is: behind the two
/// numbers of its head stand the lengths of what it says of itself and of its
/// impacts, and these, one pair.
pub proof fn law_group_impacts(s: Seq<u8>, p: int, t: TermDocs, g: int)
    requires
        valid_term_docs(t),
        t.has_freqs,
        0 <= g < full_groups(t),
        holds_at(s, p, doc_bytes(t)),
        s.len() <= i64::MAX,
    ensures
        vint_at(s, p + group_off(t, g)) matches Ok((_, p1)) && vlong_at(s, p1) matches Ok((_, p2)) && short_at(s, p2) matches Ok((_, p3)) && short_at(s, p3) matches Ok((len, p4))
            && exists|f: u32| #[trigger] is_greatest(t.freqs, 4096 * g, 4096 * g + 4096, f) && one_impact_at(s, p4, len as int, f),
{
    lemma_group_holds(s, p, t, g);
    lemma_group_read(s, p + group_off(t, g), t, g);
    lemma_valid_freqs(t);
    let impacts = range_impacts(t.freqs, 4096 * g, 4096 * g + 4096);
    lemma_range_impacts(t.freqs, 4096 * g, 4096 * g + 4096);
    let p4 = short_at(s, vlong_at(s, vint_at(s, p + group_off(t, g))->Ok_0.1)->Ok_0.1)->Ok_0.1 + 2;
    if t.has_positions {
        lemma_holds_concat(s, p4, impacts, pos_skip(t, 32 * g, 32 * g + 31));
    } else {
        assert(group_skip(t, g) =~= impacts);
    }
    lemma_impact_read(s, p4, t.freqs, 4096 * g, 4096 * g + 4096);
}

} // verus!
