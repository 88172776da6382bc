//! The bytes of a block belong to one list of entries only.

use crate::block_tree::{
    all_same, any_blocks, block_image, counted, entry_key, lemma_next_cut, lengths_part, metadata_of, next_cut, occurs_once, run_bytes, starts_with, stat_bytes, stats_of, suffix_length, suffix_lengths, suffixes, term_bytes, valid_entries,
    valid_state, FieldFlags, TermState, TreeEntry,
};
use crate::block_tree_laws::{group_holds, group_image, joined, rank};
use crate::bytes::{holds_at, lemma_holds_concat, lemma_holds_index, lemma_varint_len, varint_bytes, vint_of, vlong_of};
use crate::num::{law_zigzag_round_trip, zigzag};
use vstd::prelude::*;

verus! {

// ---------------------------------------------------------------------------
// What a block can tell
// ---------------------------------------------------------------------------

/// A term's postings go on from those of the term before it; if both have just
/// one document, no other term's documents were written between them.
pub open spec fn goes_on(last: TermState, s: TermState) -> bool {
    &&& valid_state(s)
    &&& last.doc_start_fp <= s.doc_start_fp
    &&& 2 * s.doc_start_fp < u64::MAX
    &&& last.pos_start_fp <= s.pos_start_fp
    &&& last.singleton_doc_id != -1 && s.singleton_doc_id != -1 ==> last.doc_start_fp == s.doc_start_fp
}

/// An entry whose numbers keep to their widths.
pub open spec fn told_entry(e: TreeEntry, len: int, fp: int, flags: FieldFlags) -> bool {
    &&& entry_key(e).len() - len < 0x7FFF_FFFF
    &&& match e {
        TreeEntry::Term { doc_freq, ttf, .. } => 2 * doc_freq <= u32::MAX && (flags.has_freqs ==> doc_freq <= ttf),
        TreeEntry::Block { fp: own, .. } => own <= fp,
    }
}

/// Entries that make up a block at `fp`.
pub open spec fn told_block(entries: Seq<TreeEntry>, len: int, fp: int, flags: FieldFlags) -> bool {
    let n = entries.len() as int;
    let (stats, count) = stats_of(entries, flags.has_freqs, n);
    &&& n < 0x7FFF_FFFF
    &&& 0 <= fp <= u64::MAX
    &&& valid_entries(entries, len)
    &&& forall|i: int| 0 <= i < n ==> told_entry(#[trigger] entries[i], len, fp, flags)
    &&& forall|i: int| 0 <= i < n && (#[trigger] entries[i]) is Term ==> goes_on(metadata_of(entries, flags.has_positions, i).1, entries[i]->state)
    &&& 8 * suffixes(entries, len, n).len() + 4 <= u64::MAX
    &&& 2 * suffix_lengths(entries, len, !any_blocks(entries), fp, n).len() + 1 <= u32::MAX
    &&& (stats + run_bytes(count)).len() <= u32::MAX
    &&& metadata_of(entries, flags.has_positions, n).0.len() <= u32::MAX
}

/// Two states that tell the same.
pub open spec fn same_state(x: TermState, y: TermState, has_positions: bool) -> bool {
    &&& x.doc_start_fp == y.doc_start_fp
    &&& x.singleton_doc_id == y.singleton_doc_id
    &&& has_positions ==> x.pos_start_fp == y.pos_start_fp
}

/// Where the tail of the positions is, 0 where there is none.
pub open spec fn tail_offset(s: TermState) -> int {
    if s.last_pos_block_offset > 0 {
        s.last_pos_block_offset as int
    } else {
        0
    }
}

/// Entries of one kind, whose suffixes have one length.
pub open spec fn same_shape(a: TreeEntry, b: TreeEntry) -> bool {
    &&& a is Term <==> b is Term
    &&& entry_key(a).len() == entry_key(b).len()
    &&& a is Block ==> a->fp == b->fp
}

/// Terms with the same statistics.
pub open spec fn same_stats(a: TreeEntry, b: TreeEntry, flags: FieldFlags) -> bool {
    a is Term ==> a->doc_freq == b->doc_freq && (flags.has_freqs ==> a->ttf == b->ttf)
}

/// Terms with the same postings.
pub open spec fn same_postings(a: TreeEntry, b: TreeEntry, flags: FieldFlags) -> bool {
    a is Term ==> same_state(a->state, b->state, flags.has_positions) && (flags.has_positions ==> tail_offset(a->state) == tail_offset(b->state))
}

/// Entries that tell the same behind a prefix of length `len`.
pub open spec fn same_entry(a: TreeEntry, b: TreeEntry, len: int, flags: FieldFlags) -> bool {
    &&& same_shape(a, b)
    &&& entry_key(a).skip(len) == entry_key(b).skip(len)
    &&& same_stats(a, b, flags)
    &&& same_postings(a, b, flags)
}

// ---------------------------------------------------------------------------
// Numbers
// ---------------------------------------------------------------------------

proof fn lemma_varint_same(s: Seq<u8>, p: int, x: nat, y: nat)
    requires
        holds_at(s, p, varint_bytes(x)),
        holds_at(s, p, varint_bytes(y)),
    ensures
        x == y,
    decreases x,
{
    lemma_varint_len(x);
    lemma_varint_len(y);
    lemma_holds_index(s, p, varint_bytes(x), 0);
    lemma_holds_index(s, p, varint_bytes(y), 0);
    if x >= 128 {
        assert(y >= 128);
        lemma_holds_concat(s, p, seq![(x % 128 + 128) as u8], varint_bytes(x / 128));
        lemma_holds_concat(s, p, seq![(y % 128 + 128) as u8], varint_bytes(y / 128));
        lemma_varint_same(s, p + 1, x / 128, y / 128);
    }
}

proof fn lemma_vint_same(s: Seq<u8>, p: int, x: int, y: int)
    requires
        holds_at(s, p, vint_of(x)),
        holds_at(s, p, vint_of(y)),
        0 <= x <= u32::MAX,
        0 <= y <= u32::MAX,
    ensures
        x == y,
{
    lemma_varint_same(s, p, (x % 0x1_0000_0000) as nat, (y % 0x1_0000_0000) as nat);
}

proof fn lemma_vlong_same(s: Seq<u8>, p: int, x: int, y: int)
    requires
        holds_at(s, p, vlong_of(x)),
        holds_at(s, p, vlong_of(y)),
        0 <= x <= u64::MAX,
        0 <= y <= u64::MAX,
    ensures
        x == y,
{
    lemma_varint_same(s, p, (x % 0x1_0000_0000_0000_0000) as nat, (y % 0x1_0000_0000_0000_0000) as nat);
}

/// As many bytes at the same place are the same bytes.
proof fn lemma_bytes_same(s: Seq<u8>, p: int, a: Seq<u8>, b: Seq<u8>)
    requires
        holds_at(s, p, a),
        holds_at(s, p, b),
        a.len() == b.len(),
    ensures
        a == b,
{
}

proof fn lemma_counted_same(s: Seq<u8>, p: int, a: Seq<u8>, b: Seq<u8>)
    requires
        holds_at(s, p, counted(a)),
        holds_at(s, p, counted(b)),
        a.len() <= u32::MAX,
        b.len() <= u32::MAX,
    ensures
        a == b,
{
    lemma_holds_concat(s, p, vint_of(a.len() as int), a);
    lemma_holds_concat(s, p, vint_of(b.len() as int), b);
    lemma_vint_same(s, p, a.len() as int, b.len() as int);
    lemma_bytes_same(s, p + vint_of(a.len() as int).len(), a, b);
}

/// Lengths, whether written once or all of them.
proof fn lemma_lengths_part_same(s: Seq<u8>, p: int, a: Seq<u8>, b: Seq<u8>)
    requires
        holds_at(s, p, lengths_part(a)),
        holds_at(s, p, lengths_part(b)),
        2 * a.len() + 1 <= u32::MAX,
        2 * b.len() + 1 <= u32::MAX,
    ensures
        a == b,
{
    let x = 2 * a.len() as int + if all_same(a) {
        1int
    } else {
        0
    };
    let y = 2 * b.len() as int + if all_same(b) {
        1int
    } else {
        0
    };
    let ta = if all_same(a) {
        seq![a[0]]
    } else {
        a
    };
    let tb = if all_same(b) {
        seq![b[0]]
    } else {
        b
    };
    assert(lengths_part(a) == vint_of(x) + ta);
    assert(lengths_part(b) == vint_of(y) + tb);
    lemma_holds_concat(s, p, vint_of(x), ta);
    lemma_holds_concat(s, p, vint_of(y), tb);
    lemma_vint_same(s, p, x, y);
    assert(all_same(a) == all_same(b));
    lemma_bytes_same(s, p + vint_of(x).len(), ta, tb);
    if all_same(a) {
        assert(ta[0] == tb[0]);
        assert(a =~= b);
    }
}

// ---------------------------------------------------------------------------
// Shapes
// ---------------------------------------------------------------------------

pub(crate) proof fn lemma_lengths_prefix(entries: Seq<TreeEntry>, len: int, leaf: bool, fp: int, k: int, n: int)
    requires
        0 <= k < n,
    ensures
        holds_at(suffix_lengths(entries, len, leaf, fp, n), suffix_lengths(entries, len, leaf, fp, k).len() as int, suffix_length(entries[k], len, leaf, fp)),
    decreases n - k,
{
    let all = suffix_lengths(entries, len, leaf, fp, n);
    let before = suffix_lengths(entries, len, leaf, fp, n - 1);
    let own = suffix_length(entries[n - 1], len, leaf, fp);
    if k == n - 1 {
        assert(all.subrange(before.len() as int, (before.len() + own.len()) as int) =~= own);
    } else {
        lemma_lengths_prefix(entries, len, leaf, fp, k, n - 1);
        let q = suffix_lengths(entries, len, leaf, fp, k).len() as int;
        let part = suffix_length(entries[k], len, leaf, fp);
        assert(all.subrange(q, q + part.len()) =~= before.subrange(q, q + part.len()));
    }
}

proof fn lemma_shape_same(s: Seq<u8>, p: int, a: TreeEntry, b: TreeEntry, len: int, leaf: bool, fp: int, flags: FieldFlags)
    requires
        holds_at(s, p, suffix_length(a, len, leaf, fp)),
        holds_at(s, p, suffix_length(b, len, leaf, fp)),
        told_entry(a, len, fp, flags),
        told_entry(b, len, fp, flags),
        entry_key(a).len() >= len,
        entry_key(b).len() >= len,
        0 <= fp <= u64::MAX,
        leaf ==> a is Term && b is Term,
    ensures
        same_shape(a, b),
        suffix_length(a, len, leaf, fp).len() == suffix_length(b, len, leaf, fp).len(),
{
    let m = entry_key(a).len() - len;
    let n = entry_key(b).len() - len;
    let x = if leaf {
        m
    } else if a is Term {
        2 * m
    } else {
        2 * m + 1
    };
    let y = if leaf {
        n
    } else if b is Term {
        2 * n
    } else {
        2 * n + 1
    };
    if a is Block {
        lemma_holds_concat(s, p, vint_of(x), vlong_of(fp - a->fp));
    }
    if b is Block {
        lemma_holds_concat(s, p, vint_of(y), vlong_of(fp - b->fp));
    }
    lemma_vint_same(s, p, x, y);
    if a is Block {
        lemma_vlong_same(s, p + vint_of(x).len(), fp - a->fp, fp - b->fp);
    }
}

/// The lengths tell every entry's shape.
proof fn lemma_shapes(a: Seq<TreeEntry>, b: Seq<TreeEntry>, len: int, leaf: bool, fp: int, flags: FieldFlags, k: int)
    requires
        told_block(a, len, fp, flags),
        told_block(b, len, fp, flags),
        a.len() == b.len(),
        leaf == !any_blocks(a),
        leaf == !any_blocks(b),
        suffix_lengths(a, len, leaf, fp, a.len() as int) == suffix_lengths(b, len, leaf, fp, b.len() as int),
        0 <= k <= a.len(),
    ensures
        suffix_lengths(a, len, leaf, fp, k).len() == suffix_lengths(b, len, leaf, fp, k).len(),
        forall|i: int| 0 <= i < k ==> same_shape(#[trigger] a[i], b[i]),
    decreases k,
{
    if k > 0 {
        lemma_shapes(a, b, len, leaf, fp, flags, k - 1);
        let s = suffix_lengths(a, len, leaf, fp, a.len() as int);
        lemma_lengths_prefix(a, len, leaf, fp, k - 1, a.len() as int);
        lemma_lengths_prefix(b, len, leaf, fp, k - 1, a.len() as int);
        assert(a[k - 1] is Term || a[k - 1] is Block);
        assert(b[k - 1] is Term || b[k - 1] is Block);
        lemma_shape_same(s, suffix_lengths(a, len, leaf, fp, k - 1).len() as int, a[k - 1], b[k - 1], len, leaf, fp, flags);
    }
}

/// Suffixes of the same lengths that stand in the same bytes.
proof fn lemma_suffixes(a: Seq<TreeEntry>, b: Seq<TreeEntry>, len: int, n: int)
    requires
        0 <= n <= a.len(),
        a.len() == b.len(),
        0 <= len,
        valid_entries(a, len),
        valid_entries(b, len),
        forall|i: int| 0 <= i < n ==> same_shape(#[trigger] a[i], b[i]),
        suffixes(a, len, n) == suffixes(b, len, n),
    ensures
        forall|i: int| 0 <= i < n ==> entry_key(#[trigger] a[i]).skip(len) == entry_key(b[i]).skip(len),
    decreases n,
{
    if n > 0 {
        let all = suffixes(a, len, n);
        let xa = suffixes(a, len, n - 1);
        let xb = suffixes(b, len, n - 1);
        let ya = entry_key(a[n - 1]).skip(len);
        let yb = entry_key(b[n - 1]).skip(len);
        assert(same_shape(a[n - 1], b[n - 1]));
        assert(ya.len() == yb.len());
        assert(xa =~= all.take(xa.len() as int));
        assert(xb =~= all.take(xb.len() as int));
        assert(ya =~= all.skip(xa.len() as int));
        assert(yb =~= all.skip(xb.len() as int));
        lemma_suffixes(a, b, len, n - 1);
    }
}

// ---------------------------------------------------------------------------
// Statistics
// ---------------------------------------------------------------------------

/// The statistics of all entries.
pub open spec fn stats_bytes(entries: Seq<TreeEntry>, has_freqs: bool) -> Seq<u8> {
    let (out, count) = stats_of(entries, has_freqs, entries.len() as int);
    out + run_bytes(count)
}

pub(crate) proof fn lemma_count_bound(entries: Seq<TreeEntry>, has_freqs: bool, k: int)
    requires
        0 <= k,
    ensures
        stats_of(entries, has_freqs, k).1 <= k,
    decreases k,
{
    if k > 0 {
        lemma_count_bound(entries, has_freqs, k - 1);
    }
}

/// Behind the statistics of the first `k` entries comes the run that was not
/// written yet, which may have grown, and then the term that ended it.
pub(crate) proof fn lemma_run_ahead(entries: Seq<TreeEntry>, has_freqs: bool, k: int) -> (c: nat)
    requires
        0 <= k <= entries.len(),
    ensures
        stats_of(entries, has_freqs, k).1 <= c <= entries.len(),
        holds_at(stats_bytes(entries, has_freqs), stats_of(entries, has_freqs, k).0.len() as int, run_bytes(c)),
        k < entries.len() && entries[k] is Term && !occurs_once(entries[k]->doc_freq, entries[k]->ttf, has_freqs) ==> {
            &&& c == stats_of(entries, has_freqs, k).1
            &&& holds_at(
                stats_bytes(entries, has_freqs),
                stats_of(entries, has_freqs, k).0.len() as int,
                run_bytes(c) + stat_bytes(entries[k]->doc_freq, entries[k]->ttf, has_freqs),
            )
        },
        k < entries.len() && entries[k] is Term && occurs_once(entries[k]->doc_freq, entries[k]->ttf, has_freqs) ==> c > stats_of(entries, has_freqs, k).1,
    decreases entries.len() - k,
{
    let s = stats_bytes(entries, has_freqs);
    let (out, count) = stats_of(entries, has_freqs, k);
    lemma_count_bound(entries, has_freqs, k);
    if k == entries.len() {
        assert(s.subrange(out.len() as int, (out.len() + run_bytes(count).len()) as int) =~= run_bytes(count));
        count
    } else {
        let e = entries[k];
        if e is Term && !occurs_once(e->doc_freq, e->ttf, has_freqs) {
            let more = run_bytes(count) + stat_bytes(e->doc_freq, e->ttf, has_freqs);
            assert(stats_of(entries, has_freqs, k + 1).0 == out + more);
            lemma_stats_prefix(entries, has_freqs, k + 1);
            assert(s.subrange(0, (out + more).len() as int) =~= out + more);
            lemma_holds_concat(s, 0, out, more);
            lemma_holds_concat(s, out.len() as int, run_bytes(count), stat_bytes(e->doc_freq, e->ttf, has_freqs));
            count
        } else {
            lemma_run_ahead(entries, has_freqs, k + 1)
        }
    }
}

proof fn lemma_stats_prefix(entries: Seq<TreeEntry>, has_freqs: bool, k: int)
    requires
        0 <= k <= entries.len(),
    ensures
        holds_at(stats_bytes(entries, has_freqs), 0, stats_of(entries, has_freqs, k).0),
    decreases entries.len() - k,
{
    let s = stats_bytes(entries, has_freqs);
    let out = stats_of(entries, has_freqs, k).0;
    if k == entries.len() {
        assert(s.subrange(0, out.len() as int) =~= out);
    } else {
        lemma_stats_prefix(entries, has_freqs, k + 1);
        let next = stats_of(entries, has_freqs, k + 1).0;
        assert(next.subrange(0, out.len() as int) =~= out);
        assert(s.subrange(0, out.len() as int) =~= s.subrange(0, next.len() as int).subrange(0, out.len() as int));
    }
}

/// Runs at the same place are as long.
proof fn lemma_run_same(s: Seq<u8>, p: int, c: nat, d: nat)
    requires
        holds_at(s, p, run_bytes(c)),
        holds_at(s, p, run_bytes(d)),
        0 < c < 0x7FFF_FFFF,
        0 < d < 0x7FFF_FFFF,
    ensures
        c == d,
{
    lemma_vint_same(s, p, 2 * (c - 1) + 1, 2 * (d - 1) + 1);
}

/// A run cannot stand where a term's statistics do.
proof fn lemma_run_or_term(s: Seq<u8>, p: int, c: nat, df: u32, ttf: u64, has_freqs: bool)
    requires
        holds_at(s, p, run_bytes(c)),
        0 < c < 0x7FFF_FFFF,
        2 * df <= u32::MAX,
    ensures
        !holds_at(s, p, stat_bytes(df, ttf, has_freqs)),
{
    lemma_holds_concat(
        s,
        p,
        vint_of(2 * df),
        if has_freqs {
            vlong_of(ttf - df)
        } else {
            Seq::empty()
        },
    );
    if holds_at(s, p, stat_bytes(df, ttf, has_freqs)) {
        lemma_vint_same(s, p, 2 * (c - 1) + 1, 2 * df);
    }
}

proof fn lemma_stat_same(s: Seq<u8>, p: int, x: u32, tx: u64, y: u32, ty: u64, has_freqs: bool)
    requires
        holds_at(s, p, stat_bytes(x, tx, has_freqs)),
        holds_at(s, p, stat_bytes(y, ty, has_freqs)),
        2 * x <= u32::MAX,
        2 * y <= u32::MAX,
        has_freqs ==> x <= tx && y <= ty,
    ensures
        x == y,
        has_freqs ==> tx == ty,
        stat_bytes(x, tx, has_freqs).len() == stat_bytes(y, ty, has_freqs).len(),
{
    if has_freqs {
        lemma_holds_concat(s, p, vint_of(2 * x), vlong_of(tx - x));
        lemma_holds_concat(s, p, vint_of(2 * y), vlong_of(ty - y));
    } else {
        assert(stat_bytes(x, tx, has_freqs) =~= vint_of(2 * x));
        assert(stat_bytes(y, ty, has_freqs) =~= vint_of(2 * y));
    }
    lemma_vint_same(s, p, 2 * x, 2 * y);
    if has_freqs {
        lemma_vlong_same(s, p + vint_of(2 * x).len(), tx - x, ty - y);
    }
}

/// Where one list goes on with a run, the other does.
proof fn lemma_not_mixed(a: Seq<TreeEntry>, b: Seq<TreeEntry>, has_freqs: bool, k: int)
    requires
        0 <= k < a.len(),
        a.len() == b.len(),
        a.len() < 0x7FFF_FFFF,
        stats_bytes(a, has_freqs) == stats_bytes(b, has_freqs),
        stats_of(a, has_freqs, k).0.len() == stats_of(b, has_freqs, k).0.len(),
        stats_of(a, has_freqs, k).1 == stats_of(b, has_freqs, k).1,
        a[k] is Term,
        b[k] is Term,
        2 * b[k]->doc_freq <= u32::MAX,
    ensures
        occurs_once(a[k]->doc_freq, a[k]->ttf, has_freqs) ==> occurs_once(b[k]->doc_freq, b[k]->ttf, has_freqs),
{
    let s = stats_bytes(a, has_freqs);
    let p = stats_of(a, has_freqs, k).0.len() as int;
    let c = lemma_run_ahead(a, has_freqs, k);
    let d = lemma_run_ahead(b, has_freqs, k);
    let stat = stat_bytes(b[k]->doc_freq, b[k]->ttf, has_freqs);
    if occurs_once(a[k]->doc_freq, a[k]->ttf, has_freqs) && !occurs_once(b[k]->doc_freq, b[k]->ttf, has_freqs) {
        lemma_holds_concat(s, p, run_bytes(d), stat);
        if d > 0 {
            lemma_run_same(s, p, c, d);
        } else {
            lemma_run_or_term(s, p, c, b[k]->doc_freq, b[k]->ttf, has_freqs);
        }
    }
}

/// The statistics tell every term's frequencies.
proof fn lemma_stats(a: Seq<TreeEntry>, b: Seq<TreeEntry>, len: int, fp: int, flags: FieldFlags, k: int)
    requires
        told_block(a, len, fp, flags),
        told_block(b, len, fp, flags),
        a.len() == b.len(),
        forall|i: int| 0 <= i < a.len() ==> same_shape(#[trigger] a[i], b[i]),
        stats_bytes(a, flags.has_freqs) == stats_bytes(b, flags.has_freqs),
        0 <= k <= a.len(),
    ensures
        stats_of(a, flags.has_freqs, k).0.len() == stats_of(b, flags.has_freqs, k).0.len(),
        stats_of(a, flags.has_freqs, k).1 == stats_of(b, flags.has_freqs, k).1,
        forall|i: int| 0 <= i < k ==> same_stats(#[trigger] a[i], b[i], flags),
    decreases k,
{
    if k > 0 {
        let j = k - 1;
        let has_freqs = flags.has_freqs;
        lemma_stats(a, b, len, fp, flags, j);
        assert(same_shape(a[j], b[j]));
        assert(told_entry(a[j], len, fp, flags) && told_entry(b[j], len, fp, flags));
        if a[j] is Term {
            let x = occurs_once(a[j]->doc_freq, a[j]->ttf, has_freqs);
            let y = occurs_once(b[j]->doc_freq, b[j]->ttf, has_freqs);
            lemma_not_mixed(a, b, has_freqs, j);
            lemma_not_mixed(b, a, has_freqs, j);
            assert(x == y);
            if !x {
                let s = stats_bytes(a, has_freqs);
                let p = stats_of(a, has_freqs, j).0.len() as int;
                let c = lemma_run_ahead(a, has_freqs, j);
                let d = lemma_run_ahead(b, has_freqs, j);
                let sa = stat_bytes(a[j]->doc_freq, a[j]->ttf, has_freqs);
                let sb = stat_bytes(b[j]->doc_freq, b[j]->ttf, has_freqs);
                lemma_holds_concat(s, p, run_bytes(c), sa);
                lemma_holds_concat(s, p, run_bytes(d), sb);
                lemma_stat_same(s, p + run_bytes(c).len(), a[j]->doc_freq, a[j]->ttf, b[j]->doc_freq, b[j]->ttf, has_freqs);
            }
        } else {
            assert(a[j] is Block && b[j] is Block);
        }
    }
}

// ---------------------------------------------------------------------------
// Metadata
// ---------------------------------------------------------------------------

/// The part of a term's metadata on its documents.
spec fn doc_part(last: TermState, s: TermState) -> Seq<u8> {
    if last.singleton_doc_id != -1 && s.singleton_doc_id != -1 && s.doc_start_fp == last.doc_start_fp {
        vlong_of(2 * zigzag(s.singleton_doc_id - last.singleton_doc_id) as int + 1)
    } else if s.singleton_doc_id != -1 {
        vlong_of(2 * (s.doc_start_fp - last.doc_start_fp) + 1) + vint_of(s.singleton_doc_id as int)
    } else {
        vlong_of(2 * (s.doc_start_fp - last.doc_start_fp))
    }
}

/// The part on its positions.
spec fn pos_part(last: TermState, s: TermState) -> Seq<u8> {
    vlong_of(s.pos_start_fp - last.pos_start_fp) + vlong_of(tail_offset(s))
}

/// The first number of the documents' part.
spec fn doc_code(last: TermState, s: TermState) -> int {
    if last.singleton_doc_id != -1 && s.singleton_doc_id != -1 {
        2 * zigzag(s.singleton_doc_id - last.singleton_doc_id) as int + 1
    } else if s.singleton_doc_id != -1 {
        2 * (s.doc_start_fp - last.doc_start_fp) + 1
    } else {
        2 * (s.doc_start_fp - last.doc_start_fp)
    }
}

proof fn lemma_doc_part_same(t: Seq<u8>, p: int, la: TermState, lb: TermState, a: TermState, b: TermState)
    requires
        holds_at(t, p, doc_part(la, a)),
        holds_at(t, p, doc_part(lb, b)),
        la.doc_start_fp == lb.doc_start_fp,
        la.singleton_doc_id == lb.singleton_doc_id,
        valid_state(la),
        goes_on(la, a),
        goes_on(lb, b),
    ensures
        a.doc_start_fp == b.doc_start_fp,
        a.singleton_doc_id == b.singleton_doc_id,
        doc_part(la, a).len() == doc_part(lb, b).len(),
{
    let x = doc_code(la, a);
    let y = doc_code(lb, b);
    let plain = la.singleton_doc_id == -1;
    if plain && a.singleton_doc_id != -1 {
        lemma_holds_concat(t, p, vlong_of(x), vint_of(a.singleton_doc_id as int));
    }
    if plain && b.singleton_doc_id != -1 {
        lemma_holds_concat(t, p, vlong_of(y), vint_of(b.singleton_doc_id as int));
    }
    assert(0 <= x <= u64::MAX);
    assert(0 <= y <= u64::MAX);
    lemma_vlong_same(t, p, x, y);
    if plain {
        if a.singleton_doc_id != -1 {
            assert(b.singleton_doc_id != -1);
            lemma_vint_same(t, p + vlong_of(x).len(), a.singleton_doc_id as int, b.singleton_doc_id as int);
        }
    } else {
        law_zigzag_round_trip(a.singleton_doc_id - la.singleton_doc_id);
        law_zigzag_round_trip(b.singleton_doc_id - lb.singleton_doc_id);
    }
}

proof fn lemma_term_same(t: Seq<u8>, p: int, la: TermState, lb: TermState, a: TermState, b: TermState, has_positions: bool)
    requires
        holds_at(t, p, term_bytes(la, a, has_positions)),
        holds_at(t, p, term_bytes(lb, b, has_positions)),
        same_state(la, lb, has_positions),
        valid_state(la),
        goes_on(la, a),
        goes_on(lb, b),
    ensures
        same_state(a, b, has_positions),
        has_positions ==> tail_offset(a) == tail_offset(b),
        term_bytes(la, a, has_positions).len() == term_bytes(lb, b, has_positions).len(),
{
    let ra = if has_positions {
        pos_part(la, a)
    } else {
        Seq::empty()
    };
    let rb = if has_positions {
        pos_part(lb, b)
    } else {
        Seq::empty()
    };
    assert(term_bytes(la, a, has_positions) == doc_part(la, a) + ra);
    assert(term_bytes(lb, b, has_positions) == doc_part(lb, b) + rb);
    lemma_holds_concat(t, p, doc_part(la, a), ra);
    lemma_holds_concat(t, p, doc_part(lb, b), rb);
    lemma_doc_part_same(t, p, la, lb, a, b);
    if has_positions {
        let q = p + doc_part(la, a).len();
        lemma_holds_concat(t, q, vlong_of(a.pos_start_fp - la.pos_start_fp), vlong_of(tail_offset(a)));
        lemma_holds_concat(t, q, vlong_of(b.pos_start_fp - lb.pos_start_fp), vlong_of(tail_offset(b)));
        lemma_vlong_same(t, q, a.pos_start_fp - la.pos_start_fp, b.pos_start_fp - lb.pos_start_fp);
        lemma_vlong_same(t, q + vlong_of(a.pos_start_fp - la.pos_start_fp).len(), tail_offset(a), tail_offset(b));
    }
}

proof fn lemma_metadata_prefix(entries: Seq<TreeEntry>, has_positions: bool, k: int, n: int)
    requires
        0 <= k <= n,
    ensures
        holds_at(metadata_of(entries, has_positions, n).0, 0, metadata_of(entries, has_positions, k).0),
    decreases n - k,
{
    let out = metadata_of(entries, has_positions, k).0;
    let all = metadata_of(entries, has_positions, n).0;
    if k == n {
        assert(all.subrange(0, out.len() as int) =~= out);
    } else {
        lemma_metadata_prefix(entries, has_positions, k, n - 1);
        let before = metadata_of(entries, has_positions, n - 1).0;
        assert(all.subrange(0, out.len() as int) =~= before.subrange(0, out.len() as int));
    }
}

/// A term's own bytes stand behind those of the terms before it.
pub(crate) proof fn lemma_metadata_own(entries: Seq<TreeEntry>, has_positions: bool, k: int, n: int)
    requires
        0 <= k < n,
        entries[k] is Term,
    ensures
        holds_at(
            metadata_of(entries, has_positions, n).0,
            metadata_of(entries, has_positions, k).0.len() as int,
            term_bytes(metadata_of(entries, has_positions, k).1, entries[k]->state, has_positions),
        ),
{
    let (out, last) = metadata_of(entries, has_positions, k);
    let own = term_bytes(last, entries[k]->state, has_positions);
    assert(metadata_of(entries, has_positions, k + 1).0 == out + own);
    lemma_metadata_prefix(entries, has_positions, k + 1, n);
    lemma_holds_concat(metadata_of(entries, has_positions, n).0, 0, out, own);
}

/// The metadata tells where every term's postings are.
proof fn lemma_metadata(a: Seq<TreeEntry>, b: Seq<TreeEntry>, len: int, fp: int, flags: FieldFlags, k: int)
    requires
        told_block(a, len, fp, flags),
        told_block(b, len, fp, flags),
        a.len() == b.len(),
        forall|i: int| 0 <= i < a.len() ==> same_shape(#[trigger] a[i], b[i]),
        metadata_of(a, flags.has_positions, a.len() as int).0 == metadata_of(b, flags.has_positions, b.len() as int).0,
        0 <= k <= a.len(),
    ensures
        metadata_of(a, flags.has_positions, k).0.len() == metadata_of(b, flags.has_positions, k).0.len(),
        same_state(metadata_of(a, flags.has_positions, k).1, metadata_of(b, flags.has_positions, k).1, flags.has_positions),
        valid_state(metadata_of(a, flags.has_positions, k).1),
        forall|i: int| 0 <= i < k ==> same_postings(#[trigger] a[i], b[i], flags),
    decreases k,
{
    if k > 0 {
        let j = k - 1;
        let hp = flags.has_positions;
        let n = a.len() as int;
        lemma_metadata(a, b, len, fp, flags, j);
        assert(same_shape(a[j], b[j]));
        if a[j] is Term {
            let (oa, la) = metadata_of(a, hp, j);
            let (ob, lb) = metadata_of(b, hp, j);
            lemma_metadata_own(a, hp, j, n);
            lemma_metadata_own(b, hp, j, n);
            lemma_term_same(metadata_of(a, hp, n).0, oa.len() as int, la, lb, a[j]->state, b[j]->state, hp);
        } else {
            assert(a[j] is Block && b[j] is Block);
        }
    }
}

// ---------------------------------------------------------------------------
// Blocks
// ---------------------------------------------------------------------------

/// The bytes of a block tell whether it is the last of its group and, behind
/// the group's prefix, every entry.
pub proof fn law_block_determined(s: Seq<u8>, a: Seq<TreeEntry>, b: Seq<TreeEntry>, len: int, last_a: bool, last_b: bool, fp: int, flags: FieldFlags)
    requires
        0 <= len,
        told_block(a, len, fp, flags),
        told_block(b, len, fp, flags),
        holds_at(s, fp, block_image(a, len, last_a, fp, flags)),
        holds_at(s, fp, block_image(b, len, last_b, fp, flags)),
    ensures
        last_a == last_b,
        a.len() == b.len(),
        forall|i: int| 0 <= i < a.len() ==> same_entry(#[trigger] a[i], b[i], len, flags),
{
    let n = a.len() as int;
    let leaf = !any_blocks(a);
    lemma_parts_same(s, a, b, len, last_a, last_b, fp, flags);
    lemma_shapes(a, b, len, leaf, fp, flags, n);
    lemma_suffixes(a, b, len, n);
    lemma_stats(a, b, len, fp, flags, n);
    lemma_metadata(a, b, len, fp, flags, n);
}

/// The parts of a block are the same.
proof fn lemma_parts_same(s: Seq<u8>, a: Seq<TreeEntry>, b: Seq<TreeEntry>, len: int, last_a: bool, last_b: bool, fp: int, flags: FieldFlags)
    requires
        0 <= len,
        told_block(a, len, fp, flags),
        told_block(b, len, fp, flags),
        holds_at(s, fp, block_image(a, len, last_a, fp, flags)),
        holds_at(s, fp, block_image(b, len, last_b, fp, flags)),
    ensures
        last_a == last_b,
        a.len() == b.len(),
        any_blocks(a) == any_blocks(b),
        suffixes(a, len, a.len() as int) == suffixes(b, len, b.len() as int),
        suffix_lengths(a, len, !any_blocks(a), fp, a.len() as int) == suffix_lengths(b, len, !any_blocks(b), fp, b.len() as int),
        stats_bytes(a, flags.has_freqs) == stats_bytes(b, flags.has_freqs),
        metadata_of(a, flags.has_positions, a.len() as int).0 == metadata_of(b, flags.has_positions, b.len() as int).0,
        block_image(a, len, last_a, fp, flags) == block_image(b, len, last_b, fp, flags),
{
    let x = image_parts(a, len, last_a, fp, flags);
    let y = image_parts(b, len, last_b, fp, flags);
    lemma_image_parts(s, a, len, last_a, fp, flags);
    lemma_image_parts(s, b, len, last_b, fp, flags);
    lemma_vint_same(s, fp, x.head, y.head);
    let p = fp + vint_of(x.head).len();
    lemma_vlong_same(s, p, x.token, y.token);
    let q = p + vlong_of(x.token).len();
    lemma_bytes_same(s, q, x.suffixes, y.suffixes);
    let r = q + x.suffixes.len();
    lemma_lengths_part_same(s, r, x.lengths, y.lengths);
    let u = r + lengths_part(x.lengths).len();
    lemma_counted_same(s, u, x.stats, y.stats);
    lemma_counted_same(s, u + counted(x.stats).len(), x.metadata, y.metadata);
}

/// What a block is put together from.
pub(crate) struct ImageParts {
    pub(crate) head: int,
    pub(crate) token: int,
    pub(crate) suffixes: Seq<u8>,
    pub(crate) lengths: Seq<u8>,
    pub(crate) stats: Seq<u8>,
    pub(crate) metadata: Seq<u8>,
}

pub(crate) open spec fn image_parts(entries: Seq<TreeEntry>, len: int, last: bool, fp: int, flags: FieldFlags) -> ImageParts {
    let n = entries.len() as int;
    let leaf = !any_blocks(entries);
    let s = suffixes(entries, len, n);
    ImageParts {
        head: 2 * n + if last {
            1int
        } else {
            0
        },
        token: 8 * s.len() + if leaf {
            4int
        } else {
            0
        },
        suffixes: s,
        lengths: suffix_lengths(entries, len, leaf, fp, n),
        stats: stats_bytes(entries, flags.has_freqs),
        metadata: metadata_of(entries, flags.has_positions, n).0,
    }
}

pub(crate) proof fn lemma_image_parts(s: Seq<u8>, entries: Seq<TreeEntry>, len: int, last: bool, fp: int, flags: FieldFlags)
    requires
        holds_at(s, fp, block_image(entries, len, last, fp, flags)),
    ensures
        ({
            let x = image_parts(entries, len, last, fp, flags);
            let p = fp + vint_of(x.head).len();
            let q = p + vlong_of(x.token).len();
            let r = q + x.suffixes.len();
            let u = r + lengths_part(x.lengths).len();
            &&& holds_at(s, fp, vint_of(x.head))
            &&& holds_at(s, p, vlong_of(x.token))
            &&& holds_at(s, q, x.suffixes)
            &&& holds_at(s, r, lengths_part(x.lengths))
            &&& holds_at(s, u, counted(x.stats))
            &&& holds_at(s, u + counted(x.stats).len(), counted(x.metadata))
        }),
{
    let x = image_parts(entries, len, last, fp, flags);
    let h = vint_of(x.head);
    let k = vlong_of(x.token);
    let l = lengths_part(x.lengths);
    let c = counted(x.stats);
    let m = counted(x.metadata);
    assert(block_image(entries, len, last, fp, flags) == h + (k + x.suffixes) + l + c + m);
    lemma_holds_concat(s, fp, h + (k + x.suffixes) + l + c, m);
    lemma_holds_concat(s, fp, h + (k + x.suffixes) + l, c);
    lemma_holds_concat(s, fp, h + (k + x.suffixes), l);
    lemma_holds_concat(s, fp, h, k + x.suffixes);
    lemma_holds_concat(s, fp + h.len(), k, x.suffixes);
}

// ---------------------------------------------------------------------------
// Groups and trees
// ---------------------------------------------------------------------------

/// The blocks of a group from entry `start` on can tell their entries.
pub open spec fn told_group(entries: Seq<TreeEntry>, len: int, start: int, fp: nat, flags: FieldFlags) -> bool
    decreases entries.len() - start,
{
    if !(0 <= start < entries.len()) {
        true
    } else {
        let cut = next_cut(entries, len, start, start + 1);
        let part = entries.subrange(start, cut);
        if !(start < cut <= entries.len()) {
            true
        } else {
            &&& told_block(part, len, fp as int, flags)
            &&& told_group(entries, len, cut, fp + block_image(part, len, cut == entries.len(), fp as int, flags).len(), flags)
        }
    }
}

/// Terms that tell the same.
pub open spec fn same_term(a: TreeEntry, b: TreeEntry, flags: FieldFlags) -> bool {
    &&& same_shape(a, b)
    &&& entry_key(a) == entry_key(b)
    &&& same_stats(a, b, flags)
    &&& same_postings(a, b, flags)
}

pub open spec fn same_terms(a: Seq<TreeEntry>, b: Seq<TreeEntry>, flags: FieldFlags) -> bool {
    &&& a.len() == b.len()
    &&& forall|i: int| 0 <= i < a.len() ==> same_term(#[trigger] a[i], b[i], flags)
}

/// The terms of an entry, as they stand in `tim`, if all its blocks can tell
/// their entries.
pub open spec fn tells_terms(tim: Seq<u8>, e: TreeEntry, flags: FieldFlags, terms: Seq<TreeEntry>) -> bool
    decreases rank(e),
{
    match e {
        TreeEntry::Term { .. } => terms == seq![e],
        TreeEntry::Block { prefix, fp } => exists|entries: Seq<TreeEntry>, parts: Seq<Seq<TreeEntry>>|
            {
                &&& #[trigger] group_holds(tim, prefix, fp, flags, entries, parts)
                &&& told_group(entries, prefix.len() as int, 0, fp as nat, flags)
                &&& terms == joined(parts)
                &&& forall|i: int| 0 <= i < entries.len() ==> rank(#[trigger] entries[i]) < rank(e) && tells_terms(tim, entries[i], flags, parts[i])
            },
    }
}

/// The blocks of a group tell its entries.
proof fn lemma_group_same(s: Seq<u8>, a: Seq<TreeEntry>, b: Seq<TreeEntry>, len: int, start: int, fp: nat, flags: FieldFlags)
    requires
        0 <= len,
        0 <= start < a.len(),
        start < b.len(),
        told_group(a, len, start, fp, flags),
        told_group(b, len, start, fp, flags),
        holds_at(s, fp as int, group_image(a, len, start, fp, flags)),
        holds_at(s, fp as int, group_image(b, len, start, fp, flags)),
    ensures
        a.len() == b.len(),
        forall|i: int| start <= i < a.len() ==> same_entry(#[trigger] a[i], b[i], len, flags),
    decreases a.len() - start,
{
    reveal_with_fuel(group_image, 1);
    lemma_next_cut(a, len, start, start + 1);
    lemma_next_cut(b, len, start, start + 1);
    let ca = next_cut(a, len, start, start + 1);
    let cb = next_cut(b, len, start, start + 1);
    let pa = a.subrange(start, ca);
    let pb = b.subrange(start, cb);
    let (la, lb) = (ca == a.len(), cb == b.len());
    let ia = block_image(pa, len, la, fp as int, flags);
    let ib = block_image(pb, len, lb, fp as int, flags);
    lemma_holds_concat(s, fp as int, ia, group_image(a, len, ca, fp + ia.len(), flags));
    lemma_holds_concat(s, fp as int, ib, group_image(b, len, cb, fp + ib.len(), flags));
    law_block_determined(s, pa, pb, len, la, lb, fp as int, flags);
    lemma_parts_same(s, pa, pb, len, la, lb, fp as int, flags);
    assert(ca == cb);
    if !la {
        lemma_group_same(s, a, b, len, ca, fp + ia.len(), flags);
    }
    assert forall|i: int| start <= i < a.len() implies same_entry(#[trigger] a[i], b[i], len, flags) by {
        if i < ca {
            assert(pa[i - start] == a[i]);
            assert(pb[i - start] == b[i]);
        }
    }
}

proof fn lemma_joined_same(a: Seq<Seq<TreeEntry>>, b: Seq<Seq<TreeEntry>>, flags: FieldFlags)
    requires
        a.len() == b.len(),
        forall|i: int| 0 <= i < a.len() ==> same_terms(#[trigger] a[i], b[i], flags),
    ensures
        same_terms(joined(a), joined(b), flags),
    decreases a.len(),
{
    if a.len() > 0 {
        lemma_joined_same(a.drop_last(), b.drop_last(), flags);
        let n = joined(a.drop_last()).len();
        let k = a.len() - 1;
        assert(same_terms(a[k], b[k], flags));
        assert forall|i: int| 0 <= i < joined(a).len() implies same_term(#[trigger] joined(a)[i], joined(b)[i], flags) by {
            if i < n {
                assert(same_term(joined(a.drop_last())[i], joined(b.drop_last())[i], flags));
            } else {
                assert(same_term(a[k][i - n], b[k][i - n], flags));
            }
        }
    }
}

/// Entries behind one prefix that tell the same go by the same bytes.
proof fn lemma_keys_same(a: TreeEntry, b: TreeEntry, prefix: Seq<u8>, flags: FieldFlags)
    requires
        same_entry(a, b, prefix.len() as int, flags),
        starts_with(entry_key(a), prefix),
        starts_with(entry_key(b), prefix),
    ensures
        same_term(a, b, flags),
        a is Block ==> a == b,
{
    let n = prefix.len() as int;
    let (x, y) = (entry_key(a), entry_key(b));
    assert(x =~= x.take(n) + x.skip(n));
    assert(y =~= y.take(n) + y.skip(n));
}

/// The blocks of a tree tell its terms: their bytes, their statistics, and
/// where their postings are.
pub proof fn law_terms_determined(tim: Seq<u8>, e: TreeEntry, flags: FieldFlags, a: Seq<TreeEntry>, b: Seq<TreeEntry>)
    requires
        tells_terms(tim, e, flags, a),
        tells_terms(tim, e, flags, b),
    ensures
        same_terms(a, b, flags),
    decreases rank(e),
{
    match e {
        TreeEntry::Term { .. } => {},
        TreeEntry::Block { prefix, fp } => {
            let (ea, pa) = choose|entries: Seq<TreeEntry>, parts: Seq<Seq<TreeEntry>>|
                {
                    &&& #[trigger] group_holds(tim, prefix, fp, flags, entries, parts)
                    &&& told_group(entries, prefix.len() as int, 0, fp as nat, flags)
                    &&& a == joined(parts)
                    &&& forall|i: int| 0 <= i < entries.len() ==> rank(#[trigger] entries[i]) < rank(e) && tells_terms(tim, entries[i], flags, parts[i])
                };
            let (eb, pb) = choose|entries: Seq<TreeEntry>, parts: Seq<Seq<TreeEntry>>|
                {
                    &&& #[trigger] group_holds(tim, prefix, fp, flags, entries, parts)
                    &&& told_group(entries, prefix.len() as int, 0, fp as nat, flags)
                    &&& b == joined(parts)
                    &&& forall|i: int| 0 <= i < entries.len() ==> rank(#[trigger] entries[i]) < rank(e) && tells_terms(tim, entries[i], flags, parts[i])
                };
            lemma_group_same(tim, ea, eb, prefix.len() as int, 0, fp as nat, flags);
            assert forall|i: int| 0 <= i < pa.len() implies same_terms(#[trigger] pa[i], pb[i], flags) by {
                let (x, y) = (ea[i], eb[i]);
                assert(rank(x) < rank(e) && tells_terms(tim, x, flags, pa[i]));
                assert(rank(y) < rank(e) && tells_terms(tim, y, flags, pb[i]));
                assert(same_entry(x, y, prefix.len() as int, flags));
                lemma_keys_same(x, y, prefix, flags);
                match x {
                    TreeEntry::Term { .. } => {
                        assert(y is Term);
                        assert(pa[i] == seq![x]);
                        assert(pb[i] == seq![y]);
                    },
                    TreeEntry::Block { .. } => {
                        law_terms_determined(tim, x, flags, pa[i], pb[i]);
                    },
                }
            }
            lemma_joined_same(pa, pb, flags);
        },
    }
}

} // verus!
