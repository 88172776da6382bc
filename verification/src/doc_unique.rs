//! The bytes of a term's documents belong to one list of documents and
//! frequencies only.

use crate::bytes::holds_at;
use crate::doc_parse::{block_off, full_blocks, full_groups, group_off, lemma_block_holds, lemma_block_read, lemma_group_holds, lemma_group_read, lemma_step, lemma_tail_holds};
use crate::doc_postings::{block_bytes, block_deltas, block_freqs, blocks_bytes, doc_before, doc_bytes, group_head, lemma_valid_freqs, other_freqs, tail_value, valid_term_docs, TermDocs};
use crate::postings_walk_laws::{lemma_other_freq, lemma_tail_read};
use vstd::prelude::*;

verus! {

/// Two terms whose bytes stand at the same place, with as many documents each.
pub open spec fn same_place(s: Seq<u8>, p: int, a: TermDocs, b: TermDocs) -> bool {
    &&& valid_term_docs(a)
    &&& valid_term_docs(b)
    &&& a.docs.len() == b.docs.len()
    &&& a.has_freqs == b.has_freqs
    &&& holds_at(s, p, doc_bytes(a))
    &&& holds_at(s, p, doc_bytes(b))
    &&& s.len() <= i64::MAX
}

/// They agree on the first `n` documents.
pub open spec fn agree_to(a: TermDocs, b: TermDocs, n: int) -> bool {
    &&& forall|i: int| 0 <= i < n ==> #[trigger] a.docs[i] == b.docs[i]
    &&& a.has_freqs ==> forall|i: int| 0 <= i < n ==> #[trigger] a.freqs[i] == b.freqs[i]
}

proof fn lemma_same_before(a: TermDocs, b: TermDocs, n: int)
    requires
        agree_to(a, b, n),
        n >= 0,
    ensures
        doc_before(a.docs, n) == doc_before(b.docs, n),
{
    if n > 0 {
        assert(a.docs[n - 1] == b.docs[n - 1]);
    }
}

/// Groups begin at the same places.
proof fn lemma_same_groups(s: Seq<u8>, p: int, a: TermDocs, b: TermDocs, g: int)
    requires
        same_place(s, p, a, b),
        0 <= g <= full_groups(a),
    ensures
        group_off(a, g) == group_off(b, g),
        g < full_groups(a) ==> group_head(a, g).len() == group_head(b, g).len(),
    decreases g,
{
    if g > 0 {
        lemma_same_groups(s, p, a, b, g - 1);
        lemma_same_heads(s, p, a, b, g - 1);
        lemma_group_holds(s, p, a, g - 1);
        lemma_group_holds(s, p, b, g - 1);
    }
    if g < full_groups(a) {
        lemma_same_heads(s, p, a, b, g);
    }
}

proof fn lemma_same_heads(s: Seq<u8>, p: int, a: TermDocs, b: TermDocs, g: int)
    requires
        same_place(s, p, a, b),
        0 <= g < full_groups(a),
        group_off(a, g) == group_off(b, g),
    ensures
        group_head(a, g).len() == group_head(b, g).len(),
        blocks_bytes(a, 32 * g, 32 * g + 32).len() == blocks_bytes(b, 32 * g, 32 * g + 32).len(),
{
    lemma_group_holds(s, p, a, g);
    lemma_group_holds(s, p, b, g);
    lemma_group_read(s, p + group_off(a, g), a, g);
    lemma_group_read(s, p + group_off(b, g), b, g);
}

/// A block that begins at the same place holds the same documents.
proof fn lemma_same_block(s: Seq<u8>, p: int, a: TermDocs, b: TermDocs, k: int)
    requires
        same_place(s, p, a, b),
        0 <= k < full_blocks(a),
        block_off(a, k) == block_off(b, k),
        agree_to(a, b, 128 * k),
    ensures
        agree_to(a, b, 128 * k + 128),
        block_bytes(a, k).len() == block_bytes(b, k).len(),
{
    lemma_block_holds(s, p, a, k);
    lemma_block_holds(s, p, b, k);
    lemma_block_read(s, p + block_off(a, k), a, k);
    lemma_block_read(s, p + block_off(b, k), b, k);
    assert(block_deltas(a.docs, k) == block_deltas(b.docs, k));
    lemma_same_docs(a, b, k, 128);
    if a.has_freqs {
        assert(block_freqs(a.freqs, k) == block_freqs(b.freqs, k));
        assert forall|i: int| 0 <= i < 128 * k + 128 implies #[trigger] a.freqs[i] == b.freqs[i] by {
            if i >= 128 * k {
                assert(block_freqs(a.freqs, k)[i - 128 * k] == block_freqs(b.freqs, k)[i - 128 * k]);
            }
        }
    }
}

proof fn lemma_same_docs(a: TermDocs, b: TermDocs, k: int, n: int)
    requires
        valid_term_docs(a),
        valid_term_docs(b),
        a.docs.len() == b.docs.len(),
        0 <= k < full_blocks(a),
        block_deltas(a.docs, k) == block_deltas(b.docs, k),
        forall|i: int| 0 <= i < 128 * k ==> #[trigger] a.docs[i] == b.docs[i],
        0 <= n <= 128,
    ensures
        forall|i: int| 0 <= i < 128 * k + n ==> #[trigger] a.docs[i] == b.docs[i],
    decreases n,
{
    if n > 0 {
        lemma_same_docs(a, b, k, n - 1);
        let i = 128 * k + n - 1;
        assert(block_deltas(a.docs, k)[n - 1] == block_deltas(b.docs, k)[n - 1]);
        lemma_step(a, i, i + 1);
        lemma_step(b, i, i + 1);
        if i > 0 {
            assert(a.docs[i - 1] == b.docs[i - 1]);
        }
        assert(block_deltas(a.docs, k)[n - 1] == (a.docs[i] - doc_before(a.docs, i)) as u64);
        assert(block_deltas(b.docs, k)[n - 1] == (b.docs[i] - doc_before(b.docs, i)) as u64);
        assert(a.docs[i] == doc_before(a.docs, i + 1));
        assert(b.docs[i] == doc_before(b.docs, i + 1));
        assert(a.docs[i] == b.docs[i]);
    }
}

/// Blocks begin at the same places and hold the same documents.
proof fn lemma_same_blocks(s: Seq<u8>, p: int, a: TermDocs, b: TermDocs, k: int)
    requires
        same_place(s, p, a, b),
        0 <= k <= full_blocks(a),
    ensures
        block_off(a, k) == block_off(b, k),
        agree_to(a, b, 128 * k),
    decreases k,
{
    let g = k / 32;
    let n = full_groups(a);
    if k > 0 {
        lemma_same_blocks(s, p, a, b, k - 1);
        lemma_same_block(s, p, a, b, k - 1);
        lemma_block_holds(s, p, a, k - 1);
        lemma_block_holds(s, p, b, k - 1);
    }
    if k % 32 == 0 && g <= n {
        lemma_same_groups(s, p, a, b, g);
        assert(32 * g == k);
        assert(blocks_bytes(a, 32 * g, k) =~= Seq::<u8>::empty());
        assert(blocks_bytes(b, 32 * g, k) =~= Seq::<u8>::empty());
    } else if k > 0 {
        if k % 32 == 0 {
            assert((k - 1) / 32 >= n);
        }
    }
}

/// The bytes of a term's documents determine the documents, and the
/// frequencies where there are some.
pub proof fn law_documents_determined(s: Seq<u8>, p: int, a: TermDocs, b: TermDocs)
    requires
        same_place(s, p, a, b),
    ensures
        a.docs == b.docs,
        a.has_freqs ==> a.freqs == b.freqs,
{
    let n = full_blocks(a);
    lemma_same_blocks(s, p, a, b, n);
    lemma_tail_holds(s, p, a);
    lemma_tail_holds(s, p, b);
    let q = p + block_off(a, n);
    lemma_tail_read(s, q, a);
    lemma_tail_read(s, q, b);
    lemma_same_tail(s, q, a, b, a.docs.len() - 128 * n);
    assert(a.docs =~= b.docs);
    if a.has_freqs {
        lemma_valid_freqs(a);
        lemma_valid_freqs(b);
        assert(a.freqs =~= b.freqs);
    }
}

proof fn lemma_same_tail(s: Seq<u8>, q: int, a: TermDocs, b: TermDocs, i: int)
    requires
        valid_term_docs(a),
        valid_term_docs(b),
        a.docs.len() == b.docs.len(),
        a.has_freqs == b.has_freqs,
        holds_at(s, q, crate::doc_postings::tail_bytes(a)),
        holds_at(s, q, crate::doc_postings::tail_bytes(b)),
        agree_to(a, b, 128 * full_blocks(a)),
        0 <= i <= a.docs.len() - 128 * full_blocks(a),
    ensures
        agree_to(a, b, 128 * full_blocks(a) + i),
        a.has_freqs ==> other_freqs(a.freqs, 128 * full_blocks(a), 128 * full_blocks(a) + i).len() == other_freqs(b.freqs, 128 * full_blocks(a), 128 * full_blocks(a) + i).len(),
    decreases i,
{
    if i > 0 {
        let from = 128 * full_blocks(a);
        let n = a.docs.len() as int;
        let k = from + i - 1;
        lemma_same_tail(s, q, a, b, i - 1);
        lemma_tail_read(s, q, a);
        lemma_tail_read(s, q, b);
        lemma_same_before(a, b, k);
        lemma_step(a, k, k + 1);
        lemma_step(b, k, k + 1);
        let va = Seq::new((n - from) as nat, |i: int| tail_value(a, from + i));
        let vb = Seq::new((n - from) as nat, |i: int| tail_value(b, from + i));
        assert(va[i - 1] == vb[i - 1]);
        assert(tail_value(a, k) == tail_value(b, k));
        if a.has_freqs {
            lemma_valid_freqs(a);
            lemma_valid_freqs(b);
            assert(0 < a.freqs[k] <= 0x7FFF_FFFF);
            assert(0 < b.freqs[k] <= 0x7FFF_FFFF);
            let e = crate::postings_ll::group_vints_at(s, q, (n - from) as nat, Seq::empty())->Ok_0.1;
            lemma_other_freq(s, e, a.freqs, from, k, n);
            lemma_other_freq(s, e, b.freqs, from, k, n);
        }
    }
}

} // verus!
