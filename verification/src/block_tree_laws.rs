//! Every term that is pushed onto the tree ends up in its blocks, in order.

use crate::block_tree::{
    any_terms, block_image, blocks_from, blocks_written, entry_key, group_output, index_place, lead, lemma_index_place, lemma_next_cut, lemma_open_count, lemma_root_place, next_cut, open_count, prefixes_closed, starts_with, term_pushed,
    tree_finished, FieldFlags, SubBlock, TreeEntry, TreeModel, MIN_BLOCK,
};
use crate::bytes::{common_prefix, holds_at, lemma_concat_assoc};
use crate::fst_compiler::entry_output;
use vstd::prelude::*;

verus! {

/// The blocks of a group from entry `start` on, if they begin at `fp`.
#[verifier::opaque]
pub open spec fn group_image(entries: Seq<TreeEntry>, len: int, start: int, fp: nat, flags: FieldFlags) -> Seq<u8>
    decreases entries.len() - start,
{
    if !(0 <= start < entries.len()) {
        Seq::empty()
    } else {
        let cut = next_cut(entries, len, start, start + 1);
        let image = block_image(entries.subrange(start, cut), len, cut == entries.len(), fp as int, flags);
        if !(start < cut <= entries.len()) {
            Seq::empty()
        } else {
            image + group_image(entries, len, cut, fp + image.len(), flags)
        }
    }
}

/// Sequences one behind the other.
pub open spec fn joined(parts: Seq<Seq<TreeEntry>>) -> Seq<TreeEntry>
    decreases parts.len(),
{
    if parts.len() == 0 {
        Seq::empty()
    } else {
        joined(parts.drop_last()) + parts.last()
    }
}

/// Blocks are above terms, and above the blocks that begin before them.
pub open spec fn rank(e: TreeEntry) -> nat {
    match e {
        TreeEntry::Term { .. } => 0,
        TreeEntry::Block { fp, .. } => fp as nat + 1,
    }
}

/// At `fp` stand the blocks of `entries`, which share the prefix and rank below
/// the group.
pub open spec fn group_holds(tim: Seq<u8>, prefix: Seq<u8>, fp: u64, flags: FieldFlags, entries: Seq<TreeEntry>, parts: Seq<Seq<TreeEntry>>) -> bool {
    &&& entries.len() > 0
    &&& parts.len() == entries.len()
    &&& holds_at(tim, fp as int, group_image(entries, prefix.len() as int, 0, fp as nat, flags))
    &&& forall|i: int| 0 <= i < entries.len() ==> starts_with(entry_key(#[trigger] entries[i]), prefix) && rank(entries[i]) <= fp
}

/// The terms of an entry: a term is its own, and a group's are those of the
/// entries of its blocks, in order, as they stand in `tim`.
pub open spec fn holds_terms(tim: Seq<u8>, e: TreeEntry, flags: FieldFlags, terms: Seq<TreeEntry>) -> bool
    decreases rank(e),
{
    match e {
        TreeEntry::Term { .. } => terms == seq![e],
        TreeEntry::Block { prefix, fp } => exists|entries: Seq<TreeEntry>, parts: Seq<Seq<TreeEntry>>|
            {
                &&& #[trigger] group_holds(tim, prefix, fp, flags, entries, parts)
                &&& terms == joined(parts)
                &&& forall|i: int| 0 <= i < entries.len() ==> rank(#[trigger] entries[i]) < rank(e) && holds_terms(tim, entries[i], flags, parts[i])
            },
    }
}

/// The terms of a stack.
pub open spec fn stack_holds(tim: Seq<u8>, pending: Seq<TreeEntry>, flags: FieldFlags, parts: Seq<Seq<TreeEntry>>) -> bool {
    &&& parts.len() == pending.len()
    &&& forall|i: int| 0 <= i < pending.len() ==> rank(#[trigger] pending[i]) <= tim.len() && holds_terms(tim, pending[i], flags, parts[i])
}

proof fn lemma_joined_split(parts: Seq<Seq<TreeEntry>>, n: int)
    requires
        0 <= n <= parts.len(),
    ensures
        joined(parts) == joined(parts.take(n)) + joined(parts.skip(n)),
    decreases parts.len() - n,
{
    if n == parts.len() {
        assert(parts.take(n) =~= parts);
        assert(joined(parts.take(n)) + joined(parts.skip(n)) =~= joined(parts));
    } else {
        let d = parts.drop_last();
        lemma_joined_split(d, n);
        assert(d.take(n) =~= parts.take(n));
        assert(parts.skip(n).drop_last() =~= d.skip(n));
        assert(joined(parts) =~= joined(parts.take(n)) + joined(parts.skip(n)));
    }
}

/// Writing a group appends its blocks.
pub(crate) proof fn lemma_blocks_from(entries: Seq<TreeEntry>, len: int, start: int, first: i32, tim: Seq<u8>, subs: Seq<SubBlock>, flags: FieldFlags)
    requires
        0 <= start <= entries.len(),
    ensures
        blocks_from(entries, len, start, first, tim, subs, flags).0 == tim + group_image(entries, len, start, tim.len(), flags),
        subs.len() > 0 ==> blocks_from(entries, len, start, first, tim, subs, flags).1.len() > 0 && blocks_from(entries, len, start, first, tim, subs, flags).1[0] == subs[0],
        start < entries.len() && subs.len() == 0 ==> blocks_from(entries, len, start, first, tim, subs, flags).1.len() > 0 && blocks_from(entries, len, start, first, tim, subs, flags).1[0].fp
            == tim.len() as u64,
    decreases entries.len() - start,
{
    reveal_with_fuel(group_image, 1);
    if start < entries.len() {
        lemma_next_cut(entries, len, start, start + 1);
        let cut = next_cut(entries, len, start, start + 1);
        let image = block_image(entries.subrange(start, cut), len, cut == entries.len(), tim.len() as int, flags);
        let sub = SubBlock { fp: tim.len() as u64, has_terms: any_terms(entries.subrange(start, cut)), lead: first };
        let next = lead(entries[cut], len) as i32;
        lemma_blocks_from(entries, len, cut, next, tim + image, subs.push(sub), flags);
        lemma_concat_assoc(tim, image, group_image(entries, len, cut, tim.len() + image.len(), flags));
    } else {
        assert(tim + Seq::<u8>::empty() =~= tim);
    }
}

/// What stands in `tim` stands there whatever comes behind.
proof fn lemma_kept(tim: Seq<u8>, more: Seq<u8>, e: TreeEntry, flags: FieldFlags, terms: Seq<TreeEntry>)
    requires
        holds_terms(tim, e, flags, terms),
    ensures
        holds_terms(tim + more, e, flags, terms),
    decreases rank(e),
{
    match e {
        TreeEntry::Term { .. } => {},
        TreeEntry::Block { prefix, fp } => {
            let (entries, parts) = choose|entries: Seq<TreeEntry>, parts: Seq<Seq<TreeEntry>>|
                {
                    &&& #[trigger] group_holds(tim, prefix, fp, flags, entries, parts)
                    &&& terms == joined(parts)
                    &&& forall|i: int| 0 <= i < entries.len() ==> rank(#[trigger] entries[i]) < rank(e) && holds_terms(tim, entries[i], flags, parts[i])
                };
            let image = group_image(entries, prefix.len() as int, 0, fp as nat, flags);
            assert((tim + more).subrange(fp as int, fp + image.len()) =~= tim.subrange(fp as int, fp + image.len()));
            assert forall|i: int| 0 <= i < entries.len() implies rank(#[trigger] entries[i]) < rank(e) && holds_terms(tim + more, entries[i], flags, parts[i]) by {
                lemma_kept(tim, more, entries[i], flags, parts[i]);
            }
            assert(group_holds(tim + more, prefix, fp, flags, entries, parts));
        },
    }
}

/// When the top of the stack becomes blocks, no term is lost.
proof fn lemma_written(m: TreeModel, prefix: Seq<u8>, count: int, flags: FieldFlags, parts: Seq<Seq<TreeEntry>>)
    requires
        1 <= count <= m.pending.len(),
        forall|i: int| m.pending.len() - count <= i < m.pending.len() ==> starts_with(entry_key(#[trigger] m.pending[i]), prefix),
        stack_holds(m.tim, m.pending, flags, parts),
        blocks_written(m, prefix, count, flags).tim.len() <= u64::MAX,
    ensures
        ({
            let u = blocks_written(m, prefix, count, flags);
            let n = m.pending.len() - count;
            let after = parts.take(n).push(joined(parts.skip(n)));
            &&& stack_holds(u.tim, u.pending, flags, after)
            &&& joined(after) == joined(parts)
            &&& m.tim.len() <= u.tim.len()
        }),
{
    let n = m.pending.len() - count;
    let entries = m.pending.skip(n);
    let below = parts.skip(n);
    let u = blocks_written(m, prefix, count, flags);
    let after = parts.take(n).push(joined(below));
    lemma_blocks_from(entries, prefix.len() as int, 0, -1i32, m.tim, Seq::empty(), flags);
    let image = group_image(entries, prefix.len() as int, 0, m.tim.len(), flags);
    assert(u.tim == m.tim + image);
    assert forall|i: int| 0 <= i < entries.len() implies starts_with(entry_key(#[trigger] entries[i]), prefix) && rank(entries[i]) <= m.tim.len() && holds_terms(m.tim, entries[i], flags, below[i]) by {
        assert(entries[i] == m.pending[n + i]);
        assert(below[i] == parts[n + i]);
    }
    lemma_group(m.tim, entries, prefix, flags, below);
    assert forall|i: int| 0 <= i < u.pending.len() implies rank(#[trigger] u.pending[i]) <= u.tim.len() && holds_terms(u.tim, u.pending[i], flags, after[i]) by {
        if i < n {
            assert(u.pending[i] == m.pending[i]);
            assert(after[i] == parts[i]);
            lemma_kept(m.tim, image, m.pending[i], flags, parts[i]);
        }
    }
    lemma_joined_split(parts, n);
    assert(after.drop_last() =~= parts.take(n));
}

/// Behind `tim`, the blocks of a group hold the terms of its entries.
proof fn lemma_group(tim: Seq<u8>, entries: Seq<TreeEntry>, prefix: Seq<u8>, flags: FieldFlags, parts: Seq<Seq<TreeEntry>>)
    requires
        entries.len() > 0,
        stack_holds(tim, entries, flags, parts),
        forall|i: int| 0 <= i < entries.len() ==> starts_with(entry_key(#[trigger] entries[i]), prefix),
        tim.len() <= u64::MAX,
    ensures
        ({
            let image = group_image(entries, prefix.len() as int, 0, tim.len(), flags);
            &&& image.len() > 0
            &&& holds_terms(tim + image, TreeEntry::Block { prefix, fp: tim.len() as u64 }, flags, joined(parts))
        }),
{
    let image = group_image(entries, prefix.len() as int, 0, tim.len(), flags);
    let fp = tim.len() as u64;
    let root = TreeEntry::Block { prefix, fp };
    lemma_image_some(entries, prefix.len() as int, tim.len(), flags);
    assert((tim + image).subrange(fp as int, fp + image.len()) =~= image);
    assert(group_holds(tim + image, prefix, fp, flags, entries, parts));
    assert forall|i: int| 0 <= i < entries.len() implies rank(#[trigger] entries[i]) < rank(root) && holds_terms(tim + image, entries[i], flags, parts[i]) by {
        lemma_kept(tim, image, entries[i], flags, parts[i]);
    }
    assert(group_holds(tim + image, prefix, fp, flags, entries, parts));
    lemma_holds_group(tim + image, root, flags, entries, parts, joined(parts));
}

/// What a group holds, from its entries.
proof fn lemma_holds_group(tim: Seq<u8>, e: TreeEntry, flags: FieldFlags, entries: Seq<TreeEntry>, parts: Seq<Seq<TreeEntry>>, terms: Seq<TreeEntry>)
    requires
        e is Block,
        group_holds(tim, e->prefix, e->fp, flags, entries, parts),
        terms == joined(parts),
        forall|i: int| 0 <= i < entries.len() ==> rank(#[trigger] entries[i]) < rank(e) && holds_terms(tim, entries[i], flags, parts[i]),
    ensures
        holds_terms(tim, e, flags, terms),
{
    match e {
        TreeEntry::Term { .. } => {},
        TreeEntry::Block { prefix, fp } => {
            assert forall|i: int| 0 <= i < entries.len() implies rank(#[trigger] entries[i]) < rank(e) && holds_terms(tim, entries[i], flags, parts[i]) by {}
            assert(group_holds(tim, prefix, fp, flags, entries, parts));
        },
    }
}

/// A group takes some bytes.
proof fn lemma_image_some(entries: Seq<TreeEntry>, len: int, fp: nat, flags: FieldFlags)
    requires
        entries.len() > 0,
    ensures
        group_image(entries, len, 0, fp, flags).len() > 0,
{
    reveal_with_fuel(group_image, 1);
    lemma_next_cut(entries, len, 0, 1);
    let cut = next_cut(entries, len, 0, 1);
    let part = entries.subrange(0, cut);
    let code = 2 * part.len() + if cut == entries.len() {
        1int
    } else {
        0
    };
    crate::bytes::lemma_varint_len((code % 0x1_0000_0000) as nat);
}

/// Leaving prefixes loses no term.
proof fn lemma_closed(m: TreeModel, last: Seq<u8>, len: int, shared: int, flags: FieldFlags, parts: Seq<Seq<TreeEntry>>) -> (after: Seq<Seq<TreeEntry>>)
    requires
        0 <= len <= last.len(),
        0 <= shared,
        stack_holds(m.tim, m.pending, flags, parts),
        prefixes_closed(m, last, len, shared, flags).tim.len() <= u64::MAX,
    ensures
        ({
            let c = prefixes_closed(m, last, len, shared, flags);
            &&& stack_holds(c.tim, c.pending, flags, after)
            &&& joined(after) == joined(parts)
            &&& m.tim.len() <= c.tim.len()
            &&& m.pending.len() > 0 ==> c.pending.len() > 0
        }),
    decreases len,
{
    if len <= shared || len <= 0 {
        parts
    } else {
        let prefix = last.take(len);
        let n = open_count(m.pending, prefix) as int;
        if n >= MIN_BLOCK {
            let u = blocks_written(m, prefix, n, flags);
            lemma_open_count(m.pending, prefix);
            lemma_tim_grows(u, last, len - 1, shared, flags);
            lemma_written(m, prefix, n, flags, parts);
            let k = m.pending.len() - n;
            lemma_closed(u, last, len - 1, shared, flags, parts.take(k).push(joined(parts.skip(k))))
        } else {
            lemma_closed(m, last, len - 1, shared, flags, parts)
        }
    }
}

/// The file of blocks only grows.
proof fn lemma_tim_grows(m: TreeModel, last: Seq<u8>, len: int, shared: int, flags: FieldFlags)
    ensures
        m.tim.len() <= prefixes_closed(m, last, len, shared, flags).tim.len(),
    decreases len,
{
    if len > shared && len > 0 {
        let prefix = last.take(len);
        let n = open_count(m.pending, prefix) as int;
        if n >= MIN_BLOCK {
            lemma_open_count(m.pending, prefix);
            lemma_blocks_from(m.pending.skip(m.pending.len() - n), prefix.len() as int, 0, -1i32, m.tim, Seq::empty(), flags);
            lemma_tim_grows(blocks_written(m, prefix, n, flags), last, len - 1, shared, flags);
        } else {
            lemma_tim_grows(m, last, len - 1, shared, flags);
        }
    }
}

/// The tree after the first `n` of a field's terms, behind `tim`.
pub open spec fn tree_of(terms: Seq<TreeEntry>, n: int, tim: Seq<u8>, flags: FieldFlags) -> TreeModel
    decreases n,
{
    if n <= 0 {
        TreeModel { pending: Seq::empty(), tim, index: Seq::empty() }
    } else {
        term_pushed(tree_of(terms, n - 1, tim, flags), last_key(terms, n - 1), terms[n - 1], flags)
    }
}

/// The key of the last of the first `n` terms.
pub open spec fn last_key(terms: Seq<TreeEntry>, n: int) -> Seq<u8> {
    if n <= 0 {
        Seq::empty()
    } else {
        entry_key(terms[n - 1])
    }
}

/// The stack holds the terms that were pushed.
proof fn lemma_pushed(terms: Seq<TreeEntry>, n: int, tim: Seq<u8>, flags: FieldFlags) -> (parts: Seq<Seq<TreeEntry>>)
    requires
        0 <= n <= terms.len(),
        forall|i: int| 0 <= i < terms.len() ==> (#[trigger] terms[i]) is Term,
        tree_of(terms, n, tim, flags).tim.len() <= u64::MAX,
    ensures
        ({
            let m = tree_of(terms, n, tim, flags);
            &&& stack_holds(m.tim, m.pending, flags, parts)
            &&& joined(parts) == terms.take(n)
            &&& n > 0 ==> m.pending.len() > 0
        }),
    decreases n,
{
    if n <= 0 {
        let parts = Seq::<Seq<TreeEntry>>::empty();
        assert(joined(parts) =~= terms.take(0));
        parts
    } else {
        let m = tree_of(terms, n - 1, tim, flags);
        let last = last_key(terms, n - 1);
        let e = terms[n - 1];
        let shared = common_prefix(last, entry_key(e)) as int;
        lemma_tim_grows(m, last, last.len() as int, shared, flags);
        let before = lemma_pushed(terms, n - 1, tim, flags);
        let after = lemma_closed(m, last, last.len() as int, shared, flags, before);
        let parts = after.push(seq![e]);
        let c = prefixes_closed(m, last, last.len() as int, shared, flags);
        let u = tree_of(terms, n, tim, flags);
        assert(u.pending == c.pending.push(e));
        assert(e is Term);
        assert forall|i: int| 0 <= i < u.pending.len() implies rank(#[trigger] u.pending[i]) <= u.tim.len() && holds_terms(u.tim, u.pending[i], flags, parts[i]) by {
            if i < c.pending.len() {
                assert(u.pending[i] == c.pending[i]);
            }
        }
        assert(parts.drop_last() =~= after);
        assert(joined(parts) =~= terms.take(n));
        parts
    }
}

/// Until the field ends, no prefix of the index is empty.
spec fn keys_some(index: Seq<(Seq<u8>, Seq<u8>)>) -> bool {
    forall|i: int| 0 <= i < index.len() ==> (#[trigger] index[i]).0.len() > 0
}

proof fn lemma_closed_keys(m: TreeModel, last: Seq<u8>, len: int, shared: int, flags: FieldFlags)
    requires
        keys_some(m.index),
        len <= last.len(),
        0 <= shared,
    ensures
        keys_some(prefixes_closed(m, last, len, shared, flags).index),
    decreases len,
{
    if len > shared && len > 0 {
        let prefix = last.take(len);
        let n = open_count(m.pending, prefix) as int;
        if n >= MIN_BLOCK {
            let u = blocks_written(m, prefix, n, flags);
            let p = index_place(m.index, prefix);
            lemma_index_place(m.index, prefix);
            assert forall|i: int| 0 <= i < u.index.len() implies (#[trigger] u.index[i]).0.len() > 0 by {
                if i < p {
                    assert(u.index[i] == m.index[i]);
                } else if i > p {
                    assert(u.index[i] == m.index[i - 1]);
                }
            }
            lemma_closed_keys(u, last, len - 1, shared, flags);
        } else {
            lemma_closed_keys(m, last, len - 1, shared, flags);
        }
    }
}

proof fn lemma_tree_keys(terms: Seq<TreeEntry>, n: int, tim: Seq<u8>, flags: FieldFlags)
    requires
        0 <= n <= terms.len(),
    ensures
        keys_some(tree_of(terms, n, tim, flags).index),
    decreases n,
{
    if n > 0 {
        let last = last_key(terms, n - 1);
        lemma_tree_keys(terms, n - 1, tim, flags);
        lemma_closed_keys(tree_of(terms, n - 1, tim, flags), last, last.len() as int, common_prefix(last, entry_key(terms[n - 1])) as int, flags);
    }
}

/// The only empty prefix is found.
proof fn lemma_root_output(index: Seq<(Seq<u8>, Seq<u8>)>)
    requires
        index.len() > 0,
        index[0].0.len() == 0,
        forall|i: int| 1 <= i < index.len() ==> (#[trigger] index[i]).0.len() > 0,
    ensures
        entry_output(index, Seq::empty()) == Some(index[0].1),
    decreases index.len(),
{
    if index.len() == 1 {
        assert(index[0].0 =~= Seq::empty());
    } else {
        assert(index.last().0.len() > 0);
        lemma_root_output(index.drop_last());
    }
}

/// When a field ends, its terms are what the root's blocks hold, in order, and
/// the output of the empty prefix leads to the root's first block.
pub proof fn law_terms_in_blocks(terms: Seq<TreeEntry>, tim: Seq<u8>, flags: FieldFlags)
    requires
        terms.len() > 0,
        forall|i: int| 0 <= i < terms.len() ==> (#[trigger] terms[i]) is Term,
        tree_finished(tree_of(terms, terms.len() as int, tim, flags), last_key(terms, terms.len() as int), flags).tim.len() <= u64::MAX,
    ensures
        ({
            let f = tree_finished(tree_of(terms, terms.len() as int, tim, flags), last_key(terms, terms.len() as int), flags);
            exists|fp: u64, subs: Seq<SubBlock>|
                {
                    &&& f.pending == seq![#[trigger] root_at(fp)]
                    &&& holds_terms(f.tim, root_at(fp), flags, terms)
                    &&& subs.len() > 0
                    &&& subs[0].fp == fp
                    &&& entry_output(f.index, Seq::empty()) == Some(#[trigger] group_output(subs))
                }
        }),
{
    let n = terms.len() as int;
    let last = last_key(terms, n);
    let m = tree_of(terms, n, tim, flags);
    let c = prefixes_closed(m, last, last.len() as int, 0, flags);
    let f = tree_finished(m, last, flags);
    let k = c.pending.len() as int;
    lemma_blocks_from(c.pending.skip(0), 0, 0, -1i32, c.tim, Seq::empty(), flags);
    assert(c.pending.skip(c.pending.len() - k) =~= c.pending.skip(0));
    lemma_tim_grows(m, last, last.len() as int, 0, flags);
    let before = lemma_pushed(terms, n, tim, flags);
    let after = lemma_closed(m, last, last.len() as int, 0, flags, before);
    let empty = Seq::<u8>::empty();
    assert forall|i: int| c.pending.len() - k <= i < c.pending.len() implies starts_with(entry_key(#[trigger] c.pending[i]), empty) by {
        assert(entry_key(c.pending[i]).take(0) =~= empty);
    }
    lemma_written(c, empty, k, flags, after);
    let fp = c.tim.len() as u64;
    let subs = blocks_from(c.pending.skip(0), 0, 0, -1i32, c.tim, Seq::empty(), flags).1;
    assert(after.take(0).push(joined(after.skip(0)))[0] == joined(after.skip(0)));
    assert(after.skip(0) =~= after);
    assert(terms.take(n) =~= terms);
    assert(f.pending =~= seq![root_at(fp)]);
    assert(f.pending[0] == root_at(fp));
    assert(c.pending.skip(0) =~= c.pending);
    lemma_root_place(c.index);
    lemma_tree_keys(terms, n, tim, flags);
    lemma_closed_keys(m, last, last.len() as int, 0, flags);
    assert(f.index[0] == (empty, group_output(subs)));
    assert forall|i: int| 1 <= i < f.index.len() implies (#[trigger] f.index[i]).0.len() > 0 by {
        assert(f.index[i] == c.index[i - 1]);
    }
    lemma_root_output(f.index);
}

/// The root's first block.
pub open spec fn root_at(fp: u64) -> TreeEntry {
    TreeEntry::Block { prefix: Seq::empty(), fp }
}

} // verus!
