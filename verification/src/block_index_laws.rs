//! What the index says of a group of blocks is what the blocks are.

use crate::block_tree::{
    any_terms, block_image, blocks_from, blocks_written, entry_key, floor_bytes, group_output, index_place, lead, lead_byte, lemma_next_cut, next_cut, FieldFlags, SubBlock, TreeEntry, TreeModel,
};
use crate::block_tree_laws::lemma_blocks_from;
use crate::bytes::{byte_at, holds_at, law_vint_round_trip, law_vlong_round_trip, lemma_holds_byte, lemma_holds_concat, vint_at, vint_of, vlong_at, vlong_of};
use crate::error::ErrorKind;
use crate::postings_ll::{law_msb_vlong_round_trip, msb_vlong_at, msb_vlong_bytes};
use vstd::prelude::*;

verus! {

/// A block as a reader of the index sees it: where it begins, whether it holds
/// terms, and the lead byte of its first entry, which is not said of the first
/// block.
pub struct SeenBlock {
    pub fp: int,
    pub has_terms: bool,
    pub lead: Option<u8>,
}

/// The `n` blocks behind the first, which begins at `fp`, as they are told from
/// `p` on.
pub open spec fn floors_at(s: Seq<u8>, p: int, fp: int, n: int) -> Result<(Seq<SeenBlock>, int), ErrorKind>
    decreases n,
{
    if n <= 0 {
        Ok((Seq::empty(), p))
    } else {
        match floors_at(s, p, fp, n - 1) {
            Ok((before, q)) => match byte_at(s, q) {
                Ok((b, e)) => match vlong_at(s, e) {
                    Ok((code, z)) => Ok((before.push(SeenBlock { fp: fp + code as int / 2, has_terms: code as int % 2 == 1, lead: Some(b) }), z)),
                    Err(k) => Err(k),
                },
                Err(k) => Err(k),
            },
            Err(k) => Err(k),
        }
    }
}

/// The blocks of a group, as an output of the index tells them: a number, high
/// groups first, whose last bit says whether there are more blocks and the bit
/// before it whether the first holds terms; then how many more there are, and
/// each with its lead byte and its distance from the first.
pub open spec fn group_seen(s: Seq<u8>) -> Result<(Seq<SeenBlock>, int), ErrorKind> {
    match msb_vlong_at(s, 0, 0) {
        Ok((code, q)) => {
            let first = SeenBlock { fp: code as int / 4, has_terms: code / 2 % 2 == 1, lead: None };
            if code % 2 == 0 {
                Ok((seq![first], q))
            } else {
                match vint_at(s, q) {
                    Ok((n, e)) => match floors_at(s, e, first.fp, n as int) {
                        Ok((more, z)) => Ok((seq![first] + more, z)),
                        Err(k) => Err(k),
                    },
                    Err(k) => Err(k),
                }
            }
        },
        Err(k) => Err(k),
    }
}

/// What should be seen of a block.
pub open spec fn seen_of(subs: Seq<SubBlock>, i: int) -> SeenBlock {
    SeenBlock { fp: subs[i].fp as int, has_terms: subs[i].has_terms, lead: if i == 0 { None } else { Some(lead_byte(subs[i].lead)) } }
}

/// Blocks that lie behind the first, none of them too far on to be told.
pub open spec fn tellable(subs: Seq<SubBlock>) -> bool {
    &&& 0 < subs.len() <= i32::MAX
    &&& forall|i: int| 0 <= i < subs.len() ==> subs[0].fp <= (#[trigger] subs[i]).fp < 0x4000_0000_0000_0000
}

proof fn lemma_floors_read(s: Seq<u8>, p: int, subs: Seq<SubBlock>, n: int)
    requires
        tellable(subs),
        1 <= n <= subs.len(),
        holds_at(s, p, floor_bytes(subs, n)),
    ensures
        floors_at(s, p, subs[0].fp as int, n - 1) == Ok::<(Seq<SeenBlock>, int), ErrorKind>(
            (Seq::new((n - 1) as nat, |i: int| seen_of(subs, i + 1)), p + floor_bytes(subs, n).len()),
        ),
    decreases n,
{
    let want = Seq::new((n - 1) as nat, |i: int| seen_of(subs, i + 1));
    if n == 1 {
        assert(want =~= Seq::empty());
    } else {
        let sub = subs[n - 1];
        let before = floor_bytes(subs, n - 1);
        let mark = if sub.has_terms { 1int } else { 0 };
        let code = 2 * (sub.fp - subs[0].fp) + mark;
        let b = seq![lead_byte(sub.lead)];
        let v = vlong_of(code);
        lemma_holds_concat(s, p, before, b + v);
        lemma_holds_concat(s, p + before.len(), b, v);
        lemma_floors_read(s, p, subs, n - 1);
        let q = p + before.len();
        lemma_holds_byte(s, q, b[0]);
        law_vlong_round_trip(s, q + 1, code as i64);
        let less = Seq::new((n - 2) as nat, |i: int| seen_of(subs, i + 1));
        assert(less.push(seen_of(subs, n - 1)) =~= want);
    }
}

/// The number that an output begins with, and what comes behind it.
proof fn lemma_output_parts(subs: Seq<SubBlock>) -> (code: u64)
    requires
        tellable(subs),
    ensures
        code / 4 == subs[0].fp,
        (code / 2 % 2 == 1) == subs[0].has_terms,
        (code % 2 == 1) == (subs.len() > 1),
        subs.len() > 1 ==> group_output(subs) == msb_vlong_bytes(code as nat) + (vint_of(subs.len() - 1) + floor_bytes(subs, subs.len() as int)),
        subs.len() <= 1 ==> group_output(subs) == msb_vlong_bytes(code as nat),
{
    assert(subs[0].fp < 0x4000_0000_0000_0000);
    let mark = if subs[0].has_terms { 2int } else { 0 };
    let last = if subs.len() > 1 { 1int } else { 0 };
    let code = 4 * subs[0].fp + mark + last;
    assert(msb_vlong_bytes(code as nat) + Seq::<u8>::empty() =~= msb_vlong_bytes(code as nat));
    assert(code % 0x1_0000_0000_0000_0000 == code);
    code as u64
}

/// An output of the index is read as the blocks of its group: where each
/// begins, whether it holds terms, and by which byte the blocks behind the first
/// are found.
pub proof fn law_output_tells_blocks(subs: Seq<SubBlock>)
    requires
        tellable(subs),
    ensures
        group_seen(group_output(subs)) == Ok::<(Seq<SeenBlock>, int), ErrorKind>((Seq::new(subs.len(), |i: int| seen_of(subs, i)), group_output(subs).len() as int)),
{
    let s = group_output(subs);
    let more = subs.len() > 1;
    let code = lemma_output_parts(subs);
    let head = msb_vlong_bytes(code as nat);
    let want = Seq::new(subs.len(), |i: int| seen_of(subs, i));
    assert(s.subrange(0, s.len() as int) =~= s);
    if more {
        let count = vint_of(subs.len() - 1);
        let floors = floor_bytes(subs, subs.len() as int);
        lemma_holds_concat(s, 0, head, count + floors);
        lemma_holds_concat(s, head.len() as int, count, floors);
        law_msb_vlong_round_trip(s, 0, code);
        law_vint_round_trip(s, head.len() as int, (subs.len() - 1) as i32);
        lemma_floors_read(s, (head.len() + count.len()) as int, subs, subs.len() as int);
        let rest = Seq::new((subs.len() - 1) as nat, |i: int| seen_of(subs, i + 1));
        assert(seq![seen_of(subs, 0)] + rest =~= want);
    } else {
        law_msb_vlong_round_trip(s, 0, code);
        assert(want =~= seq![seen_of(subs, 0)]);
    }
}

/// The blocks `seen` are those of the entries, cut at `cuts`: block `i` holds the
/// entries from `cuts[i]` to before `cuts[i + 1]` and stands in `tim` where it is
/// said to; it is said to hold terms exactly if one of its entries is a term; and
/// behind the first it is found by the byte behind the prefix of its first
/// entry.
pub open spec fn blocks_are(tim: Seq<u8>, entries: Seq<TreeEntry>, len: int, flags: FieldFlags, cuts: Seq<int>, seen: Seq<SeenBlock>) -> bool {
    &&& cuts.len() == seen.len() + 1
    &&& cuts[0] == 0
    &&& cuts.last() == entries.len()
    &&& forall|i: int| 0 <= i < seen.len() ==> block_is(tim, entries, len, flags, cuts, #[trigger] seen[i], i)
}

#[verifier::opaque]
pub open spec fn block_is(tim: Seq<u8>, entries: Seq<TreeEntry>, len: int, flags: FieldFlags, cuts: Seq<int>, seen: SeenBlock, i: int) -> bool {
    let (from, to) = (cuts[i], cuts[i + 1]);
    &&& 0 <= from < to <= entries.len()
    &&& holds_at(tim, seen.fp, block_image(entries.subrange(from, to), len, to == entries.len(), seen.fp, flags))
    &&& seen.has_terms <==> exists|j: int| from <= j < to && (#[trigger] entries[j]) is Term
    &&& seen.lead is Some <==> i > 0
    &&& i > 0 && entry_key(entries[from]).len() > len ==> seen.lead == Some(entry_key(entries[from])[len])
}

/// A block that was seen stands there whatever comes behind.
proof fn lemma_block_kept(tim: Seq<u8>, more: Seq<u8>, entries: Seq<TreeEntry>, len: int, flags: FieldFlags, cuts: Seq<int>, next: int, seen: SeenBlock, i: int)
    requires
        0 <= i < cuts.len() - 1,
        block_is(tim, entries, len, flags, cuts, seen, i),
    ensures
        block_is(tim + more, entries, len, flags, cuts.push(next), seen, i),
{
    reveal(block_is);
    let image = block_image(entries.subrange(cuts[i], cuts[i + 1]), len, cuts[i + 1] == entries.len(), seen.fp, flags);
    assert((tim + more).subrange(seen.fp, seen.fp + image.len()) =~= tim.subrange(seen.fp, seen.fp + image.len()));
    assert(cuts.push(next)[i] == cuts[i] && cuts.push(next)[i + 1] == cuts[i + 1]);
}

/// A block that is appended stands there.
proof fn lemma_block_new(tim: Seq<u8>, entries: Seq<TreeEntry>, len: int, flags: FieldFlags, cuts: Seq<int>, seen: SeenBlock, i: int)
    requires
        0 <= i < cuts.len() - 1,
        0 <= cuts[i] < cuts[i + 1] <= entries.len(),
        0 <= len,
        seen.fp == tim.len(),
        seen.has_terms == any_terms(entries.subrange(cuts[i], cuts[i + 1])),
        i == 0 ==> seen.lead is None,
        i > 0 ==> seen.lead == Some(lead_byte(lead(entries[cuts[i]], len) as i32)),
    ensures
        block_is(
            tim + block_image(entries.subrange(cuts[i], cuts[i + 1]), len, cuts[i + 1] == entries.len(), tim.len() as int, flags),
            entries,
            len,
            flags,
            cuts,
            seen,
            i,
        ),
{
    reveal(block_is);
    let (start, cut) = (cuts[i], cuts[i + 1]);
    let part = entries.subrange(start, cut);
    let image = block_image(part, len, cut == entries.len(), tim.len() as int, flags);
    assert((tim + image).subrange(tim.len() as int, (tim.len() + image.len()) as int) =~= image);
    if any_terms(part) {
        let j = choose|j: int| 0 <= j < part.len() && (#[trigger] part[j]) is Term;
        assert(entries[start + j] is Term);
    }
    if exists|j: int| start <= j < cut && (#[trigger] entries[j]) is Term {
        let j = choose|j: int| start <= j < cut && (#[trigger] entries[j]) is Term;
        assert(part[j - start] is Term);
    }
}

/// The blocks so far.
spec fn so_far(tim: Seq<u8>, base: int, entries: Seq<TreeEntry>, len: int, flags: FieldFlags, cuts: Seq<int>, subs: Seq<SubBlock>) -> bool {
    &&& cuts.len() == subs.len() + 1
    &&& cuts[0] == 0
    &&& 0 <= cuts.last() <= entries.len()
    &&& subs.len() <= cuts.last()
    &&& base <= tim.len()
    &&& subs.len() > 0 ==> subs[0].fp == base
    &&& subs.len() == 0 ==> tim.len() == base
    &&& forall|i: int| 0 <= i < subs.len() ==> base <= (#[trigger] subs[i]).fp <= tim.len() && block_is(tim, entries, len, flags, cuts, seen_of(subs, i), i)
}

proof fn lemma_blocks_cut(entries: Seq<TreeEntry>, len: int, start: int, first: i32, tim: Seq<u8>, base: int, subs: Seq<SubBlock>, flags: FieldFlags, cuts: Seq<int>) -> (r: Seq<int>)
    requires
        so_far(tim, base, entries, len, flags, cuts, subs),
        start == cuts.last(),
        0 <= len,
        0 <= start <= entries.len(),
        subs.len() > 0 && start < entries.len() ==> first == lead(entries[start], len),
        blocks_from(entries, len, start, first, tim, subs, flags).0.len() <= u64::MAX,
    ensures
        ({
            let (end, all) = blocks_from(entries, len, start, first, tim, subs, flags);
            so_far(end, base, entries, len, flags, r, all) && r.last() == entries.len()
        }),
    decreases entries.len() - start,
{
    if start >= entries.len() {
        cuts
    } else {
        lemma_next_cut(entries, len, start, start + 1);
        let cut = next_cut(entries, len, start, start + 1);
        let part = entries.subrange(start, cut);
        let image = block_image(part, len, cut == entries.len(), tim.len() as int, flags);
        lemma_blocks_from(entries, len, start, first, tim, subs, flags);
        let sub = SubBlock { fp: tim.len() as u64, has_terms: any_terms(part), lead: first };
        let more = subs.push(sub);
        let next = cuts.push(cut);
        assert forall|i: int| 0 <= i < more.len() implies base <= (#[trigger] more[i]).fp <= (tim + image).len() && block_is(
            tim + image,
            entries,
            len,
            flags,
            next,
            seen_of(more, i),
            i,
        ) by {
            if i < subs.len() {
                assert(more[i] == subs[i]);
                lemma_block_kept(tim, image, entries, len, flags, cuts, cut, seen_of(subs, i), i);
                assert(seen_of(more, i) == seen_of(subs, i));
            } else {
                lemma_block_new(tim, entries, len, flags, next, seen_of(more, i), i);
            }
        }
        lemma_blocks_cut(entries, len, cut, lead(entries[cut], len) as i32, tim + image, base, more, flags, next)
    }
}

/// When entries become the blocks of a group, the output that the index has for
/// their prefix tells exactly these blocks: it is read, to its end, as where each
/// of them begins, whether it holds terms, and by which byte it is found.
pub proof fn law_index_tells_blocks(m: TreeModel, prefix: Seq<u8>, count: int, flags: FieldFlags)
    requires
        1 <= count <= m.pending.len() <= i32::MAX,
        0 <= index_place(m.index, prefix) <= m.index.len(),
        blocks_written(m, prefix, count, flags).tim.len() < 0x4000_0000_0000_0000,
    ensures
        ({
            let u = blocks_written(m, prefix, count, flags);
            let entries = m.pending.skip(m.pending.len() - count);
            let (key, output) = u.index[index_place(m.index, prefix)];
            &&& key == prefix
            &&& group_seen(output) matches Ok((seen, end)) && end == output.len() && seen.len() > 0 && seen[0].fp == m.tim.len() && exists|cuts: Seq<int>| #[trigger]
                blocks_are(u.tim, entries, prefix.len() as int, flags, cuts, seen)
        }),
{
    let u = blocks_written(m, prefix, count, flags);
    let entries = m.pending.skip(m.pending.len() - count);
    let len = prefix.len() as int;
    let (tim, subs) = blocks_from(entries, len, 0, -1i32, m.tim, Seq::empty(), flags);
    let none = Seq::<SubBlock>::empty();
    assert(so_far(m.tim, m.tim.len() as int, entries, len, flags, seq![0], none));
    let cuts = lemma_blocks_cut(entries, len, 0, -1i32, m.tim, m.tim.len() as int, none, flags, seq![0]);
    assert(subs.len() > 0);
    assert(tellable(subs)) by {
        assert forall|i: int| 0 <= i < subs.len() implies subs[0].fp <= (#[trigger] subs[i]).fp < 0x4000_0000_0000_0000 by {}
    }
    law_output_tells_blocks(subs);
    let seen = Seq::new(subs.len(), |i: int| seen_of(subs, i));
    assert(blocks_are(tim, entries, len, flags, cuts, seen));
}

/// A block ends where its group does, or behind at least 25 entries where more
/// than 48 are left and the byte behind the prefix changes; and at the first such
/// place. So a group of up to 48 entries is one block.
pub proof fn law_block_sizes(entries: Seq<TreeEntry>, len: int, start: int)
    requires
        0 <= start < entries.len(),
    ensures
        ({
            let cut = next_cut(entries, len, start, start + 1);
            &&& start < cut <= entries.len()
            &&& entries.len() - start <= 48 ==> cut == entries.len()
            &&& cut < entries.len() ==> cut - start >= 25 && lead(entries[cut], len) != lead(entries[cut - 1], len)
            &&& entries.len() - start > 48 ==> forall|i: int| start + 25 <= i < cut ==> lead(#[trigger] entries[i], len) == lead(entries[i - 1], len)
        }),
{
    lemma_next_cut(entries, len, start, start + 1);
    lemma_first_cut(entries, len, start, start + 1);
}

proof fn lemma_first_cut(entries: Seq<TreeEntry>, len: int, start: int, i: int)
    requires
        0 <= start < i <= entries.len(),
    ensures
        ({
            let cut = next_cut(entries, len, start, i);
            &&& entries.len() - start <= 48 ==> cut == entries.len()
            &&& cut < entries.len() ==> cut - start >= 25 && lead(entries[cut], len) != lead(entries[cut - 1], len)
            &&& entries.len() - start > 48 ==> forall|j: int| start + 25 <= j < cut && i <= j ==> lead(#[trigger] entries[j], len) == lead(entries[j - 1], len)
        }),
    decreases entries.len() - i,
{
    if i < entries.len() {
        lemma_first_cut(entries, len, start, i + 1);
    }
}

} // verus!
