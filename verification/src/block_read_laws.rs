//! A block of the terms file is read as its entries: their keys, what kind they
//! are, the statistics of its terms and where their postings are.

use crate::block_tree::{
    any_blocks, block_image, counted, entry_key, lengths_part, metadata_of, occurs_once, run_bytes, stat_bytes, stats_of, suffix_length, suffix_lengths, suffixes, term_bytes, FieldFlags, TermState,
    TreeEntry,
};
use crate::block_unique::{
    image_parts, lemma_count_bound, lemma_image_parts, lemma_lengths_prefix, lemma_metadata_own, lemma_run_ahead, stats_bytes, tail_offset, told_block, told_entry, goes_on, };
use crate::bytes::{byte_at, holds_at, law_vlong_round_trip, lemma_holds_byte, lemma_holds_concat, take_at, vint_at, vint_of, vlong_at, vlong_of};
use crate::doc_ids::lemma_read_u32;
use crate::error::ErrorKind;
use crate::num::{law_zigzag_round_trip, spec_to_u32, unzigzag, zigzag};
use crate::postings_record_laws::counted_at;
use vstd::prelude::*;

verus! {

/// A block whose numbers can be read: longs that are written are not negative.
pub open spec fn readable_block(entries: Seq<TreeEntry>, len: int, fp: int, flags: FieldFlags) -> bool {
    &&& told_block(entries, len, fp, flags)
    &&& fp <= i64::MAX
    &&& 8 * suffixes(entries, len, entries.len() as int).len() + 4 <= i64::MAX
    &&& forall|i: int| 0 <= i < entries.len() && (#[trigger] entries[i]) is Term ==> readable_term(entries[i])
}

pub open spec fn readable_term(e: TreeEntry) -> bool {
    &&& e->state.doc_start_fp < 0x4000_0000_0000_0000
    &&& e->state.pos_start_fp <= i64::MAX
    &&& e->ttf <= i64::MAX
}

// ---------------------------------------------------------------------------
// The parts
// ---------------------------------------------------------------------------

/// The begin of a block at `p`: how many entries it has, whether it is the last
/// of its group, whether all entries are terms, and the entries' suffixes.
#[verifier::opaque]
pub open spec fn block_front_at(s: Seq<u8>, p: int) -> Result<((int, bool, bool, Seq<u8>), int), ErrorKind> {
    match vint_at(s, p) {
        Ok((head, q)) => match vlong_at(s, q) {
            Ok((token, e)) => match take_at(s, e, token as int / 8) {
                Ok((b, z)) => Ok(((spec_to_u32(head) as int / 2, spec_to_u32(head) % 2 == 1, token as int / 4 % 2 == 1, b), z)),
                Err(k) => Err(k),
            },
            Err(k) => Err(k),
        },
        Err(k) => Err(k),
    }
}

/// Bytes behind their number: all of them, or the one that they all are.
#[verifier::opaque]
pub open spec fn lengths_at(s: Seq<u8>, p: int) -> Result<(Seq<u8>, int), ErrorKind> {
    match vint_at(s, p) {
        Ok((v, q)) => {
            let n = spec_to_u32(v) as int / 2;
            if spec_to_u32(v) % 2 == 1 {
                match byte_at(s, q) {
                    Ok((b, z)) => Ok((Seq::new(n as nat, |i: int| b), z)),
                    Err(k) => Err(k),
                }
            } else {
                take_at(s, q, n)
            }
        },
        Err(k) => Err(k),
    }
}

proof fn lemma_lengths_read(s: Seq<u8>, p: int, b: Seq<u8>)
    requires
        2 * b.len() + 1 <= u32::MAX,
        holds_at(s, p, lengths_part(b)),
    ensures
        lengths_at(s, p) == Ok::<(Seq<u8>, int), ErrorKind>((b, p + lengths_part(b).len())),
{
    reveal(lengths_at);
    let n = b.len();
    if crate::block_tree::all_same(b) {
        let head = vint_of(2 * n as int + 1);
        lemma_holds_concat(s, p, head, seq![b[0]]);
        lemma_read_u32(s, p, (2 * n + 1) as u32);
        lemma_holds_byte(s, p + head.len(), b[0]);
        assert(Seq::new(n, |i: int| b[0]) =~= b);
    } else {
        let head = vint_of(2 * n as int);
        lemma_holds_concat(s, p, head, b);
        lemma_read_u32(s, p, (2 * n) as u32);
    }
}

proof fn lemma_counted(s: Seq<u8>, p: int, b: Seq<u8>)
    requires
        b.len() <= u32::MAX,
        holds_at(s, p, counted(b)),
    ensures
        counted_at(s, p) == Ok::<(Seq<u8>, int), ErrorKind>((b, p + counted(b).len())),
{
    reveal(counted_at);
    lemma_holds_concat(s, p, vint_of(b.len() as int), b);
    lemma_read_u32(s, p, b.len() as u32);
}

proof fn lemma_front(s: Seq<u8>, p: int, n: int, last: bool, leaf: bool, b: Seq<u8>)
    requires
        0 <= n < 0x7FFF_FFFF,
        8 * b.len() + 4 <= i64::MAX,
        ({
            let head = 2 * n + if last { 1int } else { 0 };
            let token = 8 * b.len() + if leaf { 4int } else { 0 };
            &&& holds_at(s, p, vint_of(head))
            &&& holds_at(s, p + vint_of(head).len(), vlong_of(token))
            &&& holds_at(s, p + vint_of(head).len() + vlong_of(token).len(), b)
        }),
    ensures
        ({
            let head = 2 * n + if last { 1int } else { 0 };
            let token = 8 * b.len() + if leaf { 4int } else { 0 };
            block_front_at(s, p) == Ok::<((int, bool, bool, Seq<u8>), int), ErrorKind>(((n, last, leaf, b), p + vint_of(head).len() + vlong_of(token).len() + b.len()))
        }),
{
    reveal(block_front_at);
    let head = 2 * n + if last { 1int } else { 0 };
    let token = 8 * b.len() + if leaf { 4int } else { 0 };
    lemma_read_u32(s, p, head as u32);
    law_vlong_round_trip(s, p + vint_of(head).len(), token as i64);
}

/// The parts of a block are read one behind the other: the number of entries,
/// whether the block is the last of its group, whether it has terms only, the
/// suffixes, what is said of their lengths, the statistics and the metadata.
pub proof fn law_block_parts_read(s: Seq<u8>, entries: Seq<TreeEntry>, len: int, last: bool, fp: int, flags: FieldFlags)
    requires
        readable_block(entries, len, fp, flags),
        holds_at(s, fp, block_image(entries, len, last, fp, flags)),
    ensures
        block_front_at(s, fp) matches Ok(((n, l, leaf, b), p)) && lengths_at(s, p) matches Ok((lengths, q)) && counted_at(s, q) matches Ok((stats, e)) && counted_at(s, e) matches Ok(
            (metadata, z),
        ) && ({
            &&& n == entries.len()
            &&& l == last
            &&& leaf <==> forall|i: int| 0 <= i < entries.len() ==> (#[trigger] entries[i]) is Term
            &&& b == suffixes(entries, len, n)
            &&& lengths == suffix_lengths(entries, len, leaf, fp, n)
            &&& stats == stats_bytes(entries, flags.has_freqs)
            &&& metadata == metadata_of(entries, flags.has_positions, n).0
            &&& z == fp + block_image(entries, len, last, fp, flags).len()
        }),
{
    lemma_image_parts(s, entries, len, last, fp, flags);
    let x = image_parts(entries, len, last, fp, flags);
    let leaf = !any_blocks(entries);
    let n = entries.len() as int;
    lemma_front(s, fp, n, last, leaf, x.suffixes);
    let r = fp + vint_of(x.head).len() + vlong_of(x.token).len() + x.suffixes.len();
    lemma_lengths_read(s, r, x.lengths);
    let u = r + lengths_part(x.lengths).len();
    lemma_counted(s, u, x.stats);
    lemma_counted(s, u + counted(x.stats).len(), x.metadata);
    if leaf {
        assert forall|i: int| 0 <= i < entries.len() implies (#[trigger] entries[i]) is Term by {
            if entries[i] is Block {
                assert(any_blocks(entries));
            }
        }
    } else {
        let i = choose|i: int| 0 <= i < entries.len() && (#[trigger] entries[i]) is Block;
        assert(!(entries[i] is Term));
    }
    assert(block_image(entries, len, last, fp, flags).len() == vint_of(x.head).len() + vlong_of(x.token).len() + x.suffixes.len() + lengths_part(x.lengths).len() + counted(x.stats).len() + counted(
        x.metadata,
    ).len());
}

// ---------------------------------------------------------------------------
// Keys and kinds
// ---------------------------------------------------------------------------

/// What is said of an entry: how long its suffix is, and, of a block, where it
/// begins.
pub struct SeenShape {
    pub len: int,
    pub block: Option<int>,
}

/// What is said of the entry at `p`, in a block at `fp`.
pub open spec fn shape_at(s: Seq<u8>, p: int, leaf: bool, fp: int) -> Result<(SeenShape, int), ErrorKind> {
    match vint_at(s, p) {
        Ok((v, q)) => {
            let x = spec_to_u32(v) as int;
            if leaf {
                Ok((SeenShape { len: x, block: None }, q))
            } else if x % 2 == 0 {
                Ok((SeenShape { len: x / 2, block: None }, q))
            } else {
                match vlong_at(s, q) {
                    Ok((d, z)) => Ok((SeenShape { len: x / 2, block: Some(fp - d) }, z)),
                    Err(k) => Err(k),
                }
            }
        },
        Err(k) => Err(k),
    }
}

/// What is said of the first `n` entries.
pub open spec fn shapes_at(s: Seq<u8>, leaf: bool, fp: int, n: int) -> Result<(Seq<SeenShape>, int), ErrorKind>
    decreases n,
{
    if n <= 0 {
        Ok((Seq::empty(), 0))
    } else {
        match shapes_at(s, leaf, fp, n - 1) {
            Ok((before, p)) => match shape_at(s, p, leaf, fp) {
                Ok((x, q)) => Ok((before.push(x), q)),
                Err(k) => Err(k),
            },
            Err(k) => Err(k),
        }
    }
}

pub open spec fn shape_of(e: TreeEntry, len: int) -> SeenShape {
    SeenShape {
        len: entry_key(e).len() - len,
        block: match e {
            TreeEntry::Term { .. } => None,
            TreeEntry::Block { fp, .. } => Some(fp as int),
        },
    }
}

/// Where the suffix of entry `i` begins among the suffixes.
pub open spec fn suffix_at(shapes: Seq<SeenShape>, i: int) -> int
    decreases i,
{
    if i <= 0 {
        0
    } else {
        suffix_at(shapes, i - 1) + shapes[i - 1].len
    }
}

proof fn lemma_shape_read(s: Seq<u8>, p: int, e: TreeEntry, len: int, leaf: bool, fp: int, flags: FieldFlags)
    requires
        told_entry(e, len, fp, flags),
        entry_key(e).len() >= len,
        leaf ==> e is Term,
        0 <= fp <= i64::MAX,
        holds_at(s, p, suffix_length(e, len, leaf, fp)),
    ensures
        shape_at(s, p, leaf, fp) == Ok::<(SeenShape, int), ErrorKind>((shape_of(e, len), p + suffix_length(e, len, leaf, fp).len())),
{
    let n = entry_key(e).len() - len;
    match e {
        TreeEntry::Term { .. } => {
            lemma_read_u32(s, p, (if leaf { n } else { 2 * n }) as u32);
        },
        TreeEntry::Block { fp: own, .. } => {
            let a = vint_of(2 * n + 1);
            lemma_holds_concat(s, p, a, vlong_of(fp - own));
            lemma_read_u32(s, p, (2 * n + 1) as u32);
            law_vlong_round_trip(s, p + a.len(), (fp - own) as i64);
        },
    }
}

proof fn lemma_shapes_read(entries: Seq<TreeEntry>, len: int, fp: int, flags: FieldFlags, n: int)
    requires
        readable_block(entries, len, fp, flags),
        0 <= n <= entries.len(),
    ensures
        ({
            let leaf = !any_blocks(entries);
            shapes_at(suffix_lengths(entries, len, leaf, fp, entries.len() as int), leaf, fp, n) == Ok::<(Seq<SeenShape>, int), ErrorKind>(
                (Seq::new(n as nat, |i: int| shape_of(entries[i], len)), suffix_lengths(entries, len, leaf, fp, n).len() as int),
            )
        }),
    decreases n,
{
    let leaf = !any_blocks(entries);
    let want = Seq::new(n as nat, |i: int| shape_of(entries[i], len));
    if n == 0 {
        assert(want =~= Seq::empty());
    } else {
        let s = suffix_lengths(entries, len, leaf, fp, entries.len() as int);
        let e = entries[n - 1];
        lemma_shapes_read(entries, len, fp, flags, n - 1);
        lemma_lengths_prefix(entries, len, leaf, fp, n - 1, entries.len() as int);
        if leaf && e is Block {
            assert(any_blocks(entries));
        }
        assert(crate::block_tree::valid_entry(e, len) && told_entry(e, len, fp, flags));
        lemma_shape_read(s, suffix_lengths(entries, len, leaf, fp, n - 1).len() as int, e, len, leaf, fp, flags);
        assert(Seq::new((n - 1) as nat, |i: int| shape_of(entries[i], len)).push(shape_of(e, len)) =~= want);
    }
}

proof fn lemma_suffix_stands(entries: Seq<TreeEntry>, len: int, shapes: Seq<SeenShape>, n: int, i: int)
    requires
        0 <= len,
        0 <= i < n <= entries.len(),
        forall|j: int| 0 <= j < entries.len() ==> entry_key(#[trigger] entries[j]).len() >= len,
        shapes.len() == entries.len(),
        forall|j: int| 0 <= j < entries.len() ==> #[trigger] shapes[j] == shape_of(entries[j], len),
    ensures
        suffixes(entries, len, n).len() == suffix_at(shapes, n),
        0 <= suffix_at(shapes, i) <= suffix_at(shapes, i) + shapes[i].len <= suffix_at(shapes, n),
        suffixes(entries, len, n).subrange(suffix_at(shapes, i), suffix_at(shapes, i) + shapes[i].len) == entry_key(entries[i]).skip(len),
    decreases n,
{
    let own = entry_key(entries[n - 1]).skip(len);
    let s = suffixes(entries, len, n);
    let before = suffixes(entries, len, n - 1);
    let p = suffix_at(shapes, i);
    if n > 1 {
        lemma_suffix_stands(entries, len, shapes, n - 1, if i < n - 1 { i } else { 0 });
    }
    assert(before.len() == suffix_at(shapes, n - 1));
    assert(shapes[n - 1].len == own.len());
    if i < n - 1 {
        assert(s.subrange(p, p + shapes[i].len) =~= before.subrange(p, p + shapes[i].len));
    } else {
        assert(s.subrange(p, p + shapes[i].len) =~= own);
    }
}

/// What a block says of its entries is read as their kinds, and where those
/// begin that are blocks; and the suffixes are parted into what the entries' keys
/// have behind the prefix, in order and with nothing left.
pub proof fn law_block_keys_read(entries: Seq<TreeEntry>, len: int, fp: int, flags: FieldFlags)
    requires
        0 <= len,
        readable_block(entries, len, fp, flags),
    ensures
        ({
            let leaf = !any_blocks(entries);
            let n = entries.len() as int;
            let b = suffixes(entries, len, n);
            shapes_at(suffix_lengths(entries, len, leaf, fp, n), leaf, fp, n) matches Ok((shapes, end)) && ({
                &&& shapes.len() == n
                &&& end == suffix_lengths(entries, len, leaf, fp, n).len()
                &&& b.len() == suffix_at(shapes, n)
                &&& forall|i: int|
                    0 <= i < n ==> (#[trigger] shapes[i]).len >= 0 && b.subrange(suffix_at(shapes, i), suffix_at(shapes, i) + shapes[i].len) == entry_key(entries[i]).skip(len)
                &&& forall|i: int|
                    0 <= i < n ==> match entries[i] {
                        TreeEntry::Term { .. } => (#[trigger] shapes[i]).block is None,
                        TreeEntry::Block { fp: own, .. } => shapes[i].block == Some(own as int),
                    }
            })
        }),
{
    let leaf = !any_blocks(entries);
    let n = entries.len() as int;
    lemma_shapes_read(entries, len, fp, flags, n);
    let shapes = shapes_at(suffix_lengths(entries, len, leaf, fp, n), leaf, fp, n)->Ok_0.0;
    let b = suffixes(entries, len, n);
    assert forall|j: int| 0 <= j < n implies entry_key(#[trigger] entries[j]).len() >= len by {
        assert(crate::block_tree::valid_entry(entries[j], len));
    }
    assert forall|i: int| 0 <= i < n implies (#[trigger] shapes[i]).len >= 0 && b.subrange(suffix_at(shapes, i), suffix_at(shapes, i) + shapes[i].len) == entry_key(entries[i]).skip(len) by {
        lemma_suffix_stands(entries, len, shapes, n, i);
    }
    if n > 0 {
        lemma_suffix_stands(entries, len, shapes, n, 0);
    }
}

// ---------------------------------------------------------------------------
// Statistics
// ---------------------------------------------------------------------------

/// A term's document frequency and, if it is said, its total frequency.
pub struct SeenStats {
    pub doc_freq: int,
    pub total: Option<int>,
}

/// What is read of a term's statistics, if `run` terms that occur once are to
/// come before anything is read at `p`.
pub open spec fn stat_at(s: Seq<u8>, p: int, run: int, has_freqs: bool) -> Result<(SeenStats, int, int), ErrorKind> {
    let once = SeenStats { doc_freq: 1, total: if has_freqs { Some(1) } else { None } };
    if run > 0 {
        Ok((once, p, run - 1))
    } else {
        match vint_at(s, p) {
            Ok((v, q)) => {
                let x = spec_to_u32(v) as int;
                if x % 2 == 1 {
                    Ok((once, q, x / 2))
                } else if has_freqs {
                    match vlong_at(s, q) {
                        Ok((d, z)) => Ok((SeenStats { doc_freq: x / 2, total: Some(x / 2 + d) }, z, 0)),
                        Err(k) => Err(k),
                    }
                } else {
                    Ok((SeenStats { doc_freq: x / 2, total: None }, q, 0))
                }
            },
            Err(k) => Err(k),
        }
    }
}

/// The statistics of the terms among the first `n` entries; how far was read, and
/// how many terms that occur once are still to come.
pub open spec fn all_stats_at(s: Seq<u8>, entries: Seq<TreeEntry>, has_freqs: bool, n: int) -> Result<(Map<int, SeenStats>, int, int), ErrorKind>
    decreases n,
{
    if n <= 0 {
        Ok((Map::empty(), 0, 0))
    } else {
        match all_stats_at(s, entries, has_freqs, n - 1) {
            Ok((before, p, run)) => if entries[n - 1] is Term {
                match stat_at(s, p, run, has_freqs) {
                    Ok((x, q, left)) => Ok((before.insert(n - 1, x), q, left)),
                    Err(k) => Err(k),
                }
            } else {
                Ok((before, p, run))
            },
            Err(k) => Err(k),
        }
    }
}

/// How far the statistics of the first `n` entries are read.
spec fn stats_read(entries: Seq<TreeEntry>, has_freqs: bool, n: int) -> bool {
    let s = stats_bytes(entries, has_freqs);
    let (out, count) = stats_of(entries, has_freqs, n);
    all_stats_at(s, entries, has_freqs, n) matches Ok((seen, p, run)) && ({
        &&& count == 0 ==> run == 0 && p == out.len()
        &&& count > 0 ==> (vint_at(s, out.len() as int) matches Ok((v, q)) && q == p && spec_to_u32(v) % 2 == 1 && run == spec_to_u32(v) / 2 + 1 - count)
        &&& forall|i: int|
            0 <= i < n && (#[trigger] entries[i]) is Term ==> seen.dom().contains(i) && seen[i].doc_freq == entries[i]->doc_freq && seen[i].total == if has_freqs {
                Some(entries[i]->ttf as int)
            } else {
                None
            }
    })
}

proof fn lemma_run_read(s: Seq<u8>, p: int, c: nat)
    requires
        0 < c < 0x7FFF_FFFF,
        holds_at(s, p, run_bytes(c)),
    ensures
        vint_at(s, p) matches Ok((v, q)) && spec_to_u32(v) % 2 == 1 && spec_to_u32(v) / 2 + 1 == c && q == p + run_bytes(c).len(),
{
    lemma_read_u32(s, p, (2 * (c - 1) + 1) as u32);
}

proof fn lemma_stat_read(s: Seq<u8>, p: int, df: u32, ttf: u64, has_freqs: bool)
    requires
        2 * df <= u32::MAX,
        has_freqs ==> df <= ttf <= i64::MAX,
        holds_at(s, p, stat_bytes(df, ttf, has_freqs)),
    ensures
        stat_at(s, p, 0, has_freqs) == Ok::<(SeenStats, int, int), ErrorKind>(
            (SeenStats { doc_freq: df as int, total: if has_freqs { Some(ttf as int) } else { None } }, p + stat_bytes(df, ttf, has_freqs).len(), 0),
        ),
{
    let a = vint_of(2 * df as int);
    if has_freqs {
        lemma_holds_concat(s, p, a, vlong_of(ttf - df));
        law_vlong_round_trip(s, p + a.len(), (ttf - df) as i64);
    } else {
        assert(stat_bytes(df, ttf, has_freqs) =~= a);
    }
    lemma_read_u32(s, p, (2 * df) as u32);
}

proof fn lemma_stats_read(entries: Seq<TreeEntry>, len: int, fp: int, flags: FieldFlags, n: int)
    requires
        readable_block(entries, len, fp, flags),
        0 <= n <= entries.len(),
    ensures
        stats_read(entries, flags.has_freqs, n),
    decreases n,
{
    if n > 0 {
        let f = flags.has_freqs;
        let s = stats_bytes(entries, f);
        let e = entries[n - 1];
        lemma_stats_read(entries, len, fp, flags, n - 1);
        let (out, count) = stats_of(entries, f, n - 1);
        let (seen, p, run) = all_stats_at(s, entries, f, n - 1)->Ok_0;
        lemma_count_bound(entries, f, n - 1);
        let c = lemma_run_ahead(entries, f, n - 1);
        if c > 0 {
            lemma_run_read(s, out.len() as int, c);
        }
        if e is Term {
            assert(told_entry(e, len, fp, flags) && readable_term(e));
            if !occurs_once(e->doc_freq, e->ttf, f) {
                lemma_holds_concat(s, out.len() as int, run_bytes(c), stat_bytes(e->doc_freq, e->ttf, f));
                lemma_stat_read(s, out.len() as int + run_bytes(c).len(), e->doc_freq, e->ttf, f);
            }
        }
    }
}

/// The statistics of a block are read as the document frequency and, with
/// frequencies, the total frequency of each of its terms, however the terms that
/// occur once are spread among them.
pub proof fn law_block_stats_read(entries: Seq<TreeEntry>, len: int, fp: int, flags: FieldFlags)
    requires
        readable_block(entries, len, fp, flags),
    ensures
        all_stats_at(stats_bytes(entries, flags.has_freqs), entries, flags.has_freqs, entries.len() as int) matches Ok((seen, end, run)) && end == stats_bytes(
            entries,
            flags.has_freqs,
        ).len() && run == 0 && forall|i: int|
            0 <= i < entries.len() && (#[trigger] entries[i]) is Term ==> seen.dom().contains(i) && seen[i].doc_freq == entries[i]->doc_freq && seen[i].total == if flags.has_freqs {
                Some(entries[i]->ttf as int)
            } else {
                None
            },
{
    lemma_stats_read(entries, len, fp, flags, entries.len() as int);
    let s = stats_bytes(entries, flags.has_freqs);
    let (out, count) = stats_of(entries, flags.has_freqs, entries.len() as int);
    lemma_count_bound(entries, flags.has_freqs, entries.len() as int);
    if count > 0 {
        assert(s.subrange(out.len() as int, s.len() as int) =~= run_bytes(count));
        lemma_run_read(s, out.len() as int, count);
    }
}

// ---------------------------------------------------------------------------
// Where the postings are
// ---------------------------------------------------------------------------

/// Where a term's postings are, as it is read: its documents, its document where
/// there is just one, its positions and their tail (0 where none is said).
pub struct SeenState {
    pub doc: int,
    pub single: Option<int>,
    pub pos: int,
    pub tail: int,
}

pub open spec fn seen_first() -> SeenState {
    SeenState { doc: 0, single: None, pos: 0, tail: 0 }
}

/// A term's metadata at `p` behind that of `last`: a number whose last bit says
/// whether there is just one document. If so, and if the term before has just one
/// too, the rest is the zigzag distance of the two; else it is how far the place
/// of the documents goes on, and a single document comes behind it. With positions
/// come how far their place goes on and where their tail is.
pub open spec fn doc_state_at(s: Seq<u8>, p: int, last: SeenState) -> Result<(SeenState, int), ErrorKind> {
    match vlong_at(s, p) {
        Ok((v, q)) => {
            let x = v as int;
            if x % 2 == 0 {
                Ok((SeenState { doc: last.doc + x / 2, single: None, ..last }, q))
            } else if last.single is Some {
                Ok((SeenState { single: Some(last.single->Some_0 + unzigzag((x / 2) as nat)), ..last }, q))
            } else {
                match vint_at(s, q) {
                    Ok((d, z)) => Ok((SeenState { doc: last.doc + x / 2, single: Some(spec_to_u32(d) as int), ..last }, z)),
                    Err(k) => Err(k),
                }
            }
        },
        Err(k) => Err(k),
    }
}

pub open spec fn state_at(s: Seq<u8>, p: int, last: SeenState, has_positions: bool) -> Result<(SeenState, int), ErrorKind> {
    match doc_state_at(s, p, last) {
        Ok((x, q)) => if has_positions {
            match vlong_at(s, q) {
                Ok((step, e)) => match vlong_at(s, e) {
                    Ok((tail, z)) => Ok((SeenState { pos: last.pos + step, tail: tail as int, ..x }, z)),
                    Err(k) => Err(k),
                },
                Err(k) => Err(k),
            }
        } else {
            Ok((x, q))
        },
        Err(k) => Err(k),
    }
}

/// Where the postings of the terms among the first `n` entries are; the last of
/// these; how far was read.
pub open spec fn all_states_at(s: Seq<u8>, entries: Seq<TreeEntry>, has_positions: bool, n: int) -> Result<(Map<int, SeenState>, SeenState, int), ErrorKind>
    decreases n,
{
    if n <= 0 {
        Ok((Map::empty(), seen_first(), 0))
    } else {
        match all_states_at(s, entries, has_positions, n - 1) {
            Ok((before, last, p)) => if entries[n - 1] is Term {
                match state_at(s, p, last, has_positions) {
                    Ok((x, q)) => Ok((before.insert(n - 1, x), x, q)),
                    Err(k) => Err(k),
                }
            } else {
                Ok((before, last, p))
            },
            Err(k) => Err(k),
        }
    }
}

/// A state is seen as it is.
pub open spec fn seen_as(x: SeenState, t: TermState, has_positions: bool) -> bool {
    &&& x.doc == t.doc_start_fp
    &&& x.single == if t.singleton_doc_id != -1 { Some(t.singleton_doc_id as int) } else { None }
    &&& has_positions ==> x.pos == t.pos_start_fp && x.tail == if t.last_pos_block_offset > 0 { t.last_pos_block_offset as int } else { 0 }
}

proof fn lemma_doc_state_read(s: Seq<u8>, p: int, last: TermState, x: SeenState, t: TermState)
    requires
        goes_on(last, t),
        -1 <= last.singleton_doc_id <= i32::MAX,
        t.doc_start_fp < 0x4000_0000_0000_0000,
        x.doc == last.doc_start_fp,
        x.single == if last.singleton_doc_id != -1 { Some(last.singleton_doc_id as int) } else { None },
        holds_at(s, p, term_bytes(last, t, false)),
    ensures
        doc_state_at(s, p, x) == Ok::<(SeenState, int), ErrorKind>(
            (
                SeenState { doc: t.doc_start_fp as int, single: if t.singleton_doc_id != -1 { Some(t.singleton_doc_id as int) } else { None }, ..x },
                p + term_bytes(last, t, false).len(),
            ),
        ),
{
    let step = t.doc_start_fp - last.doc_start_fp;
    if last.singleton_doc_id != -1 && t.singleton_doc_id != -1 {
        let z = zigzag(t.singleton_doc_id - last.singleton_doc_id);
        law_zigzag_round_trip(t.singleton_doc_id - last.singleton_doc_id);
        let code = 2 * z as int + 1;
        assert(term_bytes(last, t, false) =~= vlong_of(code));
        law_vlong_round_trip(s, p, code as i64);
    } else if t.singleton_doc_id != -1 {
        let code = 2 * step + 1;
        let d = vint_of(t.singleton_doc_id as int);
        assert(term_bytes(last, t, false) =~= vlong_of(code) + d);
        lemma_holds_concat(s, p, vlong_of(code), d);
        law_vlong_round_trip(s, p, code as i64);
        lemma_read_u32(s, p + vlong_of(code).len(), t.singleton_doc_id as u32);
    } else {
        assert(term_bytes(last, t, false) =~= vlong_of(2 * step));
        law_vlong_round_trip(s, p, (2 * step) as i64);
    }
}

proof fn lemma_state_read(s: Seq<u8>, p: int, last: TermState, x: SeenState, t: TermState, has_positions: bool)
    requires
        goes_on(last, t),
        -1 <= last.singleton_doc_id <= i32::MAX,
        t.doc_start_fp < 0x4000_0000_0000_0000,
        t.pos_start_fp <= i64::MAX,
        seen_as(x, last, has_positions),
        holds_at(s, p, term_bytes(last, t, has_positions)),
    ensures
        state_at(s, p, x, has_positions) matches Ok((y, q)) && seen_as(y, t, has_positions) && q == p + term_bytes(last, t, has_positions).len(),
{
    let front = term_bytes(last, t, false);
    if has_positions {
        let step = vlong_of(t.pos_start_fp - last.pos_start_fp);
        let tail = vlong_of(tail_offset(t));
        assert(term_bytes(last, t, true) =~= front + (step + tail));
        lemma_holds_concat(s, p, front, step + tail);
        lemma_holds_concat(s, p + front.len(), step, tail);
        law_vlong_round_trip(s, p + front.len(), (t.pos_start_fp - last.pos_start_fp) as i64);
        law_vlong_round_trip(s, p + front.len() + step.len(), tail_offset(t) as i64);
    }
    lemma_doc_state_read(s, p, last, x, t);
}

proof fn lemma_states_read(entries: Seq<TreeEntry>, len: int, fp: int, flags: FieldFlags, n: int)
    requires
        readable_block(entries, len, fp, flags),
        0 <= n <= entries.len(),
    ensures
        ({
            let h = flags.has_positions;
            let (out, last) = metadata_of(entries, h, n);
            &&& -1 <= last.singleton_doc_id <= i32::MAX
            &&& all_states_at(metadata_of(entries, h, entries.len() as int).0, entries, h, n) matches Ok((seen, x, p)) && ({
                &&& seen_as(x, last, h)
                &&& p == out.len()
                &&& forall|i: int| 0 <= i < n && (#[trigger] entries[i]) is Term ==> seen.dom().contains(i) && seen_as(seen[i], entries[i]->state, h)
            })
        }),
    decreases n,
{
    if n > 0 {
        let h = flags.has_positions;
        let s = metadata_of(entries, h, entries.len() as int).0;
        let e = entries[n - 1];
        lemma_states_read(entries, len, fp, flags, n - 1);
        let (out, last) = metadata_of(entries, h, n - 1);
        let x = all_states_at(s, entries, h, n - 1)->Ok_0.1;
        if e is Term {
            assert(goes_on(last, e->state) && readable_term(e));
            lemma_metadata_own(entries, h, n - 1, entries.len() as int);
            lemma_state_read(s, out.len() as int, last, x, e->state, h);
        }
    }
}

/// The metadata of a block is read as where the postings of each of its terms
/// are.
pub proof fn law_block_states_read(entries: Seq<TreeEntry>, len: int, fp: int, flags: FieldFlags)
    requires
        readable_block(entries, len, fp, flags),
    ensures
        all_states_at(metadata_of(entries, flags.has_positions, entries.len() as int).0, entries, flags.has_positions, entries.len() as int) matches Ok((seen, _, end)) && ({
            &&& end == metadata_of(entries, flags.has_positions, entries.len() as int).0.len()
            &&& forall|i: int| 0 <= i < entries.len() && (#[trigger] entries[i]) is Term ==> seen.dom().contains(i) && seen_as(seen[i], entries[i]->state, flags.has_positions)
        }),
{
    lemma_states_read(entries, len, fp, flags, entries.len() as int);
}

} // verus!
