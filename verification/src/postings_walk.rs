//! How the documents and positions of a term are gone through, whatever the
//! files hold: what each step reads, what it makes of it, and which error ends
//! it. Numbers that a damaged file makes too large go round modulo `2^64`.

use crate::bytes::{byte_at, short_at, vint_at, vlong_at};
use crate::error::ErrorKind;
use crate::num::{spec_to_i64, spec_to_u16, spec_to_u32, spec_to_u64, spec_wrap_add};
use crate::postings_ll::{for_delta_at, group_vints_at, pfor_at, pfor_skip_at, vint15_at, vlong15_at};
use crate::postings_read::{TermEntry, NO_MORE_DOCS};
use vstd::prelude::*;

verus! {

// ---------------------------------------------------------------------------
// What is read
// ---------------------------------------------------------------------------

/// `a` with `d` added, modulo `2^64`.
pub open spec fn plus(a: i64, d: u64) -> i64 {
    spec_to_i64(spec_wrap_add(spec_to_u64(a), d))
}

/// Where a skip of `n` bytes from `p` ends.
pub open spec fn skip_from(s: Seq<u8>, p: int, n: int) -> Result<int, ErrorKind> {
    if p + n <= s.len() {
        Ok(p + n)
    } else if p + n > u64::MAX {
        Err(ErrorKind::InvalidData)
    } else {
        Err(ErrorKind::UnexpectedEof)
    }
}

/// A step of the positions at `p`: how far they go on from `pos`, and how many
/// of the next ones come before.
pub open spec fn pos_step_at(s: Seq<u8>, p: int, pos: (u64, u8)) -> Result<((u64, u8), int), ErrorKind> {
    match vlong_at(s, p) {
        Ok((step, q)) => match byte_at(s, q) {
            Ok((upto, z)) => Ok(((spec_wrap_add(pos.0, spec_to_u64(step)), upto), z)),
            Err(k) => Err(k),
        },
        Err(k) => Err(k),
    }
}

/// Where the positions stand behind a block; its impacts are passed over.
#[verifier::opaque]
pub open spec fn pos_skip_at(s: Seq<u8>, p: int, pos: (u64, u8)) -> Result<((u64, u8), int), ErrorKind> {
    match vlong_at(s, p) {
        Ok((n, q)) => match skip_from(s, q, spec_to_u64(n) as int) {
            Ok(e) => pos_step_at(s, e, pos),
            Err(k) => Err(k),
        },
        Err(k) => Err(k),
    }
}

/// Where the positions stand behind a group; its impacts are passed over.
#[verifier::opaque]
pub open spec fn group_pos_at(s: Seq<u8>, p: int, pos: (u64, u8)) -> Result<((u64, u8), int), ErrorKind> {
    match short_at(s, p) {
        Ok((n, q)) => match skip_from(s, q, spec_to_u16(n) as int) {
            Ok(e) => pos_step_at(s, e, pos),
            Err(k) => Err(k),
        },
        Err(k) => Err(k),
    }
}

/// The head of a full block of documents that have positions: how far its
/// documents go on, where what `total` counts begins, and where the positions
/// stand behind the block.
pub struct BlockHead {
    pub delta: u32,
    pub at: u64,
    pub total: u64,
    pub pos: (u64, u8),
}

/// The head of the block at `p`, before which the positions stand at `pos`, and
/// where its packed data begins.
#[verifier::opaque]
pub open spec fn block_head_at(s: Seq<u8>, p: int, pos: (u64, u8)) -> Result<(BlockHead, int), ErrorKind> {
    match vlong_at(s, p) {
        Ok((_, from)) => match vint15_at(s, from) {
            Ok((delta, q)) => match vlong15_at(s, q) {
                Ok((total, at)) => match pos_skip_at(s, at, pos) {
                    Ok((next, z)) => Ok((BlockHead { delta, at: at as u64, total, pos: next }, z)),
                    Err(k) => Err(k),
                },
                Err(k) => Err(k),
            },
            Err(k) => Err(k),
        },
        Err(k) => Err(k),
    }
}

/// The head of a group: its last document, where it ends, and where the
/// positions stand behind it.
pub struct GroupHead {
    pub last: i64,
    pub end_fp: u64,
    pub pos: (u64, u8),
}

/// The head of the group at `p`, behind the document `last` and the positions
/// `pos`, and where its first block begins. Without positions, what it says of
/// its impacts is passed over if the group reaches `target`, and not looked at
/// otherwise.
#[verifier::opaque]
pub open spec fn group_head_at(s: Seq<u8>, p: int, last: i64, has_freqs: bool, has_positions: bool, pos: (u64, u8), target: i64) -> Result<(GroupHead, int), ErrorKind> {
    match vint_at(s, p) {
        Ok((delta, q)) => match vlong_at(s, q) {
            Ok((len, at)) => {
                let head = GroupHead { last: plus(last, spec_to_u64(delta as i64)), end_fp: spec_wrap_add(spec_to_u64(len), at as u64), pos };
                if has_freqs && has_positions {
                    match short_at(s, at) {
                        Ok((_, e)) => match group_pos_at(s, e, pos) {
                            Ok((next, z)) => Ok((GroupHead { pos: next, ..head }, z)),
                            Err(k) => Err(k),
                        },
                        Err(k) => Err(k),
                    }
                } else if has_freqs && head.last >= target {
                    match short_at(s, at) {
                        Ok((n, e)) => match skip_from(s, e, spec_to_u16(n) as int) {
                            Ok(z) => Ok((head, z)),
                            Err(k) => Err(k),
                        },
                        Err(k) => Err(k),
                    }
                } else {
                    Ok((head, at))
                }
            },
            Err(k) => Err(k),
        },
        Err(k) => Err(k),
    }
}

/// The first `n` documents from their distances, behind `base`.
pub open spec fn summed(deltas: Seq<u64>, n: nat, base: u64) -> Seq<u64>
    decreases n,
{
    if n == 0 {
        Seq::empty()
    } else {
        let before = summed(deltas, (n - 1) as nat, base);
        before.push(spec_wrap_add(deltas[n - 1], if n == 1 { base } else { before.last() }))
    }
}

/// The frequencies of a patched block.
pub open spec fn low_words(v: Seq<u64>) -> Seq<u32> {
    Seq::new(128, |i: int| (v[i] % 0x1_0000_0000) as u32)
}

/// Documents with their frequencies, if these are decoded, and where they end.
pub type Block = (Seq<u64>, Option<Seq<u32>>, int);

/// The full block whose packed data begins at `p`, behind `base`.
#[verifier::opaque]
pub open spec fn block_at(s: Seq<u8>, p: int, base: u64, has_freqs: bool, decode_freqs: bool) -> Result<Block, ErrorKind> {
    match for_delta_at(s, p) {
        Ok((deltas, q)) => {
            let docs = summed(deltas, 128, base);
            if !has_freqs {
                Ok((docs, None, q))
            } else if decode_freqs {
                match pfor_at(s, q) {
                    Ok((v, z)) => Ok((docs, Some(low_words(v)), z)),
                    Err(k) => Err(k),
                }
            } else {
                match pfor_skip_at(s, q, ErrorKind::InvalidData) {
                    Ok((_, z)) => Ok((docs, None, z)),
                    Err(k) => Err(k),
                }
            }
        },
        Err(k) => Err(k),
    }
}

/// The first `n` frequencies of the tail, whose other ones stand at `p`.
pub open spec fn tail_freqs_at(s: Seq<u8>, p: int, values: Seq<u32>, n: int) -> Result<(Seq<u32>, int), ErrorKind>
    decreases n,
{
    if n <= 0 {
        Ok((Seq::empty(), p))
    } else {
        match tail_freqs_at(s, p, values, n - 1) {
            Ok((freqs, q)) => if values[n - 1] % 2 == 1 {
                Ok((freqs.push(1), q))
            } else {
                match vint_at(s, q) {
                    Ok((f, z)) => Ok((freqs.push(spec_to_u32(f)), z)),
                    Err(k) => Err(k),
                }
            },
            Err(k) => Err(k),
        }
    }
}

/// The distances of the tail; an odd number is one with the frequency 1.
pub open spec fn tail_deltas(values: Seq<u32>, has_freqs: bool) -> Seq<u64> {
    values.map_values(|v: u32| if has_freqs { (v / 2) as u64 } else { v as u64 })
}

/// The tail of `left` documents at `p`, behind `base`.
#[verifier::opaque]
pub open spec fn tail_at(s: Seq<u8>, p: int, base: u64, left: nat, has_freqs: bool, decode_freqs: bool) -> Result<Block, ErrorKind> {
    match group_vints_at(s, p, left, Seq::empty()) {
        Ok((values, q)) => {
            let docs = summed(tail_deltas(values, has_freqs), left, base);
            if has_freqs {
                match tail_freqs_at(s, q, values, left as int) {
                    Ok((freqs, z)) => Ok((docs, if decode_freqs { Some(freqs) } else { None }, z)),
                    Err(k) => Err(k),
                }
            } else {
                Ok((docs, None, q))
            }
        },
        Err(k) => Err(k),
    }
}

/// `n` numbers at `p`.
pub open spec fn vints_at(s: Seq<u8>, p: int, n: int) -> Result<(Seq<u32>, int), ErrorKind>
    decreases n,
{
    if n <= 0 {
        Ok((Seq::empty(), p))
    } else {
        match vints_at(s, p, n - 1) {
            Ok((v, q)) => match vint_at(s, q) {
                Ok((x, z)) => Ok((v.push(spec_to_u32(x)), z)),
                Err(k) => Err(k),
            },
            Err(k) => Err(k),
        }
    }
}

// ---------------------------------------------------------------------------
// The state
// ---------------------------------------------------------------------------

/// How far the stream of a term's positions was gone through.
pub struct StreamWalk {
    /// The file, and the place in it.
    pub s: Seq<u8>,
    pub p: int,
    /// Where the tail begins; -1 where there is none to be read.
    pub tail_fp: i64,
    /// The block that is being given, and how many of it were; what a shorter
    /// tail leaves is from the block before.
    pub buffer: Seq<u32>,
    pub upto: int,
    /// How many positions are to be given or passed over, up to the last one of
    /// the current document.
    pub pending: int,
    /// The position that was given last; 0 before the first of a document.
    pub position: u32,
}

/// How far a term's documents were gone through.
pub struct Walk {
    /// The file, and the place in it.
    pub s: Seq<u8>,
    pub p: int,
    pub doc_freq: u32,
    pub total_term_freq: u64,
    pub singleton_doc_id: i64,
    pub has_freqs: bool,
    pub decode_freqs: bool,
    /// The document that was given last; -1 before the first.
    pub doc: i64,
    /// The document before the block that is read next.
    pub prev: i64,
    /// How many documents lie before the next block.
    pub count: int,
    /// The last document of the block that is being given; none where that is
    /// the tail.
    pub last: i64,
    /// The last document of the group, where it ends, and how many documents
    /// lie before its end. No full group is left where the document is none.
    pub group_last: i64,
    pub group_end_fp: u64,
    pub group_count: int,
    /// The block that is being given, with a mark behind it, and how many of it
    /// were given; what a shorter tail leaves is from the block before.
    pub docs: Seq<u64>,
    pub freqs: Seq<u32>,
    pub upto: int,
    /// Where the positions stand at the start of the next block, and at the end
    /// of the group.
    pub next_pos: (u64, u8),
    pub group_pos: (u64, u8),
    /// The positions, where they are asked for.
    pub stream: Option<StreamWalk>,
}

/// No document, as the blocks hold it.
pub open spec fn no_doc() -> u64 {
    NO_MORE_DOCS as u64
}

/// The stream before the first position.
pub open spec fn stream_start(pos: Seq<u8>, entry: TermEntry) -> StreamWalk {
    let start = entry.state.pos_start_fp;
    let tail_fp = if entry.total_term_freq < 128 {
        spec_to_i64(start)
    } else if entry.total_term_freq == 128 {
        -1i64
    } else {
        spec_to_i64(spec_wrap_add(start, spec_to_u64(entry.state.last_pos_block_offset)))
    };
    StreamWalk { s: pos, p: start as int, tail_fp, buffer: Seq::new(128, |i: int| 0u32), upto: 128, pending: 0, position: 0 }
}

/// Before the first document of an entry, with the positions of the file `pos`
/// if they are asked for. Short terms are entered at once; an entry of one
/// document needs no file.
pub open spec fn walk_start(s: Seq<u8>, entry: TermEntry, has_freqs: bool, decode_freqs: bool, pos: Option<Seq<u8>>) -> Walk {
    let place = (if pos is Some { entry.state.pos_start_fp } else { 0 }, 0u8);
    Walk {
        s,
        p: if 1 < entry.doc_freq < 4096 { entry.state.doc_start_fp as int } else { 0 },
        doc_freq: entry.doc_freq,
        total_term_freq: entry.total_term_freq,
        singleton_doc_id: entry.state.singleton_doc_id,
        has_freqs,
        decode_freqs: decode_freqs && has_freqs,
        doc: -1i64,
        prev: -1i64,
        count: 0,
        last: -1i64,
        group_last: if entry.doc_freq < 4096 { NO_MORE_DOCS as i64 } else { -1i64 },
        group_end_fp: if entry.doc_freq < 4096 { s.len() as u64 } else { entry.state.doc_start_fp },
        group_count: 0,
        docs: Seq::new(129, |i: int| if i == 128 { no_doc() } else { 0 }),
        freqs: Seq::new(128, |i: int| 0u32),
        upto: 128,
        next_pos: place,
        group_pos: place,
        stream: match pos {
            Some(pos) => Some(stream_start(pos, entry)),
            None => None,
        },
    }
}

// ---------------------------------------------------------------------------
// Documents
// ---------------------------------------------------------------------------

/// `base` with its first elements replaced.
pub open spec fn overlaid<A>(base: Seq<A>, first: Seq<A>) -> Seq<A> {
    Seq::new(base.len(), |i: int| if i < first.len() { first[i] } else { base[i] })
}

/// A full block is taken in.
pub open spec fn block_taken(w: Walk) -> Result<Walk, ErrorKind> {
    match block_at(w.s, w.p, spec_to_u64(w.prev), w.has_freqs, w.decode_freqs) {
        Ok((docs, freqs, z)) => Ok(
            Walk {
                p: z,
                docs: overlaid(w.docs, docs),
                freqs: match freqs {
                    Some(f) => f,
                    None => w.freqs,
                },
                upto: 0,
                prev: spec_to_i64(docs[127]),
                count: w.count + 128,
                ..w
            },
        ),
        Err(k) => Err(k),
    }
}

/// The documents behind the last full block; a single one is in the entry.
pub open spec fn tail_taken(w: Walk) -> Result<Walk, ErrorKind> {
    let left = w.doc_freq - w.count;
    if w.doc_freq == 1 {
        Ok(
            Walk {
                docs: overlaid(w.docs, seq![spec_to_u64(w.singleton_doc_id), no_doc()]),
                freqs: overlaid(w.freqs, seq![(w.total_term_freq % 0x1_0000_0000) as u32]),
                upto: 0,
                count: w.count + 1,
                ..w
            },
        )
    } else {
        match tail_at(w.s, w.p, spec_to_u64(w.prev), left as nat, w.has_freqs, w.decode_freqs) {
            Ok((docs, freqs, z)) => Ok(
                Walk {
                    p: z,
                    docs: overlaid(w.docs, docs.push(no_doc())),
                    freqs: match freqs {
                        Some(f) => overlaid(w.freqs, f),
                        None => w.freqs,
                    },
                    upto: 0,
                    count: w.doc_freq as int,
                    ..w
                },
            ),
            Err(k) => Err(k),
        }
    }
}

/// The next block, or the tail, is taken in.
pub open spec fn next_taken(w: Walk) -> Result<Walk, ErrorKind> {
    if w.doc_freq - w.count >= 128 {
        block_taken(w)
    } else {
        tail_taken(w)
    }
}

/// The next group is entered, and those that end before `target` are passed
/// over, until no full one is left.
#[verifier::opaque]
pub open spec fn groups_passed(w: Walk, target: i64) -> Result<Walk, ErrorKind>
    decreases w.doc_freq - w.group_count,
{
    let v = Walk {
        p: w.group_end_fp as int,
        prev: w.group_last,
        last: w.group_last,
        next_pos: if w.stream is Some { w.group_pos } else { w.next_pos },
        count: w.group_count,
        group_count: w.group_count + 4096,
        ..w
    };
    if w.group_end_fp > w.s.len() {
        Err(ErrorKind::UnexpectedEof)
    } else if v.doc_freq - v.count < 4096 {
        Ok(Walk { group_last: NO_MORE_DOCS as i64, ..v })
    } else {
        match group_head_at(v.s, v.p, v.group_last, v.has_freqs, v.stream is Some, v.group_pos, target) {
            Ok((head, z)) => {
                let u = Walk { p: z, group_last: head.last, group_end_fp: head.end_fp, group_pos: head.pos, ..v };
                if head.last >= target {
                    Ok(u)
                } else {
                    groups_passed(u, target)
                }
            },
            Err(k) => Err(k),
        }
    }
}

/// The stream goes to where the positions of the next block begin, unless that
/// lies behind.
pub open spec fn resynced(w: Walk) -> Result<Walk, ErrorKind> {
    match w.stream {
        Some(x) => if w.next_pos.0 < x.p {
            Ok(w)
        } else if w.next_pos.0 > x.s.len() {
            Err(ErrorKind::UnexpectedEof)
        } else {
            Ok(Walk { stream: Some(StreamWalk { p: w.next_pos.0 as int, pending: w.next_pos.1 as int, upto: 128, ..x }), ..w })
        },
        None => Ok(w),
    }
}

/// More positions are to be passed over or given; they are never more than a
/// 64-bit number.
pub open spec fn pending_more(w: Walk, n: int) -> Walk {
    match w.stream {
        Some(x) => Walk { stream: Some(StreamWalk { pending: if x.pending + n > u64::MAX { u64::MAX as int } else { x.pending + n }, ..x }), ..w },
        None => w,
    }
}

/// The head of the next block is read.
pub open spec fn block_entered(w: Walk) -> Result<Walk, ErrorKind> {
    if w.stream is Some {
        match block_head_at(w.s, w.p, w.next_pos) {
            Ok((head, z)) => Ok(Walk { p: z, last: plus(w.last, head.delta as u64), next_pos: head.pos, ..w }),
            Err(k) => Err(k),
        }
    } else {
        match vlong_at(w.s, w.p) {
            Ok((n, q)) => match skip_from(w.s, q, spec_to_u64(n) as int) {
                Ok(z) => Ok(Walk { p: z, ..w }),
                Err(k) => Err(k),
            },
            Err(k) => Err(k),
        }
    }
}

/// The block behind the one that is being given is taken in. Without positions,
/// its last document is what is found in it.
#[verifier::opaque]
pub open spec fn block_loaded(w: Walk) -> Result<Walk, ErrorKind> {
    let grouped = if w.doc == w.group_last { groups_passed(w, plus(w.doc, 1)) } else { Ok(w) };
    match grouped {
        Ok(g) => match resynced(Walk { prev: g.last, ..g }) {
            Ok(v) => if v.doc_freq - v.count >= 128 {
                match block_entered(v) {
                    Ok(u) => match block_taken(u) {
                        Ok(x) => Ok(if x.stream is Some { x } else { Walk { last: spec_to_i64(x.docs[127]), ..x } }),
                        Err(k) => Err(k),
                    },
                    Err(k) => Err(k),
                }
            } else {
                tail_taken(Walk { last: NO_MORE_DOCS as i64, ..v })
            },
            Err(k) => Err(k),
        },
        Err(k) => Err(k),
    }
}

/// The frequency of the document that was given last.
pub open spec fn walk_freq(w: Walk) -> u32 {
    if w.has_freqs {
        w.freqs[w.upto - 1]
    } else {
        1
    }
}

/// The document at `upto` of the block is given, and its positions with it.
pub open spec fn doc_stepped(w: Walk) -> Walk {
    let v = Walk { doc: spec_to_i64(w.docs[w.upto]), upto: w.upto + 1, ..w };
    if v.doc == NO_MORE_DOCS {
        v
    } else {
        at_first_position(pending_more(v, walk_freq(v) as int))
    }
}

/// No position of the current document was given.
pub open spec fn at_first_position(w: Walk) -> Walk {
    match w.stream {
        Some(x) => Walk { stream: Some(StreamWalk { position: 0, ..x }), ..w },
        None => w,
    }
}

/// The next document is given. Behind the last document of the block the next
/// block is taken in.
#[verifier::opaque]
pub open spec fn doc_given(w: Walk) -> Result<Walk, ErrorKind> {
    if w.doc == NO_MORE_DOCS {
        Ok(w)
    } else if w.doc == w.last {
        match block_loaded(w) {
            Ok(v) => Ok(doc_stepped(v)),
            Err(k) => Err(k),
        }
    } else {
        Ok(doc_stepped(w))
    }
}

/// Frequencies from `from` to before `to`, together.
pub open spec fn freqs_between(freqs: Seq<u32>, from: int, to: int) -> int
    decreases to - from,
{
    if from >= to {
        0
    } else {
        freqs_between(freqs, from, to - 1) + freqs[to - 1]
    }
}

/// Before the next block: the stream goes there, or, where that lies behind,
/// the positions of the documents that are left of the block are to be passed
/// over.
pub open spec fn rest_passed(w: Walk) -> Result<Walk, ErrorKind> {
    match w.stream {
        Some(x) => if w.next_pos.0 >= x.p {
            resynced(w)
        } else {
            Ok(pending_more(w, freqs_between(w.freqs, w.upto, 128)))
        },
        None => Ok(w),
    }
}

/// The next block is passed over if it ends before `target`; else its packed
/// data is reached. Says which.
pub open spec fn block_reached(w: Walk, target: i64) -> Result<(Walk, bool), ErrorKind> {
    if w.stream is Some {
        match block_head_at(w.s, w.p, w.next_pos) {
            Ok((head, z)) => {
                let v = Walk { p: z, last: plus(w.last, head.delta as u64), next_pos: head.pos, ..w };
                let end = spec_wrap_add(head.at, head.total);
                if target <= v.last {
                    Ok((v, true))
                } else if end > w.s.len() {
                    Err(ErrorKind::UnexpectedEof)
                } else {
                    Ok((Walk { p: end as int, count: w.count + 128, ..v }, false))
                }
            },
            Err(k) => Err(k),
        }
    } else {
        match vlong_at(w.s, w.p) {
            Ok((n, from)) => match vint15_at(w.s, from) {
                Ok((delta, q)) => {
                    let v = Walk { last: plus(w.last, delta as u64), ..w };
                    let packed = spec_wrap_add(from as u64, spec_to_u64(n));
                    if target <= v.last {
                        if packed > w.s.len() {
                            Err(ErrorKind::UnexpectedEof)
                        } else {
                            Ok((Walk { p: packed as int, ..v }, true))
                        }
                    } else {
                        match vlong15_at(w.s, q) {
                            Ok((total, at)) => match skip_from(w.s, at, total as int) {
                                Ok(z) => Ok((Walk { p: z, count: w.count + 128, ..v }, false)),
                                Err(k) => Err(k),
                            },
                            Err(k) => Err(k),
                        }
                    }
                },
                Err(k) => Err(k),
            },
            Err(k) => Err(k),
        }
    }
}

/// Blocks that end before `target` are passed over, until one is reached or no
/// full one is left.
#[verifier::opaque]
pub open spec fn blocks_passed(w: Walk, target: i64) -> Result<Walk, ErrorKind>
    decreases w.doc_freq - w.count,
{
    match rest_passed(Walk { prev: w.last, ..w }) {
        Ok(v) => if v.doc_freq - v.count >= 128 {
            match block_reached(v, target) {
                Ok((u, reached)) => if reached {
                    Ok(u)
                } else {
                    blocks_passed(u, target)
                },
                Err(k) => Err(k),
            }
        } else {
            Ok(Walk { last: NO_MORE_DOCS as i64, ..v })
        },
        Err(k) => Err(k),
    }
}

/// The block that may hold `target` is taken in; it lies behind the one that
/// is being given.
#[verifier::opaque]
pub open spec fn block_sought(w: Walk, target: i64) -> Result<Walk, ErrorKind> {
    let grouped = if target > w.group_last { groups_passed(w, target) } else { Ok(w) };
    match grouped {
        Ok(g) => match blocks_passed(g, target) {
            Ok(v) => next_taken(v),
            Err(k) => Err(k),
        },
        Err(k) => Err(k),
    }
}

/// The first place from `from` on whose document is not below `target`. The
/// mark behind a block is not.
pub open spec fn first_not_below(docs: Seq<u64>, from: int, target: i64) -> int
    decreases docs.len() - from,
{
    if from >= docs.len() || spec_to_i64(docs[from]) >= target {
        from
    } else {
        first_not_below(docs, from + 1, target)
    }
}

/// The first document of the block that is not below `target` is given; the
/// positions of those before it are to be passed over.
#[verifier::opaque]
pub open spec fn block_scanned(w: Walk, target: i64) -> Walk {
    let j = first_not_below(w.docs, w.upto, target);
    let v = Walk { doc: spec_to_i64(w.docs[j]), upto: j + 1, ..w };
    if v.doc == NO_MORE_DOCS {
        v
    } else {
        at_first_position(pending_more(v, freqs_between(w.freqs, w.upto, j + 1)))
    }
}

/// The first document from here on that is not below `target` is given, unless
/// the last one was not.
pub open spec fn doc_advanced(w: Walk, target: i32) -> Result<Walk, ErrorKind> {
    if w.doc >= target {
        Ok(w)
    } else if target > w.last {
        match block_sought(w, target as i64) {
            Ok(v) => Ok(block_scanned(v, target as i64)),
            Err(k) => Err(k),
        }
    } else {
        Ok(block_scanned(w, target as i64))
    }
}

/// How many documents stand in the block from `from` on, up to its mark and no
/// more than `room`.
pub open spec fn window(docs: Seq<u64>, from: int, room: int) -> nat
    decreases room,
{
    if room <= 0 || docs[from] == no_doc() {
        0
    } else {
        1 + window(docs, from + 1, room - 1)
    }
}

pub(crate) proof fn lemma_window_fits(docs: Seq<u64>, from: int, room: int)
    ensures
        room >= 0 ==> window(docs, from, room) <= room,
    decreases room,
{
    if room > 0 {
        lemma_window_fits(docs, from + 1, room - 1);
    }
}

#[via_fn]
proof fn batch_shrinks(w: Walk, room: int) {
    if room > 0 && w.doc != NO_MORE_DOCS {
        let loaded = if w.doc == w.last { block_loaded(w) } else { Ok(w) };
        if let Ok(v) = loaded {
            lemma_window_fits(v.docs, v.upto, room);
        }
    }
}

/// The low 32 bits of documents.
pub open spec fn low_docs(docs: Seq<u64>, from: int, n: int) -> Seq<u32> {
    Seq::new(n as nat, |i: int| (docs[from + i] % 0x1_0000_0000) as u32)
}

/// The next `room` documents with their frequencies, block by block; fewer
/// where no more are left.
#[verifier::opaque]
pub open spec fn batch_walked(w: Walk, room: int) -> Result<(Walk, Seq<u32>, Seq<u32>), ErrorKind>
    decreases room via batch_shrinks
{
    if room <= 0 || w.doc == NO_MORE_DOCS {
        Ok((w, Seq::empty(), Seq::empty()))
    } else {
        let loaded = if w.doc == w.last { block_loaded(w) } else { Ok(w) };
        match loaded {
            Ok(v) => {
                let n = window(v.docs, v.upto, room) as int;
                if n == 0 {
                    Ok((Walk { doc: spec_to_i64(v.docs[v.upto]), upto: v.upto + 1, ..v }, Seq::empty(), Seq::empty()))
                } else {
                    match batch_walked(Walk { doc: spec_to_i64(v.docs[v.upto + n - 1]), upto: v.upto + n, ..v }, room - n) {
                        Ok((u, docs, freqs)) => Ok((u, low_docs(v.docs, v.upto, n) + docs, v.freqs.subrange(v.upto, v.upto + n) + freqs)),
                        Err(k) => Err(k),
                    }
                }
            },
            Err(k) => Err(k),
        }
    }
}

// ---------------------------------------------------------------------------
// Positions
// ---------------------------------------------------------------------------

/// The next block of the stream is read: the tail where it begins, else a
/// packed one.
pub open spec fn refilled(x: StreamWalk, total: u64) -> Result<StreamWalk, ErrorKind> {
    if spec_to_i64(x.p as u64) == x.tail_fp {
        match vints_at(x.s, x.p, total as int % 128) {
            Ok((first, z)) => Ok(StreamWalk { p: z, buffer: overlaid(x.buffer, first), ..x }),
            Err(k) => Err(k),
        }
    } else {
        match pfor_at(x.s, x.p) {
            Ok((v, z)) => Ok(StreamWalk { p: z, buffer: low_words(v), ..x }),
            Err(k) => Err(k),
        }
    }
}

/// Blocks are passed over until fewer than a block are left of `n`; these are
/// passed over in the next one.
pub open spec fn blocks_skipped(x: StreamWalk, n: int, total: u64) -> Result<StreamWalk, ErrorKind>
    decreases n,
{
    if n >= 128 {
        match pfor_skip_at(x.s, x.p, ErrorKind::InvalidData) {
            Ok((_, z)) => blocks_skipped(StreamWalk { p: z, ..x }, n - 128, total),
            Err(k) => Err(k),
        }
    } else {
        match refilled(x, total) {
            Ok(y) => Ok(StreamWalk { upto: n, ..y }),
            Err(k) => Err(k),
        }
    }
}

/// The next `n` distances are passed over.
#[verifier::opaque]
pub open spec fn stream_skipped(x: StreamWalk, n: int, total: u64) -> Result<StreamWalk, ErrorKind> {
    let left = 128 - x.upto;
    if n < left {
        Ok(StreamWalk { upto: x.upto + n, ..x })
    } else {
        blocks_skipped(x, n - left, total)
    }
}

/// The next distance is given.
#[verifier::opaque]
pub open spec fn delta_given(x: StreamWalk, total: u64) -> Result<(StreamWalk, u32), ErrorKind> {
    if x.upto == 128 {
        match refilled(x, total) {
            Ok(y) => Ok((StreamWalk { upto: 1, ..y }, y.buffer[0])),
            Err(k) => Err(k),
        }
    } else {
        Ok((StreamWalk { upto: x.upto + 1, ..x }, x.buffer[x.upto]))
    }
}

/// How many positions of the current document were not given.
pub open spec fn walk_remaining(w: Walk) -> int {
    match w.stream {
        Some(x) => if x.pending < walk_freq(w) {
            x.pending
        } else {
            walk_freq(w) as int
        },
        None => 0,
    }
}

/// The next position of the current document is given; those of documents
/// before it are passed over first.
pub open spec fn position_given(w: Walk) -> Result<Walk, ErrorKind> {
    let x = w.stream->Some_0;
    let freq = walk_freq(w) as int;
    let there = if x.pending > freq {
        match stream_skipped(x, x.pending - freq, w.total_term_freq) {
            Ok(y) => Ok(StreamWalk { pending: freq, position: 0, ..y }),
            Err(k) => Err(k),
        }
    } else {
        Ok(x)
    };
    match there {
        Ok(y) => match delta_given(y, w.total_term_freq) {
            Ok((z, delta)) => Ok(Walk { stream: Some(StreamWalk { pending: z.pending - 1, position: ((z.position + delta) % 0x1_0000_0000) as u32, ..z }), ..w }),
            Err(k) => Err(k),
        },
        Err(k) => Err(k),
    }
}

// ---------------------------------------------------------------------------
// Reading on after a failure
// ---------------------------------------------------------------------------

/// Frequencies that cannot be read to the `n`th cannot be read further.
pub(crate) proof fn lemma_tail_freqs_fail(s: Seq<u8>, p: int, values: Seq<u32>, n: int, m: int)
    requires
        n <= m,
        tail_freqs_at(s, p, values, n) is Err,
    ensures
        tail_freqs_at(s, p, values, m) == tail_freqs_at(s, p, values, n),
    decreases m - n,
{
    if n < m {
        lemma_tail_freqs_fail(s, p, values, n, m - 1);
    }
}

/// Numbers that cannot be read to the `n`th cannot be read further.
pub(crate) proof fn lemma_vints_fail(s: Seq<u8>, p: int, n: int, m: int)
    requires
        n <= m,
        vints_at(s, p, n) is Err,
    ensures
        vints_at(s, p, m) == vints_at(s, p, n),
    decreases m - n,
{
    if n < m {
        lemma_vints_fail(s, p, n, m - 1);
    }
}

} // verus!
