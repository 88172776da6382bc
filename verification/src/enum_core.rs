//! Goes through a term's documents, block by block, and skips ahead by the two
//! levels of skip data.

use crate::error::{outcome, Error, ErrorKind};
use crate::io::{DataInput, IndexInput};
use crate::num::{to_i64, to_u16, to_u32, to_u64, wrap_add};
use crate::positions_read::{overlay, read_packed, PosStream};
use crate::postings_ll::{for_delta_util_decode, group_vints_at, pfor_util_skip, read_group_vints, read_vint15, read_vlong15};
use crate::postings_read::{filled, TermEntry, LEVEL1_NUM_DOCS, NO_MORE_DOCS};
use crate::postings_walk::{
    at_first_position, batch_walked, block_at, block_entered, block_head_at, block_loaded, block_reached, block_scanned, block_sought, block_taken, blocks_passed, doc_advanced, doc_given,
    doc_stepped, first_not_below, freqs_between, group_head_at, group_pos_at, groups_passed, lemma_tail_freqs_fail, low_docs, no_doc, pending_more, plus, pos_skip_at,
    position_given, rest_passed, resynced, summed, tail_at, tail_deltas, tail_freqs_at, tail_taken, walk_freq, walk_remaining, walk_start, window, BlockHead, GroupHead, Walk,
};
use vstd::prelude::*;

verus! {

/// Goes through a term's documents, and its positions where they are asked for.
pub(crate) struct EnumCore {
    pub(crate) doc_in: IndexInput,
    pub(crate) doc_freq: u32,
    pub(crate) total_term_freq: u64,
    pub(crate) singleton_doc_id: i64,
    pub(crate) has_freqs: bool,
    pub(crate) decode_freqs: bool,
    pub(crate) doc: i64,
    pub(crate) prev: i64,
    pub(crate) count: u32,
    pub(crate) last: i64,
    pub(crate) group_last: i64,
    pub(crate) group_end_fp: u64,
    pub(crate) group_count: u64,
    pub(crate) docs: Vec<u64>,
    pub(crate) freqs: Vec<u32>,
    pub(crate) upto: usize,
    pub(crate) next_pos: (u64, u8),
    pub(crate) group_pos: (u64, u8),
    pub(crate) stream: Option<PosStream>,
}

fn plus_of(a: i64, d: u64) -> (r: i64)
    ensures
        r == plus(a, d),
{
    to_i64(wrap_add(to_u64(a), d))
}

/// Reads where the positions stand behind a block, which stand at `pos` before
/// it.
fn read_pos_skip(doc_in: &mut IndexInput, pos: (u64, u8)) -> (r: Result<(u64, u8), Error>)
    ensures
        final(doc_in).bytes() == old(doc_in).bytes(),
        outcome(r, final(doc_in).pos(), pos_skip_at(old(doc_in).bytes(), old(doc_in).pos(), pos)),
{
    proof {
        reveal(pos_skip_at);
    }
    let impacts: u64 = to_u64(doc_in.read_vlong()?);
    doc_in.skip_bytes(impacts)?;
    let step: u64 = to_u64(doc_in.read_vlong()?);
    let upto: u8 = doc_in.read_byte()?;
    Ok((wrap_add(pos.0, step), upto))
}

/// Reads the head of a full block of documents that have positions.
fn read_block_head(doc_in: &mut IndexInput, pos: (u64, u8)) -> (r: Result<BlockHead, Error>)
    ensures
        final(doc_in).bytes() == old(doc_in).bytes(),
        outcome(r, final(doc_in).pos(), block_head_at(old(doc_in).bytes(), old(doc_in).pos(), pos)),
{
    proof {
        reveal(block_head_at);
    }
    let _n: i64 = doc_in.read_vlong()?;
    let delta: u32 = read_vint15(doc_in)?;
    let total: u64 = read_vlong15(doc_in)?;
    let at: u64 = doc_in.file_pointer();
    let next: (u64, u8) = read_pos_skip(doc_in, pos)?;
    Ok(BlockHead { delta, at, total, pos: next })
}

/// Reads where the positions stand behind a group.
fn read_group_pos(doc_in: &mut IndexInput, pos: (u64, u8)) -> (r: Result<(u64, u8), Error>)
    ensures
        final(doc_in).bytes() == old(doc_in).bytes(),
        outcome(r, final(doc_in).pos(), group_pos_at(old(doc_in).bytes(), old(doc_in).pos(), pos)),
{
    proof {
        reveal(group_pos_at);
    }
    let n: u64 = to_u16(doc_in.read_short()?) as u64;
    doc_in.skip_bytes(n)?;
    let step: u64 = to_u64(doc_in.read_vlong()?);
    let upto: u8 = doc_in.read_byte()?;
    Ok((wrap_add(pos.0, step), upto))
}

/// Reads the head of a group, behind the document `last` and the positions
/// `pos`.
fn read_group_head(doc_in: &mut IndexInput, last: i64, has_freqs: bool, has_positions: bool, pos: (u64, u8), target: i64) -> (r: Result<GroupHead, Error>)
    ensures
        final(doc_in).bytes() == old(doc_in).bytes(),
        outcome(r, final(doc_in).pos(), group_head_at(old(doc_in).bytes(), old(doc_in).pos(), last, has_freqs, has_positions, pos, target)),
{
    proof {
        reveal(group_head_at);
    }
    let delta: i32 = doc_in.read_vint()?;
    let reach: i64 = plus_of(last, to_u64(delta as i64));
    let len: u64 = to_u64(doc_in.read_vlong()?);
    let at: u64 = doc_in.file_pointer();
    let mut next: (u64, u8) = pos;
    if has_freqs && has_positions {
        let _n: i16 = doc_in.read_short()?;
        next = read_group_pos(doc_in, pos)?;
    } else if has_freqs && reach >= target {
        let n: u64 = to_u16(doc_in.read_short()?) as u64;
        doc_in.skip_bytes(n)?;
    }
    Ok(GroupHead { last: reach, end_fp: wrap_add(len, at), pos: next })
}

/// Documents from their distances, behind `base`.
fn sum_deltas(deltas: &[u64], base: u64) -> (r: Vec<u64>)
    ensures
        r@ == summed(deltas@, deltas@.len(), base),
        r@.len() == deltas@.len(),
{
    let mut out: Vec<u64> = Vec::new();
    let mut last: u64 = base;
    let mut i: usize = 0;
    while i < deltas.len()
        invariant
            i <= deltas@.len(),
            out@ == summed(deltas@, i as nat, base),
            out@.len() == i,
            last == if i == 0 { base } else { out@.last() },
        decreases deltas@.len() - i,
    {
        last = wrap_add(deltas[i], last);
        out.push(last);
        i = i + 1;
    }
    out
}

/// Decodes a full block behind `base`.
fn decode_block(doc_in: &mut IndexInput, base: u64, has_freqs: bool, decode_freqs: bool) -> (r: Result<(Vec<u64>, Option<Vec<u32>>), Error>)
    ensures
        final(doc_in).bytes() == old(doc_in).bytes(),
        match block_at(old(doc_in).bytes(), old(doc_in).pos(), base, has_freqs, decode_freqs) {
            Ok((docs, freqs, z)) => r is Ok && r->Ok_0.0@ == docs && docs.len() == 128 && final(doc_in).pos() == z && match freqs {
                Some(f) => r->Ok_0.1 is Some && r->Ok_0.1->Some_0@ == f && f.len() == 128,
                None => r->Ok_0.1 is None,
            },
            Err(k) => r is Err && r->Err_0.kind == k,
        },
{
    proof {
        reveal(block_at);
    }
    let mut deltas: [u64; 128] = [0u64; 128];
    for_delta_util_decode(doc_in, &mut deltas)?;
    let docs = sum_deltas(deltas.as_slice(), base);
    let mut freqs: Option<Vec<u32>> = None;
    if has_freqs {
        if decode_freqs {
            let block = read_packed(doc_in)?;
            freqs = Some(block);
        } else {
            pfor_util_skip(doc_in)?;
        }
    }
    Ok((docs, freqs))
}

/// Decodes the `left` documents of the tail behind `base`.
fn decode_tail(doc_in: &mut IndexInput, base: u64, left: usize, has_freqs: bool, decode_freqs: bool) -> (r: Result<(Vec<u64>, Option<Vec<u32>>), Error>)
    ensures
        final(doc_in).bytes() == old(doc_in).bytes(),
        match tail_at(old(doc_in).bytes(), old(doc_in).pos(), base, left as nat, has_freqs, decode_freqs) {
            Ok((docs, freqs, z)) => r is Ok && r->Ok_0.0@ == docs && docs.len() == left && final(doc_in).pos() == z && match freqs {
                Some(f) => r->Ok_0.1 is Some && r->Ok_0.1->Some_0@ == f && f.len() == left,
                None => r->Ok_0.1 is None,
            },
            Err(k) => r is Err && r->Err_0.kind == k,
        },
{
    let ghost s = doc_in.bytes();
    proof {
        reveal(tail_at);
    }
    let mut values: Vec<u32> = Vec::new();
    let mut i: usize = 0;
    while i < left
        invariant
            i <= left,
            values@.len() == i,
        decreases left - i,
    {
        values.push(0);
        i = i + 1;
    }
    read_group_vints(doc_in, values.as_mut_slice())?;
    let ghost q = doc_in.pos();
    let mut deltas: Vec<u64> = Vec::new();
    let mut freqs: Vec<u32> = Vec::new();
    let mut i: usize = 0;
    while i < left
        invariant
            i <= left,
            values@.len() == left,
            s == doc_in.bytes(),
            doc_in.bytes() == old(doc_in).bytes(),
            group_vints_at(old(doc_in).bytes(), old(doc_in).pos(), left as nat, Seq::empty()) == Ok::<(Seq<u32>, int), ErrorKind>((values@, q)),
            freqs@.len() == if has_freqs { i as int } else { 0 },
            !has_freqs ==> doc_in.pos() == q,
            has_freqs ==> tail_freqs_at(s, q, values@, i as int) == Ok::<(Seq<u32>, int), ErrorKind>((freqs@, doc_in.pos())),
            deltas@.len() == i,
            forall|k: int| 0 <= k < i ==> #[trigger] deltas@[k] == tail_deltas(values@, has_freqs)[k],
        decreases left - i,
    {
        let v: u32 = values[i];
        proof {
            if has_freqs && tail_freqs_at(s, q, values@, i + 1) is Err {
                lemma_tail_freqs_fail(s, q, values@, i + 1, left as int);
                reveal(tail_at);
            }
        }
        if has_freqs {
            deltas.push((v / 2) as u64);
            let f: u32 = if v % 2 == 1 { 1 } else { to_u32(doc_in.read_vint()?) };
            freqs.push(f);
        } else {
            deltas.push(v as u64);
        }
        i = i + 1;
    }
    assert(deltas@ =~= tail_deltas(values@, has_freqs));
    let docs = sum_deltas(deltas.as_slice(), base);
    Ok((docs, if has_freqs && decode_freqs { Some(freqs) } else { None }))
}

impl EnumCore {
    /// How far the documents were gone through.
    pub(crate) open spec fn walk(&self) -> Walk {
        Walk {
            s: self.doc_in.bytes(),
            p: self.doc_in.pos(),
            doc_freq: self.doc_freq,
            total_term_freq: self.total_term_freq,
            singleton_doc_id: self.singleton_doc_id,
            has_freqs: self.has_freqs,
            decode_freqs: self.decode_freqs,
            doc: self.doc,
            prev: self.prev,
            count: self.count as int,
            last: self.last,
            group_last: self.group_last,
            group_end_fp: self.group_end_fp,
            group_count: self.group_count as int,
            docs: self.docs@,
            freqs: self.freqs@,
            upto: self.upto as int,
            next_pos: self.next_pos,
            group_pos: self.group_pos,
            stream: match self.stream {
                Some(x) => Some(x.walk()),
                None => None,
            },
        }
    }

    /// Bounds that hold while blocks are read.
    pub(crate) open spec fn bounded(&self) -> bool {
        &&& self.docs@.len() == 129
        &&& self.docs@[128] == no_doc()
        &&& self.freqs@.len() == 128
        &&& self.upto <= 129
        &&& self.count <= self.doc_freq
        &&& self.group_last != NO_MORE_DOCS ==> self.group_count <= self.doc_freq
        &&& self.doc_freq == 1 ==> self.group_last == NO_MORE_DOCS && (self.last != NO_MORE_DOCS ==> self.count == 0)
        &&& self.stream is Some ==> self.stream->Some_0.bounded() && self.has_freqs && self.decode_freqs
    }

    /// Bounds that hold whatever the bytes are.
    pub(crate) open spec fn wf(&self) -> bool {
        &&& self.bounded()
        &&& 1 <= self.upto
        &&& self.doc != NO_MORE_DOCS ==> self.upto <= 128
    }

    /// No position of the current document was given.
    pub(crate) open spec fn all_remain(&self) -> bool {
        self.stream is Some && self.doc != NO_MORE_DOCS ==> walk_remaining(self.walk()) == walk_freq(self.walk())
    }

    /// What no step changes.
    pub(crate) open spec fn same_term(&self, other: &Self) -> bool {
        &&& self.has_freqs == other.has_freqs
        &&& self.decode_freqs == other.decode_freqs
        &&& self.stream is Some == other.stream is Some
    }

    /// Starts before the first document, with the positions of `pos_in` if they
    /// are asked for.
    pub(crate) fn start(doc_in: IndexInput, entry: &TermEntry, has_freqs: bool, decode_freqs: bool, pos_in: Option<IndexInput>) -> (r: Result<EnumCore, Error>)
        requires
            doc_in.pos() == 0,
            pos_in is Some ==> has_freqs && decode_freqs,
        ensures
            ({
                let pos = match pos_in {
                    Some(p) => Some(p.bytes()),
                    None => None,
                };
                let past = (1 < entry.doc_freq < 4096 && entry.state.doc_start_fp > doc_in.bytes().len()) || (pos is Some && entry.state.pos_start_fp > pos->Some_0.len());
                if past {
                    r is Err && r->Err_0.kind == ErrorKind::UnexpectedEof
                } else {
                    r is Ok && r->Ok_0.wf() && r->Ok_0.walk() == walk_start(doc_in.bytes(), *entry, has_freqs, decode_freqs, pos)
                }
            }),
    {
        let mut input = doc_in;
        let fp: u64 = entry.state.doc_start_fp;
        let mut group_last: i64 = -1;
        let mut group_end_fp: u64 = fp;
        if entry.doc_freq < LEVEL1_NUM_DOCS {
            group_last = NO_MORE_DOCS as i64;
            group_end_fp = input.length();
            if entry.doc_freq > 1 {
                input.seek(fp)?;
            }
        }
        let mut docs: Vec<u64> = Vec::new();
        let mut freqs: Vec<u32> = Vec::new();
        while docs.len() < 128
            invariant
                docs@.len() == freqs@.len() <= 128,
                forall|i: int| 0 <= i < docs@.len() ==> #[trigger] docs@[i] == 0,
                forall|i: int| 0 <= i < freqs@.len() ==> #[trigger] freqs@[i] == 0,
            decreases 128 - docs@.len(),
        {
            docs.push(0);
            freqs.push(0);
        }
        docs.push(NO_MORE_DOCS as u64);
        let mut place: (u64, u8) = (0, 0);
        let mut stream: Option<PosStream> = None;
        if let Some(p) = pos_in {
            place = (entry.state.pos_start_fp, 0);
            let tail_fp: i64 = if entry.total_term_freq < 128 {
                to_i64(entry.state.pos_start_fp)
            } else if entry.total_term_freq == 128 {
                -1
            } else {
                to_i64(wrap_add(entry.state.pos_start_fp, to_u64(entry.state.last_pos_block_offset)))
            };
            let mut input = p;
            input.seek(entry.state.pos_start_fp)?;
            let buffer = vstd::slice::slice_to_vec(freqs.as_slice());
            assert(buffer@ =~= Seq::new(128, |i: int| 0u32));
            stream = Some(PosStream { pos_in: input, tail_fp, buffer, upto: 128, pending: 0, position: 0 });
        }
        assert(docs@ =~= Seq::new(129, |i: int| if i == 128 { no_doc() } else { 0 }));
        assert(freqs@ =~= Seq::new(128, |i: int| 0u32));
        Ok(
            EnumCore {
                doc_in: input,
                doc_freq: entry.doc_freq,
                total_term_freq: entry.total_term_freq,
                singleton_doc_id: entry.state.singleton_doc_id,
                has_freqs,
                decode_freqs: decode_freqs && has_freqs,
                doc: -1,
                prev: -1,
                count: 0,
                last: -1,
                group_last,
                group_end_fp,
                group_count: 0,
                docs,
                freqs,
                upto: 128,
                next_pos: place,
                group_pos: place,
                stream,
            },
        )
    }

    /// Takes in a full block.
    fn take_block(&mut self) -> (r: Result<(), Error>)
        requires
            old(self).bounded(),
            old(self).doc_freq - old(self).count >= 128,
        ensures
            r is Ok ==> final(self).bounded() && final(self).same_term(old(self)),
            match block_taken(old(self).walk()) {
                Ok(w) => r is Ok && final(self).walk() == w,
                Err(k) => r is Err && r->Err_0.kind == k,
            },
    {
        let (docs, freqs) = decode_block(&mut self.doc_in, to_u64(self.prev), self.has_freqs, self.decode_freqs)?;
        overlay(&mut self.docs, &docs);
        if let Some(f) = freqs {
            self.freqs = f;
        }
        self.upto = 0;
        self.prev = to_i64(docs[127]);
        self.count = self.count + 128;
        Ok(())
    }

    /// Takes in the documents behind the last full block.
    fn take_tail(&mut self) -> (r: Result<(), Error>)
        requires
            old(self).bounded(),
            old(self).doc_freq - old(self).count < 128,
            old(self).last == NO_MORE_DOCS,
            old(self).doc_freq == 1 ==> old(self).count == 0,
        ensures
            r is Ok ==> final(self).bounded() && final(self).same_term(old(self)),
            match tail_taken(old(self).walk()) {
                Ok(w) => r is Ok && final(self).walk() == w,
                Err(k) => r is Err && r->Err_0.kind == k,
            },
    {
        if self.doc_freq == 1 {
            let mut docs: Vec<u64> = Vec::new();
            docs.push(to_u64(self.singleton_doc_id));
            docs.push(NO_MORE_DOCS as u64);
            let mut freqs: Vec<u32> = Vec::new();
            freqs.push((self.total_term_freq % 0x1_0000_0000) as u32);
            assert(docs@ =~= seq![to_u64(self.singleton_doc_id), no_doc()]);
            assert(freqs@ =~= seq![(self.total_term_freq % 0x1_0000_0000) as u32]);
            overlay(&mut self.docs, &docs);
            overlay(&mut self.freqs, &freqs);
            self.count = self.count + 1;
        } else {
            let left: usize = (self.doc_freq - self.count) as usize;
            let (mut docs, freqs) = decode_tail(&mut self.doc_in, to_u64(self.prev), left, self.has_freqs, self.decode_freqs)?;
            docs.push(NO_MORE_DOCS as u64);
            overlay(&mut self.docs, &docs);
            if let Some(f) = freqs {
                overlay(&mut self.freqs, &f);
            }
            self.count = self.doc_freq;
        }
        self.upto = 0;
        Ok(())
    }

    /// Enters the next group, and passes over those that end before `target`.
    fn pass_groups(&mut self, target: i64) -> (r: Result<(), Error>)
        requires
            old(self).bounded(),
            old(self).group_last != NO_MORE_DOCS,
        ensures
            r is Ok ==> final(self).bounded() && final(self).same_term(old(self)) && final(self).doc_freq == old(self).doc_freq,
            match groups_passed(old(self).walk(), target) {
                Ok(w) => r is Ok && final(self).walk() == w,
                Err(k) => r is Err && r->Err_0.kind == k,
            },
    {
        let ghost all = groups_passed(old(self).walk(), target);
        let mut done: bool = false;
        while !done
            invariant
                self.bounded(),
                self.same_term(old(self)),
                self.doc_freq == old(self).doc_freq,
                !done ==> self.group_count <= self.doc_freq && self.doc_freq != 1,
                all == groups_passed(old(self).walk(), target),
                !done ==> all == groups_passed(self.walk(), target),
                done ==> all == Ok::<Walk, ErrorKind>(self.walk()),
            decreases (if done {
                0int
            } else {
                1 + self.doc_freq - self.group_count
            }),
        {
            let ghost w = self.walk();
            proof {
                reveal_with_fuel(groups_passed, 2);
            }
            self.prev = self.group_last;
            self.last = self.group_last;
            if self.stream.is_some() {
                self.next_pos = self.group_pos;
            }
            self.doc_in.seek(self.group_end_fp)?;
            self.count = self.group_count as u32;
            self.group_count = self.group_count + LEVEL1_NUM_DOCS as u64;
            if self.doc_freq - self.count < LEVEL1_NUM_DOCS {
                self.group_last = NO_MORE_DOCS as i64;
                done = true;
            } else {
                let head = read_group_head(&mut self.doc_in, self.group_last, self.has_freqs, self.stream.is_some(), self.group_pos, target)?;
                self.group_last = head.last;
                self.group_end_fp = head.end_fp;
                self.group_pos = head.pos;
                done = head.last >= target;
            }
        }
        Ok(())
    }

    /// Moves the stream to where the positions of the next block begin, unless
    /// that lies behind.
    fn resync(&mut self) -> (r: Result<(), Error>)
        requires
            old(self).bounded(),
        ensures
            r is Ok ==> final(self).bounded() && final(self).same_term(old(self)),
            match resynced(old(self).walk()) {
                Ok(w) => r is Ok && final(self).walk() == w,
                Err(k) => r is Err && r->Err_0.kind == k,
            },
    {
        match self.stream.take() {
            Some(x) => {
                let mut stream = x;
                let at: u64 = stream.pos_in.file_pointer();
                if self.next_pos.0 >= at {
                    stream.pos_in.seek(self.next_pos.0)?;
                    stream.pending = self.next_pos.1 as u64;
                    stream.upto = 128;
                }
                self.stream = Some(stream);
            },
            None => {},
        }
        Ok(())
    }

    /// Counts more positions that are to be given or passed over.
    fn add_pending(&mut self, n: u64)
        requires
            old(self).bounded(),
        ensures
            final(self).bounded(),
            final(self).same_term(old(self)),
            final(self).walk() == pending_more(old(self).walk(), n as int),
    {
        match self.stream.take() {
            Some(x) => {
                let mut stream = x;
                stream.pending = if n > u64::MAX - stream.pending { u64::MAX } else { stream.pending + n };
                self.stream = Some(stream);
            },
            None => {},
        }
    }

    /// Sets the position back to before the first of the current document.
    fn reset_position(&mut self)
        requires
            old(self).bounded(),
        ensures
            final(self).bounded(),
            final(self).same_term(old(self)),
            final(self).walk() == at_first_position(old(self).walk()),
    {
        match self.stream.take() {
            Some(x) => {
                let mut stream = x;
                stream.position = 0;
                self.stream = Some(stream);
            },
            None => {},
        }
    }

    /// Reads the head of the next block.
    fn enter_block(&mut self) -> (r: Result<(), Error>)
        requires
            old(self).bounded(),
            old(self).doc_freq != 1,
        ensures
            r is Ok ==> final(self).bounded() && final(self).same_term(old(self)) && final(self).doc_freq == old(self).doc_freq && final(self).count == old(self).count,
            match block_entered(old(self).walk()) {
                Ok(w) => r is Ok && final(self).walk() == w,
                Err(k) => r is Err && r->Err_0.kind == k,
            },
    {
        if self.stream.is_some() {
            let head = read_block_head(&mut self.doc_in, self.next_pos)?;
            self.last = plus_of(self.last, head.delta as u64);
            self.next_pos = head.pos;
        } else {
            let n: u64 = to_u64(self.doc_in.read_vlong()?);
            self.doc_in.skip_bytes(n)?;
        }
        Ok(())
    }

    /// Takes in the block behind the one that is being given.
    fn load_block(&mut self) -> (r: Result<(), Error>)
        requires
            old(self).bounded(),
            old(self).doc == old(self).last,
            old(self).doc != NO_MORE_DOCS,
        ensures
            r is Ok ==> final(self).bounded() && final(self).same_term(old(self)) && final(self).upto == 0,
            match block_loaded(old(self).walk()) {
                Ok(w) => r is Ok && final(self).walk() == w,
                Err(k) => r is Err && r->Err_0.kind == k,
            },
    {
        proof {
            reveal(block_loaded);
        }
        if self.doc == self.group_last {
            let target: i64 = plus_of(self.doc, 1);
            self.pass_groups(target)?;
        }
        self.prev = self.last;
        self.resync()?;
        if self.doc_freq - self.count >= 128 {
            self.enter_block()?;
            self.take_block()?;
            if self.stream.is_none() {
                self.last = to_i64(self.docs[127]);
            }
            Ok(())
        } else {
            self.last = NO_MORE_DOCS as i64;
            self.take_tail()
        }
    }

    /// Gives the document at `upto` of the block.
    fn step(&mut self)
        requires
            old(self).bounded(),
            old(self).upto <= 128,
        ensures
            final(self).wf(),
            final(self).same_term(old(self)),
            final(self).walk() == doc_stepped(old(self).walk()),
            final(self).all_remain(),
    {
        self.doc = to_i64(self.docs[self.upto]);
        self.upto = self.upto + 1;
        if self.doc != NO_MORE_DOCS as i64 && self.stream.is_some() {
            let f: u32 = self.freqs[self.upto - 1];
            self.add_pending(f as u64);
            self.reset_position();
        }
    }

    /// Gives the next document.
    pub(crate) fn next_doc(&mut self) -> (r: Result<(), Error>)
        requires
            old(self).wf(),
        ensures
            r is Ok ==> final(self).wf() && final(self).same_term(old(self)),
            r is Ok && old(self).doc != NO_MORE_DOCS ==> final(self).all_remain(),
            match doc_given(old(self).walk()) {
                Ok(w) => r is Ok && final(self).walk() == w,
                Err(k) => r is Err && r->Err_0.kind == k,
            },
    {
        proof {
            reveal(doc_given);
        }
        if self.doc == NO_MORE_DOCS as i64 {
            return Ok(());
        }
        if self.doc == self.last {
            self.load_block()?;
        }
        self.step();
        Ok(())
    }

    /// The frequencies from `from` to before `to` of the block, together.
    fn sum_freqs(&self, from: usize, to: usize) -> (r: u64)
        requires
            self.bounded(),
            to <= 128,
        ensures
            r == freqs_between(self.freqs@, from as int, to as int),
            from < to ==> self.freqs@[to - 1] <= r,
    {
        let mut sum: u64 = 0;
        let mut i: usize = from;
        while i < to
            invariant
                self.bounded(),
                from <= i,
                i <= to <= 128 || i == from,
                to <= 128,
                sum <= (i - from) * 0xFFFF_FFFF,
                sum == freqs_between(self.freqs@, from as int, i as int),
                from < i ==> self.freqs@[i - 1] <= sum,
            decreases to - i,
        {
            sum = sum + self.freqs[i] as u64;
            i = i + 1;
        }
        sum
    }

    /// Moves the stream to the next block, or counts the positions of what is
    /// left of this one.
    fn pass_rest(&mut self) -> (r: Result<(), Error>)
        requires
            old(self).bounded(),
        ensures
            r is Ok ==> final(self).bounded() && final(self).same_term(old(self)) && final(self).doc_freq == old(self).doc_freq && final(self).count == old(self).count,
            match rest_passed(old(self).walk()) {
                Ok(w) => r is Ok && final(self).walk() == w,
                Err(k) => r is Err && r->Err_0.kind == k,
            },
    {
        match &self.stream {
            Some(x) => {
                let at: u64 = x.pos_in.file_pointer();
                if self.next_pos.0 >= at {
                    self.resync()?;
                } else {
                    let rest: u64 = self.sum_freqs(self.upto, 128);
                    self.add_pending(rest);
                }
            },
            None => {},
        }
        Ok(())
    }

    /// Passes the next block over if it ends before `target`; otherwise the
    /// input then stands before its packed data. Says which.
    fn pass_block(&mut self, target: i64) -> (r: Result<bool, Error>)
        requires
            old(self).bounded(),
            old(self).doc_freq - old(self).count >= 128,
        ensures
            r is Ok ==> final(self).bounded() && final(self).same_term(old(self)) && final(self).doc_freq == old(self).doc_freq,
            match block_reached(old(self).walk(), target) {
                Ok((w, reached)) => r == Ok::<bool, Error>(reached) && final(self).walk() == w,
                Err(k) => r is Err && r->Err_0.kind == k,
            },
    {
        if self.stream.is_some() {
            let head = read_block_head(&mut self.doc_in, self.next_pos)?;
            self.last = plus_of(self.last, head.delta as u64);
            self.next_pos = head.pos;
            if target <= self.last {
                return Ok(true);
            }
            self.doc_in.seek(wrap_add(head.at, head.total))?;
        } else {
            let n: u64 = to_u64(self.doc_in.read_vlong()?);
            let from: u64 = self.doc_in.file_pointer();
            let delta: u32 = read_vint15(&mut self.doc_in)?;
            self.last = plus_of(self.last, delta as u64);
            if target <= self.last {
                self.doc_in.seek(wrap_add(from, n))?;
                return Ok(true);
            }
            let total: u64 = read_vlong15(&mut self.doc_in)?;
            self.doc_in.skip_bytes(total)?;
        }
        self.count = self.count + 128;
        Ok(false)
    }

    /// Passes over the blocks that end before `target`.
    fn pass_blocks(&mut self, target: i64) -> (r: Result<(), Error>)
        requires
            old(self).bounded(),
            old(self).doc_freq == 1 ==> old(self).count == 0,
        ensures
            r is Ok ==> final(self).bounded() && final(self).same_term(old(self)) && (final(self).doc_freq == 1 ==> final(self).count == 0) && (final(self).doc_freq - final(self).count >= 128
                || final(self).last == NO_MORE_DOCS),
            match blocks_passed(old(self).walk(), target) {
                Ok(w) => r is Ok && final(self).walk() == w,
                Err(k) => r is Err && r->Err_0.kind == k,
            },
    {
        let ghost all = blocks_passed(old(self).walk(), target);
        let mut done: bool = false;
        while !done
            invariant
                self.bounded(),
                self.same_term(old(self)),
                self.doc_freq == 1 ==> self.count == 0,
                all == blocks_passed(old(self).walk(), target),
                !done ==> all == blocks_passed(self.walk(), target),
                done ==> all == Ok::<Walk, ErrorKind>(self.walk()) && (self.doc_freq - self.count >= 128 || self.last == NO_MORE_DOCS),
            decreases (if done {
                0int
            } else {
                1 + self.doc_freq - self.count
            }),
        {
            proof {
                reveal_with_fuel(blocks_passed, 2);
            }
            self.prev = self.last;
            self.pass_rest()?;
            if self.doc_freq - self.count >= 128 {
                done = self.pass_block(target)?;
            } else {
                self.last = NO_MORE_DOCS as i64;
                done = true;
            }
        }
        Ok(())
    }

    /// Takes in the block that may hold `target`, which lies behind the block
    /// that is being given.
    fn seek_block(&mut self, target: i64) -> (r: Result<(), Error>)
        requires
            old(self).bounded(),
            old(self).last < target <= NO_MORE_DOCS,
        ensures
            r is Ok ==> final(self).bounded() && final(self).same_term(old(self)) && final(self).upto == 0,
            match block_sought(old(self).walk(), target) {
                Ok(w) => r is Ok && final(self).walk() == w,
                Err(k) => r is Err && r->Err_0.kind == k,
            },
    {
        proof {
            reveal(block_sought);
        }
        if target > self.group_last {
            self.pass_groups(target)?;
        }
        self.pass_blocks(target)?;
        if self.doc_freq - self.count >= 128 {
            self.take_block()
        } else {
            self.take_tail()
        }
    }

    /// Goes on in the block to the first document that is not below `target`.
    fn scan_block(&mut self, target: i64)
        requires
            old(self).bounded(),
            old(self).upto <= 128,
            target <= NO_MORE_DOCS,
        ensures
            final(self).wf(),
            final(self).same_term(old(self)),
            final(self).walk() == block_scanned(old(self).walk(), target),
            final(self).all_remain(),
    {
        proof {
            reveal(block_scanned);
        }
        let from: usize = self.upto;
        let mut j: usize = from;
        while to_i64(self.docs[j]) < target
            invariant
                self.bounded(),
                target <= NO_MORE_DOCS,
                from <= j <= 128,
                first_not_below(self.docs@, j as int, target) == first_not_below(self.docs@, from as int, target),
            decreases 128 - j,
        {
            j = j + 1;
        }
        self.doc = to_i64(self.docs[j]);
        self.upto = j + 1;
        if self.doc != NO_MORE_DOCS as i64 && self.stream.is_some() {
            let passed: u64 = self.sum_freqs(from, j + 1);
            self.add_pending(passed);
            self.reset_position();
        }
    }

    /// Goes on to the first document that is not below `target`; stays where
    /// it is if that one is not.
    pub(crate) fn advance(&mut self, target: i32) -> (r: Result<(), Error>)
        requires
            old(self).wf(),
        ensures
            r is Ok ==> final(self).wf() && final(self).same_term(old(self)),
            r is Ok && old(self).doc < target ==> final(self).all_remain(),
            match doc_advanced(old(self).walk(), target) {
                Ok(w) => r is Ok && final(self).walk() == w,
                Err(k) => r is Err && r->Err_0.kind == k,
            },
    {
        let goal: i64 = target as i64;
        if self.doc >= goal {
            return Ok(());
        }
        if goal > self.last {
            self.seek_block(goal)?;
        }
        self.scan_block(goal);
        Ok(())
    }

    /// The frequency of the document that was given last.
    pub(crate) fn freq(&self) -> (r: u32)
        requires
            self.wf(),
            self.upto <= 128,
        ensures
            r == walk_freq(self.walk()),
    {
        if self.has_freqs {
            self.freqs[self.upto - 1]
        } else {
            1
        }
    }

    /// The next position of the document that was given last.
    pub(crate) fn next_position(&mut self) -> (r: Result<u32, Error>)
        requires
            old(self).wf(),
            old(self).upto <= 128,
            old(self).stream is Some,
            walk_remaining(old(self).walk()) > 0,
        ensures
            r is Ok ==> final(self).wf() && final(self).same_term(old(self)),
            r is Ok ==> walk_remaining(final(self).walk()) == walk_remaining(old(self).walk()) - 1,
            match position_given(old(self).walk()) {
                Ok(w) => r == Ok::<u32, Error>(w.stream->Some_0.position) && final(self).walk() == w,
                Err(k) => r is Err && r->Err_0.kind == k,
            },
    {
        let freq: u64 = self.freq() as u64;
        let total: u64 = self.total_term_freq;
        match self.stream.take() {
            Some(x) => {
                let mut stream = x;
                if stream.pending > freq {
                    stream.skip(stream.pending - freq, total)?;
                    stream.position = 0;
                    stream.pending = freq;
                }
                let delta: u32 = stream.next(total)?;
                let sum: u64 = stream.position as u64 + delta as u64;
                stream.position = (sum % 0x1_0000_0000) as u32;
                stream.pending = stream.pending - 1;
                let position: u32 = stream.position;
                self.stream = Some(stream);
                Ok(position)
            },
            None => Ok(0),
        }
    }

    /// How many documents stand in the block up to its mark, no more than
    /// `room`.
    fn count_window(&self, room: usize) -> (n: usize)
        requires
            self.bounded(),
            self.upto <= 128,
        ensures
            n == window(self.docs@, self.upto as int, room as int),
            n <= room,
            self.upto + n <= 128,
    {
        let mut n: usize = 0;
        while n < room && self.docs[self.upto + n] != NO_MORE_DOCS as u64
            invariant
                self.bounded(),
                n <= room,
                self.upto + n <= 128,
                window(self.docs@, self.upto as int, room as int) == n + window(self.docs@, self.upto + n, room - n),
            decreases room - n,
        {
            n = n + 1;
        }
        n
    }

    /// Gives the next documents, as many as there is room for.
    pub(crate) fn next_docs(&mut self, docs: &mut [u32]) -> (r: Result<usize, Error>)
        requires
            old(self).wf(),
            old(self).stream is None,
        ensures
            r is Ok ==> final(self).wf() && final(self).same_term(old(self)),
            final(docs)@.len() == old(docs)@.len(),
            match batch_walked(old(self).walk(), old(docs)@.len() as int) {
                Ok((w, given, _)) => r is Ok && r->Ok_0 == given.len() && final(self).walk() == w && final(docs)@ == filled(old(docs)@, given),
                Err(k) => r is Err && r->Err_0.kind == k,
            },
    {
        let mut freqs: Vec<u32> = Vec::new();
        while freqs.len() < docs.len()
            invariant
                freqs@.len() <= docs@.len(),
                docs@ == old(docs)@,
            decreases docs@.len() - freqs@.len(),
        {
            freqs.push(0);
        }
        self.next_docs_and_freqs(docs, freqs.as_mut_slice())
    }

    /// Gives the next documents and what stands for their frequencies, as many
    /// as there is room for.
    pub(crate) fn next_docs_and_freqs(&mut self, docs: &mut [u32], freqs: &mut [u32]) -> (r: Result<usize, Error>)
        requires
            old(self).wf(),
            old(self).stream is None,
            old(freqs)@.len() >= old(docs)@.len(),
        ensures
            r is Ok ==> final(self).wf() && final(self).same_term(old(self)),
            final(docs)@.len() == old(docs)@.len(),
            final(freqs)@.len() == old(freqs)@.len(),
            match batch_walked(old(self).walk(), old(docs)@.len() as int) {
                Ok((w, given, counts)) => r is Ok && r->Ok_0 == given.len() && final(self).walk() == w && final(docs)@ == filled(old(docs)@, given) && final(freqs)@ == filled(
                    old(freqs)@,
                    counts,
                ),
                Err(k) => r is Err && r->Err_0.kind == k,
            },
    {
        let ghost (d0, f0) = (docs@, freqs@);
        let ghost mut given: Seq<u32> = Seq::empty();
        let ghost mut counts: Seq<u32> = Seq::empty();
        let ghost all = batch_walked(self.walk(), d0.len() as int);
        let room: usize = docs.len();
        let mut n: usize = 0;
        let mut done: bool = false;
        assert(docs@ =~= filled(d0, given));
        assert(freqs@ =~= filled(f0, counts));
        proof {
            lemma_behind_none(all);
        }
        while n < room && !done
            invariant
                n <= room == d0.len() <= f0.len(),
                (d0, f0) == (old(docs)@, old(freqs)@),
                given.len() == n == counts.len(),
                docs@ == filled(d0, given),
                freqs@ == filled(f0, counts),
                self.wf(),
                self.stream is None,
                self.same_term(old(self)),
                all == batch_walked(old(self).walk(), d0.len() as int),
                !done ==> all == behind(given, counts, batch_walked(self.walk(), room - n)),
                done ==> all == Ok::<(Walk, Seq<u32>, Seq<u32>), ErrorKind>((self.walk(), given, counts)),
            decreases room - n, (if done { 0int } else { 1 }),
        {
            proof {
                reveal_with_fuel(batch_walked, 1);
            }
            if self.doc == NO_MORE_DOCS as i64 {
                done = true;
                proof {
                    assert(given + Seq::<u32>::empty() =~= given);
                    assert(counts + Seq::<u32>::empty() =~= counts);
                }
            } else {
                if self.doc == self.last {
                    self.load_block()?;
                }
                let ghost v = self.walk();
                let take: usize = self.count_window(room - n);
                if take == 0 {
                    self.doc = to_i64(self.docs[self.upto]);
                    self.upto = self.upto + 1;
                    done = true;
                    proof {
                        assert(given + Seq::<u32>::empty() =~= given);
                        assert(counts + Seq::<u32>::empty() =~= counts);
                        lemma_window_ends(v.docs, v.upto, room - n);
                    }
                } else {
                    let ghost (more, extra) = (low_docs(v.docs, v.upto, take as int), v.freqs.subrange(v.upto, v.upto + take));
                    let mut j: usize = 0;
                    while j < take
                        invariant
                            j <= take,
                            n + take <= room == docs@.len() <= freqs@.len(),
                            self.bounded(),
                            self.upto + take <= 128,
                            v == self.walk(),
                            (more, extra) == (low_docs(v.docs, v.upto, take as int), v.freqs.subrange(v.upto, v.upto + take)),
                            given.len() == n == counts.len(),
                            d0.len() == docs@.len(),
                            f0.len() == freqs@.len(),
                            docs@ == filled(d0, given + more.take(j as int)),
                            freqs@ == filled(f0, counts + extra.take(j as int)),
                        decreases take - j,
                    {
                        docs[n + j] = (self.docs[self.upto + j] % 0x1_0000_0000) as u32;
                        freqs[n + j] = self.freqs[self.upto + j];
                        j = j + 1;
                        assert(docs@ =~= filled(d0, given + more.take(j as int)));
                        assert(freqs@ =~= filled(f0, counts + extra.take(j as int)));
                    }
                    self.doc = to_i64(self.docs[self.upto + take - 1]);
                    self.upto = self.upto + take;
                    proof {
                        lemma_window_before(v.docs, v.upto, room - n, take - 1);
                        assert(more.take(take as int) =~= more);
                        assert(extra.take(take as int) =~= extra);
                        lemma_behind_more(given, counts, more, extra, batch_walked(self.walk(), room - n - take));
                        given = given + more;
                        counts = counts + extra;
                    }
                    n = n + take;
                }
            }
        }
        proof {
            if !done {
                reveal_with_fuel(batch_walked, 1);
                assert(given + Seq::<u32>::empty() =~= given);
                assert(counts + Seq::<u32>::empty() =~= counts);
            }
        }
        Ok(n)
    }
}

/// What comes behind documents and frequencies that were given.
spec fn behind(docs: Seq<u32>, freqs: Seq<u32>, r: Result<(Walk, Seq<u32>, Seq<u32>), ErrorKind>) -> Result<(Walk, Seq<u32>, Seq<u32>), ErrorKind> {
    match r {
        Ok((w, d, f)) => Ok((w, docs + d, freqs + f)),
        Err(k) => Err(k),
    }
}

proof fn lemma_behind_none(r: Result<(Walk, Seq<u32>, Seq<u32>), ErrorKind>)
    ensures
        behind(Seq::empty(), Seq::empty(), r) == r,
{
    if let Ok((w, d, f)) = r {
        assert(Seq::<u32>::empty() + d =~= d);
        assert(Seq::<u32>::empty() + f =~= f);
    }
}

proof fn lemma_behind_more(docs: Seq<u32>, freqs: Seq<u32>, more: Seq<u32>, extra: Seq<u32>, r: Result<(Walk, Seq<u32>, Seq<u32>), ErrorKind>)
    ensures
        behind(docs + more, freqs + extra, r) == behind(docs, freqs, behind(more, extra, r)),
{
    if let Ok((w, d, f)) = r {
        assert(docs + more + d =~= docs + (more + d));
        assert(freqs + extra + f =~= freqs + (extra + f));
    }
}

/// Behind the documents of a window stands the mark, or there is no more room.
proof fn lemma_window_ends(docs: Seq<u64>, from: int, room: int)
    ensures
        window(docs, from, room) == 0 && room > 0 ==> docs[from] == no_doc(),
{
}

/// No mark stands among the documents of a window.
pub(crate) proof fn lemma_window_before(docs: Seq<u64>, from: int, room: int, i: int)
    requires
        0 <= i < window(docs, from, room),
    ensures
        docs[from + i] != no_doc(),
    decreases i,
{
    if i > 0 {
        lemma_window_before(docs, from + 1, room - 1, i - 1);
    }
}

} // verus!
