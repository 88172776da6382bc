//! Reads postings: goes through the documents of a term, with or without
//! frequencies and positions.

use crate::block_tree::TermState;
use crate::bytes::{holds_at, i64_in, int_at, int_bytes, law_int_round_trip, lemma_holds_concat, lemma_le_bytes_len};
use crate::codec_util::{check_footer, check_footer_structure, check_index_header, footer_structure, corrupt, index_header_at, valid_footer_at};
use crate::doc_postings::TermDocs;
use crate::enum_core::EnumCore;
use crate::error::{Error, ErrorKind};
use crate::io::{ChecksumIndexInput, DataInput, IndexInput};
use crate::num::{spec_to_i32, spec_to_u32, spec_to_u64, to_i32, to_u32, to_u64};
use crate::postings::{DOC_CODEC, POSTINGS_VERSION, POS_CODEC, PSM_CODEC, SEGMENT_SUFFIX};
use crate::postings_walk::{batch_walked, doc_advanced, doc_given, position_given, walk_freq, walk_remaining, walk_start, Walk};
use crate::postings_walk_laws::{
    entry_positions, entry_term, first_from, follows, law_advance, law_batch, law_current_doc, law_freq, law_next_doc, law_next_position, law_positions_start,
    law_walk_start,
};
use vstd::prelude::*;

verus! {

/// No documents are left.
pub const NO_MORE_DOCS: i32 = 0x7FFF_FFFF;

/// Documents per group of the second skip level.
pub const LEVEL1_NUM_DOCS: u32 = 4096;

/// What a terms dictionary knows of a term.
#[derive(Clone, Copy, Debug)]
pub struct TermEntry {
    pub doc_freq: u32,
    pub total_term_freq: u64,
    pub state: TermState,
}

// ---------------------------------------------------------------------------
// Going through a term
// ---------------------------------------------------------------------------

/// A document as it is given: 32 bits of it.
pub open spec fn given_doc(doc: i64) -> i32 {
    spec_to_i32((spec_to_u64(doc) % 0x1_0000_0000) as u32)
}

fn doc_of(doc: i64) -> (r: i32)
    ensures
        r == given_doc(doc),
{
    to_i32((to_u64(doc) % 0x1_0000_0000) as u32)
}

/// A room whose first places were filled.
pub open spec fn filled(room: Seq<u32>, given: Seq<u32>) -> Seq<u32> {
    Seq::new(room.len(), |i: int| if i < given.len() { given[i] } else { room[i] })
}

/// A step from the walk `w` to the walk `v` gives the next document of a term
/// that is gone through, and the end mark behind its last one.
pub open spec fn gives_next(w: Walk, v: Walk, r: Result<i32, Error>) -> bool {
    forall|t: TermDocs, start: int, lists: Seq<Seq<u32>>, k: int| #[trigger]
        follows(w, t, start, lists, k) ==> r is Ok && if k < t.docs.len() {
            r->Ok_0 == t.docs[k] && follows(v, t, start, lists, k + 1)
        } else {
            r->Ok_0 == NO_MORE_DOCS && follows(v, t, start, lists, k)
        }
}

/// A step from the walk `w` to the walk `v` gives the first document of a term
/// that is gone through, from the current one on, that is not below `target`,
/// and the end mark where there is none.
pub open spec fn gives_from(w: Walk, v: Walk, target: i32, r: Result<i32, Error>) -> bool {
    forall|t: TermDocs, start: int, lists: Seq<Seq<u32>>, k: int| #[trigger]
        follows(w, t, start, lists, k) ==> r is Ok && ({
            let j = first_from(t.docs, k, target as int);
            if w.doc >= target {
                r->Ok_0 == w.doc && v == w
            } else if j < t.docs.len() {
                r->Ok_0 == t.docs[j] && follows(v, t, start, lists, j + 1)
            } else {
                r->Ok_0 == NO_MORE_DOCS && follows(v, t, start, lists, t.docs.len() as int)
            }
        })
}

/// How many of the documents behind the first `k` of a term there is room for.
pub open spec fn batch_len(t: TermDocs, k: int, room: int) -> int {
    if room < t.docs.len() - k {
        room
    } else {
        t.docs.len() - k
    }
}

/// A step from the walk `w` to the walk `v` gives the next documents of a term
/// that is gone through, as many as there is room for.
pub open spec fn gives_batch(w: Walk, v: Walk, r: Result<usize, Error>, room: Seq<u32>, docs: Seq<u32>) -> bool {
    forall|t: TermDocs, start: int, lists: Seq<Seq<u32>>, k: int| #[trigger]
        follows(w, t, start, lists, k) ==> r is Ok && ({
            let n = batch_len(t, k, room.len() as int);
            r->Ok_0 == n && docs == filled(room, t.docs.subrange(k, k + n)) && follows(v, t, start, lists, k + n)
        })
}

/// The frequencies of the next documents of a term that is gone through stand
/// in `freqs`, as many as there was room for `len` documents.
pub open spec fn gives_freqs(w: Walk, len: int, room: Seq<u32>, freqs: Seq<u32>) -> bool {
    forall|t: TermDocs, start: int, lists: Seq<Seq<u32>>, k: int| #[trigger]
        follows(w, t, start, lists, k) ==> freqs == filled(room, t.freqs.subrange(k, k + batch_len(t, k, len)))
}

/// `freq` is the frequency of the document of a term that was given last.
pub open spec fn is_freq(w: Walk, freq: u32) -> bool {
    forall|t: TermDocs, start: int, lists: Seq<Seq<u32>>, k: int| #[trigger] follows(w, t, start, lists, k) && k > 0 && w.doc != NO_MORE_DOCS ==> freq == t.freqs[k - 1]
}

/// A step from the walk `w` to the walk `v` gives the next position of the
/// document of a term that was given last.
pub open spec fn gives_position(w: Walk, v: Walk, r: Result<u32, Error>) -> bool {
    forall|t: TermDocs, start: int, lists: Seq<Seq<u32>>, k: int| #[trigger]
        follows(w, t, start, lists, k) && k > 0 && w.doc != NO_MORE_DOCS ==> r is Ok && r->Ok_0 == lists[k - 1][t.freqs[k - 1] - walk_remaining(w)] && follows(v, t, start, lists, k)
}

/// All of a term's documents are given as they are.
proof fn lemma_follows_doc(w: Walk, t: TermDocs, start: int, lists: Seq<Seq<u32>>, k: int)
    requires
        follows(w, t, start, lists, k),
    ensures
        given_doc(w.doc) == w.doc,
{
    law_current_doc(w, t, start, lists, k);
}

/// At the start of an entry that is a term's, none of its documents were given.
pub open spec fn begins(w: Walk, doc: Seq<u8>, entry: TermEntry, has_freqs: bool) -> bool {
    forall|t: TermDocs| #[trigger] entry_term(doc, entry, has_freqs, t) ==> follows(w, t, entry.state.doc_start_fp as int, Seq::empty(), 0)
}

proof fn lemma_begins(doc: Seq<u8>, entry: TermEntry, has_freqs: bool, decode_freqs: bool)
    ensures
        begins(walk_start(doc, entry, has_freqs, decode_freqs, None), doc, entry, has_freqs),
{
    assert forall|t: TermDocs| #[trigger] entry_term(doc, entry, has_freqs, t) implies follows(
        walk_start(doc, entry, has_freqs, decode_freqs, None),
        t,
        entry.state.doc_start_fp as int,
        Seq::empty(),
        0,
    ) by {
        law_walk_start(doc, entry, has_freqs, decode_freqs, t);
    }
}

/// At the start of an entry that is a term's with positions, none of its
/// documents and positions were given.
pub open spec fn begins_positions(w: Walk, doc: Seq<u8>, pos: Seq<u8>, entry: TermEntry) -> bool {
    forall|t: TermDocs, lists: Seq<Seq<u32>>| #[trigger] entry_positions(doc, pos, entry, t, lists) ==> follows(w, t, entry.state.doc_start_fp as int, lists, 0)
}

proof fn lemma_begins_positions(doc: Seq<u8>, pos: Seq<u8>, entry: TermEntry)
    ensures
        begins_positions(walk_start(doc, entry, true, true, Some(pos)), doc, pos, entry),
{
    assert forall|t: TermDocs, lists: Seq<Seq<u32>>| #[trigger] entry_positions(doc, pos, entry, t, lists) implies follows(
        walk_start(doc, entry, true, true, Some(pos)),
        t,
        entry.state.doc_start_fp as int,
        lists,
        0,
    ) by {
        law_positions_start(doc, pos, entry, t, lists);
    }
}

proof fn lemma_next(w: Walk, v: Walk, r: Result<i32, Error>)
    requires
        match doc_given(w) {
            Ok(x) => r == Ok::<i32, Error>(given_doc(x.doc)) && v == x,
            Err(_) => r is Err,
        },
    ensures
        gives_next(w, v, r),
{
    assert forall|t: TermDocs, start: int, lists: Seq<Seq<u32>>, k: int| #[trigger] follows(w, t, start, lists, k) implies r is Ok && if k < t.docs.len() {
        r->Ok_0 == t.docs[k] && follows(v, t, start, lists, k + 1)
    } else {
        r->Ok_0 == NO_MORE_DOCS && follows(v, t, start, lists, k)
    } by {
        law_next_doc(w, t, start, lists, k);
        law_current_doc(w, t, start, lists, k);
        lemma_follows_doc(v, t, start, lists, if k < t.docs.len() { k + 1 } else { k });
    }
}

proof fn lemma_from(w: Walk, v: Walk, target: i32, r: Result<i32, Error>)
    requires
        match doc_advanced(w, target) {
            Ok(x) => r == Ok::<i32, Error>(given_doc(x.doc)) && v == x,
            Err(_) => r is Err,
        },
    ensures
        gives_from(w, v, target, r),
{
    assert forall|t: TermDocs, start: int, lists: Seq<Seq<u32>>, k: int| #[trigger] follows(w, t, start, lists, k) implies r is Ok && ({
        let j = first_from(t.docs, k, target as int);
        if w.doc >= target {
            r->Ok_0 == w.doc && v == w
        } else if j < t.docs.len() {
            r->Ok_0 == t.docs[j] && follows(v, t, start, lists, j + 1)
        } else {
            r->Ok_0 == NO_MORE_DOCS && follows(v, t, start, lists, t.docs.len() as int)
        }
    }) by {
        let j = first_from(t.docs, k, target as int);
        law_advance(w, t, start, lists, k, target);
        if w.doc >= target {
            lemma_follows_doc(w, t, start, lists, k);
        } else if j < t.docs.len() {
            lemma_follows_doc(v, t, start, lists, j + 1);
        } else {
            lemma_follows_doc(v, t, start, lists, t.docs.len() as int);
        }
    }
}

proof fn lemma_batch(w: Walk, v: Walk, r: Result<usize, Error>, room: Seq<u32>, docs: Seq<u32>)
    requires
        w.stream is None,
        match batch_walked(w, room.len() as int) {
            Ok((x, given, _)) => r is Ok && r->Ok_0 == given.len() && v == x && docs == filled(room, given),
            Err(_) => r is Err,
        },
    ensures
        gives_batch(w, v, r, room, docs),
{
    assert forall|t: TermDocs, start: int, lists: Seq<Seq<u32>>, k: int| #[trigger] follows(w, t, start, lists, k) implies r is Ok && ({
        let n = batch_len(t, k, room.len() as int);
        r->Ok_0 == n && docs == filled(room, t.docs.subrange(k, k + n)) && follows(v, t, start, lists, k + n)
    }) by {
        law_batch(w, t, start, lists, k, room.len() as int);
        law_current_doc(w, t, start, lists, k);
    }
}

proof fn lemma_batch_freqs(w: Walk, len: int, r: Result<usize, Error>, room: Seq<u32>, freqs: Seq<u32>)
    requires
        w.stream is None,
        w.has_freqs,
        w.decode_freqs,
        0 <= len,
        match batch_walked(w, len) {
            Ok((_, _, given)) => freqs == filled(room, given),
            Err(_) => r is Err,
        },
    ensures
        r is Ok ==> gives_freqs(w, len, room, freqs),
{
    if r is Ok {
        assert forall|t: TermDocs, start: int, lists: Seq<Seq<u32>>, k: int| #[trigger] follows(w, t, start, lists, k) implies freqs == filled(
            room,
            t.freqs.subrange(k, k + batch_len(t, k, len)),
        ) by {
            law_batch(w, t, start, lists, k, len);
        }
    }
}

proof fn lemma_freq(w: Walk)
    requires
        w.has_freqs,
        w.decode_freqs,
    ensures
        is_freq(w, walk_freq(w)),
{
    assert forall|t: TermDocs, start: int, lists: Seq<Seq<u32>>, k: int| #[trigger] follows(w, t, start, lists, k) && k > 0 && w.doc != NO_MORE_DOCS implies walk_freq(w) == t.freqs[k - 1] by {
        law_freq(w, t, start, lists, k);
    }
}

proof fn lemma_position(w: Walk, v: Walk, r: Result<u32, Error>)
    requires
        w.stream is Some,
        walk_remaining(w) > 0,
        match position_given(w) {
            Ok(x) => r == Ok::<u32, Error>(x.stream->Some_0.position) && v == x,
            Err(_) => r is Err,
        },
    ensures
        gives_position(w, v, r),
{
    assert forall|t: TermDocs, start: int, lists: Seq<Seq<u32>>, k: int| #[trigger] follows(w, t, start, lists, k) && k > 0 && w.doc != NO_MORE_DOCS implies r is Ok && r->Ok_0 == lists[k - 1][t.freqs[k
        - 1] - walk_remaining(w)] && follows(v, t, start, lists, k) by {
        law_next_position(w, t, start, lists, k);
    }
}

/// Goes through the documents of a term of a field without frequencies.
pub struct DocsEnum {
    core: EnumCore,
}

impl DocsEnum {
    /// How far the documents were gone through.
    pub closed spec fn walk(&self) -> Walk {
        self.core.walk()
    }

    pub closed spec fn wf(&self) -> bool {
        self.core.wf() && self.core.stream is None
    }

    /// The document that was given last; -1 before the first.
    pub fn doc_id(&self) -> (r: i32)
        ensures
            r == given_doc(self.walk().doc),
    {
        doc_of(self.core.doc)
    }

    /// Gives the next document.
    pub fn next_doc(&mut self) -> (r: Result<i32, Error>)
        requires
            old(self).wf(),
        ensures
            r is Ok ==> final(self).wf(),
            gives_next(old(self).walk(), final(self).walk(), r),
            match doc_given(old(self).walk()) {
                Ok(w) => r == Ok::<i32, Error>(given_doc(w.doc)) && final(self).walk() == w,
                Err(k) => r is Err && r->Err_0.kind == k,
            },
    {
        let r = match self.core.next_doc() {
            Ok(()) => Ok(doc_of(self.core.doc)),
            Err(e) => Err(e),
        };
        proof {
            lemma_next(old(self).walk(), self.walk(), r);
        }
        r
    }

    /// Goes on to the first document that is not below `target`.
    pub fn advance(&mut self, target: i32) -> (r: Result<i32, Error>)
        requires
            old(self).wf(),
        ensures
            r is Ok ==> final(self).wf(),
            gives_from(old(self).walk(), final(self).walk(), target, r),
            match doc_advanced(old(self).walk(), target) {
                Ok(w) => r == Ok::<i32, Error>(given_doc(w.doc)) && final(self).walk() == w,
                Err(k) => r is Err && r->Err_0.kind == k,
            },
    {
        let r = match self.core.advance(target) {
            Ok(()) => Ok(doc_of(self.core.doc)),
            Err(e) => Err(e),
        };
        proof {
            lemma_from(old(self).walk(), self.walk(), target, r);
        }
        r
    }

    /// Gives the next documents, as many as there is room for. Gives how many
    /// they are; 0 where none is left.
    pub fn next_docs(&mut self, docs: &mut [u32]) -> (r: Result<usize, Error>)
        requires
            old(self).wf(),
        ensures
            r is Ok ==> final(self).wf(),
            final(docs)@.len() == old(docs)@.len(),
            gives_batch(old(self).walk(), final(self).walk(), r, old(docs)@, final(docs)@),
            match batch_walked(old(self).walk(), old(docs)@.len() as int) {
                Ok((w, given, _)) => r is Ok && r->Ok_0 == given.len() && final(self).walk() == w && final(docs)@ == filled(old(docs)@, given),
                Err(k) => r is Err && r->Err_0.kind == k,
            },
    {
        let r = self.core.next_docs(docs);
        proof {
            lemma_batch(old(self).walk(), self.walk(), r, old(docs)@, docs@);
        }
        r
    }
}

/// Goes through the documents of a term of a field with frequencies.
pub struct DocsFreqsEnum {
    core: EnumCore,
}

impl DocsFreqsEnum {
    /// How far the documents were gone through.
    pub closed spec fn walk(&self) -> Walk {
        self.core.walk()
    }

    /// Whether frequencies are decoded.
    pub closed spec fn decodes(&self) -> bool {
        self.core.decode_freqs
    }

    pub closed spec fn wf(&self) -> bool {
        self.core.wf() && self.core.has_freqs && self.core.stream is None
    }

    /// The document that was given last; -1 before the first.
    pub fn doc_id(&self) -> (r: i32)
        ensures
            r == given_doc(self.walk().doc),
    {
        doc_of(self.core.doc)
    }

    /// Gives the next document.
    pub fn next_doc(&mut self) -> (r: Result<i32, Error>)
        requires
            old(self).wf(),
        ensures
            r is Ok ==> final(self).wf() && final(self).decodes() == old(self).decodes(),
            gives_next(old(self).walk(), final(self).walk(), r),
            match doc_given(old(self).walk()) {
                Ok(w) => r == Ok::<i32, Error>(given_doc(w.doc)) && final(self).walk() == w,
                Err(k) => r is Err && r->Err_0.kind == k,
            },
    {
        let r = match self.core.next_doc() {
            Ok(()) => Ok(doc_of(self.core.doc)),
            Err(e) => Err(e),
        };
        proof {
            lemma_next(old(self).walk(), self.walk(), r);
        }
        r
    }

    /// Goes on to the first document that is not below `target`.
    pub fn advance(&mut self, target: i32) -> (r: Result<i32, Error>)
        requires
            old(self).wf(),
        ensures
            r is Ok ==> final(self).wf() && final(self).decodes() == old(self).decodes(),
            gives_from(old(self).walk(), final(self).walk(), target, r),
            match doc_advanced(old(self).walk(), target) {
                Ok(w) => r == Ok::<i32, Error>(given_doc(w.doc)) && final(self).walk() == w,
                Err(k) => r is Err && r->Err_0.kind == k,
            },
    {
        let r = match self.core.advance(target) {
            Ok(()) => Ok(doc_of(self.core.doc)),
            Err(e) => Err(e),
        };
        proof {
            lemma_from(old(self).walk(), self.walk(), target, r);
        }
        r
    }

    /// The frequency of the document that was given last; behind the end, what
    /// the block holds at its place, if it has one.
    pub fn freq(&self) -> (r: u32)
        requires
            self.wf(),
            self.decodes(),
            self.walk().doc != NO_MORE_DOCS || self.walk().upto <= 128,
        ensures
            r == walk_freq(self.walk()),
            is_freq(self.walk(), r),
    {
        proof {
            lemma_freq(self.walk());
        }
        self.core.freq()
    }

    /// Whether frequencies are decoded.
    pub fn decodes_freqs(&self) -> (r: bool)
        ensures
            r == self.decodes(),
    {
        self.core.decode_freqs
    }

    /// Gives the next documents, as many as there is room for. Gives how many
    /// they are; 0 where none is left.
    pub fn next_docs(&mut self, docs: &mut [u32]) -> (r: Result<usize, Error>)
        requires
            old(self).wf(),
        ensures
            r is Ok ==> final(self).wf() && final(self).decodes() == old(self).decodes(),
            final(docs)@.len() == old(docs)@.len(),
            gives_batch(old(self).walk(), final(self).walk(), r, old(docs)@, final(docs)@),
            match batch_walked(old(self).walk(), old(docs)@.len() as int) {
                Ok((w, given, _)) => r is Ok && r->Ok_0 == given.len() && final(self).walk() == w && final(docs)@ == filled(old(docs)@, given),
                Err(k) => r is Err && r->Err_0.kind == k,
            },
    {
        let r = self.core.next_docs(docs);
        proof {
            lemma_batch(old(self).walk(), self.walk(), r, old(docs)@, docs@);
        }
        r
    }

    /// Gives the next documents and their frequencies, as many as there is
    /// room for.
    pub fn next_docs_and_freqs(&mut self, docs: &mut [u32], freqs: &mut [u32]) -> (r: Result<usize, Error>)
        requires
            old(self).wf(),
            old(self).decodes(),
            old(freqs)@.len() >= old(docs)@.len(),
        ensures
            r is Ok ==> final(self).wf() && final(self).decodes() == old(self).decodes(),
            final(docs)@.len() == old(docs)@.len(),
            final(freqs)@.len() == old(freqs)@.len(),
            r is Ok ==> gives_freqs(old(self).walk(), old(docs)@.len() as int, old(freqs)@, final(freqs)@),
            gives_batch(old(self).walk(), final(self).walk(), r, old(docs)@, final(docs)@),
            match batch_walked(old(self).walk(), old(docs)@.len() as int) {
                Ok((w, given, counts)) => r is Ok && r->Ok_0 == given.len() && final(self).walk() == w && final(docs)@ == filled(old(docs)@, given) && final(freqs)@ == filled(
                    old(freqs)@,
                    counts,
                ),
                Err(k) => r is Err && r->Err_0.kind == k,
            },
    {
        let r = self.core.next_docs_and_freqs(docs, freqs);
        proof {
            lemma_batch(old(self).walk(), self.walk(), r, old(docs)@, docs@);
            lemma_batch_freqs(old(self).walk(), old(docs)@.len() as int, r, old(freqs)@, freqs@);
        }
        r
    }
}

/// Goes through the documents, frequencies and positions of a term.
pub struct PositionsEnum {
    core: EnumCore,
}

impl PositionsEnum {
    /// How far the documents and positions were gone through.
    pub closed spec fn walk(&self) -> Walk {
        self.core.walk()
    }

    pub closed spec fn wf(&self) -> bool {
        self.core.wf() && self.core.has_freqs && self.core.decode_freqs && self.core.stream is Some
    }

    /// How many positions of the current document were not given.
    pub open spec fn remaining(&self) -> int {
        walk_remaining(self.walk())
    }

    /// The document that was given last; -1 before the first.
    pub fn doc_id(&self) -> (r: i32)
        ensures
            r == given_doc(self.walk().doc),
    {
        doc_of(self.core.doc)
    }

    /// The frequency of the document that was given last; behind the end, what
    /// the block holds at its place, if it has one.
    pub fn freq(&self) -> (r: u32)
        requires
            self.wf(),
            self.walk().doc != NO_MORE_DOCS || self.walk().upto <= 128,
        ensures
            r == walk_freq(self.walk()),
            is_freq(self.walk(), r),
    {
        proof {
            lemma_freq(self.walk());
        }
        self.core.freq()
    }

    /// The next position of the document that was given last.
    pub fn next_position(&mut self) -> (r: Result<u32, Error>)
        requires
            old(self).wf(),
            old(self).walk().doc != NO_MORE_DOCS || old(self).walk().upto <= 128,
            old(self).remaining() > 0,
        ensures
            r is Ok ==> final(self).wf(),
            gives_position(old(self).walk(), final(self).walk(), r),
            r is Ok ==> final(self).remaining() == old(self).remaining() - 1,
            match position_given(old(self).walk()) {
                Ok(w) => r == Ok::<u32, Error>(w.stream->Some_0.position) && final(self).walk() == w,
                Err(k) => r is Err && r->Err_0.kind == k,
            },
    {
        let r = self.core.next_position();
        proof {
            lemma_position(old(self).walk(), self.walk(), r);
        }
        r
    }

    /// Gives the next document.
    pub fn next_doc(&mut self) -> (r: Result<i32, Error>)
        requires
            old(self).wf(),
        ensures
            r is Ok ==> final(self).wf(),
            r is Ok && old(self).walk().doc != NO_MORE_DOCS && final(self).walk().doc != NO_MORE_DOCS ==> final(self).remaining() == walk_freq(final(self).walk()),
            gives_next(old(self).walk(), final(self).walk(), r),
            match doc_given(old(self).walk()) {
                Ok(w) => r == Ok::<i32, Error>(given_doc(w.doc)) && final(self).walk() == w,
                Err(k) => r is Err && r->Err_0.kind == k,
            },
    {
        let r = match self.core.next_doc() {
            Ok(()) => Ok(doc_of(self.core.doc)),
            Err(e) => Err(e),
        };
        proof {
            lemma_next(old(self).walk(), self.walk(), r);
        }
        r
    }

    /// Goes on to the first document that is not below `target`.
    pub fn advance(&mut self, target: i32) -> (r: Result<i32, Error>)
        requires
            old(self).wf(),
        ensures
            r is Ok ==> final(self).wf(),
            r is Ok && old(self).walk().doc < target && final(self).walk().doc != NO_MORE_DOCS ==> final(self).remaining() == walk_freq(final(self).walk()),
            gives_from(old(self).walk(), final(self).walk(), target, r),
            match doc_advanced(old(self).walk(), target) {
                Ok(w) => r == Ok::<i32, Error>(given_doc(w.doc)) && final(self).walk() == w,
                Err(k) => r is Err && r->Err_0.kind == k,
            },
    {
        let r = match self.core.advance(target) {
            Ok(()) => Ok(doc_of(self.core.doc)),
            Err(e) => Err(e),
        };
        proof {
            lemma_from(old(self).walk(), self.walk(), target, r);
        }
        r
    }
}

// ---------------------------------------------------------------------------
// The reader
// ---------------------------------------------------------------------------

/// Whether an entry's place is within the file.
pub open spec fn entry_in_file(doc: Seq<u8>, entry: TermEntry) -> bool {
    1 < entry.doc_freq < 4096 ==> entry.state.doc_start_fp <= doc.len()
}


// ---------------------------------------------------------------------------
// The reader
// ---------------------------------------------------------------------------

/// Opening succeeds: the metadata file is intact, and the other files have
/// the lengths that it names.
pub open spec fn postings_opened(psm: Seq<u8>, doc: Seq<u8>, pos: Option<Seq<u8>>, id: Seq<u8>) -> Result<(), ErrorKind> {
    match index_header_at(psm, 0, PSM_CODEC@, POSTINGS_VERSION, POSTINGS_VERSION, id, SEGMENT_SUFFIX@) {
        Ok((_, p)) => {
            let q = p + if pos is Some { 32int } else { 24 };
            let doc_len = crate::num::spec_to_u64(i64_in(psm, p + 16)) as int;
            let pos_len = crate::num::spec_to_u64(i64_in(psm, p + 24)) as int;
            if q > psm.len() {
                Err(ErrorKind::UnexpectedEof)
            } else if !valid_footer_at(psm, q, 0) {
                Err(ErrorKind::InvalidData)
            } else {
                match file_opened(doc, DOC_CODEC@, id, doc_len) {
                    Ok(_) => if pos is Some {
                        file_opened(pos->Some_0, POS_CODEC@, id, pos_len)
                    } else {
                        Ok(())
                    },
                    Err(k) => Err(k),
                }
            }
        },
        Err(k) => Err(k),
    }
}

/// A file has its header, its length and the shape of a footer.
pub open spec fn file_opened(s: Seq<u8>, codec: Seq<char>, id: Seq<u8>, len: int) -> Result<(), ErrorKind> {
    match index_header_at(s, 0, codec, POSTINGS_VERSION, POSTINGS_VERSION, id, SEGMENT_SUFFIX@) {
        Ok(_) => if footer_structure(s, len) {
            Ok(())
        } else {
            Err(ErrorKind::InvalidData)
        },
        Err(k) => Err(k),
    }
}

fn open_postings_file(bytes: Vec<u8>, codec: &str, id: &[u8; 16], len: u64) -> (r: Result<IndexInput, Error>)
    ensures
        match file_opened(bytes@, codec@, id@, len as int) {
            Ok(_) => r is Ok && r->Ok_0.bytes() == bytes@,
            Err(k) => r is Err && r->Err_0.kind == k,
        },
{
    let mut input = IndexInput::in_memory(bytes);
    let _version: u32 = check_index_header(&mut input, codec, POSTINGS_VERSION, POSTINGS_VERSION, id, SEGMENT_SUFFIX)?;
    check_footer_structure(&input, len)?;
    Ok(input)
}

/// Where the bitmap of a term's documents stands, if the term has one: it ends
/// four bytes before the documents, which say its length. A term with fewer
/// documents than `min_doc_freq` has none.
pub open spec fn bitmap_region(doc: Seq<u8>, entry: TermEntry, min_doc_freq: u32, max_len: u64) -> Result<Option<(u64, u32)>, ErrorKind> {
    let fp = entry.state.doc_start_fp;
    if entry.doc_freq < min_doc_freq || fp < 4 {
        Ok(None)
    } else if fp - 4 > doc.len() {
        Err(ErrorKind::UnexpectedEof)
    } else {
        match int_at(doc, fp - 4) {
            Ok((v, _)) => {
                let len = spec_to_u32(v);
                if len == 0 || len > max_len || fp - 4 < len {
                    Ok(None)
                } else {
                    Ok(Some(((fp - 4 - len) as u64, len)))
                }
            },
            Err(k) => Err(k),
        }
    }
}

/// A bitmap that stands before the documents of a term, with its length behind
/// it, is what is found for the term, if it has enough documents and the bitmap is
/// not too long; else none is.
pub proof fn law_bitmap_found(doc: Seq<u8>, p: int, bitmap: Seq<u8>, entry: TermEntry, min_doc_freq: u32, max_len: u64)
    requires
        0 < bitmap.len() <= i32::MAX,
        holds_at(doc, p, bitmap + int_bytes(bitmap.len() as i32)),
        entry.state.doc_start_fp == p + bitmap.len() + 4,
    ensures
        bitmap_region(doc, entry, min_doc_freq, max_len) matches Ok(found) && ({
            &&& found is Some <==> entry.doc_freq >= min_doc_freq && bitmap.len() <= max_len
            &&& found matches Some((start, len)) ==> doc.subrange(start as int, start + len) == bitmap
        }),
{
    broadcast use lemma_le_bytes_len;
    lemma_holds_concat(doc, p, bitmap, int_bytes(bitmap.len() as i32));
    law_int_round_trip(doc, p + bitmap.len(), bitmap.len() as i32);
}

/// Reads the postings of a segment.
pub struct PostingsReader {
    doc_in: IndexInput,
    pos_in: Option<IndexInput>,
}

impl PostingsReader {
    /// The file of documents.
    pub closed spec fn doc_file(&self) -> Seq<u8> {
        self.doc_in.bytes()
    }

    /// The file of positions.
    pub closed spec fn pos_file(&self) -> Option<Seq<u8>> {
        match self.pos_in {
            Some(p) => Some(p.bytes()),
            None => None,
        }
    }

    /// Opens the postings' metadata, the documents, and the positions if the
    /// segment has that file.
    pub fn open(psm: Vec<u8>, doc: Vec<u8>, pos: Option<Vec<u8>>, segment_id: &[u8; 16]) -> (r: Result<PostingsReader, Error>)
        ensures
            match postings_opened(
                psm@,
                doc@,
                match pos {
                    Some(p) => Some(p@),
                    None => None,
                },
                segment_id@,
            ) {
                Ok(_) => r is Ok && r->Ok_0.doc_file() == doc@ && r->Ok_0.pos_file() == (match pos {
                    Some(p) => Some(p@),
                    None => None,
                }),
                Err(k) => r is Err && r->Err_0.kind == k,
            },
    {
        let mut meta = ChecksumIndexInput::new(IndexInput::in_memory(psm));
        let _version: u32 = check_index_header(&mut meta, PSM_CODEC, POSTINGS_VERSION, POSTINGS_VERSION, segment_id, SEGMENT_SUFFIX)?;
        let _at: u64 = meta.file_pointer();
        let _num0: i32 = meta.read_int()?;
        let _bytes0: i32 = meta.read_int()?;
        let _num1: i32 = meta.read_int()?;
        let _bytes1: i32 = meta.read_int()?;
        let doc_len: u64 = to_u64(meta.read_long()?);
        match pos {
            Some(p) => {
                let pos_len: u64 = to_u64(meta.read_long()?);
                check_footer(&mut meta)?;
                let doc_in = open_postings_file(doc, DOC_CODEC, segment_id, doc_len)?;
                let pos_in = open_postings_file(p, POS_CODEC, segment_id, pos_len)?;
                Ok(PostingsReader { doc_in, pos_in: Some(pos_in) })
            },
            None => {
                check_footer(&mut meta)?;
                let doc_in = open_postings_file(doc, DOC_CODEC, segment_id, doc_len)?;
                Ok(PostingsReader { doc_in, pos_in: None })
            },
        }
    }

    /// An input of its own over the documents.
    fn fresh_input(&self) -> (r: Result<IndexInput, Error>)
        ensures
            r is Ok,
            r->Ok_0.bytes() == self.doc_file(),
            r->Ok_0.pos() == 0,
    {
        let n: u64 = self.doc_in.length();
        let r = self.doc_in.slice(0, n)?;
        assert(r.bytes() =~= self.doc_in.bytes());
        Ok(r)
    }

    /// Finds the bitmap of a term's documents.
    fn locate_bitmap_region(input: &mut IndexInput, entry: &TermEntry, min_doc_freq: u32, max_len: u64) -> (r: Result<Option<(u64, u32)>, Error>)
        ensures
            final(input).bytes() == old(input).bytes(),
            match bitmap_region(old(input).bytes(), *entry, min_doc_freq, max_len) {
                Ok(region) => r == Ok::<Option<(u64, u32)>, Error>(region),
                Err(k) => r is Err && r->Err_0.kind == k,
            },
    {
        let fp: u64 = entry.state.doc_start_fp;
        if entry.doc_freq < min_doc_freq || fp < 4 {
            return Ok(None);
        }
        input.seek(fp - 4)?;
        let len: u32 = to_u32(input.read_int()?);
        if len == 0 || len as u64 > max_len || fp - 4 < len as u64 {
            return Ok(None);
        }
        Ok(Some((fp - 4 - len as u64, len)))
    }

    /// The bytes of the bitmap that stands before a term's documents, if the
    /// term has `min_doc_freq` documents and a bitmap of at most `max_len`
    /// bytes.
    pub fn open_term_bitmap(&self, entry: &TermEntry, min_doc_freq: u32, max_len: u64) -> (r: Result<Option<Vec<u8>>, Error>)
        ensures
            match bitmap_region(self.doc_file(), *entry, min_doc_freq, max_len) {
                Ok(Some((start, len))) => r is Ok && r->Ok_0 is Some && r->Ok_0->Some_0@ == self.doc_file().subrange(start as int, start + len),
                Ok(None) => r == Ok::<Option<Vec<u8>>, Error>(None),
                Err(k) => r is Err && r->Err_0.kind == k,
            },
    {
        let mut input = self.fresh_input()?;
        match Self::locate_bitmap_region(&mut input, entry, min_doc_freq, max_len)? {
            Some((start, len)) => {
                input.seek(start)?;
                let region = input.read_vec(len as u64)?;
                Ok(Some(region))
            },
            None => Ok(None),
        }
    }

    /// Goes through the documents of a term of a field without frequencies.
    pub fn docs(&self, entry: &TermEntry) -> (r: Result<DocsEnum, Error>)
        ensures
            entry_in_file(self.doc_file(), *entry) ==> r is Ok && r->Ok_0.wf() && r->Ok_0.walk() == walk_start(self.doc_file(), *entry, false, false, None),
            r is Ok ==> begins(r->Ok_0.walk(), self.doc_file(), *entry, false),
            !entry_in_file(self.doc_file(), *entry) ==> r is Err && r->Err_0.kind == ErrorKind::UnexpectedEof,
    {
        let input = self.fresh_input()?;
        let core = EnumCore::start(input, entry, false, false, None)?;
        proof {
            lemma_begins(self.doc_file(), *entry, false, false);
        }
        Ok(DocsEnum { core })
    }

    /// Goes through the documents and frequencies of a term.
    pub fn docs_and_freqs(&self, entry: &TermEntry) -> (r: Result<DocsFreqsEnum, Error>)
        ensures
            entry_in_file(self.doc_file(), *entry) ==> r is Ok && r->Ok_0.wf() && r->Ok_0.decodes() && r->Ok_0.walk() == walk_start(self.doc_file(), *entry, true, true, None),
            r is Ok ==> begins(r->Ok_0.walk(), self.doc_file(), *entry, true),
            !entry_in_file(self.doc_file(), *entry) ==> r is Err && r->Err_0.kind == ErrorKind::UnexpectedEof,
    {
        let input = self.fresh_input()?;
        let core = EnumCore::start(input, entry, true, true, None)?;
        proof {
            lemma_begins(self.doc_file(), *entry, true, true);
        }
        Ok(DocsFreqsEnum { core })
    }

    /// Goes through the documents of a term of a field with frequencies, and
    /// passes the frequencies over.
    pub fn docs_and_freqs_no_freq(&self, entry: &TermEntry) -> (r: Result<DocsFreqsEnum, Error>)
        ensures
            entry_in_file(self.doc_file(), *entry) ==> r is Ok && r->Ok_0.wf() && !r->Ok_0.decodes() && r->Ok_0.walk() == walk_start(self.doc_file(), *entry, true, false, None),
            r is Ok ==> begins(r->Ok_0.walk(), self.doc_file(), *entry, true),
            !entry_in_file(self.doc_file(), *entry) ==> r is Err && r->Err_0.kind == ErrorKind::UnexpectedEof,
    {
        let input = self.fresh_input()?;
        let core = EnumCore::start(input, entry, true, false, None)?;
        proof {
            lemma_begins(self.doc_file(), *entry, true, false);
        }
        Ok(DocsFreqsEnum { core })
    }

    /// Goes through the documents, frequencies and positions of a term.
    pub fn positions(&self, entry: &TermEntry) -> (r: Result<PositionsEnum, Error>)
        ensures
            self.pos_file() matches Some(pos) ==> (r is Ok ==> begins_positions(r->Ok_0.walk(), self.doc_file(), pos, *entry)),
            match self.pos_file() {
                None => r is Err && r->Err_0.kind == ErrorKind::InvalidData,
                Some(pos) => if entry_in_file(self.doc_file(), *entry) && entry.state.pos_start_fp <= pos.len() {
                    r is Ok && r->Ok_0.wf() && r->Ok_0.walk() == walk_start(self.doc_file(), *entry, true, true, Some(pos))
                } else {
                    r is Err && r->Err_0.kind == ErrorKind::UnexpectedEof
                },
            },
    {
        match &self.pos_in {
            None => Err(corrupt("the segment has no positions")),
            Some(p) => {
                let input = self.fresh_input()?;
                let n: u64 = p.length();
                let pos_in = p.slice(0, n)?;
                assert(pos_in.bytes() =~= p.bytes());
                let core = EnumCore::start(input, entry, true, true, Some(pos_in))?;
                proof {
                    lemma_begins_positions(self.doc_file(), p.bytes(), *entry);
                }
                Ok(PositionsEnum { core })
            },
        }
    }
}

} // verus!
