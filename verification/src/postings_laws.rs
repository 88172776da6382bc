//! Postings that were written are read back.

use crate::bytes::{holds_at, int_bytes, lemma_holds_concat, lemma_holds_long, lemma_le_bytes_len, long_bytes};
use crate::codec_util::{law_footer_round_trip, law_footer_structure, law_index_header_round_trip};
use crate::doc_postings::{doc_bytes, valid_term_docs};
use crate::positions::{freq_sum, lemma_deltas_len, position_deltas, positions_bytes, tail_offset, valid_lists};
use crate::block_tree::{group_output, FieldFlags, SubBlock, TreeEntry, TreeModel};
use crate::block_tree_laws::{holds_terms, last_key, law_terms_in_blocks, root_at, tree_of};
use crate::num::{spec_to_i64, spec_to_u64};
use crate::postings::{
    closed, field_finished, field_started, field_tree, header, lemma_codec_names, maps_index, psm_body, term_written, total_freq, valid_postings, writer_new, written_docs, written_state, FstImage,
    WriterModel, DOC_CODEC, POSTINGS_VERSION, POS_CODEC, PSM_CODEC, SEGMENT_SUFFIX,
};
use crate::postings_read::{file_opened, postings_opened, TermEntry, NO_MORE_DOCS};
use crate::postings_walk::{walk_freq, walk_remaining, walk_start};
use crate::postings_walk_laws::{
    docs_on, entry_positions, entry_term, law_current_doc, law_docs_in_order, law_freq, law_positions_in_order, law_positions_start, law_walk_start, positions_on,
};
use vstd::utf8::encode_utf8;
use crate::error::ErrorKind;
use crate::fst::fst_output;
use crate::fst_compiler::entry_output;
use vstd::prelude::*;

verus! {

/// What a terms dictionary gives for a term that was written to `m`.
pub open spec fn written_entry(m: WriterModel, docs: Seq<u32>, freqs: Seq<u32>, positions: Option<Seq<Seq<u32>>>) -> TermEntry {
    TermEntry { doc_freq: docs.len() as u32, total_term_freq: total_freq(freqs), state: written_state(m, docs, positions) }
}

/// A term can be written to `m`.
pub open spec fn writable(m: WriterModel, docs: Seq<u32>, freqs: Seq<u32>, positions: Option<Seq<Seq<u32>>>) -> bool {
    &&& m.field is Some
    &&& valid_postings(docs, freqs, m.field->Some_0.flags.has_freqs)
    &&& m.field->Some_0.flags.has_positions ==> positions is Some
    &&& positions is Some ==> m.pos is Some && valid_lists(positions->Some_0, freqs)
}

proof fn lemma_valid_docs(m: WriterModel, docs: Seq<u32>, freqs: Seq<u32>, positions: Option<Seq<Seq<u32>>>)
    requires
        writable(m, docs, freqs, positions),
    ensures
        valid_term_docs(written_docs(m, docs, freqs, positions)),
        docs.len() <= 0x7FFF_FFFF,
{
    reveal(valid_term_docs);
    crate::postings::lemma_docs_count(docs, docs.len() - 1);
}

/// The documents and frequencies of a term that was written are those that
/// its entry leads to, in any file that goes on from there.
pub proof fn law_documents_read_back(m: WriterModel, term: Seq<u8>, docs: Seq<u32>, freqs: Seq<u32>, positions: Option<Seq<Seq<u32>>>, doc_file: Seq<u8>)
    requires
        writable(m, docs, freqs, positions),
        holds_at(doc_file, 0, term_written(m, term, docs, freqs, positions).doc),
        doc_file.len() <= i64::MAX,
    ensures
        entry_term(doc_file, written_entry(m, docs, freqs, positions), m.field->Some_0.flags.has_freqs, written_docs(m, docs, freqs, positions)),
        written_docs(m, docs, freqs, positions).docs == docs,
        written_docs(m, docs, freqs, positions).freqs == freqs,
{
    lemma_valid_docs(m, docs, freqs, positions);
    let t = written_docs(m, docs, freqs, positions);
    if docs.len() > 1 {
        lemma_holds_concat(doc_file, 0, m.doc, doc_bytes(t));
    } else if m.field->Some_0.flags.has_freqs {
        reveal_with_fuel(freq_sum, 2);
        assert(freqs.len() == 1);
    }
}

/// The positions of a term that was written are those that its entry leads
/// to.
#[verifier::rlimit(60)]
pub proof fn law_positions_read_back(m: WriterModel, term: Seq<u8>, docs: Seq<u32>, freqs: Seq<u32>, lists: Seq<Seq<u32>>, doc_file: Seq<u8>, pos_file: Seq<u8>)
    requires
        writable(m, docs, freqs, Some(lists)),
        m.field->Some_0.flags.has_freqs,
        m.field->Some_0.flags.has_positions,
        holds_at(doc_file, 0, term_written(m, term, docs, freqs, Some(lists)).doc),
        holds_at(pos_file, 0, term_written(m, term, docs, freqs, Some(lists)).pos->Some_0),
        doc_file.len() <= i64::MAX,
        pos_file.len() <= i64::MAX,
        position_deltas(lists, lists.len() as int).len() <= u64::MAX,
    ensures
        entry_positions(doc_file, pos_file, written_entry(m, docs, freqs, Some(lists)), written_docs(m, docs, freqs, Some(lists)), lists),
{
    law_documents_read_back(m, term, docs, freqs, Some(lists), doc_file);
    let d = position_deltas(lists, lists.len() as int);
    lemma_deltas_len(lists, freqs, lists.len() as int);
    let start = m.pos->Some_0.len() as int;
    assert(term_written(m, term, docs, freqs, Some(lists)).pos->Some_0 == m.pos->Some_0 + positions_bytes(d));
    lemma_holds_concat(pos_file, 0, m.pos->Some_0, positions_bytes(d));
    lemma_offset(pos_file, start, d);
    let entry = written_entry(m, docs, freqs, Some(lists));
    assert(entry.total_term_freq == d.len());
    assert(d.len() > 128 ==> entry.state.last_pos_block_offset == tail_offset(d));
}

/// Where a tail begins is a long.
proof fn lemma_offset(s: Seq<u8>, p: int, d: Seq<u64>)
    requires
        holds_at(s, p, positions_bytes(d)),
        s.len() <= i64::MAX,
    ensures
        crate::num::spec_to_i64((tail_offset(d) % 0x1_0000_0000_0000_0000) as u64) == tail_offset(d),
{
    let c = crate::positions::full_chunks(d, d.len() as int / 128);
    lemma_holds_concat(s, p, c, crate::positions::loose_deltas(d, 128 * (d.len() as int / 128), d.len() as int));
}

/// Going through a term that was written gives its documents in order, with
/// their frequencies where these are decoded, and then the end mark.
pub proof fn law_documents_gone_through(
    m: WriterModel,
    term: Seq<u8>,
    docs: Seq<u32>,
    freqs: Seq<u32>,
    positions: Option<Seq<Seq<u32>>>,
    doc_file: Seq<u8>,
    decode_freqs: bool,
    n: nat,
)
    requires
        writable(m, docs, freqs, positions),
        holds_at(doc_file, 0, term_written(m, term, docs, freqs, positions).doc),
        doc_file.len() <= i64::MAX,
    ensures
        ({
            let has_freqs = m.field->Some_0.flags.has_freqs;
            let w = walk_start(doc_file, written_entry(m, docs, freqs, positions), has_freqs, decode_freqs, None);
            docs_on(w, n + 1) matches Ok(v) && if n < docs.len() {
                v.doc == docs[n as int] && (has_freqs && decode_freqs ==> walk_freq(v) == freqs[n as int])
            } else {
                v.doc == NO_MORE_DOCS
            }
        }),
{
    let has_freqs = m.field->Some_0.flags.has_freqs;
    let entry = written_entry(m, docs, freqs, positions);
    let t = written_docs(m, docs, freqs, positions);
    let w = walk_start(doc_file, entry, has_freqs, decode_freqs, None);
    let start = entry.state.doc_start_fp as int;
    law_documents_read_back(m, term, docs, freqs, positions, doc_file);
    law_walk_start(doc_file, entry, has_freqs, decode_freqs, t);
    law_docs_in_order(w, t, start, Seq::empty(), n + 1);
    if n < docs.len() {
        let v = docs_on(w, n + 1)->Ok_0;
        lemma_valid_docs(m, docs, freqs, positions);
        crate::doc_postings::lemma_doc_bound(t, n as int);
        law_current_doc(v, t, start, Seq::empty(), n as int + 1);
        if has_freqs && decode_freqs {
            law_freq(v, t, start, Seq::empty(), n as int + 1);
        }
    }
}

/// Going through a term that was written with positions gives those of each
/// document in order, whether or not those of documents before it were asked
/// for.
pub proof fn law_positions_gone_through(
    m: WriterModel,
    term: Seq<u8>,
    docs: Seq<u32>,
    freqs: Seq<u32>,
    lists: Seq<Seq<u32>>,
    doc_file: Seq<u8>,
    pos_file: Seq<u8>,
    n: nat,
    j: nat,
)
    requires
        writable(m, docs, freqs, Some(lists)),
        m.field->Some_0.flags.has_freqs,
        m.field->Some_0.flags.has_positions,
        holds_at(doc_file, 0, term_written(m, term, docs, freqs, Some(lists)).doc),
        holds_at(pos_file, 0, term_written(m, term, docs, freqs, Some(lists)).pos->Some_0),
        doc_file.len() <= i64::MAX,
        pos_file.len() <= i64::MAX,
        position_deltas(lists, lists.len() as int).len() <= u64::MAX,
        n < docs.len(),
        j < lists[n as int].len(),
    ensures
        ({
            let w = walk_start(doc_file, written_entry(m, docs, freqs, Some(lists)), true, true, Some(pos_file));
            docs_on(w, n + 1) matches Ok(v) && v.doc == docs[n as int] && walk_remaining(v) == lists[n as int].len() && (positions_on(v, j + 1) matches Ok(u) && u.stream is Some
                && u.stream->Some_0.position == lists[n as int][j as int])
        }),
{
    let entry = written_entry(m, docs, freqs, Some(lists));
    let t = written_docs(m, docs, freqs, Some(lists));
    let w = walk_start(doc_file, entry, true, true, Some(pos_file));
    let start = entry.state.doc_start_fp as int;
    law_documents_read_back(m, term, docs, freqs, Some(lists), doc_file);
    law_positions_read_back(m, term, docs, freqs, lists, doc_file, pos_file);
    law_positions_start(doc_file, pos_file, entry, t, lists);
    law_docs_in_order(w, t, start, lists, n + 1);
    let v = docs_on(w, n + 1)->Ok_0;
    lemma_valid_docs(m, docs, freqs, Some(lists));
    crate::doc_postings::lemma_doc_bound(t, n as int);
    assert(lists[n as int].len() == freqs[n as int]);
    law_positions_in_order(v, t, start, lists, n as int + 1, j + 1);
}

/// Writing another term, starting a field and finishing one keep what was
/// written.
pub proof fn law_files_go_on(m: WriterModel, term: Seq<u8>, docs: Seq<u32>, freqs: Seq<u32>, positions: Option<Seq<Seq<u32>>>, number: i32, flags: FieldFlags, doc_count: u32, id: Seq<u8>, fst: FstImage)
    ensures
        holds_at(term_written(m, term, docs, freqs, positions).doc, 0, m.doc),
        m.pos is Some && positions is Some ==> holds_at(term_written(m, term, docs, freqs, positions).pos->Some_0, 0, m.pos->Some_0),
        m.pos is Some && positions is None ==> term_written(m, term, docs, freqs, positions).pos == m.pos,
        field_started(m, number, flags, doc_count, id).doc == m.doc,
        m.pos is Some ==> field_started(m, number, flags, doc_count, id).pos == m.pos,
        field_finished(m, fst).doc == m.doc,
        field_finished(m, fst).pos == m.pos,
{
    let w = term_written(m, term, docs, freqs, positions);
    assert(w.doc.subrange(0, m.doc.len() as int) =~= m.doc);
    if m.pos is Some && positions is Some {
        assert(w.pos->Some_0.subrange(0, m.pos->Some_0.len() as int) =~= m.pos->Some_0);
    }
}

/// A term with its postings.
pub struct TermInput {
    pub term: Seq<u8>,
    pub docs: Seq<u32>,
    pub freqs: Seq<u32>,
    pub positions: Option<Seq<Seq<u32>>>,
}

/// After the first `n` of the terms.
pub open spec fn terms_written(m: WriterModel, terms: Seq<TermInput>, n: int) -> WriterModel
    decreases n,
{
    if n <= 0 {
        m
    } else {
        let t = terms[n - 1];
        term_written(terms_written(m, terms, n - 1), t.term, t.docs, t.freqs, t.positions)
    }
}

/// The terms with what their entries say.
pub open spec fn entries_of(m: WriterModel, terms: Seq<TermInput>) -> Seq<TreeEntry> {
    Seq::new(
        terms.len(),
        |i: int|
            {
                let e = written_entry(terms_written(m, terms, i), terms[i].docs, terms[i].freqs, terms[i].positions);
                TreeEntry::Term { bytes: terms[i].term, state: e.state, doc_freq: e.doc_freq, ttf: e.total_term_freq }
            },
    )
}

/// No term of the field was written yet.
pub open spec fn fresh_field(m: WriterModel) -> bool {
    &&& m.field is Some
    &&& m.field->Some_0.pending.len() == 0
    &&& m.field->Some_0.index.len() == 0
    &&& m.field->Some_0.max_term.len() == 0
}

/// The tree of the field that is being written.
proof fn lemma_tree_so_far(m: WriterModel, terms: Seq<TermInput>, n: int)
    requires
        fresh_field(m),
        0 <= n <= terms.len(),
    ensures
        ({
            let w = terms_written(m, terms, n);
            let f = w.field->Some_0;
            let e = entries_of(m, terms);
            &&& w.field is Some
            &&& f.flags == m.field->Some_0.flags
            &&& f.max_term == last_key(e, n)
            &&& tree_of(e, n, m.tim, f.flags) == TreeModel { pending: f.pending, tim: w.tim, index: f.index }
        }),
    decreases n,
{
    if n > 0 {
        lemma_tree_so_far(m, terms, n - 1);
    } else {
        let f = m.field->Some_0;
        assert(f.pending =~= Seq::empty());
        assert(f.index =~= Seq::empty());
        assert(f.max_term =~= Seq::empty());
    }
}

/// The blocks of a finished field hold its terms in order, each with the entry
/// that leads to its postings, and the root's output leads to the first of its
/// blocks.
pub proof fn law_field_holds_its_terms(m: WriterModel, terms: Seq<TermInput>, fst: FstImage)
    requires
        fresh_field(m),
        terms.len() > 0,
        field_finished(terms_written(m, terms, terms.len() as int), fst).tim.len() <= u64::MAX,
        maps_index(fst, field_tree(terms_written(m, terms, terms.len() as int)).index),
    ensures
        exists|fp: u64, subs: Seq<SubBlock>|
            {
                &&& holds_terms(field_finished(terms_written(m, terms, terms.len() as int), fst).tim, #[trigger] root_at(fp), m.field->Some_0.flags, entries_of(m, terms))
                &&& subs.len() > 0
                &&& subs[0].fp == fp
                &&& fst.root == #[trigger] group_output(subs)
            },
{
    let n = terms.len() as int;
    let e = entries_of(m, terms);
    lemma_tree_so_far(m, terms, n);
    law_terms_in_blocks(e, m.tim, m.field->Some_0.flags);
    let index = field_tree(terms_written(m, terms, n)).index;
    assert(fst_output(fst.bytes, fst.start, Some(fst.root), Seq::empty()) == Ok::<Option<Seq<u8>>, ErrorKind>(entry_output(index, Seq::empty())));
}

/// The files of documents and positions begin with their headers.
pub open spec fn begun(m: WriterModel, id: Seq<u8>) -> bool {
    &&& holds_at(m.doc, 0, header(DOC_CODEC@, POSTINGS_VERSION, id))
    &&& m.pos is Some ==> holds_at(m.pos->Some_0, 0, header(POS_CODEC@, POSTINGS_VERSION, id))
}

/// What stands in front stays there.
proof fn lemma_front(a: Seq<u8>, b: Seq<u8>, h: Seq<u8>)
    requires
        holds_at(a, 0, h),
        holds_at(b, 0, a),
    ensures
        holds_at(b, 0, h),
{
    assert(b.subrange(0, h.len() as int) =~= b.subrange(0, a.len() as int).subrange(0, h.len() as int));
}

/// A writer's files begin with their headers from the start, whatever is
/// written.
pub proof fn law_files_begin(m: WriterModel, term: Seq<u8>, docs: Seq<u32>, freqs: Seq<u32>, positions: Option<Seq<Seq<u32>>>, number: i32, flags: FieldFlags, doc_count: u32, id: Seq<u8>, fst: FstImage)
    ensures
        begun(writer_new(id), id),
        begun(m, id) ==> begun(field_started(m, number, flags, doc_count, id), id),
        begun(m, id) && (positions is Some ==> m.pos is Some) ==> begun(term_written(m, term, docs, freqs, positions), id),
        begun(m, id) ==> begun(field_finished(m, fst), id),
{
    let h = header(DOC_CODEC@, POSTINGS_VERSION, id);
    let g = header(POS_CODEC@, POSTINGS_VERSION, id);
    assert(h.subrange(0, h.len() as int) =~= h);
    assert(g.subrange(0, g.len() as int) =~= g);
    law_files_go_on(m, term, docs, freqs, positions, number, flags, doc_count, id, fst);
    if begun(m, id) && (positions is Some ==> m.pos is Some) {
        let w = term_written(m, term, docs, freqs, positions);
        lemma_front(m.doc, w.doc, h);
        if positions is Some {
            lemma_front(m.pos->Some_0, w.pos->Some_0, g);
        }
    }
}

/// A file with its header and its footer passes its checks.
proof fn lemma_file_opens(body: Seq<u8>, codec: Seq<char>, id: Seq<u8>)
    requires
        holds_at(body, 0, header(codec, POSTINGS_VERSION, id)),
        encode_utf8(codec).len() < 128,
        id.len() == 16,
        closed(body).len() <= u64::MAX,
    ensures
        file_opened(closed(body), codec, id, spec_to_u64(spec_to_i64(closed(body).len() as u64)) as int) == Ok::<(), ErrorKind>(()),
{
    lemma_codec_names();
    assert(closed(body).subrange(0, body.len() as int) =~= body);
    lemma_front(body, closed(body), header(codec, POSTINGS_VERSION, id));
    law_index_header_round_trip(closed(body), 0, codec, POSTINGS_VERSION, POSTINGS_VERSION, POSTINGS_VERSION, id, SEGMENT_SUFFIX@);
    law_footer_structure(body);
}

/// The files of a writer can be opened.
pub proof fn law_postings_files_open(m: WriterModel, id: Seq<u8>)
    requires
        begun(m, id),
        id.len() == 16,
        closed(m.doc).len() <= u64::MAX,
        m.pos is Some ==> closed(m.pos->Some_0).len() <= u64::MAX,
    ensures
        postings_opened(
            closed(psm_body(m, id)),
            closed(m.doc),
            match m.pos {
                Some(p) => Some(closed(p)),
                None => None,
            },
            id,
        ) == Ok::<(), ErrorKind>(()),
{
    lemma_codec_names();
    let s = closed(psm_body(m, id));
    let h = header(PSM_CODEC@, POSTINGS_VERSION, id);
    let p = h.len() as int;
    let body = psm_body(m, id);
    let doc_len = long_bytes(spec_to_i64(closed(m.doc).len() as u64));
    let pos_len = if m.pos is Some {
        long_bytes(spec_to_i64(closed(m.pos->Some_0).len() as u64))
    } else {
        Seq::empty()
    };
    let a = int_bytes(m.stats.max_num_level0);
    let b = int_bytes(m.stats.max_bytes_level0);
    let c = int_bytes(m.stats.max_num_level1);
    let d = int_bytes(m.stats.max_bytes_level1);
    broadcast use lemma_le_bytes_len;
    assert(body == h + a + b + c + d + doc_len + pos_len);
    assert(s.subrange(0, body.len() as int) =~= body);
    lemma_holds_concat(s, 0, h + a + b + c + d + doc_len, pos_len);
    lemma_holds_concat(s, 0, h + a + b + c + d, doc_len);
    lemma_holds_concat(s, 0, h + a + b + c, d);
    lemma_holds_concat(s, 0, h + a + b, c);
    lemma_holds_concat(s, 0, h + a, b);
    lemma_holds_concat(s, 0, h, a);
    law_index_header_round_trip(s, 0, PSM_CODEC@, POSTINGS_VERSION, POSTINGS_VERSION, POSTINGS_VERSION, id, SEGMENT_SUFFIX@);
    lemma_holds_long(s, p + 16, spec_to_i64(closed(m.doc).len() as u64));
    if m.pos is Some {
        lemma_holds_long(s, p + 24, spec_to_i64(closed(m.pos->Some_0).len() as u64));
        lemma_file_opens(m.pos->Some_0, POS_CODEC@, id);
    }
    law_footer_round_trip(body);
    lemma_file_opens(m.doc, DOC_CODEC@, id);
}

} // verus!
