//! Writes the postings of a segment's fields: documents, positions, the
//! blocks of terms, their index, and the metadata of all of them.

use crate::block_tree::{index_view, keys_sorted, term_pushed, tree_finished, valid_state, FieldFlags, TermState, TermTree, TreeEntry, TreeModel};
use crate::bytes::{int_bytes, lemma_concat_assoc, lex_less, long_bytes, push_all, vint_bytes, vint_of, vlong_of};
use crate::codec_util::{footer_bytes, index_header_bytes, write_footer, write_index_header};
use crate::doc_postings::{doc_bytes, stats_after, valid_term_docs, write_doc_postings, DocInput, ImpactStats, TermDocs};
use crate::error::{Error, ErrorKind};
use crate::field_infos::FieldInfo;
use crate::fst::fst_output;
use crate::fst_compiler::{entry_output, fst_image, fst_start, law_entry_found, metadata_bytes, FstCompiler};
use crate::io::{put_vint, put_vlong, ChecksumIndexOutput, DataOutput, IndexOutput, SegmentFile};
use crate::num::{spec_to_i64, spec_wrap_add, to_i64, wrap_add};
use crate::positions::{freq_sum, lists_view, position_deltas, position_index, positions_bytes, tail_offset, valid_lists, write_positions};
use vstd::prelude::*;
use vstd::string::*;
use vstd::utf8::encode_utf8;

verus! {

pub const DOC_CODEC: &'static str = "Lucene912PostingsWriterDoc";
pub const POS_CODEC: &'static str = "Lucene912PostingsWriterPos";
pub const PSM_CODEC: &'static str = "Lucene912PostingsWriterMeta";
pub const TERMS_CODEC: &'static str = "Lucene90PostingsWriterTerms";
pub const POSTINGS_VERSION: u32 = 0;
pub const TIM_CODEC: &'static str = "BlockTreeTermsDict";
pub const TIP_CODEC: &'static str = "BlockTreeTermsIndex";
pub const TMD_CODEC: &'static str = "BlockTreeTermsMeta";
pub const BLOCKTREE_VERSION: u32 = 2;
pub const SEGMENT_SUFFIX: &'static str = "Lucene912_0";

/// The name of a file: the segment, the suffix of the format, the extension.
pub open spec fn postings_file_name(segment: Seq<char>, extension: Seq<char>) -> Seq<char> {
    segment + "_"@ + SEGMENT_SUFFIX@ + "."@ + extension
}

fn file_name(segment: &str, extension: &str) -> (r: String)
    ensures
        r@ == postings_file_name(segment@, extension@),
{
    let mut s = segment.to_owned();
    s.append("_");
    s.append(SEGMENT_SUFFIX);
    s.append(".");
    s.append(extension);
    s
}

// ---------------------------------------------------------------------------
// What is written
// ---------------------------------------------------------------------------

/// A field that is being written: its terms so far.
pub struct FieldModel {
    pub number: i32,
    pub flags: FieldFlags,
    pub doc_count: u32,
    pub pending: Seq<TreeEntry>,
    pub index: Seq<(Seq<u8>, Seq<u8>)>,
    pub num_terms: nat,
    pub sum_doc_freq: u64,
    pub sum_total_term_freq: u64,
    pub min_term: Seq<u8>,
    pub max_term: Seq<u8>,
}

/// A writer's files so far, the records of the finished fields, and the field
/// that is being written.
pub struct WriterModel {
    pub doc: Seq<u8>,
    pub pos: Option<Seq<u8>>,
    pub tim: Seq<u8>,
    pub tip: Seq<u8>,
    pub records: Seq<Seq<u8>>,
    pub stats: ImpactStats,
    pub field: Option<FieldModel>,
}

pub open spec fn header(codec: Seq<char>, version: u32, id: Seq<u8>) -> Seq<u8> {
    index_header_bytes(codec, version, id, SEGMENT_SUFFIX@)
}

/// A new writer: the headers, no field.
pub open spec fn writer_new(id: Seq<u8>) -> WriterModel {
    WriterModel {
        doc: header(DOC_CODEC@, POSTINGS_VERSION, id),
        pos: None,
        tim: header(TIM_CODEC@, BLOCKTREE_VERSION, id),
        tip: header(TIP_CODEC@, BLOCKTREE_VERSION, id),
        records: Seq::empty(),
        stats: ImpactStats { max_num_level0: 0, max_bytes_level0: 0, max_num_level1: 0, max_bytes_level1: 0 },
        field: None,
    }
}

/// A field begins. The file of positions is there from the first field on
/// that has positions.
pub open spec fn field_started(m: WriterModel, number: i32, flags: FieldFlags, doc_count: u32, id: Seq<u8>) -> WriterModel {
    WriterModel {
        pos: if flags.has_positions && m.pos is None {
            Some(header(POS_CODEC@, POSTINGS_VERSION, id))
        } else {
            m.pos
        },
        field: Some(
            FieldModel {
                number,
                flags,
                doc_count,
                pending: Seq::empty(),
                index: Seq::empty(),
                num_terms: 0,
                sum_doc_freq: 0,
                sum_total_term_freq: 0,
                min_term: Seq::empty(),
                max_term: Seq::empty(),
            },
        ),
        ..m
    }
}

/// A term's positions: distances, or none.
pub open spec fn term_deltas(positions: Option<Seq<Seq<u32>>>) -> Seq<u64> {
    match positions {
        Some(lists) => position_deltas(lists, lists.len() as int),
        None => Seq::empty(),
    }
}

/// Where a term's positions begin; 0 where it has none.
pub open spec fn term_pos_start(m: WriterModel, positions: Option<Seq<Seq<u32>>>) -> u64 {
    if positions is Some {
        m.pos->Some_0.len() as u64
    } else {
        0
    }
}

/// A term's documents as they are written.
pub open spec fn written_docs(m: WriterModel, docs: Seq<u32>, freqs: Seq<u32>, positions: Option<Seq<Seq<u32>>>) -> TermDocs {
    let start = term_pos_start(m, positions);
    TermDocs {
        docs,
        freqs,
        has_freqs: m.field->Some_0.flags.has_freqs,
        has_positions: m.field->Some_0.flags.has_positions,
        pos_start: start,
        pos_index: if positions is Some {
            position_index(term_deltas(positions), freqs, start)
        } else {
            Seq::empty()
        },
    }
}

/// A term's metadata. A single document is kept there and nowhere else.
pub open spec fn written_state(m: WriterModel, docs: Seq<u32>, positions: Option<Seq<Seq<u32>>>) -> TermState {
    TermState {
        doc_start_fp: m.doc.len() as u64,
        pos_start_fp: term_pos_start(m, positions),
        last_pos_block_offset: if positions is Some {
            spec_to_i64((tail_offset(term_deltas(positions)) % 0x1_0000_0000_0000_0000) as u64)
        } else {
            -1i64
        },
        singleton_doc_id: if docs.len() == 1 {
            docs[0] as i64
        } else {
            -1i64
        },
    }
}

/// A term's total frequency.
pub open spec fn total_freq(freqs: Seq<u32>) -> u64 {
    (freq_sum(freqs, freqs.len() as int) % 0x1_0000_0000_0000_0000) as u64
}

/// A term is written: its positions, its documents unless there is just one,
/// and its place among the blocks.
pub open spec fn term_written(m: WriterModel, term: Seq<u8>, docs: Seq<u32>, freqs: Seq<u32>, positions: Option<Seq<Seq<u32>>>) -> WriterModel {
    let f = m.field->Some_0;
    let t = written_docs(m, docs, freqs, positions);
    let e = TreeEntry::Term { bytes: term, state: written_state(m, docs, positions), doc_freq: docs.len() as u32, ttf: total_freq(freqs) };
    let tree = term_pushed(TreeModel { pending: f.pending, tim: m.tim, index: f.index }, f.max_term, e, f.flags);
    WriterModel {
        doc: if docs.len() > 1 {
            m.doc + doc_bytes(t)
        } else {
            m.doc
        },
        pos: if positions is Some {
            Some(m.pos->Some_0 + positions_bytes(term_deltas(positions)))
        } else {
            m.pos
        },
        tim: tree.tim,
        stats: if docs.len() > 1 {
            stats_after(m.stats, t)
        } else {
            m.stats
        },
        field: Some(
            FieldModel {
                pending: tree.pending,
                index: tree.index,
                num_terms: f.num_terms + 1,
                sum_doc_freq: spec_wrap_add(f.sum_doc_freq, docs.len() as u64),
                sum_total_term_freq: spec_wrap_add(f.sum_total_term_freq, total_freq(freqs)),
                min_term: if f.num_terms == 0 {
                    term
                } else {
                    f.min_term
                },
                max_term: term,
                ..f
            },
        ),
        ..m
    }
}

/// A field's transducer: its bytes, its root, the output of the empty input.
pub struct FstImage {
    pub bytes: Seq<u8>,
    pub start: u64,
    pub root: Seq<u8>,
}

/// The transducer of an index, whose first entry is that of the empty prefix.
pub open spec fn index_fst(index: Seq<(Seq<u8>, Seq<u8>)>) -> FstImage {
    FstImage { bytes: fst_image(index), start: fst_start(index) as u64, root: index[0].1 }
}

/// It maps the prefixes of the index to their outputs, and nothing else.
pub open spec fn maps_index(f: FstImage, index: Seq<(Seq<u8>, Seq<u8>)>) -> bool {
    forall|s: Seq<u8>| #[trigger] fst_output(f.bytes, f.start, Some(f.root), s) == Ok::<Option<Seq<u8>>, ErrorKind>(entry_output(index, s))
}

/// The record of a field: number and size, the root's output, the sums, the
/// least and the greatest term, and where and how the index is.
pub open spec fn field_record(f: FieldModel, fst: FstImage, index_start: nat) -> Seq<u8> {
    vint_bytes(f.number) + vlong_of(f.num_terms as int) + (vint_of(fst.root.len() as int) + fst.root) + (if f.flags.has_freqs {
        vlong_of(f.sum_total_term_freq as int)
    } else {
        Seq::empty()
    }) + vlong_of(f.sum_doc_freq as int) + vint_of(f.doc_count as int) + (vint_of(f.min_term.len() as int) + f.min_term) + (vint_of(f.max_term.len() as int) + f.max_term) + vlong_of(
        index_start as int,
    ) + metadata_bytes(fst.start as nat, fst.bytes.len(), Some(fst.root))
}

/// The blocks and the index when a field ends.
pub open spec fn field_tree(m: WriterModel) -> TreeModel {
    let f = m.field->Some_0;
    tree_finished(TreeModel { pending: f.pending, tim: m.tim, index: f.index }, f.max_term, f.flags)
}

/// A field that has terms ends: its last blocks, its transducer, its record.
pub open spec fn field_finished(m: WriterModel, fst: FstImage) -> WriterModel {
    WriterModel {
        tim: field_tree(m).tim,
        tip: m.tip + fst.bytes,
        records: m.records.push(field_record(m.field->Some_0, fst, m.tip.len())),
        field: None,
        ..m
    }
}

pub open spec fn joined_records(records: Seq<Seq<u8>>, n: int) -> Seq<u8>
    decreases n,
{
    if n <= 0 {
        Seq::empty()
    } else {
        joined_records(records, n - 1) + records[n - 1]
    }
}

/// A file with its footer.
pub open spec fn closed(body: Seq<u8>) -> Seq<u8> {
    body + footer_bytes(body)
}

/// The metadata of the terms, up to the footer: two headers, the block size,
/// the records, the lengths of index and blocks.
pub open spec fn tmd_body(m: WriterModel, id: Seq<u8>) -> Seq<u8> {
    header(TMD_CODEC@, BLOCKTREE_VERSION, id) + header(TERMS_CODEC@, POSTINGS_VERSION, id) + vint_bytes(128) + vint_of(m.records.len() as int) + joined_records(
        m.records,
        m.records.len() as int,
    ) + long_bytes(spec_to_i64(closed(m.tip).len() as u64)) + long_bytes(spec_to_i64(closed(m.tim).len() as u64))
}

/// The metadata of the postings, up to the footer: the largest impacts, the
/// lengths of the other files.
pub open spec fn psm_body(m: WriterModel, id: Seq<u8>) -> Seq<u8> {
    header(PSM_CODEC@, POSTINGS_VERSION, id) + int_bytes(m.stats.max_num_level0) + int_bytes(m.stats.max_bytes_level0) + int_bytes(m.stats.max_num_level1) + int_bytes(m.stats.max_bytes_level1)
        + long_bytes(spec_to_i64(closed(m.doc).len() as u64)) + if m.pos is Some {
        long_bytes(spec_to_i64(closed(m.pos->Some_0).len() as u64))
    } else {
        Seq::empty()
    }
}

/// The finished files: names and bytes.
pub open spec fn postings_files(m: WriterModel, segment: Seq<char>, id: Seq<u8>) -> Seq<(Seq<char>, Seq<u8>)> {
    let five = seq![
        (postings_file_name(segment, "doc"@), closed(m.doc)),
        (postings_file_name(segment, "tim"@), closed(m.tim)),
        (postings_file_name(segment, "tip"@), closed(m.tip)),
        (postings_file_name(segment, "tmd"@), closed(tmd_body(m, id))),
        (postings_file_name(segment, "psm"@), closed(psm_body(m, id))),
    ];
    if m.pos is Some {
        five.push((postings_file_name(segment, "pos"@), closed(m.pos->Some_0)))
    } else {
        five
    }
}

/// The view of files.
pub open spec fn files_view(files: Seq<SegmentFile>) -> Seq<(Seq<char>, Seq<u8>)> {
    files.map_values(|f: SegmentFile| (f.name@, f.bytes@))
}

// ---------------------------------------------------------------------------
// Writing
// ---------------------------------------------------------------------------

struct FieldState {
    number: i32,
    flags: FieldFlags,
    doc_count: u32,
    tree: TermTree,
    num_terms: u64,
    sum_doc_freq: u64,
    sum_total_term_freq: u64,
    min_term: Vec<u8>,
    max_term: Vec<u8>,
}

impl FieldState {
    spec fn model(&self) -> FieldModel {
        FieldModel {
            number: self.number,
            flags: self.flags,
            doc_count: self.doc_count,
            pending: self.tree.pending(),
            index: self.tree.index(),
            num_terms: self.num_terms as nat,
            sum_doc_freq: self.sum_doc_freq,
            sum_total_term_freq: self.sum_total_term_freq,
            min_term: self.min_term@,
            max_term: self.max_term@,
        }
    }

    spec fn wf(&self) -> bool {
        &&& self.tree.wf()
        &&& self.tree.flags() == self.flags
        &&& self.tree.last() == self.max_term@
        &&& self.tree.pending().len() <= 0x7FFF_FFFF
        &&& self.num_terms > 0 <==> self.tree.pending().len() > 0
    }
}

/// Writes the postings files of a segment.
pub struct PostingsWriter {
    segment: String,
    segment_id: [u8; 16],
    doc_out: ChecksumIndexOutput,
    pos_out: Option<ChecksumIndexOutput>,
    tim_out: ChecksumIndexOutput,
    tip_out: ChecksumIndexOutput,
    field: Option<FieldState>,
    records: Vec<Vec<u8>>,
    stats: ImpactStats,
}

pub open spec fn records_view(records: Seq<Vec<u8>>) -> Seq<Seq<u8>> {
    records.map_values(|r: Vec<u8>| r@)
}

pub(crate) proof fn lemma_codec_names()
    ensures
        encode_utf8(DOC_CODEC@).len() < 128,
        encode_utf8(POS_CODEC@).len() < 128,
        encode_utf8(PSM_CODEC@).len() < 128,
        encode_utf8(TERMS_CODEC@).len() < 128,
        encode_utf8(TIM_CODEC@).len() < 128,
        encode_utf8(TIP_CODEC@).len() < 128,
        encode_utf8(TMD_CODEC@).len() < 128,
        encode_utf8(SEGMENT_SUFFIX@).len() < 128,
{
    reveal_strlit("Lucene912PostingsWriterDoc");
    reveal_strlit("Lucene912PostingsWriterPos");
    reveal_strlit("Lucene912PostingsWriterMeta");
    reveal_strlit("Lucene90PostingsWriterTerms");
    reveal_strlit("BlockTreeTermsDict");
    reveal_strlit("BlockTreeTermsIndex");
    reveal_strlit("BlockTreeTermsMeta");
    reveal_strlit("Lucene912_0");
    vstd::utf8::is_ascii_chars_encode_utf8(DOC_CODEC@);
    vstd::utf8::is_ascii_chars_encode_utf8(POS_CODEC@);
    vstd::utf8::is_ascii_chars_encode_utf8(PSM_CODEC@);
    vstd::utf8::is_ascii_chars_encode_utf8(TERMS_CODEC@);
    vstd::utf8::is_ascii_chars_encode_utf8(TIM_CODEC@);
    vstd::utf8::is_ascii_chars_encode_utf8(TIP_CODEC@);
    vstd::utf8::is_ascii_chars_encode_utf8(TMD_CODEC@);
    vstd::utf8::is_ascii_chars_encode_utf8(SEGMENT_SUFFIX@);
}

/// A new file with its header.
fn open_file(codec: &str, version: u32, id: &[u8; 16]) -> (r: Result<ChecksumIndexOutput, Error>)
    requires
        encode_utf8(codec@).len() < 128,
    ensures
        r is Ok,
        r->Ok_0.written() == header(codec@, version, id@),
        r->Ok_0.since() == 0,
{
    proof {
        lemma_codec_names();
    }
    let mut out = ChecksumIndexOutput::new(IndexOutput::in_memory());
    write_index_header(&mut out, codec, version, id, SEGMENT_SUFFIX)?;
    assert(out.written() =~= header(codec@, version, id@));
    Ok(out)
}

/// A term's documents and frequencies are in order: documents ascend, and
/// with frequencies, there is a positive one for each.
pub open spec fn valid_postings(docs: Seq<u32>, freqs: Seq<u32>, has_freqs: bool) -> bool {
    &&& docs.len() > 0
    &&& forall|i: int, j: int| 0 <= i < j < docs.len() ==> #[trigger] docs[i] < #[trigger] docs[j]
    &&& forall|i: int| 0 <= i < docs.len() ==> #[trigger] docs[i] < 0x7FFF_FFFF
    &&& has_freqs ==> freqs.len() == docs.len() && forall|i: int| 0 <= i < freqs.len() ==> 0 < #[trigger] freqs[i] <= 0x7FFF_FFFF
}

pub open spec fn positions_view(positions: Option<&[Vec<u32>]>) -> Option<Seq<Seq<u32>>> {
    match positions {
        Some(lists) => Some(lists_view(lists@)),
        None => None,
    }
}

/// The sum of the frequencies.
fn sum_freqs(freqs: &[u32]) -> (r: u64)
    ensures
        r == total_freq(freqs@),
{
    let mut sum: u64 = 0;
    let mut i: usize = 0;
    while i < freqs.len()
        invariant
            i <= freqs@.len(),
            sum == freq_sum(freqs@, i as int) % 0x1_0000_0000_0000_0000,
        decreases freqs@.len() - i,
    {
        sum = wrap_add(sum, freqs[i] as u64);
        i = i + 1;
    }
    sum
}

pub(crate) proof fn lemma_docs_count(docs: Seq<u32>, i: int)
    requires
        forall|i: int, j: int| 0 <= i < j < docs.len() ==> #[trigger] docs[i] < #[trigger] docs[j],
        0 <= i < docs.len(),
    ensures
        docs[i] >= i,
    decreases i,
{
    if i > 0 {
        lemma_docs_count(docs, i - 1);
        assert(docs[i - 1] < docs[i]);
    }
}

impl PostingsWriter {
    /// What was written.
    pub closed spec fn model(&self) -> WriterModel {
        WriterModel {
            doc: self.doc_out.written(),
            pos: match self.pos_out {
                Some(p) => Some(p.written()),
                None => None,
            },
            tim: self.tim_out.written(),
            tip: self.tip_out.written(),
            records: records_view(self.records@),
            stats: self.stats,
            field: match self.field {
                Some(f) => Some(f.model()),
                None => None,
            },
        }
    }

    pub closed spec fn segment(&self) -> Seq<char> {
        self.segment@
    }

    pub closed spec fn id(&self) -> Seq<u8> {
        self.segment_id@
    }

    pub closed spec fn wf(&self) -> bool {
        &&& self.field is Some ==> self.field->Some_0.wf()
        &&& self.doc_out.since() == 0
        &&& self.tim_out.since() == 0
        &&& self.tip_out.since() == 0
        &&& self.pos_out is Some ==> self.pos_out->Some_0.since() == 0
    }

    /// Starts the files.
    pub fn new(segment: &str, segment_id: &[u8; 16]) -> (r: Result<Self, Error>)
        ensures
            r is Ok,
            r->Ok_0.wf(),
            r->Ok_0.model() == writer_new(segment_id@),
            r->Ok_0.segment() == segment@,
            r->Ok_0.id() == segment_id@,
    {
        proof {
            lemma_codec_names();
        }
        let doc_out = open_file(DOC_CODEC, POSTINGS_VERSION, segment_id)?;
        let tim_out = open_file(TIM_CODEC, BLOCKTREE_VERSION, segment_id)?;
        let tip_out = open_file(TIP_CODEC, BLOCKTREE_VERSION, segment_id)?;
        let r = PostingsWriter {
            segment: segment.to_owned(),
            segment_id: *segment_id,
            doc_out,
            pos_out: None,
            tim_out,
            tip_out,
            field: None,
            records: Vec::new(),
            stats: ImpactStats { max_num_level0: 0, max_bytes_level0: 0, max_num_level1: 0, max_bytes_level1: 0 },
        };
        assert(r.model().records =~= Seq::empty());
        Ok(r)
    }

    /// Begins a field; the one before must be finished.
    pub fn start_field(&mut self, field: &FieldInfo, doc_count: u32) -> (r: Result<(), Error>)
        requires
            old(self).wf(),
            old(self).model().field is None,
        ensures
            r is Ok,
            final(self).wf(),
            final(self).model() == field_started(
                old(self).model(),
                field.number,
                (FieldFlags { has_freqs: field.index_options.spec_has_freqs(), has_positions: field.index_options.spec_has_positions() }),
                doc_count,
                old(self).id(),
            ),
            final(self).segment() == old(self).segment(),
            final(self).id() == old(self).id(),
    {
        proof {
            lemma_codec_names();
        }
        let flags = FieldFlags { has_freqs: field.index_options.has_freqs(), has_positions: field.index_options.has_positions() };
        if flags.has_positions && self.pos_out.is_none() {
            let pos = open_file(POS_CODEC, POSTINGS_VERSION, &self.segment_id)?;
            self.pos_out = Some(pos);
        }
        let state = FieldState {
            number: field.number,
            flags,
            doc_count,
            tree: TermTree::new(flags),
            num_terms: 0,
            sum_doc_freq: 0,
            sum_total_term_freq: 0,
            min_term: Vec::new(),
            max_term: Vec::new(),
        };
        proof {
            assert(state.min_term@ =~= Seq::empty());
            assert(state.max_term@ =~= Seq::empty());
        }
        self.field = Some(state);
        Ok(())
    }
}

/// A term's metadata, as it is written.
fn state_of(doc_start_fp: u64, pos_start_fp: u64, last_pos_block_offset: i64, docs: &[u32]) -> (r: TermState)
    requires
        docs@.len() > 0,
        forall|i: int| 0 <= i < docs@.len() ==> #[trigger] docs@[i] < 0x7FFF_FFFF,
    ensures
        r == (TermState {
            doc_start_fp,
            pos_start_fp,
            last_pos_block_offset,
            singleton_doc_id: if docs@.len() == 1 {
                docs@[0] as i64
            } else {
                -1i64
            },
        }),
        valid_state(r),
{
    assert(docs@[0] < 0x7FFF_FFFF);
    let singleton_doc_id: i64 = if docs.len() == 1 { docs[0] as i64 } else { -1 };
    TermState { doc_start_fp, pos_start_fp, last_pos_block_offset, singleton_doc_id }
}

fn copy_bytes(b: &[u8]) -> (r: Vec<u8>)
    ensures
        r@ == b@,
{
    let mut v: Vec<u8> = Vec::new();
    push_all(&mut v, b);
    assert(v@ =~= b@);
    v
}

impl FieldState {
    /// Takes a term in: its place among the blocks, and its share of the sums.
    fn add_term(&mut self, term: &[u8], state: TermState, doc_freq: u32, ttf: u64, tim_out: &mut ChecksumIndexOutput) -> (r: Result<(), Error>)
        requires
            old(self).wf(),
            old(self).num_terms < u64::MAX,
            old(self).tree.pending().len() < 0x7FFF_FFFF,
            old(self).num_terms > 0 ==> lex_less(old(self).max_term@, term@),
            valid_state(state),
        ensures
            final(tim_out).since() == old(tim_out).since(),
            r is Ok,
            final(self).wf(),
            ({
                let f = old(self).model();
                let tree = term_pushed(
                    TreeModel { pending: f.pending, tim: old(tim_out).written(), index: f.index },
                    f.max_term,
                    TreeEntry::Term { bytes: term@, state, doc_freq, ttf },
                    f.flags,
                );
                &&& final(tim_out).written() == tree.tim
                &&& final(self).model() == FieldModel {
                    pending: tree.pending,
                    index: tree.index,
                    num_terms: f.num_terms + 1,
                    sum_doc_freq: spec_wrap_add(f.sum_doc_freq, doc_freq as u64),
                    sum_total_term_freq: spec_wrap_add(f.sum_total_term_freq, ttf),
                    min_term: if f.num_terms == 0 {
                        term@
                    } else {
                        f.min_term
                    },
                    max_term: term@,
                    ..f
                }
            }),
    {
        self.tree.push_term(term, state, doc_freq, ttf, tim_out)?;
        if self.num_terms == 0 {
            self.min_term = copy_bytes(term);
        }
        self.max_term = copy_bytes(term);
        self.num_terms = self.num_terms + 1;
        self.sum_doc_freq = wrap_add(self.sum_doc_freq, doc_freq as u64);
        self.sum_total_term_freq = wrap_add(self.sum_total_term_freq, ttf);
        Ok(())
    }
}

impl PostingsWriter {
    /// Writes a term of the field: its documents in order, their
    /// frequencies, and where the field has positions, each document's
    /// positions. Terms come in byte order.
    pub fn write_term(&mut self, term: &[u8], docs: &[u32], freqs: &[u32], positions: Option<&[Vec<u32>]>) -> (r: Result<(), Error>)
        requires
            old(self).wf(),
            old(self).model().field is Some,
            old(self).model().field->Some_0.num_terms < u64::MAX,
            old(self).model().field->Some_0.pending.len() < 0x7FFF_FFFF,
            old(self).model().field->Some_0.num_terms > 0 ==> lex_less(old(self).model().field->Some_0.max_term, term@),
            valid_postings(docs@, freqs@, old(self).model().field->Some_0.flags.has_freqs),
            old(self).model().field->Some_0.flags.has_positions ==> positions is Some,
            positions is Some ==> old(self).model().pos is Some && valid_lists(positions_view(positions)->Some_0, freqs@),
        ensures
            r is Ok,
            final(self).wf(),
            final(self).model() == term_written(old(self).model(), term@, docs@, freqs@, positions_view(positions)),
            final(self).segment() == old(self).segment(),
            final(self).id() == old(self).id(),
    {
        let ghost m = self.model();
        let ghost lists = positions_view(positions);
        proof {
            lemma_docs_count(docs@, docs@.len() - 1);
        }
        let mut field = match self.field.take() {
            Some(f) => f,
            None => {
                return Ok(());
            },
        };
        assert(field.model() == m.field->Some_0);
        let mut pos_start: u64 = 0;
        let mut offset: i64 = -1;
        let mut index: Vec<(u64, u8)> = Vec::new();
        if let Some(l) = positions {
            if let Some(mut pos) = self.pos_out.take() {
                let (a, b, c) = write_positions(&mut pos, freqs, l)?;
                pos_start = a;
                offset = b;
                index = c;
                self.pos_out = Some(pos);
            }
        }
        let ghost t = written_docs(m, docs@, freqs@, lists);
        assert(index@ =~= t.pos_index);
        let doc_start: u64 = self.doc_out.file_pointer();
        let input = DocInput { docs, freqs, has_freqs: field.flags.has_freqs, has_positions: field.flags.has_positions, pos_start, pos_index: index.as_slice() };
        assert(input@ == t);
        if docs.len() > 1 {
            proof {
                reveal(valid_term_docs);
            }
            write_doc_postings(&mut self.doc_out, &input, &mut self.stats)?;
        }
        let ttf: u64 = sum_freqs(freqs);
        let state = state_of(doc_start, pos_start, offset, docs);
        assert(state == written_state(m, docs@, lists));
        field.add_term(term, state, docs.len() as u32, ttf, &mut self.tim_out)?;
        self.field = Some(field);
        Ok(())
    }
}

/// The transducer of an index.
fn compile_index(index: &Vec<(Vec<u8>, Vec<u8>)>) -> (r: crate::fst_compiler::Fst)
    requires
        keys_sorted(index_view(index@)),
    ensures
        r.wf(),
        r.image() == fst_image(index_view(index@)),
        r.start() == fst_start(index_view(index@)),
        r.empty() == entry_output(index_view(index@), Seq::empty()),
        forall|s: Seq<u8>| #[trigger] fst_output(r.image(), r.start(), r.empty(), s) == Ok::<Option<Seq<u8>>, ErrorKind>(entry_output(index_view(index@), s)),
{
    let ghost v = index_view(index@);
    let mut compiler = FstCompiler::new();
    let mut i: usize = 0;
    assert(v.take(0) =~= Seq::empty());
    while i < index.len()
        invariant
            i <= index@.len(),
            v == index_view(index@),
            keys_sorted(v),
            compiler.wf(),
            compiler.entries() == v.take(i as int),
        decreases index@.len() - i,
    {
        let (prefix, output) = (&index[i].0, &index[i].1);
        assert(v[i as int] == (index@[i as int].0@, index@[i as int].1@));
        if i > 0 {
            assert(lex_less(v[i - 1].0, v[i as int].0));
        }
        compiler.add(prefix.as_slice(), Some(output.as_slice()));
        assert(v.take(i + 1) =~= v.take(i as int).push(v[i as int]));
        i = i + 1;
    }
    assert(v.take(i as int) =~= v);
    compiler.finish()
}

fn write_counted(out: &mut ChecksumIndexOutput, b: &[u8]) -> (r: Result<(), Error>)
    ensures
        final(out).since() == old(out).since(),
        r is Ok,
        final(out).written() == old(out).written() + (vint_of(b@.len() as int) + b@),
{
    let ghost base = out.written();
    put_vint(out, b.len() as u128)?;
    out.write_bytes(b)?;
    proof {
        lemma_concat_assoc(base, vint_of(b@.len() as int), b@);
    }
    Ok(())
}

impl FieldState {
    /// The field's record.
    fn record(&self, fst: &crate::fst_compiler::Fst, root: &[u8], index_start: u64) -> (r: Result<Vec<u8>, Error>)
        requires
            fst.wf(),
            fst.empty() == Some(root@),
        ensures
            r is Ok,
            r->Ok_0@ == field_record(self.model(), (FstImage { bytes: fst.image(), start: fst.start(), root: root@ }), index_start as nat),
    {
        let mut rec = ChecksumIndexOutput::new(IndexOutput::in_memory());
        rec.write_vint(self.number)?;
        assert(rec.written() =~= vint_bytes(self.number));
        put_vlong(&mut rec, self.num_terms as u128)?;
        write_counted(&mut rec, root)?;
        if self.flags.has_freqs {
            put_vlong(&mut rec, self.sum_total_term_freq as u128)?;
        } else {
            assert(rec.written() + Seq::<u8>::empty() =~= rec.written());
        }
        put_vlong(&mut rec, self.sum_doc_freq as u128)?;
        put_vint(&mut rec, self.doc_count as u128)?;
        write_counted(&mut rec, self.min_term.as_slice())?;
        write_counted(&mut rec, self.max_term.as_slice())?;
        put_vlong(&mut rec, index_start as u128)?;
        fst.write_metadata(&mut rec)?;
        Ok(rec.into_bytes())
    }
}

impl PostingsWriter {
    /// Ends the field: writes its last blocks, its index and its record.
    pub fn finish_field(&mut self) -> (r: Result<(), Error>)
        requires
            old(self).wf(),
            old(self).model().field is Some,
        ensures
            r is Ok,
            final(self).wf(),
            old(self).model().field->Some_0.num_terms == 0 ==> final(self).model() == (WriterModel { field: None, ..old(self).model() }),
            old(self).model().field->Some_0.num_terms > 0 ==> ({
                let index = field_tree(old(self).model()).index;
                final(self).model() == field_finished(old(self).model(), index_fst(index)) && maps_index(index_fst(index), index)
            }),
            final(self).segment() == old(self).segment(),
            final(self).id() == old(self).id(),
    {
        let ghost m = self.model();
        let mut field = match self.field.take() {
            Some(f) => f,
            None => {
                return Ok(());
            },
        };
        let ghost f = field.model();
        assert(f == m.field->Some_0);
        if field.num_terms == 0 {
            return Ok(());
        }
        let ghost before = field;
        field.tree.finish(&mut self.tim_out)?;
        let ghost tree = field_tree(m);
        assert(tree.index == field.tree.index());
        let FieldState { number, flags, doc_count, tree: t, num_terms, sum_doc_freq, sum_total_term_freq, min_term, max_term } = field;
        let index = t.into_index();
        let fst = compile_index(&index);
        let ghost fi = index_fst(tree.index);
        proof {
            assert forall|a: int, b: int| 0 <= a < b < tree.index.len() implies lex_less(#[trigger] tree.index[a].0, #[trigger] tree.index[b].0) by {
                assert(keys_sorted(tree.index));
            }
            law_entry_found(tree.index, 0);
            assert(fst_output(fst.image(), fst.start(), fst.empty(), Seq::<u8>::empty()) == Ok::<Option<Seq<u8>>, ErrorKind>(entry_output(tree.index, Seq::<u8>::empty())));
            assert(fst.empty() == Some(fi.root));
            assert(maps_index(fi, tree.index));
        }
        let index_start: u64 = self.tip_out.file_pointer();
        let root = match fst.empty_output() {
            Some(root) => root,
            None => {
                return Err(Error::new(ErrorKind::InvalidInput, "the root has no blocks"));
            },
        };
        let state = FieldState { number, flags, doc_count, tree: TermTree::new(flags), num_terms, sum_doc_freq, sum_total_term_freq, min_term, max_term };
        let rec = state.record(&fst, root, index_start)?;
        self.tip_out.write_bytes(fst.bytes())?;
        self.records.push(rec);
        proof {
            assert(rec@ == field_record(f, fi, m.tip.len()));
            assert(self.model().records =~= m.records.push(rec@));
            assert(self.model() == field_finished(m, fi));
        }
        Ok(())
    }

    /// Ends all files. Gives those of documents, blocks, index, terms'
    /// metadata and postings' metadata, and that of positions if there is
    /// one.
    pub fn finish(self) -> (r: Result<Vec<SegmentFile>, Error>)
        requires
            self.wf(),
            self.model().field is None,
        ensures
            r is Ok,
            files_view(r->Ok_0@) == postings_files(self.model(), self.segment(), self.id()),
    {
        broadcast use lemma_concat_assoc;
        proof {
            lemma_codec_names();
        }
        let ghost m = self.model();
        let id = self.segment_id;
        let mut tip = self.tip_out;
        write_footer(&mut tip)?;
        let mut tim = self.tim_out;
        write_footer(&mut tim)?;
        let tmd = tmd_file(&self.records, &id, tip.file_pointer(), tim.file_pointer(), Ghost(m))?;
        let mut doc = self.doc_out;
        write_footer(&mut doc)?;
        let mut psm = open_file(PSM_CODEC, POSTINGS_VERSION, &id)?;
        psm.write_int(self.stats.max_num_level0)?;
        psm.write_int(self.stats.max_bytes_level0)?;
        psm.write_int(self.stats.max_num_level1)?;
        psm.write_int(self.stats.max_bytes_level1)?;
        psm.write_long(to_i64(doc.file_pointer()))?;
        let mut files: Vec<SegmentFile> = Vec::new();
        let segment = self.segment.as_str();
        files.push(SegmentFile { name: file_name(segment, "doc"), bytes: doc.into_bytes() });
        files.push(SegmentFile { name: file_name(segment, "tim"), bytes: tim.into_bytes() });
        files.push(SegmentFile { name: file_name(segment, "tip"), bytes: tip.into_bytes() });
        files.push(SegmentFile { name: file_name(segment, "tmd"), bytes: tmd });
        match self.pos_out {
            Some(p) => {
                let mut pos = p;
                write_footer(&mut pos)?;
                psm.write_long(to_i64(pos.file_pointer()))?;
                write_footer(&mut psm)?;
                files.push(SegmentFile { name: file_name(segment, "psm"), bytes: psm.into_bytes() });
                files.push(SegmentFile { name: file_name(segment, "pos"), bytes: pos.into_bytes() });
            },
            None => {
                assert(psm.written() =~= psm_body(m, id@));
                write_footer(&mut psm)?;
                files.push(SegmentFile { name: file_name(segment, "psm"), bytes: psm.into_bytes() });
            },
        }
        assert(files_view(files@) =~= postings_files(m, self.segment@, id@));
        Ok(files)
    }
}

/// The metadata of the terms.
fn tmd_file(records: &Vec<Vec<u8>>, id: &[u8; 16], tip_len: u64, tim_len: u64, model: Ghost<WriterModel>) -> (r: Result<Vec<u8>, Error>)
    requires
        records_view(records@) == model@.records,
        tip_len == closed(model@.tip).len(),
        tim_len == closed(model@.tim).len(),
    ensures
        r is Ok,
        r->Ok_0@ == closed(tmd_body(model@, id@)),
{
    proof {
        lemma_codec_names();
    }
    let ghost m = model@;
    let mut tmd = open_file(TMD_CODEC, BLOCKTREE_VERSION, id)?;
    write_index_header(&mut tmd, TERMS_CODEC, POSTINGS_VERSION, id, SEGMENT_SUFFIX)?;
    tmd.write_vint(128)?;
    put_vint(&mut tmd, records.len() as u128)?;
    let ghost base = tmd.written();
    let mut i: usize = 0;
    assert(base + joined_records(m.records, 0) =~= base);
    while i < records.len()
        invariant
            i <= records@.len(),
            records_view(records@) == m.records,
            tmd.written() == base + joined_records(m.records, i as int),
            tmd.since() == 0,
        decreases records@.len() - i,
    {
        assert(m.records[i as int] == records@[i as int]@);
        tmd.write_bytes(records[i].as_slice())?;
        proof {
            lemma_concat_assoc(base, joined_records(m.records, i as int), m.records[i as int]);
        }
        i = i + 1;
    }
    tmd.write_long(to_i64(tip_len))?;
    tmd.write_long(to_i64(tim_len))?;
    assert(tmd.written() == tmd_body(m, id@));
    write_footer(&mut tmd)?;
    Ok(tmd.into_bytes())
}

} // verus!
