//! The blocks of a terms dictionary. Terms arrive in order and wait on a
//! stack; when enough of them share a prefix that the next term leaves, they
//! are written as blocks, and a pointer to the first block takes their place.

use crate::bytes::{bytes_difference, common_prefix, lemma_concat_assoc, lex_less, push_all, vint_of, vlong_of};
use crate::error::{Error, ErrorKind};
use crate::io::{put_distance, put_marked_distance, put_vint, put_vlong, ChecksumIndexOutput, DataOutput, IndexOutput};
use crate::num::{zigzag, zigzag64};
use crate::postings_ll::{msb_vlong_bytes, write_msb_groups};
use vstd::prelude::*;

verus! {

/// Fewest entries of a block that is split off.
pub const MIN_BLOCK: usize = 25;

/// Most entries of a block that is not split.
pub const MAX_BLOCK: usize = 48;

// ---------------------------------------------------------------------------
// A term's metadata
// ---------------------------------------------------------------------------

/// Where a term's postings are: its documents, its positions, the tail of
/// its positions (or -1), and its document where there is just one (or -1).
#[derive(Clone, Copy, Debug)]
pub struct TermState {
    pub doc_start_fp: u64,
    pub pos_start_fp: u64,
    pub last_pos_block_offset: i64,
    pub singleton_doc_id: i64,
}

impl Default for TermState {
    fn default() -> (r: Self)
        ensures
            r == (TermState { doc_start_fp: 0, pos_start_fp: 0, last_pos_block_offset: 0, singleton_doc_id: 0 }),
    {
        TermState { doc_start_fp: 0, pos_start_fp: 0, last_pos_block_offset: 0, singleton_doc_id: 0 }
    }
}

/// The state before the first term of a block.
pub open spec fn spec_empty_state() -> TermState {
    TermState { doc_start_fp: 0, pos_start_fp: 0, last_pos_block_offset: -1i64, singleton_doc_id: -1i64 }
}

#[verifier::when_used_as_spec(spec_empty_state)]
pub fn empty_state() -> (r: TermState)
    ensures
        r == spec_empty_state(),
{
    TermState { doc_start_fp: 0, pos_start_fp: 0, last_pos_block_offset: -1, singleton_doc_id: -1 }
}

/// A single document is an int.
pub open spec fn valid_state(s: TermState) -> bool {
    -1 <= s.singleton_doc_id <= i32::MAX
}

/// A term's metadata behind that of another: single documents of terms that
/// share a place are told by their distance.
pub open spec fn term_bytes(last: TermState, s: TermState, has_positions: bool) -> Seq<u8> {
    (if last.singleton_doc_id != -1 && s.singleton_doc_id != -1 && s.doc_start_fp == last.doc_start_fp {
        vlong_of(2 * zigzag(s.singleton_doc_id - last.singleton_doc_id) as int + 1)
    } else if s.singleton_doc_id != -1 {
        vlong_of(2 * (s.doc_start_fp - last.doc_start_fp) + 1) + vint_of(s.singleton_doc_id as int)
    } else {
        vlong_of(2 * (s.doc_start_fp - last.doc_start_fp))
    }) + if has_positions {
        vlong_of(s.pos_start_fp - last.pos_start_fp) + vlong_of(if s.last_pos_block_offset > 0 {
            s.last_pos_block_offset as int
        } else {
            0
        })
    } else {
        Seq::empty()
    }
}

/// The part of a term's metadata that is on its documents.
pub open spec fn term_doc_bytes(last: TermState, s: TermState) -> Seq<u8> {
    term_bytes(last, s, false)
}

/// How far the place of the documents goes on can be said.
pub open spec fn doc_place_follows(last: TermState, s: TermState) -> bool {
    (last.singleton_doc_id != -1 && s.singleton_doc_id != -1 && s.doc_start_fp == last.doc_start_fp) || (last.doc_start_fp <= s.doc_start_fp
        && 2 * (s.doc_start_fp - last.doc_start_fp) % 0x1_0000_0000_0000_0000 <= i64::MAX)
}

/// How far the place of the positions goes on can be said.
pub open spec fn pos_place_follows(last: TermState, s: TermState, has_positions: bool) -> bool {
    has_positions ==> last.pos_start_fp <= s.pos_start_fp <= last.pos_start_fp + i64::MAX
}

/// Appends a term's metadata behind that of `last`, which the term's then
/// becomes. A place that lies behind that of `last`, or too far on to be said,
/// is refused.
pub fn encode_term(out: &mut IndexOutput, state: &TermState, last: &mut TermState, has_positions: bool) -> (r: Result<(), Error>)
    requires
        valid_state(*state),
        valid_state(*old(last)),
    ensures
        if !doc_place_follows(*old(last), *state) {
            r is Err && r->Err_0.kind == ErrorKind::InvalidInput && final(out).written() == old(out).written() && *final(last) == *old(last)
        } else if !pos_place_follows(*old(last), *state, has_positions) {
            r is Err && r->Err_0.kind == ErrorKind::InvalidInput && final(out).written() == old(out).written() + term_doc_bytes(*old(last), *state) && *final(last) == *old(last)
        } else {
            r is Ok && final(out).written() == old(out).written() + term_bytes(*old(last), *state, has_positions) && *final(last) == *state
        },
{
    let shared: bool = last.singleton_doc_id != -1 && state.singleton_doc_id != -1 && state.doc_start_fp == last.doc_start_fp;
    if !shared && (state.doc_start_fp < last.doc_start_fp || (state.doc_start_fp - last.doc_start_fp) % 0x8000_0000_0000_0000 > 0x3FFF_FFFF_FFFF_FFFF) {
        return Err(Error::new(ErrorKind::InvalidInput, "documents of a term do not follow"));
    }
    if has_positions && (state.pos_start_fp < last.pos_start_fp || state.pos_start_fp - last.pos_start_fp > 0x7FFF_FFFF_FFFF_FFFF) {
        let mut copy: TermState = *last;
        append_term(out, state, &mut copy, false)?;
        return Err(Error::new(ErrorKind::InvalidInput, "positions of a term do not follow"));
    }
    append_term(out, state, last, has_positions)
}

/// Appends a term's metadata behind that of `last`, whose places do not lie
/// behind.
fn append_term(out: &mut IndexOutput, state: &TermState, last: &mut TermState, has_positions: bool) -> (r: Result<(), Error>)
    requires
        valid_state(*state),
        valid_state(*old(last)),
    ensures
        r is Ok,
        final(out).written() == old(out).written() + term_bytes(*old(last), *state, has_positions),
        *final(last) == *state,
{
    let ghost base = out.written();
    let ghost was = *last;
    if last.singleton_doc_id != -1 && state.singleton_doc_id != -1 && state.doc_start_fp == last.doc_start_fp {
        let delta: i64 = state.singleton_doc_id - last.singleton_doc_id;
        put_vlong(out, 2 * zigzag64(delta) as u128 + 1)?;
    } else {
        put_marked_distance(out, state.doc_start_fp, last.doc_start_fp, state.singleton_doc_id != -1)?;
        if state.singleton_doc_id != -1 {
            put_vint(out, state.singleton_doc_id as u128)?;
        }
    }
    let ghost mid = out.written();
    if has_positions {
        put_distance(out, state.pos_start_fp, last.pos_start_fp)?;
        put_vlong(out, if state.last_pos_block_offset > 0 { state.last_pos_block_offset as u128 } else { 0 })?;
    }
    assert(out.written() =~= base + term_bytes(was, *state, has_positions));
    *last = *state;
    Ok(())
}

// ---------------------------------------------------------------------------
// Statistics
// ---------------------------------------------------------------------------

/// A term that occurs once, in one document.
pub open spec fn occurs_once(df: u32, ttf: u64, has_freqs: bool) -> bool {
    df == 1 && (!has_freqs || ttf == 1)
}

/// A run of such terms.
pub open spec fn run_bytes(count: nat) -> Seq<u8> {
    if count > 0 {
        vint_of(2 * (count - 1) + 1)
    } else {
        Seq::empty()
    }
}

/// The statistics of another term.
pub open spec fn stat_bytes(df: u32, ttf: u64, has_freqs: bool) -> Seq<u8> {
    vint_of(2 * df) + if has_freqs {
        vlong_of(ttf - df)
    } else {
        Seq::empty()
    }
}

/// Writes document and total frequencies; runs of terms that occur once are
/// counted.
pub struct StatsWriter {
    out: IndexOutput,
    has_freqs: bool,
    singleton_count: u32,
}

impl StatsWriter {
    /// What was written.
    pub closed spec fn written(&self) -> Seq<u8> {
        self.out.written()
    }

    /// The length of the run that is not written yet.
    pub closed spec fn count(&self) -> nat {
        self.singleton_count as nat
    }

    pub closed spec fn has_freqs(&self) -> bool {
        self.has_freqs
    }

    pub fn new(has_freqs: bool) -> (r: Self)
        ensures
            r.written() == Seq::<u8>::empty(),
            r.count() == 0,
            r.has_freqs() == has_freqs,
    {
        StatsWriter { out: IndexOutput::in_memory(), has_freqs, singleton_count: 0 }
    }

    /// Adds a term. A total frequency below the document frequency is refused,
    /// and so is one too far above it to be said.
    pub fn add(&mut self, df: u32, ttf: u64) -> (r: Result<(), Error>)
        requires
            occurs_once(df, ttf, old(self).has_freqs()) ==> old(self).count() < u32::MAX,
        ensures
            final(self).has_freqs() == old(self).has_freqs(),
            if occurs_once(df, ttf, old(self).has_freqs()) {
                r is Ok && final(self).written() == old(self).written() && final(self).count() == old(self).count() + 1
            } else if old(self).has_freqs() && !(df <= ttf <= df + i64::MAX) {
                r is Err && r->Err_0.kind == ErrorKind::InvalidInput && final(self).count() == 0 && final(self).written() == old(self).written() + (run_bytes(old(self).count()) + vint_of(
                    2 * df,
                ))
            } else {
                r is Ok && final(self).count() == 0 && final(self).written() == old(self).written() + (run_bytes(old(self).count()) + stat_bytes(df, ttf, old(self).has_freqs()))
            },
    {
        if !(df == 1 && ttf == 1) && self.has_freqs && (ttf < df as u64 || ttf - df as u64 > 0x7FFF_FFFF_FFFF_FFFF) {
            let ghost base = self.written();
            let ghost run = run_bytes(self.count());
            self.finish()?;
            put_vint(&mut self.out, 2 * df as u128)?;
            assert(self.out.written() =~= base + (run + vint_of(2 * df)));
            return Err(Error::new(ErrorKind::InvalidInput, "total frequency does not fit"));
        }
        self.append(df, ttf)
    }

    /// Adds a term whose total frequency is not below its document frequency.
    fn append(&mut self, df: u32, ttf: u64) -> (r: Result<(), Error>)
        requires
            occurs_once(df, ttf, old(self).has_freqs()) ==> old(self).count() < u32::MAX,
        ensures
            r is Ok,
            final(self).has_freqs() == old(self).has_freqs(),
            occurs_once(df, ttf, old(self).has_freqs()) ==> final(self).written() == old(self).written() && final(self).count() == old(self).count() + 1,
            !occurs_once(df, ttf, old(self).has_freqs()) ==> final(self).count() == 0 && final(self).written() == old(self).written() + (run_bytes(old(self).count()) + stat_bytes(
                df,
                ttf,
                old(self).has_freqs(),
            )),
    {
        let ghost base = self.written();
        let ghost run = run_bytes(self.count());
        if df == 1 && (!self.has_freqs || ttf == 1) {
            self.singleton_count = self.singleton_count + 1;
        } else {
            self.finish()?;
            put_vint(&mut self.out, 2 * df as u128)?;
            if self.has_freqs {
                put_distance(&mut self.out, ttf, df as u64)?;
            }
            assert(self.out.written() =~= base + (run + stat_bytes(df, ttf, self.has_freqs)));
        }
        Ok(())
    }

    /// Writes the run that is not written yet.
    pub fn finish(&mut self) -> (r: Result<(), Error>)
        ensures
            r is Ok,
            final(self).has_freqs() == old(self).has_freqs(),
            final(self).count() == 0,
            final(self).written() == old(self).written() + run_bytes(old(self).count()),
    {
        let ghost base = self.written();
        if self.singleton_count > 0 {
            put_vint(&mut self.out, 2 * (self.singleton_count as u128 - 1) + 1)?;
            self.singleton_count = 0;
        } else {
            assert(base + Seq::<u8>::empty() =~= base);
        }
        Ok(())
    }

    /// The written bytes.
    pub fn into_bytes(self) -> (r: Vec<u8>)
        ensures
            r@ == self.written(),
    {
        self.out.into_bytes()
    }
}

// ---------------------------------------------------------------------------
// Blocks
// ---------------------------------------------------------------------------

/// An entry of the stack: a term with its postings, or the first block of a
/// group of terms that share a prefix.
pub enum TreeEntry {
    Term { bytes: Seq<u8>, state: TermState, doc_freq: u32, ttf: u64 },
    Block { prefix: Seq<u8>, fp: u64 },
}

pub enum Pending {
    Term { bytes: Vec<u8>, state: TermState, doc_freq: u32, ttf: u64 },
    Block { prefix: Vec<u8>, fp: u64 },
}

impl View for Pending {
    type V = TreeEntry;

    open spec fn view(&self) -> TreeEntry {
        match *self {
            Pending::Term { bytes, state, doc_freq, ttf } => TreeEntry::Term { bytes: bytes@, state, doc_freq, ttf },
            Pending::Block { prefix, fp } => TreeEntry::Block { prefix: prefix@, fp },
        }
    }
}

/// The bytes that an entry goes by.
pub open spec fn entry_key(e: TreeEntry) -> Seq<u8> {
    match e {
        TreeEntry::Term { bytes, .. } => bytes,
        TreeEntry::Block { prefix, .. } => prefix,
    }
}

pub open spec fn starts_with(key: Seq<u8>, prefix: Seq<u8>) -> bool {
    prefix.len() <= key.len() && key.take(prefix.len() as int) == prefix
}

/// Entries of a kind.
pub open spec fn any_terms(entries: Seq<TreeEntry>) -> bool {
    exists|i: int| 0 <= i < entries.len() && (#[trigger] entries[i]) is Term
}

pub open spec fn any_blocks(entries: Seq<TreeEntry>) -> bool {
    exists|i: int| 0 <= i < entries.len() && (#[trigger] entries[i]) is Block
}

/// What the first `n` entries add to the prefix of length `len`.
pub open spec fn suffixes(entries: Seq<TreeEntry>, len: int, n: int) -> Seq<u8>
    decreases n,
{
    if n <= 0 {
        Seq::empty()
    } else {
        suffixes(entries, len, n - 1) + entry_key(entries[n - 1]).skip(len)
    }
}

/// The length of an entry's suffix; unless all entries are terms, with a mark
/// for blocks, and for these the way back from `fp`.
pub open spec fn suffix_length(e: TreeEntry, len: int, leaf: bool, fp: int) -> Seq<u8> {
    let n = entry_key(e).len() - len;
    match e {
        TreeEntry::Term { .. } => vint_of(if leaf { n } else { 2 * n }),
        TreeEntry::Block { fp: own, .. } => vint_of(2 * n + 1) + vlong_of(fp - own),
    }
}

pub open spec fn suffix_lengths(entries: Seq<TreeEntry>, len: int, leaf: bool, fp: int, n: int) -> Seq<u8>
    decreases n,
{
    if n <= 0 {
        Seq::empty()
    } else {
        suffix_lengths(entries, len, leaf, fp, n - 1) + suffix_length(entries[n - 1], len, leaf, fp)
    }
}

/// The statistics of the terms among the first `n` entries, and the run that
/// is not written yet.
pub open spec fn stats_of(entries: Seq<TreeEntry>, has_freqs: bool, n: int) -> (Seq<u8>, nat)
    decreases n,
{
    if n <= 0 {
        (Seq::empty(), 0)
    } else {
        let (out, count) = stats_of(entries, has_freqs, n - 1);
        match entries[n - 1] {
            TreeEntry::Term { doc_freq, ttf, .. } => if occurs_once(doc_freq, ttf, has_freqs) {
                (out, count + 1)
            } else {
                (out + (run_bytes(count) + stat_bytes(doc_freq, ttf, has_freqs)), 0)
            },
            TreeEntry::Block { .. } => (out, count),
        }
    }
}

/// The metadata of the terms among the first `n` entries, and the last
/// term's state.
pub open spec fn metadata_of(entries: Seq<TreeEntry>, has_positions: bool, n: int) -> (Seq<u8>, TermState)
    decreases n,
{
    if n <= 0 {
        (Seq::empty(), spec_empty_state())
    } else {
        let (out, last) = metadata_of(entries, has_positions, n - 1);
        match entries[n - 1] {
            TreeEntry::Term { state, .. } => (out + term_bytes(last, state, has_positions), state),
            TreeEntry::Block { .. } => (out, last),
        }
    }
}

/// All bytes are the same.
pub open spec fn all_same(b: Seq<u8>) -> bool {
    b.len() > 0 && forall|i: int| 0 <= i < b.len() ==> #[trigger] b[i] == b[0]
}

/// Lengths that are all the same byte are written once.
pub open spec fn lengths_part(b: Seq<u8>) -> Seq<u8> {
    if all_same(b) {
        vint_of(2 * b.len() as int + 1) + seq![b[0]]
    } else {
        vint_of(2 * b.len() as int) + b
    }
}

/// A run of bytes behind its length.
pub open spec fn counted(b: Seq<u8>) -> Seq<u8> {
    vint_of(b.len() as int) + b
}

/// What the field of a block keeps of its terms.
#[derive(Clone, Copy, Debug)]
pub struct FieldFlags {
    pub has_freqs: bool,
    pub has_positions: bool,
}

/// A block at `fp`: the number of entries and whether it is the last of its
/// group, the suffixes, their lengths, the statistics, the metadata.
pub open spec fn block_image(entries: Seq<TreeEntry>, len: int, last: bool, fp: int, flags: FieldFlags) -> Seq<u8> {
    let n = entries.len() as int;
    let leaf = !any_blocks(entries);
    let s = suffixes(entries, len, n);
    let (stats, count) = stats_of(entries, flags.has_freqs, n);
    vint_of(2 * n + if last { 1int } else { 0 }) + (vlong_of(8 * s.len() + if leaf { 4int } else { 0 }) + s) + lengths_part(suffix_lengths(entries, len, leaf, fp, n)) + counted(
        stats + run_bytes(count),
    ) + counted(metadata_of(entries, flags.has_positions, n).0)
}

/// The stack as a sequence.
pub open spec fn stack_view(pending: Seq<Pending>) -> Seq<TreeEntry> {
    pending.map_values(|p: Pending| p@)
}

/// Every entry's key has at least `len` bytes, and its state is valid.
pub open spec fn valid_entries(entries: Seq<TreeEntry>, len: int) -> bool {
    forall|i: int| 0 <= i < entries.len() ==> valid_entry(#[trigger] entries[i], len)
}

pub open spec fn valid_entry(e: TreeEntry, len: int) -> bool {
    &&& entry_key(e).len() >= len
    &&& e is Term ==> valid_state(e->Term_state)
}

fn is_same(b: &Vec<u8>) -> (r: bool)
    ensures
        r == all_same(b@),
{
    if b.len() == 0 {
        return false;
    }
    let mut i: usize = 0;
    while i < b.len()
        invariant
            i <= b@.len(),
            b@.len() > 0,
            forall|k: int| 0 <= k < i ==> #[trigger] b@[k] == b@[0],
        decreases b@.len() - i,
    {
        if b[i] != b[0] {
            assert(b@[i as int] != b@[0]);
            return false;
        }
        i = i + 1;
    }
    true
}

/// The parts of a block, before they are put together.
pub struct BlockParts {
    pub suffixes: Vec<u8>,
    pub lengths: Vec<u8>,
    pub stats: Vec<u8>,
    pub metadata: Vec<u8>,
}

/// The parts of a block of the entries from `start` to before `end`.
fn block_parts(pending: &Vec<Pending>, start: usize, end: usize, len: usize, leaf: bool, fp: u64, flags: FieldFlags) -> (r: Result<BlockParts, Error>)
    requires
        start <= end <= pending@.len() <= 0x7FFF_FFFF,
        valid_entries(stack_view(pending@).subrange(start as int, end as int), len as int),
    ensures
        r is Ok,
        ({
            let entries = stack_view(pending@).subrange(start as int, end as int);
            let n = end - start;
            &&& r->Ok_0.suffixes@ == suffixes(entries, len as int, n)
            &&& r->Ok_0.lengths@ == suffix_lengths(entries, len as int, leaf, fp as int, n)
            &&& r->Ok_0.stats@ == stats_of(entries, flags.has_freqs, n).0 + run_bytes(stats_of(entries, flags.has_freqs, n).1)
            &&& r->Ok_0.metadata@ == metadata_of(entries, flags.has_positions, n).0
        }),
{
    let ghost entries = stack_view(pending@).subrange(start as int, end as int);
    let mut suffix_bytes: Vec<u8> = Vec::new();
    let mut lengths = IndexOutput::in_memory();
    let mut stats = StatsWriter::new(flags.has_freqs);
    let mut meta = IndexOutput::in_memory();
    let mut last: TermState = empty_state();
    let mut i: usize = start;
    while i < end
        invariant
            start <= i <= end <= pending@.len() <= 0x7FFF_FFFF,
            entries == stack_view(pending@).subrange(start as int, end as int),
            valid_entries(entries, len as int),
            suffix_bytes@ == suffixes(entries, len as int, i - start),
            lengths.written() == suffix_lengths(entries, len as int, leaf, fp as int, i - start),
            stats.has_freqs() == flags.has_freqs,
            (stats.written(), stats.count()) == stats_of(entries, flags.has_freqs, i - start),
            stats.count() <= i - start,
            (meta.written(), last) == metadata_of(entries, flags.has_positions, i - start),
            valid_state(last),
        decreases end - i,
    {
        let ghost k = i - start;
        assert(entries[k] == pending@[i as int]@);
        assert(valid_entry(entries[k], len as int));
        match &pending[i] {
            Pending::Term { bytes, state, doc_freq, ttf } => {
                let n: u128 = (bytes.len() - len) as u128;
                let ghost before = lengths.written();
                put_vint(&mut lengths, if leaf { n } else { 2 * n })?;
                assert(lengths.written() == before + suffix_length(entries[k], len as int, leaf, fp as int));
                push_all(&mut suffix_bytes, &bytes.as_slice()[len..bytes.len()]);
                stats.append(*doc_freq, *ttf)?;
                append_term(&mut meta, state, &mut last, flags.has_positions)?;
            },
            Pending::Block { prefix, fp: own } => {
                let n: u128 = (prefix.len() - len) as u128;
                let ghost before = lengths.written();
                put_vint(&mut lengths, 2 * n + 1)?;
                push_all(&mut suffix_bytes, &prefix.as_slice()[len..prefix.len()]);
                put_distance(&mut lengths, fp, *own)?;
                assert(lengths.written() =~= before + suffix_length(entries[k], len as int, leaf, fp as int));
            },
        }
        assert(entry_key(entries[k]).subrange(len as int, entry_key(entries[k]).len() as int) =~= entry_key(entries[k]).skip(len as int));
        i = i + 1;
    }
    stats.finish()?;
    Ok(BlockParts { suffixes: suffix_bytes, lengths: lengths.into_bytes(), stats: stats.into_bytes(), metadata: meta.into_bytes() })
}

/// Writes a run of bytes behind its length.
fn write_counted(out: &mut ChecksumIndexOutput, b: &Vec<u8>) -> (r: Result<(), Error>)
    ensures
        final(out).since() == old(out).since(),
        r is Ok,
        final(out).written() == old(out).written() + counted(b@),
{
    let ghost base = out.written();
    put_vint(out, b.len() as u128)?;
    out.write_bytes(b.as_slice())?;
    assert(out.written() =~= base + counted(b@));
    Ok(())
}

fn write_lengths(out: &mut ChecksumIndexOutput, b: &Vec<u8>) -> (r: Result<(), Error>)
    ensures
        final(out).since() == old(out).since(),
        r is Ok,
        final(out).written() == old(out).written() + lengths_part(b@),
{
    let ghost base = out.written();
    if is_same(b) {
        put_vint(out, 2 * b.len() as u128 + 1)?;
        out.write_byte(b[0])?;
    } else {
        put_vint(out, 2 * b.len() as u128)?;
        out.write_bytes(b.as_slice())?;
    }
    assert(out.written() =~= base + lengths_part(b@));
    Ok(())
}

/// Writes the entries from `start` to before `end` as a block; the last of
/// its group goes up to the top of the stack.
fn write_block(pending: &Vec<Pending>, len: usize, start: usize, end: usize, leaf: bool, flags: FieldFlags, tim_out: &mut ChecksumIndexOutput) -> (r: Result<(), Error>)
    requires
        start < end <= pending@.len() <= 0x7FFF_FFFF,
        valid_entries(stack_view(pending@).subrange(start as int, end as int), len as int),
        leaf == !any_blocks(stack_view(pending@).subrange(start as int, end as int)),
    ensures
        final(tim_out).since() == old(tim_out).since(),
        r is Ok,
        final(tim_out).written() == old(tim_out).written() + block_image(
            stack_view(pending@).subrange(start as int, end as int),
            len as int,
            end == pending@.len(),
            old(tim_out).written().len() as int,
            flags,
        ),
{
    let ghost base = tim_out.written();
    let ghost entries = stack_view(pending@).subrange(start as int, end as int);
    let fp: u64 = tim_out.file_pointer();
    let last: u128 = if end == pending.len() { 1 } else { 0 };
    put_vint(tim_out, 2 * (end - start) as u128 + last)?;
    let parts = block_parts(pending, start, end, len, leaf, fp, flags)?;
    let mark: u128 = if leaf { 4 } else { 0 };
    let ghost m0 = tim_out.written();
    put_vlong(tim_out, 8 * parts.suffixes.len() as u128 + mark)?;
    tim_out.write_bytes(parts.suffixes.as_slice())?;
    let ghost token = vlong_of(8 * parts.suffixes@.len() + mark);
    assert(tim_out.written() =~= m0 + (token + parts.suffixes@));
    write_lengths(tim_out, &parts.lengths)?;
    write_counted(tim_out, &parts.stats)?;
    write_counted(tim_out, &parts.metadata)?;
    proof {
        let a = vint_of(2 * (end - start) + last);
        lemma_block_joined(base, a, token + parts.suffixes@, lengths_part(parts.lengths@), counted(parts.stats@), counted(parts.metadata@));
    }
    Ok(())
}

proof fn lemma_block_joined(base: Seq<u8>, a: Seq<u8>, b: Seq<u8>, c: Seq<u8>, d: Seq<u8>, e: Seq<u8>)
    ensures
        base + a + b + c + d + e == base + (a + b + c + d + e),
{
    lemma_concat_assoc(base, a, b);
    lemma_concat_assoc(base, a + b, c);
    lemma_concat_assoc(base, a + b + c, d);
    lemma_concat_assoc(base, a + b + c + d, e);
}

// ---------------------------------------------------------------------------
// Groups of blocks
// ---------------------------------------------------------------------------

/// The byte behind the prefix of length `len`; -1 where there is none.
pub open spec fn lead(e: TreeEntry, len: int) -> int {
    let key = entry_key(e);
    if key.len() > len {
        key[len] as int
    } else {
        -1
    }
}

/// Where the block that begins at `start` ends, looked for from `i` on: a
/// group that is too large for one block is cut where the lead byte changes,
/// once there are enough entries.
pub open spec fn next_cut(entries: Seq<TreeEntry>, len: int, start: int, i: int) -> int
    decreases entries.len() - i,
{
    if i >= entries.len() {
        entries.len() as int
    } else if i - start >= MIN_BLOCK && entries.len() - start > MAX_BLOCK && lead(entries[i], len) != lead(entries[i - 1], len) {
        i
    } else {
        next_cut(entries, len, start, i + 1)
    }
}

/// A block of a group: where it is, whether it holds terms, and its first
/// entry's lead byte, -1 for the first block.
#[derive(Clone, Copy, Debug)]
pub struct SubBlock {
    pub fp: u64,
    pub has_terms: bool,
    pub lead: i32,
}

/// The blocks from entry `start` on, behind `tim`, and behind `subs`.
pub open spec fn blocks_from(entries: Seq<TreeEntry>, len: int, start: int, first_lead: i32, tim: Seq<u8>, subs: Seq<SubBlock>, flags: FieldFlags) -> (Seq<u8>, Seq<SubBlock>)
    decreases entries.len() - start,
{
    if !(0 <= start < entries.len()) {
        (tim, subs)
    } else {
        let cut = next_cut(entries, len, start, start + 1);
        let part = entries.subrange(start, cut);
        let sub = SubBlock { fp: tim.len() as u64, has_terms: any_terms(part), lead: first_lead };
        let image = block_image(part, len, cut == entries.len(), tim.len() as int, flags);
        if !(start < cut <= entries.len()) {
            (tim, subs)
        } else {
            blocks_from(entries, len, cut, lead(entries[cut], len) as i32, tim + image, subs.push(sub), flags)
        }
    }
}

/// A lead byte.
pub open spec fn lead_byte(x: i32) -> u8 {
    if x < 0 {
        255
    } else {
        (x % 256) as u8
    }
}

/// Where the blocks behind the first are, for the first `n` blocks.
pub open spec fn floor_bytes(subs: Seq<SubBlock>, n: int) -> Seq<u8>
    decreases n,
{
    if n <= 1 {
        Seq::empty()
    } else {
        floor_bytes(subs, n - 1) + (seq![lead_byte(subs[n - 1].lead)] + vlong_of(2 * (subs[n - 1].fp - subs[0].fp) + if subs[n - 1].has_terms { 1int } else { 0 }))
    }
}

/// What the index says of a group: where its first block is, whether that
/// holds terms, whether there are more; and then where those are.
pub open spec fn group_output(subs: Seq<SubBlock>) -> Seq<u8> {
    let more = subs.len() > 1;
    let code = 4 * subs[0].fp + (if subs[0].has_terms { 2int } else { 0 }) + if more { 1int } else { 0 };
    msb_vlong_bytes((code % 0x1_0000_0000_0000_0000) as nat) + if more {
        vint_of(subs.len() - 1) + floor_bytes(subs, subs.len() as int)
    } else {
        Seq::empty()
    }
}

/// The place of a prefix in the index: before its extensions, which are the
/// last entries.
pub open spec fn index_place(index: Seq<(Seq<u8>, Seq<u8>)>, key: Seq<u8>) -> int
    decreases index.len(),
{
    if index.len() > 0 && starts_with(index.last().0, key) {
        index_place(index.drop_last(), key)
    } else {
        index.len() as int
    }
}

/// The stack, the file of blocks, and the index: prefixes with what leads to
/// their blocks.
pub struct TreeModel {
    pub pending: Seq<TreeEntry>,
    pub tim: Seq<u8>,
    pub index: Seq<(Seq<u8>, Seq<u8>)>,
}

/// The top `count` entries, which share `prefix`, become blocks.
pub open spec fn blocks_written(m: TreeModel, prefix: Seq<u8>, count: int, flags: FieldFlags) -> TreeModel {
    let n = m.pending.len() - count;
    let (tim, subs) = blocks_from(m.pending.skip(n), prefix.len() as int, 0, -1i32, m.tim, Seq::empty(), flags);
    TreeModel {
        pending: m.pending.take(n).push(TreeEntry::Block { prefix, fp: m.tim.len() as u64 }),
        tim,
        index: m.index.insert(index_place(m.index, prefix), (prefix, group_output(subs))),
    }
}

/// How many of the top entries share `prefix`.
pub open spec fn open_count(pending: Seq<TreeEntry>, prefix: Seq<u8>) -> nat
    decreases pending.len(),
{
    if pending.len() > 0 && starts_with(entry_key(pending.last()), prefix) {
        1 + open_count(pending.drop_last(), prefix)
    } else {
        0
    }
}

/// The prefixes of `last` of the lengths `len` down to `shared + 1` are left:
/// where enough entries share one, they become blocks.
pub open spec fn prefixes_closed(m: TreeModel, last: Seq<u8>, len: int, shared: int, flags: FieldFlags) -> TreeModel
    decreases len,
{
    if len <= shared || len <= 0 {
        m
    } else {
        let prefix = last.take(len);
        let n = open_count(m.pending, prefix) as int;
        prefixes_closed(if n >= MIN_BLOCK { blocks_written(m, prefix, n, flags) } else { m }, last, len - 1, shared, flags)
    }
}

/// A term comes behind the term `last`.
pub open spec fn term_pushed(m: TreeModel, last: Seq<u8>, e: TreeEntry, flags: FieldFlags) -> TreeModel {
    let c = prefixes_closed(m, last, last.len() as int, common_prefix(last, entry_key(e)) as int, flags);
    TreeModel { pending: c.pending.push(e), ..c }
}

/// No more terms come: all prefixes are left, and what is on the stack
/// becomes the root's blocks.
pub open spec fn tree_finished(m: TreeModel, last: Seq<u8>, flags: FieldFlags) -> TreeModel {
    let c = prefixes_closed(m, last, last.len() as int, 0, flags);
    blocks_written(c, Seq::empty(), c.pending.len() as int, flags)
}

// ---------------------------------------------------------------------------
// Order of the index
// ---------------------------------------------------------------------------

pub open spec fn keys_sorted(index: Seq<(Seq<u8>, Seq<u8>)>) -> bool {
    forall|i: int, j: int| 0 <= i < j < index.len() ==> lex_less((#[trigger] index[i]).0, (#[trigger] index[j]).0)
}

/// A key that terms from `last` on do not start with: it is less at a byte
/// that both have.
pub open spec fn passed(key: Seq<u8>, last: Seq<u8>) -> bool {
    exists|k: int| passed_at(key, last, k)
}

pub open spec fn passed_at(key: Seq<u8>, last: Seq<u8>, k: int) -> bool {
    &&& 0 <= k < key.len()
    &&& k < last.len()
    &&& key.take(k) == last.take(k)
    &&& key[k] < last[k]
}

/// A key of the index while the prefixes of `last` longer than `len` are
/// being left.
pub open spec fn key_left(key: Seq<u8>, last: Seq<u8>, len: int) -> bool {
    passed(key, last) || (starts_with(last, key) && key.len() > len)
}

pub open spec fn keys_left(index: Seq<(Seq<u8>, Seq<u8>)>, last: Seq<u8>, len: int) -> bool {
    forall|i: int| 0 <= i < index.len() ==> key_left((#[trigger] index[i]).0, last, len)
}

proof fn lemma_starts_less(key: Seq<u8>, prefix: Seq<u8>)
    requires
        starts_with(key, prefix),
        key != prefix,
    ensures
        lex_less(prefix, key),
{
    let n = prefix.len() as int;
    assert(crate::bytes::is_common_prefix(prefix, key, n)) by {
        assert forall|i: int| 0 <= i < n implies prefix[i] == key[i] by {
            assert(key.take(n)[i] == key[i]);
        }
    }
    crate::bytes::lemma_common_prefix_unique(prefix, key, n);
    if key.len() == n {
        assert(key.take(n) =~= key);
    }
}

/// Against a prefix of `last` that is left next, a key of the index is less,
/// or an extension.
proof fn lemma_key_against(key: Seq<u8>, last: Seq<u8>, len: int)
    requires
        0 <= len <= last.len(),
        key_left(key, last, len),
    ensures
        starts_with(key, last.take(len)) ==> key != last.take(len),
        !starts_with(key, last.take(len)) ==> lex_less(key, last.take(len)),
{
    let q = last.take(len);
    if passed(key, last) {
        let k = choose|k: int| passed_at(key, last, k);
        if k < len {
            assert(crate::bytes::is_common_prefix(key, q, k)) by {
                assert forall|i: int| 0 <= i < k implies key[i] == q[i] by {
                    assert(key.take(k)[i] == last.take(k)[i]);
                }
            }
            crate::bytes::lemma_common_prefix_unique(key, q, k);
            if starts_with(key, q) {
                assert(key.take(len)[k] == q[k]);
            }
        } else {
            assert(key.take(len) =~= q) by {
                assert forall|i: int| 0 <= i < len implies key[i] == last[i] by {
                    assert(key.take(k)[i] == last.take(k)[i]);
                }
            }
        }
    } else {
        assert(key.take(len) =~= q) by {
            assert forall|i: int| 0 <= i < len implies key[i] == last[i] by {
                assert(last.take(key.len() as int)[i] == key[i]);
            }
        }
    }
}

pub(crate) proof fn lemma_index_place(index: Seq<(Seq<u8>, Seq<u8>)>, key: Seq<u8>)
    ensures
        0 <= index_place(index, key) <= index.len(),
        forall|i: int| index_place(index, key) <= i < index.len() ==> starts_with((#[trigger] index[i]).0, key),
        index_place(index, key) > 0 ==> !starts_with(index[index_place(index, key) - 1].0, key),
    decreases index.len(),
{
    if index.len() > 0 && starts_with(index.last().0, key) {
        let d = index.drop_last();
        lemma_index_place(d, key);
        assert forall|i: int| index_place(index, key) <= i < index.len() implies starts_with((#[trigger] index[i]).0, key) by {
            if i < d.len() {
                assert(starts_with(d[i].0, key));
            }
        }
    }
}

/// The index stays sorted when a prefix is left.
proof fn lemma_indexed(index: Seq<(Seq<u8>, Seq<u8>)>, last: Seq<u8>, len: int, out: Seq<u8>)
    requires
        keys_sorted(index),
        0 <= len <= last.len(),
        keys_left(index, last, len),
    ensures
        keys_sorted(index.insert(index_place(index, last.take(len)), (last.take(len), out))),
        keys_left(index.insert(index_place(index, last.take(len)), (last.take(len), out)), last, len - 1),
{
    let q = last.take(len);
    let p = index_place(index, q);
    lemma_index_place(index, q);
    let r = index.insert(p, (q, out));
    assert forall|i: int| 0 <= i < p implies lex_less((#[trigger] index[i]).0, q) by {
        assert(key_left(index[p - 1].0, last, len));
        lemma_key_against(index[p - 1].0, last, len);
        if i < p - 1 {
            assert(lex_less(index[i].0, index[p - 1].0));
            crate::bytes::lemma_lex_order(index[i].0, index[p - 1].0, q);
        }
    }
    assert forall|i: int| p <= i < index.len() implies lex_less(q, (#[trigger] index[i]).0) by {
        assert(key_left(index[i].0, last, len));
        lemma_key_against(index[i].0, last, len);
        lemma_starts_less(index[i].0, q);
    }
    assert forall|i: int, j: int| 0 <= i < j < r.len() implies lex_less((#[trigger] r[i]).0, (#[trigger] r[j]).0) by {
        if j < p {
            assert(lex_less(index[i].0, index[j].0));
        } else if j == p {
            assert(lex_less(index[i].0, q));
        } else if i < p {
            assert(lex_less(index[i].0, index[j - 1].0));
        } else if i == p {
            assert(lex_less(q, index[j - 1].0));
        } else {
            assert(lex_less(index[i - 1].0, index[j - 1].0));
        }
    }
    assert forall|i: int| 0 <= i < r.len() implies key_left((#[trigger] r[i]).0, last, len - 1) by {
        if i < p {
            assert(key_left(index[i].0, last, len));
        } else if i > p {
            assert(key_left(index[i - 1].0, last, len));
        } else {
            assert(last.take(q.len() as int) =~= q);
        }
    }
}

/// What terms from `last` on pass, terms from the next term on pass.
proof fn lemma_passed_on(key: Seq<u8>, last: Seq<u8>, next: Seq<u8>)
    requires
        lex_less(last, next),
        key_left(key, last, common_prefix(last, next) as int),
    ensures
        passed(key, next),
{
    crate::bytes::lemma_common_prefix(last, next);
    let c = common_prefix(last, next) as int;
    if passed(key, last) {
        let k = choose|k: int| passed_at(key, last, k);
        let at = if k <= c { k } else { c };
        assert(key.take(at) =~= next.take(at)) by {
            assert forall|i: int| 0 <= i < at implies key[i] == next[i] by {
                assert(key.take(k)[i] == last.take(k)[i]);
                assert(last[i] == next[i]);
            }
        }
        if k > c {
            assert(key.take(k)[c] == last.take(k)[c]);
        }
        assert(passed_at(key, next, at));
    } else {
        assert(key.take(c) =~= next.take(c)) by {
            assert forall|i: int| 0 <= i < c implies key[i] == next[i] by {
                assert(last.take(key.len() as int)[i] == key[i]);
                assert(last[i] == next[i]);
            }
        }
        assert(last.take(key.len() as int)[c] == key[c]);
        assert(passed_at(key, next, c));
    }
}

// ---------------------------------------------------------------------------
// The stack
// ---------------------------------------------------------------------------

pub(crate) proof fn lemma_open_count(pending: Seq<TreeEntry>, prefix: Seq<u8>)
    ensures
        open_count(pending, prefix) <= pending.len(),
        forall|i: int| pending.len() - open_count(pending, prefix) <= i < pending.len() ==> starts_with(entry_key(#[trigger] pending[i]), prefix),
    decreases pending.len(),
{
    if pending.len() > 0 && starts_with(entry_key(pending.last()), prefix) {
        let d = pending.drop_last();
        lemma_open_count(d, prefix);
        assert forall|i: int| pending.len() - open_count(pending, prefix) <= i < pending.len() implies starts_with(entry_key(#[trigger] pending[i]), prefix) by {
            if i < d.len() {
                assert(starts_with(entry_key(d[i]), prefix));
            }
        }
    }
}

/// Entries on top that all share the prefix count.
proof fn lemma_open_above(pending: Seq<TreeEntry>, prefix: Seq<u8>, n: int)
    requires
        0 <= n <= pending.len(),
        forall|i: int| n <= i < pending.len() ==> starts_with(entry_key(#[trigger] pending[i]), prefix),
    ensures
        open_count(pending, prefix) == pending.len() - n + open_count(pending.take(n), prefix),
    decreases pending.len() - n,
{
    if n < pending.len() {
        assert(starts_with(entry_key(pending[pending.len() - 1]), prefix));
        let d = pending.drop_last();
        assert forall|i: int| n <= i < d.len() implies starts_with(entry_key(#[trigger] d[i]), prefix) by {
            assert(starts_with(entry_key(pending[i]), prefix));
        }
        lemma_open_above(d, prefix, n);
        assert(d.take(n) =~= pending.take(n));
    } else {
        assert(pending.take(n) =~= pending);
    }
}

proof fn lemma_prefix_of_prefix(key: Seq<u8>, p: Seq<u8>, j: int)
    requires
        starts_with(key, p),
        0 <= j <= p.len(),
    ensures
        starts_with(key, p.take(j)),
{
    assert(key.take(j) =~= p.take(j)) by {
        assert forall|i: int| 0 <= i < j implies key[i] == p[i] by {
            assert(key.take(p.len() as int)[i] == p[i]);
        }
    }
}

/// Writing blocks of one prefix moves the top for every shorter prefix alike.
proof fn lemma_open_kept(m: TreeModel, prefix: Seq<u8>, j: int, flags: FieldFlags)
    requires
        0 <= j <= prefix.len(),
    ensures
        ({
            let n = open_count(m.pending, prefix) as int;
            let u = blocks_written(m, prefix, n, flags);
            let q = prefix.take(j);
            &&& n <= open_count(m.pending, q)
            &&& u.pending.len() == m.pending.len() - n + 1
            &&& u.pending.len() - open_count(u.pending, q) == m.pending.len() - open_count(m.pending, q)
        }),
{
    let n = open_count(m.pending, prefix) as int;
    let at = m.pending.len() - n;
    let u = blocks_written(m, prefix, n, flags);
    let q = prefix.take(j);
    lemma_open_count(m.pending, prefix);
    assert forall|i: int| at <= i < m.pending.len() implies starts_with(entry_key(#[trigger] m.pending[i]), q) by {
        lemma_prefix_of_prefix(entry_key(m.pending[i]), prefix, j);
    }
    lemma_open_above(m.pending, q, at);
    assert(prefix.take(prefix.len() as int) =~= prefix);
    lemma_prefix_of_prefix(prefix, prefix, j);
    assert forall|i: int| at <= i < u.pending.len() implies starts_with(entry_key(#[trigger] u.pending[i]), q) by {
    }
    lemma_open_above(u.pending, q, at);
    assert(u.pending.take(at) =~= m.pending.take(at));
}

pub(crate) proof fn lemma_next_cut(entries: Seq<TreeEntry>, len: int, start: int, i: int)
    requires
        0 <= start < i <= entries.len(),
    ensures
        i <= next_cut(entries, len, start, i) <= entries.len(),
    decreases entries.len() - i,
{
    if i < entries.len() {
        lemma_next_cut(entries, len, start, i + 1);
    }
}

// ---------------------------------------------------------------------------
// Writing the tree
// ---------------------------------------------------------------------------

fn is_prefix(key: &Vec<u8>, prefix: &[u8]) -> (r: bool)
    ensures
        r == starts_with(key@, prefix@),
{
    if key.len() < prefix.len() {
        return false;
    }
    let head = &key.as_slice()[0..prefix.len()];
    assert(head@ =~= key@.take(prefix@.len() as int));
    crate::bytes::bytes_equal(head, prefix)
}

/// The byte behind the prefix of length `len`; -1 where there is none.
fn lead_of(e: &Pending, len: usize) -> (r: i32)
    ensures
        r == lead(e@, len as int),
        -1 <= r <= 255,
{
    match e {
        Pending::Term { bytes, .. } => if bytes.len() > len {
            bytes[len] as i32
        } else {
            -1
        },
        Pending::Block { prefix, .. } => if prefix.len() > len {
            prefix[len] as i32
        } else {
            -1
        },
    }
}

/// Where the block that begins at `start` ends.
fn find_cut(pending: &Vec<Pending>, base: usize, len: usize, start: usize) -> (r: usize)
    requires
        base <= start < pending@.len(),
    ensures
        start < r <= pending@.len(),
        r - base == next_cut(stack_view(pending@).skip(base as int), len as int, start - base, start - base + 1),
{
    let ghost entries = stack_view(pending@).skip(base as int);
    let end: usize = pending.len();
    let mut i: usize = start + 1;
    while i < end
        invariant
            base <= start < i <= end == pending@.len(),
            entries == stack_view(pending@).skip(base as int),
            next_cut(entries, len as int, start - base, start - base + 1) == next_cut(entries, len as int, start - base, i - base),
        decreases end - i,
    {
        let here: i32 = lead_of(&pending[i], len);
        let prev: i32 = lead_of(&pending[i - 1], len);
        assert(entries[i - base] == pending@[i as int]@);
        assert(entries[i - base - 1] == pending@[i - 1]@);
        if i - start >= MIN_BLOCK && end - start > MAX_BLOCK && here != prev {
            return i;
        }
        i = i + 1;
    }
    i
}

/// Whether there are terms, and whether there are blocks.
fn kinds(pending: &Vec<Pending>, start: usize, end: usize) -> (r: (bool, bool))
    requires
        start <= end <= pending@.len(),
    ensures
        r.0 == any_terms(stack_view(pending@).subrange(start as int, end as int)),
        r.1 == any_blocks(stack_view(pending@).subrange(start as int, end as int)),
{
    let ghost entries = stack_view(pending@).subrange(start as int, end as int);
    let mut terms: bool = false;
    let mut blocks: bool = false;
    let mut i: usize = start;
    while i < end
        invariant
            start <= i <= end <= pending@.len(),
            entries == stack_view(pending@).subrange(start as int, end as int),
            terms == exists|k: int| 0 <= k < i - start && (#[trigger] entries[k]) is Term,
            blocks == exists|k: int| 0 <= k < i - start && (#[trigger] entries[k]) is Block,
        decreases end - i,
    {
        assert(entries[i - start] == pending@[i as int]@);
        match &pending[i] {
            Pending::Term { .. } => {
                terms = true;
                assert(entries[i - start] is Term);
            },
            Pending::Block { .. } => {
                blocks = true;
                assert(entries[i - start] is Block);
            },
        }
        i = i + 1;
    }
    (terms, blocks)
}

/// What the index says of a group.
fn output_of(subs: &Vec<SubBlock>) -> (r: Result<Vec<u8>, Error>)
    requires
        subs@.len() > 0,
    ensures
        r is Ok,
        r->Ok_0@ == group_output(subs@),
{
    let mut out = IndexOutput::in_memory();
    let first = subs[0];
    let more: bool = subs.len() > 1;
    let code: u128 = 4 * first.fp as u128 + (if first.has_terms { 2u128 } else { 0 }) + if more { 1u128 } else { 0 };
    write_msb_groups(&mut out, (code % 0x1_0000_0000_0000_0000) as u64)?;
    let ghost head = out.written();
    if more {
        put_vint(&mut out, subs.len() as u128 - 1)?;
        let ghost base = out.written();
        let mut i: usize = 1;
        assert(base + floor_bytes(subs@, 1) =~= base);
        while i < subs.len()
            invariant
                1 <= i <= subs@.len(),
                first == subs@[0],
                out.written() == base + floor_bytes(subs@, i as int),
            decreases subs@.len() - i,
        {
            let ghost before = out.written();
            let sub = subs[i];
            out.write_byte(if sub.lead < 0 { 255 } else { (sub.lead % 256) as u8 })?;
            put_marked_distance(&mut out, sub.fp, first.fp, sub.has_terms)?;
            assert(out.written() =~= base + floor_bytes(subs@, i + 1));
            i = i + 1;
        }
        assert(out.written() =~= group_output(subs@));
    } else {
        assert(out.written() =~= group_output(subs@));
    }
    Ok(out.into_bytes())
}

/// The stack of terms and blocks, and the index of blocks.
pub struct TermTree {
    pending: Vec<Pending>,
    prefix_starts: Vec<usize>,
    last_term: Vec<u8>,
    index: Vec<(Vec<u8>, Vec<u8>)>,
    flags: FieldFlags,
}

/// The view of an index.
pub open spec fn index_view(index: Seq<(Vec<u8>, Vec<u8>)>) -> Seq<(Seq<u8>, Seq<u8>)> {
    index.map_values(|e: (Vec<u8>, Vec<u8>)| (e.0@, e.1@))
}

/// Where the entries that share the prefixes of `last` up to the length `len`
/// begin.
pub open spec fn starts_ok(starts: Seq<usize>, pending: Seq<TreeEntry>, last: Seq<u8>, len: int) -> bool {
    &&& starts.len() >= len
    &&& forall|i: int| 0 <= i < len ==> #[trigger] starts[i] + open_count(pending, last.take(i + 1)) == pending.len()
}

impl TermTree {
    /// The stack.
    pub closed spec fn pending(&self) -> Seq<TreeEntry> {
        stack_view(self.pending@)
    }

    /// The index.
    pub closed spec fn index(&self) -> Seq<(Seq<u8>, Seq<u8>)> {
        index_view(self.index@)
    }

    /// The last term.
    pub closed spec fn last(&self) -> Seq<u8> {
        self.last_term@
    }

    pub closed spec fn flags(&self) -> FieldFlags {
        self.flags
    }

    /// With the file of blocks.
    pub open spec fn model(&self, tim: Seq<u8>) -> TreeModel {
        TreeModel { pending: self.pending(), tim, index: self.index() }
    }

    /// The stack's top belongs to the last term, and the index is in order.
    pub closed spec fn wf(&self) -> bool {
        &&& starts_ok(self.prefix_starts@, self.pending(), self.last(), self.last().len() as int)
        &&& valid_entries(self.pending(), 0)
        &&& self.pending().len() > 0 ==> starts_with(self.last(), entry_key(self.pending().last()))
        &&& keys_sorted(self.index())
        &&& keys_left(self.index(), self.last(), self.last().len() as int)
        &&& self.pending().len() == 0 ==> self.index().len() == 0
    }

    pub fn new(flags: FieldFlags) -> (r: Self)
        ensures
            r.wf(),
            r.pending() == Seq::<TreeEntry>::empty(),
            r.index() == Seq::<(Seq<u8>, Seq<u8>)>::empty(),
            r.last() == Seq::<u8>::empty(),
            r.flags() == flags,
    {
        let r = TermTree { pending: Vec::new(), prefix_starts: Vec::new(), last_term: Vec::new(), index: Vec::new(), flags };
        assert(r.pending() =~= Seq::empty());
        assert(r.index() =~= Seq::empty());
        assert(r.last() =~= Seq::empty());
        r
    }

    /// Puts a prefix into the index.
    fn insert_index(&mut self, prefix: Vec<u8>, output: Vec<u8>)
        ensures
            final(self).index() == old(self).index().insert(index_place(old(self).index(), prefix@), (prefix@, output@)),
            final(self).pending@ == old(self).pending@,
            final(self).prefix_starts@ == old(self).prefix_starts@,
            final(self).last_term@ == old(self).last_term@,
            final(self).flags == old(self).flags,
    {
        let ghost index = self.index();
        let mut at: usize = self.index.len();
        assert(index.take(at as int) =~= index);
        while at > 0 && is_prefix(&self.index[at - 1].0, prefix.as_slice())
            invariant
                at <= self.index@.len(),
                index == self.index(),
                *self == *old(self),
                index_place(index, prefix@) == index_place(index.take(at as int), prefix@),
            decreases at,
        {
            assert(index.take(at as int).drop_last() =~= index.take(at - 1));
            assert(index.take(at as int).last() == index[at - 1]);
            at = at - 1;
        }
        proof {
            if at > 0 {
                assert(index.take(at as int).last() == index[at - 1]);
            }
        }
        let ghost e = (prefix@, output@);
        self.index.insert(at, (prefix, output));
        assert(self.index() =~= index.insert(at as int, e));
    }

    /// Makes blocks of the top `count` entries, which share the first `len`
    /// bytes of the last term.
    fn write_blocks(&mut self, len: usize, count: usize, tim_out: &mut ChecksumIndexOutput) -> (r: Result<(), Error>)
        requires
            0 < count <= old(self).pending().len() <= 0x7FFF_FFFF,
            len <= old(self).last().len(),
            valid_entries(old(self).pending(), 0),
            forall|i: int| old(self).pending().len() - count <= i < old(self).pending().len() ==> starts_with(
                entry_key(#[trigger] old(self).pending()[i]),
                old(self).last().take(len as int),
            ),
        ensures
            final(tim_out).since() == old(tim_out).since(),
            r is Ok,
            final(self).model(final(tim_out).written()) == blocks_written(
                old(self).model(old(tim_out).written()),
                old(self).last().take(len as int),
                count as int,
                old(self).flags(),
            ),
            final(self).last() == old(self).last(),
            final(self).flags() == old(self).flags(),
            final(self).prefix_starts@ == old(self).prefix_starts@,
            valid_entries(final(self).pending(), 0),
    {
        let end: usize = self.pending.len();
        let base: usize = end - count;
        let ghost all = self.pending();
        let ghost group = all.skip(base as int);
        let ghost tim = tim_out.written();
        let ghost flags = self.flags;
        let first_fp: u64 = tim_out.file_pointer();
        let mut subs: Vec<SubBlock> = Vec::new();
        let mut start: usize = base;
        let mut floor_lead: i32 = -1;
        let ghost whole = blocks_from(group, len as int, 0, -1i32, tim, Seq::empty(), flags);
        while start < end
            invariant
                tim_out.since() == old(tim_out).since(),
                base <= start <= end == all.len() <= 0x7FFF_FFFF,
                *self == *old(self),
                all == self.pending(),
                end == self.pending@.len(),
                group == all.skip(base as int),
                flags == self.flags,
                valid_entries(all, 0),
                forall|i: int| base <= i < end ==> starts_with(entry_key(#[trigger] all[i]), self.last().take(len as int)),
                len <= self.last().len(),
                whole == blocks_from(group, len as int, start - base, floor_lead, tim_out.written(), subs@, flags),
                start > base ==> subs@.len() > 0,
            decreases end - start,
        {
            let cut: usize = find_cut(&self.pending, base, len, start);
            let (has_terms, has_blocks) = kinds(&self.pending, start, cut);
            let ghost part = group.subrange(start - base, cut - base);
            proof {
                assert(part =~= all.subrange(start as int, cut as int));
                assert forall|i: int| 0 <= i < part.len() implies valid_entry(#[trigger] part[i], len as int) by {
                    assert(part[i] == all[start + i]);
                    assert(valid_entry(all[start + i], 0));
                    assert(starts_with(entry_key(all[start + i]), self.last().take(len as int)));
                }
            }
            let fp: u64 = tim_out.file_pointer();
            write_block(&self.pending, len, start, cut, !has_blocks, self.flags, tim_out)?;
            subs.push(SubBlock { fp, has_terms, lead: floor_lead });
            if cut < end {
                floor_lead = lead_of(&self.pending[cut], len);
                assert(group[cut - base] == self.pending@[cut as int]@);
            } else {
                proof {
                    floor_lead_unused(group, len as int, cut - base, tim_out.written(), subs@, flags, floor_lead, lead(group[cut - base], len as int) as i32);
                }
            }
            start = cut;
        }
        assert(whole == (tim_out.written(), subs@));
        let output = output_of(&subs)?;
        let prefix = copy_head(&self.last_term, len);
        let key = copy_head(&self.last_term, len);
        self.insert_index(key, output);
        self.pending.truncate(base);
        self.pending.push(Pending::Block { prefix, fp: first_fp });
        proof {
            assert(self.pending() =~= all.take(base as int).push(TreeEntry::Block { prefix: prefix@, fp: first_fp }));
            assert forall|i: int| 0 <= i < self.pending().len() implies valid_entry(#[trigger] self.pending()[i], 0) by {
                if i < base {
                    assert(valid_entry(all[i], 0));
                }
            }
        }
        Ok(())
    }
}

/// At the end of a group the lead byte makes no difference.
proof fn floor_lead_unused(entries: Seq<TreeEntry>, len: int, start: int, tim: Seq<u8>, subs: Seq<SubBlock>, flags: FieldFlags, a: i32, b: i32)
    requires
        start >= entries.len(),
    ensures
        blocks_from(entries, len, start, a, tim, subs, flags) == blocks_from(entries, len, start, b, tim, subs, flags),
{
}

fn copy_head(v: &Vec<u8>, n: usize) -> (r: Vec<u8>)
    requires
        n <= v@.len(),
    ensures
        r@ == v@.take(n as int),
{
    let mut out: Vec<u8> = Vec::new();
    push_all(&mut out, &v.as_slice()[0..n]);
    assert(out@ =~= v@.take(n as int));
    out
}

impl TermTree {
    /// Leaves the prefixes of the last term that the next one does not have.
    fn push_term_boundary(&mut self, term: &[u8], tim_out: &mut ChecksumIndexOutput) -> (r: Result<(), Error>)
        requires
            old(self).wf(),
            old(self).pending().len() <= 0x7FFF_FFFF,
        ensures
            final(tim_out).since() == old(tim_out).since(),
            r is Ok,
            final(self).model(final(tim_out).written()) == prefixes_closed(
                old(self).model(old(tim_out).written()),
                old(self).last(),
                old(self).last().len() as int,
                common_prefix(old(self).last(), term@) as int,
                old(self).flags(),
            ),
            final(self).last() == term@,
            final(self).flags() == old(self).flags(),
            starts_ok(final(self).prefix_starts@, final(self).pending(), term@, term@.len() as int),
            valid_entries(final(self).pending(), 0),
            final(self).pending().len() <= old(self).pending().len(),
            old(self).pending().len() > 0 ==> final(self).pending().len() > 0,
            keys_sorted(final(self).index()),
            keys_left(final(self).index(), old(self).last(), common_prefix(old(self).last(), term@) as int),
            old(self).pending().len() == 0 ==> final(self).index().len() == 0,
    {
        let ghost last = self.last();
        let ghost flags = self.flags;
        let shared: usize = bytes_difference(self.last_term.as_slice(), term);
        proof {
            crate::bytes::lemma_common_prefix(last, term@);
            assert(starts_with(last, last)) by {
                assert(last.take(last.len() as int) =~= last);
            }
        }
        let mut len: usize = self.last_term.len();
        let ghost whole = prefixes_closed(self.model(tim_out.written()), last, len as int, shared as int, flags);
        while len > shared
            invariant
                tim_out.since() == old(tim_out).since(),
                shared == common_prefix(last, term@),
                shared <= len <= last.len(),
                last == self.last(),
                flags == self.flags(),
                whole == prefixes_closed(self.model(tim_out.written()), last, len as int, shared as int, flags),
                starts_ok(self.prefix_starts@, self.pending(), last, len as int),
                valid_entries(self.pending(), 0),
                self.pending().len() <= old(self).pending().len() <= 0x7FFF_FFFF,
                old(self).pending().len() > 0 ==> self.pending().len() > 0,
                self.pending().len() > 0 ==> starts_with(last, entry_key(self.pending().last())),
                keys_sorted(self.index()),
                keys_left(self.index(), last, len as int),
                old(self).pending().len() == 0 ==> self.index().len() == 0 && self.pending().len() == 0,
            decreases len,
        {
            let ghost m = self.model(tim_out.written());
            let ghost prefix = last.take(len as int);
            proof {
                lemma_open_count(self.pending(), prefix);
                assert(self.prefix_starts@[len - 1] + open_count(self.pending(), last.take(len - 1 + 1)) == self.pending().len());
            }
            let top: usize = self.pending.len() - self.prefix_starts[len - 1];
            assert(top == open_count(self.pending(), prefix));
            if top >= MIN_BLOCK {
                let ghost starts = self.prefix_starts@;
                proof {
                    let subs = blocks_from(m.pending.skip(m.pending.len() - top), prefix.len() as int, 0, -1i32, m.tim, Seq::empty(), flags).1;
                    lemma_indexed(m.index, last, len as int, group_output(subs));
                }
                self.write_blocks(len, top, tim_out)?;
                proof {
                    assert forall|i: int| 0 <= i < len - 1 implies #[trigger] starts[i] + open_count(self.pending(), last.take(i + 1)) == self.pending().len() by {
                        lemma_open_kept(m, prefix, i + 1, flags);
                        assert(prefix.take(i + 1) =~= last.take(i + 1));
                        assert(starts[i] + open_count(m.pending, last.take(i + 1)) == m.pending.len());
                    }
                    lemma_open_kept(m, prefix, 0, flags);
                    assert(last.take(prefix.len() as int) =~= prefix);
                }
            } else {
                proof {
                    lemma_keys_left_shorter(self.index(), last, len as int);
                }
            }
            len = len - 1;
        }
        let n: usize = self.pending.len();
        proof {
            assert forall|i: int| shared <= i < term@.len() implies open_count(self.pending(), #[trigger] term@.take(i + 1)) == 0 by {
                if self.pending().len() > 0 {
                    lemma_not_shared(last, term@, entry_key(self.pending().last()), i);
                }
            }
            assert forall|i: int| 0 <= i < shared implies last.take(i + 1) == #[trigger] term@.take(i + 1) by {
                assert(last.take(i + 1) =~= term@.take(i + 1));
            }
        }
        let ghost starts = self.prefix_starts@;
        let mut starts_vec: Vec<usize> = Vec::new();
        let mut i: usize = 0;
        while i < term.len()
            invariant
                i <= term@.len(),
                shared <= term@.len(),
                starts == self.prefix_starts@,
                starts_ok(starts, self.pending(), last, shared as int),
                starts_vec@.len() == i,
                forall|k: int| 0 <= k < i && k < shared ==> #[trigger] starts_vec@[k] == starts[k],
                forall|k: int| shared <= k < i ==> #[trigger] starts_vec@[k] == n,
            decreases term@.len() - i,
        {
            if i < shared {
                starts_vec.push(self.prefix_starts[i]);
            } else {
                starts_vec.push(n);
            }
            i = i + 1;
        }
        let mut copy: Vec<u8> = Vec::new();
        push_all(&mut copy, term);
        assert(copy@ =~= term@);
        proof {
            assert forall|i: int| 0 <= i < term@.len() implies #[trigger] starts_vec@[i] + open_count(self.pending(), term@.take(i + 1)) == self.pending().len() by {
                if i < shared {
                    assert(starts[i] + open_count(self.pending(), last.take(i + 1)) == self.pending().len());
                    assert(last.take(i + 1) == term@.take(i + 1));
                } else {
                    assert(open_count(self.pending(), term@.take(i + 1)) == 0);
                }
            }
        }
        self.prefix_starts = starts_vec;
        self.last_term = copy;
        Ok(())
    }

    /// Adds a term, which comes behind all before it.
    pub fn push_term(&mut self, term: &[u8], state: TermState, doc_freq: u32, ttf: u64, tim_out: &mut ChecksumIndexOutput) -> (r: Result<(), Error>)
        requires
            old(self).wf(),
            old(self).pending().len() < 0x7FFF_FFFF,
            old(self).pending().len() > 0 ==> lex_less(old(self).last(), term@),
            valid_state(state),
        ensures
            final(tim_out).since() == old(tim_out).since(),
            r is Ok,
            final(self).wf(),
            final(self).model(final(tim_out).written()) == term_pushed(
                old(self).model(old(tim_out).written()),
                old(self).last(),
                (TreeEntry::Term { bytes: term@, state, doc_freq, ttf }),
                old(self).flags(),
            ),
            final(self).last() == term@,
            final(self).flags() == old(self).flags(),
            final(self).pending().len() <= old(self).pending().len() + 1,
            final(self).pending().len() > 0,
    {
        let ghost last = self.last();
        self.push_term_boundary(term, tim_out)?;
        let ghost before = self.pending();
        let ghost e = TreeEntry::Term { bytes: term@, state, doc_freq, ttf };
        let mut bytes: Vec<u8> = Vec::new();
        push_all(&mut bytes, term);
        assert(bytes@ =~= term@);
        self.pending.push(Pending::Term { bytes, state, doc_freq, ttf });
        proof {
            assert(self.pending() =~= before.push(e));
            assert(before.push(e).drop_last() =~= before);
            assert forall|i: int| 0 <= i < term@.len() implies #[trigger] self.prefix_starts@[i] + open_count(self.pending(), term@.take(i + 1)) == self.pending().len() by {
                assert(self.prefix_starts@[i] + open_count(before, term@.take(i + 1)) == before.len());
                assert(starts_with(term@, term@.take(i + 1))) by {
                    assert(term@.take(term@.take(i + 1).len() as int) =~= term@.take(i + 1));
                }
            }
            assert forall|i: int| 0 <= i < self.pending().len() implies valid_entry(#[trigger] self.pending()[i], 0) by {
                if i < before.len() {
                    assert(valid_entry(before[i], 0));
                }
            }
            assert(term@.take(term@.len() as int) =~= term@);
            assert forall|i: int| 0 <= i < self.index().len() implies key_left((#[trigger] self.index()[i]).0, term@, term@.len() as int) by {
                assert(key_left(self.index()[i].0, last, common_prefix(last, term@) as int));
                lemma_passed_on(self.index()[i].0, last, term@);
            }
        }
        Ok(())
    }

    /// The index.
    pub fn into_index(self) -> (r: Vec<(Vec<u8>, Vec<u8>)>)
        ensures
            index_view(r@) == self.index(),
    {
        self.index
    }

    /// No more terms come: writes what is left, down to the root.
    pub fn finish(&mut self, tim_out: &mut ChecksumIndexOutput) -> (r: Result<(), Error>)
        requires
            old(self).wf(),
            0 < old(self).pending().len() <= 0x7FFF_FFFF,
        ensures
            final(tim_out).since() == old(tim_out).since(),
            r is Ok,
            final(self).model(final(tim_out).written()) == tree_finished(old(self).model(old(tim_out).written()), old(self).last(), old(self).flags()),
            keys_sorted(final(self).index()),
            final(self).index().len() > 0,
            final(self).index()[0].0 == Seq::<u8>::empty(),
    {
        let ghost last = self.last();
        let none: Vec<u8> = Vec::new();
        assert(none@ =~= Seq::empty());
        proof {
            crate::bytes::lemma_common_prefix(last, none@);
        }
        self.push_term_boundary(none.as_slice(), tim_out)?;
        let count: usize = self.pending.len();
        let ghost m = self.model(tim_out.written());
        proof {
            assert(self.last().take(0) =~= Seq::empty());
            assert(last.take(0) =~= Seq::empty());
            assert forall|i: int| 0 <= i < count implies starts_with(entry_key(#[trigger] self.pending()[i]), self.last().take(0)) by {
                assert(entry_key(self.pending()[i]).take(0) =~= Seq::empty());
            }
            let subs = blocks_from(m.pending.skip(0), 0, 0, -1i32, m.tim, Seq::empty(), self.flags()).1;
            lemma_indexed(m.index, last, 0, group_output(subs));
            lemma_root_place(m.index);
        }
        self.write_blocks(0, count, tim_out)?;
        Ok(())
    }
}

pub(crate) proof fn lemma_root_place(index: Seq<(Seq<u8>, Seq<u8>)>)
    ensures
        index_place(index, Seq::empty()) == 0,
    decreases index.len(),
{
    if index.len() > 0 {
        assert(index.last().0.take(0) =~= Seq::empty());
        lemma_root_place(index.drop_last());
    }
}

proof fn lemma_keys_left_shorter(index: Seq<(Seq<u8>, Seq<u8>)>, last: Seq<u8>, len: int)
    requires
        keys_left(index, last, len),
    ensures
        keys_left(index, last, len - 1),
{
    assert forall|i: int| 0 <= i < index.len() implies key_left((#[trigger] index[i]).0, last, len - 1) by {
        assert(key_left(index[i].0, last, len));
    }
}

/// A prefix of the last term does not have what only the next term has.
proof fn lemma_not_shared(last: Seq<u8>, next: Seq<u8>, key: Seq<u8>, i: int)
    requires
        starts_with(last, key),
        common_prefix(last, next) <= i < next.len(),
    ensures
        !starts_with(key, next.take(i + 1)),
{
    crate::bytes::lemma_common_prefix(last, next);
    let c = common_prefix(last, next) as int;
    if starts_with(key, next.take(i + 1)) {
        assert(key.take(i + 1)[c] == next.take(i + 1)[c]);
        assert(last.take(key.len() as int)[c] == key[c]);
    }
}

} // verus!
