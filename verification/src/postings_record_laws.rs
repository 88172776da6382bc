//! The record of a field says what was written to the field.

use crate::block_tree::FieldFlags;
use crate::bytes::{holds_at, law_vint_round_trip, law_vlong_round_trip, lemma_holds_concat, take_at, vint_at, vint_bytes, vint_of, vlong_at, vlong_of};
use crate::error::ErrorKind;
use crate::fst::metadata_at;
use crate::fst_compiler::{law_metadata_round_trip, metadata_bytes};
use crate::num::spec_to_u32;
use crate::positions::freq_sum;
use crate::postings::{field_record, field_started, term_written, FieldModel, FstImage, WriterModel};
use crate::postings_laws::{terms_written, TermInput};
use vstd::prelude::*;

verus! {

/// The documents of the first `n` terms, each counted as often as it is in one.
pub open spec fn all_docs(terms: Seq<TermInput>, n: int) -> int
    decreases n,
{
    if n <= 0 {
        0
    } else {
        all_docs(terms, n - 1) + terms[n - 1].docs.len()
    }
}

/// How often the first `n` terms occur.
pub open spec fn all_occurrences(terms: Seq<TermInput>, n: int) -> int
    decreases n,
{
    if n <= 0 {
        0
    } else {
        all_occurrences(terms, n - 1) + freq_sum(terms[n - 1].freqs, terms[n - 1].freqs.len() as int)
    }
}

/// A field that was started and got its terms knows how many they are, how many
/// documents and occurrences they have together, and the first and the last of
/// them, whatever the terms are.
pub proof fn law_field_counts(m: WriterModel, number: i32, flags: FieldFlags, doc_count: u32, id: Seq<u8>, terms: Seq<TermInput>)
    ensures
        terms_written(field_started(m, number, flags, doc_count, id), terms, terms.len() as int).field matches Some(f) && ({
            let n = terms.len() as int;
            &&& f.number == number && f.flags == flags && f.doc_count == doc_count
            &&& f.num_terms == n
            &&& (forall|i: int| 0 <= i < n ==> (#[trigger] terms[i]).docs.len() <= u64::MAX) ==> f.sum_doc_freq == all_docs(terms, n) % 0x1_0000_0000_0000_0000
            &&& f.sum_total_term_freq == all_occurrences(terms, n) % 0x1_0000_0000_0000_0000
            &&& n > 0 ==> f.min_term == terms[0].term && f.max_term == terms[n - 1].term
        }),
{
    lemma_counts(m, number, flags, doc_count, id, terms, terms.len() as int);
}

proof fn lemma_counts(m: WriterModel, number: i32, flags: FieldFlags, doc_count: u32, id: Seq<u8>, terms: Seq<TermInput>, n: int)
    requires
        0 <= n <= terms.len(),
    ensures
        terms_written(field_started(m, number, flags, doc_count, id), terms, n).field matches Some(f) && ({
            &&& f.number == number && f.flags == flags && f.doc_count == doc_count
            &&& f.num_terms == n
            &&& (forall|i: int| 0 <= i < n ==> (#[trigger] terms[i]).docs.len() <= u64::MAX) ==> f.sum_doc_freq == all_docs(terms, n) % 0x1_0000_0000_0000_0000
            &&& f.sum_total_term_freq == all_occurrences(terms, n) % 0x1_0000_0000_0000_0000
            &&& n > 0 ==> f.min_term == terms[0].term && f.max_term == terms[n - 1].term
        }),
    decreases n,
{
    if n > 0 {
        lemma_counts(m, number, flags, doc_count, id, terms, n - 1);
        lemma_one_more(terms_written(field_started(m, number, flags, doc_count, id), terms, n - 1), terms[n - 1]);
        lemma_wrap_sum(all_docs(terms, n - 1), terms[n - 1].docs.len() as int);
        lemma_wrap_sum(all_occurrences(terms, n - 1), freq_sum(terms[n - 1].freqs, terms[n - 1].freqs.len() as int) as int);
    }
}

/// What one more term adds to a field.
proof fn lemma_one_more(m: WriterModel, t: TermInput)
    requires
        m.field is Some,
    ensures
        term_written(m, t.term, t.docs, t.freqs, t.positions).field matches Some(f) && ({
            let g = m.field->Some_0;
            &&& f.number == g.number && f.flags == g.flags && f.doc_count == g.doc_count
            &&& f.num_terms == g.num_terms + 1
            &&& t.docs.len() <= u64::MAX ==> f.sum_doc_freq == (g.sum_doc_freq + t.docs.len()) % 0x1_0000_0000_0000_0000
            &&& f.sum_total_term_freq == (g.sum_total_term_freq + freq_sum(t.freqs, t.freqs.len() as int) % 0x1_0000_0000_0000_0000) % 0x1_0000_0000_0000_0000
            &&& f.min_term == if g.num_terms == 0 { t.term } else { g.min_term }
            &&& f.max_term == t.term
        }),
{
}

proof fn lemma_wrap_sum(a: int, b: int)
    ensures
        (a % 0x1_0000_0000_0000_0000 + b % 0x1_0000_0000_0000_0000) % 0x1_0000_0000_0000_0000 == (a + b) % 0x1_0000_0000_0000_0000,
        (a % 0x1_0000_0000_0000_0000 + b) % 0x1_0000_0000_0000_0000 == (a + b) % 0x1_0000_0000_0000_0000,
{
    vstd::arithmetic::div_mod::lemma_add_mod_noop(a, b, 0x1_0000_0000_0000_0000);
    vstd::arithmetic::div_mod::lemma_add_mod_noop_right(b, a, 0x1_0000_0000_0000_0000);
}

/// What is read of a field's record: its number, its size, the output of the
/// root, the sums, the number of documents, the least and the greatest term,
/// where its index begins, and of the index the start, the length and the output
/// of the empty input.
pub struct RecordSeen {
    pub number: i32,
    pub num_terms: int,
    pub root: Seq<u8>,
    pub sum_total_term_freq: Option<int>,
    pub sum_doc_freq: int,
    pub doc_count: int,
    pub min_term: Seq<u8>,
    pub max_term: Seq<u8>,
    pub index_start: int,
    pub index: (u64, u64, Option<Seq<u8>>),
}

/// A byte string with its length before it.
#[verifier::opaque]
pub open spec fn counted_at(s: Seq<u8>, p: int) -> Result<(Seq<u8>, int), ErrorKind> {
    match vint_at(s, p) {
        Ok((n, q)) => take_at(s, q, spec_to_u32(n) as int),
        Err(k) => Err(k),
    }
}

/// The begin of a field's record: number, size, the root's output, and, with
/// frequencies, how often its terms occur.
#[verifier::opaque]
pub open spec fn front_at(s: Seq<u8>, p: int, has_freqs: bool) -> Result<((i32, int, Seq<u8>, Option<int>), int), ErrorKind> {
    match vint_at(s, p) {
        Ok((number, p1)) => match vlong_at(s, p1) {
            Ok((num_terms, p2)) => match counted_at(s, p2) {
                Ok((root, p3)) => if has_freqs {
                    match vlong_at(s, p3) {
                        Ok((v, p4)) => Ok(((number, num_terms as int, root, Some(v as int)), p4)),
                        Err(k) => Err(k),
                    }
                } else {
                    Ok(((number, num_terms as int, root, None), p3))
                },
                Err(k) => Err(k),
            },
            Err(k) => Err(k),
        },
        Err(k) => Err(k),
    }
}

/// What comes behind: two counts of documents, the least and the greatest term.
#[verifier::opaque]
pub open spec fn middle_at(s: Seq<u8>, p: int) -> Result<((int, int, Seq<u8>, Seq<u8>), int), ErrorKind> {
    match vlong_at(s, p) {
        Ok((docs, p1)) => match vint_at(s, p1) {
            Ok((count, p2)) => match counted_at(s, p2) {
                Ok((least, p3)) => match counted_at(s, p3) {
                    Ok((most, p4)) => Ok(((docs as int, spec_to_u32(count) as int, least, most), p4)),
                    Err(k) => Err(k),
                },
                Err(k) => Err(k),
            },
            Err(k) => Err(k),
        },
        Err(k) => Err(k),
    }
}

/// The record at `p` of a field with or without frequencies.
pub open spec fn record_at(s: Seq<u8>, p: int, has_freqs: bool) -> Result<(RecordSeen, int), ErrorKind> {
    match front_at(s, p, has_freqs) {
        Ok(((number, num_terms, root, sum_total_term_freq), q)) => match middle_at(s, q) {
            Ok(((sum_doc_freq, doc_count, min_term, max_term), e)) => match vlong_at(s, e) {
                Ok((start, f)) => match metadata_at(s, f) {
                    Ok((index, z)) => Ok(
                        (RecordSeen { number, num_terms, root, sum_total_term_freq, sum_doc_freq, doc_count, min_term, max_term, index_start: start as int, index }, z),
                    ),
                    Err(k) => Err(k),
                },
                Err(k) => Err(k),
            },
            Err(k) => Err(k),
        },
        Err(k) => Err(k),
    }
}

/// What should be read of a field.
pub open spec fn record_of(f: FieldModel, fst: FstImage, index_start: int) -> RecordSeen {
    RecordSeen {
        number: f.number,
        num_terms: f.num_terms as int,
        root: fst.root,
        sum_total_term_freq: if f.flags.has_freqs {
            Some(f.sum_total_term_freq as int)
        } else {
            None
        },
        sum_doc_freq: f.sum_doc_freq as int,
        doc_count: f.doc_count as int,
        min_term: f.min_term,
        max_term: f.max_term,
        index_start,
        index: (fst.start, fst.bytes.len() as u64, Some(fst.root)),
    }
}

proof fn lemma_counted_read(s: Seq<u8>, p: int, b: Seq<u8>)
    requires
        b.len() <= i32::MAX,
        holds_at(s, p, vint_of(b.len() as int) + b),
    ensures
        counted_at(s, p) == Ok::<(Seq<u8>, int), ErrorKind>((b, p + (vint_of(b.len() as int) + b).len())),
{
    reveal(counted_at);
    let n = vint_of(b.len() as int);
    lemma_holds_concat(s, p, n, b);
    law_vint_round_trip(s, p, b.len() as i32);
}

proof fn lemma_front_read(s: Seq<u8>, p: int, number: i32, num_terms: nat, root: Seq<u8>, sum: Option<u64>)
    requires
        num_terms <= i64::MAX,
        root.len() <= i32::MAX,
        sum is Some ==> sum->Some_0 <= i64::MAX,
        holds_at(s, p, front_bytes(number, num_terms, root, sum)),
    ensures
        front_at(s, p, sum is Some) == Ok::<((i32, int, Seq<u8>, Option<int>), int), ErrorKind>(
            (
                (
                    number,
                    num_terms as int,
                    root,
                    match sum {
                        Some(x) => Some(x as int),
                        None => None,
                    },
                ),
                p + front_bytes(number, num_terms, root, sum).len(),
            ),
        ),
{
    reveal(front_at);
    let a = vint_bytes(number);
    let b = vlong_of(num_terms as int);
    let c = vint_of(root.len() as int) + root;
    let d = match sum {
        Some(x) => vlong_of(x as int),
        None => Seq::empty(),
    };
    lemma_holds_concat(s, p, a + b + c, d);
    lemma_holds_concat(s, p, a + b, c);
    lemma_holds_concat(s, p, a, b);
    law_vint_round_trip(s, p, number);
    let p1 = p + a.len();
    law_vlong_round_trip(s, p1, num_terms as i64);
    lemma_counted_read(s, p1 + b.len(), root);
    if sum is Some {
        law_vlong_round_trip(s, p1 + b.len() + c.len(), sum->Some_0 as i64);
    }
}

spec fn front_bytes(number: i32, num_terms: nat, root: Seq<u8>, sum: Option<u64>) -> Seq<u8> {
    vint_bytes(number) + vlong_of(num_terms as int) + (vint_of(root.len() as int) + root) + match sum {
        Some(x) => vlong_of(x as int),
        None => Seq::empty(),
    }
}

spec fn middle_bytes(docs: u64, count: u32, least: Seq<u8>, most: Seq<u8>) -> Seq<u8> {
    vlong_of(docs as int) + vint_of(count as int) + (vint_of(least.len() as int) + least) + (vint_of(most.len() as int) + most)
}

#[verifier::rlimit(40)]
proof fn lemma_middle_read(s: Seq<u8>, p: int, docs: u64, count: u32, least: Seq<u8>, most: Seq<u8>)
    requires
        docs <= i64::MAX,
        least.len() <= i32::MAX,
        most.len() <= i32::MAX,
        holds_at(s, p, middle_bytes(docs, count, least, most)),
    ensures
        middle_at(s, p) == Ok::<((int, int, Seq<u8>, Seq<u8>), int), ErrorKind>(((docs as int, count as int, least, most), p + middle_bytes(docs, count, least, most).len())),
{
    reveal(middle_at);
    let a = vlong_of(docs as int);
    let b = vint_of(count as int);
    let c = vint_of(least.len() as int) + least;
    let d = vint_of(most.len() as int) + most;
    lemma_holds_concat(s, p, a + b + c, d);
    lemma_holds_concat(s, p, a + b, c);
    lemma_holds_concat(s, p, a, b);
    law_vlong_round_trip(s, p, docs as i64);
    let p1 = p + a.len();
    assert(vlong_at(s, p) == Ok::<(i64, int), ErrorKind>((docs as i64, p1)));
    crate::doc_ids::lemma_read_u32(s, p1, count);
    let p2 = p1 + b.len();
    assert(vint_at(s, p1)->Ok_0.1 == p2);
    lemma_counted_read(s, p2, least);
    let p3 = p2 + c.len();
    assert(counted_at(s, p2) == Ok::<(Seq<u8>, int), ErrorKind>((least, p3)));
    lemma_counted_read(s, p3, most);
}

/// A field's record is read as what the field is.
pub proof fn law_record_read(s: Seq<u8>, p: int, f: FieldModel, fst: FstImage, index_start: nat)
    requires
        holds_at(s, p, field_record(f, fst, index_start)),
        f.num_terms <= i64::MAX,
        f.sum_doc_freq <= i64::MAX,
        f.sum_total_term_freq <= i64::MAX,
        index_start <= i64::MAX,
        f.min_term.len() <= i32::MAX,
        f.max_term.len() <= i32::MAX,
        fst.root.len() <= 0x7FFF_FFFA,
        fst.start <= i64::MAX,
        fst.bytes.len() <= i64::MAX,
    ensures
        record_at(s, p, f.flags.has_freqs) == Ok::<(RecordSeen, int), ErrorKind>((record_of(f, fst, index_start as int), p + field_record(f, fst, index_start).len())),
{
    let sum = if f.flags.has_freqs {
        Some(f.sum_total_term_freq)
    } else {
        None
    };
    let a = front_bytes(f.number, f.num_terms, fst.root, sum);
    let b = middle_bytes(f.sum_doc_freq, f.doc_count, f.min_term, f.max_term);
    let c = vlong_of(index_start as int);
    let d = metadata_bytes(fst.start as nat, fst.bytes.len(), Some(fst.root));
    assert(field_record(f, fst, index_start) =~= a + b + c + d);
    lemma_holds_concat(s, p, a + b + c, d);
    lemma_holds_concat(s, p, a + b, c);
    lemma_holds_concat(s, p, a, b);
    lemma_front_read(s, p, f.number, f.num_terms, fst.root, sum);
    lemma_middle_read(s, p + a.len(), f.sum_doc_freq, f.doc_count, f.min_term, f.max_term);
    law_vlong_round_trip(s, p + a.len() + b.len(), index_start as i64);
    law_metadata_round_trip(s, p + a.len() + b.len() + c.len(), fst.start, fst.bytes.len() as u64, Some(fst.root));
}

} // verus!
