//! Random access to per-document values: the number or the ordinal of any
//! document, and the term of any ordinal.

use crate::bytes::{byte_at, i32_in, i64_in, int_at, lemma_var_ends, push_all, take_at, vint_at};
use crate::codec_util::{any_index_header_at, corrupt, skip_index_header};
use crate::disi::{decode_blocks, disi_at};
use crate::doc_values::{TYPE_BINARY, TYPE_NUMERIC, TYPE_SORTED};
use crate::doc_values_read::{
    binary_meta_at, find_block, open_addresses, read_binary_meta, read_terms_meta, records_len, term_block_read, terms_meta_at, value_read, NumericMeta, TermsMeta,
};
use crate::error::{outcome, Error, ErrorKind};
use crate::io::{DataInput, SliceInput};
use crate::lz4_block::{lz4_decompress, lz4_decompressed};
use crate::num::{spec_to_u16, spec_to_u64, to_i64, to_u16, to_u64, wrap_add, wrap_mul};
use crate::packed::{supported, DirectReader};
use crate::terms_dict::term_blocks;
use vstd::prelude::*;

verus! {

// ---------------------------------------------------------------------------
// Which documents have a value
// ---------------------------------------------------------------------------

/// The documents that have a value.
#[derive(Clone, Debug)]
pub enum IndexedDISIBranch {
    /// All documents.
    All,
    /// The listed ones, in ascending order.
    Docs(Vec<u32>),
}

/// Knows which documents have a value, and the how-manieth each of them is.
#[derive(Debug)]
pub struct IndexedDISIReader {
    branch: IndexedDISIBranch,
    max_doc: u32,
}

pub open spec fn ascending_docs(docs: Seq<u32>) -> bool {
    forall|i: int, j: int| 0 <= i < j < docs.len() ==> #[trigger] docs[i] < #[trigger] docs[j]
}

pub(crate) proof fn lemma_ascending(docs: Seq<u32>, i: int)
    requires
        ascending_docs(docs),
        0 <= i < docs.len(),
    ensures
        docs[i] >= i,
    decreases i,
{
    if i > 0 {
        lemma_ascending(docs, i - 1);
        assert(docs[i - 1] < docs[i]);
    }
}

/// Where halving the stretch from `lo` to `hi` comes upon the document: each
/// step looks at the middle, and goes on with the half that would hold the
/// document if the stretch ascended.
pub open spec fn bisect(docs: Seq<u32>, doc: u32, lo: int, hi: int) -> Option<int>
    decreases hi - lo,
{
    if lo >= hi {
        None
    } else {
        let mid = lo + (hi - lo) / 2;
        if docs[mid] == doc {
            Some(mid)
        } else if docs[mid] < doc {
            bisect(docs, doc, mid + 1, hi)
        } else {
            bisect(docs, doc, lo, mid)
        }
    }
}

/// The place at which the document is found.
pub open spec fn doc_place(docs: Seq<u32>, doc: u32) -> Option<int> {
    bisect(docs, doc, 0, docs.len() as int)
}

proof fn lemma_bisect(docs: Seq<u32>, doc: u32, lo: int, hi: int)
    requires
        0 <= lo <= hi <= docs.len(),
    ensures
        match bisect(docs, doc, lo, hi) {
            Some(i) => lo <= i < hi && docs[i] == doc,
            None => ascending_docs(docs) ==> forall|i: int| lo <= i < hi ==> #[trigger] docs[i] != doc,
        },
    decreases hi - lo,
{
    if lo < hi {
        let mid = lo + (hi - lo) / 2;
        if docs[mid] < doc {
            lemma_bisect(docs, doc, mid + 1, hi);
        } else if docs[mid] > doc {
            lemma_bisect(docs, doc, lo, mid);
        }
    }
}

/// The document stands at the place that the search gives, whatever the
/// documents; where they ascend, each is found at its own place, and what is
/// not found is not there.
pub proof fn law_doc_place(docs: Seq<u32>, doc: u32)
    ensures
        doc_place(docs, doc) matches Some(i) ==> 0 <= i < docs.len() && docs[i] == doc,
        ascending_docs(docs) ==> (doc_place(docs, doc) is Some <==> docs.contains(doc)),
        ascending_docs(docs) ==> forall|i: int| 0 <= i < docs.len() && #[trigger] docs[i] == doc ==> doc_place(docs, doc) == Some(i),
{
    lemma_bisect(docs, doc, 0, docs.len() as int);
    if ascending_docs(docs) {
        assert forall|i: int| 0 <= i < docs.len() && #[trigger] docs[i] == doc implies doc_place(docs, doc) == Some(i) by {
            let j = doc_place(docs, doc)->Some_0;
            if j < i {
                assert(docs[j] < docs[i]);
            } else if i < j {
                assert(docs[i] < docs[j]);
            }
        }
    }
}

/// The first `n` documents.
pub open spec fn first_docs(n: u32) -> Seq<u32> {
    Seq::new(n as nat, |i: int| i as u32)
}

/// The documents of the region at `offset`; -1 stands for all, -2 for none.
/// The blocks must be followed by the sentinel and the stated number of
/// jumps, and nothing else.
pub open spec fn disi_parsed(dvd: Seq<u8>, offset: i64, length: i64, jump_count: i16, num_values: u32) -> Result<Seq<u32>, ErrorKind> {
    if offset == -1 {
        Ok(first_docs(num_values))
    } else if offset == -2 {
        Ok(Seq::empty())
    } else if offset < 0 || length < 0 || offset + length > dvd.len() {
        Err(ErrorKind::UnexpectedEof)
    } else {
        match disi_at(dvd.subrange(offset as int, offset + length), 0, Seq::empty()) {
            Ok((docs, end)) => if end + 2 + 8 * spec_to_u16(jump_count) == length {
                Ok(docs)
            } else {
                Err(ErrorKind::InvalidData)
            },
            Err(k) => Err(k),
        }
    }
}

impl IndexedDISIReader {
    /// The documents, in the order in which the region holds them.
    pub closed spec fn docs(&self) -> Seq<u32> {
        match self.branch {
            IndexedDISIBranch::All => first_docs(self.max_doc),
            IndexedDISIBranch::Docs(docs) => docs@,
        }
    }

    /// Parses the region at `offset` of the data file.
    pub fn parse(dvd_bytes: &[u8], offset: i64, length: i64, jump_count: i16, num_values: u32) -> (r: Result<Self, Error>)
        ensures
            match disi_parsed(dvd_bytes@, offset, length, jump_count, num_values) {
                Ok(docs) => r is Ok && r->Ok_0.docs() == docs,
                Err(k) => r is Err && r->Err_0.kind == k,
            },
    {
        if offset == -1 {
            return Ok(IndexedDISIReader { branch: IndexedDISIBranch::All, max_doc: num_values });
        }
        if offset == -2 {
            return Ok(IndexedDISIReader { branch: IndexedDISIBranch::Docs(Vec::new()), max_doc: 0 });
        }
        if offset < 0 || length < 0 || offset as u64 + length as u64 > dvd_bytes.len() as u64 {
            return Err(Error::new(ErrorKind::UnexpectedEof, "DISI region extends past the data"));
        }
        let region = &dvd_bytes[offset as usize..offset as usize + length as usize];
        let (docs, end) = decode_blocks(region)?;
        if region.len() - end < 2 || (region.len() - end - 2) as u64 != 8 * to_u16(jump_count) as u64 {
            return Err(corrupt("DISI region has another length"));
        }
        let max_doc: u32 = if docs.len() > 0 && docs[docs.len() - 1] < u32::MAX { docs[docs.len() - 1] + 1 } else { 0 };
        Ok(IndexedDISIReader { branch: IndexedDISIBranch::Docs(docs), max_doc })
    }

    /// Whether the document has a value.
    pub fn has_doc(&self, doc_id: u32) -> (r: bool)
        ensures
            r == (doc_place(self.docs(), doc_id) is Some),
            ascending_docs(self.docs()) ==> r == self.docs().contains(doc_id),
    {
        proof {
            law_doc_place(self.docs(), doc_id);
        }
        match self.doc_index(doc_id) {
            Some(_) => true,
            None => false,
        }
    }

    /// The how-manieth document with a value it is, if it has one.
    pub fn doc_index(&self, doc_id: u32) -> (r: Option<usize>)
        ensures
            match r {
                Some(i) => doc_place(self.docs(), doc_id) == Some(i as int) && i < self.docs().len() && self.docs()[i as int] == doc_id,
                None => doc_place(self.docs(), doc_id) is None,
            },
            ascending_docs(self.docs()) ==> (r is Some <==> self.docs().contains(doc_id)),
    {
        proof {
            law_doc_place(self.docs(), doc_id);
        }
        match &self.branch {
            IndexedDISIBranch::All => {
                let ghost docs = self.docs();
                assert(ascending_docs(docs));
                if doc_id < self.max_doc {
                    assert(docs[doc_id as int] == doc_id);
                    Some(doc_id as usize)
                } else {
                    None
                }
            },
            IndexedDISIBranch::Docs(docs) => {
                let mut lo: usize = 0;
                let mut hi: usize = docs.len();
                while lo < hi
                    invariant
                        lo <= hi <= docs@.len(),
                        self.docs() == docs@,
                        bisect(docs@, doc_id, lo as int, hi as int) == doc_place(docs@, doc_id),
                        ascending_docs(docs@) ==> (doc_place(docs@, doc_id) is Some <==> docs@.contains(doc_id)),
                    decreases hi - lo,
                {
                    let mid: usize = lo + (hi - lo) / 2;
                    let d: u32 = docs[mid];
                    if d == doc_id {
                        return Some(mid);
                    }
                    if d < doc_id {
                        lo = mid + 1;
                    } else {
                        hi = mid;
                    }
                }
                None
            },
        }
    }
}

impl Clone for IndexedDISIReader {
    fn clone(&self) -> (r: Self)
        ensures
            r.docs() == self.docs(),
    {
        let branch = match &self.branch {
            IndexedDISIBranch::All => IndexedDISIBranch::All,
            IndexedDISIBranch::Docs(docs) => {
                let copy = vstd::slice::slice_to_vec(docs.as_slice());
                assert(copy@ =~= docs@);
                IndexedDISIBranch::Docs(copy)
            },
        };
        IndexedDISIReader { branch, max_doc: self.max_doc }
    }
}

// ---------------------------------------------------------------------------
// Finding a field
// ---------------------------------------------------------------------------

/// What begins the entry of a numeric or a sorted field: its description and
/// its number of jumps. A table of values is stepped over.
pub open spec fn prefix_at(s: Seq<u8>, p: int) -> Result<((NumericMeta, i16), int), ErrorKind> {
    if p + 31 > s.len() {
        Err(ErrorKind::UnexpectedEof)
    } else {
        let table = i32_in(s, p + 27);
        let q = p + 31 + 8 * if table > 0 { table as int } else { 0 };
        if q + 41 > s.len() {
            Err(ErrorKind::UnexpectedEof)
        } else {
            Ok((
                (
                    NumericMeta {
                        docs_offset: i64_in(s, p),
                        docs_length: i64_in(s, p + 8),
                        num_values: spec_to_u64(i64_in(s, p + 19)),
                        bpv: s[q],
                        min: i64_in(s, q + 1),
                        gcd: i64_in(s, q + 9),
                        values_offset: i64_in(s, q + 17),
                        values_length: i64_in(s, q + 25),
                    },
                    crate::bytes::short_at(s, p + 16)->Ok_0.0,
                ),
                q + 41,
            ))
        }
    }
}

fn read_prefix(dvm: &mut SliceInput) -> (r: Result<(NumericMeta, i16), Error>)
    requires
        0 <= old(dvm).pos(),
    ensures
        final(dvm).bytes() == old(dvm).bytes(),
        match prefix_at(old(dvm).bytes(), old(dvm).pos()) {
            Ok((m, z)) => r == Ok::<(NumericMeta, i16), Error>(m) && final(dvm).pos() == z,
            Err(k) => r is Err && r->Err_0.kind == k,
        },
{
    let docs_offset: i64 = dvm.read_long()?;
    let docs_length: i64 = dvm.read_long()?;
    let jump_count: i16 = dvm.read_short()?;
    let _rank_power: u8 = dvm.read_byte()?;
    let num_values: u64 = to_u64(dvm.read_long()?);
    let table_size: i32 = dvm.read_int()?;
    if table_size > 0 {
        dvm.skip_bytes(8 * table_size as u64)?;
    }
    let bpv: u8 = dvm.read_byte()?;
    let min: i64 = dvm.read_long()?;
    let gcd: i64 = dvm.read_long()?;
    let values_offset: i64 = dvm.read_long()?;
    let values_length: i64 = dvm.read_long()?;
    let _value_jumps: i64 = dvm.read_long()?;
    Ok((NumericMeta { docs_offset, docs_length, num_values, bpv, min, gcd, values_offset, values_length }, jump_count))
}

/// What is known of a field once its entry is found: its kind, its
/// description, its number of jumps.
pub type FoundField = (u8, NumericMeta, i16);

/// The entry of field `number`, found from `p` on, and where its common part
/// ends.
pub open spec fn field_found(s: Seq<u8>, p: int, number: i32) -> Result<(FoundField, int), ErrorKind>
    decreases s.len() - p,
{
    match int_at(s, p) {
        Ok((f, q)) => if f == -1 {
            Err(ErrorKind::NotFound)
        } else {
            match byte_at(s, q) {
                Ok((kind, e)) => if kind == TYPE_BINARY {
                    if f == number {
                        Err(ErrorKind::InvalidData)
                    } else {
                        match binary_meta_at(s, e) {
                            Ok((_, z)) => if z > p && p < s.len() {
                                field_found(s, z, number)
                            } else {
                                Err(ErrorKind::InvalidData)
                            },
                            Err(k) => Err(k),
                        }
                    }
                } else {
                    match prefix_at(s, e) {
                        Ok(((m, jumps), z)) => if f == number {
                            Ok(((kind, m, jumps), z))
                        } else if kind == TYPE_SORTED {
                            match terms_meta_at(s, z) {
                                Ok((_, y)) => if y > p && p < s.len() {
                                    field_found(s, y, number)
                                } else {
                                    Err(ErrorKind::InvalidData)
                                },
                                Err(k) => Err(k),
                            }
                        } else if z > p && p < s.len() {
                            field_found(s, z, number)
                        } else {
                            Err(ErrorKind::InvalidData)
                        },
                        Err(k) => Err(k),
                    }
                },
                Err(k) => Err(k),
            }
        },
        Err(k) => Err(k),
    }
}

/// Steps over the rest of a sorted field's entry.
fn skip_sorted_metadata(dvm: &mut SliceInput) -> (r: Result<(), Error>)
    requires
        0 <= old(dvm).pos(),
    ensures
        final(dvm).bytes() == old(dvm).bytes(),
        match terms_meta_at(old(dvm).bytes(), old(dvm).pos()) {
            Ok((_, z)) => r is Ok && final(dvm).pos() == z,
            Err(k) => r is Err && r->Err_0.kind == k,
        },
{
    let _terms = read_terms_meta(dvm)?;
    Ok(())
}

/// Finds the entry of a field.
fn find_field(dvm: &mut SliceInput, number: i32) -> (r: Result<FoundField, Error>)
    requires
        0 <= old(dvm).pos(),
    ensures
        final(dvm).bytes() == old(dvm).bytes(),
        0 <= final(dvm).pos(),
        match field_found(old(dvm).bytes(), old(dvm).pos(), number) {
            Ok((found, z)) => r == Ok::<FoundField, Error>(found) && final(dvm).pos() == z,
            Err(k) => r is Err && r->Err_0.kind == k,
        },
{
    let ghost s = dvm.bytes();
    let ghost p0 = dvm.pos();
    loop
        invariant
            s == old(dvm).bytes(),
            p0 == old(dvm).pos(),
            dvm.bytes() == s,
            0 <= dvm.pos(),
            field_found(s, dvm.pos(), number) == field_found(s, p0, number),
        decreases s.len() - dvm.pos(),
    {
        let _at: usize = dvm.position();
        let f: i32 = match dvm.read_int() {
            Ok(f) => f,
            Err(e) => {
                let _at: usize = dvm.position();
                return Err(e);
            },
        };
        let _at: usize = dvm.position();
        if f == -1 {
            return Err(Error::new(ErrorKind::NotFound, "no field of that number"));
        }
        let kind: u8 = match dvm.read_byte() {
            Ok(k) => k,
            Err(e) => {
                return Err(e);
            },
        };
        if kind == TYPE_BINARY {
            if f == number {
                return Err(corrupt("the field holds byte strings"));
            }
            proof {
                lemma_var_ends(s, dvm.pos() + 55);
            }
            match read_binary_meta(dvm) {
                Ok(_) => {},
                Err(e) => {
                    let _at: usize = dvm.position();
                    return Err(e);
                },
            }
        } else {
            let (m, jumps) = match read_prefix(dvm) {
                Ok(x) => x,
                Err(e) => {
                    let _at: usize = dvm.position();
                    return Err(e);
                },
            };
            if f == number {
                return Ok((kind, m, jumps));
            }
            if kind == TYPE_SORTED {
                proof {
                    lemma_var_ends(s, dvm.pos());
                }
                match skip_sorted_metadata(dvm) {
                    Ok(_) => {},
                    Err(e) => {
                        let _at: usize = dvm.position();
                        return Err(e);
                    },
                }
            }
        }
    }
}

/// A part of the data file; nothing for a length that is not positive.
pub open spec fn part_of(dvd: Seq<u8>, offset: i64, length: i64) -> Result<Seq<u8>, ErrorKind> {
    if length <= 0 {
        Ok(Seq::empty())
    } else if offset < 0 || offset + length > dvd.len() {
        Err(ErrorKind::InvalidData)
    } else {
        Ok(dvd.subrange(offset as int, offset + length))
    }
}

fn copy_part(dvd: &[u8], offset: i64, length: i64) -> (r: Result<Vec<u8>, Error>)
    ensures
        match part_of(dvd@, offset, length) {
            Ok(b) => r is Ok && r->Ok_0@ == b,
            Err(k) => r is Err && r->Err_0.kind == k,
        },
{
    let mut out: Vec<u8> = Vec::new();
    if length <= 0 {
        return Ok(out);
    }
    if offset < 0 || offset as u64 + length as u64 > dvd.len() as u64 {
        return Err(corrupt("bounds exceed the data"));
    }
    push_all(&mut out, &dvd[offset as usize..offset as usize + length as usize]);
    assert(out@ =~= dvd@.subrange(offset as int, offset + length));
    Ok(out)
}

// ---------------------------------------------------------------------------
// Numbers
// ---------------------------------------------------------------------------

/// A numeric field's values, by document.
pub struct NumericDocValuesReader {
    disi: IndexedDISIReader,
    meta: NumericMeta,
    data: Vec<u8>,
}

/// The documents of a numeric description, and the region of its values.
pub open spec fn numbers_of(dvd: Seq<u8>, m: NumericMeta, jumps: i16) -> Result<(Seq<u32>, Seq<u8>), ErrorKind> {
    match disi_parsed(dvd, m.docs_offset, m.docs_length, jumps, (m.num_values % 0x1_0000_0000) as u32) {
        Ok(docs) => match part_of(dvd, m.values_offset, m.values_length) {
            Ok(data) => if m.bpv == 0 || supported(m.bpv as int) {
                Ok((docs, data))
            } else {
                Err(ErrorKind::InvalidData)
            },
            Err(k) => Err(k),
        },
        Err(k) => Err(k),
    }
}

fn open_numbers(dvd: &[u8], m: NumericMeta, jumps: i16) -> (r: Result<NumericDocValuesReader, Error>)
    ensures
        match numbers_of(dvd@, m, jumps) {
            Ok((docs, data)) => r is Ok && r->Ok_0.docs() == docs && r->Ok_0.data() == data && r->Ok_0.meta() == m,
            Err(k) => r is Err && r->Err_0.kind == k,
        },
{
    let disi = IndexedDISIReader::parse(dvd, m.docs_offset, m.docs_length, jumps, (m.num_values % 0x1_0000_0000) as u32)?;
    let data = copy_part(dvd, m.values_offset, m.values_length)?;
    if m.bpv != 0 {
        let _probe = DirectReader::new(data.as_slice(), m.bpv as u32, 0)?;
    }
    Ok(NumericDocValuesReader { disi, meta: m, data })
}

/// What opening a numeric field finds.
pub open spec fn numeric_opened(dvm: Seq<u8>, dvd: Seq<u8>, number: i32) -> Result<(NumericMeta, Seq<u32>, Seq<u8>), ErrorKind> {
    match any_index_header_at(dvm, 0) {
        Ok((_, p)) => match field_found(dvm, p, number) {
            Ok(((kind, m, jumps), _)) => if kind != TYPE_NUMERIC {
                Err(ErrorKind::InvalidData)
            } else {
                match numbers_of(dvd, m, jumps) {
                    Ok((docs, data)) => Ok((m, docs, data)),
                    Err(k) => Err(k),
                }
            },
            Err(k) => Err(k),
        },
        Err(k) => Err(k),
    }
}

/// The value of a document: none where it is not found, an error where the
/// values end before it.
pub open spec fn number_of(m: NumericMeta, docs: Seq<u32>, data: Seq<u8>, doc: u32) -> Result<Option<i64>, ErrorKind> {
    match doc_place(docs, doc) {
        None => Ok(None),
        Some(i) => if m.bpv != 0 && ((i + 1) * m.bpv > 8 * data.len() || (i + 1) * m.bpv > u64::MAX) {
            Err(ErrorKind::UnexpectedEof)
        } else {
            Ok(Some(value_read(m, data, i)))
        },
    }
}

impl NumericDocValuesReader {
    /// The documents that have a value.
    pub closed spec fn docs(&self) -> Seq<u32> {
        self.disi.docs()
    }

    pub closed spec fn meta(&self) -> NumericMeta {
        self.meta
    }

    /// The packed values.
    pub closed spec fn data(&self) -> Seq<u8> {
        self.data@
    }

    #[verifier::type_invariant]
    spec fn width_supported(self) -> bool {
        self.meta.bpv == 0 || supported(self.meta.bpv as int)
    }

    /// Opens a numeric field of the metadata and the data file.
    pub fn open(dvm_bytes: &[u8], dvd_bytes: &[u8], field_number: i32) -> (r: Result<Self, Error>)
        ensures
            match numeric_opened(dvm_bytes@, dvd_bytes@, field_number) {
                Ok((m, docs, data)) => r is Ok && r->Ok_0.meta() == m && r->Ok_0.docs() == docs && r->Ok_0.data() == data,
                Err(k) => r is Err && r->Err_0.kind == k,
            },
    {
        let mut dvm = SliceInput::new(dvm_bytes);
        skip_index_header(&mut dvm)?;
        let _at: usize = dvm.position();
        let (kind, m, jumps) = find_field(&mut dvm, field_number)?;
        if kind != TYPE_NUMERIC {
            return Err(corrupt("the field is not numeric"));
        }
        open_numbers(dvd_bytes, m, jumps)
    }

    /// The value of a document, if it has one.
    pub fn get(&mut self, doc_id: u32) -> (r: Result<Option<i64>, Error>)
        ensures
            *final(self) == *old(self),
            match number_of(old(self).meta(), old(self).docs(), old(self).data(), doc_id) {
                Ok(v) => r == Ok::<Option<i64>, Error>(v),
                Err(k) => r is Err && r->Err_0.kind == k,
            },
    {
        proof {
            use_type_invariant(&*self);
        }
        match self.disi.doc_index(doc_id) {
            None => Ok(None),
            Some(i) => {
                let m = self.meta;
                if m.bpv == 0 {
                    return Ok(Some(m.min));
                }
                assert(0 <= (i + 1) * m.bpv <= 0x1_0000_0000_0000_0000 * 255) by (nonlinear_arith)
                    requires
                        0 <= i + 1 <= 0x1_0000_0000_0000_0000,
                        0 <= m.bpv <= 255,
                ;
                let end: u128 = (i as u128 + 1) * m.bpv as u128;
                if end > 8 * self.data.len() as u128 || end > 0xFFFF_FFFF_FFFF_FFFF {
                    return Err(Error::new(ErrorKind::UnexpectedEof, "values are truncated"));
                }
                let reader = DirectReader::new(self.data.as_slice(), m.bpv as u32, 0)?;
                assert(i * m.bpv <= (i + 1) * m.bpv) by (nonlinear_arith)
                    requires
                        0 <= m.bpv,
                ;
                let v: u64 = reader.get(i as u64);
                Ok(Some(to_i64(wrap_add(wrap_mul(v, to_u64(m.gcd)), to_u64(m.min)))))
            },
        }
    }

    /// The value of each of the documents.
    pub fn get_batch(&mut self, docs: &[u32]) -> (r: Result<Vec<Option<i64>>, Error>)
        ensures
            *final(self) == *old(self),
            r is Ok ==> r->Ok_0@.len() == docs@.len() && forall|i: int|
                0 <= i < docs@.len() ==> number_of(old(self).meta(), old(self).docs(), old(self).data(), #[trigger] docs@[i]) == Ok::<Option<i64>, ErrorKind>(r->Ok_0@[i]),
            match numbers_batch(old(self).meta(), old(self).docs(), old(self).data(), docs@, docs@.len() as int) {
                Ok(v) => r is Ok && r->Ok_0@ == v,
                Err(k) => r is Err && r->Err_0.kind == k,
            },
    {
        let mut out: Vec<Option<i64>> = Vec::new();
        let mut i: usize = 0;
        while i < docs.len()
            invariant
                i <= docs@.len(),
                *self == *old(self),
                numbers_batch(old(self).meta(), old(self).docs(), old(self).data(), docs@, i as int) == Ok::<Seq<Option<i64>>, ErrorKind>(out@),
            decreases docs@.len() - i,
        {
            let ghost before = out@;
            match self.get(docs[i]) {
                Ok(v) => {
                    out.push(v);
                    assert(out@ == before.push(v));
                },
                Err(e) => {
                    proof {
                        lemma_batch_fails(self.meta(), self.docs(), self.data(), docs@, i + 1, docs@.len() as int);
                    }
                    return Err(e);
                },
            }
            i = i + 1;
        }
        proof {
            law_batch_is_each(self.meta(), self.docs(), self.data(), docs@);
        }
        Ok(out)
    }
}

/// The values of the first `n` of the documents asked for.
pub open spec fn numbers_batch(m: NumericMeta, docs: Seq<u32>, data: Seq<u8>, asked: Seq<u32>, n: int) -> Result<Seq<Option<i64>>, ErrorKind>
    decreases n,
{
    if n <= 0 {
        Ok(Seq::empty())
    } else {
        match numbers_batch(m, docs, data, asked, n - 1) {
            Ok(v) => match number_of(m, docs, data, asked[n - 1]) {
                Ok(x) => Ok(v.push(x)),
                Err(k) => Err(k),
            },
            Err(k) => Err(k),
        }
    }
}

proof fn lemma_batch_fails(m: NumericMeta, docs: Seq<u32>, data: Seq<u8>, asked: Seq<u32>, i: int, n: int)
    requires
        1 <= i <= n,
        numbers_batch(m, docs, data, asked, i) is Err,
    ensures
        numbers_batch(m, docs, data, asked, n) == numbers_batch(m, docs, data, asked, i),
    decreases n - i,
{
    if i < n {
        lemma_batch_fails(m, docs, data, asked, i, n - 1);
    }
}

proof fn lemma_batch_each(m: NumericMeta, docs: Seq<u32>, data: Seq<u8>, asked: Seq<u32>, n: int)
    requires
        0 <= n <= asked.len(),
    ensures
        match numbers_batch(m, docs, data, asked, n) {
            Ok(v) => v.len() == n && forall|i: int| 0 <= i < n ==> number_of(m, docs, data, #[trigger] asked[i]) == Ok::<Option<i64>, ErrorKind>(v[i]),
            Err(k) => exists|i: int|
                {
                    &&& 0 <= i < n
                    &&& number_of(m, docs, data, #[trigger] asked[i]) == Err::<Option<i64>, ErrorKind>(k)
                    &&& forall|j: int| 0 <= j < i ==> number_of(m, docs, data, #[trigger] asked[j]) is Ok
                },
        },
    decreases n,
{
    if n > 0 {
        lemma_batch_each(m, docs, data, asked, n - 1);
        assert(asked[n - 1] == asked[n - 1]);
    }
}

/// A batch has one result for each document that is asked for: the value of
/// that document by itself, whatever the others are and in whatever order they
/// come. It fails only where one of them does, as the first of these.
pub proof fn law_batch_is_each(m: NumericMeta, docs: Seq<u32>, data: Seq<u8>, asked: Seq<u32>)
    ensures
        match numbers_batch(m, docs, data, asked, asked.len() as int) {
            Ok(v) => v.len() == asked.len() && forall|i: int| 0 <= i < asked.len() ==> number_of(m, docs, data, #[trigger] asked[i]) == Ok::<Option<i64>, ErrorKind>(v[i]),
            Err(k) => exists|i: int|
                {
                    &&& 0 <= i < asked.len()
                    &&& number_of(m, docs, data, #[trigger] asked[i]) == Err::<Option<i64>, ErrorKind>(k)
                    &&& forall|j: int| 0 <= j < i ==> number_of(m, docs, data, #[trigger] asked[j]) is Ok
                },
        },
{
    lemma_batch_each(m, docs, data, asked, asked.len() as int);
}

// ---------------------------------------------------------------------------
// Terms
// ---------------------------------------------------------------------------

/// A sorted field's ordinals, by document, and its terms, by ordinal.
pub struct SortedDocValuesReader {
    ords: NumericDocValuesReader,
    terms: TermsMeta,
    terms_dict: Vec<u8>,
    addresses_meta: Vec<u8>,
    addresses: Vec<u8>,
}

/// A dictionary as it is held: its description, the blocks, the records of
/// the addresses and the addresses.
pub struct DictParts {
    pub meta: TermsMeta,
    pub data: Seq<u8>,
    pub records: Seq<u8>,
    pub addresses: Seq<u8>,
}

/// What opening a sorted field finds: its ordinals and its dictionary.
pub open spec fn sorted_opened(dvm: Seq<u8>, dvd: Seq<u8>, number: i32) -> Result<(NumericMeta, Seq<u32>, Seq<u8>, DictParts), ErrorKind> {
    match any_index_header_at(dvm, 0) {
        Ok((_, p)) => match field_found(dvm, p, number) {
            Ok(((kind, m, jumps), q)) => if kind != TYPE_SORTED {
                Err(ErrorKind::InvalidData)
            } else {
                match numbers_of(dvd, m, jumps) {
                    Ok((docs, ords)) => match dict_parts(dvm, q, dvd) {
                        Ok(d) => Ok((m, docs, ords, d)),
                        Err(k) => Err(k),
                    },
                    Err(k) => Err(k),
                }
            },
            Err(k) => Err(k),
        },
        Err(k) => Err(k),
    }
}

/// The dictionary that is described at `p` of the metadata.
pub open spec fn dict_parts(dvm: Seq<u8>, p: int, dvd: Seq<u8>) -> Result<DictParts, ErrorKind> {
    match terms_meta_at(dvm, p) {
        Ok(((t, records), _)) => match part_of(dvd, t.addresses_offset, t.addresses_length) {
            Ok(addresses) => match part_of(dvd, t.data_offset, t.data_length) {
                Ok(data) => Ok(DictParts { meta: t, data, records, addresses }),
                Err(k) => Err(k),
            },
            Err(k) => Err(k),
        },
        Err(k) => Err(k),
    }
}

/// What does not fit a token's half.
pub open spec fn token_extra_at(s: Seq<u8>, p: int, present: bool) -> Result<(i32, int), ErrorKind> {
    if present {
        vint_at(s, p)
    } else {
        Ok((0i32, p))
    }
}

/// The first `n` bytes of a term; all of them where it has no more, or where
/// `n` is no length.
pub open spec fn cut_to(term: Seq<u8>, n: int) -> Seq<u8> {
    if 0 <= n <= term.len() {
        term.take(n)
    } else {
        term
    }
}

/// The term at `p` behind `prev`, whose first bytes it begins with.
pub open spec fn next_term_at(s: Seq<u8>, p: int, prev: Seq<u8>) -> Result<(Seq<u8>, int), ErrorKind> {
    match byte_at(s, p) {
        Ok((token, q)) => match token_extra_at(s, q, token % 16 == 15) {
            Ok((x, e)) => match token_extra_at(s, e, token / 16 == 15) {
                Ok((y, f)) => {
                    let suffix = 1 + token / 16 + y;
                    if suffix < 0 {
                        Err(ErrorKind::InvalidData)
                    } else {
                        match take_at(s, f, suffix) {
                            Ok((b, z)) => Ok((cut_to(prev, token % 16 + x) + b, z)),
                            Err(k) => Err(k),
                        }
                    }
                },
                Err(k) => Err(k),
            },
            Err(k) => Err(k),
        },
        Err(k) => Err(k),
    }
}

/// The `n`th term behind `prev`; the next one stands at `p`.
pub open spec fn later_term_at(s: Seq<u8>, p: int, n: nat, prev: Seq<u8>) -> Result<Seq<u8>, ErrorKind>
    decreases n,
{
    if n == 0 {
        Ok(prev)
    } else {
        match next_term_at(s, p, prev) {
            Ok((term, q)) => later_term_at(s, q, (n - 1) as nat, term),
            Err(k) => Err(k),
        }
    }
}

/// The `n`th term of a block behind its first.
pub open spec fn term_in_block(block: Seq<u8>, n: nat) -> Result<Seq<u8>, ErrorKind> {
    match vint_at(block, 0) {
        Ok((len, p)) => match take_at(block, p, spec_to_u64(len as i64) as int) {
            Ok((first, q)) => if n == 0 {
                Ok(first)
            } else {
                match vint_at(block, q) {
                    Ok((size, e)) => match lz4_decompressed(block.skip(e), size) {
                        Some(chunk) => later_term_at(chunk, 0, n, first),
                        None => Err(ErrorKind::InvalidData),
                    },
                    Err(k) => Err(k),
                }
            },
            Err(k) => Err(k),
        },
        Err(k) => Err(k),
    }
}

fn read_token_extra(input: &mut SliceInput, present: bool) -> (r: Result<i32, Error>)
    ensures
        final(input).bytes() == old(input).bytes(),
        outcome(r, final(input).pos(), token_extra_at(old(input).bytes(), old(input).pos(), present)),
{
    if present {
        input.read_vint()
    } else {
        Ok(0)
    }
}

/// Reads the term behind `prev`.
fn read_next_term(input: &mut SliceInput, prev: &Vec<u8>) -> (r: Result<Vec<u8>, Error>)
    ensures
        final(input).bytes() == old(input).bytes(),
        match next_term_at(old(input).bytes(), old(input).pos(), prev@) {
            Ok((t, q)) => r is Ok && r->Ok_0@ == t && final(input).pos() == q,
            Err(k) => r is Err && r->Err_0.kind == k,
        },
{
    let token: u8 = input.read_byte()?;
    let x: i32 = read_token_extra(input, token % 16 == 15)?;
    let y: i32 = read_token_extra(input, token / 16 == 15)?;
    let prefix: i64 = (token % 16) as i64 + x as i64;
    let suffix: i64 = 1 + (token / 16) as i64 + y as i64;
    if suffix < 0 {
        return Err(corrupt("negative length"));
    }
    let rest = input.read_vec(suffix as u64)?;
    let keep: usize = if prefix >= 0 && (prefix as u64) < prev.len() as u64 { prefix as usize } else { prev.len() };
    let mut term: Vec<u8> = Vec::new();
    push_all(&mut term, &prev.as_slice()[0..keep]);
    push_all(&mut term, rest.as_slice());
    assert(term@ =~= cut_to(prev@, prefix as int) + rest@);
    Ok(term)
}

/// Reads the `n`th term of a block behind its first.
fn read_term_in_block(block: &[u8], n: u32) -> (r: Result<Vec<u8>, Error>)
    ensures
        match term_in_block(block@, n as nat) {
            Ok(t) => r is Ok && r->Ok_0@ == t,
            Err(k) => r is Err && r->Err_0.kind == k,
        },
{
    let mut input = SliceInput::new(block);
    let len: i32 = input.read_vint()?;
    let first = input.read_vec(to_u64(len as i64))?;
    if n == 0 {
        return Ok(first);
    }
    let size: i32 = input.read_vint()?;
    let consumed: usize = input.position();
    let chunk = match lz4_decompress(&block[consumed..block.len()], size) {
        Some(c) => c,
        None => {
            return Err(corrupt("terms dictionary block does not decompress"));
        },
    };
    assert(block@.skip(consumed as int) =~= block@.subrange(consumed as int, block@.len() as int));
    let mut rest = SliceInput::new(chunk.as_slice());
    let mut term = first;
    let mut i: u32 = 0;
    while i < n
        invariant
            i <= n,
            rest.bytes() == chunk@,
            later_term_at(chunk@, rest.pos(), (n - i) as nat, term@) == term_in_block(block@, n as nat),
        decreases n - i,
    {
        term = read_next_term(&mut rest, &term)?;
        i = i + 1;
    }
    Ok(term)
}

/// The term of an ordinal; nothing where there is none, or where its block
/// cannot be read.
pub open spec fn term_of(d: DictParts, ord: u32) -> Seq<u8> {
    let n = term_blocks(d.meta.dict_size as int) as nat;
    if d.data.len() == 0 || ord >= d.meta.dict_size % 0x1_0000_0000 || d.records.len() < records_len(n, 16) {
        Seq::empty()
    } else {
        match term_block_read(d.data, d.records, d.addresses, n, ord as int / 64) {
            Ok(block) => match term_in_block(block, ord as nat % 64) {
                Ok(term) => term,
                Err(_) => Seq::empty(),
            },
            Err(_) => Seq::empty(),
        }
    }
}

impl SortedDocValuesReader {
    /// The documents that have a value.
    pub closed spec fn docs(&self) -> Seq<u32> {
        self.ords.docs()
    }

    pub closed spec fn meta(&self) -> NumericMeta {
        self.ords.meta()
    }

    /// The packed ordinals.
    pub closed spec fn data(&self) -> Seq<u8> {
        self.ords.data()
    }

    pub closed spec fn dict(&self) -> DictParts {
        DictParts { meta: self.terms, data: self.terms_dict@, records: self.addresses_meta@, addresses: self.addresses@ }
    }

    /// Opens a sorted field of the metadata and the data file.
    pub fn open(dvm_bytes: &[u8], dvd_bytes: &[u8], field_number: i32) -> (r: Result<Self, Error>)
        ensures
            match sorted_opened(dvm_bytes@, dvd_bytes@, field_number) {
                Ok((m, docs, ords, dict)) => r is Ok && r->Ok_0.meta() == m && r->Ok_0.docs() == docs && r->Ok_0.data() == ords && r->Ok_0.dict() == dict,
                Err(k) => r is Err && r->Err_0.kind == k,
            },
    {
        let mut dvm = SliceInput::new(dvm_bytes);
        skip_index_header(&mut dvm)?;
        let _at: usize = dvm.position();
        let (kind, m, jumps) = find_field(&mut dvm, field_number)?;
        if kind != TYPE_SORTED {
            return Err(corrupt("the field is not sorted"));
        }
        let ords = open_numbers(dvd_bytes, m, jumps)?;
        let (terms, addresses_meta) = read_terms_meta(&mut dvm)?;
        let addresses = copy_part(dvd_bytes, terms.addresses_offset, terms.addresses_length)?;
        let terms_dict = copy_part(dvd_bytes, terms.data_offset, terms.data_length)?;
        Ok(SortedDocValuesReader { ords, terms, terms_dict, addresses_meta, addresses })
    }

    /// The ordinal of a document, if it has one.
    pub fn get_ord(&mut self, doc_id: u32) -> (r: Result<Option<u32>, Error>)
        ensures
            *final(self) == *old(self),
            match number_of(old(self).meta(), old(self).docs(), old(self).data(), doc_id) {
                Ok(Some(v)) => r == Ok::<Option<u32>, Error>(Some((spec_to_u64(v) % 0x1_0000_0000) as u32)),
                Ok(None) => r == Ok::<Option<u32>, Error>(None),
                Err(k) => r is Err && r->Err_0.kind == k,
            },
    {
        match self.ords.get(doc_id)? {
            None => Ok(None),
            Some(v) => Ok(Some((to_u64(v) % 0x1_0000_0000) as u32)),
        }
    }

    /// The term of an ordinal; nothing where there is none.
    pub fn lookup_ord(&self, ord: u32) -> (r: Vec<u8>)
        ensures
            r@ == term_of(self.dict(), ord),
    {
        let empty: Vec<u8> = Vec::new();
        assert(empty@ =~= Seq::empty());
        if self.terms_dict.len() == 0 || ord as u64 >= self.terms.dict_size % 0x1_0000_0000 {
            return empty;
        }
        let n: u64 = (self.terms.dict_size - 1) / 64 + 1;
        assert(n == term_blocks(self.terms.dict_size as int));
        let reader = match open_addresses(self.addresses_meta.as_slice(), self.addresses.as_slice(), n) {
            Ok(reader) => reader,
            Err(_) => {
                return empty;
            },
        };
        let block = match find_block(self.terms_dict.as_slice(), &reader, n, (ord / 64) as u64, Ghost(self.addresses_meta@), Ghost(self.addresses@)) {
            Ok(block) => block,
            Err(_) => {
                return empty;
            },
        };
        match read_term_in_block(block, ord % 64) {
            Ok(term) => term,
            Err(_) => empty,
        }
    }
}

} // verus!
