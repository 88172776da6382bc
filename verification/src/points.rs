//! Writes points of one dimension: leaves of up to 512 points in order, a
//! packed index of the leaves, and the metadata of each field.

use crate::bytes::{be_vec, int_bytes, lemma_concat_assoc, lemma_pow2_widths, long_bytes, vint_bytes, vint_of, vlong_of};
use crate::codec_util::{footer_bytes, header_bytes, index_header_bytes, write_footer, write_header, write_index_header};
use crate::error::Error;
use crate::io::{put_vint, put_vlong, ChecksumIndexOutput, DataOutput, IndexOutput, SegmentFile};
use crate::leaf_block::{keys_fit, leaf_bytes, write_leaf_block};
use crate::num::{spec_to_i64, to_i64};
use crate::point_index::{index_bytes, pack_index, zeros};
use crate::point_order::{count_docs, int_key, int_to_key, key_bytes, law_sorted_points, long_key, long_to_key, point_docs, points_ascend, sort_points, sorted_points};
use vstd::arithmetic::power2::pow2;
use vstd::prelude::*;
use vstd::string::*;
use vstd::utf8::encode_utf8;

pub use crate::point_order::{int_to_sortable_bytes, long_to_sortable_bytes};

verus! {

pub const DATA_EXTENSION: &'static str = "kdd";
pub const INDEX_EXTENSION: &'static str = "kdi";
pub const META_EXTENSION: &'static str = "kdm";
pub const DATA_CODEC_NAME: &'static str = "Lucene90PointsFormatData";
pub const INDEX_CODEC_NAME: &'static str = "Lucene90PointsFormatIndex";
pub const META_CODEC_NAME: &'static str = "Lucene90PointsFormatMeta";
pub const FORMAT_VERSION: u32 = 0;

/// Readers rely on every leaf but the last having this many points.
pub const MAX_POINTS_IN_LEAF_NODE: usize = 512;

pub const BKD_CODEC_NAME: &'static str = "BKD";
pub const BKD_VERSION: u32 = 9;

pub open spec fn points_file_name(segment: Seq<char>, extension: Seq<char>) -> Seq<char> {
    segment + "."@ + extension
}

fn file_name(segment: &str, extension: &str) -> (r: String)
    ensures
        r@ == points_file_name(segment@, extension@),
{
    let mut s = segment.to_owned();
    s.append(".");
    s.append(extension);
    s
}

/// The names of the data, the index and the metadata file.
pub fn file_names(segment: &str) -> (r: [String; 3])
    ensures
        r@[0]@ == points_file_name(segment@, DATA_EXTENSION@),
        r@[1]@ == points_file_name(segment@, INDEX_EXTENSION@),
        r@[2]@ == points_file_name(segment@, META_EXTENSION@),
{
    [file_name(segment, DATA_EXTENSION), file_name(segment, INDEX_EXTENSION), file_name(segment, META_EXTENSION)]
}

// ---------------------------------------------------------------------------
// What is written
// ---------------------------------------------------------------------------

/// A field: its number, how many bytes its values have, and its points in
/// order.
pub struct PointField {
    pub number: i32,
    pub width: nat,
    pub points: Seq<(u64, u32)>,
}

/// A field as it is written: its points are in order, and their values have
/// the field's width.
pub open spec fn field_ok(f: PointField) -> bool {
    &&& 0 < f.width <= 8
    &&& 0 < f.points.len()
    &&& points_ascend(f.points)
    &&& keys_fit(f.points, f.width)
}

/// The number of leaves.
pub open spec fn leaf_count(points: Seq<(u64, u32)>) -> int {
    (points.len() as int + 511) / 512
}

/// Leaf `i`.
pub open spec fn leaf_of(points: Seq<(u64, u32)>, i: int) -> Seq<(u64, u32)> {
    points.subrange(512 * i, if 512 * i + 512 <= points.len() {
        512 * i + 512
    } else {
        points.len() as int
    })
}

/// The first `k` leaves.
pub open spec fn leaves_bytes(points: Seq<(u64, u32)>, n: nat, k: int) -> Seq<u8>
    decreases k,
{
    if k <= 0 {
        Seq::empty()
    } else {
        leaves_bytes(points, n, k - 1) + leaf_bytes(leaf_of(points, k - 1), n)
    }
}

/// Where the leaves begin, if the first begins at `at`.
pub open spec fn leaf_places(points: Seq<(u64, u32)>, n: nat, at: nat) -> Seq<u64> {
    Seq::new(leaf_count(points) as nat, |i: int| (at + leaves_bytes(points, n, i).len()) as u64)
}

/// The first value of every leaf but the first.
pub open spec fn leaf_starts(points: Seq<(u64, u32)>) -> Seq<u64> {
    Seq::new((leaf_count(points) - 1) as nat, |i: int| points[512 * (i + 1)].0)
}

/// The leaves of a field.
#[verifier::opaque]
pub open spec fn point_data(f: PointField) -> Seq<u8> {
    leaves_bytes(f.points, f.width, leaf_count(f.points))
}

/// The packed index of a field whose leaves begin at `at`.
#[verifier::opaque]
pub open spec fn point_index(f: PointField, at: nat) -> Seq<u8> {
    index_bytes(leaf_places(f.points, f.width, at), leaf_starts(f.points), f.width, 0, zeros(f.width), false, 0, leaf_count(f.points))
}

/// The begin of a field's entry: one dimension, the size of leaves, the size
/// of values, and the number of leaves.
pub open spec fn dims_bytes(f: PointField) -> Seq<u8> {
    header_bytes(BKD_CODEC_NAME@, BKD_VERSION) + vint_bytes(1) + vint_bytes(1) + vint_bytes(512) + vint_of(f.width as int) + vint_of(leaf_count(f.points))
}

/// The least and the greatest value.
pub open spec fn extremes_bytes(f: PointField) -> Seq<u8> {
    key_bytes(f.points[0].0, f.width) + key_bytes(f.points.last().0, f.width)
}

/// The end of a field's entry: the numbers of points, of documents and of
/// bytes of the index, and where leaves and index begin.
pub open spec fn counts_bytes(f: PointField, at: nat, index_at: nat) -> Seq<u8> {
    vlong_of(f.points.len() as int) + vint_of(point_docs(f.points).to_set().len() as int) + vint_of(point_index(f, at).len() as int) + long_bytes(spec_to_i64(at as u64)) + long_bytes(
        spec_to_i64(index_at as u64),
    )
}

/// The entry of a field whose leaves begin at `at` and whose index begins at
/// `index_at`.
#[verifier::opaque]
pub open spec fn point_meta(f: PointField, at: nat, index_at: nat) -> Seq<u8> {
    int_bytes(f.number) + dims_bytes(f) + extremes_bytes(f) + counts_bytes(f, at, index_at)
}

pub open spec fn points_data(fields: Seq<PointField>) -> Seq<u8>
    decreases fields.len(),
{
    if fields.len() == 0 {
        Seq::empty()
    } else {
        points_data(fields.drop_last()) + point_data(fields.last())
    }
}

/// The indexes of fields whose leaves begin at `at`.
pub open spec fn points_index(fields: Seq<PointField>, at: nat) -> Seq<u8>
    decreases fields.len(),
{
    if fields.len() == 0 {
        Seq::empty()
    } else {
        let d = fields.drop_last();
        points_index(d, at) + point_index(fields.last(), at + points_data(d).len())
    }
}

/// Their entries, if the indexes begin at `index_at`.
pub open spec fn points_meta(fields: Seq<PointField>, at: nat, index_at: nat) -> Seq<u8>
    decreases fields.len(),
{
    if fields.len() == 0 {
        Seq::empty()
    } else {
        let d = fields.drop_last();
        points_meta(d, at, index_at) + point_meta(fields.last(), at + points_data(d).len(), index_at + points_index(d, at).len())
    }
}

pub open spec fn points_header(codec: Seq<char>, id: Seq<u8>) -> Seq<u8> {
    index_header_bytes(codec, FORMAT_VERSION, id, Seq::empty())
}

/// The data file up to the footer.
pub open spec fn kdd_body(fields: Seq<PointField>, id: Seq<u8>) -> Seq<u8> {
    points_header(DATA_CODEC_NAME@, id) + points_data(fields)
}

/// The index file up to the footer.
pub open spec fn kdi_body(fields: Seq<PointField>, id: Seq<u8>) -> Seq<u8> {
    points_header(INDEX_CODEC_NAME@, id) + points_index(fields, points_header(DATA_CODEC_NAME@, id).len())
}

/// The metadata file up to the end mark.
pub open spec fn kdm_body(fields: Seq<PointField>, id: Seq<u8>) -> Seq<u8> {
    points_header(META_CODEC_NAME@, id) + points_meta(fields, points_header(DATA_CODEC_NAME@, id).len(), points_header(INDEX_CODEC_NAME@, id).len())
}

pub open spec fn with_footer(body: Seq<u8>) -> Seq<u8> {
    body + footer_bytes(body)
}

pub open spec fn kdd_file(fields: Seq<PointField>, id: Seq<u8>) -> Seq<u8> {
    with_footer(kdd_body(fields, id))
}

pub open spec fn kdi_file(fields: Seq<PointField>, id: Seq<u8>) -> Seq<u8> {
    with_footer(kdi_body(fields, id))
}

/// The metadata file: behind the entries the end mark, and the lengths of the
/// other files.
pub open spec fn kdm_file(fields: Seq<PointField>, id: Seq<u8>) -> Seq<u8> {
    with_footer(
        kdm_body(fields, id) + int_bytes(-1i32) + long_bytes(spec_to_i64(kdi_file(fields, id).len() as u64)) + long_bytes(spec_to_i64(kdd_file(fields, id).len() as u64)),
    )
}

/// Longs as keys.
pub open spec fn long_points(points: Seq<(i64, u32)>) -> Seq<(u64, u32)> {
    points.map_values(|p: (i64, u32)| (long_key(p.0), p.1))
}

/// Ints as keys.
pub open spec fn int_points(points: Seq<(i32, u32)>) -> Seq<(u64, u32)> {
    points.map_values(|p: (i32, u32)| (int_key(p.0), p.1))
}

// ---------------------------------------------------------------------------
// Writing
// ---------------------------------------------------------------------------

proof fn lemma_codec_names()
    ensures
        encode_utf8(DATA_CODEC_NAME@).len() < 128,
        encode_utf8(INDEX_CODEC_NAME@).len() < 128,
        encode_utf8(META_CODEC_NAME@).len() < 128,
        encode_utf8(BKD_CODEC_NAME@).len() < 128,
        encode_utf8(""@).len() < 128,
        ""@ == Seq::<char>::empty(),
{
    reveal_strlit("Lucene90PointsFormatData");
    reveal_strlit("Lucene90PointsFormatIndex");
    reveal_strlit("Lucene90PointsFormatMeta");
    reveal_strlit("BKD");
    reveal_strlit("");
    vstd::utf8::is_ascii_chars_encode_utf8(DATA_CODEC_NAME@);
    vstd::utf8::is_ascii_chars_encode_utf8(INDEX_CODEC_NAME@);
    vstd::utf8::is_ascii_chars_encode_utf8(META_CODEC_NAME@);
    vstd::utf8::is_ascii_chars_encode_utf8(BKD_CODEC_NAME@);
    vstd::utf8::is_ascii_chars_encode_utf8(""@);
    assert(""@ =~= Seq::<char>::empty());
}

/// Values that fit still do when they are in order.
proof fn lemma_sorted_fit(points: Seq<(u64, u32)>, n: nat)
    requires
        keys_fit(points, n),
    ensures
        keys_fit(sorted_points(points), n),
{
    broadcast use vstd::seq_lib::group_to_multiset_ensures;
    law_sorted_points(points);
    let s = sorted_points(points);
    assert forall|i: int| 0 <= i < s.len() implies (#[trigger] s[i]).0 < pow2(8 * n) by {
        assert(s.contains(s[i]));
        assert(s.to_multiset().count(s[i]) > 0);
        assert(points.contains(s[i]));
        let j = choose|j: int| 0 <= j < points.len() && points[j] == s[i];
        assert(points[j].0 < pow2(8 * n));
    }
}

fn open_file(codec: &str, id: &[u8; 16]) -> (r: Result<ChecksumIndexOutput, Error>)
    requires
        encode_utf8(codec@).len() < 128,
    ensures
        r is Ok,
        r->Ok_0.written() == points_header(codec@, id@),
        r->Ok_0.since() == 0,
{
    proof {
        lemma_codec_names();
    }
    let mut out = ChecksumIndexOutput::new(IndexOutput::in_memory());
    write_index_header(&mut out, codec, FORMAT_VERSION, id, "")?;
    assert(out.written() =~= points_header(codec@, id@));
    Ok(out)
}

/// Writes the leaves; gives where they begin, and the first value of every
/// leaf but the first.
fn write_leaves(data: &mut ChecksumIndexOutput, points: &Vec<(u64, u32)>, n: usize) -> (r: Result<(Vec<u64>, Vec<u64>), Error>)
    requires
        points@.len() > 0,
        0 < n <= 8,
    ensures
        final(data).since() == old(data).since(),
        r is Ok,
        r->Ok_0.0@ == leaf_places(points@, n as nat, old(data).written().len()),
        r->Ok_0.1@ == leaf_starts(points@),
        final(data).written() == old(data).written() + leaves_bytes(points@, n as nat, leaf_count(points@)),
{
    let ghost base = data.written();
    let ghost v = points@;
    let count: usize = points.len();
    let leaves: usize = (count - 1) / 512 + 1;
    assert(leaves == leaf_count(v));
    let ghost places = leaf_places(v, n as nat, base.len());
    let ghost firsts = leaf_starts(v);
    let mut fps: Vec<u64> = Vec::new();
    let mut starts: Vec<u64> = Vec::new();
    let mut i: usize = 0;
    assert(base + leaves_bytes(v, n as nat, 0) =~= base);
    while i < leaves
        invariant
            data.since() == old(data).since(),
            i <= leaves == leaf_count(v),
            v == points@,
            count == points.len(),
            count > 0,
            leaves == (count - 1) / 512 + 1,
            0 < n <= 8,
            places == leaf_places(v, n as nat, base.len()),
            firsts == leaf_starts(v),
            fps@ == places.take(i as int),
            starts@ == firsts.take(if i == 0 { 0 } else { i - 1 }),
            data.written() == base + leaves_bytes(v, n as nat, i as int),
        decreases leaves - i,
    {
        let from: usize = 512 * i;
        let to: usize = if count - from < 512 { count } else { from + 512 };
        let leaf = &points.as_slice()[from..to];
        assert(leaf@ =~= leaf_of(v, i as int));
        if i > 0 {
            starts.push(points[from].0);
            assert(starts@ =~= firsts.take(i as int));
        }
        fps.push(data.file_pointer());
        assert(fps@ =~= places.take(i + 1));
        write_leaf_block(data, leaf, n)?;
        proof {
            lemma_concat_assoc(base, leaves_bytes(v, n as nat, i as int), leaf_bytes(leaf@, n as nat));
        }
        i = i + 1;
    }
    assert(places.take(leaves as int) =~= places);
    assert(firsts.take(leaves - 1) =~= firsts);
    Ok((fps, starts))
}

/// Writes the entry of a field.
fn write_meta(meta: &mut ChecksumIndexOutput, number: i32, n: usize, points: &Vec<(u64, u32)>, leaves: usize, docs: usize, index_len: usize, data_start: u64, index_start: u64) -> (r: Result<
    (),
    Error,
>)
    requires
        points@.len() > 0,
        0 < n <= 8,
        leaves == leaf_count(points@),
        docs == point_docs(points@).to_set().len(),
        index_len == point_index(PointField { number, width: n as nat, points: points@ }, data_start as nat).len(),
    ensures
        final(meta).since() == old(meta).since(),
        r is Ok,
        final(meta).written() == old(meta).written() + point_meta(PointField { number, width: n as nat, points: points@ }, data_start as nat, index_start as nat),
{
    broadcast use lemma_concat_assoc;
    proof {
        reveal(point_meta);
        lemma_codec_names();
    }
    let ghost base = meta.written();
    let ghost f = PointField { number, width: n as nat, points: points@ };
    meta.write_int(number)?;
    write_header(meta, BKD_CODEC_NAME, BKD_VERSION)?;
    meta.write_vint(1)?;
    meta.write_vint(1)?;
    meta.write_vint(512)?;
    put_vint(meta, n as u128)?;
    put_vint(meta, leaves as u128)?;
    let min = be_vec(points[0].0, n);
    let max = be_vec(points[points.len() - 1].0, n);
    meta.write_bytes(&min)?;
    meta.write_bytes(&max)?;
    put_vlong(meta, points.len() as u128)?;
    put_vint(meta, docs as u128)?;
    put_vint(meta, index_len as u128)?;
    meta.write_long(to_i64(data_start))?;
    meta.write_long(to_i64(index_start))?;
    assert(meta.written() == base + point_meta(f, data_start as nat, index_start as nat));
    Ok(())
}

/// Writes the points files of a segment.
pub struct PointsWriter {
    data_out: ChecksumIndexOutput,
    index_out: ChecksumIndexOutput,
    meta_out: ChecksumIndexOutput,
    segment: String,
    fields: Ghost<Seq<PointField>>,
    id: Ghost<Seq<u8>>,
}

impl PointsWriter {
    /// The fields written so far.
    pub closed spec fn fields(&self) -> Seq<PointField> {
        self.fields@
    }

    pub closed spec fn id(&self) -> Seq<u8> {
        self.id@
    }

    pub closed spec fn segment(&self) -> Seq<char> {
        self.segment@
    }

    /// What was written is what the fields call for.
    pub closed spec fn wf(&self) -> bool {
        &&& self.data_out.written() == kdd_body(self.fields@, self.id@)
        &&& self.index_out.written() == kdi_body(self.fields@, self.id@)
        &&& self.meta_out.written() == kdm_body(self.fields@, self.id@)
        &&& self.data_out.since() == 0
        &&& self.index_out.since() == 0
        &&& self.meta_out.since() == 0
        &&& forall|i: int| 0 <= i < self.fields@.len() ==> field_ok(#[trigger] self.fields@[i])
    }

    /// The points of every field are in order, and their values have the
    /// field's width.
    pub proof fn law_fields_ok(&self, i: int)
        requires
            self.wf(),
            0 <= i < self.fields().len(),
        ensures
            field_ok(self.fields()[i]),
    {
    }

    /// Starts the three files.
    pub fn new(segment: &str, segment_id: &[u8; 16]) -> (r: Result<Self, Error>)
        ensures
            r is Ok,
            r->Ok_0.wf(),
            r->Ok_0.fields() == Seq::<PointField>::empty(),
            r->Ok_0.id() == segment_id@,
            r->Ok_0.segment() == segment@,
    {
        proof {
            lemma_codec_names();
        }
        let data_out = open_file(DATA_CODEC_NAME, segment_id)?;
        let index_out = open_file(INDEX_CODEC_NAME, segment_id)?;
        let meta_out = open_file(META_CODEC_NAME, segment_id)?;
        let w = PointsWriter { data_out, index_out, meta_out, segment: segment.to_owned(), fields: Ghost(Seq::empty()), id: Ghost(segment_id@) };
        proof {
            assert(w.data_out.written() =~= kdd_body(w.fields@, w.id@));
            assert(w.index_out.written() =~= kdi_body(w.fields@, w.id@));
            assert(w.meta_out.written() =~= kdm_body(w.fields@, w.id@));
        }
        Ok(w)
    }

    /// What is appended for a field keeps the files in order.
    proof fn lemma_appended(fields: Seq<PointField>, f: PointField, id: Seq<u8>)
        ensures
            kdd_body(fields.push(f), id) == kdd_body(fields, id) + point_data(f),
            kdi_body(fields.push(f), id) == kdi_body(fields, id) + point_index(f, kdd_body(fields, id).len()),
            kdm_body(fields.push(f), id) == kdm_body(fields, id) + point_meta(f, kdd_body(fields, id).len(), kdi_body(fields, id).len()),
    {
        assert(fields.push(f).drop_last() =~= fields);
        let h = points_header(DATA_CODEC_NAME@, id);
        let i = points_header(INDEX_CODEC_NAME@, id);
        let m = points_header(META_CODEC_NAME@, id);
        let at = h.len() + points_data(fields).len();
        lemma_concat_assoc(h, points_data(fields), point_data(f));
        lemma_concat_assoc(i, points_index(fields, h.len()), point_index(f, at));
        lemma_concat_assoc(m, points_meta(fields, h.len(), i.len()), point_meta(f, at, i.len() + points_index(fields, h.len()).len()));
    }

    /// Writes a field whose values have `n` bytes.
    fn write_field_1d(&mut self, number: i32, points: &Vec<(u64, u32)>, n: usize) -> (r: Result<(), Error>)
        requires
            old(self).wf(),
            points@.len() > 0,
            0 < n <= 8,
            keys_fit(points@, n as nat),
        ensures
            r is Ok,
            final(self).wf(),
            final(self).fields() == old(self).fields().push(PointField { number, width: n as nat, points: sorted_points(points@) }),
            final(self).id() == old(self).id(),
            final(self).segment() == old(self).segment(),
    {
        let sorted = sort_points(points.as_slice());
        proof {
            law_sorted_points(points@);
            lemma_sorted_fit(points@, n as nat);
        }
        let ghost f = PointField { number, width: n as nat, points: sorted@ };
        proof {
            reveal(point_data);
            reveal(point_index);
        }
        let data_start: u64 = self.data_out.file_pointer();
        let index_start: u64 = self.index_out.file_pointer();
        let (fps, starts) = write_leaves(&mut self.data_out, &sorted, n)?;
        let docs: usize = count_docs(&sorted);
        let packed = pack_index(&fps, &starts, n);
        write_meta(&mut self.meta_out, number, n, &sorted, fps.len(), docs, packed.len(), data_start, index_start)?;
        self.index_out.write_bytes(&packed)?;
        proof {
            Self::lemma_appended(self.fields@, f, self.id@);
            self.fields@ = self.fields@.push(f);
        }
        Ok(())
    }

    /// Writes a field of longs. Points may come in any order and repeat. A
    /// field without points leaves no trace.
    pub fn write_field_long(&mut self, field_number: i32, points: &mut [(i64, u32)]) -> (r: Result<(), Error>)
        requires
            old(self).wf(),
        ensures
            r is Ok,
            final(self).wf(),
            final(points)@ == old(points)@,
            final(self).fields() == if old(points)@.len() == 0 {
                old(self).fields()
            } else {
                old(self).fields().push(PointField { number: field_number, width: 8, points: sorted_points(long_points(old(points)@)) })
            },
            final(self).id() == old(self).id(),
            final(self).segment() == old(self).segment(),
    {
        if points.len() == 0 {
            return Ok(());
        }
        let ghost v = points@;
        let mut keys: Vec<(u64, u32)> = Vec::new();
        let mut i: usize = 0;
        while i < points.len()
            invariant
                i <= points@.len(),
                v == points@,
                points@ == old(points)@,
                keys@ == long_points(v.take(i as int)),
            decreases points@.len() - i,
        {
            let (value, doc) = points[i];
            keys.push((long_to_key(value), doc));
            assert(keys@ =~= long_points(v.take(i + 1)));
            i = i + 1;
        }
        assert(v.take(i as int) =~= v);
        proof {
            lemma_pow2_widths();
        }
        self.write_field_1d(field_number, &keys, 8)
    }

    /// Writes a field of ints.
    pub fn write_field_int(&mut self, field_number: i32, points: &mut [(i32, u32)]) -> (r: Result<(), Error>)
        requires
            old(self).wf(),
        ensures
            r is Ok,
            final(self).wf(),
            final(points)@ == old(points)@,
            final(self).fields() == if old(points)@.len() == 0 {
                old(self).fields()
            } else {
                old(self).fields().push(PointField { number: field_number, width: 4, points: sorted_points(int_points(old(points)@)) })
            },
            final(self).id() == old(self).id(),
            final(self).segment() == old(self).segment(),
    {
        if points.len() == 0 {
            return Ok(());
        }
        let ghost v = points@;
        let mut keys: Vec<(u64, u32)> = Vec::new();
        let mut i: usize = 0;
        while i < points.len()
            invariant
                i <= points@.len(),
                v == points@,
                points@ == old(points)@,
                keys@ == int_points(v.take(i as int)),
            decreases points@.len() - i,
        {
            let (value, doc) = points[i];
            keys.push((int_to_key(value), doc));
            assert(keys@ =~= int_points(v.take(i + 1)));
            i = i + 1;
        }
        assert(v.take(i as int) =~= v);
        proof {
            lemma_pow2_widths();
        }
        self.write_field_1d(field_number, &keys, 4)
    }

    /// Ends the files. Gives the data, the index and the metadata file.
    pub fn finish(self) -> (r: Result<Vec<SegmentFile>, Error>)
        requires
            self.wf(),
        ensures
            r is Ok,
            r->Ok_0@.len() == 3,
            r->Ok_0@[0].name@ == points_file_name(self.segment(), DATA_EXTENSION@),
            r->Ok_0@[0].bytes@ == kdd_file(self.fields(), self.id()),
            r->Ok_0@[1].name@ == points_file_name(self.segment(), INDEX_EXTENSION@),
            r->Ok_0@[1].bytes@ == kdi_file(self.fields(), self.id()),
            r->Ok_0@[2].name@ == points_file_name(self.segment(), META_EXTENSION@),
            r->Ok_0@[2].bytes@ == kdm_file(self.fields(), self.id()),
    {
        let mut meta = self.meta_out;
        let mut index = self.index_out;
        let mut data = self.data_out;
        meta.write_int(-1)?;
        write_footer(&mut index)?;
        write_footer(&mut data)?;
        meta.write_long(to_i64(index.file_pointer()))?;
        meta.write_long(to_i64(data.file_pointer()))?;
        write_footer(&mut meta)?;
        let segment = self.segment.as_str();
        let mut files: Vec<SegmentFile> = Vec::new();
        files.push(SegmentFile { name: file_name(segment, DATA_EXTENSION), bytes: data.into_bytes() });
        files.push(SegmentFile { name: file_name(segment, INDEX_EXTENSION), bytes: index.into_bytes() });
        files.push(SegmentFile { name: file_name(segment, META_EXTENSION), bytes: meta.into_bytes() });
        Ok(files)
    }
}

} // verus!
