//! Points that were written are found again.

use crate::bytes::{
    common_prefix, is_common_prefix, lemma_common_prefix, lemma_common_prefix_unique, lex_less,
    holds_at, int_at, int_bytes, law_int_round_trip, law_long_round_trip, law_vint_round_trip, law_vlong_round_trip, lemma_be_bytes_len, lemma_be_round_trip, lemma_holds_concat,
    lemma_le_bytes_len, lemma_pow2_widths, long_bytes, vint_bytes, vint_of, vlong_of,
};
use crate::codec_util::{header_bytes, law_footer_round_trip, law_footer_structure, law_header_round_trip, law_index_header_round_trip};
use crate::doc_ids::lemma_read_u32;
use crate::doc_values_laws::lemma_holds_inside;
use crate::error::ErrorKind;
use crate::field_infos::FieldInfo;
use crate::leaf_block::{docs_in_range, in_range, leaf_points};
use crate::num::spec_to_i64;
use crate::point_index::{law_index_round_trip, splits_of};
use crate::point_order::{int_key, key_bytes, law_key_order, law_sortable_order, law_sorted_points, long_key, point_docs, point_leq, point_order, points_ascend, sorted_points};
use crate::points::{
    counts_bytes, dims_bytes, extremes_bytes, field_ok, int_points, kdd_body, kdd_file, kdi_body, kdi_file, kdm_body, kdm_file, leaf_count, leaf_places, leaf_starts, long_points, point_data, point_index, point_meta,
    points_data, points_header, points_index, points_meta, PointField, BKD_CODEC_NAME, BKD_VERSION, DATA_CODEC_NAME, FORMAT_VERSION, INDEX_CODEC_NAME, META_CODEC_NAME,
};
use crate::points_read::{
    agrees, counts_at, dims_at, extremes_at, file_checked, kdm_read, numbered_from, part_of_file, points_opened, shape_at, shapes_at, tree_at, trees_from, unpacked, unpacked_all, FieldTree,
    PointShape,
};
use crate::points_reader::{law_intersect_exact, lemma_tree_ok, tree_docs};
use vstd::arithmetic::power2::pow2;
use vstd::prelude::*;
use vstd::utf8::encode_utf8;

verus! {

/// What the entry of a field says.
pub open spec fn shape_of(f: PointField, at: nat, index_at: nat) -> PointShape {
    PointShape {
        field_number: f.number,
        bytes_per_dim: f.width as usize,
        num_leaves: leaf_count(f.points) as usize,
        min_value: unpacked(key_bytes(f.points[0].0, f.width)),
        max_value: unpacked(key_bytes(f.points.last().0, f.width)),
        point_count: f.points.len() as u64,
        doc_count: (point_docs(f.points).to_set().len() % 0x1_0000_0000) as u32,
        data_start_fp: at as u64,
        index_start_fp: index_at as u64,
        packed_index_byte_length: point_index(f, at).len() as u64,
    }
}

/// A field that can be read back: its values are longs or ints, it has a
/// number, and its counts have the sizes that their places in the files allow.
#[verifier::opaque]
pub open spec fn point_recoverable(f: PointField) -> bool {
    &&& field_ok(f)
    &&& f.width == 4 || f.width == 8
    &&& 0 <= f.number
    &&& leaf_count(f.points) <= i32::MAX
    &&& f.points.len() <= i64::MAX
}

/// The field infos know a field as it was written.
pub open spec fn known(infos: Seq<FieldInfo>, f: PointField) -> bool {
    numbered_from(infos, f.number, 0) matches Some(i) && i.point_dimension_count == 1 && i.point_num_bytes == f.width
}

/// The least and the greatest value are in order.
proof fn lemma_extremes_ordered(f: PointField)
    requires
        field_ok(f),
    ensures
        !crate::bytes::lex_less(key_bytes(f.points.last().0, f.width), key_bytes(f.points[0].0, f.width)),
{
    let n = f.points.len();
    if n > 1 {
        assert(point_leq(f.points[0], f.points[n - 1]));
    }
    assert(f.points[0].0 < pow2(8 * f.width));
    assert(f.points[n - 1].0 < pow2(8 * f.width));
    law_key_order(f.points.last().0, f.points[0].0, f.width);
}

proof fn lemma_name_lengths()
    ensures
        encode_utf8(BKD_CODEC_NAME@).len() < 128,
        encode_utf8(DATA_CODEC_NAME@).len() < 128,
        encode_utf8(INDEX_CODEC_NAME@).len() < 128,
        encode_utf8(META_CODEC_NAME@).len() < 128,
        encode_utf8(Seq::<char>::empty()).len() == 0,
{
    reveal_strlit("Lucene90PointsFormatData");
    reveal_strlit("Lucene90PointsFormatIndex");
    reveal_strlit("Lucene90PointsFormatMeta");
    reveal_strlit("BKD");
    vstd::utf8::is_ascii_chars_encode_utf8(DATA_CODEC_NAME@);
    vstd::utf8::is_ascii_chars_encode_utf8(INDEX_CODEC_NAME@);
    vstd::utf8::is_ascii_chars_encode_utf8(META_CODEC_NAME@);
    vstd::utf8::is_ascii_chars_encode_utf8(BKD_CODEC_NAME@);
    vstd::utf8::is_ascii_chars_encode_utf8(Seq::<char>::empty());
}

proof fn lemma_dims_read(s: Seq<u8>, p: int, f: PointField)
    requires
        point_recoverable(f),
        holds_at(s, p, dims_bytes(f)),
    ensures
        dims_at(s, p) == Ok::<((usize, usize), int), ErrorKind>(((f.width as usize, leaf_count(f.points) as usize), p + dims_bytes(f).len())),
{
    reveal(point_recoverable);
    lemma_name_lengths();
    let h = header_bytes(BKD_CODEC_NAME@, BKD_VERSION);
    let (one, most) = (vint_bytes(1), vint_bytes(512));
    let (w, l) = (vint_of(f.width as int), vint_of(leaf_count(f.points)));
    lemma_holds_concat(s, p, h + one + one + most + w, l);
    lemma_holds_concat(s, p, h + one + one + most, w);
    lemma_holds_concat(s, p, h + one + one, most);
    lemma_holds_concat(s, p, h + one, one);
    lemma_holds_concat(s, p, h, one);
    law_header_round_trip(s, p, BKD_CODEC_NAME@, BKD_VERSION, BKD_VERSION, BKD_VERSION);
    let a = p + h.len();
    law_vint_round_trip(s, a, 1);
    law_vint_round_trip(s, a + one.len(), 1);
    let c = a + one.len() + one.len();
    law_vint_round_trip(s, c, 512);
    law_vint_round_trip(s, c + most.len(), f.width as i32);
    law_vint_round_trip(s, c + most.len() + w.len(), leaf_count(f.points) as i32);
}

proof fn lemma_extremes_read(s: Seq<u8>, p: int, f: PointField)
    requires
        point_recoverable(f),
        holds_at(s, p, extremes_bytes(f)),
    ensures
        extremes_at(s, p, f.width as int) == Ok::<((i64, i64), int), ErrorKind>(
            ((unpacked(key_bytes(f.points[0].0, f.width)), unpacked(key_bytes(f.points.last().0, f.width))), p + extremes_bytes(f).len()),
        ),
{
    broadcast use lemma_be_bytes_len;
    reveal(point_recoverable);
    lemma_extremes_ordered(f);
    let (a, b) = (key_bytes(f.points[0].0, f.width), key_bytes(f.points.last().0, f.width));
    lemma_holds_concat(s, p, a, b);
}

proof fn lemma_counts_read(s: Seq<u8>, p: int, f: PointField, at: nat, index_at: nat)
    requires
        point_recoverable(f),
        holds_at(s, p, counts_bytes(f, at, index_at)),
        at <= u64::MAX,
        index_at <= u64::MAX,
        point_index(f, at).len() < 0x8000_0000,
    ensures
        counts_at(s, p) == Ok::<((u64, u32, u64, u64, u64), int), ErrorKind>(
            (
                (f.points.len() as u64, (point_docs(f.points).to_set().len() % 0x1_0000_0000) as u32, point_index(f, at).len() as u64, at as u64, index_at as u64),
                p + counts_bytes(f, at, index_at).len(),
            ),
        ),
{
    broadcast use lemma_le_bytes_len;
    reveal(point_recoverable);
    let docs = point_docs(f.points).to_set().len();
    let d = (docs % 0x1_0000_0000) as u32;
    let n = point_index(f, at).len();
    let (a, b, c) = (vlong_of(f.points.len() as int), vint_of(docs as int), vint_of(n as int));
    let (x, y) = (long_bytes(spec_to_i64(at as u64)), long_bytes(spec_to_i64(index_at as u64)));
    lemma_holds_concat(s, p, a + b + c + x, y);
    lemma_holds_concat(s, p, a + b + c, x);
    lemma_holds_concat(s, p, a + b, c);
    lemma_holds_concat(s, p, a, b);
    law_vlong_round_trip(s, p, f.points.len() as i64);
    let q = p + a.len();
    lemma_read_u32(s, q, d);
    law_vint_round_trip(s, q + b.len(), n as i32);
    let e = q + b.len() + c.len();
    law_long_round_trip(s, e, spec_to_i64(at as u64));
    law_long_round_trip(s, e + 8, spec_to_i64(index_at as u64));
}

/// The entry of a field is read back.
proof fn lemma_shape_read(s: Seq<u8>, p: int, f: PointField, at: nat, index_at: nat)
    requires
        point_recoverable(f),
        holds_at(s, p, point_meta(f, at, index_at)),
        at <= u64::MAX,
        index_at <= u64::MAX,
        point_index(f, at).len() < 0x8000_0000,
    ensures
        int_at(s, p) == Ok::<(i32, int), ErrorKind>((f.number, p + 4)),
        shape_at(s, p + 4, f.number) == Ok::<(PointShape, int), ErrorKind>((shape_of(f, at, index_at), p + point_meta(f, at, index_at).len())),
        point_meta(f, at, index_at).len() > 0,
{
    broadcast use lemma_le_bytes_len;
    reveal(point_meta);
    let (n, a, b, c) = (int_bytes(f.number), dims_bytes(f), extremes_bytes(f), counts_bytes(f, at, index_at));
    lemma_holds_concat(s, p, n + a + b, c);
    lemma_holds_concat(s, p, n + a, b);
    lemma_holds_concat(s, p, n, a);
    law_int_round_trip(s, p, f.number);
    lemma_dims_read(s, p + 4, f);
    lemma_extremes_read(s, p + 4 + a.len(), f);
    lemma_counts_read(s, p + 4 + a.len() + b.len(), f, at, index_at);
    assert(f.width as usize as int == f.width) by {
        reveal(point_recoverable);
    }
}

// ---------------------------------------------------------------------------
// All fields
// ---------------------------------------------------------------------------

/// Where field `k`'s leaves begin.
pub open spec fn data_place(fields: Seq<PointField>, k: int, at: nat) -> nat {
    at + points_data(fields.take(k)).len()
}

/// Where field `k`'s index begins.
pub open spec fn index_place(fields: Seq<PointField>, k: int, at: nat, index_at: nat) -> nat {
    index_at + points_index(fields.take(k), at).len()
}

/// What comes of the first `k` fields comes first.
proof fn lemma_prefix(fields: Seq<PointField>, k: int, at: nat, index_at: nat)
    requires
        0 <= k <= fields.len(),
    ensures
        holds_at(points_data(fields), 0, points_data(fields.take(k))),
        holds_at(points_index(fields, at), 0, points_index(fields.take(k), at)),
        holds_at(points_meta(fields, at, index_at), 0, points_meta(fields.take(k), at, index_at)),
    decreases fields.len() - k,
{
    let a = points_data(fields.take(k));
    let b = points_index(fields.take(k), at);
    let c = points_meta(fields.take(k), at, index_at);
    if k < fields.len() {
        lemma_prefix(fields, k + 1, at, index_at);
        assert(fields.take(k + 1).drop_last() =~= fields.take(k));
        lemma_holds_concat(points_data(fields), 0, a, point_data(fields[k]));
        lemma_holds_concat(points_index(fields, at), 0, b, point_index(fields[k], data_place(fields, k, at)));
        lemma_holds_concat(points_meta(fields, at, index_at), 0, c, point_meta(fields[k], data_place(fields, k, at), index_place(fields, k, at, index_at)));
    } else {
        assert(fields.take(k) =~= fields);
        assert(a.subrange(0, a.len() as int) =~= a);
        assert(b.subrange(0, b.len() as int) =~= b);
        assert(c.subrange(0, c.len() as int) =~= c);
    }
}

/// Where the parts of field `k` stand.
proof fn lemma_field_parts(fields: Seq<PointField>, k: int, at: nat, index_at: nat)
    requires
        0 <= k < fields.len(),
    ensures
        holds_at(points_data(fields), points_data(fields.take(k)).len() as int, point_data(fields[k])),
        holds_at(points_index(fields, at), points_index(fields.take(k), at).len() as int, point_index(fields[k], data_place(fields, k, at))),
        holds_at(
            points_meta(fields, at, index_at),
            points_meta(fields.take(k), at, index_at).len() as int,
            point_meta(fields[k], data_place(fields, k, at), index_place(fields, k, at, index_at)),
        ),
        points_meta(fields.take(k + 1), at, index_at).len() == points_meta(fields.take(k), at, index_at).len() + point_meta(
            fields[k],
            data_place(fields, k, at),
            index_place(fields, k, at, index_at),
        ).len(),
{
    lemma_prefix(fields, k + 1, at, index_at);
    assert(fields.take(k + 1).drop_last() =~= fields.take(k));
    lemma_holds_concat(points_data(fields), 0, points_data(fields.take(k)), point_data(fields[k]));
    lemma_holds_concat(points_index(fields, at), 0, points_index(fields.take(k), at), point_index(fields[k], data_place(fields, k, at)));
    lemma_holds_concat(
        points_meta(fields, at, index_at),
        0,
        points_meta(fields.take(k), at, index_at),
        point_meta(fields[k], data_place(fields, k, at), index_place(fields, k, at, index_at)),
    );
}

/// All fields can be read back, and the field infos know them.
#[verifier::opaque]
pub open spec fn all_recoverable(fields: Seq<PointField>, infos: Seq<FieldInfo>, at: nat) -> bool {
    forall|i: int| 0 <= i < fields.len() ==> point_recoverable(#[trigger] fields[i]) && known(infos, fields[i]) && point_index(fields[i], data_place(fields, i, at)).len() < 0x8000_0000
}

/// The entries of the first `k` fields.
pub open spec fn field_shapes(fields: Seq<PointField>, infos: Seq<FieldInfo>, k: int, at: nat, index_at: nat) -> Seq<(Seq<char>, PointShape)> {
    Seq::new(k as nat, |i: int| (numbered_from(infos, fields[i].number, 0)->Some_0.name@, shape_of(fields[i], data_place(fields, i, at), index_place(fields, i, at, index_at))))
}

proof fn lemma_shapes_step(s: Seq<u8>, p: int, infos: Seq<FieldInfo>, acc: Seq<(Seq<char>, PointShape)>, number: i32, shape: PointShape, z: int)
    requires
        int_at(s, p) == Ok::<(i32, int), ErrorKind>((number, p + 4)),
        number >= 0,
        shape_at(s, p + 4, number) == Ok::<(PointShape, int), ErrorKind>((shape, z)),
        agrees(numbered_from(infos, number, 0), shape),
        z > p,
    ensures
        shapes_at(s, p, infos, acc) == shapes_at(s, z, infos, acc.push((numbered_from(infos, number, 0)->Some_0.name@, shape))),
{
    reveal_with_fuel(shapes_at, 2);
}

/// Field `k`'s entry is read, and comes to the others.
proof fn lemma_shapes_next(s: Seq<u8>, p: int, fields: Seq<PointField>, infos: Seq<FieldInfo>, k: int, at: nat, index_at: nat)
    requires
        0 <= k < fields.len(),
        all_recoverable(fields, infos, at),
        holds_at(s, p, points_meta(fields, at, index_at)),
        at + points_data(fields).len() <= u64::MAX,
        index_at + points_index(fields, at).len() <= u64::MAX,
    ensures
        shapes_at(s, p + points_meta(fields.take(k), at, index_at).len(), infos, field_shapes(fields, infos, k, at, index_at)) == shapes_at(
            s,
            p + points_meta(fields.take(k + 1), at, index_at).len(),
            infos,
            field_shapes(fields, infos, k + 1, at, index_at),
        ),
{
    let f = fields[k];
    let (x, y) = (data_place(fields, k, at), index_place(fields, k, at, index_at));
    assert(point_recoverable(f) && known(infos, f) && point_index(f, x).len() < 0x8000_0000) by {
        reveal(all_recoverable);
    }
    lemma_prefix(fields, k, at, index_at);
    lemma_field_parts(fields, k, at, index_at);
    let off = points_meta(fields.take(k), at, index_at).len() as int;
    lemma_holds_inside(s, p, points_meta(fields, at, index_at), off, point_meta(f, x, y));
    lemma_shape_read(s, p + off, f, x, y);
    assert(f.number >= 0 && f.width <= 8) by {
        reveal(point_recoverable);
    }
    lemma_shapes_step(s, p + off, infos, field_shapes(fields, infos, k, at, index_at), f.number, shape_of(f, x, y), p + off + point_meta(f, x, y).len());
    assert(field_shapes(fields, infos, k, at, index_at).push((numbered_from(infos, f.number, 0)->Some_0.name@, shape_of(f, x, y))) =~= field_shapes(fields, infos, k + 1, at, index_at));
}

proof fn lemma_shapes_read(s: Seq<u8>, p: int, fields: Seq<PointField>, infos: Seq<FieldInfo>, k: int, at: nat, index_at: nat)
    requires
        0 <= k <= fields.len(),
        all_recoverable(fields, infos, at),
        holds_at(s, p, points_meta(fields, at, index_at)),
        int_at(s, p + points_meta(fields, at, index_at).len()) == Ok::<(i32, int), ErrorKind>((-1i32, p + points_meta(fields, at, index_at).len() + 4)),
        at + points_data(fields).len() <= u64::MAX,
        index_at + points_index(fields, at).len() <= u64::MAX,
    ensures
        shapes_at(s, p + points_meta(fields.take(k), at, index_at).len(), infos, field_shapes(fields, infos, k, at, index_at)) == Ok::<(Seq<(Seq<char>, PointShape)>, int), ErrorKind>(
            (field_shapes(fields, infos, fields.len() as int, at, index_at), p + points_meta(fields, at, index_at).len() + 4),
        ),
    decreases fields.len() - k,
{
    if k < fields.len() {
        lemma_shapes_next(s, p, fields, infos, k, at, index_at);
        lemma_shapes_read(s, p, fields, infos, k + 1, at, index_at);
    } else {
        assert(fields.take(k) =~= fields);
    }
}

/// A field with its index.
pub open spec fn tree_of(f: PointField, name: Seq<char>, at: nat, index_at: nat) -> FieldTree {
    FieldTree {
        name,
        shape: shape_of(f, at, index_at),
        leaf_fps: leaf_places(f.points, f.width, at),
        splits: Seq::new((leaf_count(f.points) - 1) as nat, |i: int| unpacked(key_bytes(leaf_starts(f.points)[i], f.width))),
    }
}

/// The index of a field is read back.
proof fn lemma_tree_read(kdd: Seq<u8>, kdi: Seq<u8>, f: PointField, name: Seq<char>, at: nat, index_at: nat)
    requires
        point_recoverable(f),
        point_index(f, at).len() < 0x8000_0000,
        holds_at(kdd, at as int, point_data(f)),
        holds_at(kdi, index_at as int, point_index(f, at)),
        kdd.len() <= i64::MAX,
        kdi.len() <= i64::MAX,
    ensures
        tree_at(kdi, name, shape_of(f, at, index_at)) == Ok::<FieldTree, ErrorKind>(tree_of(f, name, at, index_at)),
{
    reveal(point_recoverable);
    let (fps, starts) = (leaf_places(f.points, f.width, at), leaf_starts(f.points));
    lemma_tree_ok(kdd, at, f);
    reveal(point_index);
    law_index_round_trip(fps, starts, f.width);
    assert(unpacked_all(splits_of(starts, f.width, 0, fps.len() as int)) =~= tree_of(f, name, at, index_at).splits);
    assert(leaf_count(f.points) as usize as int == leaf_count(f.points));
}

/// The first `k` fields with their indexes.
pub open spec fn field_trees(fields: Seq<PointField>, infos: Seq<FieldInfo>, k: int, at: nat, index_at: nat) -> Seq<FieldTree> {
    Seq::new(k as nat, |i: int| tree_of(fields[i], numbered_from(infos, fields[i].number, 0)->Some_0.name@, data_place(fields, i, at), index_place(fields, i, at, index_at)))
}

proof fn lemma_trees_read(kdd: Seq<u8>, kdi: Seq<u8>, fields: Seq<PointField>, infos: Seq<FieldInfo>, k: int, at: nat, index_at: nat)
    requires
        0 <= k <= fields.len(),
        all_recoverable(fields, infos, at),
        holds_at(kdd, at as int, points_data(fields)),
        holds_at(kdi, index_at as int, points_index(fields, at)),
        kdd.len() <= i64::MAX,
        kdi.len() <= i64::MAX,
    ensures
        trees_from(kdi, field_shapes(fields, infos, fields.len() as int, at, index_at), k, field_trees(fields, infos, k, at, index_at)) == Ok::<Seq<FieldTree>, ErrorKind>(
            field_trees(fields, infos, fields.len() as int, at, index_at),
        ),
    decreases fields.len() - k,
{
    let shapes = field_shapes(fields, infos, fields.len() as int, at, index_at);
    if k < fields.len() {
        let f = fields[k];
        let (x, y) = (data_place(fields, k, at), index_place(fields, k, at, index_at));
        assert(point_recoverable(f) && point_index(f, x).len() < 0x8000_0000) by {
            reveal(all_recoverable);
        }
        lemma_field_parts(fields, k, at, index_at);
        lemma_holds_inside(kdd, at as int, points_data(fields), points_data(fields.take(k)).len() as int, point_data(f));
        lemma_holds_inside(kdi, index_at as int, points_index(fields, at), points_index(fields.take(k), at).len() as int, point_index(f, x));
        lemma_tree_read(kdd, kdi, f, shapes[k].0, x, y);
        assert(field_trees(fields, infos, k, at, index_at).push(tree_of(f, shapes[k].0, x, y)) =~= field_trees(fields, infos, k + 1, at, index_at));
        lemma_trees_read(kdd, kdi, fields, infos, k + 1, at, index_at);
    }
}

// ---------------------------------------------------------------------------
// The files
// ---------------------------------------------------------------------------

/// Fields that can be read back from files of a possible size.
pub open spec fn points_recoverable(fields: Seq<PointField>, id: Seq<u8>, infos: Seq<FieldInfo>) -> bool {
    &&& all_recoverable(fields, infos, points_header(DATA_CODEC_NAME@, id).len())
    &&& id.len() == 16
    &&& kdd_file(fields, id).len() <= i64::MAX
    &&& kdi_file(fields, id).len() <= i64::MAX
}

proof fn lemma_kdm_opens(fields: Seq<PointField>, id: Seq<u8>, infos: Seq<FieldInfo>)
    requires
        points_recoverable(fields, id, infos),
    ensures
        kdm_read(kdm_file(fields, id), id, infos) == Ok::<(Seq<(Seq<char>, PointShape)>, u64, u64), ErrorKind>(
            (
                field_shapes(fields, infos, fields.len() as int, points_header(DATA_CODEC_NAME@, id).len(), points_header(INDEX_CODEC_NAME@, id).len()),
                kdi_file(fields, id).len() as u64,
                kdd_file(fields, id).len() as u64,
            ),
        ),
{
    broadcast use lemma_le_bytes_len;
    lemma_name_lengths();
    let (dh, ih, mh) = (points_header(DATA_CODEC_NAME@, id), points_header(INDEX_CODEC_NAME@, id), points_header(META_CODEC_NAME@, id));
    let (x, y) = (dh.len(), ih.len());
    let all = points_meta(fields, x, y);
    let (a, b) = (kdi_file(fields, id).len() as u64, kdd_file(fields, id).len() as u64);
    let (end, la, lb) = (int_bytes(-1i32), long_bytes(spec_to_i64(a)), long_bytes(spec_to_i64(b)));
    let body = kdm_body(fields, id) + end + la + lb;
    let s = kdm_file(fields, id);
    assert(s.subrange(0, body.len() as int) =~= body);
    lemma_holds_concat(s, 0, mh + all + end + la, lb);
    lemma_holds_concat(s, 0, mh + all + end, la);
    lemma_holds_concat(s, 0, mh + all, end);
    lemma_holds_concat(s, 0, mh, all);
    let p = mh.len() as int;
    let q = p + all.len();
    law_index_header_round_trip(s, 0, META_CODEC_NAME@, FORMAT_VERSION, FORMAT_VERSION, FORMAT_VERSION, id, Seq::empty());
    law_int_round_trip(s, q, -1i32);
    lemma_shapes_read(s, p, fields, infos, 0, x, y);
    assert(fields.take(0) =~= Seq::empty());
    assert(field_shapes(fields, infos, 0, x, y) =~= Seq::empty());
    law_long_round_trip(s, q + 4, spec_to_i64(a));
    law_long_round_trip(s, q + 12, spec_to_i64(b));
    law_footer_round_trip(body);
}

proof fn lemma_file_checked(body: Seq<u8>, rest: Seq<u8>, codec: Seq<char>, id: Seq<u8>)
    requires
        body == points_header(codec, id) + rest,
        id.len() == 16,
        encode_utf8(codec).len() < 128,
        crate::points::with_footer(body).len() <= i64::MAX,
    ensures
        file_checked(crate::points::with_footer(body), codec, id, crate::points::with_footer(body).len() as u64) is Ok,
        holds_at(crate::points::with_footer(body), points_header(codec, id).len() as int, rest),
{
    lemma_name_lengths();
    let s = crate::points::with_footer(body);
    let h = points_header(codec, id);
    assert(s.subrange(0, h.len() as int) =~= h);
    assert(s.subrange(h.len() as int, (h.len() + rest.len()) as int) =~= rest);
    law_index_header_round_trip(s, 0, codec, FORMAT_VERSION, FORMAT_VERSION, FORMAT_VERSION, id, Seq::empty());
    law_footer_structure(body);
}

/// Points files that were written can be opened. They have the fields that
/// were written, in order, each with its counts, its least and greatest value,
/// the places of its leaves and the values that part them.
pub proof fn law_points_files_open(fields: Seq<PointField>, id: Seq<u8>, infos: Seq<FieldInfo>)
    requires
        points_recoverable(fields, id, infos),
    ensures
        points_opened(kdm_file(fields, id), kdi_file(fields, id), kdd_file(fields, id), id, infos) == Ok::<Seq<FieldTree>, ErrorKind>(
            field_trees(fields, infos, fields.len() as int, points_header(DATA_CODEC_NAME@, id).len(), points_header(INDEX_CODEC_NAME@, id).len()),
        ),
{
    lemma_name_lengths();
    let (x, y) = (points_header(DATA_CODEC_NAME@, id).len(), points_header(INDEX_CODEC_NAME@, id).len());
    lemma_kdm_opens(fields, id, infos);
    lemma_file_checked(kdi_body(fields, id), points_index(fields, x), INDEX_CODEC_NAME@, id);
    lemma_file_checked(kdd_body(fields, id), points_data(fields), DATA_CODEC_NAME@, id);
    lemma_trees_read(kdd_file(fields, id), kdi_file(fields, id), fields, infos, 0, x, y);
    assert(field_trees(fields, infos, 0, x, y) =~= Seq::empty());
}

/// A walk over field `k` in the files that were written, from where its
/// metadata say that it is, gives the documents of exactly the points whose
/// value is within the bounds, in the order of the points.
pub proof fn law_written_points_found(fields: Seq<PointField>, id: Seq<u8>, infos: Seq<FieldInfo>, k: int, lower: Option<Seq<u8>>, upper: Option<Seq<u8>>)
    requires
        points_recoverable(fields, id, infos),
        0 <= k < fields.len(),
    ensures
        ({
            let x = points_header(DATA_CODEC_NAME@, id).len();
            let shape = shape_of(fields[k], data_place(fields, k, x), index_place(fields, k, x, points_header(INDEX_CODEC_NAME@, id).len()));
            let (points, n) = (fields[k].points, fields[k].width);
            part_of_file(kdi_file(fields, id), shape.index_start_fp, shape.packed_index_byte_length) matches Ok(packed) && tree_docs(
                kdd_file(fields, id),
                packed,
                (key_bytes(points[0].0, n), key_bytes(points.last().0, n)),
                n,
                shape.num_leaves as int,
                lower,
                upper,
            ) == Ok::<Seq<u32>, ErrorKind>(docs_in_range(leaf_points(points, n), lower, upper))
        }),
{
    lemma_name_lengths();
    let (x, y) = (points_header(DATA_CODEC_NAME@, id).len(), points_header(INDEX_CODEC_NAME@, id).len());
    let (kdd, kdi) = (kdd_file(fields, id), kdi_file(fields, id));
    let f = fields[k];
    let (a, b) = (data_place(fields, k, x), index_place(fields, k, x, y));
    assert(point_recoverable(f) && point_index(f, a).len() < 0x8000_0000) by {
        reveal(all_recoverable);
    }
    reveal(point_recoverable);
    lemma_file_checked(kdi_body(fields, id), points_index(fields, x), INDEX_CODEC_NAME@, id);
    lemma_file_checked(kdd_body(fields, id), points_data(fields), DATA_CODEC_NAME@, id);
    lemma_field_parts(fields, k, x, y);
    lemma_holds_inside(kdd, x as int, points_data(fields), points_data(fields.take(k)).len() as int, point_data(f));
    lemma_holds_inside(kdi, y as int, points_index(fields, x), points_index(fields.take(k), x).len() as int, point_index(f, a));
    law_intersect_exact(kdd, a, f, lower, upper);
    assert(leaf_count(f.points) as usize as int == leaf_count(f.points));
}

/// The sortable bytes of a long stand for that long, and those of an int for
/// that int.
pub proof fn law_values_unpacked(v: i64, w: i32)
    ensures
        unpacked(key_bytes(crate::point_order::long_key(v), 8)) == v,
        unpacked(key_bytes(crate::point_order::int_key(w), 4)) == w,
{
    broadcast use lemma_be_bytes_len;
    lemma_pow2_widths();
    lemma_be_round_trip(crate::point_order::long_key(v) as nat, 8);
    lemma_be_round_trip(crate::point_order::int_key(w) as nat, 4);
}

// ---------------------------------------------------------------------------
// Ranges of numbers
// ---------------------------------------------------------------------------

/// A number is within bounds, each of which counts by itself where it is given.
pub open spec fn within(v: int, lower: Option<int>, upper: Option<int>) -> bool {
    &&& lower is Some ==> lower->Some_0 <= v
    &&& upper is Some ==> v <= upper->Some_0
}

/// The bound on an int, as an int.
pub open spec fn int_end(b: Option<i32>) -> Option<int> {
    match b {
        Some(v) => Some(v as int),
        None => None,
    }
}

/// The bound on a long.
pub open spec fn long_end(b: Option<i64>) -> Option<int> {
    match b {
        Some(v) => Some(v as int),
        None => None,
    }
}

/// The bytes of a bound on an int.
pub open spec fn int_bound(b: Option<i32>) -> Option<Seq<u8>> {
    match b {
        Some(v) => Some(key_bytes(int_key(v), 4)),
        None => None,
    }
}

/// The bytes of a bound on a long.
pub open spec fn long_bound(b: Option<i64>) -> Option<Seq<u8>> {
    match b {
        Some(v) => Some(key_bytes(long_key(v), 8)),
        None => None,
    }
}

/// An int is within bounds on bytes exactly if it is within those on ints, and
/// so is a long.
pub proof fn law_range_of_numbers(v: i32, lower: Option<i32>, upper: Option<i32>, w: i64, low: Option<i64>, high: Option<i64>)
    ensures
        in_range(key_bytes(int_key(v), 4), int_bound(lower), int_bound(upper)) <==> within(v as int, int_end(lower), int_end(upper)),
        in_range(key_bytes(long_key(w), 8), long_bound(low), long_bound(high)) <==> within(w as int, long_end(low), long_end(high)),
{
    if lower is Some {
        law_sortable_order(0, 0, v, lower->Some_0);
    }
    if upper is Some {
        law_sortable_order(0, 0, upper->Some_0, v);
    }
    if low is Some {
        law_sortable_order(w, low->Some_0, 0, 0);
    }
    if high is Some {
        law_sortable_order(high->Some_0, w, 0, 0);
    }
}

/// A value is within two bounds exactly if it is within each by itself, and a
/// bound that is not given keeps nothing out. Bounds order as byte strings do:
/// at the first byte that differs, and a string before those that go on from it.
pub proof fn law_bounds_by_themselves(value: Seq<u8>, lower: Seq<u8>, upper: Seq<u8>)
    ensures
        in_range(value, None, None),
        in_range(value, Some(lower), Some(upper)) <==> in_range(value, Some(lower), None) && in_range(value, None, Some(upper)),
        in_range(value, Some(lower), None) <==> lower == value || comes_before(lower, value),
        in_range(value, None, Some(upper)) <==> value == upper || comes_before(value, upper),
{
    lemma_comes_before(lower, value);
    lemma_comes_before(value, upper);
    lemma_comes_before(value, lower);
    lemma_comes_before(upper, value);
}

/// The order of byte strings.
pub open spec fn comes_before(a: Seq<u8>, b: Seq<u8>) -> bool {
    exists|k: int|
        {
            &&& 0 <= k <= a.len()
            &&& k < b.len()
            &&& #[trigger] a.take(k) == b.take(k)
            &&& k == a.len() || a[k] < b[k]
        }
}

proof fn lemma_comes_before(a: Seq<u8>, b: Seq<u8>)
    ensures
        comes_before(a, b) <==> lex_less(a, b),
        !(comes_before(a, b) && comes_before(b, a)),
        comes_before(a, b) || comes_before(b, a) || a == b,
        comes_before(a, b) ==> a != b,
{
    lemma_before_once(a, b);
    lemma_before_once(b, a);
    lemma_common_prefix(a, b);
    lemma_common_prefix(b, a);
    let k = common_prefix(a, b) as int;
    assert(is_common_prefix(b, a, k));
    lemma_common_prefix_unique(b, a, k);
    if k == a.len() && k == b.len() {
        assert(a =~= b);
    }
}

proof fn lemma_before_once(a: Seq<u8>, b: Seq<u8>)
    ensures
        comes_before(a, b) <==> lex_less(a, b),
{
    lemma_common_prefix(a, b);
    let c = common_prefix(a, b) as int;
    if lex_less(a, b) {
        assert(a.take(c) =~= b.take(c));
    }
    if comes_before(a, b) {
        let k = choose|k: int|
            {
                &&& 0 <= k <= a.len()
                &&& k < b.len()
                &&& #[trigger] a.take(k) == b.take(k)
                &&& k == a.len() || a[k] < b[k]
            };
        assert forall|i: int| 0 <= i < k implies a[i] == b[i] by {
            assert(a.take(k)[i] == b.take(k)[i]);
        }
        assert(is_common_prefix(a, b, k));
        lemma_common_prefix_unique(a, b, k);
    }
}

/// The ints of keys.
proof fn lemma_int_docs(keys: Seq<(u64, u32)>, ints: Seq<(i32, u32)>, lower: Option<i32>, upper: Option<i32>)
    requires
        keys == int_points(ints),
    ensures
        docs_in_range(leaf_points(keys, 4), int_bound(lower), int_bound(upper)) == ints.filter(|p: (i32, u32)| within(p.0 as int, int_end(lower), int_end(upper))).map_values(
            |p: (i32, u32)| p.1,
        ),
    decreases ints.len(),
{
    reveal_with_fuel(Seq::filter, 2);
    let f = |p: (i32, u32)| within(p.0 as int, int_end(lower), int_end(upper));
    let d = |p: (i32, u32)| p.1;
    let all = leaf_points(keys, 4);
    if ints.len() == 0 {
        assert(ints.filter(f).map_values(d) =~= Seq::empty());
    } else {
        let rest = ints.drop_last();
        assert(keys.drop_last() =~= int_points(rest));
        lemma_int_docs(keys.drop_last(), rest, lower, upper);
        assert(leaf_points(keys.drop_last(), 4) =~= all.drop_last());
        law_range_of_numbers(ints.last().0, lower, upper, 0, None, None);
        if f(ints.last()) {
            assert(ints.filter(f) == rest.filter(f).push(ints.last()));
            assert(ints.filter(f).map_values(d) =~= rest.filter(f).map_values(d).push(ints.last().1));
        } else {
            assert(ints.filter(f) == rest.filter(f));
        }
    }
}

proof fn lemma_long_docs(keys: Seq<(u64, u32)>, longs: Seq<(i64, u32)>, lower: Option<i64>, upper: Option<i64>)
    requires
        keys == long_points(longs),
    ensures
        docs_in_range(leaf_points(keys, 8), long_bound(lower), long_bound(upper)) == longs.filter(|p: (i64, u32)| within(p.0 as int, long_end(lower), long_end(upper))).map_values(
            |p: (i64, u32)| p.1,
        ),
    decreases longs.len(),
{
    reveal_with_fuel(Seq::filter, 2);
    let f = |p: (i64, u32)| within(p.0 as int, long_end(lower), long_end(upper));
    let d = |p: (i64, u32)| p.1;
    let all = leaf_points(keys, 8);
    if longs.len() == 0 {
        assert(longs.filter(f).map_values(d) =~= Seq::empty());
    } else {
        let rest = longs.drop_last();
        assert(keys.drop_last() =~= long_points(rest));
        lemma_long_docs(keys.drop_last(), rest, lower, upper);
        assert(leaf_points(keys.drop_last(), 8) =~= all.drop_last());
        law_range_of_numbers(0, None, None, longs.last().0, lower, upper);
        if f(longs.last()) {
            assert(longs.filter(f) == rest.filter(f).push(longs.last()));
            assert(longs.filter(f).map_values(d) =~= rest.filter(f).map_values(d).push(longs.last().1));
        } else {
            assert(longs.filter(f) == rest.filter(f));
        }
    }
}

/// The same points, by value and then by document.
pub open spec fn ints_in_order(given: Seq<(i32, u32)>, sorted: Seq<(i32, u32)>) -> bool {
    &&& sorted.to_multiset() == given.to_multiset()
    &&& forall|i: int, j: int| 0 <= i < j < sorted.len() ==> (#[trigger] sorted[i]).0 < (#[trigger] sorted[j]).0 || (sorted[i].0 == sorted[j].0 && sorted[i].1 <= sorted[j].1)
}

pub open spec fn longs_in_order(given: Seq<(i64, u32)>, sorted: Seq<(i64, u32)>) -> bool {
    &&& sorted.to_multiset() == given.to_multiset()
    &&& forall|i: int, j: int| 0 <= i < j < sorted.len() ==> (#[trigger] sorted[i]).0 < (#[trigger] sorted[j]).0 || (sorted[i].0 == sorted[j].0 && sorted[i].1 <= sorted[j].1)
}

/// Sorting ints sorts their keys.
proof fn lemma_int_order(given: Seq<(i32, u32)>, sorted: Seq<(i32, u32)>)
    requires
        ints_in_order(given, sorted),
    ensures
        sorted_points(int_points(given)) == int_points(sorted),
{
    let f = |p: (i32, u32)| (int_key(p.0), p.1);
    let (a, b) = (int_points(given), int_points(sorted));
    lemma_mapped_multiset(given, sorted, f);
    law_sorted_points(a);
    assert(points_ascend(b)) by {
        assert forall|i: int, j: int| 0 <= i < j < b.len() implies point_leq(#[trigger] b[i], #[trigger] b[j]) by {
            assert(sorted[i].0 < sorted[j].0 || (sorted[i].0 == sorted[j].0 && sorted[i].1 <= sorted[j].1));
        }
    }
    lemma_sorted_once(sorted_points(a), b);
}

proof fn lemma_long_order(given: Seq<(i64, u32)>, sorted: Seq<(i64, u32)>)
    requires
        longs_in_order(given, sorted),
    ensures
        sorted_points(long_points(given)) == long_points(sorted),
{
    let f = |p: (i64, u32)| (long_key(p.0), p.1);
    let (a, b) = (long_points(given), long_points(sorted));
    lemma_mapped_multiset(given, sorted, f);
    law_sorted_points(a);
    assert(points_ascend(b)) by {
        assert forall|i: int, j: int| 0 <= i < j < b.len() implies point_leq(#[trigger] b[i], #[trigger] b[j]) by {
            assert(sorted[i].0 < sorted[j].0 || (sorted[i].0 == sorted[j].0 && sorted[i].1 <= sorted[j].1));
        }
    }
    lemma_sorted_once(sorted_points(a), b);
}

/// Points have one order.
proof fn lemma_sorted_once(a: Seq<(u64, u32)>, b: Seq<(u64, u32)>)
    requires
        points_ascend(a),
        points_ascend(b),
        a.to_multiset() == b.to_multiset(),
    ensures
        a == b,
{
    let o = point_order();
    assert(vstd::relations::sorted_by(a, o)) by {
        assert forall|i: int, j: int| 0 <= i < j < a.len() implies #[trigger] o(a[i], a[j]) by {
            assert(point_leq(a[i], a[j]));
        }
    }
    assert(vstd::relations::sorted_by(b, o)) by {
        assert forall|i: int, j: int| 0 <= i < j < b.len() implies #[trigger] o(b[i], b[j]) by {
            assert(point_leq(b[i], b[j]));
        }
    }
    vstd::seq_lib::lemma_sorted_unique(a, b, o);
}

/// The same elements are mapped to the same elements.
proof fn lemma_mapped_multiset<A, B>(a: Seq<A>, b: Seq<A>, f: spec_fn(A) -> B)
    requires
        a.to_multiset() == b.to_multiset(),
    ensures
        a.map_values(f).to_multiset() == b.map_values(f).to_multiset(),
    decreases a.len(),
{
    broadcast use vstd::seq_lib::group_to_multiset_ensures;
    assert(a.len() == b.len()) by {
        assert(a.to_multiset().len() == a.len());
        assert(b.to_multiset().len() == b.len());
    }
    if a.len() > 0 {
        let x = a.last();
        assert(a.contains(a[a.len() - 1]));
        assert(b.to_multiset().count(x) > 0);
        let j = b.index_of(x);
        assert(b.contains(x));
        let (c, d) = (a.drop_last(), b.remove(j));
        assert(c =~= a.remove(a.len() - 1));
        assert(c.to_multiset() =~= d.to_multiset());
        lemma_mapped_multiset(c, d, f);
        assert(c.map_values(f) =~= a.map_values(f).remove(a.len() - 1));
        assert(d.map_values(f) =~= b.map_values(f).remove(j));
        let (u, v) = (a.map_values(f), b.map_values(f));
        assert(u[a.len() - 1] == f(x) && v[j] == f(x));
        assert(u.to_multiset() =~= u.remove(a.len() - 1).to_multiset().insert(f(x)));
        assert(v.to_multiset() =~= v.remove(j).to_multiset().insert(f(x)));
    } else {
        assert(a.map_values(f) =~= b.map_values(f));
    }
}

/// A walk over a field that was written from ints, with bounds that are ints,
/// gives the documents of exactly the points whose int is within the bounds, by
/// value and then by document. A bound that is not given keeps nothing out.
pub proof fn law_ints_found(
    fields: Seq<PointField>,
    id: Seq<u8>,
    infos: Seq<FieldInfo>,
    k: int,
    given: Seq<(i32, u32)>,
    sorted: Seq<(i32, u32)>,
    lower: Option<i32>,
    upper: Option<i32>,
)
    requires
        points_recoverable(fields, id, infos),
        0 <= k < fields.len(),
        fields[k].width == 4,
        fields[k].points == sorted_points(int_points(given)),
        ints_in_order(given, sorted),
    ensures
        ({
            let x = points_header(DATA_CODEC_NAME@, id).len();
            let shape = shape_of(fields[k], data_place(fields, k, x), index_place(fields, k, x, points_header(INDEX_CODEC_NAME@, id).len()));
            part_of_file(kdi_file(fields, id), shape.index_start_fp, shape.packed_index_byte_length) matches Ok(packed) && tree_docs(
                kdd_file(fields, id),
                packed,
                (key_bytes(int_key(sorted[0].0), 4), key_bytes(int_key(sorted.last().0), 4)),
                4,
                shape.num_leaves as int,
                int_bound(lower),
                int_bound(upper),
            ) == Ok::<Seq<u32>, ErrorKind>(sorted.filter(|p: (i32, u32)| within(p.0 as int, int_end(lower), int_end(upper))).map_values(|p: (i32, u32)| p.1))
        }),
{
    law_written_points_found(fields, id, infos, k, int_bound(lower), int_bound(upper));
    lemma_int_order(given, sorted);
    lemma_int_docs(fields[k].points, sorted, lower, upper);
    lemma_some_points(fields, id, infos, k);
}

/// The same for longs.
pub proof fn law_longs_found(
    fields: Seq<PointField>,
    id: Seq<u8>,
    infos: Seq<FieldInfo>,
    k: int,
    given: Seq<(i64, u32)>,
    sorted: Seq<(i64, u32)>,
    lower: Option<i64>,
    upper: Option<i64>,
)
    requires
        points_recoverable(fields, id, infos),
        0 <= k < fields.len(),
        fields[k].width == 8,
        fields[k].points == sorted_points(long_points(given)),
        longs_in_order(given, sorted),
    ensures
        ({
            let x = points_header(DATA_CODEC_NAME@, id).len();
            let shape = shape_of(fields[k], data_place(fields, k, x), index_place(fields, k, x, points_header(INDEX_CODEC_NAME@, id).len()));
            part_of_file(kdi_file(fields, id), shape.index_start_fp, shape.packed_index_byte_length) matches Ok(packed) && tree_docs(
                kdd_file(fields, id),
                packed,
                (key_bytes(long_key(sorted[0].0), 8), key_bytes(long_key(sorted.last().0), 8)),
                8,
                shape.num_leaves as int,
                long_bound(lower),
                long_bound(upper),
            ) == Ok::<Seq<u32>, ErrorKind>(sorted.filter(|p: (i64, u32)| within(p.0 as int, long_end(lower), long_end(upper))).map_values(|p: (i64, u32)| p.1))
        }),
{
    law_written_points_found(fields, id, infos, k, long_bound(lower), long_bound(upper));
    lemma_long_order(given, sorted);
    lemma_long_docs(fields[k].points, sorted, lower, upper);
    lemma_some_points(fields, id, infos, k);
}

proof fn lemma_some_points(fields: Seq<PointField>, id: Seq<u8>, infos: Seq<FieldInfo>, k: int)
    requires
        points_recoverable(fields, id, infos),
        0 <= k < fields.len(),
    ensures
        fields[k].points.len() > 0,
{
    reveal(all_recoverable);
    reveal(point_recoverable);
    assert(point_recoverable(fields[k]));
}

} // verus!
