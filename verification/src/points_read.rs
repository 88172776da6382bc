//! Opens the points files of a segment: the metadata are read and checked,
//! and the indexes of all fields are held in memory.

use crate::bytes::{be_nat, be_u64, bytes_less, int_at, lemma_le_nat_bound, lemma_pow2_widths, lemma_var_ends, lex_less, long_at, push_all, take_at, vint_at, vlong_at};
use crate::codec_util::{check_footer, check_footer_structure, check_header, check_index_header, corrupt, footer_structure, header_at, index_header_at, lemma_header_ends, valid_footer_at};
use crate::error::{outcome, Error, ErrorKind};
use crate::field_infos::{FieldInfo, FieldInfos};
use crate::io::{ChecksumIndexInput, DataInput, IndexInput};
use crate::num::{spec_to_u32, spec_to_u64, to_u32, to_u64};
use crate::point_index::{index_at, left_length_at, num_left, place_at, read_index, split_at, splits_view, whole_index, zeros};
use crate::points::{BKD_CODEC_NAME, BKD_VERSION, DATA_CODEC_NAME, FORMAT_VERSION, INDEX_CODEC_NAME, META_CODEC_NAME};
use vstd::prelude::*;

verus! {

/// What the metadata say of a field.
#[derive(Clone, Copy, Debug, PartialEq, Eq)]
pub struct PointShape {
    pub field_number: i32,
    pub bytes_per_dim: usize,
    pub num_leaves: usize,
    pub min_value: i64,
    pub max_value: i64,
    pub point_count: u64,
    pub doc_count: u32,
    pub data_start_fp: u64,
    pub index_start_fp: u64,
    pub packed_index_byte_length: u64,
}

/// The number that sortable bytes stand for, of a long or of an int.
pub open spec fn unpacked(b: Seq<u8>) -> i64 {
    if b.len() == 8 {
        (be_nat(b) - 0x8000_0000_0000_0000) as i64
    } else {
        (be_nat(b) - 0x8000_0000) as i64
    }
}

/// The first field of a number.
pub open spec fn numbered_from(fields: Seq<FieldInfo>, number: i32, i: int) -> Option<FieldInfo>
    decreases fields.len() - i,
{
    if i >= fields.len() {
        None
    } else if fields[i].number == number {
        Some(fields[i])
    } else {
        numbered_from(fields, number, i + 1)
    }
}

/// The dimensions of an entry: how many bytes a value has, and how many leaves
/// there are.
pub open spec fn dims_at(s: Seq<u8>, p: int) -> Result<((usize, usize), int), ErrorKind> {
    match header_at(s, p, BKD_CODEC_NAME@, BKD_VERSION, BKD_VERSION) {
        Ok((_, a)) => match vint_at(s, a) {
            Ok((dims, b)) => match vint_at(s, b) {
                Ok((index_dims, c)) => if dims != 1 || index_dims != 1 {
                    Err(ErrorKind::InvalidData)
                } else {
                    match vint_at(s, c) {
                        Ok((most, d)) => if most != 512 {
                            Err(ErrorKind::InvalidData)
                        } else {
                            match vint_at(s, d) {
                                Ok((width, e)) => if width != 4 && width != 8 {
                                    Err(ErrorKind::InvalidData)
                                } else {
                                    match vint_at(s, e) {
                                        Ok((leaves, f)) => if leaves <= 0 {
                                            Err(ErrorKind::InvalidData)
                                        } else {
                                            Ok(((width as usize, leaves as usize), f))
                                        },
                                        Err(k) => Err(k),
                                    }
                                },
                                Err(k) => Err(k),
                            }
                        },
                        Err(k) => Err(k),
                    }
                },
                Err(k) => Err(k),
            },
            Err(k) => Err(k),
        },
        Err(k) => Err(k),
    }
}

/// The least and the greatest value of an entry.
pub open spec fn extremes_at(s: Seq<u8>, p: int, n: int) -> Result<((i64, i64), int), ErrorKind> {
    match take_at(s, p, n) {
        Ok((least, q)) => match take_at(s, q, n) {
            Ok((most, z)) => if lex_less(most, least) {
                Err(ErrorKind::InvalidData)
            } else {
                Ok(((unpacked(least), unpacked(most)), z))
            },
            Err(k) => Err(k),
        },
        Err(k) => Err(k),
    }
}

/// The counts and places of an entry.
pub open spec fn counts_at(s: Seq<u8>, p: int) -> Result<((u64, u32, u64, u64, u64), int), ErrorKind> {
    match vlong_at(s, p) {
        Ok((points, a)) => match vint_at(s, a) {
            Ok((docs, b)) => match vint_at(s, b) {
                Ok((index, c)) => match long_at(s, c) {
                    Ok((data_at, d)) => match long_at(s, d) {
                        Ok((index_at, z)) => Ok(((spec_to_u64(points), spec_to_u32(docs), spec_to_u64(index as i64), spec_to_u64(data_at), spec_to_u64(index_at)), z)),
                        Err(k) => Err(k),
                    },
                    Err(k) => Err(k),
                },
                Err(k) => Err(k),
            },
            Err(k) => Err(k),
        },
        Err(k) => Err(k),
    }
}

/// The entry of field `number` at `p`.
pub open spec fn shape_at(s: Seq<u8>, p: int, number: i32) -> Result<(PointShape, int), ErrorKind> {
    match dims_at(s, p) {
        Ok(((width, leaves), q)) => match extremes_at(s, q, width as int) {
            Ok(((least, most), e)) => match counts_at(s, e) {
                Ok((c, z)) => Ok((
                    PointShape {
                        field_number: number,
                        bytes_per_dim: width,
                        num_leaves: leaves,
                        min_value: least,
                        max_value: most,
                        point_count: c.0,
                        doc_count: c.1,
                        packed_index_byte_length: c.2,
                        data_start_fp: c.3,
                        index_start_fp: c.4,
                    },
                    z,
                )),
                Err(k) => Err(k),
            },
            Err(k) => Err(k),
        },
        Err(k) => Err(k),
    }
}

/// An entry says of a tree what a tree must have.
pub open spec fn readable(shape: PointShape) -> bool {
    &&& shape.bytes_per_dim == 4 || shape.bytes_per_dim == 8
    &&& 1 <= shape.num_leaves
}

/// What the field infos say of a field agrees with its entry.
pub open spec fn agrees(info: Option<FieldInfo>, shape: PointShape) -> bool {
    info matches Some(f) && f.point_dimension_count == 1 && f.point_num_bytes == shape.bytes_per_dim
}

/// The entries from `p` to the end mark, behind `acc`, with the names of the
/// fields.
pub open spec fn shapes_at(s: Seq<u8>, p: int, infos: Seq<FieldInfo>, acc: Seq<(Seq<char>, PointShape)>) -> Result<(Seq<(Seq<char>, PointShape)>, int), ErrorKind>
    decreases s.len() - p,
{
    match int_at(s, p) {
        Ok((number, q)) => if number == -1 {
            Ok((acc, q))
        } else if number < 0 {
            Err(ErrorKind::InvalidData)
        } else {
            match shape_at(s, q, number) {
                Ok((shape, z)) => {
                    let info = numbered_from(infos, number, 0);
                    if agrees(info, shape) && z > p && p < s.len() {
                        shapes_at(s, z, infos, acc.push((info->Some_0.name@, shape)))
                    } else {
                        Err(ErrorKind::InvalidData)
                    }
                },
                Err(k) => Err(k),
            }
        },
        Err(k) => Err(k),
    }
}

/// A part of a file.
pub open spec fn part_of_file(s: Seq<u8>, at: u64, len: u64) -> Result<Seq<u8>, ErrorKind> {
    if at + len > u64::MAX {
        Err(ErrorKind::InvalidData)
    } else if at + len > s.len() {
        Err(ErrorKind::UnexpectedEof)
    } else {
        Ok(s.subrange(at as int, at + len))
    }
}

/// A field with its index: where its leaves begin, and the values that part
/// them.
pub struct FieldTree {
    pub name: Seq<char>,
    pub shape: PointShape,
    pub leaf_fps: Seq<u64>,
    pub splits: Seq<i64>,
}

pub open spec fn unpacked_all(splits: Seq<Seq<u8>>) -> Seq<i64> {
    splits.map_values(|b: Seq<u8>| unpacked(b))
}

/// The index of a field.
pub open spec fn tree_at(kdi: Seq<u8>, name: Seq<char>, shape: PointShape) -> Result<FieldTree, ErrorKind> {
    match part_of_file(kdi, shape.index_start_fp, shape.packed_index_byte_length) {
        Ok(packed) => match whole_index(packed, shape.bytes_per_dim as nat, shape.num_leaves as int) {
            Ok((fps, splits)) => Ok(FieldTree { name, shape, leaf_fps: fps, splits: unpacked_all(splits) }),
            Err(k) => Err(k),
        },
        Err(k) => Err(k),
    }
}

/// The indexes of all fields from `i` on, behind `acc`.
pub open spec fn trees_from(kdi: Seq<u8>, shapes: Seq<(Seq<char>, PointShape)>, i: int, acc: Seq<FieldTree>) -> Result<Seq<FieldTree>, ErrorKind>
    decreases shapes.len() - i,
{
    if i >= shapes.len() {
        Ok(acc)
    } else {
        match tree_at(kdi, shapes[i].0, shapes[i].1) {
            Ok(t) => trees_from(kdi, shapes, i + 1, acc.push(t)),
            Err(k) => Err(k),
        }
    }
}

/// What the metadata file says: the entries, and the lengths of the index and
/// the data file.
pub open spec fn kdm_read(kdm: Seq<u8>, id: Seq<u8>, infos: Seq<FieldInfo>) -> Result<(Seq<(Seq<char>, PointShape)>, u64, u64), ErrorKind> {
    match index_header_at(kdm, 0, META_CODEC_NAME@, FORMAT_VERSION, FORMAT_VERSION, id, Seq::empty()) {
        Ok((_, p)) => match shapes_at(kdm, p, infos, Seq::empty()) {
            Ok((shapes, q)) => match long_at(kdm, q) {
                Ok((index_length, e)) => match long_at(kdm, e) {
                    Ok((data_length, z)) => if valid_footer_at(kdm, z, 0) {
                        Ok((shapes, spec_to_u64(index_length), spec_to_u64(data_length)))
                    } else {
                        Err(ErrorKind::InvalidData)
                    },
                    Err(k) => Err(k),
                },
                Err(k) => Err(k),
            },
            Err(k) => Err(k),
        },
        Err(k) => Err(k),
    }
}

/// A file has its header and the length that is said for it.
pub open spec fn file_checked(s: Seq<u8>, codec: Seq<char>, id: Seq<u8>, length: u64) -> Result<(), ErrorKind> {
    match index_header_at(s, 0, codec, FORMAT_VERSION, FORMAT_VERSION, id, Seq::empty()) {
        Ok(_) => if footer_structure(s, length as int) {
            Ok(())
        } else {
            Err(ErrorKind::InvalidData)
        },
        Err(k) => Err(k),
    }
}

/// What opening finds. The files are looked at in this order: metadata, index,
/// data.
pub open spec fn points_opened(kdm: Seq<u8>, kdi: Seq<u8>, kdd: Seq<u8>, id: Seq<u8>, infos: Seq<FieldInfo>) -> Result<Seq<FieldTree>, ErrorKind> {
    match kdm_read(kdm, id, infos) {
        Ok((shapes, index_length, data_length)) => match file_checked(kdi, INDEX_CODEC_NAME@, id, index_length) {
            Ok(_) => match trees_from(kdi, shapes, 0, Seq::empty()) {
                Ok(trees) => match file_checked(kdd, DATA_CODEC_NAME@, id, data_length) {
                    Ok(_) => Ok(trees),
                    Err(k) => Err(k),
                },
                Err(k) => Err(k),
            },
            Err(k) => Err(k),
        },
        Err(k) => Err(k),
    }
}

// ---------------------------------------------------------------------------
// Reading
// ---------------------------------------------------------------------------

proof fn lemma_unpacked(b: Seq<u8>)
    requires
        b.len() == 4 || b.len() == 8,
    ensures
        be_nat(b) < if b.len() == 8 { 0x1_0000_0000_0000_0000nat } else { 0x1_0000_0000nat },
{
    lemma_pow2_widths();
    lemma_le_nat_bound(b.reverse());
}

fn unpack_value(packed: &[u8]) -> (r: i64)
    requires
        packed@.len() == 4 || packed@.len() == 8,
    ensures
        r == unpacked(packed@),
{
    proof {
        lemma_unpacked(packed@);
    }
    let v: u64 = be_u64(packed, 0, packed.len());
    assert(packed@.subrange(0, packed@.len() as int) =~= packed@);
    if packed.len() == 8 {
        (v as i128 - 0x8000_0000_0000_0000) as i64
    } else {
        v as i64 - 0x8000_0000
    }
}

fn read_dims(meta: &mut ChecksumIndexInput) -> (r: Result<(usize, usize), Error>)
    ensures
        final(meta).bytes() == old(meta).bytes(),
        final(meta).fixed() == old(meta).fixed(),
        outcome(r, final(meta).pos(), dims_at(old(meta).bytes(), old(meta).pos())),
{
    let _version: u32 = check_header(meta, BKD_CODEC_NAME, BKD_VERSION, BKD_VERSION)?;
    let dims: i32 = meta.read_vint()?;
    let index_dims: i32 = meta.read_vint()?;
    if dims != 1 || index_dims != 1 {
        return Err(corrupt("only points of one dimension are supported"));
    }
    let most: i32 = meta.read_vint()?;
    if most != 512 {
        return Err(corrupt("unexpected number of points in a leaf"));
    }
    let width: i32 = meta.read_vint()?;
    if width != 4 && width != 8 {
        return Err(corrupt("unsupported number of bytes of a value"));
    }
    let leaves: i32 = meta.read_vint()?;
    if leaves <= 0 {
        return Err(corrupt("no leaves"));
    }
    Ok((width as usize, leaves as usize))
}

fn read_extremes(meta: &mut ChecksumIndexInput, n: usize) -> (r: Result<(i64, i64), Error>)
    requires
        n == 4 || n == 8,
    ensures
        final(meta).bytes() == old(meta).bytes(),
        final(meta).fixed() == old(meta).fixed(),
        outcome(r, final(meta).pos(), extremes_at(old(meta).bytes(), old(meta).pos(), n as int)),
{
    let least = meta.read_vec(n as u64)?;
    let most = meta.read_vec(n as u64)?;
    if bytes_less(most.as_slice(), least.as_slice()) {
        return Err(corrupt("least value above the greatest"));
    }
    Ok((unpack_value(least.as_slice()), unpack_value(most.as_slice())))
}

fn read_counts(meta: &mut ChecksumIndexInput) -> (r: Result<(u64, u32, u64, u64, u64), Error>)
    ensures
        final(meta).bytes() == old(meta).bytes(),
        final(meta).fixed() == old(meta).fixed(),
        outcome(r, final(meta).pos(), counts_at(old(meta).bytes(), old(meta).pos())),
{
    let points: u64 = to_u64(meta.read_vlong()?);
    let docs: u32 = to_u32(meta.read_vint()?);
    let index: i32 = meta.read_vint()?;
    let data_at: u64 = to_u64(meta.read_long()?);
    let index_at: u64 = to_u64(meta.read_long()?);
    Ok((points, docs, to_u64(index as i64), data_at, index_at))
}

fn read_shape(meta: &mut ChecksumIndexInput, number: i32) -> (r: Result<PointShape, Error>)
    ensures
        final(meta).bytes() == old(meta).bytes(),
        final(meta).fixed() == old(meta).fixed(),
        outcome(r, final(meta).pos(), shape_at(old(meta).bytes(), old(meta).pos(), number)),
{
    let (width, leaves) = read_dims(meta)?;
    let (least, most) = read_extremes(meta, width)?;
    let c = read_counts(meta)?;
    Ok(PointShape {
        field_number: number,
        bytes_per_dim: width,
        num_leaves: leaves,
        min_value: least,
        max_value: most,
        point_count: c.0,
        doc_count: c.1,
        packed_index_byte_length: c.2,
        data_start_fp: c.3,
        index_start_fp: c.4,
    })
}

proof fn lemma_numbered(fields: Seq<FieldInfo>, number: i32, i: int, k: int)
    requires
        0 <= i <= k <= fields.len(),
        forall|j: int| i <= j < k ==> (#[trigger] fields[j]).number != number,
    ensures
        numbered_from(fields, number, i) == numbered_from(fields, number, k),
    decreases k - i,
{
    if i < k {
        lemma_numbered(fields, number, i + 1, k);
    }
}

fn find_info(infos: &FieldInfos, number: i32) -> (r: Option<&FieldInfo>)
    ensures
        match r {
            Some(f) => numbered_from(infos.fields@, number, 0) == Some(*f),
            None => numbered_from(infos.fields@, number, 0) is None,
        },
{
    let r = infos.by_number(number);
    proof {
        let v = infos.fields@;
        match r {
            Some(f) => {
                let k = choose|i: int| 0 <= i < v.len() && *f == #[trigger] v[i] && f.number == number && forall|j: int| 0 <= j < i ==> (#[trigger] v[j]).number != number;
                lemma_numbered(v, number, 0, k);
            },
            None => {
                lemma_numbered(v, number, 0, v.len() as int);
            },
        }
    }
    r
}

/// An entry ends behind its begin.
proof fn lemma_shape_ends(s: Seq<u8>, p: int, number: i32)
    requires
        0 <= p,
    ensures
        shape_at(s, p, number) is Ok ==> p < shape_at(s, p, number)->Ok_0.1 <= s.len(),
{
    match dims_at(s, p) {
        Ok((d, q)) => {
            let a = header_at(s, p, BKD_CODEC_NAME@, BKD_VERSION, BKD_VERSION)->Ok_0.1;
            lemma_header_ends(s, p, BKD_CODEC_NAME@, BKD_VERSION, BKD_VERSION);
            lemma_var_ends(s, a);
            let b = vint_at(s, a)->Ok_0.1;
            lemma_var_ends(s, b);
            let c = vint_at(s, b)->Ok_0.1;
            lemma_var_ends(s, c);
            let e = vint_at(s, c)->Ok_0.1;
            lemma_var_ends(s, e);
            let f = vint_at(s, e)->Ok_0.1;
            lemma_var_ends(s, f);
            match extremes_at(s, q, d.0 as int) {
                Ok((_, g)) => {
                    lemma_var_ends(s, g);
                    let h = vlong_at(s, g)->Ok_0.1;
                    lemma_var_ends(s, h);
                    let i = vint_at(s, h)->Ok_0.1;
                    lemma_var_ends(s, i);
                },
                Err(_) => {},
            }
        },
        Err(_) => {},
    }
}

/// The view of entries.
pub open spec fn shapes_view(shapes: Seq<(String, PointShape)>) -> Seq<(Seq<char>, PointShape)> {
    shapes.map_values(|e: (String, PointShape)| (e.0@, e.1))
}

fn read_shapes(meta: &mut ChecksumIndexInput, infos: &FieldInfos) -> (r: Result<Vec<(String, PointShape)>, Error>)
    requires
        0 <= old(meta).pos(),
    ensures
        final(meta).bytes() == old(meta).bytes(),
        final(meta).fixed() == old(meta).fixed(),
        match shapes_at(old(meta).bytes(), old(meta).pos(), infos.fields@, Seq::empty()) {
            Ok((e, z)) => r is Ok && shapes_view(r->Ok_0@) == e && final(meta).pos() == z,
            Err(k) => r is Err && r->Err_0.kind == k,
        },
        r is Ok ==> forall|i: int| 0 <= i < r->Ok_0@.len() ==> readable(#[trigger] r->Ok_0@[i].1),
{
    let mut shapes: Vec<(String, PointShape)> = Vec::new();
    let ghost s = meta.bytes();
    let ghost p0 = meta.pos();
    assert(shapes_view(shapes@) =~= Seq::empty());
    loop
        invariant
            s == old(meta).bytes(),
            p0 == old(meta).pos(),
            meta.bytes() == s,
            meta.fixed() == old(meta).fixed(),
            0 <= meta.pos(),
            forall|i: int| 0 <= i < shapes@.len() ==> readable(#[trigger] shapes@[i].1),
            shapes_at(s, meta.pos(), infos.fields@, shapes_view(shapes@)) == shapes_at(s, p0, infos.fields@, Seq::empty()),
        decreases s.len() - meta.pos(),
    {
        let ghost p = meta.pos();
        let number: i32 = meta.read_int()?;
        if number == -1 {
            return Ok(shapes);
        }
        if number < 0 {
            return Err(corrupt("illegal field number"));
        }
        proof {
            lemma_shape_ends(s, p + 4, number);
        }
        let shape = read_shape(meta, number)?;
        match find_info(infos, number) {
            Some(info) => {
                if info.point_dimension_count != 1 || info.point_num_bytes as i64 != shape.bytes_per_dim as i64 {
                    return Err(corrupt("points of a field differ from its info"));
                }
                let ghost before = shapes_view(shapes@);
                let name = info.name.as_str().to_owned();
                shapes.push((name, shape));
                assert(shapes_view(shapes@) =~= before.push((name@, shape)));
            },
            None => {
                return Err(corrupt("points of an unknown field"));
            },
        }
    }
}

/// A field with its index in memory.
pub struct FieldMeta {
    pub name: String,
    pub shape: PointShape,
    /// Where each leaf begins.
    pub leaf_fps: Vec<u64>,
    /// The first value of every leaf but the first.
    pub splits: Vec<i64>,
}

impl View for FieldMeta {
    type V = FieldTree;

    open spec fn view(&self) -> FieldTree {
        FieldTree { name: self.name@, shape: self.shape, leaf_fps: self.leaf_fps@, splits: self.splits@ }
    }
}

pub open spec fn trees_view(fields: Seq<FieldMeta>) -> Seq<FieldTree> {
    fields.map_values(|f: FieldMeta| f@)
}

/// Split values have the width of the value that they follow.
proof fn lemma_split_lengths(s: Seq<u8>, p: int, min_fp: u64, last: Seq<u8>, left: bool, k: int)
    ensures
        index_at(s, p, min_fp, last, left, k) matches Ok(t) ==> forall|i: int| 0 <= i < t.1.len() ==> (#[trigger] t.1[i]).len() == last.len(),
    decreases k,
{
    reveal_with_fuel(index_at, 1);
    if let Ok((fp, q)) = place_at(s, p, min_fp, left) {
        let l = num_left(k);
        if k > 1 && 1 <= l < k {
            if let Ok((split, e)) = split_at(s, q, last, left) {
                assert(split.len() == last.len()) by {
                    assert(last.len() == 0 || 0 <= vint_at(s, q)->Ok_0.0 as int % (1 + last.len() as int) < 1 + last.len() as int);
                }
                if let Ok((_, f)) = left_length_at(s, e, l) {
                    lemma_split_lengths(s, f, fp, split, true, l);
                    if let Ok(a) = index_at(s, f, fp, split, true, l) {
                        lemma_split_lengths(s, a.2, fp, split, false, k - l);
                    }
                }
            }
        }
    }
}

fn read_tree(kdi: &[u8], name: &String, shape: PointShape) -> (r: Result<FieldMeta, Error>)
    requires
        readable(shape),
    ensures
        match tree_at(kdi@, name@, shape) {
            Ok(t) => r is Ok && r->Ok_0@ == t,
            Err(k) => r is Err && r->Err_0.kind == k,
        },
{
    let at: u64 = shape.index_start_fp;
    let len: u64 = shape.packed_index_byte_length;
    if at > u64::MAX - len {
        return Err(corrupt("end of an index overflows"));
    }
    if at + len > kdi.len() as u64 {
        return Err(Error::new(ErrorKind::UnexpectedEof, "index past EOF"));
    }
    let packed = &kdi[at as usize..(at + len) as usize];
    let (leaf_fps, split_bytes) = read_index(packed, shape.bytes_per_dim, shape.num_leaves)?;
    let ghost all = splits_view(split_bytes@);
    proof {
        lemma_split_lengths(packed@, 0, 0, zeros(shape.bytes_per_dim as nat), false, shape.num_leaves as int);
    }
    let mut splits: Vec<i64> = Vec::new();
    let mut i: usize = 0;
    while i < split_bytes.len()
        invariant
            i <= split_bytes@.len(),
            all == splits_view(split_bytes@),
            shape.bytes_per_dim == 4 || shape.bytes_per_dim == 8,
            forall|j: int| 0 <= j < all.len() ==> (#[trigger] all[j]).len() == shape.bytes_per_dim,
            splits@ == unpacked_all(all.take(i as int)),
        decreases split_bytes@.len() - i,
    {
        assert(all[i as int] == split_bytes@[i as int]@);
        splits.push(unpack_value(split_bytes[i].as_slice()));
        assert(splits@ =~= unpacked_all(all.take(i + 1)));
        i = i + 1;
    }
    assert(all.take(i as int) =~= all);
    Ok(FieldMeta { name: name.as_str().to_owned(), shape, leaf_fps, splits })
}

fn read_trees(kdi: &[u8], shapes: &Vec<(String, PointShape)>) -> (r: Result<Vec<FieldMeta>, Error>)
    requires
        forall|i: int| 0 <= i < shapes@.len() ==> readable(#[trigger] shapes@[i].1),
    ensures
        match trees_from(kdi@, shapes_view(shapes@), 0, Seq::empty()) {
            Ok(t) => r is Ok && trees_view(r->Ok_0@) == t,
            Err(k) => r is Err && r->Err_0.kind == k,
        },
{
    let mut fields: Vec<FieldMeta> = Vec::new();
    let mut i: usize = 0;
    assert(trees_view(fields@) =~= Seq::empty());
    while i < shapes.len()
        invariant
            i <= shapes@.len(),
            forall|i: int| 0 <= i < shapes@.len() ==> readable(#[trigger] shapes@[i].1),
            trees_from(kdi@, shapes_view(shapes@), i as int, trees_view(fields@)) == trees_from(kdi@, shapes_view(shapes@), 0, Seq::empty()),
        decreases shapes@.len() - i,
    {
        let ghost before = trees_view(fields@);
        assert(readable(shapes@[i as int].1));
        assert(shapes_view(shapes@)[i as int] == (shapes@[i as int].0@, shapes@[i as int].1));
        let tree = read_tree(kdi, &shapes[i].0, shapes[i].1)?;
        fields.push(tree);
        assert(trees_view(fields@) =~= before.push(tree@));
        i = i + 1;
    }
    Ok(fields)
}

fn check_file(s: &Vec<u8>, codec: &str, id: &[u8; 16], length: u64) -> (r: Result<(), Error>)
    ensures
        match file_checked(s@, codec@, id@, length) {
            Ok(_) => r is Ok,
            Err(k) => r is Err && r->Err_0.kind == k,
        },
{
    proof {
        reveal_strlit("");
        assert(""@ =~= Seq::<char>::empty());
    }
    let mut image: Vec<u8> = Vec::new();
    push_all(&mut image, s.as_slice());
    assert(image@ =~= s@);
    let mut input = IndexInput::in_memory(image);
    let _version: u32 = check_index_header(&mut input, codec, FORMAT_VERSION, FORMAT_VERSION, id, "")?;
    check_footer_structure(&input, length)
}

/// Reads the points of a segment.
pub struct PointsReader {
    data: Vec<u8>,
    fields: Vec<FieldMeta>,
}

impl PointsReader {
    /// The data file.
    pub closed spec fn data(&self) -> Seq<u8> {
        self.data@
    }

    /// The fields with their indexes.
    pub closed spec fn trees(&self) -> Seq<FieldTree> {
        trees_view(self.fields@)
    }

    /// Opens the files of a segment. Without a metadata file the segment has
    /// no points.
    pub fn open(kdm: Option<Vec<u8>>, kdi: Vec<u8>, kdd: Vec<u8>, segment_id: &[u8; 16], field_infos: &FieldInfos) -> (r: Result<Option<PointsReader>, Error>)
        ensures
            match kdm {
                None => r == Ok::<Option<PointsReader>, Error>(None),
                Some(meta) => match points_opened(meta@, kdi@, kdd@, segment_id@, field_infos.fields@) {
                    Ok(trees) => r is Ok && r->Ok_0 is Some && r->Ok_0->Some_0.data() == kdd@ && r->Ok_0->Some_0.trees() == trees,
                    Err(k) => r is Err && r->Err_0.kind == k,
                },
            },
    {
        let bytes = match kdm {
            Some(b) => b,
            None => {
                return Ok(None);
            },
        };
        proof {
            reveal_strlit("");
            assert(""@ =~= Seq::<char>::empty());
        }
        let mut meta = ChecksumIndexInput::new(IndexInput::in_memory(bytes));
        let _version: u32 = check_index_header(&mut meta, META_CODEC_NAME, FORMAT_VERSION, FORMAT_VERSION, segment_id, "")?;
        let _at: u64 = meta.file_pointer();
        let shapes = read_shapes(&mut meta, field_infos)?;
        let index_length: u64 = to_u64(meta.read_long()?);
        let data_length: u64 = to_u64(meta.read_long()?);
        check_footer(&mut meta)?;
        check_file(&kdi, INDEX_CODEC_NAME, segment_id, index_length)?;
        let fields = read_trees(kdi.as_slice(), &shapes)?;
        check_file(&kdd, DATA_CODEC_NAME, segment_id, data_length)?;
        Ok(Some(PointsReader { data: kdd, fields }))
    }

    /// The fields, in the order of the metadata file.
    pub fn fields(&self) -> (r: &[FieldMeta])
        ensures
            trees_view(r@) == self.trees(),
    {
        self.fields.as_slice()
    }

    /// The data file, which holds the leaves.
    pub fn data_file(&self) -> (r: &[u8])
        ensures
            r@ == self.data(),
    {
        self.data.as_slice()
    }
}

} // verus!
