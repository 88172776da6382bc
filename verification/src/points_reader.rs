//! Finds the documents whose values are within bounds, by a walk over the
//! tree of a field.

use crate::bytes::{bytes_less, holds_at, lemma_be_bytes_len, lemma_holds_concat, lemma_lex_order, lex_less, varint_scan, vlong_at, vlong_of};
use crate::error::{outcome, Error, ErrorKind};
use crate::io::{DataInput, SliceInput};
use crate::leaf_block::{bound_view, docs_in_range, in_range, keys_fit, law_leaf_round_trip, leaf_bytes, leaf_docs, leaf_points, read_leaf_block};
use crate::point_index::{
    get_num_left_leaf_nodes, index_bytes, lemma_node_holds, lemma_num_left, lemma_place_read, lemma_split_read, lemma_subtree_facts, lemma_subtrees_ok, lemma_zero_key, num_left, place_at,
    read_split, split_at, split_bytes, subtree_ok, zeros,
};
use crate::point_order::{key_bytes, law_key_order, point_leq, points_ascend};
use crate::points::{field_ok, leaf_count, leaf_of, leaf_places, leaf_starts, leaves_bytes, point_data, point_index, PointField};
use crate::num::{spec_wrap_add, wrap_add};
use vstd::arithmetic::power2::{lemma2_to64, lemma2_to64_rest, lemma_pow2_adds, lemma_pow2_strictly_increases, pow2};
use vstd::prelude::*;

verus! {

/// Values of a cell may be within the bounds.
pub open spec fn cell_meets(cell_min: Seq<u8>, cell_max: Seq<u8>, lower: Option<Seq<u8>>, upper: Option<Seq<u8>>) -> bool {
    &&& upper is Some ==> !lex_less(upper->Some_0, cell_min)
    &&& lower is Some ==> !lex_less(cell_max, lower->Some_0)
}

fn range_intersects(cell_min: &[u8], cell_max: &[u8], lower: Option<&[u8]>, upper: Option<&[u8]>) -> (r: bool)
    ensures
        r == cell_meets(cell_min@, cell_max@, bound_view(lower), bound_view(upper)),
{
    if let Some(u) = upper {
        if bytes_less(u, cell_min) {
            return false;
        }
    }
    if let Some(l) = lower {
        if bytes_less(cell_max, l) {
            return false;
        }
    }
    true
}

/// The variable-length number at `p` of the index: at most ten groups, of which
/// 64 bits count.
pub open spec fn index_long_at(s: Seq<u8>, p: int) -> Result<(u64, int), ErrorKind> {
    match varint_scan(s, p, 10, 1, 0) {
        Ok((n, q)) => Ok(((n % 0x1_0000_0000_0000_0000) as u64, q)),
        Err(k) => Err(k),
    }
}

/// A number of nine groups is read alike where ten may come.
proof fn lemma_more_groups(s: Seq<u8>, p: int, left: nat, weight: nat, acc: nat)
    ensures
        varint_scan(s, p, left, weight, acc) is Ok ==> varint_scan(s, p, left + 1, weight, acc) == varint_scan(s, p, left, weight, acc),
    decreases left,
{
    reveal_with_fuel(varint_scan, 2);
    if left > 0 && 0 <= p < s.len() && s[p] >= 128 {
        lemma_more_groups(s, p + 1, (left - 1) as nat, weight * 128, acc + (s[p] - 128) as nat * weight);
    }
}

proof fn lemma_index_long(s: Seq<u8>, p: int)
    ensures
        vlong_at(s, p) matches Ok((v, q)) ==> v >= 0 && index_long_at(s, p) == Ok::<(u64, int), ErrorKind>((v as u64, q)),
{
    lemma_more_groups(s, p, 9, 1, 0);
    crate::bytes::lemma_varint_ends(s, p, 9, 1, 0);
    vstd::arithmetic::power2::lemma2_to64_rest();
}

/// The least place of the subtree at `p`.
pub open spec fn node_place_at(s: Seq<u8>, p: int, min_fp: u64, left: bool) -> Result<(u64, int), ErrorKind> {
    if left {
        Ok((min_fp, p))
    } else {
        match index_long_at(s, p) {
            Ok((v, q)) => Ok((spec_wrap_add(min_fp, v), q)),
            Err(e) => Err(e),
        }
    }
}

/// Reads a variable-length number of the index.
fn read_index_long(input: &mut SliceInput) -> (r: Result<u64, Error>)
    ensures
        final(input).bytes() == old(input).bytes(),
        outcome(r, final(input).pos(), index_long_at(old(input).bytes(), old(input).pos())),
{
    let mut i: usize = 0;
    let mut weight: u128 = 1;
    let mut acc: u128 = 0;
    proof {
        lemma2_to64();
    }
    while i < 10
        invariant
            i <= 10,
            input.bytes() == old(input).bytes(),
            weight == pow2(7 * i as nat),
            weight <= 0x40_0000_0000_0000_0000,
            acc < weight,
            varint_scan(old(input).bytes(), old(input).pos(), 10, 1, 0) == varint_scan(input.bytes(), input.pos(), (10 - i) as nat, weight as nat, acc as nat),
        decreases 10 - i,
    {
        let b: u8 = input.read_byte()?;
        proof {
            lemma_pow2_adds(7, 7 * i as nat);
            lemma_pow2_adds(64, 6);
            lemma2_to64();
            lemma2_to64_rest();
            assert(7 + 7 * i == 7 * (i + 1));
            assert(pow2(70) == 0x40_0000_0000_0000_0000) by (nonlinear_arith)
                requires
                    pow2(70) == pow2(64) * pow2(6),
                    pow2(64) == 0x1_0000_0000_0000_0000,
                    pow2(6) == 64,
            ;
            if i < 9 {
                lemma_pow2_strictly_increases(7 * (i + 1) as nat, 70);
            }
            let d = if b < 128 { b as int } else { b - 128 };
            assert(0 <= d * weight <= 127 * weight) by (nonlinear_arith)
                requires
                    0 <= d <= 127,
                    weight >= 0,
            ;
            assert(weight * 128 == 128 * weight) by (nonlinear_arith);
        }
        if b < 128 {
            let n: u128 = acc + b as u128 * weight;
            return Ok((n % 0x1_0000_0000_0000_0000) as u64);
        }
        acc = acc + (b - 128) as u128 * weight;
        weight = weight * 128;
        i = i + 1;
    }
    Err(Error::new(ErrorKind::InvalidData, "variable-length number too long"))
}

fn read_node_place(input: &mut SliceInput, min_fp: u64, left: bool) -> (r: Result<u64, Error>)
    ensures
        final(input).bytes() == old(input).bytes(),
        outcome(r, final(input).pos(), node_place_at(old(input).bytes(), old(input).pos(), min_fp, left)),
{
    if left {
        return Ok(min_fp);
    }
    let v: u64 = read_index_long(input)?;
    Ok(wrap_add(min_fp, v))
}

/// Where the left subtree begins: its length, if it is said, is passed over.
pub open spec fn past_left_length(s: Seq<u8>, p: int, l: int) -> Result<int, ErrorKind> {
    if l > 1 {
        match index_long_at(s, p) {
            Ok((_, q)) => Ok(q),
            Err(e) => Err(e),
        }
    } else {
        Ok(p)
    }
}

/// The documents within the bounds in the leaf at `fp`, which is read only if
/// its cell meets the bounds.
pub open spec fn cell_docs(data: Seq<u8>, cell: (Seq<u8>, Seq<u8>), fp: u64, n: int, lower: Option<Seq<u8>>, upper: Option<Seq<u8>>) -> Result<Seq<u32>, ErrorKind> {
    if cell_meets(cell.0, cell.1, lower, upper) {
        leaf_docs(data, fp as int, n, lower, upper)
    } else {
        Ok(Seq::empty())
    }
}

/// The documents within the bounds in the subtree of `k` leaves at `p`, and
/// where the subtree ends.
#[verifier::opaque]
pub open spec fn subtree_docs(data: Seq<u8>, s: Seq<u8>, p: int, cell: (Seq<u8>, Seq<u8>), min_fp: u64, last: Seq<u8>, left: bool, k: int, lower: Option<Seq<u8>>, upper: Option<Seq<u8>>) -> Result<
    (Seq<u32>, int),
    ErrorKind,
>
    decreases k,
{
    match node_place_at(s, p, min_fp, left) {
        Ok((fp, q)) => {
            let l = num_left(k);
            if k <= 1 || !(1 <= l < k) {
                match cell_docs(data, cell, fp, last.len() as int, lower, upper) {
                    Ok(docs) => Ok((docs, q)),
                    Err(e) => Err(e),
                }
            } else {
                match split_at(s, q, last, left) {
                    Ok((split, e)) => match past_left_length(s, e, l) {
                        Ok(f) => match subtree_docs(data, s, f, (cell.0, split), fp, split, true, l, lower, upper) {
                            Ok((a, g)) => match subtree_docs(data, s, g, (split, cell.1), fp, split, false, k - l, lower, upper) {
                                Ok((b, z)) => Ok((a + b, z)),
                                Err(x) => Err(x),
                            },
                            Err(x) => Err(x),
                        },
                        Err(x) => Err(x),
                    },
                    Err(x) => Err(x),
                }
            }
        },
        Err(x) => Err(x),
    }
}

/// The documents within the bounds in a tree of `k` leaves whose values have
/// `n` bytes and lie in `cell`.
pub open spec fn tree_docs(data: Seq<u8>, packed: Seq<u8>, cell: (Seq<u8>, Seq<u8>), n: nat, k: int, lower: Option<Seq<u8>>, upper: Option<Seq<u8>>) -> Result<Seq<u32>, ErrorKind> {
    if !cell_meets(cell.0, cell.1, lower, upper) {
        Ok(Seq::empty())
    } else {
        match subtree_docs(data, packed, 0, cell, 0, zeros(n), false, k, lower, upper) {
            Ok((docs, _)) => Ok(docs),
            Err(e) => Err(e),
        }
    }
}

fn append_docs(out: &mut Vec<u32>, docs: &Vec<u32>)
    ensures
        final(out)@ == old(out)@ + docs@,
{
    let ghost before = out@;
    let mut i: usize = 0;
    assert(before + docs@.take(0) =~= before);
    while i < docs.len()
        invariant
            i <= docs@.len(),
            out@ == before + docs@.take(i as int),
        decreases docs@.len() - i,
    {
        out.push(docs[i]);
        assert(out@ =~= before + docs@.take(i + 1));
        i = i + 1;
    }
    assert(docs@.take(i as int) =~= docs@);
}

fn read_cell(data: &[u8], out: &mut Vec<u32>, cell_min: &[u8], cell_max: &[u8], fp: u64, n: usize, lower: Option<&[u8]>, upper: Option<&[u8]>) -> (r: Result<(), Error>)
    requires
        0 < n <= 8,
    ensures
        match cell_docs(data@, (cell_min@, cell_max@), fp, n as int, bound_view(lower), bound_view(upper)) {
            Ok(docs) => r is Ok && final(out)@ == old(out)@ + docs,
            Err(e) => r is Err && r->Err_0.kind == e,
        },
{
    if range_intersects(cell_min, cell_max, lower, upper) {
        let docs = read_leaf_block(data, fp, n, lower, upper)?;
        append_docs(out, &docs);
    } else {
        assert(out@ + Seq::<u32>::empty() =~= out@);
    }
    Ok(())
}

fn skip_left_length(input: &mut SliceInput, l: usize) -> (r: Result<(), Error>)
    ensures
        final(input).bytes() == old(input).bytes(),
        match past_left_length(old(input).bytes(), old(input).pos(), l as int) {
            Ok(q) => r is Ok && final(input).pos() == q,
            Err(e) => r is Err && r->Err_0.kind == e,
        },
{
    if l > 1 {
        let _left_num_bytes: u64 = read_index_long(input)?;
    }
    Ok(())
}

fn intersect_node(
    data: &[u8],
    input: &mut SliceInput,
    out: &mut Vec<u32>,
    cell_min: &[u8],
    cell_max: &[u8],
    min_fp: u64,
    last: &Vec<u8>,
    left: bool,
    k: usize,
    lower: Option<&[u8]>,
    upper: Option<&[u8]>,
) -> (r: Result<(), Error>)
    requires
        1 <= k,
        0 < last@.len() <= 8,
    ensures
        final(input).bytes() == old(input).bytes(),
        match subtree_docs(data@, old(input).bytes(), old(input).pos(), (cell_min@, cell_max@), min_fp, last@, left, k as int, bound_view(lower), bound_view(upper)) {
            Ok((docs, z)) => r is Ok && final(out)@ == old(out)@ + docs && final(input).pos() == z,
            Err(e) => r is Err && r->Err_0.kind == e,
        },
    decreases k,
{
    proof {
        reveal_with_fuel(subtree_docs, 1);
    }
    let ghost (s, before) = (input.bytes(), out@);
    let ghost (low, high) = (bound_view(lower), bound_view(upper));
    let fp: u64 = read_node_place(input, min_fp, left)?;
    if k == 1 {
        return read_cell(data, out, cell_min, cell_max, fp, last.len(), lower, upper);
    }
    let l: usize = get_num_left_leaf_nodes(k);
    let split = read_split(input, last, left)?;
    skip_left_length(input, l)?;
    let ghost a = subtree_docs(data@, s, input.pos(), (cell_min@, split@), fp, split@, true, l as int, low, high);
    intersect_node(data, input, out, cell_min, split.as_slice(), fp, &split, true, l, lower, upper)?;
    let ghost b = subtree_docs(data@, s, input.pos(), (split@, cell_max@), fp, split@, false, k - l, low, high);
    intersect_node(data, input, out, split.as_slice(), cell_max, fp, &split, false, k - l, lower, upper)?;
    proof {
        assert(before + a->Ok_0.0 + b->Ok_0.0 =~= before + (a->Ok_0.0 + b->Ok_0.0));
    }
    Ok(())
}

/// A bound of a query as a value.
pub open spec fn owned_bound(b: Option<Vec<u8>>) -> Option<Seq<u8>> {
    match b {
        Some(v) => Some(v@),
        None => None,
    }
}

fn bound_of(b: &Option<Vec<u8>>) -> (r: Option<&[u8]>)
    ensures
        bound_view(r) == owned_bound(*b),
{
    match b {
        Some(v) => Some(v.as_slice()),
        None => None,
    }
}

/// Reads one field of one dimension.
pub struct BKDReader {
    data: Vec<u8>,
    packed_index: Vec<u8>,
    bytes_per_dim: u8,
    num_leaves: u32,
    min_packed_value: Vec<u8>,
    max_packed_value: Vec<u8>,
    point_count: u32,
}

impl BKDReader {
    /// The data file.
    pub closed spec fn data(&self) -> Seq<u8> {
        self.data@
    }

    /// The packed index of the field.
    pub closed spec fn packed(&self) -> Seq<u8> {
        self.packed_index@
    }

    /// How many bytes a value has.
    pub closed spec fn width(&self) -> nat {
        self.bytes_per_dim as nat
    }

    pub closed spec fn leaves(&self) -> nat {
        self.num_leaves as nat
    }

    /// The least and the greatest value.
    pub closed spec fn bounds(&self) -> (Seq<u8>, Seq<u8>) {
        (self.min_packed_value@, self.max_packed_value@)
    }

    pub closed spec fn points(&self) -> nat {
        self.point_count as nat
    }

    /// There is a tree to walk over: values have one to eight bytes, and so do
    /// the bounds, and there is a leaf.
    pub open spec fn walkable(&self) -> bool {
        &&& 1 <= self.width() <= 8
        &&& 1 <= self.leaves()
        &&& self.width() <= self.bounds().0.len()
        &&& self.width() <= self.bounds().1.len()
    }

    /// A reader of a field: the data file, the field's part of the index file,
    /// and what the metadata say of the field.
    pub fn new(data: Vec<u8>, packed_index: Vec<u8>, bytes_per_dim: u8, num_leaves: u32, min_packed_value: Vec<u8>, max_packed_value: Vec<u8>, point_count: u32) -> (r: Self)
        ensures
            r.data() == data@,
            r.packed() == packed_index@,
            r.width() == bytes_per_dim,
            r.leaves() == num_leaves,
            r.bounds() == (min_packed_value@, max_packed_value@),
            r.points() == point_count,
    {
        BKDReader { data, packed_index, bytes_per_dim, num_leaves, min_packed_value, max_packed_value, point_count }
    }

    /// How many points the field has.
    pub fn point_count(&self) -> (r: u32)
        ensures
            r == self.points(),
    {
        self.point_count
    }

    /// How many leaves the field has.
    pub fn num_leaves(&self) -> (r: u32)
        ensures
            r == self.leaves(),
    {
        self.num_leaves
    }

    /// How many bytes a value has.
    pub fn bytes_per_dim(&self) -> (r: u8)
        ensures
            r == self.width(),
    {
        self.bytes_per_dim
    }

    /// The documents whose value is within the bounds, both of which count as
    /// within. A bound that is not given is open. Documents come in the order
    /// of their values, and repeat where several of their values are within
    /// the bounds.
    pub fn intersect(&mut self, lower: Option<Vec<u8>>, upper: Option<Vec<u8>>) -> (r: Result<Vec<u32>, Error>)
        requires
            old(self).walkable(),
        ensures
            *final(self) == *old(self),
            match tree_docs(
                old(self).data(),
                old(self).packed(),
                (old(self).bounds().0.take(old(self).width() as int), old(self).bounds().1.take(old(self).width() as int)),
                old(self).width(),
                old(self).leaves() as int,
                owned_bound(lower),
                owned_bound(upper),
            ) {
                Ok(docs) => r is Ok && r->Ok_0@ == docs,
                Err(e) => r is Err && r->Err_0.kind == e,
            },
    {
        let n: usize = self.bytes_per_dim as usize;
        let low = bound_of(&lower);
        let high = bound_of(&upper);
        let cell_min = &self.min_packed_value.as_slice()[0..n];
        let cell_max = &self.max_packed_value.as_slice()[0..n];
        let mut out: Vec<u32> = Vec::new();
        if !range_intersects(cell_min, cell_max, low, high) {
            return Ok(out);
        }
        let mut last: Vec<u8> = Vec::new();
        while last.len() < n
            invariant
                last@.len() <= n,
                forall|i: int| 0 <= i < last@.len() ==> #[trigger] last@[i] == 0,
            decreases n - last@.len(),
        {
            last.push(0);
        }
        assert(last@ =~= zeros(n as nat));
        let mut input = SliceInput::new(self.packed_index.as_slice());
        intersect_node(self.data.as_slice(), &mut input, &mut out, cell_min, cell_max, 0, &last, false, self.num_leaves as usize, low, high)?;
        Ok(out)
    }
}

// ---------------------------------------------------------------------------
// Trees that were written
// ---------------------------------------------------------------------------

/// The points of `k` leaves.
spec fn part(points: Seq<(u64, u32)>, off: int, k: int) -> Seq<(u64, u32)> {
    points.subrange(512 * off, if 512 * (off + k) <= points.len() {
        512 * (off + k)
    } else {
        points.len() as int
    })
}

/// The values of `k` leaves lie in a cell.
#[verifier::opaque]
spec fn within(points: Seq<(u64, u32)>, least: u64, most: u64, off: int, k: int) -> bool {
    forall|i: int| 512 * off <= i < 512 * (off + k) && i < points.len() ==> least <= (#[trigger] points[i]).0 <= most
}

/// The documents within the bounds in `k` leaves.
#[verifier::opaque]
spec fn part_docs(f: PointField, off: int, k: int, lower: Option<Seq<u8>>, upper: Option<Seq<u8>>) -> Seq<u32> {
    docs_in_range(leaf_points(part(f.points, off, k), f.width), lower, upper)
}

proof fn lemma_docs_joined(a: Seq<(Seq<u8>, u32)>, b: Seq<(Seq<u8>, u32)>, lower: Option<Seq<u8>>, upper: Option<Seq<u8>>)
    ensures
        docs_in_range(a + b, lower, upper) == docs_in_range(a, lower, upper) + docs_in_range(b, lower, upper),
    decreases b.len(),
{
    if b.len() == 0 {
        assert(a + b =~= a);
    } else {
        lemma_docs_joined(a, b.drop_last(), lower, upper);
        assert((a + b).drop_last() =~= a + b.drop_last());
    }
}

/// A cell that does not meet the bounds has no document within them.
proof fn lemma_cell_missed(points: Seq<(u64, u32)>, n: nat, least: u64, most: u64, lower: Option<Seq<u8>>, upper: Option<Seq<u8>>)
    requires
        least < pow2(8 * n),
        most < pow2(8 * n),
        keys_fit(points, n),
        forall|i: int| 0 <= i < points.len() ==> least <= (#[trigger] points[i]).0 <= most,
        !cell_meets(key_bytes(least, n), key_bytes(most, n), lower, upper),
    ensures
        docs_in_range(leaf_points(points, n), lower, upper) == Seq::<u32>::empty(),
    decreases points.len(),
{
    if points.len() > 0 {
        let d = points.drop_last();
        assert forall|i: int| 0 <= i < d.len() implies least <= (#[trigger] d[i]).0 <= most && d[i].0 < pow2(8 * n) by {
            assert(d[i] == points[i]);
        }
        lemma_cell_missed(d, n, least, most, lower, upper);
        assert(leaf_points(points, n).drop_last() =~= leaf_points(d, n));
        let x = points.last().0;
        assert(x == points[points.len() - 1].0);
        law_key_order(least, x, n);
        law_key_order(x, most, n);
        law_key_order(x, least, n);
        law_key_order(most, x, n);
        let v = key_bytes(x, n);
        assert(leaf_points(points, n).last().0 == v);
        assert(!in_range(v, lower, upper)) by {
            if upper is Some && lex_less(upper->Some_0, key_bytes(least, n)) {
                lemma_lex_order(upper->Some_0, key_bytes(least, n), v);
            } else {
                lemma_lex_order(v, key_bytes(most, n), lower->Some_0);
            }
        }
    }
}

/// The leaves that `data` holds from `at` on.
pub(crate) open spec fn leaves_held(data: Seq<u8>, points: Seq<(u64, u32)>, n: nat, fps: Seq<u64>) -> bool {
    forall|i: int| 0 <= i < leaf_count(points) ==> holds_at(data, #[trigger] fps[i] as int, leaf_bytes(leaf_of(points, i), n))
}

/// Leaf `i` is part of the leaves.
proof fn lemma_leaf_held(data: Seq<u8>, at: int, points: Seq<(u64, u32)>, n: nat, i: int, k: int)
    requires
        0 <= i < k,
        holds_at(data, at, leaves_bytes(points, n, k)),
    ensures
        holds_at(data, at + leaves_bytes(points, n, i).len(), leaf_bytes(leaf_of(points, i), n)),
        leaves_bytes(points, n, i).len() <= leaves_bytes(points, n, k).len(),
    decreases k,
{
    lemma_holds_concat(data, at, leaves_bytes(points, n, k - 1), leaf_bytes(leaf_of(points, k - 1), n));
    if i < k - 1 {
        lemma_leaf_held(data, at, points, n, i, k - 1);
    }
}

proof fn lemma_leaves_grow(points: Seq<(u64, u32)>, n: nat, i: int, j: int)
    requires
        0 <= i <= j,
    ensures
        leaves_bytes(points, n, i).len() <= leaves_bytes(points, n, j).len(),
    decreases j,
{
    if i < j {
        lemma_leaves_grow(points, n, i, j - 1);
    }
}

/// The places and first values of the leaves are in order.
pub(crate) proof fn lemma_tree_ok(data: Seq<u8>, at: nat, f: PointField)
    requires
        field_ok(f),
        holds_at(data, at as int, point_data(f)),
        data.len() <= i64::MAX,
    ensures
        leaves_held(data, f.points, f.width, leaf_places(f.points, f.width, at)),
        subtree_ok(leaf_places(f.points, f.width, at), leaf_starts(f.points), f.width, 0, 0, false, 0, leaf_count(f.points)),
{
    reveal(subtree_ok);
    reveal(point_data);
    let (points, n) = (f.points, f.width);
    let k = leaf_count(points);
    let fps = leaf_places(points, n, at);
    let starts = leaf_starts(points);
    vstd::arithmetic::power2::lemma_pow2_pos(8 * n);
    assert forall|i: int| 0 <= i < k implies holds_at(data, #[trigger] fps[i] as int, leaf_bytes(leaf_of(points, i), n)) && fps[i] == at + leaves_bytes(points, n, i).len() && fps[i] <= i64::MAX by {
        lemma_leaf_held(data, at as int, points, n, i, k);
    }
    assert forall|i: int, j: int| 0 <= i <= j < k implies #[trigger] fps[i] <= #[trigger] fps[j] by {
        lemma_leaves_grow(points, n, i, j);
    }
    assert forall|i: int| 0 <= i < k - 1 implies #[trigger] starts[i] < pow2(8 * n) by {
        assert(points[512 * (i + 1)].0 < pow2(8 * n));
    }
    assert forall|i: int, j: int| 0 <= i <= j < k - 1 implies #[trigger] starts[i] <= #[trigger] starts[j] by {
        if i < j {
            assert(point_leq(points[512 * (i + 1)], points[512 * (j + 1)]));
        }
    }
}

/// The documents of a node from those of its subtrees.
proof fn lemma_docs_of_node(
    data: Seq<u8>,
    s: Seq<u8>,
    p: int,
    cell: (Seq<u8>, Seq<u8>),
    min_fp: u64,
    last: Seq<u8>,
    left: bool,
    k: int,
    lower: Option<Seq<u8>>,
    upper: Option<Seq<u8>>,
    fp: u64,
    q: int,
    split: Seq<u8>,
    e: int,
    g: int,
    a: (Seq<u32>, int),
    b: (Seq<u32>, int),
)
    requires
        1 <= num_left(k) < k,
        place_at(s, p, min_fp, left) == Ok::<(u64, int), ErrorKind>((fp, q)),
        split_at(s, q, last, left) == Ok::<(Seq<u8>, int), ErrorKind>((split, e)),
        past_left_length(s, e, num_left(k)) == Ok::<int, ErrorKind>(g),
        subtree_docs(data, s, g, (cell.0, split), fp, split, true, num_left(k), lower, upper) == Ok::<(Seq<u32>, int), ErrorKind>(a),
        subtree_docs(data, s, a.1, (split, cell.1), fp, split, false, k - num_left(k), lower, upper) == Ok::<(Seq<u32>, int), ErrorKind>(b),
    ensures
        subtree_docs(data, s, p, cell, min_fp, last, left, k, lower, upper) == Ok::<(Seq<u32>, int), ErrorKind>((a.0 + b.0, b.1)),
{
    lemma_index_long(s, p);
    reveal_with_fuel(subtree_docs, 1);
}

/// The documents of a leaf.
proof fn lemma_docs_of_leaf(data: Seq<u8>, s: Seq<u8>, p: int, cell: (Seq<u8>, Seq<u8>), min_fp: u64, last: Seq<u8>, left: bool, lower: Option<Seq<u8>>, upper: Option<Seq<u8>>, fp: u64, q: int, docs: Seq<u32>)
    requires
        place_at(s, p, min_fp, left) == Ok::<(u64, int), ErrorKind>((fp, q)),
        cell_docs(data, cell, fp, last.len() as int, lower, upper) == Ok::<Seq<u32>, ErrorKind>(docs),
    ensures
        subtree_docs(data, s, p, cell, min_fp, last, left, 1, lower, upper) == Ok::<(Seq<u32>, int), ErrorKind>((docs, q)),
{
    lemma_index_long(s, p);
    reveal_with_fuel(subtree_docs, 1);
}

/// The length of a left subtree is passed over.
proof fn lemma_past_left(s: Seq<u8>, e: int, l: int, len: nat)
    requires
        len < 0x8000_0000,
        l > 1 ==> holds_at(s, e, crate::bytes::vint_of(len as int)),
    ensures
        past_left_length(s, e, l) == Ok::<int, ErrorKind>(if l > 1 {
            e + crate::bytes::vint_of(len as int).len()
        } else {
            e
        }),
{
    if l > 1 {
        crate::bytes::law_vlong_round_trip(s, e, len as i64);
        lemma_index_long(s, e);
    }
}

/// The walk over a subtree gives what its points call for.
#[verifier::rlimit(40)]
proof fn lemma_walk(
    data: Seq<u8>,
    s: Seq<u8>,
    p: int,
    f: PointField,
    fps: Seq<u64>,
    starts: Seq<u64>,
    least: u64,
    most: u64,
    min_fp: u64,
    last: u64,
    left: bool,
    off: int,
    k: int,
    lower: Option<Seq<u8>>,
    upper: Option<Seq<u8>>,
)
    requires
        field_ok(f),
        off + k <= leaf_count(f.points),
        leaves_held(data, f.points, f.width, fps),
        starts == leaf_starts(f.points),
        subtree_ok(fps, starts, f.width, min_fp, last, left, off, k),
        holds_at(s, p, index_bytes(fps, starts, f.width, min_fp, key_bytes(last, f.width), left, off, k)),
        s.len() < 0x8000_0000,
        least < pow2(8 * f.width),
        most < pow2(8 * f.width),
        within(f.points, least, most, off, k),
    ensures
        subtree_docs(data, s, p, (key_bytes(least, f.width), key_bytes(most, f.width)), min_fp, key_bytes(last, f.width), left, k, lower, upper) == Ok::<
            (Seq<u32>, int),
            ErrorKind,
        >((part_docs(f, off, k, lower, upper), p + index_bytes(fps, starts, f.width, min_fp, key_bytes(last, f.width), left, off, k).len())),
    decreases k,
{
    let n = f.width;
    lemma_subtree_facts(fps, starts, n, min_fp, last, left, off, k);
    let b = key_bytes(last, n);
    let fp = if left {
        min_fp
    } else {
        fps[off]
    };
    let head = if left {
        Seq::empty()
    } else {
        vlong_of(fp - min_fp)
    };
    if k == 1 {
        lemma_place_read(s, p, min_fp, fp, left);
        lemma_leaf_walk(data, f, fps, least, most, off, lower, upper);
        lemma_be_bytes_len(last as nat, n);
        lemma_docs_of_leaf(data, s, p, (key_bytes(least, n), key_bytes(most, n)), min_fp, b, left, lower, upper, fp, p + head.len(), part_docs(f, off, 1, lower, upper));
    } else {
        lemma_num_left(k);
        let l = num_left(k);
        let m = starts[off + l - 1];
        let split = key_bytes(m, n);
        lemma_subtrees_ok(fps, starts, n, min_fp, last, left, off, k, l);
        let x = split_bytes(split, b, left);
        let a = index_bytes(fps, starts, n, fp, split, true, off, l);
        let c = index_bytes(fps, starts, n, fp, split, false, off + l, k - l);
        let y = if l > 1 {
            crate::bytes::vint_of(a.len() as int)
        } else {
            Seq::empty()
        };
        assert(index_bytes(fps, starts, n, min_fp, b, left, off, k) == head + x + y + a + c);
        lemma_node_holds(s, p, head, x, y, a, c);
        lemma_place_read(s, p, min_fp, fp, left);
        let q = p + head.len();
        lemma_split_read(s, q, m, last, n, left);
        let e = q + x.len();
        lemma_past_left(s, e, l, a.len());
        let g = e + y.len();
        lemma_halves(f, least, most, off, k, l, lower, upper);
        lemma_walk(data, s, g, f, fps, starts, least, m, fp, m, true, off, l, lower, upper);
        lemma_walk(data, s, g + a.len(), f, fps, starts, m, most, fp, m, false, off + l, k - l, lower, upper);
        lemma_docs_of_node(
            data,
            s,
            p,
            (key_bytes(least, n), key_bytes(most, n)),
            min_fp,
            b,
            left,
            k,
            lower,
            upper,
            fp,
            q,
            split,
            e,
            g,
            (part_docs(f, off, l, lower, upper), g + a.len()),
            (part_docs(f, off + l, k - l, lower, upper), g + a.len() + c.len()),
        );
    }
}

/// A leaf gives what its points call for.
proof fn lemma_leaf_walk(data: Seq<u8>, f: PointField, fps: Seq<u64>, least: u64, most: u64, off: int, lower: Option<Seq<u8>>, upper: Option<Seq<u8>>)
    requires
        field_ok(f),
        0 <= off < leaf_count(f.points),
        leaves_held(data, f.points, f.width, fps),
        least < pow2(8 * f.width),
        most < pow2(8 * f.width),
        within(f.points, least, most, off, 1),
    ensures
        cell_docs(data, (key_bytes(least, f.width), key_bytes(most, f.width)), fps[off], f.width as int, lower, upper) == Ok::<Seq<u32>, ErrorKind>(part_docs(f, off, 1, lower, upper)),
{
    let (points, n) = (f.points, f.width);
    reveal(within);
    reveal(part_docs);
    let leaf = leaf_of(points, off);
    assert(part(points, off, 1) =~= leaf);
    assert(keys_fit(leaf, n)) by {
        assert forall|i: int| 0 <= i < leaf.len() implies (#[trigger] leaf[i]).0 < pow2(8 * n) by {
            assert(leaf[i] == points[512 * off + i]);
        }
    }
    assert(points_ascend(leaf)) by {
        assert forall|i: int, j: int| 0 <= i < j < leaf.len() implies point_leq(#[trigger] leaf[i], #[trigger] leaf[j]) by {
            assert(point_leq(points[512 * off + i], points[512 * off + j]));
        }
    }
    let fp = fps[off];
    assert(holds_at(data, fp as int, leaf_bytes(leaf, n)));
    law_leaf_round_trip(data, fp as int, leaf, n);
    if !cell_meets(key_bytes(least, n), key_bytes(most, n), lower, upper) {
        assert forall|i: int| 0 <= i < leaf.len() implies least <= (#[trigger] leaf[i]).0 <= most by {
            assert(leaf[i] == points[512 * off + i]);
        }
        lemma_cell_missed(leaf, n, least, most, lower, upper);
    }
}

/// The split value parts the points of a subtree.
proof fn lemma_halves(f: PointField, least: u64, most: u64, off: int, k: int, l: int, lower: Option<Seq<u8>>, upper: Option<Seq<u8>>)
    requires
        field_ok(f),
        0 <= off,
        1 <= l < k,
        off + k <= leaf_count(f.points),
        within(f.points, least, most, off, k),
    ensures
        within(f.points, least, leaf_starts(f.points)[off + l - 1], off, l),
        within(f.points, leaf_starts(f.points)[off + l - 1], most, off + l, k - l),
        part_docs(f, off, k, lower, upper) == part_docs(f, off, l, lower, upper) + part_docs(f, off + l, k - l, lower, upper),
{
    let (points, n) = (f.points, f.width);
    reveal(within);
    reveal(part_docs);
    let m = 512 * (off + l);
    assert(m < points.len());
    assert(leaf_starts(points)[off + l - 1] == points[m].0);
    assert forall|i: int| 512 * off <= i < m && i < points.len() implies (#[trigger] points[i]).0 <= points[m].0 by {
        assert(point_leq(points[i], points[m]));
    }
    assert forall|i: int| m <= i < 512 * (off + k) && i < points.len() implies points[m].0 <= (#[trigger] points[i]).0 by {
        if m < i {
            assert(point_leq(points[m], points[i]));
        }
    }
    assert(leaf_points(part(points, off, k), n) =~= leaf_points(part(points, off, l), n) + leaf_points(part(points, off + l, k - l), n));
    lemma_docs_joined(leaf_points(part(points, off, l), n), leaf_points(part(points, off + l, k - l), n), lower, upper);
}

/// On a field that was written, the walk gives the documents of exactly the
/// points whose value is within the bounds, in the order of the points. The
/// index has fewer bytes than an int can say.
pub proof fn law_intersect_exact(data: Seq<u8>, at: nat, f: PointField, lower: Option<Seq<u8>>, upper: Option<Seq<u8>>)
    requires
        field_ok(f),
        holds_at(data, at as int, point_data(f)),
        data.len() <= i64::MAX,
        point_index(f, at).len() < 0x8000_0000,
    ensures
        tree_docs(data, point_index(f, at), (key_bytes(f.points[0].0, f.width), key_bytes(f.points.last().0, f.width)), f.width, leaf_count(f.points), lower, upper) == Ok::<
            Seq<u32>,
            ErrorKind,
        >(docs_in_range(leaf_points(f.points, f.width), lower, upper)),
{
    let (points, n) = (f.points, f.width);
    let (least, most) = (points[0].0, points.last().0);
    reveal(point_index);
    let k = leaf_count(points);
    let s = point_index(f, at);
    assert forall|i: int| 0 <= i < points.len() implies least <= (#[trigger] points[i]).0 <= most by {
        if 0 < i {
            assert(point_leq(points[0], points[i]));
        }
        if i < points.len() - 1 {
            assert(point_leq(points[i], points[points.len() - 1]));
        }
    }
    assert(points[0].0 < pow2(8 * n) && points[points.len() - 1].0 < pow2(8 * n));
    if !cell_meets(key_bytes(least, n), key_bytes(most, n), lower, upper) {
        lemma_cell_missed(points, n, least, most, lower, upper);
    } else {
        lemma_tree_ok(data, at, f);
        lemma_zero_key(n);
        assert(s.subrange(0, s.len() as int) =~= s);
        reveal(within);
        reveal(part_docs);
        lemma_walk(data, s, 0, f, leaf_places(points, n, at), leaf_starts(points), least, most, 0, 0, false, 0, k, lower, upper);
        assert(part(points, 0, k) =~= points);
    }
}

} // verus!
