//! The leaves of a tree of points: documents, the prefix that all values
//! share, and the rest of the values in runs of one lead byte.

use crate::bytes::{
    be_bytes, be_vec, byte_at, bytes_difference, bytes_less, common_prefix, holds_at, lemma_be_bytes_len, lemma_common_prefix, lemma_concat_assoc, lemma_holds_byte, lemma_holds_concat,
    lemma_le_bytes_concat, lemma_le_bytes_len, lex_less, push_all, take_at, varint_bytes, vint_at,
};
use crate::codec_util::corrupt;
use crate::doc_ids::{doc_ids_at, doc_ids_bytes, law_doc_ids_round_trip, read_doc_ids, write_doc_ids};
use crate::error::{Error, ErrorKind};
use crate::io::{ChecksumIndexOutput, DataInput, DataOutput, SliceInput};
use crate::num::{spec_to_u32, to_u32};
use crate::point_order::{key_bytes, point_docs, point_leq, points_ascend};
use vstd::arithmetic::power2::pow2;
use vstd::prelude::*;

verus! {

/// The bytes of a point's value.
pub open spec fn value_of(leaf: Seq<(u64, u32)>, n: nat, i: int) -> Seq<u8> {
    key_bytes(leaf[i].0, n)
}

/// How many bytes the first and the last value share.
pub open spec fn shared_len(leaf: Seq<(u64, u32)>, n: nat) -> nat {
    common_prefix(value_of(leaf, n, 0), value_of(leaf, n, leaf.len() - 1))
}

/// Where the run that begins at `i` ends, looked for from `k` on: runs have
/// one byte at place `c`, and at most 255 points.
pub open spec fn run_end(leaf: Seq<(u64, u32)>, n: nat, c: int, i: int, k: int) -> int
    decreases leaf.len() - k,
{
    if k >= leaf.len() || k - i >= 255 || value_of(leaf, n, k)[c] != value_of(leaf, n, i)[c] {
        k
    } else {
        run_end(leaf, n, c, i, k + 1)
    }
}

/// What the values from `i` to before `e` have from place `c` on.
pub open spec fn tails_bytes(leaf: Seq<(u64, u32)>, n: nat, c: int, i: int, e: int) -> Seq<u8>
    decreases e - i,
{
    if e <= i {
        Seq::empty()
    } else {
        tails_bytes(leaf, n, c, i, e - 1) + value_of(leaf, n, e - 1).skip(c)
    }
}

/// The runs from point `i` on.
pub open spec fn runs_bytes(leaf: Seq<(u64, u32)>, n: nat, c: int, i: int) -> Seq<u8>
    decreases leaf.len() - i,
{
    if i >= leaf.len() {
        Seq::empty()
    } else {
        let e = run_end(leaf, n, c, i, i + 1);
        if e <= i || e > leaf.len() {
            Seq::empty()
        } else {
            seq![value_of(leaf, n, i)[c]] + seq![(e - i) as u8] + tails_bytes(leaf, n, c + 1, i, e) + runs_bytes(leaf, n, c, e)
        }
    }
}

/// The values of a leaf: a mark where all are equal, else the runs.
pub open spec fn values_bytes(leaf: Seq<(u64, u32)>, n: nat) -> Seq<u8> {
    if shared_len(leaf, n) == n {
        seq![255u8]
    } else {
        seq![0u8] + runs_bytes(leaf, n, shared_len(leaf, n) as int, 0)
    }
}

/// A leaf: the number of points, their documents, the shared bytes, the
/// values.
pub open spec fn leaf_bytes(leaf: Seq<(u64, u32)>, n: nat) -> Seq<u8> {
    varint_bytes(leaf.len()) + doc_ids_bytes(point_docs(leaf)) + varint_bytes(shared_len(leaf, n)) + value_of(leaf, n, 0).take(shared_len(leaf, n) as int) + values_bytes(leaf, n)
}

proof fn lemma_run_end(leaf: Seq<(u64, u32)>, n: nat, c: int, i: int, k: int)
    requires
        0 <= i < k <= leaf.len(),
        k - i <= 255,
    ensures
        k <= run_end(leaf, n, c, i, k) <= leaf.len(),
        run_end(leaf, n, c, i, k) - i <= 255,
        forall|j: int| k <= j < run_end(leaf, n, c, i, k) ==> #[trigger] value_of(leaf, n, j)[c] == value_of(leaf, n, i)[c],
    decreases leaf.len() - k,
{
    if k < leaf.len() && k - i < 255 && value_of(leaf, n, k)[c] == value_of(leaf, n, i)[c] {
        lemma_run_end(leaf, n, c, i, k + 1);
    }
}

/// Where the run that begins at `i` ends.
fn find_run_end(leaf: &[(u64, u32)], n: usize, c: usize, i: usize, byte: u8) -> (e: usize)
    requires
        i < leaf@.len(),
        c < n <= 8,
        byte == value_of(leaf@, n as nat, i as int)[c as int],
    ensures
        i < e <= leaf@.len(),
        e - i <= 255,
        e == run_end(leaf@, n as nat, c as int, i as int, i + 1),
{
    let count: usize = leaf.len();
    let mut e: usize = i + 1;
    while e < count && e - i < 255
        invariant
            i < e <= count == leaf@.len(),
            e - i <= 255,
            c < n <= 8,
            byte == value_of(leaf@, n as nat, i as int)[c as int],
            run_end(leaf@, n as nat, c as int, i as int, i + 1) == run_end(leaf@, n as nat, c as int, i as int, e as int),
        decreases count - e,
    {
        broadcast use lemma_be_bytes_len;
        let b = be_vec(leaf[e].0, n);
        if b[c] != byte {
            return e;
        }
        e = e + 1;
    }
    e
}

/// Writes the runs of a leaf's values at place `c`.
fn write_runs(out: &mut ChecksumIndexOutput, leaf: &[(u64, u32)], n: usize, c: usize) -> (r: Result<(), Error>)
    requires
        c < n <= 8,
    ensures
        final(out).since() == old(out).since(),
        r is Ok,
        final(out).written() == old(out).written() + runs_bytes(leaf@, n as nat, c as int, 0),
{
    broadcast use lemma_be_bytes_len;
    let ghost base = out.written();
    let ghost v = leaf@;
    let ghost whole = runs_bytes(v, n as nat, c as int, 0);
    let count: usize = leaf.len();
    let mut i: usize = 0;
    while i < count
        invariant
            out.since() == old(out).since(),
            i <= count == leaf@.len(),
            c < n <= 8,
            v == leaf@,
            out.written() + runs_bytes(v, n as nat, c as int, i as int) == base + whole,
        decreases count - i,
    {
        broadcast use lemma_be_bytes_len;
        let ghost before = out.written();
        let first = be_vec(leaf[i].0, n);
        let byte: u8 = first[c];
        let e: usize = find_run_end(leaf, n, c, i, byte);
        out.write_byte(byte)?;
        out.write_byte((e - i) as u8)?;
        let ghost mid = out.written();
        let mut k: usize = i;
        assert(mid + tails_bytes(v, n as nat, c + 1, i as int, i as int) =~= mid);
        while k < e
            invariant
                out.since() == old(out).since(),
                i <= k <= e <= count == leaf@.len(),
                c < n <= 8,
                v == leaf@,
                out.written() == mid + tails_bytes(v, n as nat, c + 1, i as int, k as int),
            decreases e - k,
        {
            broadcast use lemma_be_bytes_len;
            let b = be_vec(leaf[k].0, n);
            let tail = &b.as_slice()[c + 1..n];
            assert(tail@ =~= value_of(v, n as nat, k as int).skip(c + 1));
            out.write_bytes(tail)?;
            proof {
                lemma_concat_assoc(mid, tails_bytes(v, n as nat, c + 1, i as int, k as int), tail@);
            }
            k = k + 1;
        }
        proof {
            let a = seq![byte];
            let b = seq![(e - i) as u8];
            let t = tails_bytes(v, n as nat, c + 1, i as int, e as int);
            let rest = runs_bytes(v, n as nat, c as int, e as int);
            assert(out.written() == before + a + b + t);
            lemma_concat_assoc(before, a, b);
            lemma_concat_assoc(before, a + b, t);
            lemma_concat_assoc(before, a + b + t, rest);
        }
        i = e;
    }
    assert(out.written() + Seq::<u8>::empty() =~= out.written());
    Ok(())
}

/// Writes a leaf of points in order.
pub fn write_leaf_block(out: &mut ChecksumIndexOutput, leaf: &[(u64, u32)], n: usize) -> (r: Result<(), Error>)
    requires
        0 < leaf@.len() < 0x1_0000_0000,
        0 < n <= 8,
    ensures
        final(out).since() == old(out).since(),
        r is Ok,
        final(out).written() == old(out).written() + leaf_bytes(leaf@, n as nat),
{
    broadcast use lemma_be_bytes_len;
    let ghost base = out.written();
    let ghost v = leaf@;
    let count: usize = leaf.len();
    out.write_varint(count as u64)?;
    let mut docs: Vec<u32> = Vec::new();
    let mut i: usize = 0;
    while i < count
        invariant
            i <= count == leaf@.len(),
            v == leaf@,
            docs@ == point_docs(v.take(i as int)),
        decreases count - i,
    {
        docs.push(leaf[i].1);
        assert(docs@ =~= point_docs(v.take(i + 1)));
        i = i + 1;
    }
    assert(v.take(i as int) =~= v);
    write_doc_ids(out, docs.as_slice())?;
    let first = be_vec(leaf[0].0, n);
    let last = be_vec(leaf[count - 1].0, n);
    let shared: usize = bytes_difference(first.as_slice(), last.as_slice());
    proof {
        lemma_common_prefix(first@, last@);
    }
    out.write_varint(shared as u64)?;
    let head = &first.as_slice()[0..shared];
    assert(head@ =~= value_of(v, n as nat, 0).take(shared as int));
    out.write_bytes(head)?;
    let ghost mid = out.written();
    if shared == n {
        out.write_byte(255)?;
    } else {
        out.write_byte(0)?;
        write_runs(out, leaf, n, shared)?;
        proof {
            lemma_concat_assoc(mid, seq![0u8], runs_bytes(v, n as nat, shared as int, 0));
        }
    }
    proof {
        let (a, b, c, d) = (varint_bytes(v.len()), doc_ids_bytes(point_docs(v)), varint_bytes(shared as nat), head@);
        lemma_concat_assoc(base, a, b);
        lemma_concat_assoc(base, a + b, c);
        lemma_concat_assoc(base, a + b + c, d);
        lemma_concat_assoc(base, a + b + c + d, values_bytes(v, n as nat));
    }
    Ok(())
}

// ---------------------------------------------------------------------------
// Reading
// ---------------------------------------------------------------------------

/// The values of a run of `len`: all begin with `head`, their rests of `w`
/// bytes each are in `t`, and each has `n` bytes.
pub open spec fn run_values(head: Seq<u8>, t: Seq<u8>, w: int, n: int, len: int) -> Seq<Seq<u8>> {
    Seq::new(len as nat, |j: int| (head + t.subrange(w * j, w * j + w)).take(n))
}

/// The bytes of a value of `n` that stand behind the first `c` and one more.
pub open spec fn rest_len(n: int, c: int) -> int {
    if c + 1 < n {
        n - c - 1
    } else {
        0
    }
}

/// The values of the runs from `p` on, behind `acc`, until there are `count`.
pub open spec fn runs_at(s: Seq<u8>, p: int, n: int, prefix: Seq<u8>, count: int, acc: Seq<Seq<u8>>) -> Result<Seq<Seq<u8>>, ErrorKind>
    decreases s.len() - p,
{
    if acc.len() >= count {
        Ok(acc)
    } else if prefix.len() >= 8 {
        Err(ErrorKind::InvalidData)
    } else {
        match byte_at(s, p) {
            Ok((b, q)) => match byte_at(s, q) {
                Ok((len, e)) => {
                    let w = rest_len(n, prefix.len() as int);
                    match take_at(s, e, w * len) {
                        Ok((t, z)) => if z > p && p < s.len() {
                            runs_at(s, z, n, prefix, count, acc + run_values(prefix.push(b), t, w, n, len as int))
                        } else {
                            Err(ErrorKind::InvalidData)
                        },
                        Err(k) => Err(k),
                    }
                },
                Err(k) => Err(k),
            },
            Err(k) => Err(k),
        }
    }
}

/// The value of `n` bytes whose first bytes are given; the others are zero.
pub open spec fn padded(prefix: Seq<u8>, n: int) -> Seq<u8> {
    Seq::new(n as nat, |i: int| if i < prefix.len() { prefix[i] } else { 0u8 })
}

/// The values of the leaf at `p`, of `n` bytes each, and its documents. A
/// value has room for 8 bytes.
pub open spec fn leaf_at(s: Seq<u8>, p: int, n: int) -> Result<(Seq<Seq<u8>>, Seq<u32>), ErrorKind> {
    match vint_at(s, p) {
        Ok((count, q)) => match doc_ids_at(s, q, spec_to_u32(count) as int) {
            Ok((docs, e)) => match vint_at(s, e) {
                Ok((shared, f)) => {
                    let c = spec_to_u32(shared) as int;
                    if c > 8 {
                        Err(ErrorKind::InvalidData)
                    } else {
                        match take_at(s, f, c) {
                            Ok((prefix, g)) => match byte_at(s, g) {
                                Ok((kind, h)) => if kind == 255 {
                                    Ok((Seq::new(docs.len(), |i: int| padded(prefix, n)), docs))
                                } else if kind == 0 {
                                    match runs_at(s, h, n, prefix, spec_to_u32(count) as int, Seq::empty()) {
                                        Ok(values) => Ok((values, docs)),
                                        Err(k) => Err(k),
                                    }
                                } else {
                                    Err(ErrorKind::InvalidData)
                                },
                                Err(k) => Err(k),
                            },
                            Err(k) => Err(k),
                        }
                    }
                },
                Err(k) => Err(k),
            },
            Err(k) => Err(k),
        },
        Err(k) => Err(k),
    }
}

/// Values with the documents of the same places.
pub open spec fn points_of(values: Seq<Seq<u8>>, docs: Seq<u32>) -> Seq<(Seq<u8>, u32)> {
    Seq::new(values.len(), |i: int| (values[i], docs[i]))
}

/// Each value within the bounds is that of one of `k` documents.
pub open spec fn have_docs(values: Seq<Seq<u8>>, k: int, lower: Option<Seq<u8>>, upper: Option<Seq<u8>>) -> bool {
    forall|i: int| k <= i < values.len() ==> !in_range(#[trigger] values[i], lower, upper)
}

/// A value is within the bounds, which may be open on either side.
pub open spec fn in_range(value: Seq<u8>, lower: Option<Seq<u8>>, upper: Option<Seq<u8>>) -> bool {
    &&& lower is Some ==> !lex_less(value, lower->Some_0)
    &&& upper is Some ==> !lex_less(upper->Some_0, value)
}

/// The documents of the points whose value is within the bounds.
pub open spec fn docs_in_range(points: Seq<(Seq<u8>, u32)>, lower: Option<Seq<u8>>, upper: Option<Seq<u8>>) -> Seq<u32>
    decreases points.len(),
{
    if points.len() == 0 {
        Seq::empty()
    } else {
        let d = docs_in_range(points.drop_last(), lower, upper);
        if in_range(points.last().0, lower, upper) {
            d.push(points.last().1)
        } else {
            d
        }
    }
}

/// Bounds as values.
pub open spec fn bound_view(b: Option<&[u8]>) -> Option<Seq<u8>> {
    match b {
        Some(v) => Some(v@),
        None => None,
    }
}

pub(crate) fn value_in_range(value: &[u8], lower: Option<&[u8]>, upper: Option<&[u8]>) -> (r: bool)
    ensures
        r == in_range(value@, bound_view(lower), bound_view(upper)),
{
    if let Some(l) = lower {
        if bytes_less(value, l) {
            return false;
        }
    }
    if let Some(u) = upper {
        if bytes_less(u, value) {
            return false;
        }
    }
    true
}

/// Reads the runs until there are `count` values, and gives the documents
/// within the bounds.
fn read_runs(input: &mut SliceInput, n: usize, prefix: &Vec<u8>, count: u32, docs: &Vec<u32>, lower: Option<&[u8]>, upper: Option<&[u8]>) -> (r: Result<Vec<u32>, Error>)
    requires
        n <= 8,
        0 <= old(input).pos(),
    ensures
        final(input).bytes() == old(input).bytes(),
        match runs_at(old(input).bytes(), old(input).pos(), n as int, prefix@, count as int, Seq::empty()) {
            Ok(values) => if have_docs(values, docs@.len() as int, bound_view(lower), bound_view(upper)) {
                r is Ok && r->Ok_0@ == docs_in_range(points_of(values, docs@), bound_view(lower), bound_view(upper))
            } else {
                r is Err && r->Err_0.kind == ErrorKind::InvalidData
            },
            Err(k) => r is Err && r->Err_0.kind == k,
        },
{
    let ghost s = input.bytes();
    let ghost (lo, up) = (bound_view(lower), bound_view(upper));
    let ghost all = runs_at(s, input.pos(), n as int, prefix@, count as int, Seq::empty());
    let ghost mut acc = Seq::<Seq<u8>>::empty();
    if count > 0 && prefix.len() >= 8 {
        return Err(corrupt("values share more bytes than they have"));
    }
    let w: usize = if prefix.len() < 8 && prefix.len() + 1 < n {
        n - prefix.len() - 1
    } else {
        0
    };
    let mut out: Vec<u32> = Vec::new();
    let mut beyond: bool = false;
    let mut i: u64 = 0;
    assert(points_of(acc, docs@) =~= Seq::empty());
    while i < count as u64
        invariant
            i < 0x1_0000_0000 + 255,
            s == input.bytes(),
            s == old(input).bytes(),
            0 <= input.pos(),
            n <= 8,
            count > 0 ==> prefix@.len() < 8,
            w == rest_len(n as int, prefix@.len() as int) || count == 0,
            (lo, up) == (bound_view(lower), bound_view(upper)),
            acc.len() == i,
            all == runs_at(s, input.pos(), n as int, prefix@, count as int, acc),
            all == runs_at(s, old(input).pos(), n as int, prefix@, count as int, Seq::empty()),
            beyond == !have_docs(acc, docs@.len() as int, lo, up),
            !beyond ==> out@ == docs_in_range(points_of(acc, docs@), lo, up),
        decreases s.len() - input.pos(),
    {
        let _at: usize = input.position();
        let b: u8 = input.read_byte()?;
        let len: usize = input.read_byte()? as usize;
        assert(0 <= w * len <= 8 * 255) by (nonlinear_arith)
            requires
                0 <= w <= 8,
                0 <= len <= 255,
        ;
        let _at: usize = input.position();
        let t = input.read_vec((w * len) as u64)?;
        let ghost more = run_values(prefix@.push(b), t@, w as int, n as int, len as int);
        let ghost before = acc;
        let mut j: usize = 0;
        assert(before + more.take(0) =~= before);
        while j < len
            invariant
                j <= len <= 255,
                i < 0x1_0000_0000,
                n <= 8,
                prefix@.len() < 8,
                w == rest_len(n as int, prefix@.len() as int),
                t@.len() == w * len,
                before.len() == i,
                more == run_values(prefix@.push(b), t@, w as int, n as int, len as int),
                (lo, up) == (bound_view(lower), bound_view(upper)),
                beyond == !have_docs(before + more.take(j as int), docs@.len() as int, lo, up),
                !beyond ==> out@ == docs_in_range(points_of(before + more.take(j as int), docs@), lo, up),
            decreases len - j,
        {
            let _n: usize = t.len();
            let ghost (was, next) = (before + more.take(j as int), before + more.take(j + 1));
            assert(0 <= w * j && w * j + w <= w * len) by (nonlinear_arith)
                requires
                    0 <= j < len,
                    0 <= w,
            ;
            let mut value: Vec<u8> = Vec::new();
            push_all(&mut value, prefix.as_slice());
            value.push(b);
            push_all(&mut value, &t.as_slice()[w * j..w * j + w]);
            assert(value@ =~= prefix@.push(b) + t@.subrange(w * j, w * j + w));
            let cut = &value.as_slice()[0..n];
            assert(cut@ =~= more[j as int]);
            proof {
                assert(next.drop_last() =~= was);
                assert(next.last() == more[j as int]);
                lemma_one_more(was, next.last(), docs@, lo, up);
                assert(was.push(next.last()) =~= next);
            }
            if value_in_range(cut, lower, upper) {
                if i + (j as u64) < docs.len() as u64 {
                    out.push(docs[(i + j as u64) as usize]);
                } else {
                    beyond = true;
                }
            }
            j = j + 1;
        }
        proof {
            assert(more.take(len as int) =~= more);
            acc = before + more;
        }
        i = i + len as u64;
    }
    if beyond {
        return Err(corrupt("a value goes beyond the documents of the leaf"));
    }
    Ok(out)
}

/// What one more value adds to the documents within the bounds.
proof fn lemma_one_more(values: Seq<Seq<u8>>, value: Seq<u8>, docs: Seq<u32>, lower: Option<Seq<u8>>, upper: Option<Seq<u8>>)
    ensures
        have_docs(values.push(value), docs.len() as int, lower, upper) == (have_docs(values, docs.len() as int, lower, upper) && (in_range(value, lower, upper)
            ==> values.len() < docs.len())),
        docs_in_range(points_of(values.push(value), docs), lower, upper) == if in_range(value, lower, upper) {
            docs_in_range(points_of(values, docs), lower, upper).push(docs[values.len() as int])
        } else {
            docs_in_range(points_of(values, docs), lower, upper)
        },
{
    let next = values.push(value);
    assert(points_of(next, docs).drop_last() =~= points_of(values, docs));
    assert forall|i: int| 0 <= i < values.len() implies next[i] == #[trigger] values[i] by {}
    assert(next[values.len() as int] == value);
    if have_docs(next, docs.len() as int, lower, upper) {
        assert forall|i: int| docs.len() <= i < values.len() implies !in_range(#[trigger] values[i], lower, upper) by {
            assert(next[i] == values[i]);
        }
    }
}

/// The documents of a leaf within the bounds.
#[verifier::opaque]
pub open spec fn leaf_docs(s: Seq<u8>, p: int, n: int, lower: Option<Seq<u8>>, upper: Option<Seq<u8>>) -> Result<Seq<u32>, ErrorKind> {
    if p > s.len() {
        Err(ErrorKind::UnexpectedEof)
    } else {
        match leaf_at(s, p, n) {
            Ok((values, docs)) => if have_docs(values, docs.len() as int, lower, upper) {
                Ok(docs_in_range(points_of(values, docs), lower, upper))
            } else {
                Err(ErrorKind::InvalidData)
            },
            Err(k) => Err(k),
        }
    }
}

/// Reads the leaf at `fp`, and gives the documents within the bounds.
pub fn read_leaf_block(data: &[u8], fp: u64, n: usize, lower: Option<&[u8]>, upper: Option<&[u8]>) -> (r: Result<Vec<u32>, Error>)
    requires
        0 < n <= 8,
    ensures
        match leaf_docs(data@, fp as int, n as int, bound_view(lower), bound_view(upper)) {
            Ok(docs) => r is Ok && r->Ok_0@ == docs,
            Err(k) => r is Err && r->Err_0.kind == k,
        },
{
    proof {
        reveal(leaf_docs);
    }
    if fp > data.len() as u64 {
        return Err(Error::new(ErrorKind::UnexpectedEof, "leaf past EOF"));
    }
    let mut input = SliceInput::new(data);
    input.skip_bytes(fp)?;
    let count: u32 = to_u32(input.read_vint()?);
    let docs = read_doc_ids(&mut input, count as usize)?;
    let shared: u32 = to_u32(input.read_vint()?);
    if shared > 8 {
        return Err(corrupt("values share more bytes than they have"));
    }
    let prefix = input.read_vec(shared as u64)?;
    let kind: u8 = input.read_byte()?;
    if kind == 255 {
        all_equal(&prefix, n, &docs, lower, upper)
    } else if kind == 0 {
        let _at: usize = input.position();
        read_runs(&mut input, n, &prefix, count, &docs, lower, upper)
    } else {
        Err(corrupt("unexpected kind of values"))
    }
}

/// The documents of a leaf whose values are all equal.
fn all_equal(prefix: &Vec<u8>, n: usize, docs: &Vec<u32>, lower: Option<&[u8]>, upper: Option<&[u8]>) -> (r: Result<Vec<u32>, Error>)
    requires
        n <= 8,
    ensures
        r is Ok,
        ({
            let values = Seq::new(docs@.len(), |i: int| padded(prefix@, n as int));
            have_docs(values, docs@.len() as int, bound_view(lower), bound_view(upper)) && r->Ok_0@ == docs_in_range(
                points_of(values, docs@),
                bound_view(lower),
                bound_view(upper),
            )
        }),
{
    let ghost want = padded(prefix@, n as int);
    let mut value: Vec<u8> = Vec::new();
    while value.len() < n
        invariant
            value@.len() <= n,
            value@ == padded(prefix@, value@.len() as int),
        decreases n - value@.len(),
    {
        if value.len() < prefix.len() {
            let at: usize = value.len();
            value.push(prefix[at]);
        } else {
            value.push(0);
        }
        assert(value@ =~= padded(prefix@, value@.len() as int));
    }
    let keep: bool = value_in_range(value.as_slice(), lower, upper);
    let ghost points = points_of(Seq::new(docs@.len(), |i: int| want), docs@);
    let mut out: Vec<u32> = Vec::new();
    let mut i: usize = 0;
    assert(points.take(0) =~= Seq::empty());
    while i < docs.len()
        invariant
            i <= docs@.len(),
            points == points_of(Seq::new(docs@.len(), |i: int| want), docs@),
            keep == in_range(want, bound_view(lower), bound_view(upper)),
            out@ == docs_in_range(points.take(i as int), bound_view(lower), bound_view(upper)),
        decreases docs@.len() - i,
    {
        if keep {
            out.push(docs[i]);
        }
        assert(points.take(i + 1).drop_last() =~= points.take(i as int));
        i = i + 1;
    }
    assert(points.take(i as int) =~= points);
    Ok(out)
}

// ---------------------------------------------------------------------------
// Reading what was written
// ---------------------------------------------------------------------------

/// The first bytes of a key belong to its high part.
proof fn lemma_key_head(a: u64, n: nat, k: nat)
    requires
        k <= n,
    ensures
        key_bytes(a, n).take(k as int) == be_bytes((a as nat / pow2(8 * (n - k) as nat)) as nat, k),
{
    broadcast use lemma_le_bytes_len;
    let m = (n - k) as nat;
    lemma_le_bytes_concat(a as nat, m, k);
    let (x, y) = (le_bytes_of(a as nat, m), le_bytes_of(a as nat / pow2(8 * m), k));
    assert(key_bytes(a, n) == (x + y).reverse());
    assert(key_bytes(a, n).take(k as int) =~= y.reverse());
}

spec fn le_bytes_of(v: nat, n: nat) -> Seq<u8> {
    crate::bytes::le_bytes(v, n)
}

/// A value between two others has the bytes that these share.
proof fn lemma_between(a: u64, x: u64, b: u64, n: nat, k: nat)
    requires
        a <= x <= b,
        a < pow2(8 * n),
        b < pow2(8 * n),
        k <= n,
        key_bytes(a, n).take(k as int) == key_bytes(b, n).take(k as int),
    ensures
        key_bytes(x, n).take(k as int) == key_bytes(a, n).take(k as int),
{
    let m = (n - k) as nat;
    let d = pow2(8 * m);
    vstd::arithmetic::power2::lemma_pow2_pos(8 * m);
    lemma_key_head(a, n, k);
    lemma_key_head(x, n, k);
    lemma_key_head(b, n, k);
    vstd::arithmetic::power2::lemma_pow2_adds(8 * m, 8 * k);
    let (p, q, r) = (a as int / d as int, x as int / d as int, b as int / d as int);
    vstd::arithmetic::div_mod::lemma_div_is_ordered(a as int, x as int, d as int);
    vstd::arithmetic::div_mod::lemma_div_is_ordered(x as int, b as int, d as int);
    assert(8 * m + 8 * k == 8 * n);
    lemma_quotient_bound(a as int, d as int, pow2(8 * k) as int);
    lemma_quotient_bound(b as int, d as int, pow2(8 * k) as int);
    lemma_be_injective(p as nat, r as nat, k);
    assert(q == p);
}

proof fn lemma_quotient_bound(a: int, d: int, k: int)
    requires
        0 <= a < d * k,
        d > 0,
    ensures
        0 <= a / d < k,
{
    vstd::arithmetic::div_mod::lemma_fundamental_div_mod(a, d);
    vstd::arithmetic::div_mod::lemma_div_pos_is_pos(a, d);
    let q = a / d;
    let r = a % d;
    assert(q < k) by (nonlinear_arith)
        requires
            a == d * q + r,
            0 <= r,
            a < d * k,
            d > 0,
    ;
}

proof fn lemma_be_injective(p: nat, r: nat, k: nat)
    requires
        p < pow2(8 * k),
        r < pow2(8 * k),
        be_bytes(p, k) == be_bytes(r, k),
    ensures
        p == r,
{
    broadcast use lemma_le_bytes_len;
    crate::bytes::lemma_le_round_trip(p, k);
    crate::bytes::lemma_le_round_trip(r, k);
    assert(be_bytes(p, k).reverse() =~= crate::bytes::le_bytes(p, k));
    assert(be_bytes(r, k).reverse() =~= crate::bytes::le_bytes(r, k));
}

/// Values that fit their width.
pub open spec fn keys_fit(points: Seq<(u64, u32)>, n: nat) -> bool {
    forall|i: int| 0 <= i < points.len() ==> (#[trigger] points[i]).0 < pow2(8 * n)
}

/// All values of a leaf have the bytes that the first and the last share.
proof fn lemma_all_share(leaf: Seq<(u64, u32)>, n: nat, i: int)
    requires
        points_ascend(leaf),
        keys_fit(leaf, n),
        0 <= i < leaf.len(),
    ensures
        shared_len(leaf, n) <= n,
        value_of(leaf, n, i).len() == n,
        value_of(leaf, n, i).take(shared_len(leaf, n) as int) == value_of(leaf, n, 0).take(shared_len(leaf, n) as int),
{
    broadcast use lemma_be_bytes_len;
    let (a, b) = (value_of(leaf, n, 0), value_of(leaf, n, leaf.len() - 1));
    lemma_common_prefix(a, b);
    let k = shared_len(leaf, n);
    assert(a.take(k as int) =~= b.take(k as int));
    let last = leaf.len() - 1;
    if i > 0 {
        assert(point_leq(leaf[0], leaf[i]));
    }
    if i < last {
        assert(point_leq(leaf[i], leaf[last]));
    }
    assert(leaf[0].0 < pow2(8 * n) && leaf[last].0 < pow2(8 * n));
    lemma_between(leaf[0].0, leaf[i].0, leaf[last].0, n, k);
}

/// The values of a leaf.
pub open spec fn leaf_values(leaf: Seq<(u64, u32)>, n: nat) -> Seq<Seq<u8>> {
    Seq::new(leaf.len(), |i: int| value_of(leaf, n, i))
}

/// The points of a leaf as they are read.
pub open spec fn leaf_points(leaf: Seq<(u64, u32)>, n: nat) -> Seq<(Seq<u8>, u32)> {
    Seq::new(leaf.len(), |i: int| (value_of(leaf, n, i), leaf[i].1))
}

proof fn lemma_tails(leaf: Seq<(u64, u32)>, n: nat, c: int, i: int, e: int)
    requires
        0 <= c <= n,
        0 <= i <= e <= leaf.len(),
    ensures
        tails_bytes(leaf, n, c, i, e).len() == (n - c) * (e - i),
        forall|j: int| 0 <= j < e - i ==> tails_bytes(leaf, n, c, i, e).subrange((n - c) * j, (n - c) * j + (n - c)) == (#[trigger] value_of(leaf, n, i + j)).skip(c),
    decreases e - i,
{
    broadcast use lemma_be_bytes_len;
    let w = n - c;
    let s = tails_bytes(leaf, n, c, i, e);
    if i < e {
        lemma_tails(leaf, n, c, i, e - 1);
        let d = tails_bytes(leaf, n, c, i, e - 1);
        assert(w * (e - 1 - i) + w == w * (e - i)) by (nonlinear_arith);
        assert forall|j: int| 0 <= j < e - i implies s.subrange(w * j, w * j + w) == (#[trigger] value_of(leaf, n, i + j)).skip(c) by {
            assert(0 <= w * j) by (nonlinear_arith)
                requires
                    0 <= w,
                    0 <= j,
            ;
            if j < e - 1 - i {
                assert(w * j + w <= w * (e - 1 - i)) by (nonlinear_arith)
                    requires
                        0 <= w,
                        j + 1 <= e - 1 - i,
                ;
                assert(s.subrange(w * j, w * j + w) =~= d.subrange(w * j, w * j + w));
            } else {
                assert(s.subrange(w * j, w * j + w) =~= value_of(leaf, n, i + j).skip(c));
            }
        }
    } else {
        assert(w * 0 == 0) by (nonlinear_arith);
    }
}

/// The runs from point `i` on are read back.
proof fn lemma_runs_read(s: Seq<u8>, p: int, leaf: Seq<(u64, u32)>, n: nat, i: int)
    requires
        points_ascend(leaf),
        keys_fit(leaf, n),
        0 <= i <= leaf.len(),
        shared_len(leaf, n) < n,
        n <= 8,
        holds_at(s, p, runs_bytes(leaf, n, shared_len(leaf, n) as int, i)),
    ensures
        runs_at(s, p, n as int, value_of(leaf, n, 0).take(shared_len(leaf, n) as int), leaf.len() as int, leaf_values(leaf, n).take(i)) == Ok::<Seq<Seq<u8>>, ErrorKind>(
            leaf_values(leaf, n),
        ),
    decreases leaf.len() - i,
{
    broadcast use lemma_be_bytes_len;
    let c = shared_len(leaf, n) as int;
    let points = leaf_values(leaf, n);
    if i >= leaf.len() {
        assert(points.take(i) =~= points);
    } else {
        let e = run_end(leaf, n, c, i, i + 1);
        lemma_run_end(leaf, n, c, i, i + 1);
        let b = value_of(leaf, n, i)[c];
        let t = tails_bytes(leaf, n, c + 1, i, e);
        let rest = runs_bytes(leaf, n, c, e);
        let prefix = value_of(leaf, n, 0).take(c);
        let w = n - c - 1;
        lemma_holds_concat(s, p, seq![b] + seq![(e - i) as u8] + t, rest);
        lemma_holds_concat(s, p, seq![b] + seq![(e - i) as u8], t);
        lemma_holds_concat(s, p, seq![b], seq![(e - i) as u8]);
        lemma_holds_byte(s, p, b);
        lemma_holds_byte(s, p + 1, (e - i) as u8);
        lemma_tails(leaf, n, c + 1, i, e);
        lemma_all_share(leaf, n, 0);
        assert(prefix.len() == c);
        assert(w == rest_len(n as int, c));
        let more = run_values(prefix.push(b), t, w, n as int, e - i);
        assert forall|j: int| 0 <= j < e - i implies #[trigger] more[j] == points[i + j] by {
            let v = value_of(leaf, n, i + j);
            lemma_all_share(leaf, n, i + j);
            if j > 0 {
                assert(value_of(leaf, n, i + j)[c] == b);
            }
            assert(t.subrange(w * j, w * j + w) == v.skip(c + 1));
            assert((prefix.push(b) + v.skip(c + 1)).take(n as int) =~= v);
        }
        assert(points.take(i) + more =~= points.take(e));
        assert(w * (e - i) == t.len());
        lemma_runs_read(s, p + 2 + t.len(), leaf, n, e);
    }
}

/// A leaf that was written is read back.
pub proof fn law_leaf_round_trip(s: Seq<u8>, p: int, leaf: Seq<(u64, u32)>, n: nat)
    requires
        0 < leaf.len() < 0x1_0000_0000,
        0 < n <= 8,
        points_ascend(leaf),
        keys_fit(leaf, n),
        holds_at(s, p, leaf_bytes(leaf, n)),
    ensures
        leaf_at(s, p, n as int) == Ok::<(Seq<Seq<u8>>, Seq<u32>), ErrorKind>((leaf_values(leaf, n), point_docs(leaf))),
        points_of(leaf_values(leaf, n), point_docs(leaf)) == leaf_points(leaf, n),
        forall|lower: Option<Seq<u8>>, upper: Option<Seq<u8>>| #[trigger] leaf_docs(s, p, n as int, lower, upper) == Ok::<Seq<u32>, ErrorKind>(
            docs_in_range(leaf_points(leaf, n), lower, upper),
        ),
{
    broadcast use lemma_be_bytes_len;
    let docs = point_docs(leaf);
    let c = shared_len(leaf, n);
    lemma_all_share(leaf, n, 0);
    let prefix = value_of(leaf, n, 0).take(c as int);
    let (a, b, d) = (varint_bytes(leaf.len()), doc_ids_bytes(docs), varint_bytes(c));
    let values = values_bytes(leaf, n);
    lemma_holds_concat(s, p, a + b + d + prefix, values);
    lemma_holds_concat(s, p, a + b + d, prefix);
    lemma_holds_concat(s, p, a + b, d);
    lemma_holds_concat(s, p, a, b);
    crate::doc_ids::lemma_read_u32(s, p, leaf.len() as u32);
    let q = p + a.len();
    law_doc_ids_round_trip(s, q, docs);
    let e = q + b.len();
    crate::doc_ids::lemma_read_u32(s, e, c as u32);
    let f = e + d.len();
    assert(take_at(s, f, c as int) == Ok::<(Seq<u8>, int), ErrorKind>((prefix, f + c)));
    let g = f + c;
    if c == n {
        lemma_holds_byte(s, g, 255u8);
        let value = padded(prefix, n as int);
        let got = Seq::new(docs.len(), |i: int| value);
        assert forall|i: int| 0 <= i < leaf.len() implies got[i] == leaf_values(leaf, n)[i] by {
            lemma_all_share(leaf, n, i);
            assert(value_of(leaf, n, i).take(n as int) =~= value_of(leaf, n, i));
            assert(value =~= prefix);
        }
        assert(got =~= leaf_values(leaf, n));
    } else {
        lemma_holds_concat(s, g, seq![0u8], runs_bytes(leaf, n, c as int, 0));
        lemma_holds_byte(s, g, 0u8);
        lemma_runs_read(s, g + 1, leaf, n, 0);
        assert(leaf_values(leaf, n).take(0) =~= Seq::empty());
    }
    reveal(leaf_docs);
    assert(p <= s.len());
    assert(points_of(leaf_values(leaf, n), docs) =~= leaf_points(leaf, n));
    assert forall|lower: Option<Seq<u8>>, upper: Option<Seq<u8>>| #[trigger] leaf_docs(s, p, n as int, lower, upper) == Ok::<Seq<u32>, ErrorKind>(
        docs_in_range(leaf_points(leaf, n), lower, upper),
    ) by {
        assert(have_docs(leaf_values(leaf, n), docs.len() as int, lower, upper));
    }
}

} // verus!
