//! The packed index of a tree of points: in pre-order, where the leaves
//! begin, and the values that split the nodes.

use crate::bits::{bit_len, lemma_bit_len};
use crate::bytes::{
    be_vec, bytes_difference, common_prefix, holds_at, law_vint_round_trip, law_vlong_round_trip, lemma_be_bytes_len, lemma_common_prefix, lemma_holds_concat, push_all, push_varint, take_at,
    vint_at, vint_of, vlong_at, vlong_of,
};
use crate::codec_util::corrupt;
use crate::error::{Error, ErrorKind};
use crate::io::{DataInput, SliceInput};
use crate::num::{spec_to_u32, spec_wrap_add, to_u32, wrap_add, wrap_sub};
use crate::point_order::{key_bytes, law_key_order};
use vstd::arithmetic::power2::{lemma2_to64, lemma_pow2_pos, lemma_pow2_unfold, pow2};
use vstd::prelude::*;

verus! {

/// The leaves of the last full level of a tree of `n`.
pub open spec fn full_level(n: int) -> int {
    pow2((bit_len(n as nat) - 1) as nat) as int
}

/// How many of `n` leaves are in the left subtree: the last level fills from
/// the left.
#[verifier::opaque]
pub open spec fn num_left(n: int) -> int {
    let half = full_level(n) / 2;
    let extra = n - full_level(n);
    half + if extra < half {
        extra
    } else {
        half
    }
}

pub proof fn lemma_num_left(n: int)
    requires
        n >= 2,
    ensures
        1 <= num_left(n) < n,
        full_level(n) <= n < 2 * full_level(n),
        full_level(n) >= 2,
        full_level(n) % 2 == 0,
{
    reveal(num_left);
    let b = bit_len(n as nat);
    lemma_bit_len(n as nat, b);
    lemma2_to64();
    lemma_bit_len(n as nat, 1);
    assert(b >= 2);
    lemma_bit_len(n as nat, (b - 1) as nat);
    lemma_pow2_unfold(b);
    lemma_pow2_unfold((b - 1) as nat);
    lemma_pow2_pos((b - 2) as nat);
}

/// How many of the leaves are in the left subtree.
pub fn get_num_left_leaf_nodes(num_leaves: usize) -> (r: usize)
    requires
        num_leaves >= 2,
    ensures
        r == num_left(num_leaves as int),
        1 <= r < num_leaves,
{
    proof {
        reveal(num_left);
        lemma_num_left(num_leaves as int);
    }
    let mut full: usize = 1;
    proof {
        lemma2_to64();
    }
    let ghost mut e: nat = 0;
    while full <= num_leaves / 2
        invariant
            full == pow2(e),
            1 <= full <= num_leaves,
        decreases num_leaves - full,
    {
        full = full * 2;
        proof {
            lemma_pow2_unfold(e + 1);
            e = e + 1;
        }
    }
    proof {
        lemma_pow2_unfold(e + 1);
        lemma_bit_len(num_leaves as nat, e);
        lemma_bit_len(num_leaves as nat, e + 1);
        assert(bit_len(num_leaves as nat) == e + 1);
    }
    let half: usize = full / 2;
    let extra: usize = num_leaves - full;
    if extra < half {
        half + extra
    } else {
        half + half
    }
}

/// How far a split value's first byte that differs is from the last split
/// value's; that the other way round in a left subtree.
pub open spec fn byte_step(split: Seq<u8>, last: Seq<u8>, negative: bool) -> int {
    let k = common_prefix(split, last) as int;
    if k < split.len() {
        if negative {
            last[k] - split[k]
        } else {
            split[k] - last[k]
        }
    } else {
        0
    }
}

/// What a split value has behind its first byte that differs.
pub open spec fn split_rest(split: Seq<u8>, last: Seq<u8>) -> Seq<u8> {
    let k = common_prefix(split, last) as int;
    if k < split.len() {
        split.skip(k + 1)
    } else {
        Seq::empty()
    }
}

/// A split value behind another.
pub open spec fn split_bytes(split: Seq<u8>, last: Seq<u8>, negative: bool) -> Seq<u8> {
    vint_of(byte_step(split, last, negative) * (1 + split.len()) + common_prefix(split, last)) + split_rest(split, last)
}

/// The subtree of the `k` leaves from `off` on. Its least place is `min_fp`,
/// which a left subtree takes over; the last split value is `last`. The split
/// values are those of `starts`, the first value of every leaf but the first.
pub open spec fn index_bytes(fps: Seq<u64>, starts: Seq<u64>, n: nat, min_fp: u64, last: Seq<u8>, left: bool, off: int, k: int) -> Seq<u8>
    decreases k,
{
    let fp = if left {
        min_fp
    } else {
        fps[off]
    };
    let head = if left {
        Seq::empty()
    } else {
        vlong_of(fp - min_fp)
    };
    let l = num_left(k);
    if k <= 1 || !(1 <= l < k) {
        head
    } else {
        let split = key_bytes(starts[off + l - 1], n);
        let a = index_bytes(fps, starts, n, fp, split, true, off, l);
        let b = index_bytes(fps, starts, n, fp, split, false, off + l, k - l);
        head + split_bytes(split, last, left) + (if l > 1 {
            vint_of(a.len() as int)
        } else {
            Seq::empty()
        }) + a + b
    }
}

/// Eight zeros and the root's split value's last split value.
pub open spec fn zeros(n: nat) -> Seq<u8> {
    Seq::new(n, |i: int| 0u8)
}

fn push_split(out: &mut Vec<u8>, split: &Vec<u8>, last: &Vec<u8>, negative: bool)
    requires
        split@.len() == last@.len(),
        split@.len() <= 8,
    ensures
        final(out)@ == old(out)@ + split_bytes(split@, last@, negative),
{
    let ghost base = out@;
    let n: usize = split.len();
    let k: usize = bytes_difference(split.as_slice(), last.as_slice());
    proof {
        lemma_common_prefix(split@, last@);
    }
    let mut step: i64 = 0;
    if k < n {
        step = if negative { last[k] as i64 - split[k] as i64 } else { split[k] as i64 - last[k] as i64 };
    }
    assert(-255 * 9 <= step * (1 + n) <= 255 * 9) by (nonlinear_arith)
        requires
            -255 <= step <= 255,
            0 <= n <= 8,
    ;
    let code: i64 = step * (1 + n as i64) + k as i64;
    let low: u64 = if code >= 0 { code as u64 } else { (code + 0x1_0000_0000) as u64 };
    assert(low == code as int % 0x1_0000_0000);
    push_varint(out, low);
    if k < n {
        push_all(out, &split.as_slice()[k + 1..n]);
        assert(split@.subrange(k + 1, n as int) =~= split_rest(split@, last@));
    }
    assert(out@ =~= base + split_bytes(split@, last@, negative));
}

/// Packs the subtree of the `k` leaves from `off` on.
fn pack_node(fps: &Vec<u64>, starts: &Vec<u64>, n: usize, min_fp: u64, last: &Vec<u8>, left: bool, off: usize, k: usize) -> (r: Vec<u8>)
    requires
        1 <= k,
        off + k <= fps@.len(),
        starts@.len() + 1 == fps@.len(),
        last@.len() == n <= 8,
    ensures
        r@ == index_bytes(fps@, starts@, n as nat, min_fp, last@, left, off as int, k as int),
    decreases k,
{
    broadcast use lemma_be_bytes_len;
    let _len: usize = fps.len();
    let mut out: Vec<u8> = Vec::new();
    let mut fp: u64 = min_fp;
    if !left {
        fp = fps[off];
        push_varint(&mut out, wrap_sub(fp, min_fp));
    }
    let ghost head = if left { Seq::empty() } else { vlong_of(fp - min_fp) };
    assert(out@ =~= head);
    if k == 1 {
        return out;
    }
    let l: usize = get_num_left_leaf_nodes(k);
    let split = be_vec(starts[off + l - 1], n);
    push_split(&mut out, &split, last, left);
    let a = pack_node(fps, starts, n, fp, &split, true, off, l);
    let ghost mid = out@;
    if l > 1 {
        push_varint(&mut out, a.len() as u64 % 0x1_0000_0000);
    }
    push_all(&mut out, a.as_slice());
    let b = pack_node(fps, starts, n, fp, &split, false, off + l, k - l);
    push_all(&mut out, b.as_slice());
    proof {
        let c = if l > 1 { vint_of(a@.len() as int) } else { Seq::empty() };
        assert(mid + Seq::<u8>::empty() =~= mid);
        assert(mid == head + split_bytes(split@, last@, left));
        assert(out@ == mid + c + a@ + b@);
    }
    out
}

/// Packs the index of a tree: where the leaves begin, and the first value of
/// every leaf but the first.
pub fn pack_index(fps: &Vec<u64>, starts: &Vec<u64>, n: usize) -> (r: Vec<u8>)
    requires
        fps@.len() >= 1,
        starts@.len() + 1 == fps@.len(),
        n <= 8,
    ensures
        r@ == index_bytes(fps@, starts@, n as nat, 0, zeros(n as nat), false, 0, fps@.len() as int),
{
    let mut last: Vec<u8> = Vec::new();
    while last.len() < n
        invariant
            last@.len() <= n,
            forall|i: int| 0 <= i < last@.len() ==> #[trigger] last@[i] == 0,
        decreases n - last@.len(),
    {
        last.push(0);
    }
    assert(last@ =~= zeros(n as nat));
    pack_node(fps, starts, n, 0, &last, false, 0, fps.len())
}

// ---------------------------------------------------------------------------
// Reading
// ---------------------------------------------------------------------------

/// The split value of a code and of the bytes behind it.
pub open spec fn split_from(code: int, rest: Seq<u8>, last: Seq<u8>, negative: bool) -> Seq<u8> {
    let n = last.len() as int;
    let k = code % (1 + n);
    let step = code / (1 + n);
    if k < n {
        last.take(k) + seq![((last[k] + if negative { -step } else { step }) % 256) as u8] + rest
    } else {
        last
    }
}

/// The split value at `p`, behind `last`. A code below zero is one of a step
/// down in the first byte.
pub open spec fn split_at(s: Seq<u8>, p: int, last: Seq<u8>, negative: bool) -> Result<(Seq<u8>, int), ErrorKind> {
    match vint_at(s, p) {
        Ok((code, q)) => if code < 0 && code as int % (1 + last.len() as int) != 0 {
            Err(ErrorKind::InvalidData)
        } else {
            let n = last.len() as int;
            let k = code as int % (1 + n);
            match take_at(s, q, if k < n { n - k - 1 } else { 0 }) {
                Ok((rest, z)) => Ok((split_from(code as int, rest, last, negative), z)),
                Err(e) => Err(e),
            }
        },
        Err(e) => Err(e),
    }
}

/// Where the left subtree ends, if it is said.
pub open spec fn left_length_at(s: Seq<u8>, p: int, l: int) -> Result<(Option<int>, int), ErrorKind> {
    if l > 1 {
        match vint_at(s, p) {
            Ok((v, q)) => Ok((Some(q + spec_to_u32(v)), q)),
            Err(e) => Err(e),
        }
    } else {
        Ok((Some(p), p))
    }
}

/// A subtree as it is read: where its leaves begin, the split values between
/// them, and where it ends.
pub type Subtree = (Seq<u64>, Seq<Seq<u8>>, int);

/// The subtree of `k` leaves at `p`. That the left subtree has the length
/// that is said for it is checked.
#[verifier::opaque]
pub open spec fn index_at(s: Seq<u8>, p: int, min_fp: u64, last: Seq<u8>, left: bool, k: int) -> Result<Subtree, ErrorKind>
    decreases k,
{
    match place_at(s, p, min_fp, left) {
        Ok((fp, q)) => {
            let l = num_left(k);
            if k <= 1 || !(1 <= l < k) {
                Ok((seq![fp], Seq::empty(), q))
            } else {
                match split_at(s, q, last, left) {
                    Ok((split, e)) => match left_length_at(s, e, l) {
                        Ok((end, f)) => match index_at(s, f, fp, split, true, l) {
                            Ok((lf, ls, g)) => if end != Some(g) {
                                Err(ErrorKind::InvalidData)
                            } else {
                                match index_at(s, g, fp, split, false, k - l) {
                                    Ok((rf, rs, z)) => Ok((lf + rf, ls + seq![split] + rs, z)),
                                    Err(x) => Err(x),
                                }
                            },
                            Err(x) => Err(x),
                        },
                        Err(x) => Err(x),
                    },
                    Err(x) => Err(x),
                }
            }
        },
        Err(x) => Err(x),
    }
}

/// The least place of the subtree at `p`.
pub open spec fn place_at(s: Seq<u8>, p: int, min_fp: u64, left: bool) -> Result<(u64, int), ErrorKind> {
    if left {
        Ok((min_fp, p))
    } else {
        match vlong_at(s, p) {
            Ok((v, q)) => Ok((spec_wrap_add(min_fp, v as u64), q)),
            Err(e) => Err(e),
        }
    }
}

pub(crate) fn read_place(input: &mut SliceInput, min_fp: u64, left: bool) -> (r: Result<u64, Error>)
    ensures
        final(input).bytes() == old(input).bytes(),
        match place_at(old(input).bytes(), old(input).pos(), min_fp, left) {
            Ok((fp, q)) => r is Ok && r->Ok_0 == fp && final(input).pos() == q,
            Err(k) => r is Err && r->Err_0.kind == k,
        },
{
    if left {
        return Ok(min_fp);
    }
    proof {
        crate::bytes::lemma_var_ends(input.bytes(), input.pos());
    }
    let v: i64 = input.read_vlong()?;
    Ok(wrap_add(min_fp, v as u64))
}

/// A code below zero is told by the size of it.
proof fn lemma_split_code(c: int, d: int)
    requires
        d > 0,
    ensures
        c < 0 ==> (c % d == 0 <==> (-c) % d == 0),
        c < 0 && c % d == 0 ==> c / d == -((-c) / d),
{
    if c < 0 {
        vstd::arithmetic::div_mod::lemma_fundamental_div_mod(c, d);
        vstd::arithmetic::div_mod::lemma_fundamental_div_mod(-c, d);
        let (q, u) = (c / d, (-c) / d);
        if c % d == 0 {
            assert(-c == d * (-q)) by (nonlinear_arith)
                requires
                    c == d * q,
            ;
            vstd::arithmetic::div_mod::lemma_fundamental_div_mod_converse(-c, d, -q, 0);
        }
        if (-c) % d == 0 {
            assert(c == d * (-u)) by (nonlinear_arith)
                requires
                    -c == d * u,
            ;
            vstd::arithmetic::div_mod::lemma_fundamental_div_mod_converse(c, d, -u, 0);
        }
    }
}

pub(crate) fn read_split(input: &mut SliceInput, last: &Vec<u8>, negative: bool) -> (r: Result<Vec<u8>, Error>)
    requires
        last@.len() <= 8,
    ensures
        final(input).bytes() == old(input).bytes(),
        match split_at(old(input).bytes(), old(input).pos(), last@, negative) {
            Ok((split, q)) => r is Ok && r->Ok_0@ == split && split.len() == last@.len() && final(input).pos() == q,
            Err(k) => r is Err && r->Err_0.kind == k,
        },
{
    let n: usize = last.len();
    let code: i32 = input.read_vint()?;
    let div: i64 = 1 + n as i64;
    let size: i64 = if code < 0 { -(code as i64) } else { code as i64 };
    let k: usize = (size % div) as usize;
    let ghost c = code as int;
    proof {
        lemma_split_code(c, div as int);
    }
    if code < 0 && k != 0 {
        return Err(corrupt("negative code of a split value"));
    }
    let step: i64 = if code < 0 { -(size / div) } else { size / div };
    let mut split: Vec<u8> = Vec::new();
    if k < n {
        let rest = input.read_vec((n - k - 1) as u64)?;
        push_all(&mut split, &last.as_slice()[0..k]);
        let sum: i64 = last[k] as i64 + if negative { -step } else { step };
        let byte: i64 = if sum >= 0 { sum % 256 } else { (256 - (-sum) % 256) % 256 };
        proof {
            assert(byte == sum as int % 256) by (nonlinear_arith)
                requires
                    sum >= 0 ==> byte == sum % 256,
                    sum < 0 ==> byte == (256 - (-sum) % 256) % 256,
            ;
        }
        split.push(byte as u8);
        push_all(&mut split, rest.as_slice());
        assert(split@ =~= split_from(code as int, rest@, last@, negative));
    } else {
        let rest = input.read_vec(0)?;
        push_all(&mut split, last.as_slice());
        assert(split@ =~= last@);
    }
    Ok(split)
}

/// Reads the length of a left subtree of `l` leaves, if it is said.
pub(crate) fn read_left_length(input: &mut SliceInput, l: usize) -> (r: Result<u64, Error>)
    ensures
        final(input).bytes() == old(input).bytes(),
        match left_length_at(old(input).bytes(), old(input).pos(), l as int) {
            Ok((end, q)) => r is Ok && end == Some(q + r->Ok_0) && final(input).pos() == q,
            Err(k) => r is Err && r->Err_0.kind == k,
        },
{
    if l > 1 {
        let v: i32 = input.read_vint()?;
        Ok(to_u32(v) as u64)
    } else {
        Ok(0)
    }
}

/// Reads the subtree of `k` leaves.
fn read_node(input: &mut SliceInput, min_fp: u64, last: &Vec<u8>, left: bool, k: usize, fps: &mut Vec<u64>, splits: &mut Vec<Vec<u8>>) -> (r: Result<(), Error>)
    requires
        1 <= k,
        last@.len() <= 8,
    ensures
        final(input).bytes() == old(input).bytes(),
        match index_at(old(input).bytes(), old(input).pos(), min_fp, last@, left, k as int) {
            Ok((f, sp, z)) => r is Ok && final(fps)@ == old(fps)@ + f && splits_view(final(splits)@) == splits_view(old(splits)@) + sp && final(input).pos() == z,
            Err(e) => r is Err && r->Err_0.kind == e,
        },
    decreases k,
{
    proof {
        reveal_with_fuel(index_at, 1);
    }
    let ghost s = input.bytes();
    let ghost p = input.pos();
    let ghost (f0, s0) = (fps@, splits_view(splits@));
    let fp: u64 = read_place(input, min_fp, left)?;
    if k == 1 {
        fps.push(fp);
        assert(fps@ =~= f0 + seq![fp]);
        assert(s0 + Seq::<Seq<u8>>::empty() =~= s0);
        return Ok(());
    }
    let l: usize = get_num_left_leaf_nodes(k);
    let split = read_split(input, last, left)?;
    let said: u64 = read_left_length(input, l)?;
    let from: usize = input.position();
    read_node(input, fp, &split, true, l, fps, splits)?;
    let to: usize = input.position();
    if to < from || (to - from) as u64 != said {
        return Err(corrupt("left subtree has another length"));
    }
    let copy = vstd::slice::slice_to_vec(split.as_slice());
    let ghost (f1, s1) = (fps@, splits_view(splits@));
    splits.push(copy);
    assert(copy@ =~= split@);
    assert(splits_view(splits@) =~= s1.push(split@));
    read_node(input, fp, &split, false, k - l, fps, splits)?;
    proof {
        let all = index_at(s, p, min_fp, last@, left, k as int)->Ok_0;
        assert(fps@ =~= f0 + all.0);
        assert(splits_view(splits@) =~= s0 + all.1);
    }
    Ok(())
}

/// The view of split values.
pub open spec fn splits_view(splits: Seq<Vec<u8>>) -> Seq<Seq<u8>> {
    splits.map_values(|v: Vec<u8>| v@)
}

/// The whole index of a tree of `k` leaves whose values have `n` bytes:
/// nothing may be left.
pub open spec fn whole_index(s: Seq<u8>, n: nat, k: int) -> Result<(Seq<u64>, Seq<Seq<u8>>), ErrorKind> {
    match index_at(s, 0, 0, zeros(n), false, k) {
        Ok((fps, splits, z)) => if z == s.len() {
            Ok((fps, splits))
        } else {
            Err(ErrorKind::InvalidData)
        },
        Err(e) => Err(e),
    }
}

/// Reads the whole index of a tree.
pub fn read_index(packed: &[u8], n: usize, k: usize) -> (r: Result<(Vec<u64>, Vec<Vec<u8>>), Error>)
    requires
        1 <= k,
        n <= 8,
    ensures
        match whole_index(packed@, n as nat, k as int) {
            Ok((fps, splits)) => r is Ok && r->Ok_0.0@ == fps && splits_view(r->Ok_0.1@) == splits,
            Err(e) => r is Err && r->Err_0.kind == e,
        },
{
    let mut last: Vec<u8> = Vec::new();
    while last.len() < n
        invariant
            last@.len() <= n,
            forall|i: int| 0 <= i < last@.len() ==> #[trigger] last@[i] == 0,
        decreases n - last@.len(),
    {
        last.push(0);
    }
    assert(last@ =~= zeros(n as nat));
    let mut input = SliceInput::new(packed);
    let mut fps: Vec<u64> = Vec::new();
    let mut splits: Vec<Vec<u8>> = Vec::new();
    read_node(&mut input, 0, &last, false, k, &mut fps, &mut splits)?;
    proof {
        let all = index_at(packed@, 0, 0, zeros(n as nat), false, k as int)->Ok_0;
        assert(fps@ =~= all.0);
        assert(splits_view(splits@) =~= all.1);
    }
    if input.position() != packed.len() {
        return Err(corrupt("packed index has trailing bytes"));
    }
    Ok((fps, splits))
}

// ---------------------------------------------------------------------------
// Reading what was written
// ---------------------------------------------------------------------------

/// A split value that lies on the right side of the last one is read back.
pub(crate) proof fn lemma_split_read(s: Seq<u8>, p: int, split: u64, last: u64, n: nat, negative: bool)
    requires
        0 < n <= 8,
        split < pow2(8 * n),
        last < pow2(8 * n),
        negative ==> split <= last,
        !negative ==> last <= split,
        holds_at(s, p, split_bytes(key_bytes(split, n), key_bytes(last, n), negative)),
    ensures
        split_at(s, p, key_bytes(last, n), negative) == Ok::<(Seq<u8>, int), ErrorKind>(
            (key_bytes(split, n), p + split_bytes(key_bytes(split, n), key_bytes(last, n), negative).len()),
        ),
{
    broadcast use lemma_be_bytes_len;
    let (a, b) = (key_bytes(split, n), key_bytes(last, n));
    lemma_common_prefix(a, b);
    lemma_common_prefix(b, a);
    crate::bytes::lemma_common_prefix_unique(b, a, common_prefix(a, b) as int);
    let k = common_prefix(a, b) as int;
    let step = byte_step(a, b, negative);
    law_key_order(split, last, n);
    law_key_order(last, split, n);
    assert(0 <= step <= 255) by {
        if k < n {
            assert(a[k] != b[k]);
            assert(split != last);
        }
    }
    let d = 1 + n as int;
    let code = step * d + k;
    assert(0 <= step * d <= 255 * 9) by (nonlinear_arith)
        requires
            0 <= step <= 255,
            0 <= d <= 9,
    ;
    assert(code == d * step + k) by (nonlinear_arith)
        requires
            code == step * d + k,
    ;
    crate::num::lemma_div_mod_is(code, d, step, k);
    let v = vint_of(code);
    let rest = split_rest(a, b);
    lemma_holds_concat(s, p, v, rest);
    law_vint_round_trip(s, p, code as i32);
    assert(rest.len() == if k < n { n - k - 1 } else { 0 });
    if k < n {
        assert((b[k] + if negative { -step } else { step }) == a[k]);
        assert(split_from(code, rest, b, negative) =~= a) by {
            assert(b.take(k) =~= a.take(k));
        }
    } else {
        assert(a =~= b);
    }
}

/// Where leaves begin ascends, and so do the split values, which lie on the
/// right side of the last one.
#[verifier::opaque]
pub open spec fn subtree_ok(fps: Seq<u64>, starts: Seq<u64>, n: nat, min_fp: u64, last: u64, left: bool, off: int, k: int) -> bool {
    &&& 1 <= k
    &&& 0 <= off
    &&& off + k <= fps.len()
    &&& starts.len() + 1 == fps.len()
    &&& last < pow2(8 * n)
    &&& min_fp <= fps[off] <= i64::MAX
    &&& left ==> min_fp == fps[off]
    &&& forall|i: int, j: int| off <= i <= j < off + k ==> #[trigger] fps[i] <= #[trigger] fps[j] && fps[j] <= i64::MAX
    &&& forall|i: int| off <= i < off + k - 1 ==> #[trigger] starts[i] < pow2(8 * n)
    &&& forall|i: int, j: int| off <= i <= j < off + k - 1 ==> #[trigger] starts[i] <= #[trigger] starts[j]
    &&& forall|i: int| off <= i < off + k - 1 ==> if left {
        #[trigger] starts[i] <= last
    } else {
        starts[i] >= last
    }
}

pub(crate) proof fn lemma_subtrees_ok(fps: Seq<u64>, starts: Seq<u64>, n: nat, min_fp: u64, last: u64, left: bool, off: int, k: int, l: int)
    requires
        subtree_ok(fps, starts, n, min_fp, last, left, off, k),
        1 <= l < k,
    ensures
        subtree_ok(fps, starts, n, if left { min_fp } else { fps[off] }, starts[off + l - 1], true, off, l),
        subtree_ok(fps, starts, n, if left { min_fp } else { fps[off] }, starts[off + l - 1], false, off + l, k - l),
        if left {
            starts[off + l - 1] <= last
        } else {
            starts[off + l - 1] >= last
        },
        starts[off + l - 1] < pow2(8 * n),
{
    reveal(subtree_ok);
    assert(fps[off] <= fps[off + l]);
    let m = off + l - 1;
    assert forall|i: int| off <= i < off + l - 1 implies #[trigger] starts[i] <= starts[m] by {
    }
    assert forall|i: int| off + l <= i < off + k - 1 implies #[trigger] starts[i] >= starts[m] by {
        assert(starts[m] <= starts[i]);
    }
}

pub(crate) proof fn lemma_subtree_facts(fps: Seq<u64>, starts: Seq<u64>, n: nat, min_fp: u64, last: u64, left: bool, off: int, k: int)
    requires
        subtree_ok(fps, starts, n, min_fp, last, left, off, k),
    ensures
        1 <= k,
        0 <= off,
        off + k <= fps.len(),
        starts.len() + 1 == fps.len(),
        last < pow2(8 * n),
        min_fp <= fps[off] <= i64::MAX,
        left ==> min_fp == fps[off],
{
    reveal(subtree_ok);
}

/// A node from its parts.
proof fn lemma_node_joined(s: Seq<u8>, p: int, min_fp: u64, last: Seq<u8>, left: bool, k: int, fp: u64, q: int, split: Seq<u8>, e: int, f: int, a: Subtree, b: Subtree)
    requires
        1 <= num_left(k) < k,
        place_at(s, p, min_fp, left) == Ok::<(u64, int), ErrorKind>((fp, q)),
        split_at(s, q, last, left) == Ok::<(Seq<u8>, int), ErrorKind>((split, e)),
        left_length_at(s, e, num_left(k)) == Ok::<(Option<int>, int), ErrorKind>((Some(a.2), f)),
        index_at(s, f, fp, split, true, num_left(k)) == Ok::<Subtree, ErrorKind>(a),
        index_at(s, a.2, fp, split, false, k - num_left(k)) == Ok::<Subtree, ErrorKind>(b),
    ensures
        index_at(s, p, min_fp, last, left, k) == Ok::<Subtree, ErrorKind>((a.0 + b.0, a.1 + seq![split] + b.1, b.2)),
{
    reveal_with_fuel(index_at, 1);
}

/// A leaf is where its place says.
proof fn lemma_leaf_read(s: Seq<u8>, p: int, min_fp: u64, last: Seq<u8>, left: bool, fp: u64, q: int)
    requires
        place_at(s, p, min_fp, left) == Ok::<(u64, int), ErrorKind>((fp, q)),
    ensures
        index_at(s, p, min_fp, last, left, 1) == Ok::<Subtree, ErrorKind>((seq![fp], Seq::empty(), q)),
{
    reveal_with_fuel(index_at, 1);
}

/// The split values of a subtree.
pub open spec fn splits_of(starts: Seq<u64>, n: nat, off: int, k: int) -> Seq<Seq<u8>> {
    Seq::new((k - 1) as nat, |i: int| key_bytes(starts[off + i], n))
}

/// A subtree that was packed is read back.
pub proof fn lemma_index_read(s: Seq<u8>, p: int, fps: Seq<u64>, starts: Seq<u64>, n: nat, min_fp: u64, last: u64, left: bool, off: int, k: int)
    requires
        0 < n <= 8,
        subtree_ok(fps, starts, n, min_fp, last, left, off, k),
        holds_at(s, p, index_bytes(fps, starts, n, min_fp, key_bytes(last, n), left, off, k)),
        s.len() < 0x8000_0000,
    ensures
        index_at(s, p, min_fp, key_bytes(last, n), left, k) == Ok::<Subtree, ErrorKind>(
            (fps.subrange(off, off + k), splits_of(starts, n, off, k), p + index_bytes(fps, starts, n, min_fp, key_bytes(last, n), left, off, k).len()),
        ),
    decreases k,
{
    broadcast use lemma_be_bytes_len;
    let b = key_bytes(last, n);
    let fp = if left {
        min_fp
    } else {
        fps[off]
    };
    let head = if left {
        Seq::empty()
    } else {
        vlong_of(fp - min_fp)
    };
    lemma_subtree_facts(fps, starts, n, min_fp, last, left, off, k);
    if k == 1 {
        lemma_place_read(s, p, min_fp, fp, left);
        lemma_leaf_read(s, p, min_fp, b, left, fp, p + head.len());
        assert(fps.subrange(off, off + 1) =~= seq![fp]);
        assert(splits_of(starts, n, off, 1) =~= Seq::empty());
    } else {
        lemma_num_left(k);
        let l = num_left(k);
        let m = starts[off + l - 1];
        let split = key_bytes(m, n);
        lemma_subtrees_ok(fps, starts, n, min_fp, last, left, off, k, l);
        let x = split_bytes(split, b, left);
        let a = index_bytes(fps, starts, n, fp, split, true, off, l);
        let c = index_bytes(fps, starts, n, fp, split, false, off + l, k - l);
        let y = if l > 1 {
            vint_of(a.len() as int)
        } else {
            Seq::empty()
        };
        assert(index_bytes(fps, starts, n, min_fp, b, left, off, k) == head + x + y + a + c);
        lemma_node_holds(s, p, head, x, y, a, c);
        lemma_place_read(s, p, min_fp, fp, left);
        let q = p + head.len();
        lemma_split_read(s, q, m, last, n, left);
        let e = q + x.len();
        lemma_left_length(s, e, l, a);
        if l == 1 {
            lemma_left_leaf(fps, starts, n, fp, split, off);
        }
        let f = e + y.len();
        lemma_index_read(s, f, fps, starts, n, fp, m, true, off, l);
        lemma_index_read(s, f + a.len(), fps, starts, n, fp, m, false, off + l, k - l);
        let ta = (fps.subrange(off, off + l), splits_of(starts, n, off, l), f + a.len());
        let tc = (fps.subrange(off + l, off + l + (k - l)), splits_of(starts, n, off + l, k - l), f + a.len() + c.len());
        lemma_node_joined(s, p, min_fp, b, left, k, fp, q, split, e, f, ta, tc);
        assert(ta.0 + tc.0 =~= fps.subrange(off, off + k));
        assert(ta.1 + seq![split] + tc.1 =~= splits_of(starts, n, off, k));
    }
}

pub(crate) proof fn lemma_node_holds(s: Seq<u8>, p: int, head: Seq<u8>, x: Seq<u8>, y: Seq<u8>, a: Seq<u8>, c: Seq<u8>)
    requires
        holds_at(s, p, head + x + y + a + c),
    ensures
        holds_at(s, p, head),
        holds_at(s, p + head.len(), x),
        holds_at(s, p + head.len() + x.len(), y),
        holds_at(s, p + head.len() + x.len() + y.len(), a),
        holds_at(s, p + head.len() + x.len() + y.len() + a.len(), c),
        (head + x + y + a + c).len() == head.len() + x.len() + y.len() + a.len() + c.len(),
{
    lemma_holds_concat(s, p, head + x + y + a, c);
    lemma_holds_concat(s, p, head + x + y, a);
    lemma_holds_concat(s, p, head + x, y);
    lemma_holds_concat(s, p, head, x);
}

/// The length of a left subtree is read back.
pub(crate) proof fn lemma_left_length(s: Seq<u8>, e: int, l: int, a: Seq<u8>)
    requires
        a.len() < 0x8000_0000,
        l > 1 ==> holds_at(s, e, vint_of(a.len() as int)),
    ensures
        l > 1 ==> left_length_at(s, e, l) == Ok::<(Option<int>, int), ErrorKind>((Some(e + vint_of(a.len() as int).len() + a.len()), e + vint_of(a.len() as int).len())),
        l <= 1 ==> left_length_at(s, e, l) == Ok::<(Option<int>, int), ErrorKind>((Some(e), e)),
{
    if l > 1 {
        law_vint_round_trip(s, e, a.len() as i32);
    }
}

/// A left leaf takes no bytes.
pub(crate) proof fn lemma_left_leaf(fps: Seq<u64>, starts: Seq<u64>, n: nat, fp: u64, split: Seq<u8>, off: int)
    ensures
        index_bytes(fps, starts, n, fp, split, true, off, 1) == Seq::<u8>::empty(),
{
}

pub(crate) proof fn lemma_place_read(s: Seq<u8>, p: int, min_fp: u64, fp: u64, left: bool)
    requires
        left ==> fp == min_fp,
        min_fp <= fp <= i64::MAX,
        !left ==> holds_at(s, p, vlong_of(fp - min_fp)),
    ensures
        place_at(s, p, min_fp, left) == Ok::<(u64, int), ErrorKind>((fp, p + if left { 0int } else { vlong_of(fp - min_fp).len() as int })),
{
    if !left {
        law_vlong_round_trip(s, p, (fp - min_fp) as i64);
    }
}

/// An index that was packed is read back.
pub proof fn law_index_round_trip(fps: Seq<u64>, starts: Seq<u64>, n: nat)
    requires
        0 < n <= 8,
        subtree_ok(fps, starts, n, 0, 0, false, 0, fps.len() as int),
        index_bytes(fps, starts, n, 0, zeros(n), false, 0, fps.len() as int).len() < 0x8000_0000,
    ensures
        whole_index(index_bytes(fps, starts, n, 0, zeros(n), false, 0, fps.len() as int), n, fps.len() as int) == Ok::<(Seq<u64>, Seq<Seq<u8>>), ErrorKind>(
            (fps, splits_of(starts, n, 0, fps.len() as int)),
        ),
{
    let s = index_bytes(fps, starts, n, 0, zeros(n), false, 0, fps.len() as int);
    lemma_zero_key(n);
    assert(s.subrange(0, s.len() as int) =~= s);
    lemma_index_read(s, 0, fps, starts, n, 0, 0, false, 0, fps.len() as int);
    assert(fps.subrange(0, fps.len() as int) =~= fps);
}

/// The bytes of the key 0.
pub(crate) proof fn lemma_zero_key(n: nat)
    ensures
        key_bytes(0, n) == zeros(n),
{
    lemma_zero_bytes(n);
    assert(key_bytes(0, n) =~= zeros(n));
}

proof fn lemma_zero_bytes(n: nat)
    ensures
        crate::bytes::le_bytes(0, n) == zeros(n),
    decreases n,
{
    if n > 0 {
        lemma_zero_bytes((n - 1) as nat);
    }
    assert(crate::bytes::le_bytes(0, n) =~= zeros(n));
}

} // verus!
