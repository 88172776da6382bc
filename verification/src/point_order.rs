//! The order of points: values as unsigned keys, keys as bytes, and the sort.

use crate::bytes::{be_bytes, be_vec, common_prefix, is_common_prefix, lemma_be_bytes_len, lemma_common_prefix, lemma_common_prefix_unique, lemma_le_bytes_len, lemma_pow2_8, lex_less};
use std::collections::HashSet;
use vstd::arithmetic::power2::{lemma2_to64, pow2};
use vstd::prelude::*;
use vstd::relations::*;

verus! {

/// The key of a long: the sign bit flipped, so that keys order as values do.
pub open spec fn long_key(v: i64) -> u64 {
    (v + 0x8000_0000_0000_0000) as u64
}

/// The key of an int.
pub open spec fn int_key(v: i32) -> u64 {
    (v + 0x8000_0000) as u64
}

/// The bytes of a key, most significant first.
pub open spec fn key_bytes(key: u64, n: nat) -> Seq<u8> {
    be_bytes(key as nat, n)
}

pub fn long_to_key(v: i64) -> (r: u64)
    ensures
        r == long_key(v),
{
    (v as i128 + 0x8000_0000_0000_0000) as u64
}

pub fn int_to_key(v: i32) -> (r: u64)
    ensures
        r == int_key(v),
        r < 0x1_0000_0000,
{
    (v as i64 + 0x8000_0000) as u64
}

/// The bytes of a long, in the order of which longs sort.
pub fn long_to_sortable_bytes(value: i64) -> (r: [u8; 8])
    ensures
        r@ == key_bytes(long_key(value), 8),
{
    broadcast use lemma_be_bytes_len;
    let b = be_vec(long_to_key(value), 8);
    let r: [u8; 8] = [b[0], b[1], b[2], b[3], b[4], b[5], b[6], b[7]];
    assert(r@ =~= b@);
    r
}

/// The bytes of an int, in the order of which ints sort, and four zeros.
pub fn int_to_sortable_bytes(value: i32) -> (r: [u8; 8])
    ensures
        r@ == key_bytes(int_key(value), 4) + seq![0u8, 0u8, 0u8, 0u8],
{
    broadcast use lemma_be_bytes_len;
    let b = be_vec(int_to_key(value), 4);
    let r: [u8; 8] = [b[0], b[1], b[2], b[3], 0, 0, 0, 0];
    assert(r@ =~= b@ + seq![0u8, 0u8, 0u8, 0u8]);
    r
}

/// One more byte decides where the others are equal.
proof fn lemma_lex_last(a: Seq<u8>, b: Seq<u8>, x: u8, y: u8)
    requires
        a.len() == b.len(),
    ensures
        lex_less(a.push(x), b.push(y)) <==> lex_less(a, b) || (a == b && x < y),
{
    lemma_common_prefix(a, b);
    let k = common_prefix(a, b) as int;
    if k < a.len() {
        assert(is_common_prefix(a.push(x), b.push(y), k));
        lemma_common_prefix_unique(a.push(x), b.push(y), k);
        assert(a != b);
    } else {
        assert(a =~= b);
        let j = if x == y { k + 1 } else { k };
        assert(is_common_prefix(a.push(x), b.push(y), j));
        lemma_common_prefix_unique(a.push(x), b.push(y), j);
    }
}

/// Keys order as their bytes do.
pub proof fn law_key_order(a: u64, b: u64, n: nat)
    requires
        a < pow2(8 * n),
        b < pow2(8 * n),
    ensures
        a < b <==> lex_less(key_bytes(a, n), key_bytes(b, n)),
        a == b <==> key_bytes(a, n) == key_bytes(b, n),
    decreases n,
{
    broadcast use lemma_be_bytes_len;
    lemma2_to64();
    if n == 0 {
        lemma_common_prefix(key_bytes(a, 0), key_bytes(b, 0));
        assert(key_bytes(a, 0) =~= key_bytes(b, 0));
    } else {
        let m = (n - 1) as nat;
        lemma_pow2_8(n);
        let (p, q) = ((a / 256) as u64, (b / 256) as u64);
        let (x, y) = ((a % 256) as u8, (b % 256) as u8);
        law_key_order(p, q, m);
        lemma_key_last(a, n);
        lemma_key_last(b, n);
        lemma_lex_last(key_bytes(p, m), key_bytes(q, m), x, y);
        if key_bytes(a, n) == key_bytes(b, n) {
            assert(key_bytes(a, n).drop_last() =~= key_bytes(p, m));
            assert(key_bytes(b, n).drop_last() =~= key_bytes(q, m));
            assert(key_bytes(a, n).last() == x);
            assert(key_bytes(b, n).last() == y);
        }
    }
}

/// The last byte of a key.
proof fn lemma_key_last(a: u64, n: nat)
    requires
        n > 0,
    ensures
        key_bytes(a, n) == key_bytes((a / 256) as u64, (n - 1) as nat).push((a % 256) as u8),
{
    broadcast use lemma_le_bytes_len;
    assert(key_bytes(a, n) =~= key_bytes((a / 256) as u64, (n - 1) as nat).push((a % 256) as u8));
}

/// Longs order as their bytes do, and so do ints.
pub proof fn law_sortable_order(a: i64, b: i64, x: i32, y: i32)
    ensures
        a < b <==> lex_less(key_bytes(long_key(a), 8), key_bytes(long_key(b), 8)),
        x < y <==> lex_less(key_bytes(int_key(x), 4), key_bytes(int_key(y), 4)),
{
    crate::bytes::lemma_pow2_widths();
    law_key_order(long_key(a), long_key(b), 8);
    law_key_order(int_key(x), int_key(y), 4);
}

// ---------------------------------------------------------------------------
// Sorting
// ---------------------------------------------------------------------------

/// By value, then by document.
pub open spec fn point_leq(a: (u64, u32), b: (u64, u32)) -> bool {
    a.0 < b.0 || (a.0 == b.0 && a.1 <= b.1)
}

pub open spec fn point_order() -> spec_fn((u64, u32), (u64, u32)) -> bool {
    |a: (u64, u32), b: (u64, u32)| point_leq(a, b)
}

/// The points in order.
pub open spec fn sorted_points(points: Seq<(u64, u32)>) -> Seq<(u64, u32)> {
    points.sort_by(point_order())
}

pub open spec fn points_ascend(points: Seq<(u64, u32)>) -> bool {
    forall|i: int, j: int| 0 <= i < j < points.len() ==> point_leq(#[trigger] points[i], #[trigger] points[j])
}

proof fn lemma_total_order()
    ensures
        total_ordering(point_order()),
{
}

/// The points in order ascend, and are the same points.
pub proof fn law_sorted_points(points: Seq<(u64, u32)>)
    ensures
        points_ascend(sorted_points(points)),
        sorted_points(points).to_multiset() == points.to_multiset(),
        sorted_points(points).len() == points.len(),
{
    broadcast use vstd::seq_lib::group_to_multiset_ensures;
    lemma_total_order();
    points.lemma_sort_by_ensures(point_order());
    let s = sorted_points(points);
    assert(s.to_multiset().len() == s.len());
    assert(points.to_multiset().len() == points.len());
    assert forall|i: int, j: int| 0 <= i < j < s.len() implies point_leq(#[trigger] s[i], #[trigger] s[j]) by {
        assert(point_order()(s[i], s[j]));
    }
}

fn merge(a: &Vec<(u64, u32)>, b: &Vec<(u64, u32)>) -> (r: Vec<(u64, u32)>)
    requires
        points_ascend(a@),
        points_ascend(b@),
    ensures
        points_ascend(r@),
        r@.to_multiset() == a@.to_multiset().add(b@.to_multiset()),
{
    broadcast use vstd::seq_lib::group_to_multiset_ensures;
    let mut out: Vec<(u64, u32)> = Vec::new();
    let mut i: usize = 0;
    let mut j: usize = 0;
    proof {
        assert(a@.take(0) =~= Seq::empty());
        assert(b@.take(0) =~= Seq::empty());
        assert(out@.to_multiset() =~= a@.take(0).to_multiset().add(b@.take(0).to_multiset()));
    }
    while i < a.len() || j < b.len()
        invariant
            i <= a@.len(),
            j <= b@.len(),
            points_ascend(a@),
            points_ascend(b@),
            points_ascend(out@),
            out@.to_multiset() == a@.take(i as int).to_multiset().add(b@.take(j as int).to_multiset()),
            forall|k: int, l: int| 0 <= k < out@.len() && i <= l < a@.len() ==> point_leq(#[trigger] out@[k], #[trigger] a@[l]),
            forall|k: int, l: int| 0 <= k < out@.len() && j <= l < b@.len() ==> point_leq(#[trigger] out@[k], #[trigger] b@[l]),
        decreases (a@.len() - i) + (b@.len() - j),
    {
        broadcast use vstd::seq_lib::group_to_multiset_ensures;
        let left: bool = if i >= a.len() {
            false
        } else if j >= b.len() {
            true
        } else {
            a[i].0 < b[j].0 || (a[i].0 == b[j].0 && a[i].1 <= b[j].1)
        };
        let ghost before = out@;
        if left {
            let x = a[i];
            out.push(x);
            proof {
                assert(a@.take(i + 1) =~= a@.take(i as int).push(x));
                assert(before.push(x).to_multiset() =~= a@.take(i + 1).to_multiset().add(b@.take(j as int).to_multiset()));
            }
            i = i + 1;
        } else {
            let x = b[j];
            out.push(x);
            proof {
                assert(b@.take(j + 1) =~= b@.take(j as int).push(x));
                assert(before.push(x).to_multiset() =~= a@.take(i as int).to_multiset().add(b@.take(j + 1).to_multiset()));
            }
            j = j + 1;
        }
    }
    assert(a@.take(i as int) =~= a@);
    assert(b@.take(j as int) =~= b@);
    out
}

fn merge_sort(points: &[(u64, u32)]) -> (r: Vec<(u64, u32)>)
    ensures
        points_ascend(r@),
        r@.to_multiset() == points@.to_multiset(),
    decreases points@.len(),
{
    let n: usize = points.len();
    if n <= 1 {
        let mut out: Vec<(u64, u32)> = Vec::new();
        if n == 1 {
            out.push(points[0]);
        }
        assert(out@ =~= points@);
        return out;
    }
    let half: usize = n / 2;
    let a = merge_sort(&points[0..half]);
    let b = merge_sort(&points[half..n]);
    let r = merge(&a, &b);
    proof {
        let (x, y) = (points@.subrange(0, half as int), points@.subrange(half as int, n as int));
        assert(x + y =~= points@);
        vstd::seq_lib::lemma_multiset_commutative(x, y);
    }
    r
}

/// Sorts points by value, then by document.
pub fn sort_points(points: &[(u64, u32)]) -> (r: Vec<(u64, u32)>)
    ensures
        r@ == sorted_points(points@),
{
    let r = merge_sort(points);
    proof {
        lemma_total_order();
        points@.lemma_sort_by_ensures(point_order());
        assert(sorted_by(r@, point_order())) by {
            assert forall|i: int, j: int| 0 <= i < j < r@.len() implies #[trigger] point_order()(r@[i], r@[j]) by {
                assert(point_leq(r@[i], r@[j]));
            }
        }
        vstd::seq_lib::lemma_sorted_unique(r@, sorted_points(points@), point_order());
    }
    r
}

/// The documents of the points.
pub open spec fn point_docs(points: Seq<(u64, u32)>) -> Seq<u32> {
    points.map_values(|p: (u64, u32)| p.1)
}

/// How many different documents there are.
pub fn count_docs(points: &Vec<(u64, u32)>) -> (r: usize)
    ensures
        r == point_docs(points@).to_set().len(),
{
    broadcast use vstd::std_specs::hash::group_hash_axioms;
    let mut seen: HashSet<u32> = HashSet::new();
    let mut i: usize = 0;
    proof {
        assert(point_docs(points@.take(0)).to_set() =~= Set::empty());
    }
    while i < points.len()
        invariant
            i <= points@.len(),
            seen@ == point_docs(points@.take(i as int)).to_set(),
        decreases points@.len() - i,
    {
        broadcast use vstd::std_specs::hash::group_hash_axioms;
        let doc: u32 = points[i].1;
        seen.insert(doc);
        proof {
            let a = point_docs(points@.take(i as int));
            let b = point_docs(points@.take(i + 1));
            assert(b =~= a.push(doc));
            assert forall|d: u32| b.to_set().contains(d) <==> a.to_set().insert(doc).contains(d) by {
                if a.contains(d) {
                    let k = a.index_of(d);
                    assert(b[k] == d);
                }
                if b.contains(d) {
                    let k = b.index_of(d);
                    if k < a.len() {
                        assert(a[k] == d);
                    }
                }
                assert(b[b.len() - 1] == doc);
            }
            assert(b.to_set() =~= a.to_set().insert(doc));
        }
        i = i + 1;
    }
    assert(points@.take(i as int) =~= points@);
    seen.len()
}

} // verus!
