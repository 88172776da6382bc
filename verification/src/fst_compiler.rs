//! Builds finite state transducers from sorted inputs.
//!
//! Nodes along the last input added are kept unwritten; a node is written once
//! no later input can reach it. Outputs sit as near to the root as they can.

use crate::bytes::{
    bytes_difference, common_prefix, holds_at, lemma_common_prefix, lemma_concat_assoc, lemma_holds_concat, lemma_holds_index, lemma_lex_order, lemma_varint_scan, lex_less, push_all, push_varint, varint_bytes, copy_range,
};
use crate::codec_util::{header_bytes, law_header_round_trip, write_header};
use crate::error::{Error, ErrorKind};
use crate::fst::{
    arc_at, arcs_at, downwards, find_arc_from, flag, fst_output, node_at, node_output, number_at, optional_at, prefixed, resolved, ArcView, NodeView, BIT_ARC_HAS_FINAL_OUTPUT, BIT_ARC_HAS_OUTPUT,
    BIT_FINAL_ARC, BIT_LAST_ARC, BIT_STOP_NODE, BIT_TARGET_NEXT, FILE_FORMAT_NAME, VERSION_CURRENT,
};
use crate::fst::{empty_output_at, metadata_at};
use crate::io::{ChecksumIndexOutput, DataOutput};
use crate::num::to_i64;
use vstd::arithmetic::power2::{lemma2_to64, lemma2_to64_rest, lemma_pow2_strictly_increases};
use vstd::prelude::*;
use vstd::slice::slice_to_vec;

verus! {

// ---------------------------------------------------------------------------
// The written form of a node
// ---------------------------------------------------------------------------

/// An output behind its length; an empty one is not written.
pub open spec fn output_bytes(o: Seq<u8>) -> Seq<u8> {
    if o.len() == 0 {
        Seq::empty()
    } else {
        varint_bytes(o.len()) + o
    }
}

pub open spec fn bit(b: bool, value: int) -> int {
    if b {
        value
    } else {
        0
    }
}

/// The flags of an arc, the node right below being at `prev`.
pub open spec fn arc_flags(a: ArcView, last: bool, prev: int) -> u8 {
    (bit(a.is_final, 1) + bit(last, 2) + bit(a.target == prev, 4) + bit(a.target <= 0, 8) + bit(a.output.len() > 0, 16) + bit(a.is_final && a.final_output.len() > 0, 32)) as u8
}

/// An arc, front to back.
pub open spec fn arc_bytes(a: ArcView, last: bool, prev: int) -> Seq<u8> {
    seq![arc_flags(a, last, prev), a.label] + output_bytes(a.output) + output_bytes(a.final_output) + if a.target > 0 && a.target != prev {
        varint_bytes(a.target as nat)
    } else {
        Seq::empty()
    }
}

/// The first `k` arcs of a node, front to back.
pub open spec fn arcs_bytes(arcs: Seq<ArcView>, prev: int, k: int) -> Seq<u8>
    decreases k,
{
    if k <= 0 {
        Seq::empty()
    } else {
        arcs_bytes(arcs, prev, k - 1) + arc_bytes(arcs[k - 1], k == arcs.len(), prev)
    }
}

/// An arc that can be written: its target is, and only where an input may end
/// is there a final output.
spec fn writable(a: ArcView, prev: int) -> bool {
    &&& (a.target == -1 && a.is_final) || 0 < a.target <= prev
    &&& a.final_output.len() > 0 ==> a.is_final
    &&& a.output.len() <= u64::MAX
    &&& a.final_output.len() <= u64::MAX
}

proof fn lemma_number(rev: Seq<u8>, p: int, v: nat)
    requires
        holds_at(rev, p, varint_bytes(v)),
        v <= u64::MAX,
    ensures
        number_at(rev, p) == Ok::<(u64, int), ErrorKind>((v as u64, p + varint_bytes(v).len())),
{
    lemma2_to64_rest();
    lemma_pow2_strictly_increases(64, 70);
    lemma_varint_scan(rev, p, v, 10, 1, 0);
}

proof fn lemma_output(rev: Seq<u8>, p: int, o: Seq<u8>)
    requires
        holds_at(rev, p, output_bytes(o)),
        o.len() <= u64::MAX,
    ensures
        optional_at(rev, p, o.len() > 0) == Ok::<(Seq<u8>, int), ErrorKind>((o, p + output_bytes(o).len())),
{
    if o.len() > 0 {
        lemma_holds_concat(rev, p, varint_bytes(o.len()), o);
        lemma_number(rev, p, o.len());
    } else {
        assert(o =~= Seq::<u8>::empty());
    }
}

proof fn lemma_flags(a: ArcView, last: bool, prev: int)
    ensures
        flag(arc_flags(a, last, prev), BIT_FINAL_ARC) == a.is_final,
        flag(arc_flags(a, last, prev), BIT_LAST_ARC) == last,
        flag(arc_flags(a, last, prev), BIT_TARGET_NEXT) == (a.target == prev),
        flag(arc_flags(a, last, prev), BIT_STOP_NODE) == (a.target <= 0),
        flag(arc_flags(a, last, prev), BIT_ARC_HAS_OUTPUT) == (a.output.len() > 0),
        flag(arc_flags(a, last, prev), BIT_ARC_HAS_FINAL_OUTPUT) == (a.is_final && a.final_output.len() > 0),
{
    let (x, y, z, u, v, w) = (bit(a.is_final, 1), bit(last, 2), bit(a.target == prev, 4), bit(a.target <= 0, 8), bit(a.output.len() > 0, 16), bit(a.is_final && a.final_output.len() > 0, 32));
    let f = x + y + z + u + v + w;
    assert(f / 1 % 2 == x % 2);
    assert(f / 2 % 2 == (y / 2) % 2);
    assert(f / 4 % 2 == (z / 4) % 2);
    assert(f / 8 % 2 == (u / 8) % 2);
    assert(f / 16 % 2 == (v / 16) % 2);
    assert(f / 32 % 2 == (w / 32) % 2);
}

/// The arc as the reader first sees it: "right below" is not put in yet.
spec fn unresolved(a: ArcView, prev: int) -> ArcView {
    if a.target > 0 && a.target == prev {
        ArcView { target: i64::MIN as int, ..a }
    } else {
        a
    }
}

proof fn lemma_arc_round_trip(rev: Seq<u8>, p: int, a: ArcView, last: bool, prev: int)
    requires
        holds_at(rev, p, arc_bytes(a, last, prev)),
        writable(a, prev),
        0 <= prev <= i64::MAX,
    ensures
        arc_at(rev, p) == Ok::<(ArcView, int), ErrorKind>((unresolved(a, prev), p + arc_bytes(a, last, prev).len())),
        flag(rev[p], BIT_LAST_ARC) == last,
{
    let head = seq![arc_flags(a, last, prev), a.label];
    let (o, f) = (output_bytes(a.output), output_bytes(a.final_output));
    let t = if a.target > 0 && a.target != prev { varint_bytes(a.target as nat) } else { Seq::empty() };
    lemma_holds_concat(rev, p, head + o + f, t);
    lemma_holds_concat(rev, p, head + o, f);
    lemma_holds_concat(rev, p, head, o);
    lemma_holds_index(rev, p, head, 0);
    lemma_holds_index(rev, p, head, 1);
    lemma_flags(a, last, prev);
    lemma_output(rev, p + 2, a.output);
    lemma_output(rev, p + 2 + o.len(), a.final_output);
    let e = p + 2 + o.len() + f.len();
    if a.target > 0 && a.target != prev {
        lemma_number(rev, e, a.target as nat);
    }
}

proof fn lemma_arcs_round_trip(rev: Seq<u8>, arcs: Seq<ArcView>, prev: int, k: int)
    requires
        0 <= k < arcs.len(),
        holds_at(rev, 0, arcs_bytes(arcs, prev, arcs.len() as int)),
        forall|i: int| 0 <= i < arcs.len() ==> writable(#[trigger] arcs[i], prev),
        0 <= prev <= i64::MAX,
    ensures
        holds_at(rev, 0, arcs_bytes(arcs, prev, k)),
        arcs_at(rev, arcs_bytes(arcs, prev, k).len() as int, arcs.take(k).map_values(|a: ArcView| unresolved(a, prev)))
            == Ok::<(Seq<ArcView>, int), ErrorKind>((arcs.map_values(|a: ArcView| unresolved(a, prev)), arcs_bytes(arcs, prev, arcs.len() as int).len() as int)),
    decreases arcs.len() - k,
{
    let n = arcs.len() as int;
    let here = arcs_bytes(arcs, prev, k);
    let one = arc_bytes(arcs[k], k + 1 == n, prev);
    let seen = arcs.take(k).map_values(|a: ArcView| unresolved(a, prev));
    let next = arcs.take(k + 1).map_values(|a: ArcView| unresolved(a, prev));
    assert(next =~= seen.push(unresolved(arcs[k], prev)));
    if k + 1 < n {
        lemma_arcs_round_trip(rev, arcs, prev, k + 1);
    } else {
        assert(arcs.take(n) =~= arcs);
    }
    lemma_holds_concat(rev, 0, here, one);
    lemma_arc_round_trip(rev, here.len() as int, arcs[k], k + 1 == n, prev);
    assert(arcs_bytes(arcs, prev, k + 1).len() == here.len() + one.len());
}

/// A node that was written is read back.
proof fn lemma_node_round_trip(base: Seq<u8>, arcs: Seq<ArcView>)
    requires
        1 <= base.len() <= i64::MAX,
        arcs.len() > 0,
        forall|i: int| 0 <= i < arcs.len() ==> writable(#[trigger] arcs[i], base.len() - 1),
    ensures
        ({
            let image = base + arcs_bytes(arcs, base.len() - 1, arcs.len() as int).reverse();
            node_at(image, image.len() - 1) == Ok::<(Seq<ArcView>, int), ErrorKind>((arcs, base.len() - 1))
        }),
{
    let prev = base.len() - 1;
    let scratch = arcs_bytes(arcs, prev, arcs.len() as int);
    let image = base + scratch.reverse();
    let addr = image.len() - 1;
    let rev = downwards(image, addr);
    assert(image.take(addr + 1) =~= image);
    assert(rev =~= scratch + base.reverse());
    assert(rev.subrange(0, scratch.len() as int) =~= scratch);
    lemma_arcs_round_trip(rev, arcs, prev, 0);
    assert(arcs.take(0).map_values(|a: ArcView| unresolved(a, prev)) =~= Seq::<ArcView>::empty());
    let raw = arcs.map_values(|a: ArcView| unresolved(a, prev));
    assert(resolved(raw, prev) =~= arcs) by {
        assert forall|i: int| 0 <= i < arcs.len() implies resolved(raw, prev)[i] == arcs[i] by {
            assert(writable(arcs[i], prev));
        }
    }
}

// ---------------------------------------------------------------------------
// What unwritten nodes stand for
// ---------------------------------------------------------------------------

/// The output of `s` from unwritten node `k`, if it is accepted.
spec fn look(nodes: Seq<NodeView>, bytes: Seq<u8>, k: int, s: Seq<u8>) -> Result<Option<Seq<u8>>, ErrorKind>
    decreases s.len(),
{
    if !(0 <= k < nodes.len()) {
        Ok(None)
    } else if s.len() == 0 {
        if nodes[k].is_final {
            Ok(Some(nodes[k].output))
        } else {
            Ok(None)
        }
    } else {
        match find_arc_from(nodes[k].arcs, s[0], 0) {
            Some(a) => if a.target == -2 {
                prefixed(a.output, look(nodes, bytes, k + 1, s.skip(1)))
            } else if s.len() == 1 {
                if a.is_final {
                    Ok(Some(a.output + a.final_output))
                } else {
                    Ok(None)
                }
            } else {
                prefixed(a.output, node_output(bytes, a.target, s.skip(1)))
            },
            None => Ok(None),
        }
    }
}

/// Labels ascend strictly.
spec fn labels_ascend(arcs: Seq<ArcView>) -> bool {
    forall|i: int, j: int| 0 <= i < j < arcs.len() ==> #[trigger] arcs[i].label < #[trigger] arcs[j].label
}

/// What stands in a written image: the nodes at `addrs`, which lead to end
/// nodes or to one another.
spec fn image_ok(bytes: Seq<u8>, addrs: Set<int>) -> bool {
    forall|a: int| #[trigger] addrs.contains(a) ==> 0 < a < bytes.len() && node_at(bytes, a) is Ok && targets_in(node_at(bytes, a)->Ok_0.0, addrs)
}

spec fn targets_in(arcs: Seq<ArcView>, addrs: Set<int>) -> bool {
    forall|i: int| 0 <= i < arcs.len() ==> (#[trigger] arcs[i]).target <= 0 || addrs.contains(arcs[i].target)
}

/// A written arc of an unwritten node.
spec fn arc_written(a: ArcView, addrs: Set<int>) -> bool {
    &&& (a.target == -1 && a.is_final) || addrs.contains(a.target)
    &&& a.final_output.len() > 0 ==> a.is_final
}

/// A node that nothing was added to.
pub open spec fn blank_node() -> NodeView {
    NodeView { arcs: Seq::empty(), output: Seq::empty(), is_final: false }
}

/// The unwritten nodes along `path`: the last arc of each but the last node
/// leads to the next one; all other arcs are written.
spec fn pending(nodes: Seq<NodeView>, addrs: Set<int>, path: Seq<u8>) -> bool {
    &&& nodes.len() > path.len()
    &&& forall|k: int| 0 <= k < path.len() ==> (#[trigger] nodes[k]).arcs.len() > 0 && nodes[k].arcs.last().label == path[k] && nodes[k].arcs.last().target == -2
    &&& forall|k: int, i: int| 0 <= k <= path.len() && 0 <= i < nodes[k].arcs.len() && !(k < path.len() && i == nodes[k].arcs.len() - 1) ==> arc_written(#[trigger] nodes[k].arcs[i], addrs)
    &&& forall|k: int| 0 <= k < nodes.len() ==> labels_ascend(#[trigger] nodes[k].arcs)
    &&& forall|k: int| path.len() < k < nodes.len() ==> #[trigger] nodes[k] == blank_node()
    &&& forall|k: int| 1 <= k < nodes.len() ==> ((#[trigger] nodes[k]).output.len() > 0 ==> nodes[k].is_final)
    &&& path.len() > 0 ==> (nodes[path.len() as int].arcs.len() == 0 ==> nodes[path.len() as int].is_final)
    &&& !addrs.contains(-2) && !addrs.contains(-1) && !addrs.contains(0)
}

proof fn lemma_find(arcs: Seq<ArcView>, label: u8, i: int)
    requires
        labels_ascend(arcs),
        0 <= i <= arcs.len(),
        forall|j: int| 0 <= j < i ==> (#[trigger] arcs[j]).label < label,
    ensures
        match find_arc_from(arcs, label, i) {
            Some(a) => a.label == label && exists|j: int| 0 <= j < arcs.len() && #[trigger] arcs[j] == a,
            None => forall|j: int| 0 <= j < arcs.len() ==> (#[trigger] arcs[j]).label != label,
        },
    decreases arcs.len() - i,
{
    if i < arcs.len() {
        if arcs[i].label >= label {
            if arcs[i].label == label {
                assert(arcs[i] == arcs[i]);
            } else {
                assert forall|j: int| 0 <= j < arcs.len() implies (#[trigger] arcs[j]).label != label by {
                    if j > i {
                        assert(arcs[i].label < arcs[j].label);
                    }
                }
            }
        } else {
            lemma_find(arcs, label, i + 1);
        }
    }
}

/// The arc with a label that is there is found.
proof fn lemma_find_at(arcs: Seq<ArcView>, i: int)
    requires
        labels_ascend(arcs),
        0 <= i < arcs.len(),
    ensures
        find_arc_from(arcs, arcs[i].label, 0) == Some(arcs[i]),
{
    lemma_find(arcs, arcs[i].label, 0);
    let a = find_arc_from(arcs, arcs[i].label, 0)->Some_0;
    assert(arcs[i].label == arcs[i].label);
    let j = choose|j: int| 0 <= j < arcs.len() && #[trigger] arcs[j] == a;
    if j < i {
        assert(arcs[j].label < arcs[i].label);
    } else if i < j {
        assert(arcs[i].label < arcs[j].label);
    }
}

/// Reading a node looks only at the bytes up to it.
proof fn lemma_node_at_extend(bytes: Seq<u8>, more: Seq<u8>, a: int)
    requires
        0 <= a < bytes.len(),
    ensures
        node_at(bytes + more, a) == node_at(bytes, a),
{
    assert((bytes + more).take(a + 1) =~= bytes.take(a + 1));
}

proof fn lemma_output_extend(bytes: Seq<u8>, more: Seq<u8>, addrs: Set<int>, a: int, s: Seq<u8>)
    requires
        image_ok(bytes, addrs),
        a <= 0 || addrs.contains(a),
    ensures
        node_output(bytes + more, a, s) == node_output(bytes, a, s),
    decreases s.len(),
{
    if a > 0 && s.len() > 0 {
        lemma_node_at_extend(bytes, more, a);
        let arcs = node_at(bytes, a)->Ok_0.0;
        assert(targets_in(arcs, addrs));
        match find_arc_from(arcs, s[0], 0) {
            Some(arc) => {
                lemma_find_member(arcs, s[0], 0);
                let j = choose|j: int| 0 <= j < arcs.len() && #[trigger] arcs[j] == arc;
                assert(arcs[j].target <= 0 || addrs.contains(arcs[j].target));
                if s.len() > 1 {
                    lemma_output_extend(bytes, more, addrs, arc.target, s.skip(1));
                }
            },
            None => {},
        }
    }
}

proof fn lemma_find_member(arcs: Seq<ArcView>, label: u8, i: int)
    requires
        0 <= i,
        find_arc_from(arcs, label, i) is Some,
    ensures
        exists|j: int| 0 <= j < arcs.len() && #[trigger] arcs[j] == find_arc_from(arcs, label, i)->Some_0,
    decreases arcs.len() - i,
{
    if arcs[i].label >= label {
        assert(arcs[i] == find_arc_from(arcs, label, i)->Some_0);
    } else {
        lemma_find_member(arcs, label, i + 1);
    }
}

/// Adding bytes to the image does not change what unwritten nodes stand for.
proof fn lemma_look_extend(nodes: Seq<NodeView>, bytes: Seq<u8>, more: Seq<u8>, addrs: Set<int>, path: Seq<u8>, k: int, s: Seq<u8>)
    requires
        image_ok(bytes, addrs),
        pending(nodes, addrs, path),
        0 <= k <= path.len(),
    ensures
        look(nodes, bytes + more, k, s) == look(nodes, bytes, k, s),
    decreases s.len(),
{
    if s.len() > 0 {
        let arcs = nodes[k].arcs;
        lemma_find(arcs, s[0], 0);
        match find_arc_from(arcs, s[0], 0) {
            Some(a) => {
                let i = choose|i: int| 0 <= i < arcs.len() && #[trigger] arcs[i] == a;
                if k < path.len() && i == arcs.len() - 1 {
                    lemma_look_extend(nodes, bytes, more, addrs, path, k + 1, s.skip(1));
                } else {
                    assert(arc_written(nodes[k].arcs[i], addrs));
                    lemma_output_extend(bytes, more, addrs, a.target, s.skip(1));
                }
            },
            None => {},
        }
    }
}

/// What a node stands for depends on it and the deeper ones alone.
proof fn lemma_look_local(nodes: Seq<NodeView>, other: Seq<NodeView>, bytes: Seq<u8>, k: int, s: Seq<u8>)
    requires
        nodes.len() == other.len(),
        0 <= k,
        forall|j: int| k <= j < nodes.len() ==> #[trigger] nodes[j] == other[j],
    ensures
        look(nodes, bytes, k, s) == look(other, bytes, k, s),
    decreases s.len(),
{
    if k < nodes.len() && s.len() > 0 {
        match find_arc_from(nodes[k].arcs, s[0], 0) {
            Some(a) => {
                if a.target == -2 {
                    lemma_look_local(nodes, other, bytes, k + 1, s.skip(1));
                }
            },
            None => {},
        }
    }
}

/// Node `j` stands for the same in both.
spec fn same_look(nodes: Seq<NodeView>, bytes: Seq<u8>, other: Seq<NodeView>, image: Seq<u8>, j: int) -> bool {
    forall|s: Seq<u8>| #[trigger] look(other, image, j, s) == look(nodes, bytes, j, s)
}

/// Where the nodes above agree and node `j` stands for the same, so does the
/// root.
proof fn lemma_look_above(nodes: Seq<NodeView>, bytes: Seq<u8>, other: Seq<NodeView>, image: Seq<u8>, addrs: Set<int>, path: Seq<u8>, j: int, k: int, s: Seq<u8>)
    requires
        nodes.len() == other.len(),
        0 <= k <= j <= path.len(),
        pending(nodes, addrs, path),
        image_ok(bytes, addrs),
        image == bytes || exists|more: Seq<u8>| image == #[trigger] (bytes + more),
        forall|i: int| 0 <= i < j ==> #[trigger] nodes[i] == other[i],
        same_look(nodes, bytes, other, image, j),
    ensures
        look(other, image, k, s) == look(nodes, bytes, k, s),
    decreases s.len(), j - k,
{
    if k < j && s.len() > 0 {
        let arcs = nodes[k].arcs;
        lemma_find(arcs, s[0], 0);
        match find_arc_from(arcs, s[0], 0) {
            Some(a) => {
                let i = choose|i: int| 0 <= i < arcs.len() && #[trigger] arcs[i] == a;
                if i == arcs.len() - 1 {
                    lemma_look_above(nodes, bytes, other, image, addrs, path, j, k + 1, s.skip(1));
                } else {
                    assert(arc_written(nodes[k].arcs[i], addrs));
                    if image != bytes {
                        let more = choose|more: Seq<u8>| image == #[trigger] (bytes + more);
                        lemma_output_extend(bytes, more, addrs, a.target, s.skip(1));
                    }
                }
            },
            None => {},
        }
    } else if k == j {
        assert(look(other, image, j, s) == look(nodes, bytes, j, s));
    }
}

// ---------------------------------------------------------------------------
// Writing the deepest unwritten node
// ---------------------------------------------------------------------------

/// The nodes after node `d` was written to `target`.
pub open spec fn frozen(nodes: Seq<NodeView>, d: int, target: int) -> Seq<NodeView> {
    let parent = nodes[d - 1];
    let last = ArcView { target, final_output: nodes[d].output, is_final: nodes[d].is_final || nodes[d].arcs.len() == 0, ..parent.arcs.last() };
    nodes.update(d, blank_node()).update(d - 1, NodeView { arcs: parent.arcs.update(parent.arcs.len() - 1, last), ..parent })
}

proof fn lemma_frozen_pending(nodes: Seq<NodeView>, addrs: Set<int>, wider: Set<int>, path: Seq<u8>, target: int)
    requires
        pending(nodes, addrs, path),
        path.len() > 0,
        forall|a: int| addrs.contains(a) ==> #[trigger] wider.contains(a),
        !wider.contains(-2) && !wider.contains(-1) && !wider.contains(0),
        wider.contains(target) || (target == -1 && nodes[path.len() as int].arcs.len() == 0),
    ensures
        pending(frozen(nodes, path.len() as int, target), wider, path.drop_last()),
{
    let d = path.len() as int;
    let after = frozen(nodes, d, target);
    let p = path.drop_last();
    assert forall|k: int| 0 <= k < p.len() implies (#[trigger] after[k]).arcs.len() > 0 && after[k].arcs.last().label == p[k] && after[k].arcs.last().target == -2 by {
        assert(after[k] == nodes[k]);
        assert(p[k] == path[k]);
    }
    assert(nodes[d - 1].arcs.len() > 0);
    assert forall|k: int, i: int| 0 <= k <= p.len() && 0 <= i < after[k].arcs.len() && !(k < p.len() && i == after[k].arcs.len() - 1) implies arc_written(#[trigger] after[k].arcs[i], wider) by {
        if k < d - 1 || i < nodes[k].arcs.len() - 1 {
            assert(after[k].arcs[i] == nodes[k].arcs[i]);
            assert(arc_written(nodes[k].arcs[i], addrs));
        } else {
            assert(nodes[d].output.len() > 0 ==> nodes[d].is_final);
        }
    }
    assert forall|k: int| 0 <= k < after.len() implies labels_ascend(#[trigger] after[k].arcs) by {
        assert(labels_ascend(nodes[k].arcs));
        if k == d - 1 {
            let (x, y) = (nodes[k].arcs, after[k].arcs);
            assert forall|i: int, j: int| 0 <= i < j < y.len() implies #[trigger] y[i].label < #[trigger] y[j].label by {
                assert(x[i].label < x[j].label);
            }
        }
    }
    assert forall|k: int| p.len() < k < after.len() implies #[trigger] after[k] == blank_node() by {
        if k > d {
            assert(after[k] == nodes[k]);
        }
    }
    assert forall|k: int| 1 <= k < after.len() && (#[trigger] after[k]).output.len() > 0 implies after[k].is_final by {
        assert(nodes[k].output.len() > 0 ==> nodes[k].is_final);
    }
}

/// Writing the deepest node changes nothing of what the root stands for.
proof fn lemma_frozen_look(nodes: Seq<NodeView>, bytes: Seq<u8>, more: Seq<u8>, addrs: Set<int>, path: Seq<u8>, target: int, s: Seq<u8>)
    requires
        pending(nodes, addrs, path),
        image_ok(bytes, addrs),
        path.len() > 0,
        nodes[path.len() as int].arcs.len() == 0 ==> target == -1,
        nodes[path.len() as int].arcs.len() > 0 ==> target > 0 && node_at(bytes + more, target) is Ok && node_at(bytes + more, target)->Ok_0.0 == nodes[path.len() as int].arcs,
    ensures
        look(frozen(nodes, path.len() as int, target), bytes + more, 0, s) == look(nodes, bytes, 0, s),
{
    let d = path.len() as int;
    let after = frozen(nodes, d, target);
    let image = bytes + more;
    assert(same_look(nodes, bytes, after, image, d - 1)) by {
        assert forall|t: Seq<u8>| #[trigger] look(after, image, d - 1, t) == look(nodes, bytes, d - 1, t) by {
            lemma_frozen_step(nodes, bytes, more, addrs, path, target, t);
        }
    }
    assert(image == bytes + more);
    lemma_look_above(nodes, bytes, after, image, addrs, path, d - 1, 0, s);
}

proof fn lemma_frozen_step(nodes: Seq<NodeView>, bytes: Seq<u8>, more: Seq<u8>, addrs: Set<int>, path: Seq<u8>, target: int, t: Seq<u8>)
    requires
        pending(nodes, addrs, path),
        image_ok(bytes, addrs),
        path.len() > 0,
        nodes[path.len() as int].arcs.len() == 0 ==> target == -1,
        nodes[path.len() as int].arcs.len() > 0 ==> target > 0 && node_at(bytes + more, target) is Ok && node_at(bytes + more, target)->Ok_0.0 == nodes[path.len() as int].arcs,
    ensures
        look(frozen(nodes, path.len() as int, target), bytes + more, path.len() - 1, t) == look(nodes, bytes, path.len() - 1, t),
{
    let d = path.len() as int;
    let after = frozen(nodes, d, target);
    let image = bytes + more;
    let arcs = nodes[d - 1].arcs;
    let now = after[d - 1].arcs;
    assert(arcs.len() > 0);
    assert(labels_ascend(nodes[d - 1].arcs));
    assert(labels_ascend(now)) by {
        assert forall|i: int, j: int| 0 <= i < j < now.len() implies #[trigger] now[i].label < #[trigger] now[j].label by {
            assert(arcs[i].label < arcs[j].label);
        }
    }
    if t.len() > 0 {
        lemma_find(arcs, t[0], 0);
        lemma_find(now, t[0], 0);
        match find_arc_from(arcs, t[0], 0) {
            Some(a) => {
                let i = choose|i: int| 0 <= i < arcs.len() && #[trigger] arcs[i] == a;
                lemma_find_at(now, i);
                if i == arcs.len() - 1 {
                    let u = t.skip(1);
                    let node = nodes[d];
                    if u.len() > 0 {
                        if node.arcs.len() > 0 {
                            assert(labels_ascend(nodes[d].arcs));
                            lemma_find(node.arcs, u[0], 0);
                            match find_arc_from(node.arcs, u[0], 0) {
                                Some(b) => {
                                    let j = choose|j: int| 0 <= j < node.arcs.len() && #[trigger] node.arcs[j] == b;
                                    assert(arc_written(nodes[d].arcs[j], addrs));
                                    if u.len() > 1 {
                                        lemma_output_extend(bytes, more, addrs, b.target, u.skip(1));
                                    }
                                },
                                None => {},
                            }
                        } else {
                            assert(node.arcs =~= Seq::<ArcView>::empty());
                        }
                        assert(node_output(image, target, u) == look(nodes, bytes, d, u));
                    }
                } else {
                    assert(arc_written(nodes[d - 1].arcs[i], addrs));
                    if t.len() > 1 {
                        lemma_output_extend(bytes, more, addrs, a.target, t.skip(1));
                    }
                }
            },
            None => {
                assert forall|j: int| 0 <= j < now.len() implies (#[trigger] now[j]).label != t[0] by {
                    assert(arcs[j].label != t[0]);
                }
            },
        }
    }
}

/// An image with one more node.
proof fn lemma_image_grows(bytes: Seq<u8>, addrs: Set<int>, arcs: Seq<ArcView>)
    requires
        1 <= bytes.len() <= i64::MAX,
        image_ok(bytes, addrs),
        arcs.len() > 0,
        forall|i: int| 0 <= i < arcs.len() ==> arc_written(#[trigger] arcs[i], addrs) && arcs[i].output.len() <= u64::MAX && arcs[i].final_output.len() <= u64::MAX,
    ensures
        ({
            let image = bytes + arcs_bytes(arcs, bytes.len() - 1, arcs.len() as int).reverse();
            &&& image_ok(image, addrs.insert(image.len() - 1))
            &&& node_at(image, image.len() - 1) is Ok
            &&& node_at(image, image.len() - 1)->Ok_0.0 == arcs
            &&& image.len() - 1 > 0
        }),
{
    let prev = bytes.len() - 1;
    let more = arcs_bytes(arcs, prev, arcs.len() as int).reverse();
    let image = bytes + more;
    assert forall|i: int| 0 <= i < arcs.len() implies writable(#[trigger] arcs[i], prev) by {
        assert(arc_written(arcs[i], addrs));
    }
    lemma_node_round_trip(bytes, arcs);
    let addr = image.len() - 1;
    let wider = addrs.insert(addr);
    lemma_arcs_bytes_len(arcs, prev, arcs.len() as int);
    assert forall|a: int| #[trigger] wider.contains(a) implies 0 < a < image.len() && node_at(image, a) is Ok && targets_in(node_at(image, a)->Ok_0.0, wider) by {
        if a == addr {
            assert forall|i: int| 0 <= i < arcs.len() implies (#[trigger] arcs[i]).target <= 0 || wider.contains(arcs[i].target) by {
                assert(arc_written(arcs[i], addrs));
            }
        } else {
            assert(addrs.contains(a));
            lemma_node_at_extend(bytes, more, a);
            let old_arcs = node_at(bytes, a)->Ok_0.0;
            assert(targets_in(old_arcs, addrs));
            assert forall|i: int| 0 <= i < old_arcs.len() implies (#[trigger] old_arcs[i]).target <= 0 || wider.contains(old_arcs[i].target) by {
            }
        }
    }
}

proof fn lemma_arcs_bytes_len(arcs: Seq<ArcView>, prev: int, k: int)
    requires
        0 <= k <= arcs.len(),
    ensures
        arcs_bytes(arcs, prev, k).len() >= 2 * k,
    decreases k,
{
    if k > 0 {
        lemma_arcs_bytes_len(arcs, prev, k - 1);
    }
}

// ---------------------------------------------------------------------------
// Making room in the outputs
// ---------------------------------------------------------------------------

/// A node with `p` put before all its outputs.
pub open spec fn prepended(n: NodeView, p: Seq<u8>) -> NodeView {
    NodeView {
        arcs: n.arcs.map_values(|a: ArcView| ArcView { output: p + a.output, ..a }),
        output: if n.is_final { p + n.output } else { n.output },
        is_final: n.is_final,
    }
}

/// A node whose last arc has the output `o`.
pub open spec fn last_output(n: NodeView, o: Seq<u8>) -> NodeView {
    let last = ArcView { output: o, ..n.arcs.last() };
    NodeView { arcs: n.arcs.update(n.arcs.len() - 1, last), ..n }
}

/// The nodes after the output of the arc into node `k` was cut to `c`, the
/// rest `w` being moved behind it.
pub open spec fn moved(nodes: Seq<NodeView>, k: int, c: Seq<u8>, w: Seq<u8>) -> Seq<NodeView> {
    nodes.update(k - 1, last_output(nodes[k - 1], c)).update(k, prepended(nodes[k], w))
}

proof fn lemma_find_mapped(arcs: Seq<ArcView>, p: Seq<u8>, label: u8, i: int)
    requires
        0 <= i,
    ensures
        ({
            let now = arcs.map_values(|a: ArcView| ArcView { output: p + a.output, ..a });
            find_arc_from(now, label, i) == match find_arc_from(arcs, label, i) {
                Some(a) => Some(ArcView { output: p + a.output, ..a }),
                None => None,
            }
        }),
    decreases arcs.len() - i,
{
    if i < arcs.len() && arcs[i].label < label {
        lemma_find_mapped(arcs, p, label, i + 1);
    }
}

proof fn lemma_find_last(arcs: Seq<ArcView>, o: Seq<u8>, label: u8, i: int)
    requires
        0 <= i,
        arcs.len() > 0,
    ensures
        ({
            let n = arcs.len() - 1;
            let now = arcs.update(n, ArcView { output: o, ..arcs.last() });
            let was = find_arc_from(arcs, label, i);
            let is = find_arc_from(now, label, i);
            &&& was is Some <==> is is Some
            &&& was is Some && was != Some(arcs[n]) ==> is == was
            &&& was == Some(arcs[n]) ==> is == Some(now[n]) || is == was
        }),
    decreases arcs.len() - i,
{
    if i < arcs.len() && arcs[i].label < label {
        lemma_find_last(arcs, o, label, i + 1);
    }
}

proof fn lemma_prepended_look(nodes: Seq<NodeView>, bytes: Seq<u8>, k: int, p: Seq<u8>, s: Seq<u8>)
    requires
        0 <= k < nodes.len(),
    ensures
        look(nodes.update(k, prepended(nodes[k], p)), bytes, k, s) == prefixed(p, look(nodes, bytes, k, s)),
{
    let now = nodes.update(k, prepended(nodes[k], p));
    if s.len() > 0 {
        lemma_find_mapped(nodes[k].arcs, p, s[0], 0);
        match find_arc_from(nodes[k].arcs, s[0], 0) {
            Some(a) => {
                if a.target == -2 {
                    let below = look(nodes, bytes, k + 1, s.skip(1));
                    lemma_look_local(nodes, now, bytes, k + 1, s.skip(1));
                    lemma_prefix_join(p, a.output, below);
                } else if s.len() == 1 {
                    assert(p + a.output + a.final_output =~= p + (a.output + a.final_output));
                } else {
                    lemma_prefix_join(p, a.output, node_output(bytes, a.target, s.skip(1)));
                }
            },
            None => {},
        }
    }
}

proof fn lemma_prefix_join(a: Seq<u8>, b: Seq<u8>, r: Result<Option<Seq<u8>>, ErrorKind>)
    ensures
        prefixed(a + b, r) == prefixed(a, prefixed(b, r)),
{
    if r is Ok && r->Ok_0 is Some {
        assert(a + b + r->Ok_0->Some_0 =~= a + (b + r->Ok_0->Some_0));
    }
}

proof fn lemma_moved_pending(nodes: Seq<NodeView>, addrs: Set<int>, path: Seq<u8>, k: int, c: Seq<u8>, w: Seq<u8>)
    requires
        pending(nodes, addrs, path),
        1 <= k <= path.len(),
    ensures
        pending(moved(nodes, k, c, w), addrs, path),
{
    let now = moved(nodes, k, c, w);
    assert(nodes[k - 1].arcs.len() > 0);
    assert forall|j: int| 0 <= j < path.len() implies (#[trigger] now[j]).arcs.len() > 0 && now[j].arcs.last().label == path[j] && now[j].arcs.last().target == -2 by {
        assert(nodes[j].arcs.len() > 0 && nodes[j].arcs.last().label == path[j] && nodes[j].arcs.last().target == -2);
    }
    assert forall|j: int, i: int| 0 <= j <= path.len() && 0 <= i < now[j].arcs.len() && !(j < path.len() && i == now[j].arcs.len() - 1) implies arc_written(#[trigger] now[j].arcs[i], addrs) by {
        assert(arc_written(nodes[j].arcs[i], addrs));
    }
    assert forall|j: int| 0 <= j < now.len() implies labels_ascend(#[trigger] now[j].arcs) by {
        assert(labels_ascend(nodes[j].arcs));
        let (x, y) = (nodes[j].arcs, now[j].arcs);
        assert forall|a: int, b: int| 0 <= a < b < y.len() implies #[trigger] y[a].label < #[trigger] y[b].label by {
            assert(x[a].label < x[b].label);
        }
    }
    assert forall|j: int| 1 <= j < now.len() && (#[trigger] now[j]).output.len() > 0 implies now[j].is_final by {
        assert(nodes[j].output.len() > 0 ==> nodes[j].is_final);
    }
}

/// Moving part of an output one arc down changes nothing for the root.
proof fn lemma_moved_look(nodes: Seq<NodeView>, bytes: Seq<u8>, addrs: Set<int>, path: Seq<u8>, k: int, c: Seq<u8>, w: Seq<u8>, s: Seq<u8>)
    requires
        pending(nodes, addrs, path),
        image_ok(bytes, addrs),
        1 <= k <= path.len(),
        nodes[k - 1].arcs.last().output == c + w,
    ensures
        look(moved(nodes, k, c, w), bytes, 0, s) == look(nodes, bytes, 0, s),
{
    let now = moved(nodes, k, c, w);
    assert(same_look(nodes, bytes, now, bytes, k - 1)) by {
        assert forall|t: Seq<u8>| #[trigger] look(now, bytes, k - 1, t) == look(nodes, bytes, k - 1, t) by {
            let arcs = nodes[k - 1].arcs;
            assert(arcs.len() > 0 && arcs.last().target == -2) by {
                assert(nodes[k - 1].arcs.len() > 0);
            }
            if t.len() > 0 {
                assert(labels_ascend(nodes[k - 1].arcs));
                lemma_find(arcs, t[0], 0);
                lemma_find_last(arcs, c, t[0], 0);
                let y = now[k - 1].arcs;
                assert(labels_ascend(y)) by {
                    assert forall|a: int, b: int| 0 <= a < b < y.len() implies #[trigger] y[a].label < #[trigger] y[b].label by {
                        assert(arcs[a].label < arcs[b].label);
                    }
                }
                match find_arc_from(arcs, t[0], 0) {
                    Some(a) => {
                        let i = choose|i: int| 0 <= i < arcs.len() && #[trigger] arcs[i] == a;
                        lemma_find_at(y, i);
                        if i == arcs.len() - 1 {
                            let u = t.skip(1);
                            let one = nodes.update(k, prepended(nodes[k], w));
                            lemma_prepended_look(nodes, bytes, k, w, u);
                            lemma_look_local(one, now, bytes, k, u);
                            lemma_prefix_join(c, w, look(nodes, bytes, k, u));
                        } else {
                            assert(arc_written(nodes[k - 1].arcs[i], addrs));
                        }
                    },
                    None => {},
                }
            }
        }
    }
    lemma_look_above(nodes, bytes, now, bytes, addrs, path, k - 1, 0, s);
}

// ---------------------------------------------------------------------------
// Adding an input
// ---------------------------------------------------------------------------

/// The outputs along the first `k` unwritten nodes.
spec fn path_output(nodes: Seq<NodeView>, k: int) -> Seq<u8>
    decreases k,
{
    if k <= 0 {
        Seq::empty()
    } else {
        path_output(nodes, k - 1) + nodes[k - 1].arcs.last().output
    }
}

proof fn lemma_path_output_same(nodes: Seq<NodeView>, other: Seq<NodeView>, k: int)
    requires
        forall|j: int| 0 <= j < k ==> #[trigger] nodes[j] == other[j],
    ensures
        path_output(nodes, k) == path_output(other, k),
    decreases k,
{
    if k > 0 {
        lemma_path_output_same(nodes, other, k - 1);
        assert(nodes[k - 1] == other[k - 1]);
    }
}

/// A new arc.
/// An arc to the unwritten node one level deeper.
pub open spec fn fresh_arc(label: u8, output: Seq<u8>) -> ArcView {
    ArcView { label, output, final_output: Seq::empty(), is_final: false, target: -2 }
}

/// The nodes with `input` added, which leaves the old path after `n` bytes;
/// its remaining output is `rest`.
pub open spec fn grown(nodes: Seq<NodeView>, input: Seq<u8>, n: int, rest: Seq<u8>) -> Seq<NodeView> {
    Seq::new(nodes.len(), |k: int|
        if k == n {
            NodeView { arcs: nodes[k].arcs.push(fresh_arc(input[k], rest)), ..nodes[k] }
        } else if n < k < input.len() {
            NodeView { arcs: seq![fresh_arc(input[k], Seq::empty())], output: Seq::empty(), is_final: false }
        } else if k == input.len() {
            NodeView { arcs: Seq::empty(), output: Seq::empty(), is_final: true }
        } else {
            nodes[k]
        })
}

/// The nodes are ready for `input` to leave the path after `n` bytes.
spec fn ready(nodes: Seq<NodeView>, addrs: Set<int>, input: Seq<u8>, n: int) -> bool {
    &&& 0 <= n < input.len() < nodes.len()
    &&& pending(nodes, addrs, input.take(n))
    &&& forall|i: int| 0 <= i < nodes[n].arcs.len() ==> (#[trigger] nodes[n].arcs[i]).label < input[n]
}

proof fn lemma_grown_pending(nodes: Seq<NodeView>, addrs: Set<int>, input: Seq<u8>, n: int, rest: Seq<u8>)
    requires
        ready(nodes, addrs, input, n),
    ensures
        pending(grown(nodes, input, n, rest), addrs, input),
{
    let now = grown(nodes, input, n, rest);
    let p = input.take(n);
    assert forall|k: int| 0 <= k < input.len() implies (#[trigger] now[k]).arcs.len() > 0 && now[k].arcs.last().label == input[k] && now[k].arcs.last().target == -2 by {
        if k < n {
            assert(nodes[k].arcs.last().label == p[k]);
        }
    }
    assert forall|k: int, i: int| 0 <= k <= input.len() && 0 <= i < now[k].arcs.len() && !(k < input.len() && i == now[k].arcs.len() - 1) implies arc_written(#[trigger] now[k].arcs[i], addrs) by {
        assert(now[k].arcs[i] == nodes[k].arcs[i]);
        assert(arc_written(nodes[k].arcs[i], addrs));
    }
    assert forall|k: int| 0 <= k < now.len() implies labels_ascend(#[trigger] now[k].arcs) by {
        assert(labels_ascend(nodes[k].arcs));
        if k == n {
            let (x, y) = (nodes[k].arcs, now[k].arcs);
            assert forall|a: int, b: int| 0 <= a < b < y.len() implies #[trigger] y[a].label < #[trigger] y[b].label by {
                if b < x.len() {
                    assert(x[a].label < x[b].label);
                } else {
                    assert(nodes[n].arcs[a].label < input[n]);
                }
            }
        }
    }
    assert forall|k: int| input.len() < k < now.len() implies #[trigger] now[k] == blank_node() by {
        assert(nodes[k] == blank_node());
    }
    assert forall|k: int| 1 <= k < now.len() && (#[trigger] now[k]).output.len() > 0 implies now[k].is_final by {
        assert(nodes[k].output.len() > 0 ==> nodes[k].is_final);
    }
}

/// `t` begins with the bytes of `input` from `k` to `n`, both included.
spec fn follows(t: Seq<u8>, input: Seq<u8>, k: int, n: int) -> bool {
    n + 1 - k <= t.len() && forall|i: int| k <= i <= n ==> #[trigger] input[i] == t[i - k]
}

/// The nodes below the branch accept the rest of `input` and nothing else.
proof fn lemma_tail_look(nodes: Seq<NodeView>, bytes: Seq<u8>, input: Seq<u8>, n: int, rest: Seq<u8>, k: int, t: Seq<u8>)
    requires
        0 <= n < input.len() < nodes.len(),
        n < k <= input.len(),
    ensures
        look(grown(nodes, input, n, rest), bytes, k, t) == if t == input.skip(k) { Ok::<Option<Seq<u8>>, ErrorKind>(Some(Seq::empty())) } else { Ok(None) },
    decreases t.len(),
{
    let now = grown(nodes, input, n, rest);
    let want = input.skip(k);
    if k == input.len() {
        assert(now[k].arcs =~= Seq::<ArcView>::empty());
        if t.len() == 0 {
            assert(t =~= want);
        }
    } else {
        if t.len() > 0 {
            let arcs = now[k].arcs;
            assert(arcs[0].label == input[k]);
            assert(want[0] == input[k]);
            if t[0] == input[k] {
                assert(find_arc_from(arcs, t[0], 0) == Some(arcs[0]));
                lemma_tail_look(nodes, bytes, input, n, rest, k + 1, t.skip(1));
                assert(want.skip(1) =~= input.skip(k + 1));
                if t.skip(1) == input.skip(k + 1) {
                    assert(t =~= seq![t[0]] + t.skip(1));
                    assert(want =~= seq![want[0]] + want.skip(1));
                    assert(Seq::<u8>::empty() + Seq::<u8>::empty() =~= Seq::<u8>::empty());
                }
            } else {
                assert(find_arc_from(arcs, t[0], 0) is None) by {
                    reveal_with_fuel(find_arc_from, 3);
                }
            }
        }
    }
}

/// What the nodes stand for before and after `input` is added.
#[verifier::rlimit(60)]
proof fn lemma_grown_look(nodes: Seq<NodeView>, bytes: Seq<u8>, addrs: Set<int>, input: Seq<u8>, n: int, rest: Seq<u8>, k: int, t: Seq<u8>)
    requires
        ready(nodes, addrs, input, n),
        0 <= k <= n,
    ensures
        ({
            let was = look(nodes, bytes, k, t);
            let is = look(grown(nodes, input, n, rest), bytes, k, t);
            &&& follows(t, input, k, n) ==> was == Ok::<Option<Seq<u8>>, ErrorKind>(None)
            &&& follows(t, input, k, n) && t != input.skip(k) ==> is == Ok::<Option<Seq<u8>>, ErrorKind>(None)
            &&& !follows(t, input, k, n) ==> is == was
            &&& t == input.skip(k) ==> is is Ok && is->Ok_0 is Some && path_output(nodes, k) + is->Ok_0->Some_0 == path_output(nodes, n) + rest
        }),
    decreases n - k,
{
    let now = grown(nodes, input, n, rest);
    let p = input.take(n);
    let arcs = nodes[k].arcs;
    assert(labels_ascend(nodes[k].arcs));
    let want = input.skip(k);
    if t.len() == 0 {
        assert(!follows(t, input, k, n));
        assert(now[k].output == nodes[k].output && now[k].is_final == nodes[k].is_final);
    } else if k < n {
        assert(now[k] == nodes[k]);
        assert(arcs.last().label == p[k] && arcs.last().target == -2 && arcs.len() > 0);
        let u = t.skip(1);
        if t[0] == input[k] {
            lemma_find_at(arcs, arcs.len() - 1);
            lemma_grown_look(nodes, bytes, addrs, input, n, rest, k + 1, u);
            assert(follows(t, input, k, n) == follows(u, input, k + 1, n)) by {
                if follows(u, input, k + 1, n) {
                    assert forall|i: int| k <= i <= n implies #[trigger] input[i] == t[i - k] by {
                        if i > k {
                            assert(input[i] == u[i - (k + 1)]);
                        }
                    }
                }
                if follows(t, input, k, n) {
                    assert forall|i: int| k + 1 <= i <= n implies #[trigger] input[i] == u[i - (k + 1)] by {
                        assert(input[i] == t[i - k]);
                    }
                }
            }
            assert(want.skip(1) =~= input.skip(k + 1));
            if u == input.skip(k + 1) {
                assert(t =~= seq![t[0]] + u);
                assert(want =~= seq![want[0]] + want.skip(1));
            }
            if t == want {
                let x = look(now, bytes, k + 1, u)->Ok_0->Some_0;
                let o = arcs.last().output;
                assert(path_output(nodes, k) + (o + x) =~= path_output(nodes, k) + o + x);
            }
        } else {
            assert(!follows(t, input, k, n)) by {
                if follows(t, input, k, n) {
                    assert(input[k] == t[k - k]);
                }
            }
            lemma_find(arcs, t[0], 0);
            match find_arc_from(arcs, t[0], 0) {
                Some(a) => {
                    let i = choose|i: int| 0 <= i < arcs.len() && #[trigger] arcs[i] == a;
                    assert(i < arcs.len() - 1);
                    assert(arc_written(nodes[k].arcs[i], addrs));
                },
                None => {},
            }
            assert(want[0] == input[k]);
        }
    } else {
        // the branch
        let after = now[n].arcs;
        lemma_grown_pending(nodes, addrs, input, n, rest);
        assert(labels_ascend(now[n].arcs));
        assert(after =~= arcs.push(fresh_arc(input[n], rest)));
        let u = t.skip(1);
        if t[0] == input[n] {
            assert(follows(t, input, n, n)) by {
                assert forall|i: int| n <= i <= n implies #[trigger] input[i] == t[i - n] by {
                }
            }
            lemma_find(arcs, t[0], 0);
            if find_arc_from(arcs, t[0], 0) is Some {
                let a = find_arc_from(arcs, t[0], 0)->Some_0;
                let i = choose|i: int| 0 <= i < arcs.len() && #[trigger] arcs[i] == a;
                assert(nodes[n].arcs[i].label < input[n]);
            }
            lemma_find_at(after, after.len() - 1);
            lemma_tail_look(nodes, bytes, input, n, rest, n + 1, u);
            assert(want.skip(1) =~= input.skip(n + 1));
            if u == input.skip(n + 1) {
                assert(t =~= seq![t[0]] + u);
                assert(want =~= seq![want[0]] + want.skip(1));
            }
            if t == want {
                assert(rest + Seq::<u8>::empty() =~= rest);
            }
        } else {
            assert(!follows(t, input, n, n)) by {
                if follows(t, input, n, n) {
                    assert(input[n] == t[n - n]);
                }
            }
            lemma_find(arcs, t[0], 0);
            lemma_find(after, t[0], 0);
            match find_arc_from(arcs, t[0], 0) {
                Some(a) => {
                    let i = choose|i: int| 0 <= i < arcs.len() && #[trigger] arcs[i] == a;
                    lemma_find_at(after, i);
                    assert(arc_written(nodes[n].arcs[i], addrs));
                },
                None => {
                    if find_arc_from(after, t[0], 0) is Some {
                        let b = find_arc_from(after, t[0], 0)->Some_0;
                        let i = choose|i: int| 0 <= i < after.len() && #[trigger] after[i] == b;
                        if i < arcs.len() {
                            assert(arcs[i].label != t[0]);
                        }
                    }
                },
            }
            assert(want[0] == input[n]);
        }
    }
}

// ---------------------------------------------------------------------------
// The compiler
// ---------------------------------------------------------------------------

/// The output of `s` among the entries, if it is there.
pub open spec fn entry_output(entries: Seq<(Seq<u8>, Seq<u8>)>, s: Seq<u8>) -> Option<Seq<u8>>
    decreases entries.len(),
{
    if entries.len() == 0 {
        None
    } else if entries.last().0 == s {
        Some(entries.last().1)
    } else {
        entry_output(entries.drop_last(), s)
    }
}

/// Unwritten nodes, the root first, and the image behind them.
pub type Build = (Seq<NodeView>, Seq<u8>);

/// Node `d` is written behind the image, unless it has no arcs, and the arc
/// into it leads there.
pub open spec fn written(b: Build, d: int) -> Build {
    let arcs = b.0[d].arcs;
    if arcs.len() == 0 {
        (frozen(b.0, d, -1), b.1)
    } else {
        let image = b.1 + arcs_bytes(arcs, b.1.len() - 1, arcs.len() as int).reverse();
        (frozen(b.0, d, image.len() - 1), image)
    }
}

/// The nodes from `d` up to those deeper than `down_to` are written, the
/// deepest first.
pub open spec fn written_down_to(b: Build, d: int, down_to: int) -> Build
    decreases d,
{
    if d <= down_to || d <= 0 {
        b
    } else {
        written_down_to(written(b, d), d - 1, down_to)
    }
}

/// Along the path from node `k` to node `n` each output is cut to what it
/// shares with `output`, and the rest of it moved behind. Gives the nodes, and
/// what is left of `output`.
pub open spec fn shared_out(nodes: Seq<NodeView>, output: Seq<u8>, k: int, n: int) -> (Seq<NodeView>, Seq<u8>)
    decreases n - k,
{
    if k >= n {
        (nodes, output)
    } else {
        let all = nodes[k].arcs.last().output;
        let c = common_prefix(output, all) as int;
        shared_out(moved(nodes, k + 1, all.take(c), all.skip(c)), output.skip(c), k + 1, n)
    }
}

/// At least `m` nodes, the new ones blank.
pub open spec fn widened(nodes: Seq<NodeView>, m: nat) -> Seq<NodeView> {
    Seq::new(if nodes.len() < m { m } else { nodes.len() }, |k: int| if k < nodes.len() { nodes[k] } else { blank_node() })
}

/// An entry is added behind the one whose input is `last`. The nodes that
/// only `last` reaches are written first.
pub open spec fn entered(b: Build, last: Seq<u8>, entry: (Seq<u8>, Seq<u8>)) -> Build {
    let input = entry.0;
    if input.len() == 0 {
        (b.0.update(0, NodeView { is_final: true, ..b.0[0] }), b.1)
    } else {
        let n = common_prefix(last, input) as int;
        let kept = written_down_to((widened(b.0, input.len() + 1), b.1), last.len() as int, n);
        let room = shared_out(kept.0, entry.1, 0, n);
        (grown(room.0, input, n, room.1), kept.1)
    }
}

/// The input of the last entry; empty where there is none.
pub open spec fn last_input_of(entries: Seq<(Seq<u8>, Seq<u8>)>) -> Seq<u8> {
    if entries.len() == 0 {
        Seq::empty()
    } else {
        entries.last().0
    }
}

/// What stands unwritten, and the image, once the entries were added one
/// after the other. The image begins with a byte that belongs to no node.
pub open spec fn build_of(entries: Seq<(Seq<u8>, Seq<u8>)>) -> Build
    decreases entries.len(),
{
    if entries.len() == 0 {
        (seq![blank_node()], seq![0u8])
    } else {
        entered(build_of(entries.drop_last()), last_input_of(entries.drop_last()), entries.last())
    }
}

/// The root, and the image once all nodes below the root are written.
pub open spec fn rooted(entries: Seq<(Seq<u8>, Seq<u8>)>) -> Build {
    written_down_to(build_of(entries), last_input_of(entries).len() as int, 0)
}

/// The image of the entries' transducer.
pub open spec fn fst_image(entries: Seq<(Seq<u8>, Seq<u8>)>) -> Seq<u8> {
    let b = rooted(entries);
    b.1 + arcs_bytes(b.0[0].arcs, b.1.len() - 1, b.0[0].arcs.len() as int).reverse()
}

/// Address of the transducer's root; 0 where it has no arcs.
pub open spec fn fst_start(entries: Seq<(Seq<u8>, Seq<u8>)>) -> int {
    if rooted(entries).0[0].arcs.len() == 0 {
        0
    } else {
        fst_image(entries).len() - 1
    }
}

/// Inputs ascend strictly.
pub open spec fn inputs_ascend(entries: Seq<(Seq<u8>, Seq<u8>)>) -> bool {
    forall|i: int| 0 < i < entries.len() ==> lex_less(entries[i - 1].0, #[trigger] entries[i].0)
}

/// Some input is not empty.
pub open spec fn some_input(entries: Seq<(Seq<u8>, Seq<u8>)>) -> bool {
    exists|i: int| 0 <= i < entries.len() && (#[trigger] entries[i]).0.len() > 0
}

/// Inputs that ascend are all empty where the last one is.
proof fn lemma_some_input(entries: Seq<(Seq<u8>, Seq<u8>)>)
    requires
        inputs_ascend(entries),
    ensures
        some_input(entries) == (last_input_of(entries).len() > 0),
{
    let n = entries.len() as int;
    if n > 0 {
        if entries.last().0.len() > 0 {
            assert(entries[n - 1].0.len() > 0);
        } else if n > 1 {
            assert(lex_less(entries[n - 2].0, entries[n - 1].0));
        }
    }
}

proof fn lemma_build_of(entries: Seq<(Seq<u8>, Seq<u8>)>, entry: (Seq<u8>, Seq<u8>))
    ensures
        build_of(entries.push(entry)) == entered(build_of(entries), last_input_of(entries), entry),
{
    assert(entries.push(entry).drop_last() =~= entries);
}

/// Where an arc of an unwritten node leads.
#[derive(Clone, Copy)]
enum Target {
    /// To the unwritten node one level deeper.
    Frontier,
    /// To a node without arcs.
    End,
    /// To the node written at this address.
    Node(usize),
}

struct PendingArc {
    label: u8,
    target: Target,
    output: Vec<u8>,
    final_output: Vec<u8>,
    is_final: bool,
}

impl View for PendingArc {
    type V = ArcView;

    closed spec fn view(&self) -> ArcView {
        ArcView {
            label: self.label,
            output: self.output@,
            final_output: self.final_output@,
            is_final: self.is_final,
            target: match self.target {
                Target::Frontier => -2,
                Target::End => -1,
                Target::Node(a) => a as int,
            },
        }
    }
}

struct UnCompiledNode {
    arcs: Vec<PendingArc>,
    output: Vec<u8>,
    is_final: bool,
}

impl View for UnCompiledNode {
    type V = NodeView;

    closed spec fn view(&self) -> NodeView {
        NodeView { arcs: arcs_view(self.arcs@), output: self.output@, is_final: self.is_final }
    }
}

spec fn arcs_view(arcs: Seq<PendingArc>) -> Seq<ArcView> {
    arcs.map_values(|a: PendingArc| a@)
}

spec fn nodes_view(nodes: Seq<UnCompiledNode>) -> Seq<NodeView> {
    nodes.map_values(|n: UnCompiledNode| n@)
}

impl UnCompiledNode {
    fn blank() -> (n: UnCompiledNode)
        ensures
            n@ == blank_node(),
    {
        let n = UnCompiledNode { arcs: Vec::new(), output: Vec::new(), is_final: false };
        assert(n@.arcs =~= Seq::<ArcView>::empty());
        n
    }

    /// Adds an arc to the node one level deeper.
    fn add_arc(&mut self, label: u8, output: Vec<u8>)
        ensures
            final(self)@ == (NodeView { arcs: old(self)@.arcs.push(fresh_arc(label, output@)), ..old(self)@ }),
    {
        let arc = PendingArc { label, target: Target::Frontier, output, final_output: Vec::new(), is_final: false };
        let ghost a = arc@;
        assert(a =~= fresh_arc(label, output@));
        self.arcs.push(arc);
        assert(self@.arcs =~= old(self)@.arcs.push(a));
    }

    /// The last arc, once its target is written.
    fn replace_last(&mut self, target: Target, final_output: Vec<u8>, is_final: bool)
        requires
            old(self)@.arcs.len() > 0,
        ensures
            final(self)@ == (NodeView {
                arcs: old(self)@.arcs.update(old(self)@.arcs.len() - 1, ArcView {
                    target: match target { Target::Frontier => -2, Target::End => -1, Target::Node(a) => a as int },
                    final_output: final_output@,
                    is_final,
                    ..old(self)@.arcs.last()
                }),
                ..old(self)@
            }),
    {
        let m: usize = self.arcs.len() - 1;
        let ghost before = self.arcs@;
        self.arcs[m].target = target;
        self.arcs[m].final_output = final_output;
        self.arcs[m].is_final = is_final;
        assert(self@.arcs =~= old(self)@.arcs.update(m as int, self.arcs@[m as int]@));
    }

    /// Puts `prefix` before all outputs.
    fn prepend_output(&mut self, prefix: &[u8])
        ensures
            final(self)@ == prepended(old(self)@, prefix@),
    {
        let ghost was = self@;
        let n: usize = self.arcs.len();
        let mut i: usize = 0;
        while i < n
            invariant
                i <= n == self.arcs@.len(),
                was == old(self)@,
                was.arcs.len() == n,
                self.output == old(self).output,
                self.is_final == old(self).is_final,
                forall|j: int| i <= j < n ==> (#[trigger] self.arcs@[j])@ == was.arcs[j],
                forall|j: int| 0 <= j < i ==> (#[trigger] self.arcs@[j])@ == (ArcView { output: prefix@ + was.arcs[j].output, ..was.arcs[j] }),
            decreases n - i,
        {
            let ghost before = self.arcs@;
            assert(self.arcs@[i as int]@ == was.arcs[i as int]);
            let mut o = slice_to_vec(prefix);
            push_all(&mut o, self.arcs[i].output.as_slice());
            self.arcs[i].output = o;
            assert forall|j: int| 0 <= j < n && j != i implies #[trigger] self.arcs@[j] == before[j] by {
            }
            i = i + 1;
        }
        if self.is_final {
            let mut o = slice_to_vec(prefix);
            push_all(&mut o, self.output.as_slice());
            self.output = o;
        }
        assert(self@.arcs =~= prepended(was, prefix@).arcs);
    }
}

/// Appends a written output.
fn push_output(out: &mut Vec<u8>, o: &Vec<u8>)
    ensures
        final(out)@ == old(out)@ + output_bytes(o@),
{
    if o.len() > 0 {
        push_varint(out, o.len() as u64);
        push_all(out, o.as_slice());
        assert(out@ =~= old(out)@ + output_bytes(o@));
    } else {
        assert(out@ =~= old(out)@ + output_bytes(o@));
    }
}

/// The flags of an arc.
fn flags_of(is_final: bool, last: bool, next: bool, stop: bool, output: bool, final_output: bool) -> (r: u8)
    ensures
        r == bit(is_final, 1) + bit(last, 2) + bit(next, 4) + bit(stop, 8) + bit(output, 16) + bit(final_output, 32),
{
    let a: u8 = if is_final { BIT_FINAL_ARC } else { 0 };
    let b: u8 = if last { BIT_LAST_ARC } else { 0 };
    let c: u8 = if next { BIT_TARGET_NEXT } else { 0 };
    let d: u8 = if stop { BIT_STOP_NODE } else { 0 };
    let e: u8 = if output { BIT_ARC_HAS_OUTPUT } else { 0 };
    let f: u8 = if final_output { BIT_ARC_HAS_FINAL_OUTPUT } else { 0 };
    a + b + c + d + e + f
}

/// Appends an arc, front to back.
#[verifier::rlimit(30)]
fn push_arc(out: &mut Vec<u8>, arc: &PendingArc, last: bool, prev: usize)
    requires
        arc@.target != -2,
    ensures
        final(out)@ == old(out)@ + arc_bytes(arc@, last, prev as int),
        arc@.output.len() <= u64::MAX,
        arc@.final_output.len() <= u64::MAX,
{
    let ghost a = arc@;
    let (next, stop): (bool, bool) = match arc.target {
        Target::Node(t) => (t == prev, t == 0),
        _ => (false, true),
    };
    let o: usize = arc.output.len();
    let f: usize = arc.final_output.len();
    let flags: u8 = flags_of(arc.is_final, last, next, stop, o > 0, arc.is_final && f > 0);
    assert(flags == arc_flags(a, last, prev as int));
    out.push(flags);
    out.push(arc.label);
    let ghost head = out@;
    assert(head =~= old(out)@ + seq![flags, a.label]);
    push_output(out, &arc.output);
    push_output(out, &arc.final_output);
    let ghost mid = out@;
    if let Target::Node(t) = arc.target {
        if !stop && !next {
            push_varint(out, t as u64);
        }
    }
    proof {
        let tail = if a.target > 0 && a.target != prev { varint_bytes(a.target as nat) } else { Seq::empty() };
        assert(out@ =~= mid + tail);
        let (h, o, f) = (seq![flags, a.label], output_bytes(a.output), output_bytes(a.final_output));
        lemma_concat_assoc(old(out)@, h, o);
        lemma_concat_assoc(old(out)@, h + o, f);
        lemma_concat_assoc(old(out)@, h + o + f, tail);
    }
}

/// Writes a node behind `bytes` and gives its address.
fn compile_node(bytes: &mut Vec<u8>, node: &UnCompiledNode) -> (addr: usize)
    requires
        old(bytes)@.len() >= 1,
        node@.arcs.len() > 0,
        forall|i: int| 0 <= i < node@.arcs.len() ==> (#[trigger] node@.arcs[i]).target != -2,
        forall|i: int| 0 <= i < node@.arcs.len() ==> ((#[trigger] node@.arcs[i]).final_output.len() > 0 ==> node@.arcs[i].is_final),
    ensures
        final(bytes)@ == old(bytes)@ + arcs_bytes(node@.arcs, old(bytes)@.len() - 1, node@.arcs.len() as int).reverse(),
        addr == final(bytes)@.len() - 1,
        forall|i: int| 0 <= i < node@.arcs.len() ==> (#[trigger] node@.arcs[i]).output.len() <= u64::MAX && node@.arcs[i].final_output.len() <= u64::MAX,
{
    let prev: usize = bytes.len() - 1;
    let n: usize = node.arcs.len();
    let ghost arcs = node@.arcs;
    let mut scratch: Vec<u8> = Vec::new();
    let mut i: usize = 0;
    while i < n
        invariant
            i <= n == node.arcs@.len(),
            arcs == node@.arcs,
            arcs.len() == n,
            scratch@ == arcs_bytes(arcs, prev as int, i as int),
            forall|i: int| 0 <= i < arcs.len() ==> (#[trigger] arcs[i]).target != -2,
            forall|i: int| 0 <= i < arcs.len() ==> ((#[trigger] arcs[i]).final_output.len() > 0 ==> arcs[i].is_final),
            forall|j: int| 0 <= j < i ==> (#[trigger] arcs[j]).output.len() <= u64::MAX && arcs[j].final_output.len() <= u64::MAX,
        decreases n - i,
    {
        let arc = &node.arcs[i];
        let ghost a = arcs[i as int];
        assert(a == arc@);
        let ghost before = scratch@;
        let last: bool = i + 1 == n;
        push_arc(&mut scratch, arc, last, prev);
        assert(scratch@ == before + arc_bytes(a, last, prev as int));
        i = i + 1;
    }
    let ghost base = bytes@;
    let m: usize = scratch.len();
    let mut j: usize = m;
    assert(scratch@.subrange(m as int, m as int).reverse() =~= Seq::<u8>::empty());
    assert(base + Seq::<u8>::empty() =~= base);
    while j > 0
        invariant
            j <= m == scratch@.len(),
            bytes@ == base + scratch@.subrange(j as int, m as int).reverse(),
        decreases j,
    {
        j = j - 1;
        bytes.push(scratch[j]);
        assert(bytes@ =~= base + scratch@.subrange(j as int, m as int).reverse());
    }
    assert(scratch@.subrange(0, m as int) =~= scratch@);
    bytes.len() - 1
}

/// Builds a transducer from inputs in ascending byte order.
pub struct FstCompiler {
    frontier: Vec<UnCompiledNode>,
    last_input: Vec<u8>,
    bytes: Vec<u8>,
    empty_output: Option<Vec<u8>>,
    entries: Ghost<Seq<(Seq<u8>, Seq<u8>)>>,
    addresses: Ghost<Set<int>>,
}

/// Every non-empty entry is found from the unwritten root, and nothing else.
spec fn finds(nodes: Seq<NodeView>, bytes: Seq<u8>, entries: Seq<(Seq<u8>, Seq<u8>)>) -> bool {
    forall|s: Seq<u8>| s.len() > 0 ==> #[trigger] look(nodes, bytes, 0, s) == Ok::<Option<Seq<u8>>, ErrorKind>(entry_output(entries, s))
}

impl FstCompiler {
    /// The entries added so far.
    pub closed spec fn entries(&self) -> Seq<(Seq<u8>, Seq<u8>)> {
        self.entries@
    }

    /// What holds while only the nodes along `path` are unwritten.
    spec fn along(&self, path: Seq<u8>) -> bool {
        &&& self.bytes@.len() >= 1
        &&& self.bytes@[0] == 0
        &&& pending(nodes_view(self.frontier@), self.addresses@, path)
        &&& self.bytes@.len() <= i64::MAX ==> image_ok(self.bytes@, self.addresses@) && finds(nodes_view(self.frontier@), self.bytes@, self.entries@)
    }

    /// The unwritten nodes and the image.
    spec fn build(&self) -> Build {
        (nodes_view(self.frontier@), self.bytes@)
    }

    /// The compiler is in order.
    pub closed spec fn wf(&self) -> bool {
        &&& self.along(self.last_input@)
        &&& self.build() == build_of(self.entries@)
        &&& inputs_ascend(self.entries@)
        &&& self.last_input@.len() == 0 ==> self.bytes@ == seq![0u8]
        &&& nodes_view(self.frontier@)[self.last_input@.len() as int].arcs.len() == 0
        &&& self.entries@.len() == 0 ==> self.last_input@.len() == 0
        &&& self.entries@.len() > 0 ==> self.last_input@ == self.entries@.last().0
        &&& match self.empty_output {
            Some(v) => entry_output(self.entries@, Seq::empty()) == Some(v@),
            None => entry_output(self.entries@, Seq::empty()) is None,
        }
    }

    pub fn new() -> (c: FstCompiler)
        ensures
            c.wf(),
            c.entries() == Seq::<(Seq<u8>, Seq<u8>)>::empty(),
    {
        let mut frontier: Vec<UnCompiledNode> = Vec::new();
        frontier.push(UnCompiledNode::blank());
        let mut bytes: Vec<u8> = Vec::new();
        bytes.push(0);
        let c = FstCompiler {
            frontier,
            last_input: Vec::new(),
            bytes,
            empty_output: None,
            entries: Ghost(Seq::empty()),
            addresses: Ghost(Set::empty()),
        };
        proof {
            let nodes = nodes_view(c.frontier@);
            assert(nodes[0] == blank_node());
            assert(nodes =~= seq![blank_node()]);
            assert(c.bytes@ =~= seq![0u8]);
            assert forall|s: Seq<u8>| s.len() > 0 implies #[trigger] look(nodes, c.bytes@, 0, s) == Ok::<Option<Seq<u8>>, ErrorKind>(entry_output(c.entries@, s)) by {
                assert(find_arc_from(nodes[0].arcs, s[0], 0) is None);
            }
        }
        c
    }

    /// Writes the unwritten nodes below the first `down_to` bytes of the last
    /// input.
    fn freeze_tail(&mut self, down_to: usize)
        requires
            old(self).along(old(self).last_input@),
            down_to <= old(self).last_input@.len(),
        ensures
            final(self).along(old(self).last_input@.take(down_to as int)),
            final(self).last_input == old(self).last_input,
            final(self).empty_output == old(self).empty_output,
            final(self).entries == old(self).entries,
            final(self).frontier@.len() == old(self).frontier@.len(),
            down_to < old(self).last_input@.len() ==> nodes_view(final(self).frontier@)[down_to as int].arcs.len() > 0
                && nodes_view(final(self).frontier@)[down_to as int].arcs.last().label == old(self).last_input@[down_to as int],
            down_to == old(self).last_input@.len() ==> final(self).frontier@ == old(self).frontier@,
            final(self).build() == written_down_to(old(self).build(), old(self).last_input@.len() as int, down_to as int),
    {
        let ghost input = self.last_input@;
        let mut d: usize = self.last_input.len();
        assert(input.take(d as int) =~= input);
        while d > down_to
            invariant
                down_to <= d <= input.len(),
                self.last_input@ == input,
                self.last_input == old(self).last_input,
                self.empty_output == old(self).empty_output,
                self.entries == old(self).entries,
                self.frontier@.len() == old(self).frontier@.len(),
                self.along(input.take(d as int)),
                d < input.len() ==> nodes_view(self.frontier@)[d as int].arcs.len() > 0 && nodes_view(self.frontier@)[d as int].arcs.last().label == input[d as int],
                d == input.len() ==> self.frontier@ == old(self).frontier@,
                written_down_to(self.build(), d as int, down_to as int) == written_down_to(old(self).build(), input.len() as int, down_to as int),
            decreases d,
        {
            let ghost build0 = self.build();
            let ghost path = input.take(d as int);
            let ghost nodes = nodes_view(self.frontier@);
            let ghost (bytes0, addrs0) = (self.bytes@, self.addresses@);
            let mut node = UnCompiledNode::blank();
            core::mem::swap(&mut self.frontier[d], &mut node);
            assert(node@ == nodes[d as int]);
            let ghost view = node@;
            let target: Target;
            let ghost t: int;
            proof {
                assert(nodes[d as int].output.len() > 0 ==> nodes[d as int].is_final);
                assert forall|i: int| 0 <= i < view.arcs.len() implies (#[trigger] view.arcs[i]).target != -2 && (view.arcs[i].final_output.len() > 0 ==> view.arcs[i].is_final) by {
                    assert(arc_written(nodes[d as int].arcs[i], addrs0));
                }
            }
            if node.arcs.len() == 0 {
                target = Target::End;
                proof {
                    t = -1;
                }
            } else {
                let addr: usize = compile_node(&mut self.bytes, &node);
                target = Target::Node(addr);
                proof {
                    t = addr as int;
                    lemma_arcs_bytes_len(view.arcs, bytes0.len() - 1, view.arcs.len() as int);
                    self.addresses@ = addrs0.insert(t);
                }
            }
            let is_final: bool = node.is_final || node.arcs.len() == 0;
            proof {
                assert(nodes[d - 1].arcs.len() > 0);
                assert(nodes_view(self.frontier@)[d - 1] == nodes[d - 1]);
            }
            self.frontier[d - 1].replace_last(target, node.output, is_final);
            proof {
                let now = nodes_view(self.frontier@);
                assert(now =~= frozen(nodes, d as int, t)) by {
                    assert forall|k: int| 0 <= k < now.len() implies now[k] == frozen(nodes, d as int, t)[k] by {
                    }
                }
                assert(self.build() == written(build0, d as int));
                let short = path.drop_last();
                assert(short =~= input.take(d - 1));
                lemma_frozen_pending(nodes, addrs0, self.addresses@, path, t);
                assert(now[d - 1].arcs.last().label == path[d - 1]);
                if self.bytes@.len() <= i64::MAX {
                    let more = arcs_bytes(view.arcs, bytes0.len() - 1, view.arcs.len() as int).reverse();
                    if view.arcs.len() == 0 {
                        assert(bytes0 + Seq::<u8>::empty() =~= bytes0);
                        assert forall|s: Seq<u8>| s.len() > 0 implies #[trigger] look(now, self.bytes@, 0, s) == Ok::<Option<Seq<u8>>, ErrorKind>(entry_output(self.entries@, s)) by {
                            assert(look(nodes, bytes0, 0, s) == Ok::<Option<Seq<u8>>, ErrorKind>(entry_output(self.entries@, s)));
                            lemma_frozen_look(nodes, bytes0, Seq::empty(), addrs0, path, t, s);
                        }
                    } else {
                        assert forall|i: int| 0 <= i < view.arcs.len() implies arc_written(#[trigger] view.arcs[i], addrs0) && view.arcs[i].output.len() <= u64::MAX && view.arcs[i].final_output.len() <= u64::MAX by {
                            assert(arc_written(nodes[d as int].arcs[i], addrs0));
                        }
                        lemma_image_grows(bytes0, addrs0, view.arcs);
                        assert(self.bytes@ == bytes0 + more);
                        assert forall|s: Seq<u8>| s.len() > 0 implies #[trigger] look(now, self.bytes@, 0, s) == Ok::<Option<Seq<u8>>, ErrorKind>(entry_output(self.entries@, s)) by {
                            assert(look(nodes, bytes0, 0, s) == Ok::<Option<Seq<u8>>, ErrorKind>(entry_output(self.entries@, s)));
                            lemma_frozen_look(nodes, bytes0, more, addrs0, path, t, s);
                        }
                    }
                }
            }
            d = d - 1;
        }
    }

    /// Moves as little as needed of the outputs along the first `n` bytes of
    /// `input` further down, so that they agree with `output`; gives what is
    /// left of `output`.
    fn push_outputs(&mut self, input: &[u8], n: usize, output: Vec<u8>) -> (rest: Vec<u8>)
        requires
            n <= input@.len(),
            old(self).along(input@.take(n as int)),
        ensures
            final(self).along(input@.take(n as int)),
            final(self).last_input == old(self).last_input,
            final(self).empty_output == old(self).empty_output,
            final(self).entries == old(self).entries,
            final(self).frontier@.len() == old(self).frontier@.len(),
            nodes_view(final(self).frontier@)[n as int].arcs.map_values(|a: ArcView| a.label) == nodes_view(old(self).frontier@)[n as int].arcs.map_values(|a: ArcView| a.label),
            path_output(nodes_view(final(self).frontier@), n as int) + rest@ == output@,
            final(self).bytes == old(self).bytes,
            (nodes_view(final(self).frontier@), rest@) == shared_out(nodes_view(old(self).frontier@), output@, 0, n as int),
    {
        let ghost path = input@.take(n as int);
        let ghost out0 = output@;
        let mut rest = output;
        let mut k: usize = 0;
        assert(Seq::<u8>::empty() + out0 =~= out0);
        while k < n
            invariant
                k <= n <= input@.len(),
                path == input@.take(n as int),
                self.along(path),
                self.last_input == old(self).last_input,
                self.empty_output == old(self).empty_output,
                self.entries == old(self).entries,
                self.frontier@.len() == old(self).frontier@.len(),
                nodes_view(self.frontier@)[n as int].arcs.map_values(|a: ArcView| a.label) == nodes_view(old(self).frontier@)[n as int].arcs.map_values(|a: ArcView| a.label),
                path_output(nodes_view(self.frontier@), k as int) + rest@ == out0,
                self.bytes == old(self).bytes,
                shared_out(nodes_view(self.frontier@), rest@, k as int, n as int) == shared_out(nodes_view(old(self).frontier@), out0, 0, n as int),
            decreases n - k,
        {
            let ghost nodes = nodes_view(self.frontier@);
            assert(nodes[k as int].arcs.len() > 0);
            assert(self.frontier@[k as int]@ == nodes[k as int]);
            let m: usize = self.frontier[k].arcs.len() - 1;
            let ghost all = nodes[k as int].arcs.last().output;
            assert(self.frontier@[k as int].arcs@[m as int]@ == nodes[k as int].arcs.last());
            let c: usize = bytes_difference(rest.as_slice(), self.frontier[k].arcs[m].output.as_slice());
            proof {
                lemma_common_prefix(rest@, all);
            }
            let w = copy_range(self.frontier[k].arcs[m].output.as_slice(), c, self.frontier[k].arcs[m].output.len());
            let kept = copy_range(self.frontier[k].arcs[m].output.as_slice(), 0, c);
            let ghost (cv, wv) = (kept@, w@);
            self.frontier[k].arcs[m].output = kept;
            proof {
                let mid = nodes_view(self.frontier@);
                assert(mid[k as int].arcs =~= last_output(nodes[k as int], cv).arcs);
                assert(mid[k + 1] == nodes[k + 1]);
            }
            self.frontier[k + 1].prepend_output(w.as_slice());
            let ghost rest0 = rest@;
            rest = copy_range(rest.as_slice(), c, rest.len());
            proof {
                let now = nodes_view(self.frontier@);
                assert(now =~= moved(nodes, k + 1, cv, wv)) by {
                    assert forall|j: int| 0 <= j < now.len() implies now[j] == moved(nodes, k + 1, cv, wv)[j] by {
                    }
                }
                assert(all =~= cv + wv);
                assert(cv =~= all.take(c as int));
                assert(wv =~= all.skip(c as int));
                assert(rest@ =~= rest0.skip(c as int));
                lemma_moved_pending(nodes, self.addresses@, path, k + 1, cv, wv);
                if self.bytes@.len() <= i64::MAX {
                    assert forall|s: Seq<u8>| s.len() > 0 implies #[trigger] look(now, self.bytes@, 0, s) == Ok::<Option<Seq<u8>>, ErrorKind>(entry_output(self.entries@, s)) by {
                        assert(look(nodes, self.bytes@, 0, s) == Ok::<Option<Seq<u8>>, ErrorKind>(entry_output(self.entries@, s)));
                        lemma_moved_look(nodes, self.bytes@, self.addresses@, path, k + 1, cv, wv, s);
                    }
                }
                lemma_path_output_same(nodes, now, k as int);
                assert(now[k as int].arcs.last().output == cv);
                assert(rest0 =~= cv + rest@);
                let head = path_output(nodes, k as int);
                assert(head + cv + rest@ =~= head + rest0);
                assert(now[n as int].arcs.map_values(|a: ArcView| a.label) =~= nodes[n as int].arcs.map_values(|a: ArcView| a.label));
            }
            k = k + 1;
        }
        rest
    }

    /// The inputs so far ascend.
    pub proof fn law_inputs_ascend(&self)
        requires
            self.wf(),
        ensures
            inputs_ascend(self.entries()),
    {
    }

    /// Adds the next input with its output; no output is an empty one. Inputs
    /// come in strictly ascending byte order.
    #[verifier::spinoff_prover]
    pub fn add(&mut self, input: &[u8], output: Option<&[u8]>)
        requires
            old(self).wf(),
            old(self).entries().len() > 0 ==> lex_less(old(self).entries().last().0, input@),
        ensures
            final(self).wf(),
            final(self).entries() == old(self).entries().push((input@, match output { Some(o) => o@, None => Seq::empty() })),
    {
        let out: Vec<u8> = match output {
            Some(o) => slice_to_vec(o),
            None => Vec::new(),
        };
        let ghost (iv, ov) = (input@, out@);
        assert(ov =~= match output { Some(o) => o@, None => Seq::empty() });
        let ghost entries0 = self.entries@;
        let ghost entry = (iv, ov);
        let ghost (nodes0, bytes0) = (nodes_view(self.frontier@), self.bytes@);
        proof {
            lemma_build_of(entries0, entry);
        }
        if input.len() == 0 {
            proof {
                if entries0.len() > 0 {
                    lemma_common_prefix(entries0.last().0, iv);
                    assert(false);
                }
            }
            let ghost nodes = nodes_view(self.frontier@);
            self.frontier[0].is_final = true;
            self.empty_output = Some(out);
            proof {
                self.entries@ = entries0.push(entry);
                let now = nodes_view(self.frontier@);
                assert(now[0].arcs =~= nodes[0].arcs);
                assert(now =~= nodes0.update(0, NodeView { is_final: true, ..nodes0[0] }));
                assert forall|k: int| 1 <= k < now.len() implies #[trigger] now[k] == nodes[k] by {
                }
                assert(self.entries@.drop_last() =~= entries0);
                assert(iv =~= Seq::<u8>::empty());
                assert(pending(now, self.addresses@, self.last_input@));
                assert forall|s: Seq<u8>| s.len() > 0 implies #[trigger] look(now, self.bytes@, 0, s) == Ok::<Option<Seq<u8>>, ErrorKind>(entry_output(self.entries@, s)) by {
                    assert(now[0].arcs =~= Seq::<ArcView>::empty());
                    assert(find_arc_from(now[0].arcs, s[0], 0) is None);
                    assert(entry_output(entries0, s) is None);
                }
                assert(self.last_input@ =~= iv);
            }
            return;
        }
        let n: usize = bytes_difference(self.last_input.as_slice(), input);
        let ghost last = self.last_input@;
        proof {
            lemma_common_prefix(last, iv);
            assert(n < iv.len()) by {
                if entries0.len() > 0 {
                    assert(lex_less(last, iv));
                }
            }
            assert(n < last.len() ==> last[n as int] < iv[n as int]);
            assert(last.take(n as int) =~= iv.take(n as int));
        }
        while self.frontier.len() <= input.len()
            invariant
                self.along(last),
                self.last_input@ == last,
                self.last_input == old(self).last_input,
                self.empty_output == old(self).empty_output,
                self.entries@ == entries0,
                nodes_view(self.frontier@)[last.len() as int].arcs.len() == 0,
                self.bytes@ == bytes0,
                nodes0.len() <= self.frontier@.len(),
                self.frontier@.len() == nodes0.len() || self.frontier@.len() <= input@.len() + 1,
                nodes_view(self.frontier@) == widened(nodes0, self.frontier@.len()),
            decreases input.len() + 1 - self.frontier.len(),
        {
            let ghost nodes = nodes_view(self.frontier@);
            self.frontier.push(UnCompiledNode::blank());
            proof {
                let now = nodes_view(self.frontier@);
                assert(now =~= nodes.push(blank_node()));
                assert(now =~= widened(nodes0, self.frontier@.len()));
                assert forall|k: int| 0 <= k < nodes.len() implies #[trigger] now[k] == nodes[k] by {
                }
                assert(pending(now, self.addresses@, last)) by {
                    assert forall|k: int, i: int| 0 <= k <= last.len() && 0 <= i < now[k].arcs.len() && !(k < last.len() && i == now[k].arcs.len() - 1) implies arc_written(#[trigger] now[k].arcs[i], self.addresses@) by {
                        assert(arc_written(nodes[k].arcs[i], self.addresses@));
                    }
                    assert forall|k: int| 0 <= k < now.len() implies labels_ascend(#[trigger] now[k].arcs) by {
                        if k < nodes.len() {
                            assert(labels_ascend(nodes[k].arcs));
                        }
                    }
                }
                if self.bytes@.len() <= i64::MAX {
                    assert forall|s: Seq<u8>| s.len() > 0 implies #[trigger] look(now, self.bytes@, 0, s) == Ok::<Option<Seq<u8>>, ErrorKind>(entry_output(self.entries@, s)) by {
                        assert(look(nodes, self.bytes@, 0, s) == Ok::<Option<Seq<u8>>, ErrorKind>(entry_output(self.entries@, s)));
                        lemma_look_pushed(nodes, self.bytes@, self.addresses@, last, 0, s);
                    }
                }
            }
        }
        assert(nodes_view(self.frontier@) =~= widened(nodes0, iv.len() + 1));
        self.freeze_tail(n);
        let ghost kept = self.build();
        assert(kept == written_down_to((widened(nodes0, iv.len() + 1), bytes0), last.len() as int, n as int));
        let ghost after_freeze = nodes_view(self.frontier@);
        assert(self.along(iv.take(n as int)));
        let rest = self.push_outputs(input, n, out);
        let ghost nodes = nodes_view(self.frontier@);
        proof {
            assert(pending(nodes, self.addresses@, iv.take(n as int)));
            assert forall|i: int| 0 <= i < nodes[n as int].arcs.len() implies (#[trigger] nodes[n as int].arcs[i]).label < iv[n as int] by {
                let (x, y) = (nodes[n as int].arcs, after_freeze[n as int].arcs);
                let (xl, yl) = (x.map_values(|a: ArcView| a.label), y.map_values(|a: ArcView| a.label));
                assert(xl.len() == yl.len());
                assert(xl[i] == yl[i]);
                if n < last.len() {
                    assert(labels_ascend(nodes[n as int].arcs));
                    let m = x.len() - 1;
                    assert(xl[m] == yl[m]);
                    if i < m {
                        assert(x[i].label < x[m].label);
                    }
                } else {
                    assert(after_freeze[n as int].arcs.len() == 0);
                }
            }
            assert(ready(nodes, self.addresses@, iv, n as int));
        }
        let ghost rv = rest@;
        let ghost want = grown(nodes, iv, n as int, rv);
        self.frontier[n].add_arc(input[n], rest);
        let mut k: usize = n + 1;
        while k < input.len()
            invariant
                n < k <= input@.len(),
                iv == input@,
                nodes.len() == self.frontier@.len(),
                iv.len() < nodes.len(),
                want == grown(nodes, iv, n as int, rv),
                pending(nodes, self.addresses@, iv.take(n as int)),
                self.last_input@ == last,
                self.empty_output == old(self).empty_output,
                self.entries@ == entries0,
                self.bytes@.len() >= 1,
                self.bytes@ == kept.1,
                self.bytes@.len() <= i64::MAX ==> image_ok(self.bytes@, self.addresses@) && finds(nodes, self.bytes@, entries0),
                forall|j: int| 0 <= j < k ==> (#[trigger] nodes_view(self.frontier@)[j]) == want[j],
                forall|j: int| k <= j < nodes.len() ==> (#[trigger] nodes_view(self.frontier@)[j]) == nodes[j],
            decreases input@.len() - k,
        {
            let ghost mid = nodes_view(self.frontier@);
            assert(mid[k as int] == nodes[k as int]);
            assert(nodes[k as int] == blank_node());
            assert(self.frontier@[k as int]@ == mid[k as int]);
            self.frontier[k].add_arc(input[k], Vec::new());
            proof {
                let now = nodes_view(self.frontier@);
                assert(now[k as int].arcs =~= want[k as int].arcs);
                assert forall|j: int| 0 <= j < now.len() && j != k implies #[trigger] now[j] == mid[j] by {
                }
            }
            k = k + 1;
        }
        let end: usize = input.len();
        let ghost mid = nodes_view(self.frontier@);
        assert(mid[end as int] == nodes[end as int]);
        assert(nodes[end as int] == blank_node());
        assert(self.frontier@[end as int]@ == mid[end as int]);
        self.frontier[end].is_final = true;
        self.last_input = slice_to_vec(input);
        proof {
            self.entries@ = entries0.push(entry);
            let now = nodes_view(self.frontier@);
            assert(now =~= want) by {
                assert forall|j: int| 0 <= j < now.len() implies now[j] == want[j] by {
                    if j == end {
                        assert(now[j].arcs =~= want[j].arcs);
                        assert(now[j].output =~= want[j].output);
                    } else {
                        assert(now[j] == mid[j]);
                    }
                }
            }
            assert(self.build() == entered((nodes0, bytes0), last, entry));
            lemma_grown_pending(nodes, self.addresses@, iv, n as int, rv);
            assert(self.entries@.drop_last() =~= entries0);
            assert(iv != Seq::<u8>::empty());
            if self.bytes@.len() <= i64::MAX {
                assert forall|s: Seq<u8>| s.len() > 0 implies #[trigger] look(now, self.bytes@, 0, s) == Ok::<Option<Seq<u8>>, ErrorKind>(entry_output(self.entries@, s)) by {
                    assert(look(nodes, self.bytes@, 0, s) == Ok::<Option<Seq<u8>>, ErrorKind>(entry_output(entries0, s)));
                    lemma_grown_look(nodes, self.bytes@, self.addresses@, iv, n as int, rv, 0, s);
                    assert(iv.skip(0) =~= iv);
                    if s == iv {
                        let x = look(now, self.bytes@, 0, s)->Ok_0->Some_0;
                        assert(path_output(nodes, 0) + x =~= x);
                    }
                }
            }
        }
    }

    /// Writes what is left and gives the transducer. It maps each input to its
    /// output and accepts nothing else. Where an input is not empty, its root
    /// is the last node; otherwise no node is written.
    pub fn finish(self) -> (r: Fst)
        requires
            self.wf(),
        ensures
            r.wf(),
            r.image() == fst_image(self.entries()),
            r.start() == fst_start(self.entries()),
            r.empty() == entry_output(self.entries(), Seq::empty()),
            r.image()[0] == 0,
            some_input(self.entries()) ==> 0 < r.start() == r.image().len() - 1,
            !some_input(self.entries()) ==> r.start() == 0 && r.image() == seq![0u8],
            forall|s: Seq<u8>| #[trigger] fst_output(r.image(), r.start(), r.empty(), s) == Ok::<Option<Seq<u8>>, ErrorKind>(entry_output(self.entries(), s)),
    {
        let mut c = self;
        let ghost entries = c.entries@;
        proof {
            lemma_some_input(entries);
        }
        c.freeze_tail(0);
        assert(c.build() == rooted(entries));
        let ghost nodes = nodes_view(c.frontier@);
        let ghost (bytes0, addrs) = (c.bytes@, c.addresses@);
        let mut root = UnCompiledNode::blank();
        core::mem::swap(&mut c.frontier[0], &mut root);
        let ghost view = root@;
        assert(view == nodes[0]);
        let mut start: u64 = 0;
        proof {
            assert(c.last_input@.take(0) =~= Seq::<u8>::empty());
            assert forall|i: int| 0 <= i < view.arcs.len() implies arc_written(#[trigger] view.arcs[i], addrs) by {
                assert(arc_written(nodes[0].arcs[i], addrs));
            }
        }
        if root.arcs.len() > 0 {
            let addr: usize = compile_node(&mut c.bytes, &root);
            start = addr as u64;
        }
        proof {
            if c.bytes@.len() <= i64::MAX {
                assert forall|s: Seq<u8>| s.len() > 0 implies #[trigger] node_output(c.bytes@, start as int, s) == Ok::<Option<Seq<u8>>, ErrorKind>(entry_output(entries, s)) by {
                    assert(look(nodes, bytes0, 0, s) == Ok::<Option<Seq<u8>>, ErrorKind>(entry_output(entries, s)));
                    if view.arcs.len() > 0 {
                        lemma_image_grows(bytes0, addrs, view.arcs);
                        let more = arcs_bytes(view.arcs, bytes0.len() - 1, view.arcs.len() as int).reverse();
                        assert(labels_ascend(nodes[0].arcs));
                        lemma_find(view.arcs, s[0], 0);
                        match find_arc_from(view.arcs, s[0], 0) {
                            Some(b) => {
                                let j = choose|j: int| 0 <= j < view.arcs.len() && #[trigger] view.arcs[j] == b;
                                assert(arc_written(view.arcs[j], addrs));
                                if s.len() > 1 {
                                    lemma_output_extend(bytes0, more, addrs, b.target, s.skip(1));
                                }
                            },
                            None => {},
                        }
                    } else {
                        assert(nodes[0].arcs =~= Seq::<ArcView>::empty());
                    }
                }
            }
            if view.arcs.len() > 0 {
                lemma_arcs_bytes_len(view.arcs, bytes0.len() - 1, view.arcs.len() as int);
            }
            assert(c.bytes@ =~= fst_image(entries));
        }
        let _capacity: usize = std_capacity(&c.bytes);
        let num_bytes: u64 = c.bytes.len() as u64;
        let r = Fst { bytes: c.bytes, start_node: start, num_bytes, empty_output: c.empty_output };
        proof {
            assert forall|s: Seq<u8>| #[trigger] fst_output(r.image(), r.start(), r.empty(), s) == Ok::<Option<Seq<u8>>, ErrorKind>(entry_output(entries, s)) by {
                if s.len() == 0 {
                    assert(s =~= Seq::<u8>::empty());
                } else {
                    assert(node_output(c.bytes@, start as int, s) == Ok::<Option<Seq<u8>>, ErrorKind>(entry_output(entries, s)));
                }
            }
        }
        r
    }
}

/// One more blank node changes nothing.
proof fn lemma_look_pushed(nodes: Seq<NodeView>, bytes: Seq<u8>, addrs: Set<int>, path: Seq<u8>, k: int, s: Seq<u8>)
    requires
        pending(nodes, addrs, path),
        0 <= k <= path.len(),
    ensures
        look(nodes.push(blank_node()), bytes, k, s) == look(nodes, bytes, k, s),
    decreases s.len(),
{
    let now = nodes.push(blank_node());
    assert(now[k] == nodes[k]);
    if s.len() > 0 {
        let arcs = nodes[k].arcs;
        assert(labels_ascend(nodes[k].arcs));
        lemma_find(arcs, s[0], 0);
        match find_arc_from(arcs, s[0], 0) {
            Some(a) => {
                let i = choose|i: int| 0 <= i < arcs.len() && #[trigger] arcs[i] == a;
                if k < path.len() && i == arcs.len() - 1 {
                    lemma_look_pushed(nodes, bytes, addrs, path, k + 1, s.skip(1));
                } else {
                    assert(arc_written(nodes[k].arcs[i], addrs));
                }
            },
            None => {},
        }
    }
}

impl Default for FstCompiler {
    fn default() -> (c: Self)
        ensures
            c.wf(),
            c.entries() == Seq::<(Seq<u8>, Seq<u8>)>::empty(),
    {
        FstCompiler::new()
    }
}

/// `Vec::capacity` of a vector of bytes: at least its length, and, as no
/// vector takes more than `isize::MAX` bytes, at most the largest long.
#[verifier::external_body]
fn std_capacity(v: &Vec<u8>) -> (r: usize)
    ensures
        v@.len() <= r <= i64::MAX,
{
    v.capacity()
}

/// A transducer: its bytes, and what is needed to read them.
pub struct Fst {
    bytes: Vec<u8>,
    start_node: u64,
    num_bytes: u64,
    empty_output: Option<Vec<u8>>,
}

/// The metadata: a header, the output of the empty input if it is accepted,
/// the input type, the start node and the number of bytes.
pub open spec fn metadata_bytes(start: nat, num: nat, empty: Option<Seq<u8>>) -> Seq<u8> {
    header_bytes(FILE_FORMAT_NAME@, VERSION_CURRENT) + empty_output_bytes(empty) + seq![0u8] + varint_bytes(start) + varint_bytes(num)
}

pub open spec fn empty_output_bytes(empty: Option<Seq<u8>>) -> Seq<u8> {
    match empty {
        Some(o) => {
            let b = varint_bytes(o.len()) + o;
            seq![1u8] + varint_bytes((b.len() % 0x1_0000_0000) as nat) + b.reverse()
        },
        None => seq![0u8],
    }
}

impl Fst {
    pub closed spec fn image(&self) -> Seq<u8> {
        self.bytes@
    }

    pub closed spec fn start(&self) -> u64 {
        self.start_node
    }

    pub closed spec fn empty(&self) -> Option<Seq<u8>> {
        match self.empty_output {
            Some(v) => Some(v@),
            None => None,
        }
    }

    /// The counts agree with the bytes: the root, if there is one, is the last
    /// node.
    pub closed spec fn wf(&self) -> bool {
        &&& self.num_bytes == self.bytes@.len()
        &&& 1 <= self.bytes@.len() <= i64::MAX
        &&& self.start_node == 0 || self.start_node == self.bytes@.len() - 1
    }

    /// The bytes.
    pub fn bytes(&self) -> (r: &[u8])
        ensures
            r@ == self.image(),
    {
        self.bytes.as_slice()
    }

    /// Address of the root; 0 when no non-empty input is accepted.
    pub fn start_node(&self) -> (r: u64)
        ensures
            r == self.start(),
    {
        self.start_node
    }

    /// Number of bytes.
    pub fn num_bytes(&self) -> (r: u64)
        requires
            self.wf(),
        ensures
            r == self.image().len(),
            self.start() == 0 || self.start() == r - 1,
    {
        self.num_bytes
    }

    /// Output of the empty input, if it is accepted.
    pub fn empty_output(&self) -> (r: Option<&[u8]>)
        ensures
            match r {
                Some(v) => self.empty() == Some(v@),
                None => self.empty() is None,
            },
    {
        match &self.empty_output {
            Some(v) => Some(v.as_slice()),
            None => None,
        }
    }

    /// Writes the metadata.
    pub fn write_metadata(&self, out: &mut ChecksumIndexOutput) -> (r: Result<(), Error>)
        requires
            self.wf(),
        ensures
            final(out).since() == old(out).since(),
            r is Ok,
            final(out).written() == old(out).written() + metadata_bytes(self.start() as nat, self.image().len(), self.empty()),
            self.image().len() <= i64::MAX,
            self.start() <= i64::MAX,
    {
        let ghost w0 = out.written();
        write_header(out, FILE_FORMAT_NAME, VERSION_CURRENT)?;
        let ghost w1 = out.written();
        match &self.empty_output {
            Some(o) => {
                out.write_byte(1)?;
                let mut b: Vec<u8> = Vec::new();
                push_varint(&mut b, o.len() as u64);
                push_all(&mut b, o.as_slice());
                assert(b@ =~= varint_bytes(o@.len()) + o@);
                out.write_varint(b.len() as u64 % 0x1_0000_0000)?;
                let rev = reverse_bytes(b.as_slice());
                out.write_bytes(&rev)?;
            },
            None => {
                out.write_byte(0)?;
            },
        }
        assert(out.written() =~= w1 + empty_output_bytes(self.empty()));
        out.write_byte(0)?;
        out.write_vlong(to_i64(self.start_node))?;
        out.write_vlong(to_i64(self.num_bytes))?;
        assert(out.written() =~= w0 + metadata_bytes(self.start() as nat, self.image().len(), self.empty()));
        Ok(())
    }
}

/// `v` back to front.
fn reverse_bytes(v: &[u8]) -> (r: Vec<u8>)
    ensures
        r@ == v@.reverse(),
{
    let mut out: Vec<u8> = Vec::new();
    let n: usize = v.len();
    let mut i: usize = n;
    while i > 0
        invariant
            i <= n == v@.len(),
            out@ == v@.subrange(i as int, n as int).reverse(),
        decreases i,
    {
        i = i - 1;
        out.push(v[i]);
        assert(out@ =~= v@.subrange(i as int, n as int).reverse());
    }
    assert(v@.subrange(0, n as int) =~= v@);
    out
}

/// Metadata that was written is read back. The length of the empty input's
/// output with its own length before it must be an int.
pub proof fn law_metadata_round_trip(s: Seq<u8>, p: int, start: u64, num: u64, empty: Option<Seq<u8>>)
    requires
        holds_at(s, p, metadata_bytes(start as nat, num as nat, empty)),
        start <= i64::MAX,
        num <= i64::MAX,
        empty is Some ==> empty->Some_0.len() <= 0x7FFF_FFFA,
    ensures
        metadata_at(s, p) == Ok::<((u64, u64, Option<Seq<u8>>), int), ErrorKind>(((start, num, empty), p + metadata_bytes(start as nat, num as nat, empty).len())),
{
    let h = header_bytes(FILE_FORMAT_NAME@, VERSION_CURRENT);
    let e = empty_output_bytes(empty);
    let z = seq![0u8];
    let (a, b) = (varint_bytes(start as nat), varint_bytes(num as nat));
    lemma_holds_concat(s, p, h + e + z + a, b);
    lemma_holds_concat(s, p, h + e + z, a);
    lemma_holds_concat(s, p, h + e, z);
    lemma_holds_concat(s, p, h, e);
    reveal_strlit("FST");
    vstd::utf8::is_ascii_chars_encode_utf8(FILE_FORMAT_NAME@);
    law_header_round_trip(s, p, FILE_FORMAT_NAME@, VERSION_CURRENT, crate::fst::VERSION_START, VERSION_CURRENT);
    let q = p + h.len();
    lemma_empty_output(s, q, empty);
    lemma_holds_index(s, q + e.len(), z, 0);
    crate::bytes::law_vlong_round_trip(s, q + e.len() + 1, start as i64);
    crate::bytes::law_vlong_round_trip(s, q + e.len() + 1 + a.len(), num as i64);
}

proof fn lemma_empty_output(s: Seq<u8>, p: int, empty: Option<Seq<u8>>)
    requires
        holds_at(s, p, empty_output_bytes(empty)),
        empty is Some ==> empty->Some_0.len() <= 0x7FFF_FFFA,
    ensures
        empty_output_at(s, p) == Ok::<(Option<Seq<u8>>, int), ErrorKind>((empty, p + empty_output_bytes(empty).len())),
{
    match empty {
        None => {
            lemma_holds_index(s, p, seq![0u8], 0);
        },
        Some(o) => {
            let b = varint_bytes(o.len()) + o;
            lemma2_to64();
            lemma2_to64_rest();
            crate::bytes::lemma_varint_len_max(o.len(), 5);
            let m = seq![1u8];
            let n = varint_bytes(b.len());
            lemma_holds_concat(s, p, m + n, b.reverse());
            lemma_holds_concat(s, p, m, n);
            lemma_holds_index(s, p, m, 0);
            crate::bytes::law_vint_round_trip(s, p + 1, b.len() as i32);
            assert(b.reverse().reverse() =~= b);
            assert(b.subrange(0, b.len() as int) =~= b);
            lemma_holds_concat(b, 0, varint_bytes(o.len()), o);
            crate::bytes::law_vint_round_trip(b, 0, o.len() as i32);
        },
    }
}

/// The next input may be added exactly where it is the empty one and the first,
/// or not empty and behind all inputs so far.
pub proof fn law_next_input(entries: Seq<(Seq<u8>, Seq<u8>)>, input: Seq<u8>)
    requires
        inputs_ascend(entries),
    ensures
        (entries.len() > 0 ==> lex_less(entries.last().0, input)) <==> (input.len() == 0 && entries.len() == 0) || (input.len() > 0 && forall|i: int|
            0 <= i < entries.len() ==> lex_less(#[trigger] entries[i].0, input)),
{
    if entries.len() > 0 {
        let last = entries.len() - 1;
        if lex_less(entries.last().0, input) {
            assert forall|i: int| 0 <= i < entries.len() implies lex_less(#[trigger] entries[i].0, input) by {
                lemma_inputs_below(entries, i, last);
                if i < last {
                    lemma_lex_order(entries[i].0, entries[last].0, input);
                }
            }
        } else {
            assert(!lex_less(entries[last].0, input));
        }
    }
}

proof fn lemma_inputs_below(entries: Seq<(Seq<u8>, Seq<u8>)>, i: int, j: int)
    requires
        inputs_ascend(entries),
        0 <= i <= j < entries.len(),
    ensures
        i < j ==> lex_less(entries[i].0, entries[j].0),
    decreases j - i,
{
    if i < j {
        lemma_inputs_below(entries, i, j - 1);
        assert(lex_less(entries[j - 1].0, entries[j].0));
        if i < j - 1 {
            lemma_lex_order(entries[i].0, entries[j - 1].0, entries[j].0);
        }
    }
}

/// A transducer gives back what was put in: looking an input up in what the
/// compiler made of the entries finds the input's output.
pub proof fn law_entry_found(entries: Seq<(Seq<u8>, Seq<u8>)>, i: int)
    requires
        0 <= i < entries.len(),
        forall|a: int, b: int| 0 <= a < b < entries.len() ==> lex_less(#[trigger] entries[a].0, #[trigger] entries[b].0),
    ensures
        entry_output(entries, entries[i].0) == Some(entries[i].1),
    decreases entries.len(),
{
    if i < entries.len() - 1 {
        let d = entries.drop_last();
        assert(lex_less(entries[i].0, entries[entries.len() - 1].0));
        lemma_lex_order(entries[i].0, entries.last().0, entries[i].0);
        assert forall|a: int, b: int| 0 <= a < b < d.len() implies lex_less(#[trigger] d[a].0, #[trigger] d[b].0) by {
            assert(lex_less(entries[a].0, entries[b].0));
        }
        law_entry_found(d, i);
    }
}

} // verus!
