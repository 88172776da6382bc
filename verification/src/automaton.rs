//! Wildcard patterns over UTF-8 terms, compiled to byte automata.
//!
//! `*` stands for any bytes, `?` for one UTF-8 encoded character, and any
//! other character for itself.

use crate::automaton_laws::{law_states_bounded, lemma_after_len, lemma_not_too_many};
use crate::strings::string_from_utf8;
use vstd::arithmetic::power2::pow2;
use vstd::prelude::*;
use vstd::slice::slice_to_vec;
use vstd::utf8::valid_utf8;

verus! {

/// The state from which nothing is accepted.
pub const DEAD: u32 = 0xFFFF_FFFF;

/// One element of a pattern.
#[derive(Clone, Copy, Debug, PartialEq, Eq, Structural)]
pub enum Symbol {
    /// Any bytes, possibly none.
    Star,
    /// One encoded character.
    Any,
    /// This byte.
    Byte(u8),
}

/// The symbol of a byte of a pattern.
pub open spec fn symbol_of(b: u8) -> Symbol {
    if b == 0x2A {
        Symbol::Star
    } else if b == 0x3F {
        Symbol::Any
    } else {
        Symbol::Byte(b)
    }
}

/// The UTF-8 form of the character that `b` is in Latin-1, as symbols.
pub open spec fn latin1_symbols(b: u8) -> Seq<Symbol> {
    if b < 0x80 {
        seq![symbol_of(b)]
    } else {
        seq![Symbol::Byte((0xC0 + b / 64) as u8), Symbol::Byte((0x80 + b % 64) as u8)]
    }
}

/// The symbols of bytes taken as Latin-1.
pub open spec fn all_latin1_symbols(pattern: Seq<u8>) -> Seq<Symbol>
    decreases pattern.len(),
{
    if pattern.len() == 0 {
        Seq::empty()
    } else {
        all_latin1_symbols(pattern.drop_last()) + latin1_symbols(pattern.last())
    }
}

/// The symbols of a pattern: byte by byte if it is well-formed UTF-8, else
/// its bytes are taken as Latin-1 characters.
pub open spec fn symbols(pattern: Seq<u8>) -> Seq<Symbol> {
    if valid_utf8(pattern) {
        pattern.map_values(|b: u8| symbol_of(b))
    } else {
        all_latin1_symbols(pattern)
    }
}

pub open spec fn continuation(b: u8) -> bool {
    0x80 <= b <= 0xBF
}

/// The length of the encoded character that `s` begins with, or 0.
pub open spec fn any_len(s: Seq<u8>) -> int {
    if s.len() >= 1 && s[0] <= 0x7F {
        1
    } else if s.len() >= 2 && 0xC2 <= s[0] <= 0xDF && continuation(s[1]) {
        2
    } else if s.len() >= 3 && 0xE0 <= s[0] <= 0xEF && continuation(s[1]) && continuation(s[2]) {
        3
    } else if s.len() >= 4 && 0xF0 <= s[0] <= 0xF4 && continuation(s[1]) && continuation(s[2]) && continuation(s[3]) {
        4
    } else {
        0
    }
}

/// Whether `s` as a whole matches the symbols `p`.
pub open spec fn matches_symbols(p: Seq<Symbol>, s: Seq<u8>) -> bool
    decreases p.len(), s.len(),
{
    if p.len() == 0 {
        s.len() == 0
    } else {
        let rest = p.drop_first();
        match p[0] {
            Symbol::Star => matches_symbols(rest, s) || (s.len() > 0 && matches_symbols(p, s.skip(1))),
            Symbol::Any => any_len(s) > 0 && matches_symbols(rest, s.skip(any_len(s))),
            Symbol::Byte(b) => s.len() > 0 && s[0] == b && matches_symbols(rest, s.skip(1)),
        }
    }
}

/// Whether the term `s` matches the wildcard pattern.
pub open spec fn wildcard_matches(pattern: Seq<u8>, s: Seq<u8>) -> bool {
    matches_symbols(symbols(pattern), s)
}

// ---------------------------------------------------------------------------
// The nondeterministic automaton
// ---------------------------------------------------------------------------

/// A state of the nondeterministic automaton, by what leads on from it.
#[derive(Clone, Copy, Debug, PartialEq, Eq, Structural)]
pub enum Node {
    /// Any byte leads back here, and nothing leads to the next state.
    Star,
    /// The first byte of a character leads into the six states behind this
    /// one, or past them.
    Any,
    /// A continuation byte leads that many states on.
    Cont(u8),
    /// This byte leads to the next state.
    Byte(u8),
    /// The accepting state.
    End,
}

/// The states of the symbols `p`.
pub open spec fn nodes_of(p: Seq<Symbol>) -> Seq<Node>
    decreases p.len(),
{
    if p.len() == 0 {
        seq![Node::End]
    } else {
        match p[0] {
            Symbol::Star => seq![Node::Star] + nodes_of(p.drop_first()),
            Symbol::Any => any_nodes() + nodes_of(p.drop_first()),
            Symbol::Byte(b) => seq![Node::Byte(b)] + nodes_of(p.drop_first()),
        }
    }
}

/// The states of one `?`: one each for the bytes that may follow a first byte.
pub open spec fn any_nodes() -> Seq<Node> {
    seq![Node::Any, Node::Cont(6), Node::Cont(1), Node::Cont(4), Node::Cont(1), Node::Cont(1), Node::Cont(1)]
}

/// Where byte `b` leads from state `i`.
pub open spec fn target(nodes: Seq<Node>, i: int, b: u8) -> Option<int> {
    match nodes[i] {
        Node::Star => Some(i),
        Node::Any => if b <= 0x7F {
            Some(i + 7)
        } else if 0xC2 <= b <= 0xDF {
            Some(i + 1)
        } else if 0xE0 <= b <= 0xEF {
            Some(i + 2)
        } else if 0xF0 <= b <= 0xF4 {
            Some(i + 4)
        } else {
            None
        },
        Node::Cont(d) => if continuation(b) { Some(i + d) } else { None },
        Node::Byte(c) => if b == c { Some(i + 1) } else { None },
        Node::End => None,
    }
}

/// All states lead upwards and stay inside; only the last one accepts.
pub open spec fn sound_nodes(nodes: Seq<Node>) -> bool {
    &&& nodes.len() >= 1
    &&& forall|i: int| 0 <= i < nodes.len() ==> (#[trigger] nodes[i] == Node::End <==> i == nodes.len() - 1)
    &&& forall|i: int| 0 <= i < nodes.len() ==> match #[trigger] nodes[i] {
        Node::Any => i + 7 < nodes.len(),
        Node::Cont(d) => 0 < d && i + d < nodes.len(),
        _ => true,
    }
}

/// Whether state `q` accepts `s`.
spec fn node_accepts(nodes: Seq<Node>, q: int, s: Seq<u8>) -> bool
    decreases s.len(), nodes.len() - q,
{
    if !(0 <= q < nodes.len()) {
        false
    } else if nodes[q] == Node::End {
        s.len() == 0
    } else if nodes[q] == Node::Star {
        node_accepts(nodes, q + 1, s) || (s.len() > 0 && node_accepts(nodes, q, s.skip(1)))
    } else {
        s.len() > 0 && target(nodes, q, s[0]) is Some && node_accepts(nodes, target(nodes, q, s[0])->Some_0, s.skip(1))
    }
}

proof fn lemma_nodes_sound(p: Seq<Symbol>, base: nat, nodes: Seq<Node>)
    requires
        base <= nodes.len(),
        nodes.skip(base as int) == nodes_of(p),
    ensures
        nodes.len() > base,
        forall|i: int| base <= i < nodes.len() ==> (#[trigger] nodes[i] == Node::End <==> i == nodes.len() - 1),
        forall|i: int| base <= i < nodes.len() ==> match #[trigger] nodes[i] {
            Node::Any => i + 7 < nodes.len(),
            Node::Cont(d) => 0 < d && i + d < nodes.len(),
            _ => true,
        },
    decreases p.len(),
{
    let here = nodes.skip(base as int);
    if p.len() == 0 {
        assert(here =~= seq![Node::End]);
        assert(here.len() == nodes.len() - base);
        assert(here[0] == nodes[base as int]);
    } else {
        let n: nat = if p[0] == Symbol::Any { 7 } else { 1 };
        let head = if p[0] == Symbol::Any { any_nodes() } else if p[0] == Symbol::Star { seq![Node::Star] } else { seq![Node::Byte(p[0]->Byte_0)] };
        let rest = nodes_of(p.drop_first());
        assert(here == head + rest);
        assert(nodes.skip((base + n) as int) =~= rest) by {
            assert forall|i: int| 0 <= i < rest.len() implies nodes.skip((base + n) as int)[i] == rest[i] by {
                assert(here[n + i] == rest[i]);
            }
        }
        lemma_nodes_sound(p.drop_first(), base + n, nodes);
        assert forall|i: int| base <= i < base + n implies #[trigger] nodes[i] == head[i - base] by {
            assert(here[i - base] == head[i - base]);
        }
    }
}

proof fn lemma_skip_skip(s: Seq<u8>, a: int, b: int)
    requires
        0 <= a,
        0 <= b,
        a + b <= s.len(),
    ensures
        s.skip(a).skip(b) == s.skip(a + b),
{
    assert(s.skip(a).skip(b) =~= s.skip(a + b));
}

/// A star takes any number of bytes: the pattern matches when the rest of it
/// matches what is left behind some of them.
pub proof fn law_star_takes_any_bytes(p: Seq<Symbol>, s: Seq<u8>)
    requires
        p.len() > 0,
        p[0] == Symbol::Star,
    ensures
        matches_symbols(p, s) <==> exists|k: int| 0 <= k <= s.len() && #[trigger] matches_symbols(p.drop_first(), s.skip(k)),
    decreases s.len(),
{
    let rest = p.drop_first();
    assert(s.skip(0) =~= s);
    if matches_symbols(rest, s) {
        assert(matches_symbols(rest, s.skip(0)));
    }
    if s.len() > 0 {
        let s1 = s.skip(1);
        law_star_takes_any_bytes(p, s1);
        if matches_symbols(p, s1) {
            let k = choose|k: int| 0 <= k <= s1.len() && #[trigger] matches_symbols(rest, s1.skip(k));
            lemma_skip_skip(s, 1, k);
            assert(matches_symbols(rest, s.skip(k + 1)));
        }
        if exists|k: int| 0 <= k <= s.len() && #[trigger] matches_symbols(rest, s.skip(k)) {
            let k = choose|k: int| 0 <= k <= s.len() && #[trigger] matches_symbols(rest, s.skip(k));
            if k > 0 {
                lemma_skip_skip(s, 1, k - 1);
                assert(matches_symbols(rest, s1.skip(k - 1)));
            }
        }
    }
}

/// The first state of the symbols accepts exactly what they match.
proof fn lemma_nodes_match(p: Seq<Symbol>, base: nat, nodes: Seq<Node>, s: Seq<u8>)
    requires
        base <= nodes.len(),
        nodes.skip(base as int) == nodes_of(p),
    ensures
        node_accepts(nodes, base as int, s) == matches_symbols(p, s),
    decreases p.len(), s.len(),
{
    let here = nodes.skip(base as int);
    lemma_nodes_sound(p, base, nodes);
    if p.len() == 0 {
        assert(here =~= seq![Node::End]);
        assert(here[0] == nodes[base as int]);
    } else {
        let rest = p.drop_first();
        let n: nat = if p[0] == Symbol::Any { 7 } else { 1 };
        let head = if p[0] == Symbol::Any { any_nodes() } else if p[0] == Symbol::Star { seq![Node::Star] } else { seq![Node::Byte(p[0]->Byte_0)] };
        let tail = nodes_of(rest);
        assert(here == head + tail);
        assert(nodes.skip((base + n) as int) =~= tail) by {
            assert forall|i: int| 0 <= i < tail.len() implies nodes.skip((base + n) as int)[i] == tail[i] by {
                assert(here[n + i] == tail[i]);
            }
        }
        lemma_nodes_sound(rest, base + n, nodes);
        assert forall|i: int| base <= i < base + n implies #[trigger] nodes[i] == head[i - base] by {
            assert(here[i - base] == head[i - base]);
        }
        let q = base as int;
        match p[0] {
            Symbol::Star => {
                assert(nodes[q] == Node::Star);
                lemma_nodes_match(rest, base + 1, nodes, s);
                if s.len() > 0 {
                    lemma_nodes_match(p, base, nodes, s.skip(1));
                }
            },
            Symbol::Byte(b) => {
                assert(nodes[q] == Node::Byte(b));
                if s.len() > 0 {
                    lemma_nodes_match(rest, base + 1, nodes, s.skip(1));
                }
            },
            Symbol::Any => {
                assert(nodes[q] == Node::Any);
                assert(nodes[q + 1] == Node::Cont(6));
                assert(nodes[q + 2] == Node::Cont(1));
                assert(nodes[q + 3] == Node::Cont(4));
                assert(nodes[q + 4] == Node::Cont(1));
                assert(nodes[q + 5] == Node::Cont(1));
                assert(nodes[q + 6] == Node::Cont(1));
                lemma_any_nodes(nodes, q, s);
                if any_len(s) > 0 {
                    lemma_nodes_match(rest, base + 7, nodes, s.skip(any_len(s)));
                }
            },
        }
    }
}

/// The states of one `?` read one character.
proof fn lemma_any_nodes(nodes: Seq<Node>, q: int, s: Seq<u8>)
    requires
        0 <= q,
        q + 7 < nodes.len(),
        nodes[q] == Node::Any,
        nodes[q + 1] == Node::Cont(6),
        nodes[q + 2] == Node::Cont(1),
        nodes[q + 3] == Node::Cont(4),
        nodes[q + 4] == Node::Cont(1),
        nodes[q + 5] == Node::Cont(1),
        nodes[q + 6] == Node::Cont(1),
    ensures
        node_accepts(nodes, q, s) == (any_len(s) > 0 && node_accepts(nodes, q + 7, s.skip(any_len(s)))),
{
    if s.len() > 0 {
        let s1 = s.skip(1);
        let b = s[0];
        if 0xC2 <= b <= 0xDF {
            lemma_cont(nodes, q + 1, q + 7, s1);
            if s.len() >= 2 {
                lemma_skip_skip(s, 1, 1);
            }
        } else if 0xE0 <= b <= 0xEF {
            lemma_cont(nodes, q + 2, q + 3, s1);
            if s.len() >= 2 {
                lemma_skip_skip(s, 1, 1);
                lemma_cont(nodes, q + 3, q + 7, s.skip(2));
                if s.len() >= 3 {
                    lemma_skip_skip(s, 2, 1);
                }
            }
        } else if 0xF0 <= b <= 0xF4 {
            lemma_cont(nodes, q + 4, q + 5, s1);
            if s.len() >= 2 {
                lemma_skip_skip(s, 1, 1);
                lemma_cont(nodes, q + 5, q + 6, s.skip(2));
                if s.len() >= 3 {
                    lemma_skip_skip(s, 2, 1);
                    lemma_cont(nodes, q + 6, q + 7, s.skip(3));
                    if s.len() >= 4 {
                        lemma_skip_skip(s, 3, 1);
                    }
                }
            }
        }
    }
}

proof fn lemma_cont(nodes: Seq<Node>, q: int, j: int, s: Seq<u8>)
    requires
        0 <= q < j < nodes.len(),
        j - q < 256,
        nodes[q] == Node::Cont((j - q) as u8),
    ensures
        node_accepts(nodes, q, s) == (s.len() > 0 && continuation(s[0]) && node_accepts(nodes, j, s.skip(1))),
{
}

/// Every state accepts something.
proof fn lemma_node_accepts_some(nodes: Seq<Node>, q: int) -> (s: Seq<u8>)
    requires
        sound_nodes(nodes),
        0 <= q < nodes.len(),
    ensures
        node_accepts(nodes, q, s),
    decreases nodes.len() - q,
{
    match nodes[q] {
        Node::End => Seq::<u8>::empty(),
        Node::Star => lemma_node_accepts_some(nodes, q + 1),
        Node::Any => {
            let t = lemma_node_accepts_some(nodes, q + 7);
            let s = seq![0u8] + t;
            assert(s.skip(1) =~= t);
            s
        },
        Node::Cont(d) => {
            let t = lemma_node_accepts_some(nodes, q + d);
            let s = seq![0x80u8] + t;
            assert(s.skip(1) =~= t);
            s
        },
        Node::Byte(b) => {
            let t = lemma_node_accepts_some(nodes, q + 1);
            let s = seq![b] + t;
            assert(s.skip(1) =~= t);
            s
        },
    }
}

// ---------------------------------------------------------------------------
// Sets of states
// ---------------------------------------------------------------------------

/// Byte `b` leads from some state of the set to `j`.
pub open spec fn leads_to(nodes: Seq<Node>, set: Seq<bool>, b: u8, j: int) -> bool {
    exists|i: int| 0 <= i < nodes.len() && #[trigger] set[i] && target(nodes, i, b) == Some(j)
}

/// `j` is reached by `b`, or from a star that is.
pub open spec fn in_next(nodes: Seq<Node>, set: Seq<bool>, b: u8, j: int) -> bool
    decreases j,
{
    leads_to(nodes, set, b, j) || (j > 0 && nodes[j - 1] == Node::Star && in_next(nodes, set, b, j - 1))
}

/// The states after `b`.
pub open spec fn next_set(nodes: Seq<Node>, set: Seq<bool>, b: u8) -> Seq<bool> {
    Seq::new(nodes.len(), |j: int| in_next(nodes, set, b, j))
}

/// With a star, the state behind it is in the set too.
spec fn star_closed(nodes: Seq<Node>, set: Seq<bool>) -> bool {
    forall|j: int| 0 <= j < nodes.len() - 1 && #[trigger] set[j] && nodes[j] == Node::Star ==> set[j + 1]
}

pub open spec fn set_empty(set: Seq<bool>) -> bool {
    forall|i: int| 0 <= i < set.len() ==> !#[trigger] set[i]
}

spec fn set_accepts(nodes: Seq<Node>, set: Seq<bool>, s: Seq<u8>) -> bool {
    exists|i: int| 0 <= i < nodes.len() && #[trigger] set[i] && node_accepts(nodes, i, s)
}

/// The states before any byte: the first one, and those behind stars only.
pub open spec fn first_states(nodes: Seq<Node>) -> Seq<bool> {
    Seq::new(nodes.len(), |i: int| forall|j: int| 0 <= j < i ==> #[trigger] nodes[j] == Node::Star)
}

/// The states after the bytes `w`.
pub open spec fn states_after(nodes: Seq<Node>, w: Seq<u8>) -> Seq<bool>
    decreases w.len(),
{
    if w.len() == 0 {
        first_states(nodes)
    } else {
        next_set(nodes, states_after(nodes, w.drop_last()), w.last())
    }
}

/// The words lead to sets of states that differ, none of them empty.
pub open spec fn told_apart(nodes: Seq<Node>, words: Seq<Seq<u8>>) -> bool {
    &&& forall|d: int| 0 <= d < words.len() ==> !set_empty(states_after(nodes, #[trigger] words[d]))
    &&& forall|d: int, e: int| 0 <= d < e < words.len() ==> states_after(nodes, #[trigger] words[d]) != states_after(nodes, #[trigger] words[e])
}

/// There are more sets of states to be reached than states can be numbered.
pub open spec fn too_many_states(nodes: Seq<Node>) -> bool {
    exists|words: Seq<Seq<u8>>| words.len() > DEAD && #[trigger] told_apart(nodes, words)
}

/// Every word but the first, which is empty, is an earlier one and a byte more.
pub open spec fn words_grow(words: Seq<Seq<u8>>) -> bool {
    &&& words.len() > 0
    &&& words[0] == Seq::<u8>::empty()
    &&& forall|d: int| 1 <= d < words.len() ==> (#[trigger] words[d]).len() > 0 && grows_from(words, d)
}

pub open spec fn grows_from(words: Seq<Seq<u8>>, d: int) -> bool {
    exists|e: int| 0 <= e < d && #[trigger] words[e] == words[d].drop_last()
}

/// `t` is where `b` leads from the state of word `d`: dead where no state is
/// reached, else the state whose word reaches the same ones.
pub open spec fn leads_on(nodes: Seq<Node>, words: Seq<Seq<u8>>, d: int, b: u8, t: u32) -> bool {
    let next = states_after(nodes, words[d].push(b));
    if set_empty(next) {
        t == DEAD
    } else {
        t < words.len() && states_after(nodes, words[t as int]) == next
    }
}

/// The table has a state for each of the words, in order, and is the automaton
/// of `nodes`: its states are the sets of `nodes` that can be reached.
pub open spec fn automaton_of(nodes: Seq<Node>, words: Seq<Seq<u8>>, table: Seq<u32>, accept: Seq<bool>) -> bool {
    &&& words.len() == accept.len() <= DEAD
    &&& table.len() == 256 * accept.len()
    &&& words_grow(words)
    &&& told_apart(nodes, words)
    &&& forall|d: int| 0 <= d < accept.len() ==> #[trigger] accept[d] == states_after(nodes, words[d])[nodes.len() - 1]
    &&& forall|d: int, b: u8| 0 <= d < accept.len() ==> #[trigger] leads_on(nodes, words, d, b, table[256 * d + b])
}

proof fn lemma_next_closed(nodes: Seq<Node>, set: Seq<bool>, b: u8)
    ensures
        star_closed(nodes, next_set(nodes, set, b)),
{
    let nx = next_set(nodes, set, b);
    assert forall|j: int| 0 <= j < nodes.len() - 1 && #[trigger] nx[j] && nodes[j] == Node::Star implies nx[j + 1] by {
        assert(in_next(nodes, set, b, j));
        assert(in_next(nodes, set, b, j + 1));
    }
}

/// What a star-closed set accepts of the empty string: whether it holds the
/// accepting state.
proof fn lemma_set_accepts_empty(nodes: Seq<Node>, set: Seq<bool>)
    requires
        sound_nodes(nodes),
        set.len() == nodes.len(),
        star_closed(nodes, set),
    ensures
        set_accepts(nodes, set, Seq::empty()) == set[nodes.len() - 1],
{
    let e = Seq::<u8>::empty();
    if set[nodes.len() - 1] {
        assert(nodes[nodes.len() - 1] == Node::End);
        assert(node_accepts(nodes, nodes.len() - 1, e));
    }
    if set_accepts(nodes, set, e) {
        let i = choose|i: int| 0 <= i < nodes.len() && #[trigger] set[i] && node_accepts(nodes, i, e);
        lemma_star_run(nodes, set, i);
    }
}

proof fn lemma_star_run(nodes: Seq<Node>, set: Seq<bool>, i: int)
    requires
        sound_nodes(nodes),
        set.len() == nodes.len(),
        star_closed(nodes, set),
        0 <= i < nodes.len(),
        set[i],
        node_accepts(nodes, i, Seq::empty()),
    ensures
        set[nodes.len() - 1],
    decreases nodes.len() - i,
{
    if nodes[i] == Node::Star {
        assert(nodes[nodes.len() - 1] == Node::End);
        lemma_star_run(nodes, set, i + 1);
    } else {
        assert(nodes[i] == Node::End);
    }
}

/// A member of the next set was reached by `b` directly, or from a star.
proof fn lemma_next_sound(nodes: Seq<Node>, set: Seq<bool>, b: u8, j: int, s: Seq<u8>)
    requires
        sound_nodes(nodes),
        0 <= j < nodes.len(),
        set.len() == nodes.len(),
        in_next(nodes, set, b, j),
        node_accepts(nodes, j, s),
    ensures
        set_accepts(nodes, set, seq![b] + s),
    decreases j,
{
    let t = seq![b] + s;
    assert(t.skip(1) =~= s);
    if leads_to(nodes, set, b, j) {
        let i = choose|i: int| 0 <= i < nodes.len() && #[trigger] set[i] && target(nodes, i, b) == Some(j);
        assert(node_accepts(nodes, i, t));
        assert(set[i]);
    } else {
        assert(node_accepts(nodes, j - 1, s));
        lemma_next_sound(nodes, set, b, j - 1, s);
    }
}

/// A state of a star-closed set that accepts `b` and then `s` leads to a state
/// of the next set that accepts `s`.
proof fn lemma_next_complete(nodes: Seq<Node>, set: Seq<bool>, i: int, b: u8, s: Seq<u8>)
    requires
        sound_nodes(nodes),
        set.len() == nodes.len(),
        star_closed(nodes, set),
        0 <= i < nodes.len(),
        set[i],
        node_accepts(nodes, i, seq![b] + s),
    ensures
        set_accepts(nodes, next_set(nodes, set, b), s),
    decreases nodes.len() - i,
{
    let t = seq![b] + s;
    assert(t.skip(1) =~= s);
    let nx = next_set(nodes, set, b);
    if nodes[i] == Node::Star && node_accepts(nodes, i + 1, t) {
        assert(nodes[nodes.len() - 1] == Node::End);
        lemma_next_complete(nodes, set, i + 1, b, s);
    } else {
        let j = target(nodes, i, b)->Some_0;
        assert(node_accepts(nodes, j, s));
        assert(0 <= j < nodes.len());
        assert(leads_to(nodes, set, b, j)) by {
            assert(set[i]);
        }
        assert(in_next(nodes, set, b, j));
        assert(nx[j]);
    }
}

proof fn lemma_next_accepts(nodes: Seq<Node>, set: Seq<bool>, b: u8, s: Seq<u8>)
    requires
        sound_nodes(nodes),
        set.len() == nodes.len(),
        star_closed(nodes, set),
    ensures
        set_accepts(nodes, set, seq![b] + s) == set_accepts(nodes, next_set(nodes, set, b), s),
{
    let nx = next_set(nodes, set, b);
    if set_accepts(nodes, set, seq![b] + s) {
        let i = choose|i: int| 0 <= i < nodes.len() && #[trigger] set[i] && node_accepts(nodes, i, seq![b] + s);
        lemma_next_complete(nodes, set, i, b, s);
    }
    if set_accepts(nodes, nx, s) {
        let j = choose|j: int| 0 <= j < nodes.len() && #[trigger] nx[j] && node_accepts(nodes, j, s);
        assert(in_next(nodes, set, b, j));
        lemma_next_sound(nodes, set, b, j, s);
    }
}

/// The least member of a set, from `i` on.
spec fn least(set: Seq<bool>, i: int) -> int
    decreases set.len() - i,
{
    if i >= set.len() || set[i] {
        i
    } else {
        least(set, i + 1)
    }
}

proof fn lemma_least(set: Seq<bool>, i: int)
    requires
        0 <= i <= set.len(),
    ensures
        i <= least(set, i) <= set.len(),
        forall|j: int| i <= j < least(set, i) ==> !#[trigger] set[j],
        least(set, i) < set.len() ==> set[least(set, i)],
    decreases set.len() - i,
{
    if i < set.len() && !set[i] {
        lemma_least(set, i + 1);
    }
}

/// Without a star in the set, every byte leads upwards.
proof fn lemma_next_rises(nodes: Seq<Node>, set: Seq<bool>, b: u8)
    requires
        sound_nodes(nodes),
        set.len() == nodes.len(),
        forall|i: int| 0 <= i < nodes.len() && #[trigger] set[i] ==> nodes[i] != Node::Star,
        !set_empty(next_set(nodes, set, b)),
    ensures
        least(set, 0) < least(next_set(nodes, set, b), 0) < nodes.len(),
{
    let nx = next_set(nodes, set, b);
    lemma_least(set, 0);
    lemma_least(nx, 0);
    let w = choose|i: int| 0 <= i < nx.len() && #[trigger] nx[i];
    let m = least(nx, 0);
    assert(m <= w);
    assert(nx[m]);
    assert(in_next(nodes, set, b, m));
    lemma_next_above(nodes, set, b, m);
}

proof fn lemma_next_above(nodes: Seq<Node>, set: Seq<bool>, b: u8, j: int)
    requires
        sound_nodes(nodes),
        set.len() == nodes.len(),
        forall|i: int| 0 <= i < nodes.len() && #[trigger] set[i] ==> nodes[i] != Node::Star,
        0 <= j < nodes.len(),
        in_next(nodes, set, b, j),
    ensures
        least(set, 0) < j,
    decreases j,
{
    lemma_least(set, 0);
    if leads_to(nodes, set, b, j) {
        let i = choose|i: int| 0 <= i < nodes.len() && #[trigger] set[i] && target(nodes, i, b) == Some(j);
        assert(set[i]);
        assert(nodes[i] != Node::Star);
    } else {
        lemma_next_above(nodes, set, b, j - 1);
    }
}

/// With a star in the set, every byte leads somewhere.
pub(crate) proof fn lemma_star_leads(nodes: Seq<Node>, set: Seq<bool>, i: int, b: u8)
    requires
        set.len() == nodes.len(),
        0 <= i < nodes.len(),
        set[i],
        nodes[i] == Node::Star,
    ensures
        !set_empty(next_set(nodes, set, b)),
{
    assert(leads_to(nodes, set, b, i)) by {
        assert(set[i]);
    }
    assert(in_next(nodes, set, b, i));
    assert(next_set(nodes, set, b)[i]);
}

// ---------------------------------------------------------------------------
// The deterministic automaton
// ---------------------------------------------------------------------------

/// A run of bytes that lead to the same state.
#[derive(Clone, Copy, Debug, PartialEq, Eq)]
pub struct TransitionRange {
    pub min: u8,
    pub max: u8,
    pub dest: u32,
}

/// The first place from `i` on where the row does not hold `dest`.
pub open spec fn run_end(row: Seq<u32>, i: int, dest: u32) -> int
    decreases 256 - i,
{
    if i >= 256 || row[i] != dest {
        i
    } else {
        run_end(row, i + 1, dest)
    }
}

/// The runs of a row of transitions from byte `i` on, without the dead ones.
pub open spec fn row_ranges(row: Seq<u32>, i: int) -> Seq<TransitionRange>
    decreases 256 - i via row_ranges_rises
{
    if i >= 256 {
        Seq::empty()
    } else if row[i] == DEAD {
        row_ranges(row, i + 1)
    } else {
        let e = run_end(row, i, row[i]);
        seq![TransitionRange { min: i as u8, max: (e - 1) as u8, dest: row[i] }] + row_ranges(row, e)
    }
}

#[via_fn]
proof fn row_ranges_rises(row: Seq<u32>, i: int) {
    if i < 256 && row[i] != DEAD {
        lemma_run_end(row, i + 1, row[i]);
    }
}

pub proof fn lemma_run_end(row: Seq<u32>, i: int, dest: u32)
    requires
        i <= 256,
    ensures
        i <= run_end(row, i, dest) <= 256,
        forall|j: int| i <= j < run_end(row, i, dest) ==> #[trigger] row[j] == dest,
        run_end(row, i, dest) < 256 ==> row[run_end(row, i, dest)] != dest,
    decreases 256 - i,
{
    if i < 256 && row[i] == dest {
        lemma_run_end(row, i + 1, dest);
    }
}

/// A table of transitions: state by state, 256 entries each.
pub open spec fn table_row(table: Seq<u32>, state: int) -> Seq<u32> {
    table.subrange(256 * state, 256 * state + 256)
}

/// Whether `s` is accepted from `state`.
pub open spec fn table_accepts(table: Seq<u32>, accept: Seq<bool>, state: int, s: Seq<u8>) -> bool
    decreases s.len(),
{
    if s.len() == 0 {
        accept[state]
    } else {
        let t = table_row(table, state)[s[0] as int];
        t != DEAD && table_accepts(table, accept, t as int, s.skip(1))
    }
}

/// The table is complete and leads nowhere outside.
pub open spec fn sound_table(table: Seq<u32>, accept: Seq<bool>) -> bool {
    &&& 1 <= accept.len() <= DEAD
    &&& table.len() == 256 * accept.len()
    &&& forall|k: int| 0 <= k < table.len() ==> #[trigger] table[k] == DEAD || table[k] < accept.len()
}

/// A single byte leads on from the state whose row is `row`.
pub open spec fn forced(row: Seq<u32>) -> bool {
    let r = row_ranges(row, 0);
    r.len() == 1 && r[0].min == r[0].max
}

/// The states can be ranked so that a forced step always rises.
spec fn ranked(table: Seq<u32>, count: int, rank: Seq<nat>, top: nat) -> bool {
    &&& rank.len() == count
    &&& forall|d: int| 0 <= d < count ==> #[trigger] rank[d] <= top
    &&& forall|d: int| 0 <= d < count && #[trigger] forced(table_row(table, d)) ==> rank[d] < rank[row_ranges(table_row(table, d), 0)[0].dest as int]
}

/// An automaton for a wildcard pattern.
#[derive(Debug, PartialEq, Eq)]
pub struct WildcardDfa {
    transitions: Vec<u32>,
    accept: Vec<bool>,
    ranges: Vec<Vec<TransitionRange>>,
    single: Option<Vec<u8>>,
}

/// What makes the representation one of an automaton.
spec fn sound_dfa(table: Seq<u32>, accept: Seq<bool>, ranges: Seq<Vec<TransitionRange>>, single: Option<Seq<u8>>) -> bool {
    &&& sound_table(table, accept)
    &&& ranges.len() == accept.len()
    &&& forall|d: int| 0 <= d < accept.len() ==> (#[trigger] ranges[d])@ == row_ranges(table_row(table, d), 0)
    &&& exists|rank: Seq<nat>, top: nat| #[trigger] ranked(table, accept.len() as int, rank, top)
    &&& match single {
        Some(w) => only_string(table, accept, w),
        None => forall|w: Seq<u8>| !#[trigger] only_string(table, accept, w),
    }
}

/// `w` is the only string that is accepted.
pub open spec fn only_string(table: Seq<u32>, accept: Seq<bool>, w: Seq<u8>) -> bool {
    forall|s: Seq<u8>| #[trigger] table_accepts(table, accept, 0, s) <==> s == w
}

/// Walking the forced bytes `p` from `from` leads to `to`.
pub open spec fn forced_walk(table: Seq<u32>, from: int, p: Seq<u8>, to: int) -> bool
    decreases p.len(),
{
    if p.len() == 0 {
        from == to
    } else {
        let row = table_row(table, from);
        forced(row) && row_ranges(row, 0)[0].min == p[0] && forced_walk(table, row_ranges(row, 0)[0].dest as int, p.skip(1), to)
    }
}

// ---------------------------------------------------------------------------
// Construction
// ---------------------------------------------------------------------------

fn symbol(b: u8) -> (r: Symbol)
    ensures
        r == symbol_of(b),
{
    if b == 0x2A {
        Symbol::Star
    } else if b == 0x3F {
        Symbol::Any
    } else {
        Symbol::Byte(b)
    }
}

/// The symbols of a pattern.
fn pattern_symbols(pattern: &[u8]) -> (r: Vec<Symbol>)
    ensures
        r@ == symbols(pattern@),
{
    let mut out: Vec<Symbol> = Vec::new();
    let utf8: bool = string_from_utf8(slice_to_vec(pattern)).is_some();
    let ghost p = pattern@;
    let mut i: usize = 0;
    assert(p.take(0) =~= Seq::<u8>::empty());
    while i < pattern.len()
        invariant
            i <= pattern.len(),
            p == pattern@,
            utf8 == valid_utf8(p),
            utf8 ==> out@ == p.take(i as int).map_values(|b: u8| symbol_of(b)),
            !utf8 ==> out@ == all_latin1_symbols(p.take(i as int)),
        decreases pattern.len() - i,
    {
        let b: u8 = pattern[i];
        let ghost before = out@;
        if utf8 || b < 0x80 {
            out.push(symbol(b));
        } else {
            out.push(Symbol::Byte(0xC0 + b / 64));
            out.push(Symbol::Byte(0x80 + b % 64));
        }
        proof {
            let next = p.take(i + 1);
            assert(next.drop_last() =~= p.take(i as int));
            if utf8 {
                assert(out@ =~= next.map_values(|b: u8| symbol_of(b)));
            } else {
                assert(out@ =~= before + latin1_symbols(b));
            }
        }
        i = i + 1;
    }
    assert(p.take(i as int) =~= p);
    out
}

/// The states of a pattern.
fn pattern_nodes(syms: &Vec<Symbol>) -> (nodes: Vec<Node>)
    ensures
        nodes@ == nodes_of(syms@),
{
    let mut nodes: Vec<Node> = Vec::new();
    let ghost p = syms@;
    let mut k: usize = 0;
    assert(p.skip(0) =~= p);
    assert(Seq::<Node>::empty() + nodes_of(p) =~= nodes_of(p));
    while k < syms.len()
        invariant
            k <= syms.len(),
            p == syms@,
            nodes@ + nodes_of(p.skip(k as int)) == nodes_of(p),
        decreases syms.len() - k,
    {
        let ghost before = nodes@;
        let ghost here = p.skip(k as int);
        assert(here.drop_first() =~= p.skip(k + 1));
        match syms[k] {
            Symbol::Star => {
                nodes.push(Node::Star);
                assert(nodes@ + nodes_of(p.skip(k + 1)) =~= before + nodes_of(here));
            },
            Symbol::Any => {
                nodes.push(Node::Any);
                nodes.push(Node::Cont(6));
                nodes.push(Node::Cont(1));
                nodes.push(Node::Cont(4));
                nodes.push(Node::Cont(1));
                nodes.push(Node::Cont(1));
                nodes.push(Node::Cont(1));
                assert(nodes@ =~= before + any_nodes());
                assert(nodes@ + nodes_of(p.skip(k + 1)) =~= before + nodes_of(here));
            },
            Symbol::Byte(b) => {
                nodes.push(Node::Byte(b));
                assert(nodes@ + nodes_of(p.skip(k + 1)) =~= before + nodes_of(here));
            },
        }
        k = k + 1;
    }
    assert(p.skip(k as int) =~= Seq::<Symbol>::empty());
    let ghost before = nodes@;
    nodes.push(Node::End);
    assert(nodes@ =~= before + nodes_of(p.skip(k as int)));
    nodes
}

/// Where byte `b` leads from state `i`.
fn step(nodes: &Vec<Node>, i: usize, b: u8) -> (r: Option<usize>)
    requires
        sound_nodes(nodes@),
        i < nodes.len(),
    ensures
        match r {
            Some(j) => target(nodes@, i as int, b) == Some(j as int) && j < nodes.len(),
            None => target(nodes@, i as int, b) is None,
        },
{
    match nodes[i] {
        Node::Star => Some(i),
        Node::Any => if b <= 0x7F {
            Some(i + 7)
        } else if 0xC2 <= b && b <= 0xDF {
            Some(i + 1)
        } else if 0xE0 <= b && b <= 0xEF {
            Some(i + 2)
        } else if 0xF0 <= b && b <= 0xF4 {
            Some(i + 4)
        } else {
            None
        },
        Node::Cont(d) => if 0x80 <= b && b <= 0xBF { Some(i + d as usize) } else { None },
        Node::Byte(c) => if b == c { Some(i + 1) } else { None },
        Node::End => None,
    }
}

/// The set of states before any byte.
fn first_set(nodes: &Vec<Node>) -> (set: Vec<bool>)
    requires
        sound_nodes(nodes@),
    ensures
        set@ == states_after(nodes@, Seq::empty()),
        set@.len() == nodes@.len(),
        star_closed(nodes@, set@),
        !set_empty(set@),
{
    let n: usize = nodes.len();
    let mut set: Vec<bool> = Vec::new();
    set.push(true);
    let mut j: usize = 1;
    while j < n
        invariant
            1 <= j <= n == nodes@.len(),
            set@.len() == j,
            set@[0],
            forall|i: int| 1 <= i < j ==> #[trigger] set@[i] == (set@[i - 1] && nodes@[i - 1] == Node::Star),
        decreases n - j,
    {
        let star: bool = match nodes[j - 1] {
            Node::Star => true,
            _ => false,
        };
        let v: bool = set[j - 1] && star;
        set.push(v);
        j = j + 1;
    }
    proof {
        assert forall|i: int| 0 <= i < n - 1 && #[trigger] set@[i] && nodes@[i] == Node::Star implies set@[i + 1] by {
            assert(set@[i + 1] == (set@[i + 1 - 1] && nodes@[i + 1 - 1] == Node::Star));
        }
        assert(set@[0]);
        assert forall|i: int| 0 <= i < n implies set@[i] == first_states(nodes@)[i] by {
            lemma_first_states(nodes@, set@, i);
        }
        assert(set@ =~= first_states(nodes@));
    }
    set
}

proof fn lemma_first_states(nodes: Seq<Node>, set: Seq<bool>, i: int)
    requires
        set.len() == nodes.len(),
        forall|i: int| 1 <= i < set.len() ==> #[trigger] set[i] == (set[i - 1] && nodes[i - 1] == Node::Star),
        0 <= i < nodes.len(),
        set[0],
    ensures
        set[i] == forall|j: int| 0 <= j < i ==> #[trigger] nodes[j] == Node::Star,
    decreases i,
{
    if i > 0 {
        lemma_first_states(nodes, set, i - 1);
        assert(set[i] == (set[i - 1] && nodes[i - 1] == Node::Star));
    }
}

proof fn lemma_first_set(nodes: Seq<Node>, set: Seq<bool>, i: int, s: Seq<u8>)
    requires
        set.len() == nodes.len(),
        forall|i: int| 1 <= i < set.len() ==> #[trigger] set[i] == (set[i - 1] && nodes[i - 1] == Node::Star),
        0 <= i < nodes.len(),
        set[i],
        node_accepts(nodes, i, s),
    ensures
        node_accepts(nodes, 0, s),
    decreases i,
{
    if i > 0 {
        assert(set[i] == (set[i - 1] && nodes[i - 1] == Node::Star));
        assert(node_accepts(nodes, i - 1, s));
        lemma_first_set(nodes, set, i - 1, s);
    }
}

/// The states that `b` leads to from the set, and whether there are any.
fn advance_set(nodes: &Vec<Node>, set: &Vec<bool>, b: u8) -> (r: (Vec<bool>, bool))
    requires
        sound_nodes(nodes@),
        set@.len() == nodes@.len(),
    ensures
        r.0@ == next_set(nodes@, set@, b),
        r.1 == !set_empty(r.0@),
{
    let n: usize = nodes.len();
    let mut out: Vec<bool> = vec![false; n];
    let mut i: usize = 0;
    while i < n
        invariant
            i <= n == nodes@.len(),
            sound_nodes(nodes@),
            set@.len() == n,
            out@.len() == n,
            forall|j: int| 0 <= j < n ==> #[trigger] out@[j] == (exists|k: int| 0 <= k < i && #[trigger] set@[k] && target(nodes@, k, b) == Some(j)),
        decreases n - i,
    {
        let ghost before = out@;
        if set[i] {
            if let Some(t) = step(nodes, i, b) {
                out[t] = true;
            }
        }
        proof {
            assert forall|j: int| 0 <= j < n implies #[trigger] out@[j] == (exists|k: int| 0 <= k < i + 1 && #[trigger] set@[k] && target(nodes@, k, b) == Some(j)) by {
                assert(before[j] == (exists|k: int| 0 <= k < i && #[trigger] set@[k] && target(nodes@, k, b) == Some(j)));
                if before[j] {
                    let k = choose|k: int| 0 <= k < i && #[trigger] set@[k] && target(nodes@, k, b) == Some(j);
                    assert(set@[k]);
                }
                if out@[j] && !before[j] {
                    assert(set@[i as int]);
                }
            }
        }
        i = i + 1;
    }
    proof {
        assert forall|j: int| 0 <= j < n implies #[trigger] out@[j] == leads_to(nodes@, set@, b, j) by {
        }
    }
    let mut any: bool = false;
    let mut j: usize = 0;
    while j < n
        invariant
            j <= n == nodes@.len(),
            out@.len() == n,
            set@.len() == n,
            forall|i: int| 0 <= i < j ==> #[trigger] out@[i] == in_next(nodes@, set@, b, i),
            forall|i: int| j <= i < n ==> #[trigger] out@[i] == leads_to(nodes@, set@, b, i),
            any == exists|i: int| 0 <= i < j && #[trigger] out@[i],
        decreases n - j,
    {
        let ghost before = out@;
        assert(out@[j as int] == leads_to(nodes@, set@, b, j as int));
        if j > 0 {
            let star: bool = match nodes[j - 1] {
                Node::Star => true,
                _ => false,
            };
            assert(out@[j - 1] == in_next(nodes@, set@, b, j - 1));
            if star && out[j - 1] {
                out[j] = true;
            }
        }
        assert(out@[j as int] == in_next(nodes@, set@, b, j as int));
        let here: bool = out[j];
        proof {
            if any {
                let i = choose|i: int| 0 <= i < j && #[trigger] before[i];
                assert(out@[i]);
            }
            if here {
                assert(out@[j as int]);
            }
            if exists|i: int| 0 <= i < j + 1 && #[trigger] out@[i] {
                let i = choose|i: int| 0 <= i < j + 1 && #[trigger] out@[i];
                if i < j {
                    assert(before[i]);
                }
            }
        }
        any = any || here;
        j = j + 1;
    }
    assert(out@ =~= next_set(nodes@, set@, b));
    (out, any)
}

fn same_set(a: &Vec<bool>, b: &Vec<bool>) -> (r: bool)
    ensures
        r == (a@ == b@),
{
    if a.len() != b.len() {
        return false;
    }
    let mut i: usize = 0;
    while i < a.len()
        invariant
            i <= a.len(),
            a@.len() == b@.len(),
            forall|j: int| 0 <= j < i ==> a@[j] == b@[j],
        decreases a.len() - i,
    {
        if a[i] != b[i] {
            return false;
        }
        i = i + 1;
    }
    assert(a@ =~= b@);
    true
}

/// The number of the state with this set, if there is one.
fn find_set(sets: &Vec<Vec<bool>>, set: &Vec<bool>) -> (r: Option<usize>)
    ensures
        match r {
            Some(i) => i < sets.len() && sets@[i as int]@ == set@,
            None => forall|i: int| 0 <= i < sets.len() ==> (#[trigger] sets@[i])@ != set@,
        },
{
    let mut i: usize = 0;
    while i < sets.len()
        invariant
            i <= sets.len(),
            forall|j: int| 0 <= j < i ==> (#[trigger] sets@[j])@ != set@,
        decreases sets.len() - i,
    {
        if same_set(&sets[i], set) {
            return Some(i);
        }
        i = i + 1;
    }
    None
}

/// The entry of a row for byte `b` is right: dead where no state is reached,
/// else the number of the set that is.
spec fn entry_right(nodes: Seq<Node>, sets: Seq<Vec<bool>>, from: Seq<bool>, b: u8, t: u32) -> bool {
    let nx = next_set(nodes, from, b);
    if set_empty(nx) {
        t == DEAD
    } else {
        t < sets.len() && sets[t as int]@ == nx
    }
}

/// The first `n` entries of state `d` are right.
spec fn row_right(nodes: Seq<Node>, sets: Seq<Vec<bool>>, table: Seq<u32>, d: int, n: int) -> bool {
    forall|b: int| 0 <= b < n ==> entry_right(nodes, sets, sets[d]@, b as u8, #[trigger] table[256 * d + b])
}

/// What is kept of the states while they are found.
spec fn states_sound(nodes: Seq<Node>, sets: Seq<Vec<bool>>, table: Seq<u32>, accept: Seq<bool>) -> bool {
    &&& 1 <= sets.len() <= DEAD
    &&& accept.len() == sets.len()
    &&& table.len() == 256 * sets.len()
    &&& forall|d: int| 0 <= d < sets.len() ==> (#[trigger] sets[d])@.len() == nodes.len() && star_closed(nodes, sets[d]@) && !set_empty(sets[d]@)
    &&& forall|d: int| 0 <= d < sets.len() ==> #[trigger] accept[d] == sets[d]@[nodes.len() - 1]
    &&& forall|k: int| 0 <= k < table.len() ==> #[trigger] table[k] == DEAD || table[k] < sets.len()
}

/// Finishing the rows of all states but those in the queue.
spec fn rows_right(nodes: Seq<Node>, sets: Seq<Vec<bool>>, table: Seq<u32>, open: Seq<u32>) -> bool {
    forall|d: int| 0 <= d < sets.len() && !open.contains(d as u32) ==> #[trigger] row_right(nodes, sets, table, d, 256)
}

/// Rows stay right when a state is added behind them.
proof fn lemma_rows_extend(nodes: Seq<Node>, sets: Seq<Vec<bool>>, more: Seq<Vec<bool>>, table: Seq<u32>, wider: Seq<u32>, d: int, n: int)
    requires
        0 <= d < sets.len(),
        0 <= n <= 256,
        sets.len() <= more.len(),
        forall|i: int| 0 <= i < sets.len() ==> #[trigger] more[i] == sets[i],
        table.len() == 256 * sets.len(),
        table.len() <= wider.len(),
        forall|k: int| 0 <= k < table.len() ==> #[trigger] wider[k] == table[k],
        row_right(nodes, sets, table, d, n),
    ensures
        row_right(nodes, more, wider, d, n),
{
    assert forall|b: int| 0 <= b < n implies entry_right(nodes, more, more[d]@, b as u8, #[trigger] wider[256 * d + b]) by {
        assert(wider[256 * d + b] == table[256 * d + b]);
        assert(more[d] == sets[d]);
    }
}

fn push_dead_row(table: &mut Vec<u32>)
    ensures
        final(table)@.len() == old(table)@.len() + 256,
        forall|k: int| 0 <= k < old(table)@.len() ==> #[trigger] final(table)@[k] == old(table)@[k],
        forall|k: int| old(table)@.len() <= k < final(table)@.len() ==> #[trigger] final(table)@[k] == DEAD,
{
    let mut b: usize = 0;
    while b < 256
        invariant
            b <= 256,
            table@.len() == old(table)@.len() + b,
            forall|k: int| 0 <= k < old(table)@.len() ==> #[trigger] table@[k] == old(table)@[k],
            forall|k: int| old(table)@.len() <= k < table@.len() ==> #[trigger] table@[k] == DEAD,
        decreases 256 - b,
    {
        table.push(DEAD);
        b = b + 1;
    }
}

/// The sets are those that the words lead to, each found from an earlier one.
#[verifier::opaque]
spec fn words_lead(nodes: Seq<Node>, sets: Seq<Vec<bool>>, words: Seq<Seq<u8>>) -> bool {
    &&& words.len() == sets.len()
    &&& words_grow(words)
    &&& told_apart(nodes, words)
    &&& forall|d: int| 0 <= d < sets.len() ==> (#[trigger] sets[d])@ == states_after(nodes, words[d])
}

/// A word more leads to a set that was not found yet.
proof fn lemma_word_more(nodes: Seq<Node>, sets: Seq<Vec<bool>>, words: Seq<Seq<u8>>, d: int, b: u8, nx: Seq<bool>)
    requires
        words_lead(nodes, sets, words),
        0 <= d < sets.len(),
        nx == next_set(nodes, sets[d]@, b),
        !set_empty(nx),
        forall|i: int| 0 <= i < sets.len() ==> (#[trigger] sets[i])@ != nx,
    ensures
        told_apart(nodes, words.push(words[d].push(b))),
        words.len() == sets.len(),
        forall|v: Vec<bool>| v@ == nx ==> #[trigger] words_lead(nodes, sets.push(v), words.push(words[d].push(b))),
{
    reveal(words_lead);
    let w = words[d].push(b);
    let more = words.push(w);
    assert(w.drop_last() =~= words[d]);
    assert(sets[d]@ == states_after(nodes, words[d]));
    assert(states_after(nodes, w) == nx);
    assert forall|i: int| 1 <= i < more.len() implies (#[trigger] more[i]).len() > 0 && grows_from(more, i) by {
        if i < words.len() {
            assert(words[i].len() > 0 && grows_from(words, i));
            let e = choose|e: int| 0 <= e < i && #[trigger] words[e] == words[i].drop_last();
            assert(more[e] == more[i].drop_last());
        } else {
            assert(more[d] == more[i].drop_last());
        }
    }
    assert forall|i: int| 0 <= i < more.len() implies !set_empty(states_after(nodes, #[trigger] more[i])) by {
        if i < words.len() {
            assert(more[i] == words[i]);
        }
    }
    assert forall|i: int, j: int| 0 <= i < j < more.len() implies states_after(nodes, #[trigger] more[i]) != states_after(nodes, #[trigger] more[j]) by {
        assert(more[i] == words[i]);
        assert(sets[i]@ == states_after(nodes, words[i]));
        if j < words.len() {
            assert(more[j] == words[j]);
        }
    }
    assert forall|v: Vec<bool>| v@ == nx implies #[trigger] words_lead(nodes, sets.push(v), more) by {
        assert forall|i: int| 0 <= i < sets.len() + 1 implies (#[trigger] sets.push(v)[i])@ == states_after(nodes, more[i]) by {
            if i < sets.len() {
                assert(sets.push(v)[i] == sets[i]);
                assert(more[i] == words[i]);
            }
        }
    }
}

/// When all rows are right, the table is the automaton.
proof fn lemma_all_found(nodes: Seq<Node>, sets: Seq<Vec<bool>>, words: Seq<Seq<u8>>, table: Seq<u32>, accept: Seq<bool>)
    requires
        states_sound(nodes, sets, table, accept),
        words_lead(nodes, sets, words),
        forall|d: int| 0 <= d < accept.len() ==> #[trigger] row_right(nodes, sets, table, d, 256),
    ensures
        automaton_of(nodes, words, table, accept),
{
    reveal(words_lead);
    assert forall|d: int| 0 <= d < accept.len() implies #[trigger] accept[d] == states_after(nodes, words[d])[nodes.len() - 1] by {
        assert(sets[d]@ == states_after(nodes, words[d]));
    }
    assert forall|d: int, b: u8| 0 <= d < accept.len() implies #[trigger] leads_on(nodes, words, d, b, table[256 * d + b]) by {
        assert(row_right(nodes, sets, table, d, 256));
        let t = table[256 * d + b as int];
        assert(entry_right(nodes, sets, sets[d]@, (b as int) as u8, t));
        assert(words[d].push(b).drop_last() =~= words[d]);
        assert(sets[d]@ == states_after(nodes, words[d]));
        if t < sets.len() {
            assert(sets[t as int]@ == states_after(nodes, words[t as int]));
        }
    }
}

/// Finds all states. Gives the table, the accepting states and whether all
/// states could be numbered.
#[verifier::spinoff_prover]
#[verifier::rlimit(60)]
fn find_states(nodes: &Vec<Node>) -> (r: (Vec<u32>, Vec<bool>, Vec<Vec<bool>>, bool, Ghost<Seq<Seq<u8>>>))
    requires
        sound_nodes(nodes@),
    ensures
        states_sound(nodes@, r.2@, r.0@, r.1@),
        r.3 ==> forall|d: int| 0 <= d < r.1@.len() ==> #[trigger] row_right(nodes@, r.2@, r.0@, d, 256),
        r.3 ==> automaton_of(nodes@, r.4@, r.0@, r.1@),
        !r.3 ==> too_many_states(nodes@) && r.1@.len() == DEAD && forall|k: int| 0 <= k < r.0@.len() ==> #[trigger] r.0@[k] == DEAD,
{
    let last: usize = nodes.len() - 1;
    let mut sets: Vec<Vec<bool>> = Vec::new();
    let mut table: Vec<u32> = Vec::new();
    let mut accept: Vec<bool> = Vec::new();
    let mut queue: Vec<u32> = Vec::new();
    let first = first_set(nodes);
    accept.push(first[last]);
    sets.push(first);
    push_dead_row(&mut table);
    queue.push(0);
    let ghost mut words: Seq<Seq<u8>> = seq![Seq::empty()];
    proof {
        assert(queue@.contains(0u32)) by {
            assert(queue@[0] == 0u32);
        }
        assert(words_lead(nodes@, sets@, words)) by {
            reveal(words_lead);
        }
    }
    while queue.len() > 0
        invariant
            sound_nodes(nodes@),
            last == nodes@.len() - 1,
            states_sound(nodes@, sets@, table@, accept@),
            forall|i: int| 0 <= i < queue@.len() ==> #[trigger] queue@[i] < sets@.len(),
            rows_right(nodes@, sets@, table@, queue@),
            words_lead(nodes@, sets@, words),
        decreases DEAD - sets@.len(), queue@.len(),
    {
        let ghost queue0 = queue@;
        let ghost count0 = sets@.len();
        let d: usize = match queue.pop() {
            Some(x) => x as usize,
            None => 0,
        };
        let ghost queue1 = queue@;
        proof {
            assert(queue0.last() == d as u32);
            assert(d < sets@.len());
            assert forall|e: int| 0 <= e < sets@.len() && e != d && !queue@.contains(e as u32) implies #[trigger] row_right(nodes@, sets@, table@, e, 256) by {
                assert(!queue0.contains(e as u32)) by {
                    if queue0.contains(e as u32) {
                        let i = choose|i: int| 0 <= i < queue0.len() && queue0[i] == e as u32;
                        if i < queue@.len() {
                            assert(queue@[i] == e as u32);
                        }
                    }
                }
            }
        }
        let mut b: usize = 0;
        while b < 256
            invariant
                b <= 256,
                sound_nodes(nodes@),
                last == nodes@.len() - 1,
                states_sound(nodes@, sets@, table@, accept@),
                    d < sets@.len(),
                count0 <= sets@.len(),
                forall|i: int| 0 <= i < queue@.len() ==> #[trigger] queue@[i] < sets@.len(),
                queue1.len() < queue0.len(),
                sets@.len() == count0 ==> queue@ == queue1,
                row_right(nodes@, sets@, table@, d as int, b as int),
                words_lead(nodes@, sets@, words),
                forall|e: int| 0 <= e < sets@.len() && e != d && !queue@.contains(e as u32) ==> #[trigger] row_right(nodes@, sets@, table@, e, 256),
            decreases 256 - b,
        {
            let (nx, any) = advance_set(nodes, &sets[d], b as u8);
            let mut t: u32 = DEAD;
            if any {
                match find_set(&sets, &nx) {
                    Some(i) => {
                        t = i as u32;
                    },
                    None => {
                        proof {
                            lemma_word_more(nodes@, sets@, words, d as int, b as u8, nx@);
                        }
                        if sets.len() == DEAD as usize {
                            assert(told_apart(nodes@, words.push(words[d as int].push(b as u8))));
                            let n: usize = table.len();
                            let mut k: usize = 0;
                            while k < n
                                invariant
                                    k <= n == table@.len(),
                                    n == 256 * sets@.len(),
                                    forall|i: int| 0 <= i < k ==> #[trigger] table@[i] == DEAD,
                                decreases n - k,
                            {
                                table[k] = DEAD;
                                k = k + 1;
                            }
                            return (table, accept, sets, false, Ghost(words));
                        }
                        let ghost (sets0, table0, queue2, accept0) = (sets@, table@, queue@, accept@);
                        t = sets.len() as u32;
                        accept.push(nx[last]);
                        proof {
                            lemma_next_closed(nodes@, sets@[d as int]@, b as u8);
                        }
                        sets.push(nx);
                        push_dead_row(&mut table);
                        queue.push(t);
                        proof {
                            words = words.push(words[d as int].push(b as u8));
                            assert(sets@ =~= sets0.push(nx));
                            assert(words_lead(nodes@, sets@, words));
                            assert forall|i: int| 0 <= i < sets0.len() implies #[trigger] sets@[i] == sets0[i] by {
                            }
                            lemma_rows_extend(nodes@, sets0, sets@, table0, table@, d as int, b as int);
                            assert forall|e: int| 0 <= e < sets@.len() && e != d && !queue@.contains(e as u32) implies #[trigger] row_right(nodes@, sets@, table@, e, 256) by {
                                assert(queue@[queue@.len() - 1] == t);
                                assert(e != t);
                                assert(!queue2.contains(e as u32)) by {
                                    if queue2.contains(e as u32) {
                                        let i = choose|i: int| 0 <= i < queue2.len() && queue2[i] == e as u32;
                                        assert(queue@[i] == e as u32);
                                    }
                                }
                                lemma_rows_extend(nodes@, sets0, sets@, table0, table@, e, 256);
                            }
                            assert forall|k: int| 0 <= k < table@.len() implies #[trigger] table@[k] == DEAD || table@[k] < sets@.len() by {
                                if k < table0.len() {
                                    assert(table@[k] == table0[k]);
                                }
                            }
                            assert forall|x: int| 0 <= x < sets@.len() implies #[trigger] accept@[x] == sets@[x]@[nodes@.len() - 1] by {
                                if x < sets0.len() {
                                    assert(accept@[x] == accept0[x]);
                                    assert(sets@[x] == sets0[x]);
                                }
                            }
                            assert(states_sound(nodes@, sets@, table@, accept@));
                        }
                    },
                }
            }
            let ghost table1 = table@;
            let size: usize = table.len();
            assert(256 * d + 256 <= size);
            table[256 * d + b] = t;
            proof {
                assert(entry_right(nodes@, sets@, sets@[d as int]@, b as u8, t));
                assert forall|c: int| 0 <= c < b + 1 implies entry_right(nodes@, sets@, sets@[d as int]@, c as u8, #[trigger] table@[256 * d + c]) by {
                    if c < b {
                        assert(table@[256 * d + c] == table1[256 * d + c]);
                    }
                }
                assert forall|e: int| 0 <= e < sets@.len() && e != d && !queue@.contains(e as u32) implies #[trigger] row_right(nodes@, sets@, table@, e, 256) by {
                    assert(row_right(nodes@, sets@, table1, e, 256));
                    assert forall|c: int| 0 <= c < 256 implies entry_right(nodes@, sets@, sets@[e]@, c as u8, #[trigger] table@[256 * e + c]) by {
                        assert(256 * e + c != 256 * d + b);
                        assert(table@[256 * e + c] == table1[256 * e + c]);
                    }
                }
            }
            b = b + 1;
        }
        assert(rows_right(nodes@, sets@, table@, queue@)) by {
            assert forall|e: int| 0 <= e < sets@.len() && !queue@.contains(e as u32) implies #[trigger] row_right(nodes@, sets@, table@, e, 256) by {
            }
        }
    }
    proof {
        assert forall|d: int| 0 <= d < accept@.len() implies #[trigger] row_right(nodes@, sets@, table@, d, 256) by {
            assert(!queue@.contains(d as u32));
        }
    }
    proof {
        lemma_all_found(nodes@, sets@, words, table@, accept@);
    }
    (table, accept, sets, true, Ghost(words))
}

/// With a star, the state behind it is reached too.
proof fn lemma_after_closed(nodes: Seq<Node>, w: Seq<u8>)
    ensures
        star_closed(nodes, states_after(nodes, w)),
{
    if w.len() > 0 {
        lemma_next_closed(nodes, states_after(nodes, w.drop_last()), w.last());
    } else {
        let set = first_states(nodes);
        assert forall|j: int| 0 <= j < nodes.len() - 1 && #[trigger] set[j] && nodes[j] == Node::Star implies set[j + 1] by {
            assert forall|i: int| 0 <= i < j + 1 implies #[trigger] nodes[i] == Node::Star by {
            }
        }
    }
}

/// The table accepts what the sets do.
proof fn lemma_table_accepts(nodes: Seq<Node>, words: Seq<Seq<u8>>, table: Seq<u32>, accept: Seq<bool>, d: int, s: Seq<u8>)
    requires
        sound_nodes(nodes),
        automaton_of(nodes, words, table, accept),
        0 <= d < words.len(),
    ensures
        table_accepts(table, accept, d, s) == set_accepts(nodes, states_after(nodes, words[d]), s),
    decreases s.len(),
{
    let set = states_after(nodes, words[d]);
    lemma_after_closed(nodes, words[d]);
    lemma_after_len(nodes, words[d]);
    if s.len() == 0 {
        assert(s =~= Seq::<u8>::empty());
        lemma_set_accepts_empty(nodes, set);
        assert(accept[d] == set[nodes.len() - 1]);
    } else {
        let b = s[0];
        assert(s =~= seq![b] + s.skip(1));
        lemma_next_accepts(nodes, set, b, s.skip(1));
        let t = table[256 * d + b as int];
        assert(table_row(table, d)[b as int] == t);
        assert(leads_on(nodes, words, d, b, t));
        assert(words[d].push(b).drop_last() =~= words[d]);
        if t != DEAD {
            lemma_table_accepts(nodes, words, table, accept, t as int, s.skip(1));
        }
    }
}

/// The automaton of a pattern accepts exactly the terms that match.
pub(crate) proof fn lemma_language(pattern: Seq<u8>, words: Seq<Seq<u8>>, table: Seq<u32>, accept: Seq<bool>, s: Seq<u8>)
    requires
        automaton_of(nodes_of(symbols(pattern)), words, table, accept),
    ensures
        table_accepts(table, accept, 0, s) == wildcard_matches(pattern, s),
        sound_nodes(nodes_of(symbols(pattern))),
{
    let p = symbols(pattern);
    let nodes = nodes_of(p);
    assert(nodes.skip(0) =~= nodes);
    lemma_nodes_sound(p, 0, nodes);
    lemma_table_accepts(nodes, words, table, accept, 0, s);
    lemma_nodes_match(p, 0, nodes, s);
    let set = first_states(nodes);
    assert(words[0] =~= Seq::<u8>::empty());
    assert(set[0]);
    if set_accepts(nodes, set, s) {
        let i = choose|i: int| 0 <= i < nodes.len() && #[trigger] set[i] && node_accepts(nodes, i, s);
        assert forall|i: int| 1 <= i < set.len() implies #[trigger] set[i] == (set[i - 1] && nodes[i - 1] == Node::Star) by {
            if set[i - 1] && nodes[i - 1] == Node::Star {
                assert forall|j: int| 0 <= j < i implies #[trigger] nodes[j] == Node::Star by {
                }
            }
        }
        lemma_first_set(nodes, set, i, s);
    }
}

/// Something is accepted from the state.
pub open spec fn productive(table: Seq<u32>, accept: Seq<bool>, d: int) -> bool {
    exists|s: Seq<u8>| #[trigger] table_accepts(table, accept, d, s)
}

/// Every state of the table accepts something.
pub open spec fn trim(table: Seq<u32>, accept: Seq<bool>) -> bool {
    forall|d: int| 0 <= d < accept.len() ==> #[trigger] productive(table, accept, d)
}

pub(crate) proof fn lemma_trim(nodes: Seq<Node>, words: Seq<Seq<u8>>, table: Seq<u32>, accept: Seq<bool>)
    requires
        sound_nodes(nodes),
        automaton_of(nodes, words, table, accept),
    ensures
        trim(table, accept),
{
    assert forall|d: int| 0 <= d < accept.len() implies #[trigger] productive(table, accept, d) by {
        let set = states_after(nodes, words[d]);
        lemma_after_len(nodes, words[d]);
        assert(!set_empty(set));
        let i = choose|i: int| 0 <= i < set.len() && #[trigger] set[i];
        let s = lemma_node_accepts_some(nodes, i);
        assert(set[i]);
        lemma_table_accepts(nodes, words, table, accept, d, s);
    }
}

/// What the runs of a row say of the row.
pub(crate) proof fn lemma_row_ranges(row: Seq<u32>, i: int)
    requires
        0 <= i <= 256,
    ensures
        row_ranges(row, i).len() == 0 ==> forall|j: int| i <= j < 256 ==> #[trigger] row[j] == DEAD,
        row_ranges(row, i).len() > 0 ==> {
            let r = row_ranges(row, i)[0];
            &&& i <= r.min
            &&& row[r.min as int] == r.dest
            &&& r.dest != DEAD
            &&& forall|j: int| i <= j < r.min ==> #[trigger] row[j] == DEAD
            &&& r.max as int == run_end(row, r.min as int, r.dest) - 1
            &&& row_ranges(row, i).skip(1) == row_ranges(row, r.max as int + 1)
        },
    decreases 256 - i,
{
    if i < 256 {
        if row[i] == DEAD {
            lemma_row_ranges(row, i + 1);
        } else {
            let e = run_end(row, i, row[i]);
            lemma_run_end(row, i + 1, row[i]);
            let all = row_ranges(row, i);
            assert(all.skip(1) =~= row_ranges(row, e));
        }
    }
}

/// A forced row has a single entry.
pub(crate) proof fn lemma_forced(row: Seq<u32>)
    requires
        forced(row),
    ensures
        ({
            let r = row_ranges(row, 0)[0];
            &&& row[r.min as int] == r.dest
            &&& r.dest != DEAD
            &&& forall|j: int| 0 <= j < 256 && j != r.min ==> #[trigger] row[j] == DEAD
        }),
{
    lemma_row_ranges(row, 0);
    let r = row_ranges(row, 0)[0];
    lemma_run_end(row, r.min as int, r.dest);
    let e = r.max as int + 1;
    assert(row_ranges(row, e).len() == 0);
    lemma_row_ranges(row, e);
}

/// Ranking the states by the least of their set makes forced steps rise.
proof fn lemma_ranked(nodes: Seq<Node>, sets: Seq<Vec<bool>>, table: Seq<u32>, accept: Seq<bool>) -> (rank: Seq<nat>)
    requires
        sound_nodes(nodes),
        states_sound(nodes, sets, table, accept),
        forall|d: int| 0 <= d < sets.len() ==> #[trigger] row_right(nodes, sets, table, d, 256),
    ensures
        ranked(table, accept.len() as int, rank, nodes.len()),
{
    let rank = Seq::new(accept.len(), |d: int| least(sets[d]@, 0) as nat);
    assert forall|d: int| 0 <= d < accept.len() implies #[trigger] rank[d] <= nodes.len() by {
        assert(sets[d]@.len() == nodes.len());
        lemma_least(sets[d]@, 0);
    }
    assert forall|d: int| 0 <= d < accept.len() && #[trigger] forced(table_row(table, d)) implies rank[d] < rank[row_ranges(table_row(table, d), 0)[0].dest as int] by {
        let row = table_row(table, d);
        let set = sets[d]@;
        assert(set.len() == nodes.len());
        lemma_forced(row);
        let r = row_ranges(row, 0)[0];
        let b = r.min;
        assert(row_right(nodes, sets, table, d, 256));
        assert(row[b as int] == table[256 * d + b as int]);
        assert(entry_right(nodes, sets, set, (b as int) as u8, table[256 * d + b as int]));
        assert forall|i: int| 0 <= i < nodes.len() && #[trigger] set[i] implies nodes[i] != Node::Star by {
            if nodes[i] == Node::Star {
                let c: u8 = if b == 0 { 1 } else { 0 };
                lemma_star_leads(nodes, set, i, c);
                assert(entry_right(nodes, sets, set, (c as int) as u8, table[256 * d + c as int]));
                assert(row[c as int] == table[256 * d + c as int]);
                assert(row[c as int] == DEAD);
            }
        }
        lemma_next_rises(nodes, set, b);
        lemma_least(set, 0);
        lemma_least(next_set(nodes, set, b), 0);
    }
    rank
}

/// The runs of the row of state `d`.
fn ranges_of(table: &Vec<u32>, d: usize) -> (r: Vec<TransitionRange>)
    requires
        256 * d + 256 <= table@.len(),
    ensures
        r@ == row_ranges(table_row(table@, d as int), 0),
{
    let mut out: Vec<TransitionRange> = Vec::new();
    let ghost row = table_row(table@, d as int);
    let size: usize = table.len();
    assert(256 * d + 256 <= size);
    let base: usize = 256 * d;
    let mut i: usize = 0;
    assert(Seq::<TransitionRange>::empty() + row_ranges(row, 0) =~= row_ranges(row, 0));
    while i < 256
        invariant
            i <= 256,
            base == 256 * d,
            base + 256 <= table.len(),
            row == table_row(table@, d as int),
            out@ + row_ranges(row, i as int) == row_ranges(row, 0),
        decreases 256 - i,
    {
        let dest: u32 = table[base + i];
        assert(row[i as int] == dest);
        if dest == DEAD {
            i = i + 1;
            continue;
        }
        let min: usize = i;
        let ghost before = out@;
        proof {
            lemma_run_end(row, i + 1, dest);
        }
        i = i + 1;
        while i < 256 && table[base + i] == dest
            invariant
                min < i <= 256,
                base == 256 * d,
                base + 256 <= table.len(),
                row == table_row(table@, d as int),
                run_end(row, min as int, dest) == run_end(row, i as int, dest),
            decreases 256 - i,
        {
            assert(row[i as int] == table@[base + i]);
            i = i + 1;
        }
        proof {
            if i < 256 {
                assert(row[i as int] == table@[base + i]);
            }
            assert(run_end(row, min as int, dest) == i);
        }
        let r = TransitionRange { min: min as u8, max: (i - 1) as u8, dest };
        out.push(r);
        assert(out@ + row_ranges(row, i as int) =~= before + row_ranges(row, min as int));
    }
    assert(out@ + row_ranges(row, 256) =~= out@);
    out
}

/// `s` begins with `p` and goes on with something accepted from `d`.
spec fn through(table: Seq<u32>, accept: Seq<bool>, p: Seq<u8>, d: int, s: Seq<u8>) -> bool {
    p.len() <= s.len() && s.take(p.len() as int) == p && table_accepts(table, accept, d, s.skip(p.len() as int))
}

/// Everything accepted goes through `p` to state `d`.
spec fn all_through(table: Seq<u32>, accept: Seq<bool>, p: Seq<u8>, d: int) -> bool {
    forall|s: Seq<u8>| #[trigger] table_accepts(table, accept, 0, s) == through(table, accept, p, d, s)
}

/// If everything goes through `p` to `d`, and `d` accepts nothing but `b` and
/// what `e` accepts, then everything goes through `p` and `b` to `e`.
proof fn lemma_through_step(table: Seq<u32>, accept: Seq<bool>, p: Seq<u8>, d: int, b: u8, e: int)
    requires
        all_through(table, accept, p, d),
        !accept[d],
        table_row(table, d)[b as int] == e as u32,
        0 <= e < DEAD,
        forall|c: int| 0 <= c < 256 && c != b ==> #[trigger] table_row(table, d)[c] == DEAD,
    ensures
        all_through(table, accept, p.push(b), e),
{
    let n = p.len() as int;
    assert forall|s: Seq<u8>| #[trigger] table_accepts(table, accept, 0, s) == through(table, accept, p.push(b), e, s) by {
        assert(table_accepts(table, accept, 0, s) == through(table, accept, p, d, s));
        if s.len() >= n {
            let t = s.skip(n);
            if s.len() > n {
                assert(t[0] == s[n]);
                assert(t.skip(1) =~= s.skip(n + 1));
                if s.take(n) == p && s[n] == b {
                    assert(s.take(n + 1) =~= p.push(b));
                }
                if s.take(n + 1) == p.push(b) {
                    assert(s.take(n) =~= p) by {
                        assert forall|i: int| 0 <= i < n implies s[i] == p[i] by {
                            assert(s.take(n + 1)[i] == p.push(b)[i]);
                        }
                    }
                    assert(s[n] == b) by {
                        assert(s.take(n + 1)[n] == p.push(b)[n]);
                    }
                }
            }
        }
    }
}

/// Two different strings are accepted, so none is the only one.
proof fn lemma_not_only(table: Seq<u32>, accept: Seq<bool>, s: Seq<u8>, t: Seq<u8>)
    requires
        s != t,
        table_accepts(table, accept, 0, s),
        table_accepts(table, accept, 0, t),
    ensures
        forall|w: Seq<u8>| !#[trigger] only_string(table, accept, w),
{
}

/// A string that goes through `p` and on with `t` from `d` is accepted.
proof fn lemma_through_joined(table: Seq<u32>, accept: Seq<bool>, p: Seq<u8>, d: int, t: Seq<u8>)
    requires
        all_through(table, accept, p, d),
        table_accepts(table, accept, d, t),
    ensures
        table_accepts(table, accept, 0, p + t),
{
    assert((p + t).take(p.len() as int) =~= p);
    assert((p + t).skip(p.len() as int) =~= t);
    assert(table_accepts(table, accept, 0, p + t) == through(table, accept, p, d, p + t));
}

/// How many of the flags are not set.
spec fn unset(flags: Seq<bool>) -> nat
    decreases flags.len(),
{
    if flags.len() == 0 {
        0
    } else {
        unset(flags.drop_last()) + if flags.last() { 0nat } else { 1 }
    }
}

proof fn lemma_unset_update(flags: Seq<bool>, i: int)
    requires
        0 <= i < flags.len(),
        !flags[i],
    ensures
        unset(flags.update(i, true)) + 1 == unset(flags),
    decreases flags.len(),
{
    let after = flags.update(i, true);
    if i == flags.len() - 1 {
        assert(after.drop_last() =~= flags.drop_last());
    } else {
        lemma_unset_update(flags.drop_last(), i);
        assert(after.drop_last() =~= flags.drop_last().update(i, true));
    }
}

/// No byte leads anywhere.
pub open spec fn all_dead(table: Seq<u32>) -> bool {
    forall|k: int| 0 <= k < table.len() ==> #[trigger] table[k] == DEAD
}

/// The only string accepted, if there is just one.
#[verifier::rlimit(80)]
fn detect_single(table: &Vec<u32>, accept: &Vec<bool>) -> (r: Option<Vec<u8>>)
    requires
        sound_table(table@, accept@),
    ensures
        match r {
            Some(w) => only_string(table@, accept@, w@),
            None => trim(table@, accept@) || all_dead(table@) ==> forall|w: Seq<u8>| !#[trigger] only_string(table@, accept@, w),
        },
{
    let n: usize = accept.len();
    let ghost (tb, ac) = (table@, accept@);
    let mut visited: Vec<bool> = vec![false; n];
    let mut out: Vec<u8> = Vec::new();
    let mut d: usize = 0;
    let ghost mut path: Seq<int> = seq![0int];
    proof {
        assert forall|s: Seq<u8>| #[trigger] table_accepts(tb, ac, 0, s) == through(tb, ac, Seq::empty(), 0, s) by {
            assert(s.take(0) =~= Seq::<u8>::empty());
            assert(s.skip(0) =~= s);
        }
        assert(out@.take(0) =~= Seq::<u8>::empty());
    }
    loop
        invariant
            n == accept@.len(),
            tb == table@,
            ac == accept@,
            sound_table(tb, ac),
            visited@.len() == n,
            d < n,
            path.len() == out@.len() + 1,
            path.last() == d,
            all_dead(tb) ==> out@.len() == 0,
            forall|k: int| 0 <= k < path.len() ==> #[trigger] all_through(tb, ac, out@.take(k), path[k]),
            forall|i: int| 0 <= i < n && #[trigger] visited@[i] ==> exists|k: int| 0 <= k < out@.len() && #[trigger] path[k] == i,
        decreases unset(visited@),
    {
        assert(out@.take(out@.len() as int) =~= out@);
        assert(all_through(tb, ac, out@.take(path.len() - 1), path[path.len() - 1]));
        assert(all_through(tb, ac, out@, d as int));
        if visited[d] {
            proof {
                if trim(tb, ac) {
                    let k = choose|k: int| 0 <= k < out@.len() && #[trigger] path[k] == d;
                    assert(productive(tb, ac, d as int));
                    let t = choose|t: Seq<u8>| #[trigger] table_accepts(tb, ac, d as int, t);
                    assert(all_through(tb, ac, out@.take(k), path[k]));
                    lemma_through_joined(tb, ac, out@.take(k), d as int, t);
                    lemma_through_joined(tb, ac, out@, d as int, t);
                    assert((out@.take(k) + t).len() != (out@ + t).len());
                    lemma_not_only(tb, ac, out@.take(k) + t, out@ + t);
                }
            }
            return None;
        }
        proof {
            lemma_unset_update(visited@, d as int);
        }
        let ghost visited0 = visited@;
        visited[d] = true;
        let ghost row = table_row(tb, d as int);
        let size: usize = table.len();
        assert(256 * d + 256 <= size);
        let base: usize = 256 * d;
        let mut found: usize = 256;
        let mut b: usize = 0;
        while b < 256
            invariant
                b <= 256,
                n == accept@.len(),
                tb == table@,
                ac == accept@,
                sound_table(tb, ac),
                d < n,
                base == 256 * d,
                row == table_row(tb, d as int),
                all_through(tb, ac, out@, d as int),
                found == 256 || found < b,
                found < 256 ==> row[found as int] != DEAD,
                all_dead(tb) ==> found == 256,
                forall|c: int| 0 <= c < b && c != found ==> #[trigger] row[c] == DEAD,
            decreases 256 - b,
        {
            assert(row[b as int] == tb[256 * d + b]);
            if table[base + b] != DEAD {
                if found < 256 {
                    proof {
                        if trim(tb, ac) {
                            let (x, y) = (row[found as int] as int, row[b as int] as int);
                            assert(row[found as int] == tb[256 * d + found]);
                            assert(productive(tb, ac, x) && productive(tb, ac, y));
                            let t = choose|t: Seq<u8>| #[trigger] table_accepts(tb, ac, x, t);
                            let u = choose|u: Seq<u8>| #[trigger] table_accepts(tb, ac, y, u);
                            let (tt, uu) = (seq![found as u8] + t, seq![b as u8] + u);
                            assert(tt.skip(1) =~= t);
                            assert(uu.skip(1) =~= u);
                            assert(table_accepts(tb, ac, d as int, tt));
                            assert(table_accepts(tb, ac, d as int, uu));
                            lemma_through_joined(tb, ac, out@, d as int, tt);
                            lemma_through_joined(tb, ac, out@, d as int, uu);
                            let m = out@.len() as int;
                            assert((out@ + tt)[m] == found as u8 && (out@ + uu)[m] == b as u8);
                            lemma_not_only(tb, ac, out@ + tt, out@ + uu);
                        }
                    }
                    return None;
                }
                found = b;
            }
            b = b + 1;
        }
        if accept[d] {
            if found < 256 {
                proof {
                    if trim(tb, ac) {
                        let x = row[found as int] as int;
                        assert(row[found as int] == tb[256 * d + found]);
                        assert(productive(tb, ac, x));
                        let t = choose|t: Seq<u8>| #[trigger] table_accepts(tb, ac, x, t);
                        let tt = seq![found as u8] + t;
                        assert(tt.skip(1) =~= t);
                        assert(table_accepts(tb, ac, d as int, tt));
                        assert(table_accepts(tb, ac, d as int, Seq::<u8>::empty()));
                        lemma_through_joined(tb, ac, out@, d as int, tt);
                        lemma_through_joined(tb, ac, out@, d as int, Seq::<u8>::empty());
                        assert((out@ + tt).len() != (out@ + Seq::<u8>::empty()).len());
                        lemma_not_only(tb, ac, out@ + tt, out@ + Seq::<u8>::empty());
                    }
                }
                return None;
            }
            proof {
                assert forall|s: Seq<u8>| #[trigger] table_accepts(tb, ac, 0, s) <==> s == out@ by {
                    assert(table_accepts(tb, ac, 0, s) == through(tb, ac, out@, d as int, s));
                    let m = out@.len() as int;
                    if s == out@ {
                        assert(s.take(m) =~= out@);
                        assert(s.skip(m) =~= Seq::<u8>::empty());
                    }
                    if through(tb, ac, out@, d as int, s) {
                        let t = s.skip(m);
                        if t.len() > 0 {
                            assert(row[t[0] as int] == DEAD);
                        }
                        assert(s =~= out@);
                    }
                }
            }
            return Some(out);
        }
        if found == 256 {
            proof {
                assert forall|w: Seq<u8>| !#[trigger] only_string(tb, ac, w) by {
                    if only_string(tb, ac, w) {
                        assert(table_accepts(tb, ac, 0, w) == through(tb, ac, out@, d as int, w));
                        let t = w.skip(out@.len() as int);
                        if t.len() > 0 {
                            assert(row[t[0] as int] == DEAD);
                        }
                    }
                }
            }
            return None;
        }
        let next: u32 = table[base + found];
        assert(row[found as int] == tb[256 * d + found]);
        let ghost (out0, path0) = (out@, path);
        out.push(found as u8);
        proof {
            lemma_through_step(tb, ac, out0, d as int, found as u8, next as int);
            path = path.push(next as int);
            assert forall|k: int| 0 <= k < path.len() implies #[trigger] all_through(tb, ac, out@.take(k), path[k]) by {
                if k < path0.len() {
                    assert(out@.take(k) =~= out0.take(k));
                    assert(all_through(tb, ac, out0.take(k), path0[k]));
                } else {
                    assert(out@.take(k) =~= out0.push(found as u8));
                }
            }
            assert forall|i: int| 0 <= i < n && #[trigger] visited@[i] implies exists|k: int| 0 <= k < out@.len() && #[trigger] path[k] == i by {
                if i == d {
                    assert(path[path0.len() - 1] == i);
                } else {
                    assert(visited0[i]);
                    let k = choose|k: int| 0 <= k < out0.len() && #[trigger] path0[k] == i;
                    assert(path[k] == i);
                }
            }
        }
        d = next as usize;
    }
}

/// Following forced bytes loses nothing: what is accepted begins with them
/// and goes on from where they lead.
pub proof fn law_forced_prefix(table: Seq<u32>, accept: Seq<bool>, from: int, p: Seq<u8>, to: int, s: Seq<u8>)
    requires
        forced_walk(table, from, p, to),
        forall|i: int| 0 <= i < p.len() ==> !accept[#[trigger] walk_state(table, from, p, i)],
    ensures
        table_accepts(table, accept, from, s) == (p.len() <= s.len() && s.take(p.len() as int) == p && table_accepts(table, accept, to, s.skip(p.len() as int))),
    decreases p.len(),
{
    if p.len() == 0 {
        assert(s.take(0) =~= p);
        assert(s.skip(0) =~= s);
    } else {
        let row = table_row(table, from);
        lemma_forced(row);
        let next = row_ranges(row, 0)[0].dest as int;
        let q = p.skip(1);
        assert forall|i: int| 0 <= i < q.len() implies !accept[#[trigger] walk_state(table, next, q, i)] by {
            assert(walk_state(table, from, p, i + 1) == walk_state(table, next, q, i));
        }
        assert(walk_state(table, from, p, 0) == from);
        if s.len() > 0 {
            let t = s.skip(1);
            law_forced_prefix(table, accept, next, q, to, t);
            if p.len() <= s.len() {
                assert(t.skip(q.len() as int) =~= s.skip(p.len() as int));
                if s[0] == p[0] && t.take(q.len() as int) == q {
                    assert(s.take(p.len() as int) =~= p) by {
                        assert forall|i: int| 0 <= i < p.len() implies s[i] == p[i] by {
                            if i > 0 {
                                assert(t.take(q.len() as int)[i - 1] == q[i - 1]);
                            }
                        }
                    }
                }
                if s.take(p.len() as int) == p {
                    assert(s[0] == p[0]) by {
                        assert(s.take(p.len() as int)[0] == p[0]);
                    }
                    assert(t.take(q.len() as int) =~= q) by {
                        assert forall|i: int| 0 <= i < q.len() implies t[i] == q[i] by {
                            assert(s.take(p.len() as int)[i + 1] == p[i + 1]);
                        }
                    }
                }
            }
        }
    }
}

/// The state after `i` forced bytes.
pub open spec fn walk_state(table: Seq<u32>, from: int, p: Seq<u8>, i: int) -> int
    decreases i,
{
    if i <= 0 {
        from
    } else {
        walk_state(table, row_ranges(table_row(table, from), 0)[0].dest as int, p.skip(1), i - 1)
    }
}

impl WildcardDfa {
    /// The transitions, state by state.
    pub closed spec fn table(&self) -> Seq<u32> {
        self.transitions@
    }

    /// Which states accept.
    pub closed spec fn accepting(&self) -> Seq<bool> {
        self.accept@
    }

    /// The only string accepted, if there is just one.
    pub closed spec fn single(&self) -> Option<Seq<u8>> {
        match self.single {
            Some(w) => Some(w@),
            None => None,
        }
    }

    #[verifier::type_invariant]
    spec fn sound(self) -> bool {
        sound_dfa(self.transitions@, self.accept@, self.ranges@, self.single())
    }

    /// Whether the automaton accepts `s`.
    pub open spec fn language(&self, s: Seq<u8>) -> bool {
        table_accepts(self.table(), self.accepting(), 0, s)
    }

    /// Number of states.
    pub open spec fn states(&self) -> nat {
        self.accepting().len()
    }

    /// The automaton of a pattern. If more sets of nodes can be reached than
    /// states can be numbered, it has the largest number of states, and no byte
    /// leads anywhere.
    pub open spec fn is_for(&self, pattern: Seq<u8>) -> bool {
        let nodes = nodes_of(symbols(pattern));
        if too_many_states(nodes) {
            self.states() == DEAD && all_dead(self.table())
        } else {
            exists|words: Seq<Seq<u8>>| #[trigger] automaton_of(nodes, words, self.table(), self.accepting())
        }
    }

    /// Compiles a pattern. Unless there are too many states, the automaton
    /// accepts exactly the terms that match, and something can still be
    /// accepted from every state.
    pub fn compile(pattern: &[u8]) -> (r: Self)
        ensures
            r.is_for(pattern@),
            r.states() <= pow2(nodes_of(symbols(pattern@)).len()),
            r.states() < DEAD ==> !too_many_states(nodes_of(symbols(pattern@))),
            pow2(nodes_of(symbols(pattern@)).len()) <= DEAD ==> !too_many_states(nodes_of(symbols(pattern@))),
            !too_many_states(nodes_of(symbols(pattern@))) ==> forall|s: Seq<u8>| #[trigger] r.language(s) == wildcard_matches(pattern@, s),
            !too_many_states(nodes_of(symbols(pattern@))) ==> trim(r.table(), r.accepting()),
    {
        let syms = pattern_symbols(pattern);
        let nodes = pattern_nodes(&syms);
        proof {
            assert(nodes@.skip(0) =~= nodes@);
            lemma_nodes_sound(syms@, 0, nodes@);
        }
        let (transitions, accept, sets, all, words) = find_states(&nodes);
        let n: usize = accept.len();
        let mut ranges: Vec<Vec<TransitionRange>> = Vec::new();
        let mut d: usize = 0;
        while d < n
            invariant
                d <= n,
                transitions@.len() == 256 * n,
                ranges@.len() == d,
                forall|i: int| 0 <= i < d ==> (#[trigger] ranges@[i])@ == row_ranges(table_row(transitions@, i), 0),
            decreases n - d,
        {
            let r = ranges_of(&transitions, d);
            ranges.push(r);
            d = d + 1;
        }
        assert(sound_table(transitions@, accept@));
        let single = detect_single(&transitions, &accept);
        proof {
            let (tb, ac) = (transitions@, accept@);
            if too_many_states(nodes@) {
                let more = choose|more: Seq<Seq<u8>>| more.len() > DEAD && #[trigger] told_apart(nodes@, more);
                law_states_bounded(nodes@, more);
            }
            if all {
                law_states_bounded(nodes@, words@);
                lemma_not_too_many(nodes@, words@, tb, ac);
                lemma_trim(nodes@, words@, tb, ac);
                let rank = lemma_ranked(nodes@, sets@, tb, ac);
                assert(ranked(tb, ac.len() as int, rank, nodes@.len()));
                assert forall|s: Seq<u8>| #[trigger] table_accepts(tb, ac, 0, s) == wildcard_matches(pattern@, s) by {
                    lemma_language(pattern@, words@, tb, ac, s);
                }
            } else {
                let rank = Seq::new(ac.len(), |d: int| 0nat);
                assert forall|d: int| 0 <= d < ac.len() && #[trigger] forced(table_row(tb, d)) implies rank[d] < rank[row_ranges(table_row(tb, d), 0)[0].dest as int] by {
                    lemma_forced(table_row(tb, d));
                    let b = row_ranges(table_row(tb, d), 0)[0].min as int;
                    assert(table_row(tb, d)[b] == tb[256 * d + b]);
                }
                assert(ranked(tb, ac.len() as int, rank, 0));
            }
        }
        let dfa = WildcardDfa { transitions, accept, ranges, single };
        proof {
            if all {
                assert(automaton_of(nodes_of(symbols(pattern@)), words@, dfa.table(), dfa.accepting()));
            } else {
                assert(too_many_states(nodes_of(symbols(pattern@))));
            }
        }
        dfa
    }

    /// How many states there are.
    pub fn num_states(&self) -> (r: usize)
        ensures
            r == self.states(),
            1 <= r <= DEAD,
    {
        proof {
            use_type_invariant(self);
        }
        self.accept.len()
    }

    /// The state before any byte.
    pub fn start(&self) -> (d: u32)
        ensures
            d == 0,
            self.states() > 0,
    {
        proof {
            use_type_invariant(self);
        }
        0
    }

    pub fn is_accept(&self, state: u32) -> (r: bool)
        requires
            state < self.states(),
        ensures
            r == self.accepting()[state as int],
    {
        self.accept[state as usize]
    }

    /// The state after `byte`, or [`DEAD`].
    pub fn transition(&self, state: u32, byte: u8) -> (r: u32)
        requires
            state < self.states(),
        ensures
            r == table_row(self.table(), state as int)[byte as int],
            r == DEAD || r < self.states(),
    {
        proof {
            use_type_invariant(self);
            assert(256 * state + byte < self.transitions@.len());
        }
        let n: usize = self.transitions.len();
        self.transitions[state as usize * 256 + byte as usize]
    }

    /// Whether the automaton accepts `input`.
    pub fn accepts(&self, input: &[u8]) -> (r: bool)
        ensures
            r == self.language(input@),
    {
        let mut state: u32 = self.start();
        let ghost s = input@;
        let mut i: usize = 0;
        assert(s.skip(0) =~= s);
        while i < input.len()
            invariant
                i <= input.len(),
                s == input@,
                state < self.states(),
                self.language(s) == table_accepts(self.table(), self.accepting(), state as int, s.skip(i as int)),
            decreases input.len() - i,
        {
            assert(s.skip(i as int).skip(1) =~= s.skip(i + 1));
            state = self.transition(state, input[i]);
            if state == DEAD {
                return false;
            }
            i = i + 1;
        }
        self.is_accept(state)
    }

    /// The runs of bytes that lead on from `state`.
    pub fn ranges(&self, state: u32) -> (r: &[TransitionRange])
        requires
            state < self.states(),
        ensures
            r@ == row_ranges(table_row(self.table(), state as int), 0),
    {
        proof {
            use_type_invariant(self);
        }
        self.ranges[state as usize].as_slice()
    }

    /// The only string accepted, if there is just one.
    pub fn single_string(&self) -> (r: Option<&[u8]>)
        ensures
            match r {
                Some(w) => only_string(self.table(), self.accepting(), w@),
                None => forall|w: Seq<u8>| !#[trigger] only_string(self.table(), self.accepting(), w),
            },
    {
        proof {
            use_type_invariant(self);
        }
        match &self.single {
            Some(w) => Some(w.as_slice()),
            None => None,
        }
    }

    /// The longest run of bytes from the start that are forced, and the state
    /// that they lead to.
    pub fn deterministic_prefix(&self) -> (r: (Vec<u8>, u32))
        ensures
            forced_walk(self.table(), 0, r.0@, r.1 as int),
            r.1 < self.states(),
            !forced(table_row(self.table(), r.1 as int)),
    {
        proof {
            use_type_invariant(self);
        }
        let ghost (rank, top) = choose|rank: Seq<nat>, top: nat| #[trigger] ranked(self.table(), self.states() as int, rank, top);
        let mut prefix: Vec<u8> = Vec::new();
        let mut state: u32 = 0;
        loop
            invariant
                state < self.states(),
                ranked(self.table(), self.states() as int, rank, top),
                forced_walk(self.table(), 0, prefix@, state as int),
            decreases top - rank[state as int],
        {
            let ranges = self.ranges(state);
            if ranges.len() == 1 && ranges[0].min == ranges[0].max {
                let b: u8 = ranges[0].min;
                let next: u32 = ranges[0].dest;
                let ghost before = prefix@;
                prefix.push(b);
                proof {
                    use_type_invariant(self);
                    let row = table_row(self.table(), state as int);
                    assert(forced(row));
                    lemma_forced(row);
                    assert(row[b as int] == self.transitions@[256 * state + b]);
                    lemma_walk_push(self.table(), 0, before, state as int, b);
                    assert(rank[next as int] <= top);
                }
                state = next;
            } else {
                return (prefix, state);
            }
        }
    }
}

impl Clone for WildcardDfa {
    fn clone(&self) -> (r: Self)
        ensures
            r.table() == self.table(),
            r.accepting() == self.accepting(),
            r.single() == self.single(),
    {
        proof {
            use_type_invariant(self);
        }
        let mut ranges: Vec<Vec<TransitionRange>> = Vec::new();
        let n: usize = self.ranges.len();
        let mut d: usize = 0;
        while d < n
            invariant
                d <= n == self.ranges@.len(),
                ranges@.len() == d,
                forall|i: int| 0 <= i < d ==> (#[trigger] ranges@[i])@ == self.ranges@[i]@,
            decreases n - d,
        {
            ranges.push(slice_to_vec(self.ranges[d].as_slice()));
            d = d + 1;
        }
        let single: Option<Vec<u8>> = match &self.single {
            Some(w) => Some(slice_to_vec(w.as_slice())),
            None => None,
        };
        let transitions = slice_to_vec(self.transitions.as_slice());
        let accept = slice_to_vec(self.accept.as_slice());
        proof {
            assert forall|d: int| 0 <= d < accept@.len() implies (#[trigger] ranges@[d])@ == row_ranges(table_row(transitions@, d), 0) by {
                assert(ranges@[d]@ == self.ranges@[d]@);
            }
        }
        WildcardDfa { transitions, accept, ranges, single }
    }
}

pub(crate) proof fn lemma_walk_push(table: Seq<u32>, from: int, p: Seq<u8>, to: int, b: u8)
    requires
        forced_walk(table, from, p, to),
        forced(table_row(table, to)),
        row_ranges(table_row(table, to), 0)[0].min == b,
    ensures
        forced_walk(table, from, p.push(b), row_ranges(table_row(table, to), 0)[0].dest as int),
    decreases p.len(),
{
    let q = p.push(b);
    if p.len() == 0 {
        let dest = row_ranges(table_row(table, to), 0)[0].dest as int;
        assert(q.skip(1) =~= Seq::<u8>::empty());
        assert(forced_walk(table, dest, q.skip(1), dest));
    } else {
        let next = row_ranges(table_row(table, from), 0)[0].dest as int;
        lemma_walk_push(table, next, p.skip(1), to, b);
        assert(q.skip(1) =~= p.skip(1).push(b));
    }
}

} // verus!
