//! What is known of the automaton of a pattern.

use crate::automaton::{
    automaton_of, first_states, forced, forced_walk, grows_from, in_next, leads_on, leads_to, lemma_forced, lemma_language, lemma_star_leads, lemma_trim, lemma_walk_push, matches_symbols, next_set, nodes_of,
    only_string, productive, row_ranges, run_end, set_empty, states_after, symbol_of, symbols, table_accepts, table_row, target, told_apart, too_many_states, wildcard_matches, Node, Symbol, TransitionRange, WildcardDfa, DEAD,
};
use vstd::arithmetic::power2::{lemma_pow2_unfold, lemma2_to64, pow2};
use vstd::prelude::*;
use vstd::utf8::valid_utf8;
use vstd::set_lib::{lemma_int_range, lemma_len_subset, set_int_range};

verus! {

// ---------------------------------------------------------------------------
// How many states there can be
// ---------------------------------------------------------------------------

/// As many different numbers below `n` as there are, but no more.
proof fn lemma_pigeonhole(f: Seq<int>, n: nat)
    requires
        forall|i: int| 0 <= i < f.len() ==> 0 <= #[trigger] f[i] < n,
        forall|i: int, j: int| 0 <= i < j < f.len() ==> #[trigger] f[i] != #[trigger] f[j],
    ensures
        f.len() <= n,
{
    assert(f.no_duplicates());
    f.unique_seq_to_set();
    let all = set_int_range(0, n as int);
    lemma_int_range(0, n as int);
    assert(f.to_set().subset_of(all)) by {
        assert forall|x: int| f.to_set().contains(x) implies all.contains(x) by {
            let i = choose|i: int| 0 <= i < f.len() && f[i] == x;
            assert(0 <= f[i] < n);
        }
    }
    lemma_len_subset(f.to_set(), all);
}

proof fn lemma_next_of_none(nodes: Seq<Node>, set: Seq<bool>, b: u8, j: int)
    requires
        set.len() == nodes.len(),
        set_empty(set),
        0 <= j < nodes.len(),
    ensures
        !in_next(nodes, set, b, j),
    decreases j,
{
    if leads_to(nodes, set, b, j) {
        let i = choose|i: int| 0 <= i < nodes.len() && #[trigger] set[i] && target(nodes, i, b) == Some(j);
        assert(set[i]);
    }
    if j > 0 {
        lemma_next_of_none(nodes, set, b, j - 1);
    }
}

pub(crate) proof fn lemma_after_len(nodes: Seq<Node>, w: Seq<u8>)
    ensures
        states_after(nodes, w).len() == nodes.len(),
{
}

/// Every word that leads somewhere leads to a state of the automaton.
pub(crate) proof fn lemma_state_of(nodes: Seq<Node>, words: Seq<Seq<u8>>, table: Seq<u32>, accept: Seq<bool>, w: Seq<u8>) -> (d: int)
    requires
        automaton_of(nodes, words, table, accept),
        !set_empty(states_after(nodes, w)),
    ensures
        0 <= d < words.len(),
        states_after(nodes, words[d]) == states_after(nodes, w),
    decreases w.len(),
{
    if w.len() == 0 {
        assert(w =~= words[0]);
        0
    } else {
        let v = w.drop_last();
        let b = w.last();
        lemma_after_len(nodes, v);
        if set_empty(states_after(nodes, v)) {
            assert forall|j: int| 0 <= j < nodes.len() implies !#[trigger] states_after(nodes, w)[j] by {
                lemma_next_of_none(nodes, states_after(nodes, v), b, j);
            }
        }
        let d = lemma_state_of(nodes, words, table, accept, v);
        assert(leads_on(nodes, words, d, b, table[256 * d + b]));
        assert(words[d].push(b).drop_last() =~= words[d]);
        table[256 * d + b as int] as int
    }
}

/// Where the automaton has all states, there are not too many.
pub(crate) proof fn lemma_not_too_many(nodes: Seq<Node>, words: Seq<Seq<u8>>, table: Seq<u32>, accept: Seq<bool>)
    requires
        automaton_of(nodes, words, table, accept),
    ensures
        !too_many_states(nodes),
{
    if too_many_states(nodes) {
        let more = choose|more: Seq<Seq<u8>>| more.len() > DEAD && #[trigger] told_apart(nodes, more);
        let f = Seq::new(more.len(), |i: int| choose|d: int| 0 <= d < words.len() && states_after(nodes, #[trigger] words[d]) == states_after(nodes, more[i]));
        assert forall|i: int| 0 <= i < f.len() implies 0 <= #[trigger] f[i] < words.len() && states_after(nodes, words[f[i]]) == states_after(nodes, more[i]) by {
            assert(!set_empty(states_after(nodes, more[i])));
            let d = lemma_state_of(nodes, words, table, accept, more[i]);
            assert(states_after(nodes, words[d]) == states_after(nodes, more[i]));
        }
        assert forall|i: int, j: int| 0 <= i < j < f.len() implies #[trigger] f[i] != #[trigger] f[j] by {
            assert(states_after(nodes, more[i]) != states_after(nodes, more[j]));
        }
        lemma_pigeonhole(f, words.len());
    }
}

/// The members of a set as the bits of a number.
spec fn set_number(set: Seq<bool>) -> nat
    decreases set.len(),
{
    if set.len() == 0 {
        0
    } else {
        2 * set_number(set.drop_last()) + if set.last() { 1nat } else { 0 }
    }
}

proof fn lemma_set_number(a: Seq<bool>)
    ensures
        set_number(a) < pow2(a.len()),
    decreases a.len(),
{
    lemma2_to64();
    if a.len() > 0 {
        lemma_set_number(a.drop_last());
        lemma_pow2_unfold(a.len());
    }
}

proof fn lemma_set_number_tells(a: Seq<bool>, b: Seq<bool>)
    requires
        a.len() == b.len(),
        set_number(a) == set_number(b),
    ensures
        a == b,
    decreases a.len(),
{
    if a.len() > 0 {
        lemma_set_number_tells(a.drop_last(), b.drop_last());
        assert(a =~= a.drop_last().push(a.last()));
        assert(b =~= b.drop_last().push(b.last()));
    } else {
        assert(a =~= b);
    }
}

/// There are at most as many states as there are sets of nodes.
pub proof fn law_states_bounded(nodes: Seq<Node>, words: Seq<Seq<u8>>)
    requires
        told_apart(nodes, words),
    ensures
        words.len() <= pow2(nodes.len()),
{
    let f = Seq::new(words.len(), |i: int| set_number(states_after(nodes, words[i])) as int);
    assert forall|i: int| 0 <= i < f.len() implies 0 <= #[trigger] f[i] < pow2(nodes.len()) by {
        lemma_after_len(nodes, words[i]);
        lemma_set_number(states_after(nodes, words[i]));
    }
    assert forall|i: int, j: int| 0 <= i < j < f.len() implies #[trigger] f[i] != #[trigger] f[j] by {
        lemma_after_len(nodes, words[i]);
        lemma_after_len(nodes, words[j]);
        assert(states_after(nodes, words[i]) != states_after(nodes, words[j]));
        if f[i] == f[j] {
            lemma_set_number_tells(states_after(nodes, words[i]), states_after(nodes, words[j]));
        }
    }
    lemma_pigeonhole(f, pow2(nodes.len()));
}

/// A pattern of few nodes has an automaton of states that can be numbered.
pub proof fn law_few_nodes(nodes: Seq<Node>)
    requires
        pow2(nodes.len()) <= DEAD,
    ensures
        !too_many_states(nodes),
{
    if too_many_states(nodes) {
        let words = choose|words: Seq<Seq<u8>>| words.len() > DEAD && #[trigger] told_apart(nodes, words);
        law_states_bounded(nodes, words);
    }
}

// ---------------------------------------------------------------------------
// What a pattern begins with
// ---------------------------------------------------------------------------

/// The bytes before the first `*` or `?`.
pub open spec fn lead_bytes(p: Seq<Symbol>) -> Seq<u8>
    decreases p.len(),
{
    if p.len() > 0 && p[0] is Byte {
        seq![p[0]->Byte_0] + lead_bytes(p.drop_first())
    } else {
        Seq::empty()
    }
}

/// The pattern has neither `*` nor `?`.
pub open spec fn is_literal(p: Seq<Symbol>) -> bool {
    forall|i: int| 0 <= i < p.len() ==> #[trigger] p[i] is Byte
}

/// The bytes of well-formed UTF-8 before the first `*` or `?`, by its place.
pub proof fn law_lead_of_utf8(pattern: Seq<u8>, n: int)
    requires
        valid_utf8(pattern),
        0 <= n <= pattern.len(),
        forall|i: int| 0 <= i < n ==> #[trigger] pattern[i] != 0x2A && pattern[i] != 0x3F,
        n < pattern.len() ==> pattern[n] == 0x2A || pattern[n] == 0x3F,
    ensures
        lead_bytes(symbols(pattern)) == pattern.take(n),
        is_literal(symbols(pattern)) <==> n == pattern.len(),
{
    let p = symbols(pattern);
    assert(p.skip(0) =~= p);
    lemma_lead_is(p, pattern, 0, n);
    assert(pattern.subrange(0, n) =~= pattern.take(n));
    if n < pattern.len() {
        assert(!(p[n] is Byte));
    }
}

proof fn lemma_lead_is(p: Seq<Symbol>, pattern: Seq<u8>, i: int, n: int)
    requires
        p == pattern.map_values(|b: u8| symbol_of(b)),
        0 <= i <= n <= pattern.len(),
        forall|i: int| 0 <= i < n ==> #[trigger] pattern[i] != 0x2A && pattern[i] != 0x3F,
        n < pattern.len() ==> pattern[n] == 0x2A || pattern[n] == 0x3F,
    ensures
        lead_bytes(p.skip(i)) == pattern.subrange(i, n),
    decreases n - i,
{
    let q = p.skip(i);
    if i < n {
        lemma_lead_is(p, pattern, i + 1, n);
        assert(q[0] == symbol_of(pattern[i]));
        assert(q.drop_first() =~= p.skip(i + 1));
        assert(pattern.subrange(i, n) =~= seq![pattern[i]] + pattern.subrange(i + 1, n));
    } else {
        if q.len() > 0 {
            assert(q[0] == symbol_of(pattern[i]));
        }
        assert(pattern.subrange(i, n) =~= Seq::empty());
    }
}

/// Where the nodes of the leading bytes stand, and what comes behind them.
proof fn lemma_lead_nodes(p: Seq<Symbol>)
    ensures
        lead_bytes(p).len() <= p.len(),
        lead_bytes(p).len() < nodes_of(p).len(),
        forall|i: int| 0 <= i < lead_bytes(p).len() ==> #[trigger] nodes_of(p)[i] == Node::Byte(lead_bytes(p)[i]),
        ({
            let m = lead_bytes(p).len() as int;
            let x = nodes_of(p)[m];
            &&& x == Node::End || x == Node::Star || x == Node::Any
            &&& x == Node::End ==> nodes_of(p).len() == m + 1
            &&& x == Node::Any ==> m + 7 < nodes_of(p).len()
            &&& is_literal(p) ==> x == Node::End && m == p.len()
        }),
    decreases p.len(),
{
    let nodes = nodes_of(p);
    if p.len() > 0 {
        let rest = p.drop_first();
        lemma_lead_nodes(rest);
        if p[0] is Byte {
            let b = p[0]->Byte_0;
            assert(nodes == seq![Node::Byte(b)] + nodes_of(rest));
            assert forall|i: int| 0 <= i < lead_bytes(p).len() implies #[trigger] nodes[i] == Node::Byte(lead_bytes(p)[i]) by {
                if i > 0 {
                    assert(nodes[i] == nodes_of(rest)[i - 1]);
                }
            }
            let m = lead_bytes(rest).len() as int;
            assert(nodes[m + 1] == nodes_of(rest)[m]);
            if is_literal(p) {
                assert forall|i: int| 0 <= i < rest.len() implies #[trigger] rest[i] is Byte by {
                    assert(rest[i] == p[i + 1]);
                }
            }
        } else {
            assert(nodes[0] == if p[0] is Star { Node::Star } else { Node::Any });
            if p[0] is Any {
                assert(nodes.len() == 7 + nodes_of(rest).len());
            }
        }
    }
}

/// The node `i` alone.
spec fn one_node(n: nat, i: int) -> Seq<bool> {
    Seq::new(n, |j: int| j == i)
}

/// What byte `b` leads to from the node of a byte alone.
proof fn lemma_byte_step(nodes: Seq<Node>, i: int, c: u8, b: u8, j: int)
    requires
        0 <= i < nodes.len() - 1,
        nodes[i] == Node::Byte(c),
        0 <= j < nodes.len(),
    ensures
        j <= i || b != c ==> !next_set(nodes, one_node(nodes.len(), i), b)[j],
        j == i + 1 && b == c ==> next_set(nodes, one_node(nodes.len(), i), b)[j],
        j == i + 2 && b == c && nodes[i + 1] != Node::Star ==> !next_set(nodes, one_node(nodes.len(), i), b)[j],
        j > i + 2 && b == c && nodes[i + 1] != Node::Star ==> !next_set(nodes, one_node(nodes.len(), i), b)[j],
    decreases j,
{
    let set = one_node(nodes.len(), i);
    if leads_to(nodes, set, b, j) {
        let k = choose|k: int| 0 <= k < nodes.len() && #[trigger] set[k] && target(nodes, k, b) == Some(j);
        assert(k == i);
    }
    if b == c && j == i + 1 {
        assert(set[i] && target(nodes, i, b) == Some(j));
    }
    if j > 0 {
        lemma_byte_step(nodes, i, c, b, j - 1);
        assert(next_set(nodes, set, b)[j - 1] == in_next(nodes, set, b, j - 1));
    }
}

/// The nodes after the first `i` leading bytes.
proof fn lemma_lead_states(p: Seq<Symbol>, i: int)
    requires
        0 <= i <= lead_bytes(p).len(),
    ensures
        ({
            let nodes = nodes_of(p);
            let m = lead_bytes(p).len();
            let after = states_after(nodes, lead_bytes(p).take(i));
            &&& after.len() == nodes.len()
            &&& after[i]
            &&& forall|j: int| 0 <= j < i ==> !#[trigger] after[j]
            &&& (i < m || nodes[i] == Node::End) ==> after == one_node(nodes.len(), i)
        }),
    decreases i,
{
    let nodes = nodes_of(p);
    let lead = lead_bytes(p);
    lemma_lead_nodes(p);
    let after = states_after(nodes, lead.take(i));
    if i == 0 {
        assert(after == first_states(nodes));
        if nodes[0] != Node::Star {
            assert forall|j: int| 0 <= j < nodes.len() implies after[j] == (j == 0) by {
                if j > 0 && after[j] {
                    assert(nodes[0] == Node::Star);
                }
            }
            assert(after =~= one_node(nodes.len(), 0));
        }
    } else {
        lemma_lead_states(p, i - 1);
        let w = lead.take(i);
        assert(w.drop_last() =~= lead.take(i - 1));
        assert(w.last() == lead[i - 1]);
        assert(nodes[i - 1] == Node::Byte(lead[i - 1]));
        let set = one_node(nodes.len(), i - 1);
        assert(after == next_set(nodes, set, lead[i - 1]));
        assert forall|j: int| 0 <= j < nodes.len() implies (j < i ==> !after[j]) && (j == i ==> after[j]) && (nodes[i] != Node::Star ==> after[j] == (j == i)) by {
            lemma_byte_step(nodes, i - 1, lead[i - 1], lead[i - 1], j);
        }
        if nodes[i] != Node::Star {
            assert(after =~= one_node(nodes.len(), i));
        }
    }
}

/// The only entry of a row.
proof fn lemma_one_entry(row: Seq<u32>, c: u8, i: int)
    requires
        row.len() == 256,
        row[c as int] != DEAD,
        forall|j: int| 0 <= j < 256 && j != c ==> #[trigger] row[j] == DEAD,
        0 <= i <= 256,
    ensures
        i <= c ==> row_ranges(row, i) == seq![TransitionRange { min: c, max: c, dest: row[c as int] }],
        i > c ==> row_ranges(row, i) == Seq::<TransitionRange>::empty(),
    decreases 256 - i,
{
    if i < 256 {
        lemma_one_entry(row, c, i + 1);
        if i == c {
            reveal_with_fuel(run_end, 2);
            assert(run_end(row, i, row[i]) == i + 1);
        }
    }
}

proof fn lemma_no_entry(row: Seq<u32>, i: int)
    requires
        row.len() == 256,
        forall|j: int| 0 <= j < 256 ==> #[trigger] row[j] == DEAD,
        0 <= i <= 256,
    ensures
        row_ranges(row, i) == Seq::<TransitionRange>::empty(),
    decreases 256 - i,
{
    if i < 256 {
        lemma_no_entry(row, i + 1);
    }
}

/// An entry of the table: dead where no node is reached.
proof fn lemma_entry(nodes: Seq<Node>, words: Seq<Seq<u8>>, table: Seq<u32>, accept: Seq<bool>, d: int, b: u8)
    requires
        automaton_of(nodes, words, table, accept),
        0 <= d < words.len(),
    ensures
        ({
            let next = next_set(nodes, states_after(nodes, words[d]), b);
            let t = table_row(table, d)[b as int];
            &&& table_row(table, d).len() == 256
            &&& t == DEAD <==> set_empty(next)
            &&& t != DEAD ==> t < words.len() && states_after(nodes, words[t as int]) == next
            &&& accept[d] == states_after(nodes, words[d])[nodes.len() - 1]
        }),
{
    assert(table_row(table, d)[b as int] == table[256 * d + b]);
    assert(leads_on(nodes, words, d, b, table[256 * d + b]));
    assert(words[d].push(b).drop_last() =~= words[d]);
    assert(accept[d] == states_after(nodes, words[d])[nodes.len() - 1]);
}

/// From the node of a byte alone, other bytes lead nowhere.
proof fn lemma_other_byte(nodes: Seq<Node>, i: int, c: u8, b: u8)
    requires
        0 <= i < nodes.len() - 1,
        nodes[i] == Node::Byte(c),
        b != c,
    ensures
        set_empty(next_set(nodes, one_node(nodes.len(), i), b)),
{
    assert forall|k: int| 0 <= k < nodes.len() implies !#[trigger] next_set(nodes, one_node(nodes.len(), i), b)[k] by {
        lemma_byte_step(nodes, i, c, b, k);
    }
}

/// From the last node, no byte leads anywhere.
proof fn lemma_end_leads_nowhere(nodes: Seq<Node>, m: int, b: u8)
    requires
        0 <= m < nodes.len(),
        nodes[m] == Node::End,
    ensures
        set_empty(next_set(nodes, one_node(nodes.len(), m), b)),
{
    assert forall|k: int| 0 <= k < nodes.len() implies !#[trigger] next_set(nodes, one_node(nodes.len(), m), b)[k] by {
        lemma_end_step(nodes, m, b, k);
    }
}

/// From a star, and from the node of `?`, small bytes lead somewhere.
proof fn lemma_wild_leads(nodes: Seq<Node>, set: Seq<bool>, m: int, b: u8)
    requires
        set.len() == nodes.len(),
        0 <= m < nodes.len(),
        set[m],
        nodes[m] == Node::Star || (nodes[m] == Node::Any && m + 7 < nodes.len()),
        b <= 1,
    ensures
        !set_empty(next_set(nodes, set, b)),
{
    if nodes[m] == Node::Star {
        lemma_star_leads(nodes, set, m, b);
    } else {
        assert(set[m] && target(nodes, m, b) == Some(m + 7));
        assert(leads_to(nodes, set, b, m + 7));
        assert(next_set(nodes, set, b)[m + 7]);
    }
}

/// From the state after the first `i` leading bytes, the next one is forced.
proof fn lemma_lead_forced(p: Seq<Symbol>, words: Seq<Seq<u8>>, table: Seq<u32>, accept: Seq<bool>, d: int, i: int)
    requires
        automaton_of(nodes_of(p), words, table, accept),
        0 <= d < words.len(),
        0 <= i < lead_bytes(p).len(),
        states_after(nodes_of(p), words[d]) == states_after(nodes_of(p), lead_bytes(p).take(i)),
    ensures
        ({
            let row = table_row(table, d);
            let c = lead_bytes(p)[i];
            let t = row[c as int] as int;
            &&& row_ranges(row, 0) == seq![TransitionRange { min: c, max: c, dest: t as u32 }]
            &&& 0 <= t < words.len()
            &&& states_after(nodes_of(p), words[t]) == states_after(nodes_of(p), lead_bytes(p).take(i + 1))
            &&& !accept[d]
        }),
{
    let nodes = nodes_of(p);
    let lead = lead_bytes(p);
    let c = lead[i];
    let row = table_row(table, d);
    lemma_lead_nodes(p);
    lemma_lead_states(p, i);
    lemma_lead_states(p, i + 1);
    assert(lead.take(i + 1).drop_last() =~= lead.take(i));
    let after = states_after(nodes, lead.take(i + 1));
    assert(after[i + 1]);
    lemma_entry(nodes, words, table, accept, d, c);
    assert forall|j: int| 0 <= j < 256 && j != c implies #[trigger] row[j] == DEAD by {
        lemma_entry(nodes, words, table, accept, d, j as u8);
        lemma_other_byte(nodes, i, c, j as u8);
    }
    lemma_one_entry(row, c, 0);
}

/// The state after all leading bytes is not forced.
proof fn lemma_lead_ends(p: Seq<Symbol>, words: Seq<Seq<u8>>, table: Seq<u32>, accept: Seq<bool>, d: int)
    requires
        automaton_of(nodes_of(p), words, table, accept),
        0 <= d < words.len(),
        states_after(nodes_of(p), words[d]) == states_after(nodes_of(p), lead_bytes(p)),
    ensures
        !forced(table_row(table, d)),
        is_literal(p) ==> row_ranges(table_row(table, d), 0) == Seq::<TransitionRange>::empty() && accept[d],
{
    let nodes = nodes_of(p);
    let lead = lead_bytes(p);
    let m = lead.len() as int;
    let row = table_row(table, d);
    lemma_lead_nodes(p);
    lemma_lead_states(p, m);
    assert(lead.take(m) =~= lead);
    let set = states_after(nodes, lead);
    lemma_entry(nodes, words, table, accept, d, 0);
    if nodes[m] == Node::End {
        assert forall|j: int| 0 <= j < 256 implies #[trigger] row[j] == DEAD by {
            lemma_entry(nodes, words, table, accept, d, j as u8);
            lemma_end_leads_nowhere(nodes, m, j as u8);
        }
        lemma_no_entry(row, 0);
    } else {
        lemma_entry(nodes, words, table, accept, d, 1);
        lemma_wild_leads(nodes, set, m, 0);
        lemma_wild_leads(nodes, set, m, 1);
        assert(row[0] != DEAD);
        assert(row[1] != DEAD);
        if forced(row) {
            lemma_forced(row);
        }
    }
}

proof fn lemma_end_step(nodes: Seq<Node>, m: int, b: u8, j: int)
    requires
        0 <= m < nodes.len(),
        nodes[m] == Node::End,
        0 <= j < nodes.len(),
    ensures
        !next_set(nodes, one_node(nodes.len(), m), b)[j],
    decreases j,
{
    let set = one_node(nodes.len(), m);
    if leads_to(nodes, set, b, j) {
        let k = choose|k: int| 0 <= k < nodes.len() && #[trigger] set[k] && target(nodes, k, b) == Some(j);
        assert(k == m);
    }
    if j > 0 {
        lemma_end_step(nodes, m, b, j - 1);
        assert(next_set(nodes, set, b)[j - 1] == in_next(nodes, set, b, j - 1));
    }
}

/// The walk over the leading bytes.
proof fn lemma_lead_walk(p: Seq<Symbol>, words: Seq<Seq<u8>>, table: Seq<u32>, accept: Seq<bool>, i: int) -> (d: int)
    requires
        automaton_of(nodes_of(p), words, table, accept),
        0 <= i <= lead_bytes(p).len(),
    ensures
        forced_walk(table, 0, lead_bytes(p).take(i), d),
        0 <= d < words.len(),
        states_after(nodes_of(p), words[d]) == states_after(nodes_of(p), lead_bytes(p).take(i)),
    decreases i,
{
    let lead = lead_bytes(p);
    if i == 0 {
        assert(lead.take(0) =~= words[0]);
        0
    } else {
        let e = lemma_lead_walk(p, words, table, accept, i - 1);
        lemma_lead_forced(p, words, table, accept, e, i - 1);
        let row = table_row(table, e);
        assert(forced(row));
        lemma_walk_push(table, 0, lead.take(i - 1), e, lead[i - 1]);
        assert(lead.take(i) =~= lead.take(i - 1).push(lead[i - 1]));
        row_ranges(row, 0)[0].dest as int
    }
}

/// There is one walk over forced bytes to where none is forced.
proof fn lemma_walk_unique(table: Seq<u32>, from: int, a: Seq<u8>, d: int, b: Seq<u8>, e: int)
    requires
        forced_walk(table, from, a, d),
        forced_walk(table, from, b, e),
        !forced(table_row(table, d)),
        !forced(table_row(table, e)),
    ensures
        a == b,
        d == e,
    decreases a.len(),
{
    if a.len() > 0 && b.len() > 0 {
        let next = row_ranges(table_row(table, from), 0)[0].dest as int;
        lemma_walk_unique(table, next, a.skip(1), d, b.skip(1), e);
        assert(a =~= seq![a[0]] + a.skip(1));
        assert(b =~= seq![b[0]] + b.skip(1));
    } else {
        assert(a =~= b);
    }
}

/// What matches a pattern begins with its leading bytes.
proof fn lemma_matches_lead(p: Seq<Symbol>, s: Seq<u8>)
    requires
        matches_symbols(p, s),
    ensures
        lead_bytes(p).len() <= s.len(),
        s.take(lead_bytes(p).len() as int) == lead_bytes(p),
    decreases p.len(),
{
    if p.len() > 0 && p[0] is Byte {
        lemma_matches_lead(p.drop_first(), s.skip(1));
        let q = lead_bytes(p.drop_first());
        assert(s.take(q.len() as int + 1) =~= seq![s[0]] + s.skip(1).take(q.len() as int));
    } else {
        assert(s.take(0) =~= Seq::empty());
    }
}

/// The forced bytes from the start are those before the first wildcard, and
/// everything that is accepted begins with them.
pub proof fn law_prefix_is_lead(dfa: WildcardDfa, pattern: Seq<u8>, q: Seq<u8>, d: int)
    requires
        dfa.is_for(pattern),
        !too_many_states(nodes_of(symbols(pattern))),
        forced_walk(dfa.table(), 0, q, d),
        !forced(table_row(dfa.table(), d)),
    ensures
        q == lead_bytes(symbols(pattern)),
        forall|s: Seq<u8>| #[trigger] dfa.language(s) ==> q.len() <= s.len() && s.take(q.len() as int) == q,
{
    let p = symbols(pattern);
    let (table, accept) = (dfa.table(), dfa.accepting());
    let words = choose|words: Seq<Seq<u8>>| #[trigger] automaton_of(nodes_of(p), words, table, accept);
    let lead = lead_bytes(p);
    let m = lead.len() as int;
    let e = lemma_lead_walk(p, words, table, accept, m);
    assert(lead.take(m) =~= lead);
    lemma_lead_ends(p, words, table, accept, e);
    lemma_walk_unique(table, 0, q, d, lead, e);
    assert forall|s: Seq<u8>| #[trigger] dfa.language(s) implies q.len() <= s.len() && s.take(q.len() as int) == q by {
        lemma_language(pattern, words, table, accept, s);
        lemma_matches_lead(p, s);
    }
}

// ---------------------------------------------------------------------------
// Literals
// ---------------------------------------------------------------------------

/// A literal matches itself and nothing else.
proof fn lemma_literal_matches(p: Seq<Symbol>, s: Seq<u8>)
    requires
        is_literal(p),
    ensures
        matches_symbols(p, s) <==> s == lead_bytes(p),
    decreases p.len(),
{
    if p.len() > 0 {
        let rest = p.drop_first();
        assert forall|i: int| 0 <= i < rest.len() implies #[trigger] rest[i] is Byte by {
            assert(rest[i] == p[i + 1]);
        }
        assert(p[0] is Byte);
        if s.len() > 0 {
            lemma_literal_matches(rest, s.skip(1));
            assert(s =~= seq![s[0]] + s.skip(1));
            let t = lead_bytes(p);
            assert(t.skip(1) =~= lead_bytes(rest));
            assert(t[0] == p[0]->Byte_0);
        }
    } else {
        if s.len() == 0 {
            assert(s =~= lead_bytes(p));
        }
    }
}

/// What leads somewhere in a literal is the beginning of it.
proof fn lemma_literal_word(p: Seq<Symbol>, w: Seq<u8>)
    requires
        is_literal(p),
        !set_empty(states_after(nodes_of(p), w)),
    ensures
        w.len() <= lead_bytes(p).len(),
        w == lead_bytes(p).take(w.len() as int),
    decreases w.len(),
{
    let nodes = nodes_of(p);
    let lead = lead_bytes(p);
    lemma_lead_nodes(p);
    if w.len() == 0 {
        assert(w =~= lead.take(0));
    } else {
        let v = w.drop_last();
        let b = w.last();
        let i = v.len() as int;
        lemma_after_len(nodes, v);
        if set_empty(states_after(nodes, v)) {
            assert forall|j: int| 0 <= j < nodes.len() implies !#[trigger] states_after(nodes, w)[j] by {
                lemma_next_of_none(nodes, states_after(nodes, v), b, j);
            }
        }
        lemma_literal_word(p, v);
        lemma_lead_states(p, i);
        if i == lead.len() || b != lead[i] {
            assert forall|j: int| 0 <= j < nodes.len() implies !#[trigger] states_after(nodes, w)[j] by {
                if i == lead.len() {
                    lemma_end_step(nodes, i, b, j);
                } else {
                    lemma_byte_step(nodes, i, lead[i], b, j);
                }
            }
        }
        assert(w =~= v.push(b));
        assert(w =~= lead.take(i + 1));
    }
}

/// The word of state `d` of a literal has `d` bytes.
proof fn lemma_literal_order(p: Seq<Symbol>, words: Seq<Seq<u8>>, table: Seq<u32>, accept: Seq<bool>, d: int)
    requires
        is_literal(p),
        automaton_of(nodes_of(p), words, table, accept),
        0 <= d < words.len(),
    ensures
        forall|i: int| 0 <= i <= d ==> (#[trigger] words[i]).len() == i,
        d <= lead_bytes(p).len(),
    decreases d,
{
    assert(!set_empty(states_after(nodes_of(p), words[d])));
    lemma_literal_word(p, words[d]);
    if d > 0 {
        lemma_literal_order(p, words, table, accept, d - 1);
        assert(words[d].len() > 0 && grows_from(words, d));
        let e = choose|e: int| 0 <= e < d && #[trigger] words[e] == words[d].drop_last();
        let n = words[d].len() as int;
        assert(words[e].len() == e);
        if n < d {
            assert(words[n].len() == n);
            assert(!set_empty(states_after(nodes_of(p), words[n])));
            lemma_literal_word(p, words[n]);
            assert(words[n] == words[d]);
            assert(states_after(nodes_of(p), words[n]) != states_after(nodes_of(p), words[d]));
        }
    }
}

/// A literal that is not too long has as many states as bytes and one more.
pub proof fn law_literal_states(p: Seq<Symbol>)
    requires
        is_literal(p),
        p.len() < DEAD,
    ensures
        !too_many_states(nodes_of(p)),
{
    let nodes = nodes_of(p);
    lemma_lead_nodes(p);
    if too_many_states(nodes) {
        let words = choose|words: Seq<Seq<u8>>| words.len() > DEAD && #[trigger] told_apart(nodes, words);
        let f = Seq::new(words.len(), |i: int| words[i].len() as int);
        assert forall|i: int| 0 <= i < f.len() implies 0 <= #[trigger] f[i] < p.len() + 1 by {
            assert(!set_empty(states_after(nodes, words[i])));
            lemma_literal_word(p, words[i]);
        }
        assert forall|i: int, j: int| 0 <= i < j < f.len() implies #[trigger] f[i] != #[trigger] f[j] by {
            assert(!set_empty(states_after(nodes, words[i])));
            assert(!set_empty(states_after(nodes, words[j])));
            lemma_literal_word(p, words[i]);
            lemma_literal_word(p, words[j]);
            assert(states_after(nodes, words[i]) != states_after(nodes, words[j]));
        }
        lemma_pigeonhole(f, p.len() + 1);
    }
}

/// The automaton of a literal: byte `i` leads from state `i` to the next, and
/// the literal is the only string accepted.
pub proof fn law_literal(dfa: WildcardDfa, pattern: Seq<u8>)
    requires
        dfa.is_for(pattern),
        is_literal(symbols(pattern)),
        symbols(pattern).len() < DEAD,
    ensures
        ({
            let lead = lead_bytes(symbols(pattern));
            &&& dfa.states() == lead.len() + 1
            &&& forall|i: int| 0 <= i < lead.len() ==> row_ranges(#[trigger] table_row(dfa.table(), i), 0) == seq![TransitionRange { min: lead[i], max: lead[i], dest: (i + 1) as u32 }]
            &&& row_ranges(table_row(dfa.table(), lead.len() as int), 0) == Seq::<TransitionRange>::empty()
            &&& only_string(dfa.table(), dfa.accepting(), lead)
        }),
{
    let p = symbols(pattern);
    law_literal_states(p);
    let nodes = nodes_of(p);
    let (table, accept) = (dfa.table(), dfa.accepting());
    let words = choose|words: Seq<Seq<u8>>| #[trigger] automaton_of(nodes, words, table, accept);
    let lead = lead_bytes(p);
    let n = lead.len() as int;
    lemma_lead_nodes(p);
    lemma_literal_order(p, words, table, accept, words.len() - 1);
    assert(lead.take(n) =~= lead);
    lemma_lead_states(p, n);
    assert(states_after(nodes, lead)[n]);
    let last = lemma_state_of(nodes, words, table, accept, lead);
    lemma_literal_place(p, words, table, accept, last, n);
    assert(words[n] == lead) by {
        assert(!set_empty(states_after(nodes, words[n])));
        lemma_literal_word(p, words[n]);
    }
    lemma_lead_ends(p, words, table, accept, n);
    assert forall|i: int| 0 <= i < n implies row_ranges(#[trigger] table_row(table, i), 0) == seq![TransitionRange { min: lead[i], max: lead[i], dest: (i + 1) as u32 }] by {
        assert(words[i].len() == i);
        assert(!set_empty(states_after(nodes, words[i])));
        lemma_literal_word(p, words[i]);
        lemma_lead_forced(p, words, table, accept, i, i);
        let t = table_row(table, i)[lead[i] as int] as int;
        lemma_literal_place(p, words, table, accept, t, i + 1);
    }
    assert forall|s: Seq<u8>| #[trigger] table_accepts(table, accept, 0, s) <==> s == lead by {
        lemma_language(pattern, words, table, accept, s);
        lemma_literal_matches(p, s);
    }
}

/// The state after the first `i` bytes of a literal is state `i`.
proof fn lemma_literal_place(p: Seq<Symbol>, words: Seq<Seq<u8>>, table: Seq<u32>, accept: Seq<bool>, t: int, i: int)
    requires
        is_literal(p),
        automaton_of(nodes_of(p), words, table, accept),
        0 <= t < words.len(),
        0 <= i <= lead_bytes(p).len(),
        states_after(nodes_of(p), words[t]) == states_after(nodes_of(p), lead_bytes(p).take(i)),
    ensures
        t == i,
{
    lemma_lead_nodes(p);
    lemma_literal_order(p, words, table, accept, t);
    assert(words[t].len() == t);
    assert(!set_empty(states_after(nodes_of(p), words[t])));
    lemma_literal_word(p, words[t]);
    lemma_lead_states(p, i);
    lemma_lead_states(p, t);
}

/// Some string matches.
proof fn lemma_something_matches(p: Seq<Symbol>) -> (s: Seq<u8>)
    ensures
        matches_symbols(p, s),
    decreases p.len(),
{
    if p.len() == 0 {
        Seq::empty()
    } else {
        let t = lemma_something_matches(p.drop_first());
        match p[0] {
            Symbol::Star => t,
            Symbol::Any => {
                let s = seq![0u8] + t;
                assert(s.skip(1) =~= t);
                s
            },
            Symbol::Byte(b) => {
                let s = seq![b] + t;
                assert(s.skip(1) =~= t);
                s
            },
        }
    }
}

/// A pattern with a wildcard matches two different strings.
proof fn lemma_two_match(p: Seq<Symbol>) -> (r: (Seq<u8>, Seq<u8>))
    requires
        !is_literal(p),
    ensures
        r.0 != r.1,
        matches_symbols(p, r.0),
        matches_symbols(p, r.1),
    decreases p.len(),
{
    let rest = p.drop_first();
    match p[0] {
        Symbol::Byte(b) => {
            let i = choose|i: int| 0 <= i < p.len() && !(#[trigger] p[i] is Byte);
            assert(rest[i - 1] == p[i]);
            let (x, y) = lemma_two_match(rest);
            let (s, t) = (seq![b] + x, seq![b] + y);
            assert(s.skip(1) =~= x);
            assert(t.skip(1) =~= y);
            (s, t)
        },
        Symbol::Any => {
            let x = lemma_something_matches(rest);
            let (s, t) = (seq![0u8] + x, seq![1u8] + x);
            assert(s.skip(1) =~= x);
            assert(t.skip(1) =~= x);
            assert(s[0] != t[0]);
            (s, t)
        },
        Symbol::Star => {
            let x = lemma_something_matches(rest);
            let t = seq![0u8] + x;
            assert(t.skip(1) =~= x);
            assert(t.len() != x.len());
            (x, t)
        },
    }
}

/// No string is the only one that a pattern with a wildcard accepts.
pub proof fn law_wildcard_not_single(dfa: WildcardDfa, pattern: Seq<u8>, w: Seq<u8>)
    requires
        dfa.is_for(pattern),
        !too_many_states(nodes_of(symbols(pattern))),
        !is_literal(symbols(pattern)),
    ensures
        !only_string(dfa.table(), dfa.accepting(), w),
{
    let p = symbols(pattern);
    let words = choose|words: Seq<Seq<u8>>| #[trigger] automaton_of(nodes_of(p), words, dfa.table(), dfa.accepting());
    let (s, t) = lemma_two_match(p);
    lemma_language(pattern, words, dfa.table(), dfa.accepting(), s);
    lemma_language(pattern, words, dfa.table(), dfa.accepting(), t);
}

/// Unless it is dead, a state that bytes lead to is one from which something
/// can still be accepted: exactly where a term goes on so.
pub proof fn law_dead_is_hopeless(dfa: WildcardDfa, pattern: Seq<u8>, state: int, b: u8)
    requires
        dfa.is_for(pattern),
        !too_many_states(nodes_of(symbols(pattern))),
        0 <= state < dfa.states(),
    ensures
        table_row(dfa.table(), state)[b as int] == DEAD <==> forall|w: Seq<u8>| !#[trigger] table_accepts(dfa.table(), dfa.accepting(), state, seq![b] + w),
        table_row(dfa.table(), state)[b as int] == DEAD || table_row(dfa.table(), state)[b as int] < dfa.states(),
{
    let nodes = nodes_of(symbols(pattern));
    let (table, accept) = (dfa.table(), dfa.accepting());
    let words = choose|words: Seq<Seq<u8>>| #[trigger] automaton_of(nodes, words, table, accept);
    lemma_language(pattern, words, table, accept, Seq::empty());
    lemma_trim(nodes, words, table, accept);
    let t = table_row(table, state)[b as int];
    assert(t == table[256 * state + b]);
    assert(leads_on(nodes, words, state, b, table[256 * state + b]));
    assert forall|w: Seq<u8>| #[trigger] table_accepts(table, accept, state, seq![b] + w) == (t != DEAD && table_accepts(table, accept, t as int, w)) by {
        assert((seq![b] + w).skip(1) =~= w);
    }
    if t != DEAD {
        assert(productive(table, accept, t as int));
        let w = choose|w: Seq<u8>| #[trigger] table_accepts(table, accept, t as int, w);
        assert(table_accepts(table, accept, state, seq![b] + w));
    }
}

/// The state to which `u` leads from `state`; [`DEAD`] where it leads nowhere.
pub open spec fn led_to(table: Seq<u32>, state: int, u: Seq<u8>) -> int
    decreases u.len(),
{
    if u.len() == 0 {
        state
    } else {
        let t = table_row(table, state)[u[0] as int];
        if t == DEAD {
            DEAD as int
        } else {
            led_to(table, t as int, u.skip(1))
        }
    }
}

/// What is accepted after `u` is what is accepted from the state it leads to.
proof fn lemma_led_to(dfa: WildcardDfa, pattern: Seq<u8>, state: int, u: Seq<u8>, v: Seq<u8>)
    requires
        dfa.is_for(pattern),
        !too_many_states(nodes_of(symbols(pattern))),
        0 <= state < dfa.states(),
    ensures
        led_to(dfa.table(), state, u) == DEAD || 0 <= led_to(dfa.table(), state, u) < dfa.states(),
        table_accepts(dfa.table(), dfa.accepting(), state, u + v) == (led_to(dfa.table(), state, u) != DEAD && table_accepts(
            dfa.table(),
            dfa.accepting(),
            led_to(dfa.table(), state, u),
            v,
        )),
    decreases u.len(),
{
    if u.len() == 0 {
        assert(u + v =~= v);
        let words = choose|words: Seq<Seq<u8>>| #[trigger] automaton_of(nodes_of(symbols(pattern)), words, dfa.table(), dfa.accepting());
        assert(dfa.states() <= DEAD);
    } else {
        law_dead_is_hopeless(dfa, pattern, state, u[0]);
        let t = table_row(dfa.table(), state)[u[0] as int];
        assert((u + v).skip(1) =~= u.skip(1) + v);
        assert((u + v)[0] == u[0]);
        if t != DEAD {
            lemma_led_to(dfa, pattern, t as int, u.skip(1), v);
        }
    }
}

/// From the state that `u` leads to, a byte leads nowhere exactly where no
/// term that begins with `u` and the byte matches the pattern.
pub proof fn law_dead_after(dfa: WildcardDfa, pattern: Seq<u8>, u: Seq<u8>, b: u8)
    requires
        dfa.is_for(pattern),
        !too_many_states(nodes_of(symbols(pattern))),
        led_to(dfa.table(), 0, u) != DEAD,
    ensures
        0 <= led_to(dfa.table(), 0, u) < dfa.states(),
        table_row(dfa.table(), led_to(dfa.table(), 0, u))[b as int] == DEAD <==> forall|w: Seq<u8>| !#[trigger] wildcard_matches(pattern, u + (seq![b] + w)),
{
    let nodes = nodes_of(symbols(pattern));
    let (table, accept) = (dfa.table(), dfa.accepting());
    let words = choose|words: Seq<Seq<u8>>| #[trigger] automaton_of(nodes, words, table, accept);
    let state = led_to(table, 0, u);
    lemma_led_to(dfa, pattern, 0, u, Seq::empty());
    law_dead_is_hopeless(dfa, pattern, state, b);
    assert forall|w: Seq<u8>| #[trigger] wildcard_matches(pattern, u + (seq![b] + w)) == table_accepts(table, accept, state, seq![b] + w) by {
        lemma_led_to(dfa, pattern, 0, u, seq![b] + w);
        lemma_language(pattern, words, table, accept, u + (seq![b] + w));
    }
    if table_row(table, state)[b as int] != DEAD {
        let w = choose|w: Seq<u8>| #[trigger] table_accepts(table, accept, state, seq![b] + w);
        assert(wildcard_matches(pattern, u + (seq![b] + w)));
    } else {
        assert forall|w: Seq<u8>| !#[trigger] wildcard_matches(pattern, u + (seq![b] + w)) by {
            assert(!table_accepts(table, accept, state, seq![b] + w));
        }
    }
}

} // verus!
