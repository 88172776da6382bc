//! What patterns match, by their symbols.

use crate::automaton::{any_len, matches_symbols, symbols, wildcard_matches, Symbol};
use vstd::prelude::*;
use vstd::utf8::{char_is_scalar, encode_scalar, encode_utf8, valid_utf8};

verus! {

/// The bytes of one character, and what the first of them is.
proof fn lemma_scalar_bytes(c: u32)
    requires
        vstd::utf8::is_scalar(c),
    ensures
        c <= 0x7F ==> ((c & 0x7F) as u8) <= 0x7F,
        0x80 <= c <= 0x7FF ==> 0xC2 <= 0xC0u8 | ((c >> 6) & 0x1F) as u8 <= 0xDF,
        0x800 <= c <= 0xFFFF ==> 0xE0 <= 0xE0u8 | ((c >> 12) & 0x0F) as u8 <= 0xEF,
        0x10000 <= c <= 0x10FFFF ==> 0xF0 <= 0xF0u8 | ((c >> 18) & 0x7) as u8 <= 0xF4,
        0x80 <= 0x80u8 | (c & 0x3F) as u8 <= 0xBF,
        0x80 <= 0x80u8 | ((c >> 6) & 0x3F) as u8 <= 0xBF,
        0x80 <= 0x80u8 | ((c >> 12) & 0x3F) as u8 <= 0xBF,
{
    assert(c <= 0x7F ==> ((c & 0x7F) as u8) <= 0x7F) by (bit_vector);
    assert(0x80 <= c <= 0x7FF ==> 0xC2 <= 0xC0u8 | ((c >> 6) & 0x1F) as u8 <= 0xDF) by (bit_vector);
    assert(0x800 <= c <= 0xFFFF ==> 0xE0 <= 0xE0u8 | ((c >> 12) & 0x0F) as u8 <= 0xEF) by (bit_vector);
    assert(0x10000 <= c <= 0x10FFFF ==> 0xF0 <= 0xF0u8 | ((c >> 18) & 0x7) as u8 <= 0xF4) by (bit_vector);
    assert(0x80 <= 0x80u8 | (c & 0x3F) as u8 <= 0xBF) by (bit_vector);
    assert(0x80 <= 0x80u8 | ((c >> 6) & 0x3F) as u8 <= 0xBF) by (bit_vector);
    assert(0x80 <= 0x80u8 | ((c >> 12) & 0x3F) as u8 <= 0xBF) by (bit_vector);
}

/// A `?` takes one character, whichever it is: the pattern matches a string that
/// begins with the character exactly if the rest of it matches the rest of the
/// string.
pub proof fn law_any_takes_a_character(p: Seq<Symbol>, c: char, s: Seq<u8>)
    requires
        p.len() > 0,
        p[0] == Symbol::Any,
    ensures
        matches_symbols(p, encode_utf8(seq![c]) + s) <==> matches_symbols(p.drop_first(), s),
        !matches_symbols(p, Seq::empty()),
{
    let x = c as u32;
    char_is_scalar(c);
    lemma_scalar_bytes(x);
    let b = encode_scalar(x);
    reveal_with_fuel(encode_utf8, 2);
    assert(encode_utf8(seq![c]) =~= b);
    let all = b + s;
    assert(any_len(all) == b.len());
    assert(all.skip(b.len() as int) =~= s);
}

/// A byte takes itself and nothing else.
pub proof fn law_byte_takes_itself(p: Seq<Symbol>, b: u8, x: u8, s: Seq<u8>)
    requires
        p.len() > 0,
        p[0] == Symbol::Byte(b),
    ensures
        matches_symbols(p, seq![x] + s) <==> x == b && matches_symbols(p.drop_first(), s),
        !matches_symbols(p, Seq::empty()),
{
    assert((seq![x] + s).skip(1) =~= s);
}

/// The symbols of well-formed UTF-8 stand for its bytes, one for one.
pub open spec fn literal_symbols(w: Seq<u8>) -> Seq<Symbol> {
    w.map_values(|b: u8| Symbol::Byte(b))
}

/// A pattern without wildcards matches itself only, and with a `*` behind it
/// whatever begins with it; a `*` alone matches everything.
pub proof fn law_literal_and_star(w: Seq<u8>, s: Seq<u8>)
    ensures
        matches_symbols(literal_symbols(w), s) <==> s == w,
        matches_symbols(literal_symbols(w).push(Symbol::Star), s) <==> w.len() <= s.len() && s.take(w.len() as int) == w,
        matches_symbols(seq![Symbol::Star], s),
    decreases w.len(),
{
    let p = literal_symbols(w);
    lemma_star(s);
    if w.len() == 0 {
        assert(p.push(Symbol::Star) =~= seq![Symbol::Star]);
        assert(s.take(0) =~= w);
        if s.len() == 0 {
            assert(s =~= w);
        }
    } else if s.len() > 0 {
        let rest = w.drop_first();
        let t = s.skip(1);
        law_literal_and_star(rest, t);
        assert(p.drop_first() =~= literal_symbols(rest));
        assert(p.push(Symbol::Star).drop_first() =~= literal_symbols(rest).push(Symbol::Star));
        assert(s =~= seq![s[0]] + t);
        assert(w =~= seq![w[0]] + rest);
        if s[0] == w[0] {
            if t == rest {
                assert(s =~= w);
            }
            if s == w {
                assert(t =~= rest);
            }
            if rest.len() <= t.len() {
                if t.take(rest.len() as int) == rest {
                    assert(s.take(w.len() as int) =~= seq![w[0]] + rest);
                }
                if s.take(w.len() as int) == w {
                    assert(t.take(rest.len() as int) =~= s.take(w.len() as int).drop_first());
                }
            }
        } else if w.len() <= s.len() {
            assert(s.take(w.len() as int)[0] == s[0]);
        }
    }
}

proof fn lemma_star(s: Seq<u8>)
    ensures
        matches_symbols(seq![Symbol::Star], s),
    decreases s.len(),
{
    reveal_with_fuel(matches_symbols, 2);
    let p = seq![Symbol::Star];
    assert(p.drop_first() =~= Seq::empty());
    if s.len() > 0 {
        lemma_star(s.skip(1));
    }
}

/// In well-formed UTF-8 a byte of a pattern is a wildcard exactly if it is `*` or
/// `?`, and stands for itself otherwise.
pub proof fn law_wildcards_of_utf8(pattern: Seq<u8>, i: int)
    requires
        valid_utf8(pattern),
        0 <= i < pattern.len(),
    ensures
        symbols(pattern).len() == pattern.len(),
        symbols(pattern)[i] == Symbol::Star <==> pattern[i] == 0x2A,
        symbols(pattern)[i] == Symbol::Any <==> pattern[i] == 0x3F,
        symbols(pattern)[i] matches Symbol::Byte(b) ==> b == pattern[i],
        forall|s: Seq<u8>| #[trigger] wildcard_matches(pattern, s) == matches_symbols(symbols(pattern), s),
{
}

} // verus!
