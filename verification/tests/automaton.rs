//! Wildcard automata.

use codec_lucene9::automaton::{TransitionRange, WildcardDfa};

#[test]
fn pure_prefix() {
    let dfa = WildcardDfa::compile(b"foo*");
    assert!(dfa.accepts(b"foo"));
    assert!(dfa.accepts(b"foobar"));
    assert!(dfa.accepts(b"fooxyz"));
    assert!(!dfa.accepts(b"fo"));
    assert!(!dfa.accepts(b"xfoo"));
    assert!(!dfa.accepts(b""));
}

#[test]
fn question_mark() {
    let dfa = WildcardDfa::compile(b"a?e");
    assert!(dfa.accepts(b"abe"));
    assert!(dfa.accepts(b"axe"));
    assert!(!dfa.accepts(b"ae"));
    assert!(!dfa.accepts(b"abbe"));
    assert!(!dfa.accepts(b"a"));
}

#[test]
fn leading_star() {
    let dfa = WildcardDfa::compile(b"*foo");
    assert!(dfa.accepts(b"foo"));
    assert!(dfa.accepts(b"barfoo"));
    assert!(dfa.accepts(b"xfoo"));
    assert!(!dfa.accepts(b"foob"));
    assert!(!dfa.accepts(b"fo"));
}

#[test]
fn star_in_middle() {
    let dfa = WildcardDfa::compile(b"a*b*c");
    assert!(dfa.accepts(b"abc"));
    assert!(dfa.accepts(b"aXbYc"));
    assert!(dfa.accepts(b"aXXXbYYYc"));
    assert!(!dfa.accepts(b"acb"));
    assert!(!dfa.accepts(b"ab"));
    assert!(!dfa.accepts(b"bc"));
}

#[test]
fn star_only() {
    let dfa = WildcardDfa::compile(b"*");
    assert!(dfa.accepts(b""));
    assert!(dfa.accepts(b"anything"));
    assert!(dfa.accepts(b"x"));
}

#[test]
fn consecutive_stars() {
    let dfa = WildcardDfa::compile(b"a**b");
    assert!(dfa.accepts(b"ab"));
    assert!(dfa.accepts(b"aXXb"));
    assert!(!dfa.accepts(b"a"));
    assert!(!dfa.accepts(b"b"));
}

#[test]
fn exact_no_wildcards() {
    let dfa = WildcardDfa::compile(b"abc");
    assert!(dfa.accepts(b"abc"));
    assert!(!dfa.accepts(b"abd"));
    assert!(!dfa.accepts(b"ab"));
    assert!(!dfa.accepts(b"abcd"));
}

#[test]
fn trailing_question() {
    let dfa = WildcardDfa::compile(b"test?");
    assert!(dfa.accepts(b"tests"));
    assert!(dfa.accepts(b"test1"));
    assert!(!dfa.accepts(b"test"));
    assert!(!dfa.accepts(b"test12"));
}

#[test]
fn empty_pattern() {
    let dfa = WildcardDfa::compile(b"");
    assert!(dfa.accepts(b""));
    assert!(!dfa.accepts(b"a"));
}

#[test]
fn ranges_literal() {
    let dfa = WildcardDfa::compile(b"ab");
    let r0 = dfa.ranges(0);
    assert_eq!(r0.len(), 1);
    assert_eq!(r0[0], TransitionRange { min: b'a', max: b'a', dest: 1 });
    let r1 = dfa.ranges(1);
    assert_eq!(r1.len(), 1);
    assert_eq!(r1[0], TransitionRange { min: b'b', max: b'b', dest: 2 });
    assert!(dfa.ranges(2).is_empty());
}

#[test]
fn ranges_star() {
    let dfa = WildcardDfa::compile(b"a*");
    let r0 = dfa.ranges(0);
    assert_eq!(r0.len(), 1);
    assert_eq!(r0[0].min, b'a');
    assert_eq!(r0[0].max, b'a');
    let accept_state = r0[0].dest;
    let ra = dfa.ranges(accept_state);
    assert_eq!(ra.len(), 1);
    assert_eq!(ra[0].min, 0x00);
    assert_eq!(ra[0].max, 0xFF);
}

#[test]
fn single_literal() {
    let dfa = WildcardDfa::compile(b"hello");
    assert_eq!(dfa.single_string(), Some(b"hello".as_slice()));
}

#[test]
fn single_empty() {
    let dfa = WildcardDfa::compile(b"");
    assert_eq!(dfa.single_string(), Some(b"".as_slice()));
}

#[test]
fn single_none_for_star() {
    assert_eq!(WildcardDfa::compile(b"h*llo").single_string(), None);
    assert_eq!(WildcardDfa::compile(b"foo*").single_string(), None);
    assert_eq!(WildcardDfa::compile(b"*").single_string(), None);
}

#[test]
fn single_none_for_question() {
    assert_eq!(WildcardDfa::compile(b"h?llo").single_string(), None);
    assert_eq!(WildcardDfa::compile(b"?").single_string(), None);
}
