//! Sorted string maps and sets, and the byte form of strings.

use crate::bytes::{bytes_equal, bytes_less, lemma_lex_order, lex_less, take_at, varint_bytes, vint_at};
use crate::bytes::{holds_at, law_vint_round_trip, lemma_holds_concat};
use crate::error::ErrorKind;
use crate::num::spec_to_u64;
use vstd::prelude::*;
use vstd::utf8::{decode_utf8, decode_utf8_encode_utf8, encode_utf8, encode_utf8_decode_utf8, encode_utf8_valid_utf8, valid_utf8};

verus! {

/// The byte form of a string: its UTF-8 length as a variable-length int, then
/// the UTF-8 bytes.
pub open spec fn string_bytes(s: Seq<char>) -> Seq<u8> {
    varint_bytes((encode_utf8(s).len() % 0x1_0000_0000) as nat) + encode_utf8(s)
}

/// The string at `p`.
pub open spec fn string_at(s: Seq<u8>, p: int) -> Result<(Seq<char>, int), ErrorKind> {
    match vint_at(s, p) {
        Ok((n, q)) => match take_at(s, q, spec_to_u64(n as i64) as int) {
            Ok((b, e)) => if valid_utf8(b) {
                Ok((decode_utf8(b), e))
            } else {
                Err(ErrorKind::InvalidData)
            },
            Err(k) => Err(k),
        },
        Err(k) => Err(k),
    }
}

/// A string of less than 2 GiB that was written is read back.
pub proof fn law_string_round_trip(s: Seq<u8>, p: int, t: Seq<char>)
    requires
        holds_at(s, p, string_bytes(t)),
        encode_utf8(t).len() < 0x8000_0000,
    ensures
        string_at(s, p) == Ok::<(Seq<char>, int), ErrorKind>((t, p + string_bytes(t).len())),
{
    let b = encode_utf8(t);
    let n = b.len() as i32;
    lemma_holds_concat(s, p, varint_bytes(b.len()), b);
    law_vint_round_trip(s, p, n);
    encode_utf8_valid_utf8(t);
    encode_utf8_decode_utf8(t);
}

/// `String::from_utf8`: succeeds exactly on well-formed UTF-8, and then holds
/// the characters that those bytes encode.
#[verifier::external_body]
fn std_string_from_utf8(bytes: Vec<u8>) -> (r: Option<String>)
    ensures
        r is Some <==> valid_utf8(bytes@),
        r is Some ==> r->Some_0@ == decode_utf8(bytes@),
{
    String::from_utf8(bytes).ok()
}

/// The string that `bytes` encode, if they are well-formed UTF-8.
pub fn string_from_utf8(bytes: Vec<u8>) -> (r: Option<String>)
    ensures
        r is Some <==> valid_utf8(bytes@),
        r is Some ==> r->Some_0@ == decode_utf8(bytes@),
        r is Some ==> encode_utf8(r->Some_0@) == bytes@,
{
    proof {
        if valid_utf8(bytes@) {
            decode_utf8_encode_utf8(bytes@);
        }
    }
    std_string_from_utf8(bytes)
}

/// Strings in the order of their UTF-8 bytes.
pub open spec fn str_less(a: Seq<char>, b: Seq<char>) -> bool {
    lex_less(encode_utf8(a), encode_utf8(b))
}

/// Equal UTF-8 means equal strings.
pub proof fn lemma_utf8_injective(a: Seq<char>, b: Seq<char>)
    ensures
        encode_utf8(a) == encode_utf8(b) <==> a == b,
{
    encode_utf8_decode_utf8(a);
    encode_utf8_decode_utf8(b);
}

/// The keys ascend strictly.
pub open spec fn keys_ascend<V>(pairs: Seq<(Seq<char>, V)>) -> bool {
    forall|i: int, j: int| 0 <= i < j < pairs.len() ==> #[trigger] str_less(pairs[i].0, pairs[j].0)
}

/// The map that a list of pairs stands for; a later pair replaces an earlier.
pub open spec fn pairs_map<V>(pairs: Seq<(Seq<char>, V)>) -> Map<Seq<char>, V>
    decreases pairs.len(),
{
    if pairs.len() == 0 {
        Map::empty()
    } else {
        pairs_map(pairs.drop_last()).insert(pairs.last().0, pairs.last().1)
    }
}

/// Keys of the map are the keys of the list, and with distinct keys each pair
/// is in the map.
pub proof fn lemma_pairs_map<V>(pairs: Seq<(Seq<char>, V)>)
    requires
        keys_ascend(pairs),
    ensures
        forall|i: int| 0 <= i < pairs.len() ==> #[trigger] pairs_map(pairs).contains_pair(pairs[i].0, pairs[i].1),
        forall|k: Seq<char>| #[trigger] pairs_map(pairs).contains_key(k) ==> exists|i: int| 0 <= i < pairs.len() && pairs[i].0 == k,
    decreases pairs.len(),
{
    if pairs.len() > 0 {
        let d = pairs.drop_last();
        assert(keys_ascend(d)) by {
            assert forall|i: int, j: int| 0 <= i < j < d.len() implies #[trigger] str_less(d[i].0, d[j].0) by {
                assert(str_less(pairs[i].0, pairs[j].0));
            }
        }
        lemma_pairs_map(d);
        assert forall|i: int| 0 <= i < pairs.len() implies #[trigger] pairs_map(pairs).contains_pair(pairs[i].0, pairs[i].1) by {
            if i < d.len() {
                assert(str_less(pairs[i].0, pairs[pairs.len() - 1].0));
                lemma_lex_order(encode_utf8(pairs[i].0), encode_utf8(pairs.last().0), encode_utf8(pairs[i].0));
                assert(pairs_map(d).contains_pair(d[i].0, d[i].1));
            }
        }
        assert forall|k: Seq<char>| #[trigger] pairs_map(pairs).contains_key(k) implies exists|i: int| 0 <= i < pairs.len() && pairs[i].0 == k by {
            if k == pairs.last().0 {
                assert(pairs[pairs.len() - 1].0 == k);
            } else {
                assert(pairs_map(d).contains_key(k));
                let i = choose|i: int| 0 <= i < d.len() && d[i].0 == k;
                assert(pairs[i].0 == k);
            }
        }
    }
}

/// With ascending keys, putting one more pair into the list at its place puts
/// it into the map.
proof fn lemma_pairs_insert<V>(pairs: Seq<(Seq<char>, V)>, at: int, key: Seq<char>, value: V, after: Seq<(Seq<char>, V)>)
    requires
        keys_ascend(pairs),
        0 <= at <= pairs.len(),
        keys_ascend(after),
        after == pairs.insert(at, (key, value)) || (at < pairs.len() && pairs[at].0 == key && after == pairs.update(at, (key, value))),
    ensures
        pairs_map(after) == pairs_map(pairs).insert(key, value),
{
    lemma_pairs_map(pairs);
    lemma_pairs_map(after);
    let l = pairs_map(after);
    let r = pairs_map(pairs).insert(key, value);
    assert(after[at] == (key, value));
    assert(l.contains_pair(after[at].0, after[at].1));
    let ins = after == pairs.insert(at, (key, value));
    assert forall|k: Seq<char>| #[trigger] l.contains_key(k) implies r.contains_key(k) && r[k] == l[k] by {
        if k != key {
            let i = choose|i: int| 0 <= i < after.len() && after[i].0 == k;
            assert(l.contains_pair(after[i].0, after[i].1));
            let j = if ins && i > at { i - 1 } else { i };
            assert(pairs[j] == after[i]);
            assert(pairs_map(pairs).contains_pair(pairs[j].0, pairs[j].1));
        }
    }
    assert forall|k: Seq<char>| #[trigger] r.contains_key(k) implies l.contains_key(k) by {
        if k != key {
            assert(pairs_map(pairs).contains_key(k));
            let i = choose|i: int| 0 <= i < pairs.len() && pairs[i].0 == k;
            let j = if ins && i >= at { i + 1 } else { i };
            assert(after[j] == pairs[i]);
            assert(l.contains_pair(after[j].0, after[j].1));
        }
    }
    assert(l =~= r);
}

/// A map from strings to strings, kept in ascending order of its keys.
pub struct StringMap {
    entries: Vec<(String, String)>,
}

impl StringMap {
    /// The entries in key order.
    pub closed spec fn pairs(&self) -> Seq<(Seq<char>, Seq<char>)> {
        self.entries@.map_values(|e: (String, String)| (e.0@, e.1@))
    }

    #[verifier::type_invariant]
    spec fn sorted(self) -> bool {
        keys_ascend(self.pairs())
    }

    pub fn new() -> (m: StringMap)
        ensures
            m.pairs() == Seq::<(Seq<char>, Seq<char>)>::empty(),
    {
        let m = StringMap { entries: Vec::new() };
        assert(m.pairs() =~= Seq::<(Seq<char>, Seq<char>)>::empty());
        m
    }

    pub fn len(&self) -> (n: usize)
        ensures
            n == self.pairs().len(),
            keys_ascend(self.pairs()),
    {
        proof {
            use_type_invariant(self);
        }
        self.entries.len()
    }

    pub fn is_empty(&self) -> (b: bool)
        ensures
            b == (self.pairs().len() == 0),
    {
        self.entries.len() == 0
    }

    /// The `i`-th entry in key order.
    pub fn entry(&self, i: usize) -> (e: &(String, String))
        requires
            i < self.pairs().len(),
        ensures
            e.0@ == self.pairs()[i as int].0,
            e.1@ == self.pairs()[i as int].1,
    {
        &self.entries[i]
    }

    /// First position whose key is not below `key`.
    fn position(&self, key: &str) -> (i: usize)
        ensures
            i <= self.pairs().len(),
            forall|j: int| 0 <= j < i ==> str_less(#[trigger] self.pairs()[j].0, key@),
            i < self.pairs().len() ==> !str_less(self.pairs()[i as int].0, key@),
    {
        let mut i: usize = 0;
        while i < self.entries.len() && bytes_less(self.entries[i].0.as_str().as_bytes(), key.as_bytes())
            invariant
                i <= self.entries.len(),
                forall|j: int| 0 <= j < i ==> str_less(#[trigger] self.pairs()[j].0, key@),
            decreases self.entries.len() - i,
        {
            i = i + 1;
        }
        i
    }

    /// The value under `key`.
    pub fn get(&self, key: &str) -> (r: Option<&String>)
        ensures
            match r {
                Some(v) => pairs_map(self.pairs()).contains_pair(key@, v@),
                None => !pairs_map(self.pairs()).contains_key(key@),
            },
    {
        proof {
            use_type_invariant(self);
            lemma_pairs_map(self.pairs());
        }
        let i: usize = self.position(key);
        if i < self.entries.len() && bytes_equal(self.entries[i].0.as_str().as_bytes(), key.as_bytes()) {
            proof {
                lemma_utf8_injective(self.pairs()[i as int].0, key@);
                assert(pairs_map(self.pairs()).contains_pair(self.pairs()[i as int].0, self.pairs()[i as int].1));
            }
            return Some(&self.entries[i].1);
        }
        proof {
            if pairs_map(self.pairs()).contains_key(key@) {
                let j = choose|j: int| 0 <= j < self.pairs().len() && self.pairs()[j].0 == key@;
                lemma_lex_order(encode_utf8(key@), encode_utf8(key@), encode_utf8(key@));
                if j > i {
                    assert(str_less(self.pairs()[i as int].0, self.pairs()[j].0));
                }
            }
        }
        None
    }

    /// Puts `value` under `key`, replacing what was there.
    pub fn insert(&mut self, key: String, value: String)
        ensures
            pairs_map(final(self).pairs()) == pairs_map(old(self).pairs()).insert(key@, value@),
    {
        proof {
            use_type_invariant(&*self);
        }
        let i: usize = self.position(key.as_str());
        let ghost before = self.pairs();
        let ghost (k, v) = (key@, value@);
        let mut list: Vec<(String, String)> = Vec::new();
        core::mem::swap(&mut self.entries, &mut list);
        if i < list.len() && bytes_equal(list[i].0.as_str().as_bytes(), key.as_str().as_bytes()) {
            proof {
                lemma_utf8_injective(before[i as int].0, k);
            }
            list[i] = (key, value);
            let ghost after = list@.map_values(|e: (String, String)| (e.0@, e.1@));
            proof {
                assert(after =~= before.update(i as int, (k, v)));
                assert forall|a: int, b: int| 0 <= a < b < after.len() implies #[trigger] str_less(after[a].0, after[b].0) by {
                    assert(str_less(before[a].0, before[b].0));
                }
                lemma_pairs_insert(before, i as int, k, v, after);
            }
        } else {
            list.insert(i, (key, value));
            let ghost after = list@.map_values(|e: (String, String)| (e.0@, e.1@));
            proof {
                assert(after =~= before.insert(i as int, (k, v)));
                assert forall|a: int, b: int| 0 <= a < b < after.len() implies #[trigger] str_less(after[a].0, after[b].0) by {
                    let a0 = if a > i { a - 1 } else { a };
                    let b0 = if b > i { b - 1 } else { b };
                    if a != i && b != i {
                        assert(str_less(before[a0].0, before[b0].0));
                    } else if a == i {
                        lemma_lex_order(encode_utf8(before[i as int].0), encode_utf8(k), encode_utf8(k));
                        lemma_utf8_injective(before[i as int].0, k);
                        assert(str_less(k, before[i as int].0));
                        if b0 > i {
                            assert(str_less(before[i as int].0, before[b0].0));
                            lemma_lex_order(encode_utf8(k), encode_utf8(before[i as int].0), encode_utf8(before[b0].0));
                        }
                    }
                }
                lemma_pairs_insert(before, i as int, k, v, after);
            }
        }
        core::mem::swap(&mut self.entries, &mut list);
    }
}

/// A set of strings, kept in ascending order.
pub struct StringSet {
    map: StringMap,
}

impl StringSet {
    /// The members in order.
    pub closed spec fn members(&self) -> Seq<Seq<char>> {
        self.map.pairs().map_values(|e: (Seq<char>, Seq<char>)| e.0)
    }

    /// The members as a set.
    pub closed spec fn view(&self) -> Set<Seq<char>> {
        pairs_map(self.map.pairs()).dom()
    }

    pub fn new() -> (s: StringSet)
        ensures
            s@ == Set::<Seq<char>>::empty(),
            s.members() == Seq::<Seq<char>>::empty(),
    {
        let s = StringSet { map: StringMap::new() };
        assert(s.members() =~= Seq::<Seq<char>>::empty());
        assert(s@ =~= Set::<Seq<char>>::empty());
        s
    }

    pub fn len(&self) -> (n: usize)
        ensures
            n == self.members().len(),
            forall|i: int, j: int| 0 <= i < j < n ==> str_less(#[trigger] self.members()[i], #[trigger] self.members()[j]),
            self@ == self.members().to_set(),
    {
        let n: usize = self.map.len();
        proof {
            let p = self.map.pairs();
            lemma_pairs_map(p);
            assert forall|i: int, j: int| 0 <= i < j < n implies str_less(#[trigger] self.members()[i], #[trigger] self.members()[j]) by {
                assert(str_less(p[i].0, p[j].0));
            }
            assert forall|k: Seq<char>| self@.contains(k) <==> self.members().to_set().contains(k) by {
                if pairs_map(p).contains_key(k) {
                    let i = choose|i: int| 0 <= i < p.len() && p[i].0 == k;
                    assert(self.members()[i] == k);
                }
                if self.members().contains(k) {
                    let i = choose|i: int| 0 <= i < self.members().len() && self.members()[i] == k;
                    assert(pairs_map(p).contains_pair(p[i].0, p[i].1));
                }
            }
            assert(self@ =~= self.members().to_set());
        }
        n
    }

    pub fn is_empty(&self) -> (b: bool)
        ensures
            b == (self.members().len() == 0),
    {
        self.map.is_empty()
    }

    /// The `i`-th member in order.
    pub fn member(&self, i: usize) -> (s: &String)
        requires
            i < self.members().len(),
        ensures
            s@ == self.members()[i as int],
    {
        &self.map.entry(i).0
    }

    pub fn contains(&self, s: &str) -> (b: bool)
        ensures
            b == self@.contains(s@),
    {
        self.map.get(s).is_some()
    }

    pub fn insert(&mut self, s: String)
        ensures
            final(self)@ == old(self)@.insert(s@),
    {
        let ghost k = s@;
        self.map.insert(s, String::new());
        assert(self@ =~= old(self)@.insert(k));
    }
}

/// The byte form of a map: the number of entries, then each key and value.
pub open spec fn pairs_bytes(pairs: Seq<(Seq<char>, Seq<char>)>) -> Seq<u8>
    decreases pairs.len(),
{
    if pairs.len() == 0 {
        Seq::empty()
    } else {
        pairs_bytes(pairs.drop_last()) + (string_bytes(pairs.last().0) + string_bytes(pairs.last().1))
    }
}

pub open spec fn string_map_bytes(pairs: Seq<(Seq<char>, Seq<char>)>) -> Seq<u8> {
    varint_bytes((pairs.len() % 0x1_0000_0000) as nat) + pairs_bytes(pairs)
}

/// The byte form of a set: the number of members, then each member.
pub open spec fn strings_bytes(list: Seq<Seq<char>>) -> Seq<u8>
    decreases list.len(),
{
    if list.len() == 0 {
        Seq::empty()
    } else {
        strings_bytes(list.drop_last()) + string_bytes(list.last())
    }
}

pub open spec fn string_set_bytes(list: Seq<Seq<char>>) -> Seq<u8> {
    varint_bytes((list.len() % 0x1_0000_0000) as nat) + strings_bytes(list)
}

/// Reads `count` key and value strings into `acc`.
pub open spec fn pairs_at(s: Seq<u8>, p: int, count: nat, acc: Map<Seq<char>, Seq<char>>) -> Result<
    (Map<Seq<char>, Seq<char>>, int),
    ErrorKind,
>
    decreases count,
{
    if count == 0 {
        Ok((acc, p))
    } else {
        match string_at(s, p) {
            Ok((k, q)) => match string_at(s, q) {
                Ok((v, e)) => pairs_at(s, e, (count - 1) as nat, acc.insert(k, v)),
                Err(x) => Err(x),
            },
            Err(x) => Err(x),
        }
    }
}

/// The map at `p`.
pub open spec fn string_map_at(s: Seq<u8>, p: int) -> Result<(Map<Seq<char>, Seq<char>>, int), ErrorKind> {
    match vint_at(s, p) {
        Ok((n, q)) => pairs_at(s, q, spec_to_u64(n as i64) as nat, Map::empty()),
        Err(x) => Err(x),
    }
}

/// Reads `count` strings into `acc`.
pub open spec fn strings_at(s: Seq<u8>, p: int, count: nat, acc: Set<Seq<char>>) -> Result<
    (Set<Seq<char>>, int),
    ErrorKind,
>
    decreases count,
{
    if count == 0 {
        Ok((acc, p))
    } else {
        match string_at(s, p) {
            Ok((k, q)) => strings_at(s, q, (count - 1) as nat, acc.insert(k)),
            Err(x) => Err(x),
        }
    }
}

/// The set at `p`.
pub open spec fn string_set_at(s: Seq<u8>, p: int) -> Result<(Set<Seq<char>>, int), ErrorKind> {
    match vint_at(s, p) {
        Ok((n, q)) => strings_at(s, q, spec_to_u64(n as i64) as nat, Set::empty()),
        Err(x) => Err(x),
    }
}

/// Reading all but the first `i` pairs, when the first `i` are in the map.
proof fn lemma_pairs_at(s: Seq<u8>, p: int, pairs: Seq<(Seq<char>, Seq<char>)>, i: int)
    requires
        0 <= i <= pairs.len(),
        holds_at(s, p, pairs_bytes(pairs)),
        forall|j: int| 0 <= j < pairs.len() ==> encode_utf8(#[trigger] pairs[j].0).len() < 0x8000_0000 && encode_utf8(pairs[j].1).len() < 0x8000_0000,
    ensures
        pairs_at(s, p + pairs_bytes(pairs.subrange(0, i)).len(), (pairs.len() - i) as nat, pairs_map(pairs.subrange(0, i)))
            == Ok::<(Map<Seq<char>, Seq<char>>, int), ErrorKind>((pairs_map(pairs), p + pairs_bytes(pairs).len())),
    decreases pairs.len() - i,
{
    if i == pairs.len() {
        assert(pairs.subrange(0, i) =~= pairs);
    } else {
        let pre = pairs.subrange(0, i);
        let next = pairs.subrange(0, i + 1);
        assert(next.drop_last() =~= pre);
        lemma_pairs_prefix(s, p, pairs, i + 1);
        let (k, v) = pairs[i];
        let tail = string_bytes(k) + string_bytes(v);
        lemma_holds_concat(s, p, pairs_bytes(pre), tail);
        let q = p + pairs_bytes(pre).len();
        lemma_holds_concat(s, q, string_bytes(k), string_bytes(v));
        law_string_round_trip(s, q, k);
        law_string_round_trip(s, q + string_bytes(k).len(), v);
        lemma_pairs_at(s, p, pairs, i + 1);
        assert(pairs_map(next) == pairs_map(pre).insert(k, v));
    }
}

proof fn lemma_pairs_prefix(s: Seq<u8>, p: int, pairs: Seq<(Seq<char>, Seq<char>)>, i: int)
    requires
        0 <= i <= pairs.len(),
        holds_at(s, p, pairs_bytes(pairs)),
    ensures
        holds_at(s, p, pairs_bytes(pairs.subrange(0, i))),
    decreases pairs.len() - i,
{
    if i == pairs.len() {
        assert(pairs.subrange(0, i) =~= pairs);
    } else {
        lemma_pairs_prefix(s, p, pairs, i + 1);
        let next = pairs.subrange(0, i + 1);
        assert(next.drop_last() =~= pairs.subrange(0, i));
        lemma_holds_concat(s, p, pairs_bytes(next.drop_last()), string_bytes(next.last().0) + string_bytes(next.last().1));
    }
}

/// A map of strings that was written is read back.
pub proof fn law_string_map_round_trip(s: Seq<u8>, p: int, pairs: Seq<(Seq<char>, Seq<char>)>)
    requires
        holds_at(s, p, string_map_bytes(pairs)),
        pairs.len() < 0x8000_0000,
        forall|j: int| 0 <= j < pairs.len() ==> encode_utf8(#[trigger] pairs[j].0).len() < 0x8000_0000 && encode_utf8(pairs[j].1).len() < 0x8000_0000,
    ensures
        string_map_at(s, p) == Ok::<(Map<Seq<char>, Seq<char>>, int), ErrorKind>(
            (pairs_map(pairs), p + string_map_bytes(pairs).len()),
        ),
{
    let head = varint_bytes(pairs.len());
    lemma_holds_concat(s, p, head, pairs_bytes(pairs));
    law_vint_round_trip(s, p, pairs.len() as i32);
    assert(pairs.subrange(0, 0) =~= Seq::<(Seq<char>, Seq<char>)>::empty());
    lemma_pairs_at(s, p + head.len(), pairs, 0);
}

proof fn lemma_strings_at(s: Seq<u8>, p: int, list: Seq<Seq<char>>, i: int)
    requires
        0 <= i <= list.len(),
        holds_at(s, p, strings_bytes(list)),
        forall|j: int| 0 <= j < list.len() ==> encode_utf8(#[trigger] list[j]).len() < 0x8000_0000,
    ensures
        holds_at(s, p, strings_bytes(list.subrange(0, i))),
        strings_at(s, p + strings_bytes(list.subrange(0, i)).len(), (list.len() - i) as nat, list.subrange(0, i).to_set())
            == Ok::<(Set<Seq<char>>, int), ErrorKind>((list.to_set(), p + strings_bytes(list).len())),
    decreases list.len() - i,
{
    if i == list.len() {
        assert(list.subrange(0, i) =~= list);
    } else {
        let pre = list.subrange(0, i);
        let next = list.subrange(0, i + 1);
        assert(next.drop_last() =~= pre);
        lemma_strings_at(s, p, list, i + 1);
        lemma_holds_concat(s, p, strings_bytes(pre), string_bytes(list[i]));
        law_string_round_trip(s, p + strings_bytes(pre).len(), list[i]);
        assert(next.to_set() =~= pre.to_set().insert(list[i])) by {
            assert forall|k: Seq<char>| next.to_set().contains(k) <==> pre.to_set().insert(list[i]).contains(k) by {
                if next.contains(k) {
                    let j = choose|j: int| 0 <= j < next.len() && next[j] == k;
                    if j < i {
                        assert(pre[j] == k);
                    }
                }
                if pre.contains(k) {
                    let j = choose|j: int| 0 <= j < pre.len() && pre[j] == k;
                    assert(next[j] == k);
                }
                assert(next[i] == list[i]);
            }
        }
    }
}

/// A set of strings that was written is read back.
pub proof fn law_string_set_round_trip(s: Seq<u8>, p: int, list: Seq<Seq<char>>)
    requires
        holds_at(s, p, string_set_bytes(list)),
        list.len() < 0x8000_0000,
        forall|j: int| 0 <= j < list.len() ==> encode_utf8(#[trigger] list[j]).len() < 0x8000_0000,
    ensures
        string_set_at(s, p) == Ok::<(Set<Seq<char>>, int), ErrorKind>(
            (list.to_set(), p + string_set_bytes(list).len()),
        ),
{
    let head = varint_bytes(list.len());
    lemma_holds_concat(s, p, head, strings_bytes(list));
    law_vint_round_trip(s, p, list.len() as i32);
    assert(list.subrange(0, 0) =~= Seq::<Seq<char>>::empty());
    lemma_strings_at(s, p + head.len(), list, 0);
    assert(list.subrange(0, 0).to_set() =~= Set::<Seq<char>>::empty());
}

} // verus!
