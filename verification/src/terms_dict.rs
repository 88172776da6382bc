//! The terms dictionary of a sorted doc-values field: blocks of 64 terms with
//! shared prefixes, and a sparse index of sort keys.

use crate::bytes::{bytes_difference, common_prefix, is_common_prefix, lemma_common_prefix, lemma_common_prefix_unique, lex_less, push_range, push_varint, varint_bytes};
use crate::error::{Error, ErrorKind};
use crate::io::{ChecksumIndexOutput, DataOutput};
use crate::lz4_block::{lz4_compress, lz4_decompressed};
use vstd::prelude::*;

verus! {

/// Terms per block.
pub const TERMS_DICT_BLOCK_SIZE: usize = 64;

/// One sort key per this many terms.
pub const TERMS_DICT_REVERSE_INDEX_SIZE: usize = 1024;

/// Length of the longest term.
pub const MAX_TERM_LENGTH: usize = 32766;

/// The terms ascend strictly in byte order and are short enough.
#[verifier::opaque]
pub open spec fn term_list(dict: Seq<Seq<u8>>) -> bool {
    &&& forall|i: int, j: int| 0 <= i < j < dict.len() ==> lex_less(#[trigger] dict[i], #[trigger] dict[j])
    &&& forall|i: int| 0 <= i < dict.len() ==> (#[trigger] dict[i]).len() <= MAX_TERM_LENGTH
}

/// What a list of terms gives for two of them.
pub proof fn lemma_term_pair(dict: Seq<Seq<u8>>, i: int, j: int)
    requires
        term_list(dict),
        0 <= i < j < dict.len(),
    ensures
        lex_less(dict[i], dict[j]),
        dict[i].len() <= MAX_TERM_LENGTH,
        dict[j].len() <= MAX_TERM_LENGTH,
{
    reveal(term_list);
}

/// Every term is short enough.
pub proof fn lemma_term_length(dict: Seq<Seq<u8>>, i: int)
    requires
        term_list(dict),
        0 <= i < dict.len(),
    ensures
        dict[i].len() <= MAX_TERM_LENGTH,
{
    reveal(term_list);
}

/// The smaller of two.
pub open spec fn least_of(a: int, b: int) -> int {
    if a <= b {
        a
    } else {
        b
    }
}

/// A term behind another: a token with the lengths of shared prefix and rest,
/// what does not fit the token, and the rest.
pub open spec fn entry_bytes(prev: Seq<u8>, term: Seq<u8>) -> Seq<u8> {
    let prefix = common_prefix(prev, term) as int;
    let suffix = term.len() - prefix;
    seq![(least_of(prefix, 15) + 16 * least_of(suffix - 1, 15)) as u8] + (if prefix >= 15 {
        varint_bytes((prefix - 15) as nat)
    } else {
        Seq::empty()
    }) + (if suffix >= 16 {
        varint_bytes((suffix - 16) as nat)
    } else {
        Seq::empty()
    }) + term.skip(prefix)
}

/// The terms `from + 1` to `to - 1`, each behind the one before it.
pub open spec fn entries_bytes(dict: Seq<Seq<u8>>, from: int, to: int) -> Seq<u8>
    decreases to - from,
{
    if to <= from + 1 {
        Seq::empty()
    } else {
        entries_bytes(dict, from, to - 1) + entry_bytes(dict[to - 2], dict[to - 1])
    }
}

/// The number of blocks of `n` terms.
pub open spec fn term_blocks(n: int) -> int {
    (n + 63) / 64
}

/// Where block `b` of `n` terms ends.
pub open spec fn block_end(n: int, b: int) -> int {
    least_of(n, 64 * b + 64)
}

/// The terms of block `b` behind its first, before compression.
pub open spec fn block_entries(dict: Seq<Seq<u8>>, b: int) -> Seq<u8> {
    entries_bytes(dict, 64 * b, block_end(dict.len() as int, b))
}

/// Block `b`, with `chunk` for its compressed part: the first term as it is,
/// then, if there are more, their size and their compressed form.
pub open spec fn term_block(dict: Seq<Seq<u8>>, b: int, chunk: Seq<u8>) -> Seq<u8> {
    let first = dict[64 * b];
    varint_bytes(first.len()) + first + if block_end(dict.len() as int, b) > 64 * b + 1 {
        varint_bytes(block_entries(dict, b).len()) + chunk
    } else {
        Seq::empty()
    }
}

/// The compressed parts decompress to what they should.
pub open spec fn chunks_ok(dict: Seq<Seq<u8>>, chunks: Seq<Seq<u8>>) -> bool {
    &&& chunks.len() == term_blocks(dict.len() as int)
    &&& forall|b: int| 0 <= b < chunks.len() && block_end(dict.len() as int, b) > 64 * b + 1 ==> lz4_decompressed(#[trigger] chunks[b], block_entries(dict, b).len() as i32) == Some(block_entries(dict, b))
}

/// The first `n` blocks.
pub open spec fn blocks_data(dict: Seq<Seq<u8>>, chunks: Seq<Seq<u8>>, n: int) -> Seq<u8>
    decreases n,
{
    if n <= 0 {
        Seq::empty()
    } else {
        blocks_data(dict, chunks, n - 1) + term_block(dict, n - 1, chunks[n - 1])
    }
}

/// Where the blocks begin.
pub open spec fn block_addresses(dict: Seq<Seq<u8>>, chunks: Seq<Seq<u8>>) -> Seq<u64> {
    Seq::new(chunks.len(), |b: int| blocks_data(dict, chunks, b).len() as u64)
}

/// The length of the longest of the first `n` terms.
pub open spec fn longest_term(dict: Seq<Seq<u8>>, n: int) -> int
    decreases n,
{
    if n <= 0 {
        0
    } else {
        let m = longest_term(dict, n - 1);
        if dict[n - 1].len() > m {
            dict[n - 1].len() as int
        } else {
            m
        }
    }
}

/// The largest size before compression among the first `n` blocks.
pub open spec fn largest_block(dict: Seq<Seq<u8>>, n: int) -> int
    decreases n,
{
    if n <= 0 {
        0
    } else {
        let m = largest_block(dict, n - 1);
        if block_entries(dict, n - 1).len() > m {
            block_entries(dict, n - 1).len() as int
        } else {
            m
        }
    }
}

/// The sort key of term `ord`: nothing for the first, else just enough of it
/// to tell it from the term before.
pub open spec fn sort_key(dict: Seq<Seq<u8>>, ord: int) -> Seq<u8> {
    if ord == 0 {
        Seq::empty()
    } else {
        dict[ord].take(common_prefix(dict[ord - 1], dict[ord]) as int + 1)
    }
}

/// The number of sort keys of `n` terms.
pub open spec fn key_count(n: int) -> int {
    (n + 1023) / 1024
}

/// The first `n` sort keys.
pub open spec fn keys_data(dict: Seq<Seq<u8>>, n: int) -> Seq<u8>
    decreases n,
{
    if n <= 0 {
        Seq::empty()
    } else {
        keys_data(dict, n - 1) + sort_key(dict, 1024 * (n - 1))
    }
}

/// Where the sort keys begin, and where the last one ends.
pub open spec fn key_addresses(dict: Seq<Seq<u8>>) -> Seq<u64> {
    Seq::new((key_count(dict.len() as int) + 1) as nat, |k: int| keys_data(dict, k).len() as u64)
}

/// The view of a dictionary.
pub open spec fn dict_view(dict: Seq<&[u8]>) -> Seq<Seq<u8>> {
    dict.map_values(|t: &[u8]| t@)
}

/// Appends a term behind the one before it.
fn push_entry(out: &mut Vec<u8>, prev: &[u8], term: &[u8])
    requires
        lex_less(prev@, term@),
        term@.len() <= MAX_TERM_LENGTH,
    ensures
        final(out)@ == old(out)@ + entry_bytes(prev@, term@),
{
    let prefix: usize = bytes_difference(prev, term);
    proof {
        lemma_common_prefix(prev@, term@);
    }
    let suffix: usize = term.len() - prefix;
    let low: usize = if prefix <= 15 { prefix } else { 15 };
    let high: usize = if suffix - 1 <= 15 { suffix - 1 } else { 15 };
    out.push((low + 16 * high) as u8);
    if prefix >= 15 {
        push_varint(out, (prefix - 15) as u64);
    }
    if suffix >= 16 {
        push_varint(out, (suffix - 16) as u64);
    }
    push_range(out, term, prefix, term.len());
    assert(out@ =~= old(out)@ + entry_bytes(prev@, term@));
}

proof fn lemma_entry_len(prev: Seq<u8>, term: Seq<u8>)
    requires
        lex_less(prev, term),
        term.len() <= MAX_TERM_LENGTH,
    ensures
        1 <= entry_bytes(prev, term).len() <= 32766 + 7,
{
    lemma_common_prefix(prev, term);
    let prefix = common_prefix(prev, term) as int;
    vstd::arithmetic::power2::lemma2_to64();
    if prefix >= 15 {
        crate::bytes::lemma_varint_len_max((prefix - 15) as nat, 3);
    }
    if term.len() - prefix >= 16 {
        crate::bytes::lemma_varint_len_max((term.len() - prefix - 16) as nat, 3);
    }
}

pub proof fn lemma_entries_len(dict: Seq<Seq<u8>>, from: int, to: int)
    requires
        term_list(dict),
        0 <= from < to <= dict.len(),
    ensures
        to - from - 1 <= entries_bytes(dict, from, to).len() <= (to - from) * 32773,
    decreases to - from,
{
    if to > from + 1 {
        lemma_entries_len(dict, from, to - 1);
        lemma_term_pair(dict, to - 2, to - 1);
        lemma_entry_len(dict[to - 2], dict[to - 1]);
    }
}

/// Writes the blocks; gives where they begin, the length of the longest term
/// and the largest size of a block before compression.
pub(crate) fn write_term_blocks(data: &mut ChecksumIndexOutput, dict: &[&[u8]]) -> (r: Result<(Vec<u64>, i32, i32, Ghost<Seq<Seq<u8>>>), Error>)
    requires
        term_list(dict_view(dict@)),
    ensures
        final(data).since() == old(data).since(),
        r is Ok,
        chunks_ok(dict_view(dict@), r->Ok_0.3@),
        r->Ok_0.0@ == block_addresses(dict_view(dict@), r->Ok_0.3@),
        r->Ok_0.1 == longest_term(dict_view(dict@), dict@.len() as int),
        r->Ok_0.2 == largest_block(dict_view(dict@), term_blocks(dict@.len() as int)),
        final(data).written() == old(data).written() + blocks_data(dict_view(dict@), r->Ok_0.3@, term_blocks(dict@.len() as int)),
        crate::packed::ascending(r->Ok_0.0@),
{
    let ghost d = dict_view(dict@);
    let ghost base = data.written();
    let size: usize = dict.len();
    let start: u64 = data.file_pointer();
    let mut addresses: Vec<u64> = Vec::new();
    let mut longest: i32 = 0;
    let mut largest: i32 = 0;
    let ghost mut chunks: Seq<Seq<u8>> = Seq::empty();
    let mut ord: usize = 0;
    let mut b: usize = 0;
    assert(base + Seq::<u8>::empty() =~= base);
    while ord < size
        invariant
            data.since() == old(data).since(),
            ord <= size == dict@.len(),
            d == dict_view(dict@),
            d.len() == size,
            term_list(d),
            start == base.len(),
            ord == least_of(size as int, 64 * b),
            64 * (b - 1) < size,
            chunks.len() == b,
            addresses@.len() == b,
            forall|i: int| 0 <= i < b ==> #[trigger] addresses@[i] == blocks_data(d, chunks, i).len(),
            forall|i: int| 0 <= i < b && block_end(size as int, i) > 64 * i + 1 ==> lz4_decompressed(#[trigger] chunks[i], block_entries(d, i).len() as i32) == Some(block_entries(d, i)),
            longest == longest_term(d, ord as int),
            0 <= longest <= 32766,
            largest == largest_block(d, b as int),
            0 <= largest <= 64 * 32773,
            data.written() == base + blocks_data(d, chunks, b as int),
            forall|i: int, j: int| 0 <= i <= j < b ==> #[trigger] addresses@[i] <= #[trigger] addresses@[j],
            forall|i: int| 0 <= i < b ==> #[trigger] addresses@[i] <= data.written().len() - base.len(),
        decreases size - ord,
    {
        let ghost chunks0 = chunks;
        let ghost written0 = data.written();
        let first: &[u8] = dict[ord];
        assert(d[ord as int] == first@);
        proof {
            lemma_term_length(d, ord as int);
        }
        addresses.push(data.file_pointer() - start);
        data.write_varint(first.len() as u64)?;
        data.write_bytes(first)?;
        let ghost head = data.written();
        if first.len() as i32 > longest {
            longest = first.len() as i32;
        }
        let mut buf: Vec<u8> = Vec::new();
        let mut k: usize = ord + 1;
        while k < size && k - ord < 64
            invariant
                ord < k <= size == dict@.len(),
                k - ord <= 64,
                d == dict_view(dict@),
                d.len() == size,
                term_list(d),
                buf@ == entries_bytes(d, ord as int, k as int),
                longest == longest_term(d, k as int),
                0 <= longest <= 32766,
            decreases size - k,
        {
            let prev: &[u8] = dict[k - 1];
            let term: &[u8] = dict[k];
            assert(d[k - 1] == prev@ && d[k as int] == term@);
            proof {
                lemma_term_pair(d, k - 1, k as int);
            }
            push_entry(&mut buf, prev, term);
            if term.len() as i32 > longest {
                longest = term.len() as i32;
            }
            k = k + 1;
        }
        assert(k == block_end(size as int, b as int));
        proof {
            lemma_entries_len(d, ord as int, k as int);
        }
        let mut chunk: Vec<u8> = Vec::new();
        if k > ord + 1 {
            data.write_varint(buf.len() as u64)?;
            chunk = match lz4_compress(buf.as_slice()) {
                Some(c) => c,
                None => {
                    return Err(Error::new(ErrorKind::Other, "lz4 compress"));
                },
            };
            data.write_bytes(&chunk)?;
        }
        if buf.len() as i32 > largest {
            largest = buf.len() as i32;
        }
        proof {
            chunks = chunks0.push(chunk@);
            assert forall|i: int| 0 <= i <= b implies blocks_data(d, chunks, i) == blocks_data(d, chunks0, i) by {
                lemma_blocks_data_prefix(d, chunks0, chunks, i);
            }
            assert(data.written() =~= written0 + term_block(d, b as int, chunk@));
            assert(data.written() =~= base + blocks_data(d, chunks, b + 1));
            assert forall|i: int| 0 <= i < b + 1 && block_end(size as int, i) > 64 * i + 1 implies lz4_decompressed(#[trigger] chunks[i], block_entries(d, i).len() as i32) == Some(block_entries(d, i)) by {
                if i < b {
                    assert(chunks[i] == chunks0[i]);
                }
            }
        }
        ord = k;
        b = b + 1;
    }
    assert(b == term_blocks(size as int));
    assert(addresses@ =~= block_addresses(d, chunks));
    Ok((addresses, longest, largest, Ghost(chunks)))
}

proof fn lemma_blocks_data_prefix(dict: Seq<Seq<u8>>, a: Seq<Seq<u8>>, b: Seq<Seq<u8>>, n: int)
    requires
        n <= a.len() <= b.len(),
        forall|i: int| 0 <= i < a.len() ==> #[trigger] a[i] == b[i],
    ensures
        blocks_data(dict, b, n) == blocks_data(dict, a, n),
    decreases n,
{
    if n > 0 {
        lemma_blocks_data_prefix(dict, a, b, n - 1);
        assert(a[n - 1] == b[n - 1]);
    }
}

/// Writes the sort keys; gives where they begin and where the last one ends.
pub(crate) fn write_sort_keys(data: &mut ChecksumIndexOutput, dict: &[&[u8]]) -> (r: Result<Vec<u64>, Error>)
    requires
        term_list(dict_view(dict@)),
    ensures
        final(data).since() == old(data).since(),
        r is Ok,
        r->Ok_0@ == key_addresses(dict_view(dict@)),
        final(data).written() == old(data).written() + keys_data(dict_view(dict@), key_count(dict@.len() as int)),
        crate::packed::ascending(r->Ok_0@),
{
    let ghost d = dict_view(dict@);
    let ghost base = data.written();
    let size: usize = dict.len();
    let start: u64 = data.file_pointer();
    let mut addresses: Vec<u64> = Vec::new();
    let mut n: usize = 0;
    assert(base + Seq::<u8>::empty() =~= base);
    let count: usize = if size == 0 { 0 } else { (size - 1) / 1024 + 1 };
    while n < count
        invariant
            data.since() == old(data).since(),
            n <= count == key_count(size as int),
            size == dict@.len(),
            d == dict_view(dict@),
            d.len() == size,
            term_list(d),
            start == base.len(),
            addresses@.len() == n,
            forall|i: int| 0 <= i < n ==> #[trigger] addresses@[i] == keys_data(d, i).len(),
            data.written() == base + keys_data(d, n as int),
            forall|i: int, j: int| 0 <= i <= j < n ==> #[trigger] addresses@[i] <= #[trigger] addresses@[j],
            forall|i: int| 0 <= i < n ==> #[trigger] addresses@[i] <= data.written().len() - base.len(),
        decreases count - n,
    {
        let ord: usize = 1024 * n;
        addresses.push(data.file_pointer() - start);
        let ghost before = data.written();
        if ord > 0 {
            let prev: &[u8] = dict[ord - 1];
            let term: &[u8] = dict[ord];
            assert(d[ord - 1] == prev@ && d[ord as int] == term@);
            proof {
                lemma_term_pair(d, ord - 1, ord as int);
            }
            let k: usize = bytes_difference(prev, term);
            proof {
                lemma_common_prefix(prev@, term@);
            }
            data.write_bytes(&term[0..k + 1])?;
        }
        assert(data.written() =~= before + sort_key(d, ord as int));
        assert(data.written() =~= base + keys_data(d, n + 1));
        n = n + 1;
    }
    addresses.push(data.file_pointer() - start);
    assert(addresses@ =~= key_addresses(d));
    Ok(addresses)
}

// ---------------------------------------------------------------------------
// What a reader is told of the terms
// ---------------------------------------------------------------------------

/// No term is longer than the longest, and one is as long.
pub proof fn law_longest_term(dict: Seq<Seq<u8>>, n: int)
    requires
        0 < n <= dict.len(),
    ensures
        forall|i: int| 0 <= i < n ==> (#[trigger] dict[i]).len() <= longest_term(dict, n),
        exists|i: int| 0 <= i < n && (#[trigger] dict[i]).len() == longest_term(dict, n),
    decreases n,
{
    let m = longest_term(dict, n - 1);
    if n > 1 {
        law_longest_term(dict, n - 1);
        let j = choose|i: int| 0 <= i < n - 1 && (#[trigger] dict[i]).len() == m;
        assert(dict[j].len() == m);
        if dict[n - 1].len() > m {
            assert(dict[n - 1].len() == longest_term(dict, n));
        } else {
            assert(dict[j].len() == longest_term(dict, n));
        }
    } else {
        assert(m == 0);
        assert(dict[n - 1].len() == longest_term(dict, n));
    }
}

/// No block is larger before compression than the largest, and one is as
/// large.
pub proof fn law_largest_block(dict: Seq<Seq<u8>>, n: int)
    requires
        0 < n,
    ensures
        forall|b: int| 0 <= b < n ==> (#[trigger] block_entries(dict, b)).len() <= largest_block(dict, n),
        exists|b: int| 0 <= b < n && (#[trigger] block_entries(dict, b)).len() == largest_block(dict, n),
    decreases n,
{
    let m = largest_block(dict, n - 1);
    if n > 1 {
        law_largest_block(dict, n - 1);
        let j = choose|b: int| 0 <= b < n - 1 && (#[trigger] block_entries(dict, b)).len() == m;
        if block_entries(dict, n - 1).len() > m {
            assert(block_entries(dict, n - 1).len() == largest_block(dict, n));
        } else {
            assert(block_entries(dict, j).len() == largest_block(dict, n));
        }
    } else {
        assert(m == 0);
        assert(block_entries(dict, n - 1).len() == largest_block(dict, n));
    }
}

/// A sort key parts the terms before its own from the others: it comes behind
/// each of those before, and not behind its own. It is the shortest beginning of
/// its term that does: without its last byte, the term before begins with it.
pub proof fn law_sort_key_parts(dict: Seq<Seq<u8>>, ord: int)
    requires
        term_list(dict),
        0 < ord < dict.len(),
    ensures
        ({
            let key = sort_key(dict, ord);
            let n = key.len() as int;
            &&& 0 < n <= dict[ord].len()
            &&& key == dict[ord].take(n)
            &&& lex_less(dict[ord - 1], key)
            &&& !lex_less(dict[ord], key)
            &&& n - 1 <= dict[ord - 1].len()
            &&& dict[ord - 1].take(n - 1) == dict[ord].take(n - 1)
        }),
        sort_key(dict, 0) == Seq::<u8>::empty(),
{
    let (a, b) = (dict[ord - 1], dict[ord]);
    lemma_term_pair(dict, ord - 1, ord);
    lemma_common_prefix(a, b);
    let c = common_prefix(a, b) as int;
    let key = b.take(c + 1);
    assert(is_common_prefix(a, key, c));
    lemma_common_prefix_unique(a, key, c);
    assert(is_common_prefix(b, key, c + 1));
    lemma_common_prefix_unique(b, key, c + 1);
    assert(a.take(c) =~= b.take(c));
}

/// There is a sort key for every 1024th term, from the first on; each stands
/// between its address and the next.
pub proof fn law_sort_keys_stand(dict: Seq<Seq<u8>>, k: int)
    requires
        0 <= k < key_count(dict.len() as int),
        keys_data(dict, key_count(dict.len() as int)).len() <= u64::MAX,
    ensures
        1024 * k < dict.len(),
        dict.len() <= 1024 * key_count(dict.len() as int),
        key_addresses(dict).len() == key_count(dict.len() as int) + 1,
        keys_data(dict, key_count(dict.len() as int)).subrange(key_addresses(dict)[k] as int, key_addresses(dict)[k + 1] as int) == sort_key(dict, 1024 * k),
{
    lemma_keys_stand(dict, key_count(dict.len() as int), k);
}

proof fn lemma_keys_stand(dict: Seq<Seq<u8>>, n: int, k: int)
    requires
        0 <= k < n,
    ensures
        keys_data(dict, k).len() <= keys_data(dict, k + 1).len() <= keys_data(dict, n).len(),
        keys_data(dict, n).subrange(keys_data(dict, k).len() as int, keys_data(dict, k + 1).len() as int) == sort_key(dict, 1024 * k),
    decreases n,
{
    let (x, y) = (keys_data(dict, k).len() as int, keys_data(dict, k + 1).len() as int);
    let s = keys_data(dict, n);
    if k < n - 1 {
        lemma_keys_stand(dict, n - 1, k);
        assert(s.subrange(x, y) =~= keys_data(dict, n - 1).subrange(x, y));
    } else {
        assert(s.subrange(x, y) =~= sort_key(dict, 1024 * k));
    }
}

} // verus!
