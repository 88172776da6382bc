//! What the metadata of a terms dictionary says of its terms.

use crate::bytes::{holds_at, int_at, int_bytes, law_int_round_trip, lemma_holds_concat, lemma_le_bytes_len, varint_bytes};
use crate::doc_values::terms_meta;
use crate::packed::monotonic_meta;
use crate::terms_dict::{block_addresses, block_entries, chunks_ok, largest_block, law_largest_block, law_longest_term, lemma_term_length, longest_term, term_list};
use vstd::prelude::*;

verus! {

/// The description of a terms dictionary says, behind the addresses of its
/// blocks, how long its longest term is and how large its largest block is before
/// compression.
pub proof fn law_dict_limits_told(s: Seq<u8>, p: int, dict: Seq<Seq<u8>>, chunks: Seq<Seq<u8>>, at: nat)
    requires
        holds_at(s, p, terms_meta(dict, chunks, at)),
        0 < dict.len() <= i32::MAX,
        term_list(dict),
        chunks_ok(dict, chunks),
        largest_block(dict, chunks.len() as int) <= i32::MAX,
    ensures
        ({
            let q = p + varint_bytes(dict.len()).len() + 4 + monotonic_meta(block_addresses(dict, chunks), 65536, 0).len();
            int_at(s, q) matches Ok((longest, e)) && int_at(s, e) matches Ok((largest, _)) && ({
                &&& forall|i: int| 0 <= i < dict.len() ==> (#[trigger] dict[i]).len() <= longest
                &&& exists|i: int| 0 <= i < dict.len() && (#[trigger] dict[i]).len() == longest
                &&& forall|b: int| 0 <= b < chunks.len() ==> (#[trigger] block_entries(dict, b)).len() <= largest
                &&& exists|b: int| 0 <= b < chunks.len() && (#[trigger] block_entries(dict, b)).len() == largest
            })
        }),
{
    broadcast use lemma_le_bytes_len;
    let n = dict.len() as int;
    let k = chunks.len() as int;
    let a = varint_bytes(dict.len()) + int_bytes(16) + monotonic_meta(block_addresses(dict, chunks), 65536, 0);
    let (x, y) = (int_bytes(longest_term(dict, n) as i32), int_bytes(largest_block(dict, k) as i32));
    let all = terms_meta(dict, chunks, at);
    let both = a + x + y;
    assert(all.subrange(0, both.len() as int) =~= both);
    assert(s.subrange(p, p + both.len()) =~= s.subrange(p, p + all.len()).subrange(0, both.len() as int));
    lemma_holds_concat(s, p, a + x, y);
    lemma_holds_concat(s, p, a, x);
    law_longest_term(dict, n);
    law_largest_block(dict, k);
    let i = choose|i: int| 0 <= i < n && (#[trigger] dict[i]).len() == longest_term(dict, n);
    lemma_term_length(dict, i);
    law_int_round_trip(s, p + a.len(), longest_term(dict, n) as i32);
    law_int_round_trip(s, p + a.len() + 4, largest_block(dict, k) as i32);
}

} // verus!
