//! Goes through a stream of positions, forward only, and skips those that are
//! not asked for.

use crate::error::{Error, ErrorKind};
use crate::io::{DataInput, IndexInput};
use crate::num::{to_i64, to_u32};
use crate::postings_ll::{pfor_at, pfor_util_decode, pfor_util_skip};
use crate::postings_walk::{blocks_skipped, delta_given, lemma_vints_fail, low_words, overlaid, refilled, stream_skipped, vints_at, StreamWalk};
use vstd::prelude::*;

verus! {

/// A stream of positions' distances.
pub(crate) struct PosStream {
    pub(crate) pos_in: IndexInput,
    /// Where the tail begins; -1 where there is none to be read.
    pub(crate) tail_fp: i64,
    /// The block that is being given, and how many of it were.
    pub(crate) buffer: Vec<u32>,
    pub(crate) upto: usize,
    /// How many positions are to be given or passed over, up to the last one of
    /// the current document.
    pub(crate) pending: u64,
    /// The position that was given last; 0 before the first of a document.
    pub(crate) position: u32,
}

/// Reads `n` numbers.
fn read_vints(input: &mut IndexInput, n: usize) -> (r: Result<Vec<u32>, Error>)
    ensures
        final(input).bytes() == old(input).bytes(),
        match vints_at(old(input).bytes(), old(input).pos(), n as int) {
            Ok((v, z)) => r is Ok && r->Ok_0@ == v && v.len() == n && final(input).pos() == z,
            Err(k) => r is Err && r->Err_0.kind == k,
        },
{
    let ghost (s, p) = (input.bytes(), input.pos());
    let mut values: Vec<u32> = Vec::new();
    let mut i: usize = 0;
    while i < n
        invariant
            i <= n,
            s == input.bytes(),
            (s, p) == (old(input).bytes(), old(input).pos()),
            values@.len() == i,
            vints_at(s, p, i as int) == Ok::<(Seq<u32>, int), ErrorKind>((values@, input.pos())),
        decreases n - i,
    {
        proof {
            if vints_at(s, p, i + 1) is Err {
                lemma_vints_fail(s, p, i + 1, n as int);
            }
        }
        let v: i32 = input.read_vint()?;
        values.push(to_u32(v));
        i = i + 1;
    }
    Ok(values)
}

/// Reads a patched block.
pub(crate) fn read_packed(input: &mut IndexInput) -> (r: Result<Vec<u32>, Error>)
    ensures
        final(input).bytes() == old(input).bytes(),
        final(input).fixed() == old(input).fixed(),
        match pfor_at(old(input).bytes(), old(input).pos()) {
            Ok((v, z)) => r is Ok && r->Ok_0@ == low_words(v) && final(input).pos() == z,
            Err(k) => r is Err && r->Err_0.kind == k,
        },
{
    let mut values: [u64; 128] = [0u64; 128];
    pfor_util_decode(input, &mut values)?;
    let mut block: Vec<u32> = Vec::new();
    let mut i: usize = 0;
    while i < 128
        invariant
            i <= 128,
            block@.len() == i,
            forall|k: int| 0 <= k < i ==> #[trigger] block@[k] == (values@[k] % 0x1_0000_0000) as u32,
        decreases 128 - i,
    {
        block.push((values[i] % 0x1_0000_0000) as u32);
        i = i + 1;
    }
    assert(block@ =~= low_words(values@));
    Ok(block)
}

/// Replaces the first elements.
pub(crate) fn overlay<A: Copy>(base: &mut Vec<A>, first: &Vec<A>)
    requires
        first@.len() <= old(base)@.len(),
    ensures
        final(base)@ == overlaid(old(base)@, first@),
{
    let ghost was = base@;
    let mut i: usize = 0;
    while i < first.len()
        invariant
            i <= first@.len() <= base@.len(),
            base@.len() == was.len(),
            forall|k: int| 0 <= k < i ==> #[trigger] base@[k] == first@[k],
            forall|k: int| i <= k < was.len() ==> #[trigger] base@[k] == was[k],
        decreases first@.len() - i,
    {
        base[i] = first[i];
        i = i + 1;
    }
    assert(base@ =~= overlaid(was, first@));
}

impl PosStream {
    /// How far the stream was gone through.
    pub(crate) open spec fn walk(&self) -> StreamWalk {
        StreamWalk {
            s: self.pos_in.bytes(),
            p: self.pos_in.pos(),
            tail_fp: self.tail_fp,
            buffer: self.buffer@,
            upto: self.upto as int,
            pending: self.pending as int,
            position: self.position,
        }
    }

    pub(crate) open spec fn bounded(&self) -> bool {
        self.buffer@.len() == 128 && self.upto <= 128
    }

    /// Reads the next block.
    fn refill(&mut self, total: u64) -> (r: Result<(), Error>)
        requires
            old(self).bounded(),
        ensures
            r is Ok ==> final(self).bounded() && final(self).pending == old(self).pending && final(self).position == old(self).position,
            match refilled(old(self).walk(), total) {
                Ok(w) => r is Ok && final(self).walk() == w,
                Err(k) => r is Err && r->Err_0.kind == k,
            },
    {
        let at: u64 = self.pos_in.file_pointer();
        if to_i64(at) == self.tail_fp {
            let first = read_vints(&mut self.pos_in, (total % 128) as usize)?;
            overlay(&mut self.buffer, &first);
        } else {
            self.buffer = read_packed(&mut self.pos_in)?;
        }
        Ok(())
    }

    /// Passes over the next `n`.
    pub(crate) fn skip(&mut self, n: u64, total: u64) -> (r: Result<(), Error>)
        requires
            old(self).bounded(),
        ensures
            r is Ok ==> final(self).bounded() && final(self).pending == old(self).pending && final(self).position == old(self).position,
            match stream_skipped(old(self).walk(), n as int, total) {
                Ok(w) => r is Ok && final(self).walk() == w,
                Err(k) => r is Err && r->Err_0.kind == k,
            },
    {
        proof {
            reveal(stream_skipped);
        }
        let left: u64 = 128 - self.upto as u64;
        if n < left {
            self.upto = self.upto + n as usize;
            return Ok(());
        }
        let mut rest: u64 = n - left;
        let ghost w0 = old(self).walk();
        while rest >= 128
            invariant
                self.bounded(),
                self.pending == old(self).pending && self.position == old(self).position,
                w0 == old(self).walk(),
                stream_skipped(w0, n as int, total) == blocks_skipped(self.walk(), rest as int, total),
            decreases rest,
        {
            pfor_util_skip(&mut self.pos_in)?;
            rest = rest - 128;
        }
        self.refill(total)?;
        self.upto = rest as usize;
        Ok(())
    }

    /// The next distance.
    pub(crate) fn next(&mut self, total: u64) -> (r: Result<u32, Error>)
        requires
            old(self).bounded(),
        ensures
            r is Ok ==> final(self).bounded() && final(self).pending == old(self).pending && final(self).position == old(self).position,
            match delta_given(old(self).walk(), total) {
                Ok((w, v)) => r == Ok::<u32, Error>(v) && final(self).walk() == w,
                Err(k) => r is Err && r->Err_0.kind == k,
            },
    {
        proof {
            reveal(delta_given);
        }
        if self.upto == 128 {
            self.refill(total)?;
            self.upto = 0;
        }
        let v: u32 = self.buffer[self.upto];
        self.upto = self.upto + 1;
        Ok(v)
    }
}

} // verus!
