//! Finite state transducers from byte strings to byte strings.
//!
//! A node is written back to front: its address is the offset of its last
//! byte, and reading downwards from there gives its arcs in ascending label
//! order. Each arc is a flag byte, the label, the outputs that the flags
//! announce, and the address of its target unless the flags imply it.

use crate::bytes::{byte_at, push_all, take_at, varint_scan, vint_at, vlong_at};
use crate::codec_util::{check_header, corrupt, header_at};
use crate::error::{Error, ErrorKind};
use crate::io::{DataInput, DataOutput, IndexInput};
use crate::num::{spec_to_i64, spec_to_u64, to_i64, to_u64};
use vstd::arithmetic::power2::{lemma2_to64, lemma2_to64_rest, lemma_pow2_adds, lemma_pow2_strictly_increases, pow2};
use vstd::prelude::*;
use vstd::slice::slice_to_vec;

pub use crate::fst_compiler::{Fst, FstCompiler};

verus! {

/// Arc flags: what an arc's flag byte is the sum of.
pub const BIT_FINAL_ARC: u8 = 1;
pub const BIT_LAST_ARC: u8 = 2;
pub const BIT_TARGET_NEXT: u8 = 4;
pub const BIT_STOP_NODE: u8 = 8;
pub const BIT_ARC_HAS_OUTPUT: u8 = 16;
pub const BIT_ARC_HAS_FINAL_OUTPUT: u8 = 32;

/// Codec name and version of the metadata.
pub const FILE_FORMAT_NAME: &'static str = "FST";
pub const VERSION_START: u32 = 6;
pub const VERSION_CURRENT: u32 = 9;

/// An arc: label, what it adds to the output, what is added where the input
/// ends on it, whether an input may end on it, and the address of its target.
/// The targets -1 and 0 are nodes without arcs. The target -2 stands for the
/// node one level deeper that is not written yet.
#[verifier::ext_equal]
pub struct ArcView {
    pub label: u8,
    pub output: Seq<u8>,
    pub final_output: Seq<u8>,
    pub is_final: bool,
    pub target: int,
}

/// The arcs of a node, whether an input may end at it, and with what output.
#[verifier::ext_equal]
pub struct NodeView {
    pub arcs: Seq<ArcView>,
    pub output: Seq<u8>,
    pub is_final: bool,
}

// ---------------------------------------------------------------------------
// Reading
// ---------------------------------------------------------------------------

/// Whether a flag is set.
pub open spec fn flag(flags: u8, bit: u8) -> bool {
    (flags / bit) % 2 == 1
}

fn has_flag(flags: u8, bit: u8) -> (r: bool)
    requires
        bit > 0,
    ensures
        r == flag(flags, bit),
{
    (flags / bit) % 2 == 1
}

/// The bytes from `addr` downwards.
pub open spec fn downwards(bytes: Seq<u8>, addr: int) -> Seq<u8> {
    bytes.take(addr + 1).reverse()
}

/// The variable-length number at `p`; 64 bits are kept, ten bytes at most.
pub open spec fn number_at(rev: Seq<u8>, p: int) -> Result<(u64, int), ErrorKind> {
    match varint_scan(rev, p, 10, 1, 0) {
        Ok((n, q)) => Ok(((n % 0x1_0000_0000_0000_0000) as u64, q)),
        Err(_) => Err(ErrorKind::InvalidData),
    }
}

/// The output at `p`: its length, then its bytes.
pub open spec fn output_at(rev: Seq<u8>, p: int) -> Result<(Seq<u8>, int), ErrorKind> {
    match number_at(rev, p) {
        Ok((n, q)) => if q + n <= rev.len() {
            Ok((rev.subrange(q, q + n), q + n))
        } else {
            Err(ErrorKind::InvalidData)
        },
        Err(k) => Err(k),
    }
}

/// The output at `p` if it is there, else none.
pub open spec fn optional_at(rev: Seq<u8>, p: int, present: bool) -> Result<(Seq<u8>, int), ErrorKind> {
    if present {
        output_at(rev, p)
    } else {
        Ok((Seq::empty(), p))
    }
}

/// The target of an arc whose flags are `flags`: `i64::MIN` stands for the
/// node right below this one.
pub open spec fn target_at(rev: Seq<u8>, p: int, flags: u8) -> Result<(int, int), ErrorKind> {
    if flag(flags, BIT_STOP_NODE) {
        Ok((if flag(flags, BIT_FINAL_ARC) { -1 } else { 0 }, p))
    } else if flag(flags, BIT_TARGET_NEXT) {
        Ok((i64::MIN as int, p))
    } else {
        match number_at(rev, p) {
            Ok((n, q)) => Ok((spec_to_i64(n) as int, q)),
            Err(k) => Err(k),
        }
    }
}

/// The arc at `p`.
pub open spec fn arc_at(rev: Seq<u8>, p: int) -> Result<(ArcView, int), ErrorKind> {
    if !(0 <= p && p + 1 < rev.len()) {
        Err(ErrorKind::InvalidData)
    } else {
        let flags = rev[p];
        match optional_at(rev, p + 2, flag(flags, BIT_ARC_HAS_OUTPUT)) {
            Ok((output, q)) => match optional_at(rev, q, flag(flags, BIT_ARC_HAS_FINAL_OUTPUT)) {
                Ok((final_output, e)) => match target_at(rev, e, flags) {
                    Ok((target, z)) => Ok(
                        (ArcView { label: rev[p + 1], output, final_output, is_final: flag(flags, BIT_FINAL_ARC), target }, z),
                    ),
                    Err(k) => Err(k),
                },
                Err(k) => Err(k),
            },
            Err(k) => Err(k),
        }
    }
}

/// The arcs from `p` to the one marked last, behind `acc`.
pub open spec fn arcs_at(rev: Seq<u8>, p: int, acc: Seq<ArcView>) -> Result<(Seq<ArcView>, int), ErrorKind>
    decreases rev.len() - p,
    via arcs_at_rises
{
    match arc_at(rev, p) {
        Ok((arc, q)) => if flag(rev[p], BIT_LAST_ARC) {
            Ok((acc.push(arc), q))
        } else {
            arcs_at(rev, q, acc.push(arc))
        },
        Err(k) => Err(k),
    }
}

proof fn lemma_scan_rises(s: Seq<u8>, p: int, left: nat, weight: nat, acc: nat)
    ensures
        varint_scan(s, p, left, weight, acc) is Ok ==> p < varint_scan(s, p, left, weight, acc)->Ok_0.1 <= s.len(),
    decreases left,
{
    if left > 0 && 0 <= p < s.len() && s[p] >= 128 {
        lemma_scan_rises(s, p + 1, (left - 1) as nat, weight * 128, acc + (s[p] - 128) as nat * weight);
    }
}

/// An arc takes at least its two first bytes, and ends inside.
proof fn lemma_arc_rises(rev: Seq<u8>, p: int)
    ensures
        arc_at(rev, p) is Ok ==> p + 2 <= arc_at(rev, p)->Ok_0.1 <= rev.len(),
{
    if arc_at(rev, p) is Ok {
        let flags = rev[p];
        lemma_scan_rises(rev, p + 2, 10, 1, 0);
        let q = optional_at(rev, p + 2, flag(flags, BIT_ARC_HAS_OUTPUT))->Ok_0.1;
        lemma_scan_rises(rev, q, 10, 1, 0);
        let e = optional_at(rev, q, flag(flags, BIT_ARC_HAS_FINAL_OUTPUT))->Ok_0.1;
        lemma_scan_rises(rev, e, 10, 1, 0);
    }
}

#[via_fn]
proof fn arcs_at_rises(rev: Seq<u8>, p: int, acc: Seq<ArcView>) {
    lemma_arc_rises(rev, p);
}

/// Arcs with the target "right below" put in.
pub open spec fn resolved(arcs: Seq<ArcView>, below: int) -> Seq<ArcView> {
    arcs.map_values(|a: ArcView| if a.target == i64::MIN { ArcView { target: below, ..a } } else { a })
}

/// The arcs of the node at `addr`, and the address right below it.
pub open spec fn node_at(bytes: Seq<u8>, addr: int) -> Result<(Seq<ArcView>, int), ErrorKind> {
    if !(0 <= addr < bytes.len()) {
        Err(ErrorKind::InvalidData)
    } else {
        match arcs_at(downwards(bytes, addr), 0, Seq::empty()) {
            Ok((arcs, end)) => Ok((resolved(arcs, addr - end), addr - end)),
            Err(k) => Err(k),
        }
    }
}

/// The arc with this label: the first one whose label is not below decides.
pub open spec fn find_arc_from(arcs: Seq<ArcView>, label: u8, i: int) -> Option<ArcView>
    decreases arcs.len() - i,
{
    if i >= arcs.len() {
        None
    } else if arcs[i].label >= label {
        if arcs[i].label == label {
            Some(arcs[i])
        } else {
            None
        }
    } else {
        find_arc_from(arcs, label, i + 1)
    }
}

/// `r` with `p` put before the output.
pub open spec fn prefixed(p: Seq<u8>, r: Result<Option<Seq<u8>>, ErrorKind>) -> Result<Option<Seq<u8>>, ErrorKind> {
    match r {
        Ok(Some(x)) => Ok(Some(p + x)),
        _ => r,
    }
}

/// The output of the non-empty `input` from the node at `node`, if it is
/// accepted.
pub open spec fn node_output(bytes: Seq<u8>, node: int, input: Seq<u8>) -> Result<Option<Seq<u8>>, ErrorKind>
    decreases input.len(),
{
    if node <= 0 || input.len() == 0 {
        Ok(None)
    } else {
        match node_at(bytes, node) {
            Ok((arcs, _)) => match find_arc_from(arcs, input[0], 0) {
                Some(arc) => if input.len() == 1 {
                    if arc.is_final {
                        Ok(Some(arc.output + arc.final_output))
                    } else {
                        Ok(None)
                    }
                } else {
                    prefixed(arc.output, node_output(bytes, arc.target, input.skip(1)))
                },
                None => Ok(None),
            },
            Err(k) => Err(k),
        }
    }
}

/// The output of `input`, if the transducer accepts it.
pub open spec fn fst_output(bytes: Seq<u8>, start_node: u64, empty_output: Option<Seq<u8>>, input: Seq<u8>) -> Result<
    Option<Seq<u8>>,
    ErrorKind,
> {
    if input.len() == 0 {
        Ok(empty_output)
    } else {
        node_output(bytes, spec_to_i64(start_node) as int, input)
    }
}

/// The inputs accepted on the way along `input`: how many bytes each takes,
/// and its output. `depth` bytes with the output `out` came before.
pub open spec fn node_frames(bytes: Seq<u8>, node: int, input: Seq<u8>, depth: int, out: Seq<u8>) -> Result<Seq<(int, Seq<u8>)>, ErrorKind>
    decreases input.len(),
{
    if node <= 0 || input.len() == 0 {
        Ok(Seq::empty())
    } else {
        match node_at(bytes, node) {
            Ok((arcs, _)) => match find_arc_from(arcs, input[0], 0) {
                Some(arc) => {
                    let here = if arc.is_final {
                        seq![(depth + 1, out + arc.output + arc.final_output)]
                    } else {
                        Seq::empty()
                    };
                    match node_frames(bytes, arc.target, input.skip(1), depth + 1, out + arc.output) {
                        Ok(rest) => Ok(here + rest),
                        Err(k) => Err(k),
                    }
                },
                None => Ok(Seq::empty()),
            },
            Err(k) => Err(k),
        }
    }
}

/// One arc of a node.
#[derive(Clone, Debug)]
pub struct FstArc {
    pub label: u8,
    pub output: Option<Vec<u8>>,
    pub final_output: Option<Vec<u8>>,
    pub is_final: bool,
    pub target: i64,
}

/// The bytes of an optional output; none is no bytes.
pub open spec fn output_view(o: Option<Vec<u8>>) -> Seq<u8> {
    match o {
        Some(v) => v@,
        None => Seq::empty(),
    }
}

impl View for FstArc {
    type V = ArcView;

    open spec fn view(&self) -> ArcView {
        ArcView {
            label: self.label,
            output: output_view(self.output),
            final_output: output_view(self.final_output),
            is_final: self.is_final,
            target: self.target as int,
        }
    }
}

/// What is needed to read a transducer besides its bytes.
#[derive(Clone)]
pub struct FstMetadata {
    pub start_node: u64,
    pub num_bytes: u64,
    pub empty_output: Option<Vec<u8>>,
}

/// The metadata at `p`: start node, number of bytes, and the output of the
/// empty input if it is accepted.
pub open spec fn metadata_at(s: Seq<u8>, p: int) -> Result<((u64, u64, Option<Seq<u8>>), int), ErrorKind> {
    match header_at(s, p, FILE_FORMAT_NAME@, VERSION_START, VERSION_CURRENT) {
        Ok((_, q)) => match empty_output_at(s, q) {
            Ok((empty, e)) => match byte_at(s, e) {
                Ok((kind, f)) => if kind != 0 {
                    Err(ErrorKind::InvalidData)
                } else {
                    match vlong_at(s, f) {
                        Ok((start, g)) => match vlong_at(s, g) {
                            Ok((num, z)) => Ok(((start as u64, num as u64, empty), z)),
                            Err(k) => Err(k),
                        },
                        Err(k) => Err(k),
                    }
                },
                Err(k) => Err(k),
            },
            Err(k) => Err(k),
        },
        Err(k) => Err(k),
    }
}

/// The optional output of the empty input: a mark, then the serialized output
/// back to front behind its length.
pub open spec fn empty_output_at(s: Seq<u8>, p: int) -> Result<(Option<Seq<u8>>, int), ErrorKind> {
    match byte_at(s, p) {
        Ok((mark, q)) => if mark == 0 {
            Ok((None, q))
        } else if mark == 1 {
            match vint_at(s, q) {
                Ok((n, e)) => match take_at(s, e, spec_to_u64(n as i64) as int) {
                    Ok((b, z)) => match vint_at(b.reverse(), 0) {
                        Ok((m, f)) => match take_at(b.reverse(), f, spec_to_u64(m as i64) as int) {
                            Ok((out, _)) => Ok((Some(out), z)),
                            Err(k) => Err(k),
                        },
                        Err(k) => Err(k),
                    },
                    Err(k) => Err(k),
                },
                Err(k) => Err(k),
            }
        } else {
            Err(ErrorKind::InvalidData)
        },
        Err(k) => Err(k),
    }
}

/// `v` back to front.
fn reversed(v: &[u8]) -> (r: Vec<u8>)
    ensures
        r@ == v@.reverse(),
{
    let mut out: Vec<u8> = Vec::new();
    let n: usize = v.len();
    let mut i: usize = n;
    while i > 0
        invariant
            i <= n == v@.len(),
            out@ == v@.subrange(i as int, n as int).reverse(),
        decreases i,
    {
        i = i - 1;
        out.push(v[i]);
        assert(out@ =~= v@.subrange(i as int, n as int).reverse());
    }
    assert(v@.subrange(0, n as int) =~= v@);
    out
}

impl FstMetadata {
    /// Reads the metadata.
    pub fn read<I: DataInput>(input: &mut I) -> (r: Result<FstMetadata, Error>)
        ensures
            final(input).bytes() == old(input).bytes(),
            final(input).fixed() == old(input).fixed(),
            match metadata_at(old(input).bytes(), old(input).pos()) {
                Ok(((start, num, empty), q)) => r is Ok && r->Ok_0.start_node == start && r->Ok_0.num_bytes == num
                    && match r->Ok_0.empty_output { Some(v) => empty == Some(v@), None => empty is None } && final(input).pos() == q,
                Err(k) => r is Err && r->Err_0.kind == k,
            },
    {
        check_header(input, FILE_FORMAT_NAME, VERSION_START, VERSION_CURRENT)?;
        let mark: u8 = input.read_byte()?;
        let empty_output: Option<Vec<u8>>;
        if mark == 0 {
            empty_output = None;
        } else if mark == 1 {
            let n: i32 = input.read_vint()?;
            let b = input.read_vec(to_u64(n as i64))?;
            let mut cursor = IndexInput::in_memory(reversed(&b));
            let m: i32 = cursor.read_vint()?;
            let out = cursor.read_vec(to_u64(m as i64))?;
            empty_output = Some(out);
        } else {
            return Err(corrupt("invalid FST emptyOutput flag"));
        }
        let kind: u8 = input.read_byte()?;
        if kind != 0 {
            return Err(corrupt("unsupported FST input type"));
        }
        let start_node: i64 = input.read_vlong()?;
        let num_bytes: i64 = input.read_vlong()?;
        Ok(FstMetadata { start_node: start_node as u64, num_bytes: num_bytes as u64, empty_output })
    }
}

/// Reads a transducer.
pub struct FstReader {
    bytes: Vec<u8>,
    start_node: u64,
    empty_output: Option<Vec<u8>>,
}

impl FstReader {
    pub closed spec fn bytes(&self) -> Seq<u8> {
        self.bytes@
    }

    pub closed spec fn start(&self) -> u64 {
        self.start_node
    }

    pub closed spec fn empty(&self) -> Option<Seq<u8>> {
        match self.empty_output {
            Some(v) => Some(v@),
            None => None,
        }
    }

    pub fn new(bytes: Vec<u8>, metadata: &FstMetadata) -> (r: FstReader)
        ensures
            r.bytes() == bytes@,
            r.start() == metadata.start_node,
            match metadata.empty_output {
                Some(v) => r.empty() == Some(v@),
                None => r.empty() is None,
            },
    {
        let empty_output: Option<Vec<u8>> = match &metadata.empty_output {
            Some(v) => Some(slice_to_vec(v.as_slice())),
            None => None,
        };
        FstReader { bytes, start_node: metadata.start_node, empty_output }
    }

    /// Output of the empty input, if it is accepted.
    pub fn empty_output(&self) -> (r: Option<&[u8]>)
        ensures
            match r {
                Some(v) => self.empty() == Some(v@),
                None => self.empty() is None,
            },
    {
        match &self.empty_output {
            Some(v) => Some(v.as_slice()),
            None => None,
        }
    }

    /// The variable-length number `p` bytes below `addr`, and how far below it
    /// ends.
    fn read_number(&self, addr: usize, p: usize) -> (r: Result<(u64, usize), Error>)
        requires
            addr < self.bytes().len(),
            p <= addr + 1,
        ensures
            match number_at(downwards(self.bytes(), addr as int), p as int) {
                Ok((n, q)) => r is Ok && r->Ok_0.0 == n && r->Ok_0.1 == q && q <= addr + 1,
                Err(k) => r is Err && r->Err_0.kind == k,
            },
    {
        let ghost rev = downwards(self.bytes(), addr as int);
        let mut i: usize = 0;
        let mut q: usize = p;
        let mut weight: u128 = 1;
        let mut acc: u128 = 0;
        let n: usize = self.bytes.len();
        proof {
            lemma2_to64();
            lemma2_to64_rest();
        }
        while i < 10
            invariant
                i <= 10,
                addr < n == self.bytes@.len(),
                q <= addr + 1,
                rev == downwards(self.bytes(), addr as int),
                rev.len() == addr + 1,
                weight == pow2(7 * i as nat),
                weight <= 0x40_0000_0000_0000_0000,
                acc < weight,
                varint_scan(rev, p as int, 10, 1, 0) == varint_scan(rev, q as int, (10 - i) as nat, weight as nat, acc as nat),
            decreases 10 - i,
        {
            if q == addr + 1 {
                return Err(corrupt("FST node overruns the image"));
            }
            let b: u8 = self.bytes[addr - q];
            assert(rev[q as int] == b);
            q = q + 1;
            proof {
                lemma_pow2_adds(7, 7 * i as nat);
                lemma_pow2_adds(64, 6);
                lemma2_to64();
                lemma2_to64_rest();
                assert(7 + 7 * i == 7 * (i + 1));
                assert(pow2(70) == 0x40_0000_0000_0000_0000) by (nonlinear_arith)
                    requires
                        pow2(70) == pow2(64) * pow2(6),
                        pow2(64) == 0x1_0000_0000_0000_0000,
                        pow2(6) == 64,
                ;
                if i < 9 {
                    lemma_pow2_strictly_increases(7 * (i + 1) as nat, 70);
                }
                let d = if b < 128 { b as int } else { b - 128 };
                assert(0 <= d * weight <= 127 * weight) by (nonlinear_arith)
                    requires
                        0 <= d <= 127,
                        weight >= 0,
                ;
                assert(weight * 128 == 128 * weight) by (nonlinear_arith);
            }
            if b < 128 {
                let v: u128 = acc + b as u128 * weight;
                return Ok(((v % 0x1_0000_0000_0000_0000) as u64, q));
            }
            acc = acc + (b - 128) as u128 * weight;
            weight = weight * 128;
            i = i + 1;
        }
        Err(corrupt("FST: vLong too long"))
    }

    /// The output `p` bytes below `addr`, and how far below it ends.
    fn read_output(&self, addr: usize, p: usize) -> (r: Result<(Vec<u8>, usize), Error>)
        requires
            addr < self.bytes().len(),
            p <= addr + 1,
        ensures
            match output_at(downwards(self.bytes(), addr as int), p as int) {
                Ok((v, q)) => r is Ok && r->Ok_0.0@ == v && r->Ok_0.1 == q && q <= addr + 1,
                Err(k) => r is Err && r->Err_0.kind == k,
            },
    {
        let ghost rev = downwards(self.bytes(), addr as int);
        let n: usize = self.bytes.len();
        let (len, q) = self.read_number(addr, p)?;
        if len > (addr + 1 - q) as u64 {
            return Err(corrupt("FST output overruns the image"));
        }
        let end: usize = q + len as usize;
        // bytes[addr + 1 - end .. addr + 1 - q], back to front
        let part = &self.bytes.as_slice()[addr + 1 - end..addr + 1 - q];
        let out = reversed(part);
        assert(out@ =~= rev.subrange(q as int, end as int));
        Ok((out, end))
    }

    /// The arc `p` bytes below `addr`, whether it is the last of its node, and
    /// how far below it ends.
    fn read_arc(&self, addr: usize, p: usize) -> (r: Result<(FstArc, bool, usize), Error>)
        requires
            addr < self.bytes().len(),
            p <= addr + 1,
        ensures
            match arc_at(downwards(self.bytes(), addr as int), p as int) {
                Ok((a, q)) => r is Ok && r->Ok_0.0@ == a && r->Ok_0.1 == flag(downwards(self.bytes(), addr as int)[p as int], BIT_LAST_ARC) && r->Ok_0.2 == q
                    && p < q <= addr + 1,
                Err(k) => r is Err && r->Err_0.kind == k,
            },
    {
        let ghost rev = downwards(self.bytes(), addr as int);
        let n: usize = self.bytes.len();
        if p >= addr {
            return Err(corrupt("FST arc overruns the image"));
        }
        let flags: u8 = self.bytes[addr - p];
        let label: u8 = self.bytes[addr - p - 1];
        assert(rev[p as int] == flags && rev[p + 1] == label);
        let mut q: usize = p + 2;
        let mut output: Option<Vec<u8>> = None;
        if has_flag(flags, BIT_ARC_HAS_OUTPUT) {
            let (v, e) = self.read_output(addr, q)?;
            output = Some(v);
            q = e;
        }
        let mut final_output: Option<Vec<u8>> = None;
        if has_flag(flags, BIT_ARC_HAS_FINAL_OUTPUT) {
            let (v, e) = self.read_output(addr, q)?;
            final_output = Some(v);
            q = e;
        }
        let is_final: bool = has_flag(flags, BIT_FINAL_ARC);
        let target: i64;
        if has_flag(flags, BIT_STOP_NODE) {
            target = if is_final { -1 } else { 0 };
        } else if has_flag(flags, BIT_TARGET_NEXT) {
            target = i64::MIN;
        } else {
            let (v, e) = self.read_number(addr, q)?;
            target = to_i64(v);
            q = e;
        }
        proof {
            lemma_arc_rises(rev, p as int);
        }
        Ok((FstArc { label, output, final_output, is_final, target }, has_flag(flags, BIT_LAST_ARC), q))
    }

    /// The arcs of the node at `addr`.
    fn read_node(&self, addr: u64) -> (r: Result<Vec<FstArc>, Error>)
        requires
            addr <= i64::MAX,
        ensures
            match node_at(self.bytes(), addr as int) {
                Ok((arcs, _)) => r is Ok && r->Ok_0@.map_values(|a: FstArc| a@) == arcs,
                Err(k) => r is Err && r->Err_0.kind == k,
            },
    {
        if addr >= self.bytes.len() as u64 {
            return Err(corrupt("FST node address out of bounds"));
        }
        let at: usize = addr as usize;
        let ghost rev = downwards(self.bytes(), addr as int);
        let mut arcs: Vec<FstArc> = Vec::new();
        let mut p: usize = 0;
        let mut done: bool = false;
        assert(arcs@.map_values(|a: FstArc| a@) =~= Seq::<ArcView>::empty());
        while !done
            invariant
                at == addr < self.bytes().len(),
                addr <= i64::MAX,
                p <= addr + 1,
                rev == downwards(self.bytes(), addr as int),
                !done ==> arcs_at(rev, 0, Seq::empty()) == arcs_at(rev, p as int, arcs@.map_values(|a: FstArc| a@)),
                done ==> arcs_at(rev, 0, Seq::empty()) == Ok::<(Seq<ArcView>, int), ErrorKind>((arcs@.map_values(|a: FstArc| a@), p as int)),
            decreases addr + 1 - p,
        {
            let ghost acc = arcs@.map_values(|a: FstArc| a@);
            let (arc, last, q) = self.read_arc(at, p)?;
            let ghost av = arc@;
            arcs.push(arc);
            assert(arcs@.map_values(|a: FstArc| a@) =~= acc.push(av));
            p = q;
            done = last;
        }
        let below: i64 = if p <= at { (at - p) as i64 } else { -1 };
        let ghost raw = arcs@.map_values(|a: FstArc| a@);
        let ghost want = resolved(raw, below as int);
        let count: usize = arcs.len();
        let mut i: usize = 0;
        while i < count
            invariant
                i <= count == arcs@.len(),
                raw.len() == count,
                want == resolved(raw, below as int),
                forall|j: int| i <= j < count ==> (#[trigger] arcs@[j])@ == raw[j],
                forall|j: int| 0 <= j < i ==> (#[trigger] arcs@[j])@ == want[j],
            decreases count - i,
        {
            let ghost before = arcs@;
            assert(arcs@[i as int]@ == raw[i as int]);
            if arcs[i].target == i64::MIN {
                let mut arc = FstArc { label: 0, output: None, final_output: None, is_final: false, target: 0 };
                core::mem::swap(&mut arcs[i], &mut arc);
                arc.target = below;
                arcs[i] = arc;
            }
            assert(arcs@[i as int]@ == want[i as int]);
            assert forall|j: int| 0 <= j < count && j != i implies (#[trigger] arcs@[j]) == before[j] by {
            }
            i = i + 1;
        }
        assert(arcs@.map_values(|a: FstArc| a@) =~= want);
        Ok(arcs)
    }

    /// The arc with this label.
    fn find_arc<'a>(arcs: &'a Vec<FstArc>, label: u8) -> (r: Option<&'a FstArc>)
        ensures
            match r {
                Some(a) => find_arc_from(arcs@.map_values(|a: FstArc| a@), label, 0) == Some(a@),
                None => find_arc_from(arcs@.map_values(|a: FstArc| a@), label, 0) is None,
            },
    {
        let ghost v = arcs@.map_values(|a: FstArc| a@);
        let mut i: usize = 0;
        while i < arcs.len()
            invariant
                i <= arcs.len(),
                v == arcs@.map_values(|a: FstArc| a@),
                find_arc_from(v, label, 0) == find_arc_from(v, label, i as int),
            decreases arcs.len() - i,
        {
            assert(v[i as int] == arcs@[i as int]@);
            if arcs[i].label >= label {
                if arcs[i].label == label {
                    return Some(&arcs[i]);
                }
                return None;
            }
            i = i + 1;
        }
        None
    }

    /// The whole output of `input` (possibly empty), or none where it is not
    /// accepted.
    pub fn lookup(&self, input: &[u8]) -> (r: Result<Option<Vec<u8>>, Error>)
        ensures
            match fst_output(self.bytes(), self.start(), self.empty(), input@) {
                Ok(Some(v)) => r is Ok && r->Ok_0 is Some && r->Ok_0->Some_0@ == v,
                Ok(None) => r is Ok && r->Ok_0 is None,
                Err(k) => r is Err && r->Err_0.kind == k,
            },
    {
        if input.len() == 0 {
            return match &self.empty_output {
                Some(v) => Ok(Some(slice_to_vec(v.as_slice()))),
                None => Ok(None),
            };
        }
        let ghost s = input@;
        let ghost total = fst_output(self.bytes(), self.start(), self.empty(), s);
        let mut out: Vec<u8> = Vec::new();
        let mut node: i64 = to_i64(self.start_node);
        let mut i: usize = 0;
        proof {
            assert(s.skip(0) =~= s);
            lemma_prefixed_empty(node_output(self.bytes(), node as int, s));
        }
        loop
            invariant
                i < input.len(),
                s == input@,
                total == prefixed(out@, node_output(self.bytes(), node as int, s.skip(i as int))),
                total == fst_output(self.bytes(), self.start(), self.empty(), s),
            decreases input.len() - i,
        {
            let ghost rest = s.skip(i as int);
            assert(rest[0] == s[i as int]);
            if node <= 0 {
                return Ok(None);
            }
            let arcs = self.read_node(node as u64)?;
            let arc = match Self::find_arc(&arcs, input[i]) {
                Some(a) => a,
                None => {
                    return Ok(None);
                },
            };
            let ghost before = out@;
            if let Some(o) = &arc.output {
                push_all(&mut out, o.as_slice());
            }
            assert(out@ =~= before + arc@.output);
            if i == input.len() - 1 {
                if !arc.is_final {
                    return Ok(None);
                }
                if let Some(o) = &arc.final_output {
                    push_all(&mut out, o.as_slice());
                }
                assert(out@ =~= before + (arc@.output + arc@.final_output));
                return Ok(Some(out));
            }
            node = arc.target;
            proof {
                assert(rest.skip(1) =~= s.skip(i + 1));
                lemma_prefixed_twice(before, arc@.output, node_output(self.bytes(), node as int, s.skip(i + 1)));
            }
            i = i + 1;
        }
    }

    /// The inputs accepted on the way along `input`: bytes consumed and whole
    /// output of each. The empty input is not among them.
    pub fn trace_path(&self, input: &[u8]) -> (r: Result<Vec<(usize, Vec<u8>)>, Error>)
        ensures
            match node_frames(self.bytes(), spec_to_i64(self.start()) as int, input@, 0, Seq::empty()) {
                Ok(f) => r is Ok && r->Ok_0@.map_values(|e: (usize, Vec<u8>)| (e.0 as int, e.1@)) == f,
                Err(k) => r is Err && r->Err_0.kind == k,
            },
    {
        let mut frames: Vec<(usize, Vec<u8>)> = Vec::new();
        let ghost s = input@;
        let ghost total = node_frames(self.bytes(), spec_to_i64(self.start()) as int, s, 0, Seq::empty());
        let mut out: Vec<u8> = Vec::new();
        let mut node: i64 = to_i64(self.start_node);
        let mut i: usize = 0;
        let ghost mut seen: Seq<(int, Seq<u8>)> = Seq::empty();
        proof {
            assert(s.skip(0) =~= s);
            assert(frames@.map_values(|e: (usize, Vec<u8>)| (e.0 as int, e.1@)) =~= seen);
            lemma_behind_nothing(node_frames(self.bytes(), node as int, s, 0, Seq::empty()));
        }
        while i < input.len()
            invariant
                i <= input.len(),
                s == input@,
                seen == frames@.map_values(|e: (usize, Vec<u8>)| (e.0 as int, e.1@)),
                total == node_frames(self.bytes(), spec_to_i64(self.start()) as int, s, 0, Seq::empty()),
                total == behind(seen, node_frames(self.bytes(), node as int, s.skip(i as int), i as int, out@)),
            decreases input.len() - i,
        {
            let ghost rest = s.skip(i as int);
            assert(rest[0] == s[i as int]);
            if node <= 0 {
                assert(seen + Seq::<(int, Seq<u8>)>::empty() =~= seen);
                return Ok(frames);
            }
            let arcs = self.read_node(node as u64)?;
            let arc = match Self::find_arc(&arcs, input[i]) {
                Some(a) => a,
                None => {
                    assert(seen + Seq::<(int, Seq<u8>)>::empty() =~= seen);
                    return Ok(frames);
                },
            };
            let ghost (out0, seen0) = (out@, seen);
            if let Some(o) = &arc.output {
                push_all(&mut out, o.as_slice());
            }
            assert(out@ =~= out0 + arc@.output);
            let ghost here: Seq<(int, Seq<u8>)> = if arc.is_final {
                seq![(i + 1, out0 + arc@.output + arc@.final_output)]
            } else {
                Seq::empty()
            };
            if arc.is_final {
                let mut full = slice_to_vec(out.as_slice());
                if let Some(o) = &arc.final_output {
                    push_all(&mut full, o.as_slice());
                }
                assert(full@ =~= out0 + arc@.output + arc@.final_output);
                frames.push((i + 1, full));
            }
            proof {
                seen = seen + here;
                assert(frames@.map_values(|e: (usize, Vec<u8>)| (e.0 as int, e.1@)) =~= seen);
            }
            node = arc.target;
            proof {
                assert(rest.skip(1) =~= s.skip(i + 1));
                lemma_behind_twice(seen0, here, node_frames(self.bytes(), node as int, s.skip(i + 1), i + 1, out@));
            }
            i = i + 1;
        }
        assert(seen + Seq::<(int, Seq<u8>)>::empty() =~= seen);
        Ok(frames)
    }
}

spec fn behind(a: Seq<(int, Seq<u8>)>, r: Result<Seq<(int, Seq<u8>)>, ErrorKind>) -> Result<Seq<(int, Seq<u8>)>, ErrorKind> {
    match r {
        Ok(x) => Ok(a + x),
        Err(k) => Err(k),
    }
}

proof fn lemma_behind_nothing(r: Result<Seq<(int, Seq<u8>)>, ErrorKind>)
    ensures
        behind(Seq::empty(), r) == r,
{
    if r is Ok {
        assert(Seq::<(int, Seq<u8>)>::empty() + r->Ok_0 =~= r->Ok_0);
    }
}

proof fn lemma_behind_twice(a: Seq<(int, Seq<u8>)>, b: Seq<(int, Seq<u8>)>, r: Result<Seq<(int, Seq<u8>)>, ErrorKind>)
    ensures
        behind(a + b, r) == behind(a, behind(b, r)),
{
    if r is Ok {
        assert(a + b + r->Ok_0 =~= a + (b + r->Ok_0));
    }
}

/// What the inputs accepted on a way say of its first `n` bytes.
pub open spec fn frame_tells(frames: Seq<(int, Seq<u8>)>, depth: int, n: int, r: Result<Option<Seq<u8>>, ErrorKind>) -> bool {
    match r {
        Ok(Some(o)) => frames.contains((depth + n, o)),
        Ok(None) => forall|i: int| 0 <= i < frames.len() ==> (#[trigger] frames[i]).0 != depth + n,
        Err(_) => false,
    }
}

/// Frames are in the order of their lengths, which lie behind `depth` and
/// within `end`.
pub open spec fn frames_ascend(frames: Seq<(int, Seq<u8>)>, depth: int, end: int) -> bool {
    &&& forall|i: int| 0 <= i < frames.len() ==> depth < (#[trigger] frames[i]).0 <= end
    &&& forall|i: int, j: int| 0 <= i < j < frames.len() ==> (#[trigger] frames[i]).0 < (#[trigger] frames[j]).0
}

proof fn lemma_frames(bytes: Seq<u8>, node: int, input: Seq<u8>, depth: int, out: Seq<u8>)
    ensures
        match node_frames(bytes, node, input, depth, out) {
            Ok(frames) => frames_ascend(frames, depth, depth + input.len()) && forall|n: int|
                1 <= n <= input.len() ==> frame_tells(frames, depth, n, prefixed(out, #[trigger] node_output(bytes, node, input.take(n)))),
            Err(k) => input.len() > 0 && node_output(bytes, node, input) == Err::<Option<Seq<u8>>, ErrorKind>(k),
        },
    decreases input.len(),
{
    if node > 0 && input.len() > 0 && node_at(bytes, node) is Ok {
        let arcs = node_at(bytes, node)->Ok_0.0;
        match find_arc_from(arcs, input[0], 0) {
            Some(arc) => {
                let rest = input.skip(1);
                let out1 = out + arc.output;
                lemma_frames(bytes, arc.target, rest, depth + 1, out1);
                let here: Seq<(int, Seq<u8>)> = if arc.is_final {
                    seq![(depth + 1, out + arc.output + arc.final_output)]
                } else {
                    Seq::empty()
                };
                match node_frames(bytes, arc.target, rest, depth + 1, out1) {
                    Ok(later) => {
                        let frames = here + later;
                        assert forall|i: int, j: int| 0 <= i < j < frames.len() implies (#[trigger] frames[i]).0 < (#[trigger] frames[j]).0 by {
                            assert(frames[j] == later[j - here.len()]);
                            if i >= here.len() {
                                assert(frames[i] == later[i - here.len()]);
                            }
                        }
                        assert forall|n: int| 1 <= n <= input.len() implies frame_tells(
                            frames,
                            depth,
                            n,
                            prefixed(out, #[trigger] node_output(bytes, node, input.take(n))),
                        ) by {
                            let part = input.take(n);
                            assert(part[0] == input[0]);
                            if n == 1 {
                                if arc.is_final {
                                    assert(out + (arc.output + arc.final_output) =~= out + arc.output + arc.final_output);
                                    assert(frames[0] == here[0]);
                                } else {
                                    assert(frames =~= later);
                                }
                            } else {
                                assert(part.skip(1) =~= rest.take(n - 1));
                                let r = node_output(bytes, arc.target, rest.take(n - 1));
                                assert(frame_tells(later, depth + 1, n - 1, prefixed(out1, r)));
                                lemma_prefixed_twice(out, arc.output, r);
                                match prefixed(out1, r) {
                                    Ok(Some(o)) => {
                                        let k = choose|k: int| 0 <= k < later.len() && later[k] == (depth + n, o);
                                        assert(later.contains((depth + 1 + (n - 1), o)));
                                        assert(frames[here.len() + k] == (depth + n, o));
                                    },
                                    _ => {
                                        assert forall|i: int| 0 <= i < frames.len() implies (#[trigger] frames[i]).0 != depth + n by {
                                            if i >= here.len() {
                                                assert(frames[i] == later[i - here.len()]);
                                            }
                                        }
                                    },
                                }
                            }
                        }
                    },
                    Err(_) => {},
                }
            },
            None => {
                assert forall|n: int| 1 <= n <= input.len() implies node_output(bytes, node, #[trigger] input.take(n)) == Ok::<Option<Seq<u8>>, ErrorKind>(None) by {
                    assert(input.take(n)[0] == input[0]);
                }
            },
        }
    }
}

/// The frames along an input are its beginnings that are accepted, each with
/// the output that looking it up gives, in the order of their lengths. Where
/// the way cannot be read to its end, looking the input up fails alike.
pub proof fn law_frames_are_lookups(bytes: Seq<u8>, start_node: u64, empty_output: Option<Seq<u8>>, input: Seq<u8>)
    ensures
        match node_frames(bytes, spec_to_i64(start_node) as int, input, 0, Seq::empty()) {
            Ok(frames) => frames_ascend(frames, 0, input.len() as int) && (forall|i: int|
                0 <= i < frames.len() ==> fst_output(bytes, start_node, empty_output, input.take((#[trigger] frames[i]).0)) == Ok::<Option<Seq<u8>>, ErrorKind>(Some(frames[i].1)))
                && forall|n: int|
                1 <= n <= input.len() ==> frame_tells(frames, 0, n, #[trigger] fst_output(bytes, start_node, empty_output, input.take(n))),
            Err(k) => fst_output(bytes, start_node, empty_output, input) == Err::<Option<Seq<u8>>, ErrorKind>(k),
        },
{
    let node = spec_to_i64(start_node) as int;
    lemma_frames(bytes, node, input, 0, Seq::empty());
    match node_frames(bytes, node, input, 0, Seq::empty()) {
        Ok(frames) => {
            assert forall|n: int| 1 <= n <= input.len() implies frame_tells(frames, 0, n, #[trigger] fst_output(bytes, start_node, empty_output, input.take(n))) by {
                lemma_prefixed_empty(node_output(bytes, node, input.take(n)));
            }
            assert forall|i: int| 0 <= i < frames.len() implies fst_output(bytes, start_node, empty_output, input.take((#[trigger] frames[i]).0)) == Ok::<
                Option<Seq<u8>>,
                ErrorKind,
            >(Some(frames[i].1)) by {
                let n = frames[i].0;
                let r = fst_output(bytes, start_node, empty_output, input.take(n));
                assert(frame_tells(frames, 0, n, r));
                let o = r->Ok_0->Some_0;
                assert(frames.contains((0 + n, o)));
                let k = choose|k: int| 0 <= k < frames.len() && frames[k] == (0 + n, o);
                assert(k == i);
            }
        },
        Err(_) => {},
    }
}

proof fn lemma_prefixed_empty(r: Result<Option<Seq<u8>>, ErrorKind>)
    ensures
        prefixed(Seq::empty(), r) == r,
{
    if r is Ok && r->Ok_0 is Some {
        assert(Seq::<u8>::empty() + r->Ok_0->Some_0 =~= r->Ok_0->Some_0);
    }
}

proof fn lemma_prefixed_twice(a: Seq<u8>, b: Seq<u8>, r: Result<Option<Seq<u8>>, ErrorKind>)
    ensures
        prefixed(a + b, r) == prefixed(a, prefixed(b, r)),
{
    if r is Ok && r->Ok_0 is Some {
        assert(a + b + r->Ok_0->Some_0 =~= a + (b + r->Ok_0->Some_0));
    }
}

} // verus!
