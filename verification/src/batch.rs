//! The batch codec: magic/version header, batch identifier, instruction
//! list and trailing integrity signature, verified on decode.

use vstd::prelude::*;
use vstd::utf8::encode_utf8;
use crate::codec::{
    ParseError, ErrKind, matches_err, spec_read_u8, spec_read_u32_le, spec_read_leb_u32,
    spec_leb_u32_bytes, spec_u32_le_bytes, spec_u64_le_bytes, read_u8, read_u32_le,
    read_leb128_u32, read_byte_run, write_leb128_u32, write_u32_le, write_u64_le,
    lemma_subrange_split, lemma_leb_u32_roundtrip_at, lemma_u32_le_roundtrip,
};
use crate::value::{
    Param, PVal, param_view, pairs_view, pair_list_bytes, wf_pairs, distinct_keys,
    spec_read_pairs, parse_param, write_param, insert_pair, lemma_pairs_view_len,
    lemma_pairs_roundtrip_at, lemma_pair_list_bytes_take, lemma_wf_pairs_index, wf_pval,
};
use crate::{LCB_MAGIC, LCB_VERSION};

verus! {

/// A single instruction: the numeric contract it addresses, its named
/// parameters, and the index of the earlier result it chains from, as
/// the parameters' directives say.
#[derive(Debug, PartialEq)]
pub struct Instruction {
    pub contract_id: u16,
    pub params: Vec<(String, Param)>,
    pub chain_from: Option<usize>,
}

/// A parsed batch.
#[derive(Debug, PartialEq)]
pub struct LCBBatch {
    pub version: u8,
    pub batch_id: Vec<u8>,
    pub instructions: Vec<Instruction>,
    pub signature: Vec<u8>,
}

/// The mathematical value of an `Instruction`.
pub struct InstrV {
    pub contract_id: u16,
    pub params: Seq<(Seq<char>, PVal)>,
    pub chain_from: Option<int>,
}

/// The mathematical value of a batch.
pub struct BatchV {
    pub version: u8,
    pub batch_id: Seq<u8>,
    pub instructions: Seq<InstrV>,
    pub signature: Seq<u8>,
}

pub open spec fn instr_view(i: Instruction) -> InstrV {
    InstrV {
        contract_id: i.contract_id,
        params: pairs_view(i.params@),
        chain_from: match i.chain_from {
            Some(n) => Some(n as int),
            None => None,
        },
    }
}

impl View for Instruction {
    type V = InstrV;

    open spec fn view(&self) -> InstrV {
        instr_view(*self)
    }
}

pub open spec fn instrs_view(s: Seq<Instruction>) -> Seq<InstrV>
    decreases s,
{
    if s.len() == 0 {
        Seq::empty()
    } else {
        instrs_view(s.drop_last()).push(instr_view(s.last()))
    }
}

/// The element-wise reading of `instrs_view`.
pub broadcast proof fn lemma_instrs_view_len(s: Seq<Instruction>)
    ensures
        (#[trigger] instrs_view(s)).len() == s.len(),
        forall|i: int| 0 <= i < s.len() ==> instrs_view(s)[i] == instr_view(s[i]),
    decreases s,
{
    if s.len() > 0 {
        lemma_instrs_view_len(s.drop_last());
    }
}

impl View for LCBBatch {
    type V = BatchV;

    open spec fn view(&self) -> BatchV {
        BatchV {
            version: self.version,
            batch_id: self.batch_id@,
            instructions: instrs_view(self.instructions@),
            signature: self.signature@,
        }
    }
}

/// The chain source that a parameter list names: the last chaining
/// directive wins, as parameters are read in order.
pub open spec fn chain_of_pairs(pairs: Seq<(Seq<char>, PVal)>) -> Option<int>
    decreases pairs,
{
    if pairs.len() == 0 {
        None
    } else if pairs.last().1 is ChainFrom {
        Some(pairs.last().1->ChainFrom_0)
    } else {
        chain_of_pairs(pairs.drop_last())
    }
}

/// One decoded value's effect on the chain field: a directive replaces
/// it, anything else leaves it.
pub open spec fn chain_step(acc: Option<int>, v: PVal) -> Option<int> {
    if v is ChainFrom {
        Some(v->ChainFrom_0)
    } else {
        acc
    }
}

/// The chain field folded over a pair list, front to back, from `acc`.
pub open spec fn chain_fold(acc: Option<int>, pairs: Seq<(Seq<char>, PVal)>) -> Option<int>
    decreases pairs,
{
    if pairs.len() == 0 {
        acc
    } else if pairs.last().1 is ChainFrom {
        Some(pairs.last().1->ChainFrom_0)
    } else {
        chain_fold(acc, pairs.drop_last())
    }
}

/// The chain field named by the parameters at the cursor, in decode
/// order and before any de-duplication: each encountered `ChainFrom`
/// sets it, the last one winning, even if a later parameter of the same
/// name overwrites the directive's value in the map.
pub open spec fn spec_read_pairs_chain(d: Seq<u8>, pos: int, count: u32, acc: Option<int>) -> Result<
    (Option<int>, int),
    ErrKind,
>
    decreases d.len() - pos, count,
{
    if count == 0 {
        Ok((acc, pos))
    } else {
        match spec_read_leb_u32(d, pos) {
            Err(k) => Err(k),
            Ok((klen, p1)) => match crate::codec::spec_read_string(d, p1, klen as int) {
                Err(k) => Err(k),
                Ok((_key, p2)) => {
                    if p2 <= pos {
                        Err(ErrKind::Malformed(Seq::empty()))
                    } else {
                        match crate::value::spec_read_pval(d, p2) {
                            Err(k) => Err(k),
                            Ok((v, p3)) => {
                                if p3 <= pos || p3 > d.len() {
                                    Err(ErrKind::Malformed(Seq::empty()))
                                } else {
                                    spec_read_pairs_chain(
                                        d,
                                        p3,
                                        (count - 1) as u32,
                                        chain_step(acc, v),
                                    )
                                }
                            },
                        }
                    }
                },
            },
        }
    }
}

/// A wire-faithful instruction: lengths fit their 32-bit prefixes, names
/// are distinct, and the chain field says what the parameters say.
pub open spec fn wf_instr(iv: InstrV) -> bool {
    &&& iv.params.len() < 0x100000000
    &&& wf_pairs(iv.params)
    &&& distinct_keys(iv.params)
    &&& iv.chain_from == chain_of_pairs(iv.params)
}

/// The encoding of one instruction.
pub open spec fn instr_bytes(iv: InstrV) -> Seq<u8> {
    spec_leb_u32_bytes(iv.contract_id as u32) + spec_leb_u32_bytes(iv.params.len() as u32)
        + pair_list_bytes(iv.params)
}

pub open spec fn instrs_bytes(s: Seq<InstrV>) -> Seq<u8>
    decreases s,
{
    if s.len() == 0 {
        Seq::empty()
    } else {
        instrs_bytes(s.drop_last()) + instr_bytes(s.last())
    }
}

/// Every byte of a serialized batch before the trailing signature.
pub open spec fn batch_prefix_bytes(bv: BatchV) -> Seq<u8> {
    spec_u32_le_bytes(LCB_MAGIC) + seq![bv.version] + bv.batch_id + spec_leb_u32_bytes(
        bv.instructions.len() as u32,
    ) + instrs_bytes(bv.instructions)
}

/// The full encoding: prefix then signature.
pub open spec fn batch_bytes(bv: BatchV) -> Seq<u8> {
    batch_prefix_bytes(bv) + bv.signature
}

/// The digest of a byte sequence under SHA-256, named but not modeled:
/// the only facts available are those the trusted wrapper states.
pub uninterp spec fn sha256_of(data: Seq<u8>) -> Seq<u8>;

/// Relies on sha2's `Sha256` through `Digest::digest`: the digest is a
/// function of the input bytes alone and is exactly 32 bytes long.
#[verifier::external_body]
fn sha256(data: &[u8]) -> (r: Vec<u8>)
    ensures
        r@ == sha256_of(data@),
        r@.len() == 32,
{
    let out = <sha2::Sha256 as sha2::Digest>::digest(data);
    out.to_vec()
}

/// A well-formed batch: current version, 32-byte identifier and
/// signature, wire-faithful instructions, and a signature that is the
/// digest of everything before it.
pub open spec fn wf_batch(bv: BatchV) -> bool {
    &&& bv.version == LCB_VERSION
    &&& bv.batch_id.len() == 32
    &&& bv.signature.len() == 32
    &&& bv.instructions.len() < 0x100000000
    &&& wf_instrs(bv.instructions)
    &&& bv.signature == sha256_of(batch_prefix_bytes(bv))
}

pub open spec fn wf_instrs(s: Seq<InstrV>) -> bool
    decreases s,
{
    if s.len() == 0 {
        true
    } else {
        wf_instrs(s.drop_last()) && wf_instr(s.last())
    }
}

/// Decode one instruction at the cursor.  The contract identifier is an
/// unsigned varint truncated to 16 bits.  The chain field is set by the
/// chaining directives among the decoded parameters in decode order,
/// the last one winning — before de-duplication, so a directive still
/// counts even when a later parameter of the same name overwrites it.
pub open spec fn spec_read_instr(d: Seq<u8>, pos: int) -> Result<(InstrV, int), ErrKind> {
    match spec_read_leb_u32(d, pos) {
        Err(k) => Err(k),
        Ok((cid, p1)) => match spec_read_leb_u32(d, p1) {
            Err(k) => Err(k),
            Ok((count, p2)) => {
                if p2 <= pos || p2 > d.len() {
                    Err(ErrKind::Malformed(Seq::empty()))
                } else {
                    match spec_read_pairs(d, p2, count, Seq::empty()) {
                        Err(k) => Err(k),
                        Ok((pairs, p3)) => match spec_read_pairs_chain(d, p2, count, None) {
                            Err(k) => Err(k),
                            Ok((chain, _)) => Ok(
                                (
                                    InstrV {
                                        contract_id: (cid % 0x10000) as u16,
                                        params: pairs,
                                        chain_from: chain,
                                    },
                                    p3,
                                ),
                            ),
                        },
                    }
                }
            },
        },
    }
}

/// Decode `count` instructions, in order.
pub open spec fn spec_read_instrs(d: Seq<u8>, pos: int, count: u32, acc: Seq<InstrV>) -> Result<
    (Seq<InstrV>, int),
    ErrKind,
>
    decreases d.len() - pos, count,
{
    if count == 0 {
        Ok((acc, pos))
    } else {
        match spec_read_instr(d, pos) {
            Err(k) => Err(k),
            Ok((iv, p2)) => {
                if p2 <= pos || p2 > d.len() {
                    Err(ErrKind::Malformed(Seq::empty()))
                } else {
                    spec_read_instrs(d, p2, (count - 1) as u32, acc.push(iv))
                }
            },
        }
    }
}

/// Decode a complete batch: header, identifier, instructions, trailing
/// signature, then the integrity check of every byte before the
/// signature against the signature.
pub open spec fn spec_parse_batch(d: Seq<u8>) -> Result<BatchV, ErrKind> {
    match spec_read_u32_le(d, 0) {
        Err(k) => Err(k),
        Ok((magic, p0)) => {
            if magic != LCB_MAGIC {
                Err(ErrKind::InvalidMagic(magic))
            } else {
                match spec_read_u8(d, p0) {
                    Err(k) => Err(k),
                    Ok((version, p1)) => {
                        if version != LCB_VERSION {
                            Err(ErrKind::UnsupportedVersion(version))
                        } else {
                            if p1 + 32 > d.len() {
                                Err(ErrKind::Eof)
                            } else {
                                let batch_id = d.subrange(p1, p1 + 32);
                                let p2 = p1 + 32;
                                match spec_read_leb_u32(d, p2) {
                                    Err(k) => Err(k),
                                    Ok((count, p3)) => {
                                        if p3 <= p2 || p3 > d.len() {
                                            Err(ErrKind::Malformed(Seq::empty()))
                                        } else {
                                            match spec_read_instrs(d, p3, count, Seq::empty()) {
                                                Err(k) => Err(k),
                                                Ok((instrs, p4)) => {
                                                    if p4 + 32 > d.len() {
                                                        Err(ErrKind::Eof)
                                                    } else {
                                                        let signature = d.subrange(p4, p4 + 32);
                                                        let computed = sha256_of(
                                                            d.take(d.len() - 32),
                                                        );
                                                        if computed != signature {
                                                            Err(ErrKind::Sig)
                                                        } else {
                                                            Ok(
                                                                BatchV {
                                                                    version,
                                                                    batch_id,
                                                                    instructions: instrs,
                                                                    signature,
                                                                },
                                                            )
                                                        }
                                                    }
                                                },
                                            }
                                        }
                                    },
                                }
                            }
                        }
                    },
                }
            }
        },
    }
}

/// Equality of two byte vectors.
pub fn bytes_eq(a: &Vec<u8>, b: &Vec<u8>) -> (r: bool)
    ensures
        r == (a@ == b@),
{
    if a.len() != b.len() {
        return false;
    }
    let mut i: usize = 0;
    while i < a.len()
        invariant
            a@.len() == b@.len(),
            i <= a@.len(),
            forall|k: int| 0 <= k < i ==> a@[k] == b@[k],
        decreases a@.len() - i,
    {
        if a[i] != b[i] {
            return false;
        }
        i = i + 1;
    }
    proof {
        assert(a@ =~= b@);
    }
    true
}

/// One step of the chain scan.
proof fn lemma_chain_of_pairs_take(pairs: Seq<(Seq<char>, PVal)>, j: int)
    requires
        0 <= j < pairs.len(),
    ensures
        chain_of_pairs(pairs.take(j + 1)) == (if pairs[j].1 is ChainFrom {
            Some(pairs[j].1->ChainFrom_0)
        } else {
            chain_of_pairs(pairs.take(j))
        }),
{
    assert(pairs.take(j + 1).drop_last() =~= pairs.take(j));
    assert(pairs.take(j + 1).last() == pairs[j]);
}

/// The chain source named by a decoded parameter list, executable form.
#[verifier::loop_isolation(false)]
fn scan_chain(params: &Vec<(String, Param)>) -> (r: Option<usize>)
    ensures
        (match r {
            Some(n) => Some(n as int),
            None => None,
        }) == chain_of_pairs(pairs_view(params@)),
{
    proof {
        lemma_pairs_view_len(params@);
    }
    let ghost pw = pairs_view(params@);
    let mut chain: Option<usize> = None;
    let mut j: usize = 0;
    while j < params.len()
        invariant
            j <= params@.len(),
            (match chain {
                Some(n) => Some(n as int),
                None => None::<int>,
            }) == chain_of_pairs(pw.take(j as int)),
        decreases params@.len() - j,
    {
        proof {
            lemma_chain_of_pairs_take(pw, j as int);
        }
        match &params[j].1 {
            Param::ChainFrom(n) => {
                chain = Some(*n);
            },
            _ => {},
        }
        j = j + 1;
    }
    proof {
        assert(pw.take(pw.len() as int) =~= pw);
    }
    chain
}

/// Decode one instruction at the cursor.
#[verifier::loop_isolation(false)]
pub fn parse_instruction(data: &[u8], pos: usize) -> (r: Result<(Instruction, usize), ParseError>)
    ensures
        (match r {
            Ok((inst, p)) => spec_read_instr(data@, pos as int) == Ok::<(InstrV, int), ErrKind>(
                (instr_view(inst), p as int),
            ),
            Err(e) => spec_read_instr(data@, pos as int) matches Err(k) && matches_err(e, k),
        }),
        r matches Ok(t) ==> pos < t.1 <= data@.len(),
{
    let (cid32, p1) = match read_leb128_u32(data, pos) {
        Ok(t) => t,
        Err(e) => {
            return Err(e);
        },
    };
    let (count, p2) = match read_leb128_u32(data, p1) {
        Ok(t) => t,
        Err(e) => {
            return Err(e);
        },
    };
    let mut pairs: Vec<(String, Param)> = Vec::new();
    let mut chain: Option<usize> = None;
    let mut cur: usize = p2;
    let mut i: u32 = 0;
    while i < count
        invariant
            i <= count,
            pos < cur <= data@.len(),
            spec_read_pairs(data@, p2 as int, count, Seq::empty()) == spec_read_pairs(
                data@,
                cur as int,
                (count - i) as u32,
                pairs_view(pairs@),
            ),
            spec_read_pairs_chain(data@, p2 as int, count, None) == spec_read_pairs_chain(
                data@,
                cur as int,
                (count - i) as u32,
                match chain {
                    Some(n) => Some(n as int),
                    None => None,
                },
            ),
        decreases count - i,
    {
        let (klen, q1) = match read_leb128_u32(data, cur) {
            Ok(t) => t,
            Err(e) => {
                return Err(e);
            },
        };
        let (key, q2) = match crate::codec::read_string(data, q1, klen as usize) {
            Ok(t) => t,
            Err(e) => {
                return Err(e);
            },
        };
        let (v, q3) = match parse_param(data, q2) {
            Ok(t) => t,
            Err(e) => {
                return Err(e);
            },
        };
        match &v {
            Param::ChainFrom(n) => {
                chain = Some(*n);
            },
            _ => {},
        }
        insert_pair(&mut pairs, key, v);
        cur = q3;
        i = i + 1;
    }
    Ok(
        (
            Instruction {
                contract_id: (cid32 % 0x10000) as u16,
                params: pairs,
                chain_from: chain,
            },
            cur,
        ),
    )
}

/// Parse a complete batch: header, identifier, instructions, trailing
/// signature, then verify the digest of every preceding byte against
/// the signature.  No instruction of a rejected batch is ever acted on.
#[verifier::loop_isolation(false)]
pub fn parse_batch(data: &[u8]) -> (r: Result<LCBBatch, ParseError>)
    ensures
        (match r {
            Ok(b) => spec_parse_batch(data@) == Ok::<BatchV, ErrKind>(b@),
            Err(e) => spec_parse_batch(data@) matches Err(k) && matches_err(e, k),
        }),
{
    let (magic, p0) = match read_u32_le(data, 0) {
        Ok(t) => t,
        Err(e) => {
            return Err(e);
        },
    };
    if magic != LCB_MAGIC {
        return Err(ParseError::InvalidMagic(magic));
    }
    let (version, p1) = match read_u8(data, p0) {
        Ok(t) => t,
        Err(e) => {
            return Err(e);
        },
    };
    if version != LCB_VERSION {
        return Err(ParseError::UnsupportedVersion(version));
    }
    let (batch_id, p2) = match read_byte_run(data, p1, 32) {
        Ok(t) => t,
        Err(e) => {
            return Err(e);
        },
    };
    let (count, p3) = match read_leb128_u32(data, p2) {
        Ok(t) => t,
        Err(e) => {
            return Err(e);
        },
    };
    let mut instrs: Vec<Instruction> = Vec::new();
    let mut cur: usize = p3;
    let mut i: u32 = 0;
    while i < count
        invariant
            i <= count,
            p2 < cur <= data@.len(),
            spec_read_instrs(data@, p3 as int, count, Seq::empty()) == spec_read_instrs(
                data@,
                cur as int,
                (count - i) as u32,
                instrs_view(instrs@),
            ),
        decreases count - i,
    {
        match parse_instruction(data, cur) {
            Ok((inst, next)) => {
                proof {
                    assert(instrs@.push(inst).drop_last() =~= instrs@);
                    assert(instrs_view(instrs@.push(inst)) == instrs_view(instrs@).push(
                        instr_view(inst),
                    ));
                }
                instrs.push(inst);
                cur = next;
                i = i + 1;
            },
            Err(e) => {
                return Err(e);
            },
        }
    }
    let (signature, _p5) = match read_byte_run(data, cur, 32) {
        Ok(t) => t,
        Err(e) => {
            return Err(e);
        },
    };
    let n: usize = data.len();
    let prefix = match read_byte_run(data, 0, n - 32) {
        Ok((v, _)) => v,
        Err(_) => {
            proof {
                assert(false);
            }
            Vec::new()
        },
    };
    let computed = sha256(prefix.as_slice());
    proof {
        assert(data@.subrange(0, n - 32) =~= data@.take(data@.len() - 32));
    }
    if !bytes_eq(&computed, &signature) {
        return Err(ParseError::InvalidSignature);
    }
    Ok(
        LCBBatch {
            version,
            batch_id,
            instructions: instrs,
            signature,
        },
    )
}

/// Well-formedness of an instruction list reaches every element.
pub proof fn lemma_wf_instrs_index(s: Seq<InstrV>)
    requires
        wf_instrs(s),
    ensures
        forall|i: int| 0 <= i < s.len() ==> wf_instr(#[trigger] s[i]),
    decreases s.len(),
{
    if s.len() > 0 {
        lemma_wf_instrs_index(s.drop_last());
        assert forall|i: int| 0 <= i < s.len() implies wf_instr(#[trigger] s[i]) by {
            if i < s.len() - 1 {
                assert(s.drop_last()[i] == s[i]);
            } else {
                assert(s.last() == s[i]);
            }
        }
    }
}

/// Encoded instruction prefixes grow one element at a time.
pub proof fn lemma_instrs_bytes_take(s: Seq<InstrV>, i: int)
    requires
        0 <= i < s.len(),
    ensures
        instrs_bytes(s.take(i + 1)) == instrs_bytes(s.take(i)) + instr_bytes(s[i]),
{
    assert(s.take(i + 1).drop_last() =~= s.take(i));
    assert(s.take(i + 1).last() == s[i]);
}

/// Append the wire encoding of one instruction.
#[verifier::loop_isolation(false)]
pub fn write_instruction(data: &mut Vec<u8>, inst: &Instruction)
    requires
        pairs_view(inst.params@).len() < 0x100000000,
        wf_pairs(pairs_view(inst.params@)),
    ensures
        final(data)@ == old(data)@ + instr_bytes(instr_view(*inst)),
{
    let ghost pw = pairs_view(inst.params@);
    proof {
        lemma_pairs_view_len(inst.params@);
        lemma_wf_pairs_index(pw);
    }
    write_leb128_u32(data, inst.contract_id as u32);
    write_leb128_u32(data, inst.params.len() as u32);
    let ghost prefix0 = data@;
    let mut i: usize = 0;
    while i < inst.params.len()
        invariant
            i <= inst.params@.len(),
            data@ == prefix0 + pair_list_bytes(pw.take(i as int)),
        decreases inst.params@.len() - i,
    {
        proof {
            assert(pw[i as int] == (inst.params@[i as int].0@, param_view(
                inst.params@[i as int].1,
            )));
            assert(encode_utf8(pw[i as int].0).len() < 0x100000000);
            assert(wf_pval(pw[i as int].1));
        }
        write_leb128_u32(data, inst.params[i].0.as_str().len() as u32);
        crate::codec::write_str_bytes(data, inst.params[i].0.as_str());
        write_param(data, &inst.params[i].1);
        proof {
            lemma_pair_list_bytes_take(pw, i as int);
            assert(data@ =~= prefix0 + pair_list_bytes(pw.take(i + 1)));
        }
        i = i + 1;
    }
    proof {
        assert(pw.take(pw.len() as int) =~= pw);
        assert(data@ =~= old(data)@ + instr_bytes(instr_view(*inst)));
    }
}

/// The batch a builder serializes under a caller-supplied identifier:
/// current version, that identifier, and a trailing digest of
/// everything before it.
pub open spec fn built_batch_with_id(instrs: Seq<InstrV>, id: Seq<u8>) -> BatchV {
    let unsigned = BatchV {
        version: LCB_VERSION,
        batch_id: id,
        instructions: instrs,
        signature: Seq::empty(),
    };
    BatchV {
        version: LCB_VERSION,
        batch_id: id,
        instructions: instrs,
        signature: sha256_of(batch_prefix_bytes(unsigned)),
    }
}

/// The batch a builder's `build` serializes: the identifier derived
/// from the instruction count alone.  Two batches with the same count
/// get the same identifier: nothing here is collision-free.
pub open spec fn built_batch(instrs: Seq<InstrV>) -> BatchV {
    built_batch_with_id(instrs, sha256_of(spec_u64_le_bytes(instrs.len() as u64)))
}

/// Accumulates instructions and serializes them as a signed batch.
pub struct LCBBuilder {
    instructions: Vec<Instruction>,
}

impl View for LCBBuilder {
    type V = Seq<InstrV>;

    closed spec fn view(&self) -> Seq<InstrV> {
        instrs_view(self.instructions@)
    }
}

impl LCBBuilder {
    /// Everything added so far is wire-faithful and countable.
    pub open spec fn inv(&self) -> bool {
        wf_instrs(self@) && self@.len() < 0x100000000
    }

    pub fn new() -> (r: Self)
        ensures
            r@ == Seq::<InstrV>::empty(),
            r.inv(),
    {
        LCBBuilder { instructions: Vec::new() }
    }

    /// Add one instruction; its chain field is derived from the
    /// parameters' directives, the last one winning.
    pub fn add_instruction(self, contract_id: u16, params: Vec<(String, Param)>) -> (r: Self)
        requires
            self.inv(),
            self@.len() + 1 < 0x100000000,
            wf_pairs(pairs_view(params@)),
            distinct_keys(pairs_view(params@)),
            pairs_view(params@).len() < 0x100000000,
        ensures
            r@ == self@.push(
                InstrV {
                    contract_id,
                    params: pairs_view(params@),
                    chain_from: chain_of_pairs(pairs_view(params@)),
                },
            ),
            r.inv(),
    {
        let chain = scan_chain(&params);
        let inst = Instruction { contract_id, params, chain_from: chain };
        let ghost ivnew = InstrV {
            contract_id,
            params: pairs_view(inst.params@),
            chain_from: chain_of_pairs(pairs_view(inst.params@)),
        };
        let mut instructions = self.instructions;
        proof {
            assert(instructions@.push(inst).drop_last() =~= instructions@);
            assert(instr_view(inst) == ivnew);
        }
        instructions.push(inst);
        let r = LCBBuilder { instructions };
        proof {
            assert(r@ == self@.push(ivnew));
            assert(r@.drop_last() =~= self@);
            assert(r@.last() == ivnew);
            assert(wf_instr(ivnew));
            assert(wf_instrs(r@));
        }
        r
    }

    /// Serialize under a caller-supplied 32-byte identifier: header,
    /// the identifier, instruction count, instructions, then the digest
    /// of all preceding bytes.
    #[verifier::loop_isolation(false)]
    pub fn build_with_id(self, batch_id: Vec<u8>) -> (r: Vec<u8>)
        requires
            self.inv(),
            batch_id@.len() == 32,
        ensures
            r@ == batch_bytes(built_batch_with_id(self@, batch_id@)),
            wf_batch(built_batch_with_id(self@, batch_id@)),
    {
        let ghost iv = instrs_view(self.instructions@);
        proof {
            lemma_instrs_view_len(self.instructions@);
            lemma_wf_instrs_index(iv);
        }
        let mut data: Vec<u8> = Vec::new();
        write_u32_le(&mut data, LCB_MAGIC);
        data.push(LCB_VERSION);
        let count: usize = self.instructions.len();
        crate::codec::write_bytes(&mut data, batch_id.as_slice());
        write_leb128_u32(&mut data, count as u32);
        let ghost prefix0 = data@;
        let mut i: usize = 0;
        while i < count
            invariant
                count == self.instructions@.len(),
                i <= count,
                data@ == prefix0 + instrs_bytes(iv.take(i as int)),
            decreases count - i,
        {
            proof {
                assert(iv[i as int] == instr_view(self.instructions@[i as int]));
                assert(wf_instr(iv[i as int]));
            }
            write_instruction(&mut data, &self.instructions[i]);
            proof {
                lemma_instrs_bytes_take(iv, i as int);
                assert(data@ =~= prefix0 + instrs_bytes(iv.take(i + 1)));
            }
            i = i + 1;
        }
        proof {
            assert(iv.take(iv.len() as int) =~= iv);
            assert(data@ =~= batch_prefix_bytes(built_batch_with_id(self@, batch_id@)));
        }
        let sig = sha256(data.as_slice());
        crate::codec::write_bytes(&mut data, sig.as_slice());
        proof {
            assert(data@ =~= batch_bytes(built_batch_with_id(self@, batch_id@)));
        }
        data
    }

    /// Serialize with the identifier derived from the instruction count
    /// alone, as the original wire fixtures were produced; prefer
    /// `build_with_id` where the identifier should mean something.
    pub fn build(self) -> (r: Vec<u8>)
        requires
            self.inv(),
        ensures
            r@ == batch_bytes(built_batch(self@)),
            wf_batch(built_batch(self@)),
    {
        let count: usize = self.instructions.len();
        let ghost gself = self;
        let mut idbuf: Vec<u8> = Vec::new();
        write_u64_le(&mut idbuf, count as u64);
        let id = sha256(idbuf.as_slice());
        proof {
            crate::batch::lemma_instrs_view_len(gself.instructions@);
            assert(id@ == sha256_of(spec_u64_le_bytes(gself@.len() as u64)));
        }
        self.build_with_id(id)
    }
}

proof fn lemma_leb_u32_bytes_nonempty(x: u32)
    ensures
        spec_leb_u32_bytes(x).len() >= 1,
{
}

/// An instruction list's encoding starts with its first element's.
proof fn lemma_instrs_bytes_cons(s: Seq<InstrV>)
    requires
        s.len() > 0,
    ensures
        instrs_bytes(s) == instr_bytes(s[0]) + instrs_bytes(s.drop_first()),
    decreases s.len(),
{
    if s.len() == 1 {
        assert(s.drop_last() =~= Seq::<InstrV>::empty());
        assert(s.drop_first() =~= Seq::<InstrV>::empty());
        assert(instrs_bytes(s) =~= instr_bytes(s[0]) + instrs_bytes(s.drop_first()));
    } else {
        let dl = s.drop_last();
        lemma_instrs_bytes_cons(dl);
        assert(dl[0] == s[0]);
        assert(s.drop_first().drop_last() =~= dl.drop_first());
        assert(s.drop_first().last() == s.last());
        assert(instrs_bytes(s) =~= instr_bytes(s[0]) + instrs_bytes(s.drop_first()));
    }
}

proof fn lemma_wf_instrs_cons(s: Seq<InstrV>)
    requires
        s.len() > 0,
        wf_instrs(s),
    ensures
        wf_instr(s[0]),
        wf_instrs(s.drop_first()),
    decreases s.len(),
{
    if s.len() == 1 {
        assert(s.last() == s[0]);
        assert(s.drop_first() =~= Seq::<InstrV>::empty());
    } else {
        let dl = s.drop_last();
        lemma_wf_instrs_cons(dl);
        assert(dl[0] == s[0]);
        assert(s.drop_first().drop_last() =~= dl.drop_first());
        assert(s.drop_first().last() == s.last());
    }
}

/// Folding from the front: the first value's effect, then the rest.
proof fn lemma_chain_fold_cons(acc: Option<int>, pairs: Seq<(Seq<char>, PVal)>)
    requires
        pairs.len() > 0,
    ensures
        chain_fold(acc, pairs) == chain_fold(chain_step(acc, pairs[0].1), pairs.drop_first()),
    decreases pairs.len(),
{
    if pairs.len() == 1 {
        assert(pairs.last() == pairs[0]);
        assert(pairs.drop_first() =~= Seq::<(Seq<char>, PVal)>::empty());
    } else {
        let dl = pairs.drop_last();
        lemma_chain_fold_cons(acc, dl);
        assert(dl[0] == pairs[0]);
        assert(pairs.drop_first().drop_last() =~= dl.drop_first());
        assert(pairs.drop_first().last() == pairs.last());
    }
}

/// With nothing accumulated, the fold is the parameter list's chain.
proof fn lemma_chain_fold_none(pairs: Seq<(Seq<char>, PVal)>)
    ensures
        chain_fold(None, pairs) == chain_of_pairs(pairs),
    decreases pairs.len(),
{
    if pairs.len() > 0 {
        lemma_chain_fold_none(pairs.drop_last());
    }
}

/// Reading the chain field off an embedded pair-list encoding folds
/// exactly the encoded values, in order.
proof fn lemma_pairs_chain_roundtrip_at(
    d: Seq<u8>,
    pos: int,
    pairs: Seq<(Seq<char>, PVal)>,
    acc: Option<int>,
)
    requires
        wf_pairs(pairs),
        pairs.len() < 0x100000000,
        0 <= pos,
        pos + pair_list_bytes(pairs).len() <= d.len(),
        d.subrange(pos, pos + pair_list_bytes(pairs).len() as int) == pair_list_bytes(pairs),
    ensures
        spec_read_pairs_chain(d, pos, pairs.len() as u32, acc) == Ok::<(Option<int>, int), ErrKind>(
            (chain_fold(acc, pairs), pos + pair_list_bytes(pairs).len()),
        ),
    decreases pairs.len(),
{
    broadcast use vstd::utf8::encode_utf8_valid_utf8, vstd::utf8::encode_utf8_decode_utf8;

    if pairs.len() == 0 {
    } else {
        let key = pairs[0].0;
        let val = pairs[0].1;
        let rest = pairs.drop_first();
        crate::value::lemma_pair_list_bytes_cons(pairs);
        crate::value::lemma_wf_pairs_cons(pairs);
        crate::value::lemma_pval_bytes_nonempty(val);
        let utf8 = encode_utf8(key);
        let klen = utf8.len() as u32;
        let leb = spec_leb_u32_bytes(klen);
        lemma_subrange_split(d, pos, crate::value::pair_bytes(key, val), pair_list_bytes(rest));
        assert(pair_list_bytes(pairs) =~= leb + (utf8 + crate::value::pval_bytes(val)
            + pair_list_bytes(rest)));
        lemma_subrange_split(
            d,
            pos,
            leb,
            utf8 + crate::value::pval_bytes(val) + pair_list_bytes(rest),
        );
        let p1 = pos + leb.len();
        assert(utf8 + crate::value::pval_bytes(val) + pair_list_bytes(rest) =~= utf8 + (
        crate::value::pval_bytes(val) + pair_list_bytes(rest)));
        lemma_subrange_split(d, p1, utf8, crate::value::pval_bytes(val) + pair_list_bytes(rest));
        let p2 = p1 + klen as int;
        lemma_subrange_split(d, p2, crate::value::pval_bytes(val), pair_list_bytes(rest));
        lemma_leb_u32_roundtrip_at(d, pos, klen);
        assert(crate::codec::spec_read_string(d, p1, klen as int) == Ok::<
            (Seq<char>, int),
            ErrKind,
        >((key, p2)));
        crate::value::lemma_pval_roundtrip_at(d, p2, val);
        let p3 = p2 + crate::value::pval_bytes(val).len();
        lemma_chain_fold_cons(acc, pairs);
        lemma_pairs_chain_roundtrip_at(d, p3, rest, chain_step(acc, val));
        assert((pairs.len() as u32 - 1) as u32 == rest.len() as u32);
    }
}

/// Decoding an embedded encoding of a wire-faithful instruction yields
/// exactly that instruction.
pub proof fn lemma_instr_roundtrip_at(d: Seq<u8>, pos: int, iv: InstrV)
    requires
        wf_instr(iv),
        0 <= pos,
        pos + instr_bytes(iv).len() <= d.len(),
        d.subrange(pos, pos + instr_bytes(iv).len() as int) == instr_bytes(iv),
    ensures
        spec_read_instr(d, pos) == Ok::<(InstrV, int), ErrKind>((iv, pos + instr_bytes(iv).len())),
{
    let leb_cid = spec_leb_u32_bytes(iv.contract_id as u32);
    let leb_count = spec_leb_u32_bytes(iv.params.len() as u32);
    let plb = pair_list_bytes(iv.params);
    assert(instr_bytes(iv) =~= leb_cid + (leb_count + plb));
    lemma_subrange_split(d, pos, leb_cid, leb_count + plb);
    lemma_leb_u32_roundtrip_at(d, pos, iv.contract_id as u32);
    let p1 = pos + leb_cid.len();
    lemma_subrange_split(d, p1, leb_count, plb);
    lemma_leb_u32_roundtrip_at(d, p1, iv.params.len() as u32);
    let p2 = p1 + leb_count.len();
    assert(Seq::empty() + iv.params =~= iv.params);
    lemma_pairs_roundtrip_at(d, p2, iv.params, Seq::empty());
    lemma_pairs_chain_roundtrip_at(d, p2, iv.params, None);
    lemma_chain_fold_none(iv.params);
    assert((iv.contract_id as u32) % 0x10000 == iv.contract_id);
}

/// Decoding an embedded encoding of a wire-faithful instruction list
/// appends exactly those instructions to the accumulator.
pub proof fn lemma_instrs_roundtrip_at(d: Seq<u8>, pos: int, s: Seq<InstrV>, acc: Seq<InstrV>)
    requires
        wf_instrs(s),
        s.len() < 0x100000000,
        0 <= pos,
        pos + instrs_bytes(s).len() <= d.len(),
        d.subrange(pos, pos + instrs_bytes(s).len() as int) == instrs_bytes(s),
    ensures
        spec_read_instrs(d, pos, s.len() as u32, acc) == Ok::<(Seq<InstrV>, int), ErrKind>(
            (acc + s, pos + instrs_bytes(s).len()),
        ),
    decreases s.len(),
{
    if s.len() == 0 {
        assert(acc + s =~= acc);
    } else {
        let first = s[0];
        let rest = s.drop_first();
        lemma_instrs_bytes_cons(s);
        lemma_wf_instrs_cons(s);
        lemma_leb_u32_bytes_nonempty(first.contract_id as u32);
        lemma_subrange_split(d, pos, instr_bytes(first), instrs_bytes(rest));
        lemma_instr_roundtrip_at(d, pos, first);
        let p2 = pos + instr_bytes(first).len();
        lemma_instrs_roundtrip_at(d, p2, rest, acc.push(first));
        assert(acc.push(first) + rest =~= acc + s);
        assert((s.len() as u32 - 1) as u32 == rest.len() as u32);
    }
}

/// Parsing a buffer whose prefix is a batch's serialized prefix reaches
/// the signature comparison: the outcome then turns on whether the
/// trailing 32 bytes equal the digest of the prefix.
proof fn lemma_batch_parse_upto_sig(d: Seq<u8>, bv: BatchV)
    requires
        bv.version == LCB_VERSION,
        bv.batch_id.len() == 32,
        bv.instructions.len() < 0x100000000,
        wf_instrs(bv.instructions),
        d.len() == batch_prefix_bytes(bv).len() + 32,
        d.subrange(0, batch_prefix_bytes(bv).len() as int) == batch_prefix_bytes(bv),
    ensures
        ({
            let pre_len = batch_prefix_bytes(bv).len() as int;
            let sig = d.subrange(pre_len, d.len() as int);
            spec_parse_batch(d) == (if sha256_of(batch_prefix_bytes(bv)) == sig {
                Ok::<BatchV, ErrKind>(
                    BatchV {
                        version: bv.version,
                        batch_id: bv.batch_id,
                        instructions: bv.instructions,
                        signature: sig,
                    },
                )
            } else {
                Err::<BatchV, ErrKind>(ErrKind::Sig)
            })
        }),
{
    let m = spec_u32_le_bytes(LCB_MAGIC);
    let ver = seq![bv.version];
    let leb = spec_leb_u32_bytes(bv.instructions.len() as u32);
    let ib = instrs_bytes(bv.instructions);
    let pre = batch_prefix_bytes(bv);
    let pre_len = pre.len() as int;
    assert(pre =~= m + (ver + (bv.batch_id + (leb + ib))));
    lemma_subrange_split(d, 0, m, ver + (bv.batch_id + (leb + ib)));
    lemma_u32_le_roundtrip(LCB_MAGIC, d, 0);
    lemma_subrange_split(d, 4, ver, bv.batch_id + (leb + ib));
    assert(d.subrange(4, 5)[0] == bv.version);
    assert(d[4] == bv.version);
    lemma_subrange_split(d, 5, bv.batch_id, leb + ib);
    lemma_subrange_split(d, 37, leb, ib);
    lemma_leb_u32_roundtrip_at(d, 37, bv.instructions.len() as u32);
    let p3 = 37 + leb.len() as int;
    assert(Seq::empty() + bv.instructions =~= bv.instructions);
    lemma_instrs_roundtrip_at(d, p3, bv.instructions, Seq::empty());
    let p4 = p3 + ib.len() as int;
    assert(p4 == pre_len);
    assert(d.take(d.len() - 32) =~= d.subrange(0, pre_len));
}

/// Law: a well-formed batch decodes from its own serialization to
/// exactly itself — header, identifier, every instruction with every
/// nested parameter, and signature.
pub proof fn lemma_batch_roundtrip(bv: BatchV)
    requires
        wf_batch(bv),
    ensures
        spec_parse_batch(batch_bytes(bv)) == Ok::<BatchV, ErrKind>(bv),
{
    let d = batch_bytes(bv);
    let pre = batch_prefix_bytes(bv);
    assert(d.subrange(0, pre.len() as int) =~= pre);
    lemma_batch_parse_upto_sig(d, bv);
    assert(d.subrange(pre.len() as int, d.len() as int) =~= bv.signature);
}

/// Law: flipping any byte of the stored signature of a well-formed
/// serialized batch makes parsing fail with the signature error.  (A
/// flipped header byte fails earlier with its own error — magic and
/// version are checked first.  A change inside the payload alters the
/// recomputed digest instead; that it then differs from the stored one
/// is a property of SHA-256 that is not modeled here, so it is
/// exercised by tests, not proved.)
pub proof fn lemma_signature_tamper(bv: BatchV, i: int, x: u8)
    requires
        wf_batch(bv),
        batch_bytes(bv).len() - 32 <= i < batch_bytes(bv).len(),
        x != batch_bytes(bv)[i],
    ensures
        spec_parse_batch(batch_bytes(bv).update(i, x)) == Err::<BatchV, ErrKind>(ErrKind::Sig),
{
    let d0 = batch_bytes(bv);
    let d = d0.update(i, x);
    let pre = batch_prefix_bytes(bv);
    let pre_len = pre.len() as int;
    assert(d.subrange(0, pre_len) =~= pre);
    lemma_batch_parse_upto_sig(d, bv);
    let sig = d.subrange(pre_len, d.len() as int);
    assert(sig[i - pre_len] == x);
    assert(bv.signature[i - pre_len] == d0[i]);
    assert(sig != bv.signature);
    assert(d.take(d.len() - 32) =~= d.subrange(0, pre_len));
}

} // verus!
