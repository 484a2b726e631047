//! The contract dispatcher: executes a batch's instructions strictly in
//! order, resolving chained parameters from earlier results, validating
//! parameters, and aggregating statistics.  The first failure aborts the
//! whole batch: the caller sees one error, never a partial result list.

use vstd::prelude::*;
use std::collections::HashMap;
use crate::value::{Param, PVal, param_view, pairs_view, lemma_pairs_view_len, params_view,
    lemma_params_view_len};
use crate::batch::{Instruction, LCBBatch, InstrV, instr_view, instrs_view, lemma_instrs_view_len};

verus! {

broadcast use vstd::std_specs::hash::group_hash_axioms;

/// What one contract execution produces.  Floats and tensor elements
/// travel as IEEE-754 bit patterns: this layer stores and forwards bits
/// and never does float arithmetic.
#[derive(Debug, PartialEq)]
pub enum ContractResult {
    Null,
    Bool(bool),
    Int(i64),
    Float(u64),
    Tensor { data: Vec<u32>, shape: Vec<usize> },
    Handle(Vec<u8>),
    Error(String),
}

/// The mathematical value of a `ContractResult`.
pub enum CResV {
    Null,
    Bool(bool),
    Int(i64),
    Float(u64),
    Tensor(Seq<u32>, Seq<usize>),
    Handle(Seq<u8>),
    Error(Seq<char>),
}

pub open spec fn cres_view(r: ContractResult) -> CResV {
    match r {
        ContractResult::Null => CResV::Null,
        ContractResult::Bool(b) => CResV::Bool(b),
        ContractResult::Int(i) => CResV::Int(i),
        ContractResult::Float(bits) => CResV::Float(bits),
        ContractResult::Tensor { data, shape } => CResV::Tensor(data@, shape@),
        ContractResult::Handle(h) => CResV::Handle(h@),
        ContractResult::Error(s) => CResV::Error(s@),
    }
}

impl View for ContractResult {
    type V = CResV;

    open spec fn view(&self) -> CResV {
        cres_view(*self)
    }
}

pub open spec fn cress_view(s: Seq<ContractResult>) -> Seq<CResV>
    decreases s,
{
    if s.len() == 0 {
        Seq::empty()
    } else {
        cress_view(s.drop_last()).push(cres_view(s.last()))
    }
}

/// The element-wise reading of `cress_view`.
pub broadcast proof fn lemma_cress_view_len(s: Seq<ContractResult>)
    ensures
        (#[trigger] cress_view(s)).len() == s.len(),
        forall|i: int| 0 <= i < s.len() ==> cress_view(s)[i] == cres_view(s[i]),
    decreases s,
{
    if s.len() > 0 {
        lemma_cress_view_len(s.drop_last());
    }
}

/// Dispatch-time failures.
#[derive(Debug)]
pub enum LCBError {
    UnknownContract(u16),
    InvalidParam { name: String, expected: String },
    MissingParam(String),
    ChainError { index: usize, msg: String },
    VulkanError(String),
    ExecutionFailed(String),
}

/// Spec-level mirror of `LCBError`: parameter names, contract numbers
/// and instruction positions are pinned; message texts are not.
pub enum ExecErrV {
    UnknownContract(u16),
    InvalidParam(Seq<char>),
    MissingParam(Seq<char>),
    ChainError(int),
    Vulkan,
    Failed,
}

pub open spec fn matches_exec_err(e: LCBError, v: ExecErrV) -> bool {
    match (e, v) {
        (LCBError::UnknownContract(a), ExecErrV::UnknownContract(b)) => a == b,
        (LCBError::InvalidParam { name, .. }, ExecErrV::InvalidParam(n)) => name@ == n,
        (LCBError::MissingParam(name), ExecErrV::MissingParam(n)) => name@ == n,
        (LCBError::ChainError { index, .. }, ExecErrV::ChainError(i)) => index as int == i,
        (LCBError::VulkanError(_), ExecErrV::Vulkan) => true,
        (LCBError::ExecutionFailed(_), ExecErrV::Failed) => true,
        _ => false,
    }
}

/// The value of the first parameter with this name, the map reading of
/// the parameter list.
pub open spec fn find_param(params: Seq<(Seq<char>, PVal)>, name: Seq<char>) -> Option<PVal>
    decreases params.len(),
{
    if params.len() == 0 {
        None
    } else if params[0].0 == name {
        Some(params[0].1)
    } else {
        find_param(params.drop_first(), name)
    }
}

/// The little-endian bytes of each dimension, then of each element: the
/// wire form of a tensor, as tensor-typed parameters carry it.
pub open spec fn dims_bytes(shape: Seq<usize>) -> Seq<u8>
    decreases shape,
{
    if shape.len() == 0 {
        Seq::empty()
    } else {
        dims_bytes(shape.drop_last()) + crate::codec::spec_u32_le_bytes(shape.last() as u32)
    }
}

pub open spec fn elems_bytes(data: Seq<u32>) -> Seq<u8>
    decreases data,
{
    if data.len() == 0 {
        Seq::empty()
    } else {
        elems_bytes(data.drop_last()) + crate::codec::spec_u32_le_bytes(data.last())
    }
}

/// A tensor as length-prefixed bytes: dimension count, dimensions,
/// raw 32-bit elements, all little-endian.
pub open spec fn tensor_bytes(shape: Seq<usize>, data: Seq<u32>) -> Seq<u8> {
    seq![shape.len() as u8] + dims_bytes(shape) + elems_bytes(data)
}

/// A cached result, replayed as a parameter for a chained instruction.
/// An `Error` never reaches the cache: the batch fails first.
pub open spec fn param_of_result(r: CResV) -> PVal {
    match r {
        CResV::Null => PVal::Null,
        CResV::Bool(b) => PVal::Bool(b),
        CResV::Int(i) => PVal::Int(i),
        CResV::Float(bits) => PVal::Float(bits),
        CResV::Tensor(data, shape) => PVal::Bytes(tensor_bytes(shape, data)),
        CResV::Handle(h) => PVal::Handle(h),
        CResV::Error(_) => PVal::Null,
    }
}

/// Resolve one parameter value against the cache of earlier results.
/// A directive that names an index with no cached result yet fails with
/// the position of the instruction being resolved.
pub open spec fn resolve_pval(v: PVal, cache: Seq<CResV>, idx: int) -> Result<PVal, ExecErrV> {
    match v {
        PVal::ChainFrom(j) => {
            if 0 <= j < cache.len() {
                Ok(param_of_result(cache[j]))
            } else {
                Err(ExecErrV::ChainError(idx))
            }
        },
        PVal::ChainPrevious => {
            if cache.len() >= 1 {
                Ok(param_of_result(cache[cache.len() - 1]))
            } else {
                Err(ExecErrV::ChainError(idx))
            }
        },
        _ => Ok(v),
    }
}

/// Resolve every parameter, first failure wins.
pub open spec fn resolve_pairs(
    params: Seq<(Seq<char>, PVal)>,
    cache: Seq<CResV>,
    idx: int,
) -> Result<Seq<(Seq<char>, PVal)>, ExecErrV>
    decreases params.len(),
{
    if params.len() == 0 {
        Ok(Seq::empty())
    } else {
        match resolve_pval(params[0].1, cache, idx) {
            Err(v) => Err(v),
            Ok(rv) => match resolve_pairs(params.drop_first(), cache, idx) {
                Err(v) => Err(v),
                Ok(rest) => Ok(seq![(params[0].0, rv)] + rest),
            },
        }
    }
}

/// How many chaining directives a parameter list carries.
pub open spec fn count_chain(params: Seq<(Seq<char>, PVal)>) -> nat
    decreases params,
{
    if params.len() == 0 {
        0
    } else {
        count_chain(params.drop_last()) + (if params.last().1 is ChainFrom
            || params.last().1 is ChainPrevious {
            1nat
        } else {
            0nat
        })
    }
}

/// A required text parameter.
pub open spec fn get_text(params: Seq<(Seq<char>, PVal)>, name: Seq<char>) -> Result<
    Seq<char>,
    ExecErrV,
> {
    match find_param(params, name) {
        None => Err(ExecErrV::MissingParam(name)),
        Some(PVal::Text(s)) => Ok(s),
        Some(_) => Err(ExecErrV::InvalidParam(name)),
    }
}

/// A required integer parameter.
pub open spec fn get_int(params: Seq<(Seq<char>, PVal)>, name: Seq<char>) -> Result<
    i64,
    ExecErrV,
> {
    match find_param(params, name) {
        None => Err(ExecErrV::MissingParam(name)),
        Some(PVal::Int(i)) => Ok(i),
        Some(_) => Err(ExecErrV::InvalidParam(name)),
    }
}

/// An optional integer with a default: anything but an integer falls
/// back to the default.
pub open spec fn get_int_or(params: Seq<(Seq<char>, PVal)>, name: Seq<char>, dflt: i64) -> i64 {
    match find_param(params, name) {
        Some(PVal::Int(i)) => i,
        _ => dflt,
    }
}

/// An optional boolean defaulting to false.
pub open spec fn get_bool_or_false(params: Seq<(Seq<char>, PVal)>, name: Seq<char>) -> bool {
    match find_param(params, name) {
        Some(PVal::Bool(b)) => b,
        _ => false,
    }
}

/// The product of a shape's dimensions.
pub open spec fn shape_product(shape: Seq<usize>) -> int
    decreases shape,
{
    if shape.len() == 0 {
        1
    } else {
        shape_product(shape.drop_last()) * shape.last()
    }
}

/// A tensor decoded from a bytes parameter: a one-byte dimension count,
/// that many little-endian 32-bit dimensions, then exactly the product's
/// worth of raw 32-bit elements; trailing bytes are tolerated.  `None`
/// on truncation or when the element count cannot be addressed.
pub open spec fn spec_tensor_of(b: Seq<u8>) -> Option<(Seq<usize>, Seq<u32>)> {
    if b.len() == 0 {
        None
    } else {
        let ndim = b[0] as int;
        if 1 + ndim * 4 > b.len() {
            None
        } else {
            let shape = Seq::new(ndim as nat, |i: int| spec_u32_at(b, 1 + 4 * i) as usize);
            let total = shape_product(shape);
            if total > usize::MAX {
                None
            } else if 1 + ndim * 4 + total * 4 > b.len() {
                None
            } else {
                let data = Seq::new(total as nat, |i: int| spec_u32_at(b, 1 + 4 * ndim + 4 * i));
                Some((shape, data))
            }
        }
    }
}

/// Four little-endian bytes at a position, as a 32-bit value.
pub open spec fn spec_u32_at(b: Seq<u8>, pos: int) -> u32 {
    (b[pos] + b[pos + 1] * 0x100 + b[pos + 2] * 0x10000 + b[pos + 3] * 0x1000000) as u32
}

/// A required tensor parameter, carried as bytes.
pub open spec fn get_tensor(params: Seq<(Seq<char>, PVal)>, name: Seq<char>) -> Result<
    (Seq<usize>, Seq<u32>),
    ExecErrV,
> {
    match find_param(params, name) {
        None => Err(ExecErrV::MissingParam(name)),
        Some(PVal::Bytes(b)) => match spec_tensor_of(b) {
            Some(t) => Ok(t),
            None => Err(ExecErrV::InvalidParam(name)),
        },
        Some(_) => Err(ExecErrV::InvalidParam(name)),
    }
}

/// What executing one instruction amounts to, once its parameters are
/// resolved and validated: either a fully determined result, or one
/// call into the compute backend with pinned arguments.
pub enum Outcome {
    Done(CResV),
    Gemm { a: Seq<u32>, b: Seq<u32>, m: usize, k: usize, n: usize, ta: bool, tb: bool },
    Gelu { input: Seq<u32>, shape: Seq<usize> },
    Softmax { input: Seq<u32>, shape: Seq<usize>, num_rows: usize, row_size: usize },
}

pub open spec fn zeros_u32(n: nat) -> Seq<u32> {
    Seq::new(n, |i: int| 0u32)
}

pub open spec fn zeros_u8(n: nat) -> Seq<u8> {
    Seq::new(n, |i: int| 0u8)
}

/// The dispatch table over resolved parameters: which handler a
/// contract number selects, what it validates, and what it produces.
pub open spec fn spec_dispatch(id: u16, rp: Seq<(Seq<char>, PVal)>) -> Result<Outcome, ExecErrV> {
    if id == crate::contract_ids::BINARY_SERIALIZER {
        match get_text(rp, "mode"@) {
            Err(v) => Err(v),
            Ok(mode) => {
                if mode == "validate"@ {
                    Ok(Outcome::Done(CResV::Bool(true)))
                } else if mode == "encode"@ || mode == "decode"@ {
                    Ok(Outcome::Done(CResV::Null))
                } else {
                    Err(ExecErrV::InvalidParam("mode"@))
                }
            },
        }
    } else if id == crate::contract_ids::INSTRUCTION_PARSER {
        Ok(Outcome::Done(CResV::Null))
    } else if id == crate::contract_ids::TYPE_VALIDATOR {
        Ok(Outcome::Done(CResV::Bool(true)))
    } else if id == crate::contract_ids::DETERMINISM_VERIFIER {
        Ok(Outcome::Done(CResV::Bool(true)))
    } else if id == crate::contract_ids::CONTRACT_VALIDATOR {
        Ok(Outcome::Done(CResV::Bool(true)))
    } else if id == crate::contract_ids::ERROR_HANDLER {
        Ok(Outcome::Done(CResV::Null))
    } else if id == crate::contract_ids::VULKAN_SHADER {
        Ok(Outcome::Done(CResV::Null))
    } else if id == crate::contract_ids::COMPUTE_KERNEL {
        Ok(Outcome::Done(CResV::Null))
    } else if id == crate::contract_ids::PIPELINE_CONFIG {
        Ok(Outcome::Done(CResV::Null))
    } else if id == crate::contract_ids::TRANSFORMER_FORWARD {
        let s = get_int_or(rp, "seq_len"@, 16);
        let v = get_int_or(rp, "vocab_size"@, 256);
        if s < 0 || s > u32::MAX {
            Err(ExecErrV::InvalidParam("seq_len"@))
        } else if v < 0 || v > u32::MAX {
            Err(ExecErrV::InvalidParam("vocab_size"@))
        } else if s * v > usize::MAX {
            Err(ExecErrV::InvalidParam("seq_len"@))
        } else {
            Ok(
                Outcome::Done(
                    CResV::Tensor(zeros_u32((s * v) as nat), seq![s as usize, v as usize]),
                ),
            )
        }
    } else if id == crate::contract_ids::TRANSFORMER_BACKWARD {
        Ok(Outcome::Done(CResV::Handle(zeros_u8(32))))
    } else if id == crate::contract_ids::ADAM_OPTIMIZER {
        Ok(Outcome::Done(CResV::Handle(zeros_u8(32))))
    } else if id == crate::contract_ids::TENSOR_GEMM {
        match get_tensor(rp, "a"@) {
            Err(v) => Err(v),
            Ok((_a_shape, a)) => match get_tensor(rp, "b"@) {
                Err(v) => Err(v),
                Ok((_b_shape, b)) => match get_int(rp, "m"@) {
                    Err(v) => Err(v),
                    Ok(m) => match get_int(rp, "k"@) {
                        Err(v) => Err(v),
                        Ok(k) => match get_int(rp, "n"@) {
                            Err(v) => Err(v),
                            Ok(n) => {
                                if m < 0 || m > u32::MAX {
                                    Err(ExecErrV::InvalidParam("m"@))
                                } else if k < 0 || k > u32::MAX {
                                    Err(ExecErrV::InvalidParam("k"@))
                                } else if n < 0 || n > u32::MAX {
                                    Err(ExecErrV::InvalidParam("n"@))
                                } else if m * n > usize::MAX {
                                    Err(ExecErrV::InvalidParam("m"@))
                                } else if a.len() != m * k {
                                    Err(ExecErrV::InvalidParam("a"@))
                                } else if b.len() != k * n {
                                    Err(ExecErrV::InvalidParam("b"@))
                                } else {
                                    Ok(
                                        Outcome::Gemm {
                                            a,
                                            b,
                                            m: m as usize,
                                            k: k as usize,
                                            n: n as usize,
                                            ta: get_bool_or_false(rp, "transpose_a"@),
                                            tb: get_bool_or_false(rp, "transpose_b"@),
                                        },
                                    )
                                }
                            },
                        },
                    },
                },
            },
        }
    } else if id == crate::contract_ids::TENSOR_LAYERNORM {
        Ok(Outcome::Done(CResV::Null))
    } else if id == crate::contract_ids::TENSOR_GELU {
        match get_tensor(rp, "input"@) {
            Err(v) => Err(v),
            Ok((shape, input)) => Ok(Outcome::Gelu { input, shape }),
        }
    } else if id == crate::contract_ids::TENSOR_SOFTMAX {
        match get_tensor(rp, "input"@) {
            Err(v) => Err(v),
            Ok((shape, input)) => match get_int(rp, "num_rows"@) {
                Err(v) => Err(v),
                Ok(num_rows) => match get_int(rp, "row_size"@) {
                    Err(v) => Err(v),
                    Ok(row_size) => {
                        if num_rows < 0 || num_rows > usize::MAX {
                            Err(ExecErrV::InvalidParam("num_rows"@))
                        } else if row_size < 0 || row_size > usize::MAX {
                            Err(ExecErrV::InvalidParam("row_size"@))
                        } else if num_rows * row_size > input.len() {
                            Err(ExecErrV::InvalidParam("input"@))
                        } else {
                            Ok(
                                Outcome::Softmax {
                                    input,
                                    shape,
                                    num_rows: num_rows as usize,
                                    row_size: row_size as usize,
                                },
                            )
                        }
                    },
                },
            },
        }
    } else if id == crate::contract_ids::TENSOR_CROSS_ENTROPY {
        Ok(Outcome::Done(CResV::Float(0)))
    } else {
        Err(ExecErrV::UnknownContract(id))
    }
}

/// What one instruction amounts to, against the cache of earlier
/// results: resolution first, then dispatch.
pub open spec fn spec_instr_outcome(iv: InstrV, cache: Seq<CResV>, idx: int) -> Result<
    Outcome,
    ExecErrV,
> {
    match resolve_pairs(iv.params, cache, idx) {
        Err(v) => Err(v),
        Ok(rp) => spec_dispatch(iv.contract_id, rp),
    }
}

/// Whether a produced result is one the outcome allows: determined
/// outcomes pin the result exactly; backend outcomes pin its kind,
/// shape and length, the element bits being the backend's.
pub open spec fn outcome_matches(o: Outcome, res: CResV) -> bool {
    match o {
        Outcome::Done(r) => res == r,
        Outcome::Gemm { m, n, .. } => res matches CResV::Tensor(data, shape) && shape == seq![
            m,
            n,
        ] && data.len() == m * n,
        Outcome::Gelu { input, shape } => res matches CResV::Tensor(data, s2) && s2 == shape
            && data.len() == input.len(),
        Outcome::Softmax { input, shape, .. } => res matches CResV::Tensor(data, s2) && s2 == shape
            && data.len() == input.len(),
    }
}

/// An execution trace: each produced result answers the outcome of its
/// instruction against exactly the results before it.
pub open spec fn batch_trace_ok(instrs: Seq<InstrV>, results: Seq<CResV>) -> bool {
    &&& results.len() <= instrs.len()
    &&& forall|i: int|
        0 <= i < results.len() ==> ((#[trigger] spec_instr_outcome(
            instrs[i],
            results.take(i),
            i,
        )) matches Ok(o) && outcome_matches(o, results[i]))
}

/// Equality of two strings, decided on their UTF-8 bytes.
pub fn str_eq(a: &str, b: &str) -> (r: bool)
    ensures
        r == (a@ == b@),
{
    proof {
        vstd::utf8::encode_utf8_decode_utf8(a@);
        vstd::utf8::encode_utf8_decode_utf8(b@);
    }
    let ab = a.as_bytes();
    let bb = b.as_bytes();
    if ab.len() != bb.len() {
        return false;
    }
    let mut i: usize = 0;
    while i < ab.len()
        invariant
            ab@ == vstd::utf8::encode_utf8(a@),
            bb@ == vstd::utf8::encode_utf8(b@),
            ab@.len() == bb@.len(),
            i <= ab@.len(),
            forall|k: int| 0 <= k < i ==> ab@[k] == bb@[k],
        decreases ab@.len() - i,
    {
        if ab[i] != bb[i] {
            return false;
        }
        i = i + 1;
    }
    proof {
        assert(ab@ =~= bb@);
        vstd::utf8::encode_utf8_decode_utf8(a@);
        vstd::utf8::encode_utf8_decode_utf8(b@);
    }
    true
}

/// Look a parameter up by name: the map reading of the list.
pub fn lookup<'a>(params: &'a Vec<(String, Param)>, name: &str) -> (r: Option<&'a Param>)
    ensures
        (match r {
            Some(p) => find_param(pairs_view(params@), name@) == Some(param_view(*p)),
            None => find_param(pairs_view(params@), name@) is None,
        }),
{
    proof {
        lemma_pairs_view_len(params@);
    }
    let ghost pw = pairs_view(params@);
    proof {
        assert(pw.skip(0) =~= pw);
    }
    let mut i: usize = 0;
    while i < params.len()
        invariant
            i <= params@.len(),
            pw == pairs_view(params@),
            pw.len() == params@.len(),
            forall|k: int|
                0 <= k < pw.len() ==> #[trigger] pw[k] == (
                    params@[k].0@,
                    param_view(params@[k].1),
                ),
            find_param(pw, name@) == find_param(pw.skip(i as int), name@),
        decreases params@.len() - i,
    {
        if str_eq(params[i].0.as_str(), name) {
            proof {
                assert(pw.skip(i as int)[0] == pw[i as int]);
            }
            return Some(&params[i].1);
        }
        proof {
            assert(pw.skip(i as int)[0] == pw[i as int]);
            assert(pw.skip(i as int).drop_first() =~= pw.skip(i as int + 1));
        }
        i = i + 1;
    }
    proof {
        assert(pw.skip(pw.len() as int).len() == 0);
    }
    None
}

/// Copy a byte vector.
pub fn copy_bytes(v: &Vec<u8>) -> (r: Vec<u8>)
    ensures
        r@ == v@,
{
    let mut out: Vec<u8> = Vec::new();
    let mut i: usize = 0;
    while i < v.len()
        invariant
            i <= v@.len(),
            out@ == v@.take(i as int),
        decreases v@.len() - i,
    {
        out.push(v[i]);
        proof {
            assert(out@ =~= v@.take(i as int + 1));
        }
        i = i + 1;
    }
    proof {
        assert(v@.take(v@.len() as int) =~= v@);
    }
    out
}

pub fn copy_u32s(v: &Vec<u32>) -> (r: Vec<u32>)
    ensures
        r@ == v@,
{
    let mut out: Vec<u32> = Vec::new();
    let mut i: usize = 0;
    while i < v.len()
        invariant
            i <= v@.len(),
            out@ == v@.take(i as int),
        decreases v@.len() - i,
    {
        out.push(v[i]);
        proof {
            assert(out@ =~= v@.take(i as int + 1));
        }
        i = i + 1;
    }
    proof {
        assert(v@.take(v@.len() as int) =~= v@);
    }
    out
}

pub fn copy_usizes(v: &Vec<usize>) -> (r: Vec<usize>)
    ensures
        r@ == v@,
{
    let mut out: Vec<usize> = Vec::new();
    let mut i: usize = 0;
    while i < v.len()
        invariant
            i <= v@.len(),
            out@ == v@.take(i as int),
        decreases v@.len() - i,
    {
        out.push(v[i]);
        proof {
            assert(out@ =~= v@.take(i as int + 1));
        }
        i = i + 1;
    }
    proof {
        assert(v@.take(v@.len() as int) =~= v@);
    }
    out
}

/// Copy a parameter value, nested structure included.
#[verifier::loop_isolation(false)]
#[verifier::rlimit(60)]
pub fn clone_param(p: &Param) -> (r: Param)
    ensures
        param_view(r) == param_view(*p),
    decreases *p,
{
    match p {
        Param::Null => Param::Null,
        Param::Bool(b) => Param::Bool(*b),
        Param::Int(i) => Param::Int(*i),
        Param::Float(bits) => Param::Float(*bits),
        Param::Text(s) => Param::Text(s.clone()),
        Param::Bytes(b) => Param::Bytes(copy_bytes(b)),
        Param::Array(items) => {
            proof {
                lemma_params_view_len(items@);
            }
            let mut out: Vec<Param> = Vec::new();
            let mut i: usize = 0;
            while i < items.len()
                invariant
                    i <= items@.len(),
                    out@.len() == i,
                    forall|k: int|
                        0 <= k < i ==> param_view(#[trigger] out@[k]) == param_view(items@[k]),
                decreases items@.len() - i,
            {
                proof {
                    assert(decreases_to!(*p => (*p)->Array_0));
                    assert((*p)->Array_0 == *items);
                    assert(decreases_to!(*items => items@));
                    assert(decreases_to!(items@ => items@[i as int]));
                    assert(decreases_to!(*p => items@[i as int]));
                }
                let c = clone_param(&items[i]);
                out.push(c);
                i = i + 1;
            }
            proof {
                lemma_params_view_len(out@);
                assert(params_view(out@) =~= params_view(items@));
            }
            Param::Array(out)
        },
        Param::Object(pairs) => {
            proof {
                lemma_pairs_view_len(pairs@);
            }
            let mut out: Vec<(String, Param)> = Vec::new();
            let mut i: usize = 0;
            while i < pairs.len()
                invariant
                    i <= pairs@.len(),
                    out@.len() == i,
                    forall|k: int|
                        0 <= k < i ==> (#[trigger] out@[k]).0@ == pairs@[k].0@ && param_view(
                            out@[k].1,
                        ) == param_view(pairs@[k].1),
                decreases pairs@.len() - i,
            {
                proof {
                    assert(decreases_to!(*p => (*p)->Object_0));
                    assert((*p)->Object_0 == *pairs);
                    assert(decreases_to!(*pairs => pairs@));
                    assert(decreases_to!(pairs@ => pairs@[i as int]));
                    assert(decreases_to!(pairs@[i as int] => pairs@[i as int].1));
                    assert(decreases_to!(*p => pairs@[i as int].1));
                }
                let key = pairs[i].0.clone();
                let c = clone_param(&pairs[i].1);
                out.push((key, c));
                i = i + 1;
            }
            proof {
                lemma_pairs_view_len(out@);
                assert(pairs_view(out@) =~= pairs_view(pairs@));
            }
            Param::Object(out)
        },
        Param::Handle(h) => Param::Handle(copy_bytes(h)),
        Param::ChainPrevious => Param::ChainPrevious,
        Param::ChainFrom(idx) => Param::ChainFrom(*idx),
    }
}

/// A zero dimension zeroes the whole product.
proof fn lemma_shape_product_zero(shape: Seq<usize>, z: int)
    requires
        0 <= z < shape.len(),
        shape[z] == 0,
    ensures
        shape_product(shape) == 0,
    decreases shape.len(),
{
    if shape.len() > 0 {
        if z == shape.len() - 1 {
            assert(shape.last() == 0);
            assert(shape_product(shape.drop_last()) * 0 == 0) by (nonlinear_arith);
        } else {
            assert(shape.drop_last()[z] == shape[z]);
            lemma_shape_product_zero(shape.drop_last(), z);
            assert(0 * shape.last() == 0) by (nonlinear_arith);
        }
    }
}

/// With no zero dimension, the product only grows with the prefix.
proof fn lemma_shape_product_monotone(shape: Seq<usize>, j: int)
    requires
        0 <= j <= shape.len(),
        forall|k: int| 0 <= k < shape.len() ==> (#[trigger] shape[k]) >= 1,
    ensures
        shape_product(shape) >= shape_product(shape.take(j)) >= 1,
    decreases shape.len() - j,
{
    if j == shape.len() {
        assert(shape.take(j) =~= shape);
        lemma_shape_product_pos(shape);
    } else {
        lemma_shape_product_monotone(shape, j + 1);
        assert(shape.take(j + 1).drop_last() =~= shape.take(j));
        assert(shape.take(j + 1).last() == shape[j]);
        lemma_shape_product_pos(shape.take(j));
        assert(shape_product(shape.take(j + 1)) == shape_product(shape.take(j)) * shape[j]);
        assert(shape_product(shape.take(j)) * shape[j] >= shape_product(shape.take(j)) * 1)
            by (nonlinear_arith)
            requires
                shape[j] >= 1,
                shape_product(shape.take(j)) >= 0,
        ;
    }
}

proof fn lemma_shape_product_pos(shape: Seq<usize>)
    requires
        forall|k: int| 0 <= k < shape.len() ==> (#[trigger] shape[k]) >= 1,
    ensures
        shape_product(shape) >= 1,
    decreases shape.len(),
{
    if shape.len() > 0 {
        lemma_shape_product_pos(shape.drop_last());
        assert(shape.last() >= 1);
        assert(shape_product(shape.drop_last()) * shape.last() >= 1) by (nonlinear_arith)
            requires
                shape_product(shape.drop_last()) >= 1,
                shape.last() >= 1,
        ;
    }
}

/// The product over one more dimension.
proof fn lemma_shape_product_take(shape: Seq<usize>, j: int)
    requires
        0 <= j < shape.len(),
    ensures
        shape_product(shape.take(j + 1)) == shape_product(shape.take(j)) * shape[j],
{
    assert(shape.take(j + 1).drop_last() =~= shape.take(j));
    assert(shape.take(j + 1).last() == shape[j]);
}

/// Decode a tensor parameter's bytes: dimension count, dimensions,
/// then the elements' raw bits; trailing bytes are tolerated.
#[verifier::loop_isolation(false)]
#[verifier::rlimit(100)]
pub fn parse_tensor(b: &Vec<u8>) -> (r: Option<(Vec<usize>, Vec<u32>)>)
    ensures
        (match r {
            Some((shape, data)) => spec_tensor_of(b@) == Some((shape@, data@)),
            None => spec_tensor_of(b@) is None,
        }),
{
    if b.len() == 0 {
        return None;
    }
    let ndim: usize = b[0] as usize;
    if b.len() < 1 || b.len() - 1 < 4 * ndim {
        return None;
    }
    let ghost gshape = Seq::new(ndim as nat, |i: int| spec_u32_at(b@, 1 + 4 * i) as usize);
    let mut shape: Vec<usize> = Vec::new();
    let mut i: usize = 0;
    while i < ndim
        invariant
            i <= ndim,
            1 + 4 * ndim <= b@.len(),
            shape@.len() == i,
            forall|k: int| 0 <= k < i ==> #[trigger] shape@[k] == gshape[k],
        decreases ndim - i,
    {
        let off: usize = 1 + 4 * i;
        let dim: u32 = b[off] as u32 + b[off + 1] as u32 * 0x100 + b[off + 2] as u32 * 0x10000
            + b[off + 3] as u32 * 0x1000000;
        shape.push(dim as usize);
        i = i + 1;
    }
    proof {
        assert(shape@ =~= gshape);
    }
    let mut any_zero: bool = false;
    let mut j: usize = 0;
    while j < ndim
        invariant
            j <= ndim,
            shape@.len() == ndim,
            any_zero == exists|k: int| 0 <= k < j && (#[trigger] shape@[k]) == 0,
        decreases ndim - j,
    {
        if shape[j] == 0 {
            any_zero = true;
        }
        j = j + 1;
    }
    let total: usize;
    if any_zero {
        proof {
            let z = choose|k: int| 0 <= k < ndim && (#[trigger] shape@[k]) == 0;
            lemma_shape_product_zero(shape@, z);
        }
        total = 0;
    } else {
        let mut t: usize = 1;
        let mut m: usize = 0;
        while m < ndim
            invariant
                m <= ndim,
                shape@.len() == ndim,
                forall|k: int| 0 <= k < ndim ==> (#[trigger] shape@[k]) >= 1,
                t == shape_product(shape@.take(m as int)),
                t >= 1,
            decreases ndim - m,
        {
            let dim: usize = shape[m];
            proof {
                lemma_shape_product_take(shape@, m as int);
                vstd::arithmetic::div_mod::lemma_fundamental_div_mod(usize::MAX as int, dim as int);
            }
            let q: usize = usize::MAX / dim;
            if t > q {
                proof {
                    vstd::arithmetic::mul::lemma_mul_inequality(
                        q as int + 1,
                        t as int,
                        dim as int,
                    );
                    assert((q as int + 1) * dim == q as int * dim as int + dim) by (nonlinear_arith);
                    assert(t * dim > usize::MAX);
                    lemma_shape_product_monotone(shape@, m as int + 1);
                }
                return None;
            }
            proof {
                vstd::arithmetic::mul::lemma_mul_inequality(t as int, q as int, dim as int);
                assert(t * dim <= usize::MAX);
                assert(t * dim >= 1) by (nonlinear_arith)
                    requires
                        t >= 1,
                        dim >= 1,
                ;
            }
            t = t * dim;
            m = m + 1;
        }
        proof {
            assert(shape@.take(ndim as int) =~= shape@);
        }
        total = t;
    }
    let avail: usize = b.len() - 1 - 4 * ndim;
    proof {
        vstd::arithmetic::div_mod::lemma_fundamental_div_mod(avail as int, 4);
    }
    if total > avail / 4 {
        proof {
            assert(4 * total > avail);
        }
        return None;
    }
    proof {
        assert(4 * total <= avail);
    }
    let base: usize = 1 + 4 * ndim;
    let ghost gdata = Seq::new(total as nat, |i: int| spec_u32_at(b@, 1 + 4 * (ndim as int) + 4 * i));
    let mut data: Vec<u32> = Vec::new();
    let mut e: usize = 0;
    while e < total
        invariant
            e <= total,
            base == 1 + 4 * ndim,
            base + 4 * total <= b@.len(),
            data@.len() == e,
            forall|k: int| 0 <= k < e ==> #[trigger] data@[k] == gdata[k],
        decreases total - e,
    {
        let off: usize = base + 4 * e;
        let v: u32 = b[off] as u32 + b[off + 1] as u32 * 0x100 + b[off + 2] as u32 * 0x10000 + b[off
            + 3] as u32 * 0x1000000;
        data.push(v);
        e = e + 1;
    }
    proof {
        assert(data@ =~= gdata);
    }
    Some((shape, data))
}

/// Encode a tensor as parameter bytes, the exact inverse layout.
#[verifier::loop_isolation(false)]
pub fn tensor_to_bytes(shape: &Vec<usize>, data: &Vec<u32>) -> (r: Vec<u8>)
    requires
        shape@.len() < 256,
        forall|k: int| 0 <= k < shape@.len() ==> (#[trigger] shape@[k]) < 0x100000000,
    ensures
        r@ == tensor_bytes(shape@, data@),
{
    let mut out: Vec<u8> = Vec::new();
    out.push(shape.len() as u8);
    let ghost after_tag = out@;
    let mut i: usize = 0;
    while i < shape.len()
        invariant
            i <= shape@.len(),
            out@ == after_tag + dims_bytes(shape@.take(i as int)),
        decreases shape@.len() - i,
    {
        crate::codec::write_u32_le(&mut out, shape[i] as u32);
        proof {
            assert(shape@.take(i as int + 1).drop_last() =~= shape@.take(i as int));
            assert(shape@.take(i as int + 1).last() == shape@[i as int]);
            assert(out@ =~= after_tag + dims_bytes(shape@.take(i as int + 1)));
        }
        i = i + 1;
    }
    proof {
        assert(shape@.take(shape@.len() as int) =~= shape@);
    }
    let ghost after_dims = out@;
    let mut e: usize = 0;
    while e < data.len()
        invariant
            e <= data@.len(),
            out@ == after_dims + elems_bytes(data@.take(e as int)),
        decreases data@.len() - e,
    {
        crate::codec::write_u32_le(&mut out, data[e]);
        proof {
            assert(data@.take(e as int + 1).drop_last() =~= data@.take(e as int));
            assert(data@.take(e as int + 1).last() == data@[e as int]);
            assert(out@ =~= after_dims + elems_bytes(data@.take(e as int + 1)));
        }
        e = e + 1;
    }
    proof {
        assert(data@.take(data@.len() as int) =~= data@);
        assert(out@ =~= tensor_bytes(shape@, data@));
    }
    out
}

/// The shapes a cached result may take so that replaying it as a
/// parameter is exact: tensor dimensions fit the 32-bit wire form.
pub open spec fn wf_result(r: CResV) -> bool {
    match r {
        CResV::Tensor(_data, shape) => shape.len() < 256 && (forall|k: int|
            0 <= k < shape.len() ==> (#[trigger] shape[k]) < 0x100000000),
        _ => true,
    }
}

/// Replay a cached result as a parameter value.
pub fn result_to_param(res: &ContractResult) -> (p: Param)
    requires
        wf_result(cres_view(*res)),
    ensures
        param_view(p) == param_of_result(cres_view(*res)),
{
    match res {
        ContractResult::Null => Param::Null,
        ContractResult::Bool(b) => Param::Bool(*b),
        ContractResult::Int(i) => Param::Int(*i),
        ContractResult::Float(bits) => Param::Float(*bits),
        ContractResult::Tensor { data, shape } => Param::Bytes(tensor_to_bytes(shape, data)),
        ContractResult::Handle(h) => Param::Handle(copy_bytes(h)),
        ContractResult::Error(_) => Param::Null,
    }
}

/// When every parameter resolves, resolution succeeds pointwise.
proof fn lemma_resolve_pairs_ok(pw: Seq<(Seq<char>, PVal)>, cv: Seq<CResV>, idx: int)
    requires
        forall|k: int| 0 <= k < pw.len() ==> (#[trigger] resolve_pval(pw[k].1, cv, idx)) is Ok,
    ensures
        resolve_pairs(pw, cv, idx) matches Ok(rp) && rp.len() == pw.len() && (forall|k: int|
            0 <= k < pw.len() ==> #[trigger] rp[k] == (
                pw[k].0,
                resolve_pval(pw[k].1, cv, idx)->Ok_0,
            )),
    decreases pw.len(),
{
    if pw.len() > 0 {
        let rest = pw.drop_first();
        assert(forall|k: int| 0 <= k < rest.len() ==> #[trigger] rest[k] == pw[k + 1]);
        lemma_resolve_pairs_ok(rest, cv, idx);
    }
}

/// The first failing parameter decides the resolution error.
proof fn lemma_resolve_pairs_err(pw: Seq<(Seq<char>, PVal)>, cv: Seq<CResV>, idx: int, k0: int)
    requires
        0 <= k0 < pw.len(),
        forall|j: int| 0 <= j < k0 ==> (#[trigger] resolve_pval(pw[j].1, cv, idx)) is Ok,
        resolve_pval(pw[k0].1, cv, idx) is Err,
    ensures
        resolve_pairs(pw, cv, idx) == Err::<Seq<(Seq<char>, PVal)>, ExecErrV>(
            resolve_pval(pw[k0].1, cv, idx)->Err_0,
        ),
    decreases k0,
{
    let rest = pw.drop_first();
    assert(forall|k: int| 0 <= k < rest.len() ==> #[trigger] rest[k] == pw[k + 1]);
    if k0 == 0 {
    } else {
        lemma_resolve_pairs_err(rest, cv, idx, k0 - 1);
    }
}

/// Resolve an instruction's parameters against the cache of earlier
/// results: every chaining directive is replaced by the result it
/// names, or the whole instruction fails with its position.
#[verifier::loop_isolation(false)]
#[verifier::rlimit(100)]
fn resolve_instr_params(
    params: &Vec<(String, Param)>,
    cache: &Vec<ContractResult>,
    idx: usize,
) -> (r: Result<Vec<(String, Param)>, LCBError>)
    requires
        forall|i: int|
            0 <= i < cress_view(cache@).len() ==> wf_result(#[trigger] cress_view(cache@)[i]),
    ensures
        (match r {
            Ok(rp) => resolve_pairs(pairs_view(params@), cress_view(cache@), idx as int) == Ok::<
                Seq<(Seq<char>, PVal)>,
                ExecErrV,
            >(pairs_view(rp@)),
            Err(e) => (resolve_pairs(pairs_view(params@), cress_view(cache@), idx as int) matches
                Err(v) && matches_exec_err(e, v)),
        }),
{
    proof {
        lemma_pairs_view_len(params@);
        lemma_cress_view_len(cache@);
    }
    let ghost pw = pairs_view(params@);
    let ghost cv = cress_view(cache@);
    let mut out: Vec<(String, Param)> = Vec::new();
    let mut i: usize = 0;
    while i < params.len()
        invariant
            i <= params@.len(),
            out@.len() == i,
            forall|k: int|
                0 <= k < i ==> (#[trigger] resolve_pval(pw[k].1, cv, idx as int)) is Ok,
            forall|k: int|
                0 <= k < i ==> (#[trigger] out@[k]).0@ == pw[k].0 && param_view(out@[k].1)
                    == resolve_pval(pw[k].1, cv, idx as int)->Ok_0,
        decreases params@.len() - i,
    {
        proof {
            assert(pw[i as int] == (params@[i as int].0@, param_view(params@[i as int].1)));
        }
        let new_val: Param;
        match &params[i].1 {
            Param::ChainFrom(j) => {
                if *j < cache.len() {
                    proof {
                        assert(wf_result(cress_view(cache@)[*j as int]));
                        assert(cv[*j as int] == cres_view(cache@[*j as int]));
                    }
                    new_val = result_to_param(&cache[*j]);
                } else {
                    proof {
                        lemma_resolve_pairs_err(pw, cv, idx as int, i as int);
                    }
                    return Err(
                        LCBError::ChainError {
                            index: idx,
                            msg: "instruction not yet executed".to_owned(),
                        },
                    );
                }
            },
            Param::ChainPrevious => {
                if cache.len() >= 1 {
                    proof {
                        assert(wf_result(cress_view(cache@)[cache@.len() - 1]));
                        assert(cv[cv.len() - 1] == cres_view(cache@[cache@.len() - 1]));
                    }
                    new_val = result_to_param(&cache[cache.len() - 1]);
                } else {
                    proof {
                        lemma_resolve_pairs_err(pw, cv, idx as int, i as int);
                    }
                    return Err(
                        LCBError::ChainError {
                            index: idx,
                            msg: "no previous instruction".to_owned(),
                        },
                    );
                }
            },
            _ => {
                new_val = clone_param(&params[i].1);
            },
        }
        let key = params[i].0.clone();
        out.push((key, new_val));
        i = i + 1;
    }
    proof {
        lemma_resolve_pairs_ok(pw, cv, idx as int);
        lemma_pairs_view_len(out@);
        assert(pairs_view(out@) =~= resolve_pairs(pw, cv, idx as int)->Ok_0);
    }
    Ok(out)
}

/// A required text parameter, by name.
fn get_text_param(params: &Vec<(String, Param)>, name: &str) -> (r: Result<String, LCBError>)
    ensures
        (match r {
            Ok(s) => get_text(pairs_view(params@), name@) == Ok::<Seq<char>, ExecErrV>(s@),
            Err(e) => (get_text(pairs_view(params@), name@) matches Err(v) && matches_exec_err(
                e,
                v,
            )),
        }),
{
    match lookup(params, name) {
        None => Err(LCBError::MissingParam(name.to_owned())),
        Some(p) => match p {
            Param::Text(s) => Ok(s.clone()),
            _ => Err(
                LCBError::InvalidParam { name: name.to_owned(), expected: "text".to_owned() },
            ),
        },
    }
}

/// A required integer parameter, by name.
fn get_int_param(params: &Vec<(String, Param)>, name: &str) -> (r: Result<i64, LCBError>)
    ensures
        (match r {
            Ok(i) => get_int(pairs_view(params@), name@) == Ok::<i64, ExecErrV>(i),
            Err(e) => (get_int(pairs_view(params@), name@) matches Err(v) && matches_exec_err(
                e,
                v,
            )),
        }),
{
    match lookup(params, name) {
        None => Err(LCBError::MissingParam(name.to_owned())),
        Some(p) => match p {
            Param::Int(i) => Ok(*i),
            _ => Err(LCBError::InvalidParam { name: name.to_owned(), expected: "int".to_owned() }),
        },
    }
}

/// An optional integer parameter with a default.
fn get_int_param_or(params: &Vec<(String, Param)>, name: &str, dflt: i64) -> (r: i64)
    ensures
        r == get_int_or(pairs_view(params@), name@, dflt),
{
    match lookup(params, name) {
        Some(p) => match p {
            Param::Int(i) => *i,
            _ => dflt,
        },
        None => dflt,
    }
}

/// An optional boolean parameter defaulting to false.
fn get_bool_param_or_false(params: &Vec<(String, Param)>, name: &str) -> (r: bool)
    ensures
        r == get_bool_or_false(pairs_view(params@), name@),
{
    match lookup(params, name) {
        Some(p) => match p {
            Param::Bool(b) => *b,
            _ => false,
        },
        None => false,
    }
}

/// A required tensor parameter, carried as bytes.
fn get_tensor_param(params: &Vec<(String, Param)>, name: &str) -> (r: Result<
    (Vec<usize>, Vec<u32>),
    LCBError,
>)
    ensures
        (match r {
            Ok((shape, data)) => get_tensor(pairs_view(params@), name@) == Ok::<
                (Seq<usize>, Seq<u32>),
                ExecErrV,
            >((shape@, data@)),
            Err(e) => (get_tensor(pairs_view(params@), name@) matches Err(v) && matches_exec_err(
                e,
                v,
            )),
        }),
{
    match lookup(params, name) {
        None => Err(LCBError::MissingParam(name.to_owned())),
        Some(p) => match p {
            Param::Bytes(b) => match parse_tensor(b) {
                Some(t) => Ok(t),
                None => Err(
                    LCBError::InvalidParam {
                        name: name.to_owned(),
                        expected: "tensor bytes".to_owned(),
                    },
                ),
            },
            _ => Err(
                LCBError::InvalidParam {
                    name: name.to_owned(),
                    expected: "bytes (tensor)".to_owned(),
                },
            ),
        },
    }
}

/// A fresh 32-byte zero handle.
fn zero_handle() -> (r: Vec<u8>)
    ensures
        r@ == zeros_u8(32),
{
    let mut out: Vec<u8> = Vec::new();
    let mut i: usize = 0;
    while i < 32
        invariant
            i <= 32,
            out@.len() == i,
            forall|k: int| 0 <= k < i ==> #[trigger] out@[k] == 0u8,
        decreases 32 - i,
    {
        out.push(0u8);
        i = i + 1;
    }
    proof {
        assert(out@ =~= zeros_u8(32));
    }
    out
}

/// Whether an outcome calls into the compute backend.
pub open spec fn is_backend_outcome(o: Outcome) -> bool {
    !(o is Done)
}

/// Dispatch an instruction's resolved parameters to its handler.  The
/// backend's numeric work is out of scope: where an outcome calls it,
/// only the kind, shape and length of the result are promised, and a
/// result of the wrong length is rejected rather than cached.
#[verifier::loop_isolation(false)]
#[verifier::rlimit(100)]
fn exec_dispatch<K: ComputeBackend>(id: u16, rp: &Vec<(String, Param)>, backend: &mut K) -> (r:
    Result<ContractResult, LCBError>)
    ensures
        (match r {
            Ok(res) => (spec_dispatch(id, pairs_view(rp@)) matches Ok(o) && outcome_matches(
                o,
                cres_view(res),
            )) && wf_result(cres_view(res)),
            Err(e) => (spec_dispatch(id, pairs_view(rp@)) matches Err(v) && matches_exec_err(
                e,
                v,
            )) || (spec_dispatch(id, pairs_view(rp@)) matches Ok(o) && is_backend_outcome(o)
                && matches_exec_err(e, ExecErrV::Failed)),
        }),
{
    let ghost rpw = pairs_view(rp@);
    if id == crate::contract_ids::BINARY_SERIALIZER {
        let mode = match get_text_param(rp, "mode") {
            Ok(s) => s,
            Err(e) => {
                return Err(e);
            },
        };
        if str_eq(mode.as_str(), "validate") {
            Ok(ContractResult::Bool(true))
        } else if str_eq(mode.as_str(), "encode") || str_eq(mode.as_str(), "decode") {
            Ok(ContractResult::Null)
        } else {
            Err(
                LCBError::InvalidParam {
                    name: "mode".to_owned(),
                    expected: "encode|decode|validate".to_owned(),
                },
            )
        }
    } else if id == crate::contract_ids::INSTRUCTION_PARSER {
        Ok(ContractResult::Null)
    } else if id == crate::contract_ids::TYPE_VALIDATOR {
        Ok(ContractResult::Bool(true))
    } else if id == crate::contract_ids::DETERMINISM_VERIFIER {
        Ok(ContractResult::Bool(true))
    } else if id == crate::contract_ids::CONTRACT_VALIDATOR {
        Ok(ContractResult::Bool(true))
    } else if id == crate::contract_ids::ERROR_HANDLER {
        Ok(ContractResult::Null)
    } else if id == crate::contract_ids::VULKAN_SHADER {
        Ok(ContractResult::Null)
    } else if id == crate::contract_ids::COMPUTE_KERNEL {
        Ok(ContractResult::Null)
    } else if id == crate::contract_ids::PIPELINE_CONFIG {
        Ok(ContractResult::Null)
    } else if id == crate::contract_ids::TRANSFORMER_FORWARD {
        let s: i64 = get_int_param_or(rp, "seq_len", 16);
        let v: i64 = get_int_param_or(rp, "vocab_size", 256);
        if s < 0 || s > u32::MAX as i64 {
            return Err(
                LCBError::InvalidParam {
                    name: "seq_len".to_owned(),
                    expected: "int in 32-bit range".to_owned(),
                },
            );
        }
        if v < 0 || v > u32::MAX as i64 {
            return Err(
                LCBError::InvalidParam {
                    name: "vocab_size".to_owned(),
                    expected: "int in 32-bit range".to_owned(),
                },
            );
        }
        proof {
            assert((s as u64) * (v as u64) <= 0xFFFFFFFFu64 * 0xFFFFFFFFu64) by (nonlinear_arith)
                requires
                    0 <= s <= 0xFFFFFFFF,
                    0 <= v <= 0xFFFFFFFF,
            ;
        }
        let prod: u64 = (s as u64) * (v as u64);
        if prod > usize::MAX as u64 {
            return Err(
                LCBError::InvalidParam {
                    name: "seq_len".to_owned(),
                    expected: "addressable tensor size".to_owned(),
                },
            );
        }
        let total: usize = prod as usize;
        let mut data: Vec<u32> = Vec::new();
        let mut i: usize = 0;
        while i < total
            invariant
                i <= total,
                data@.len() == i,
                forall|k: int| 0 <= k < i ==> #[trigger] data@[k] == 0u32,
            decreases total - i,
        {
            data.push(0u32);
            i = i + 1;
        }
        let shape: Vec<usize> = vec![s as usize, v as usize];
        proof {
            assert(data@ =~= zeros_u32((s * v) as nat));
            assert(shape@ =~= seq![s as usize, v as usize]);
        }
        Ok(ContractResult::Tensor { data, shape })
    } else if id == crate::contract_ids::TRANSFORMER_BACKWARD {
        Ok(ContractResult::Handle(zero_handle()))
    } else if id == crate::contract_ids::ADAM_OPTIMIZER {
        Ok(ContractResult::Handle(zero_handle()))
    } else if id == crate::contract_ids::TENSOR_GEMM {
        let (_a_shape, a) = match get_tensor_param(rp, "a") {
            Ok(t) => t,
            Err(e) => {
                return Err(e);
            },
        };
        let (_b_shape, b) = match get_tensor_param(rp, "b") {
            Ok(t) => t,
            Err(e) => {
                return Err(e);
            },
        };
        let m: i64 = match get_int_param(rp, "m") {
            Ok(i) => i,
            Err(e) => {
                return Err(e);
            },
        };
        let k: i64 = match get_int_param(rp, "k") {
            Ok(i) => i,
            Err(e) => {
                return Err(e);
            },
        };
        let n: i64 = match get_int_param(rp, "n") {
            Ok(i) => i,
            Err(e) => {
                return Err(e);
            },
        };
        if m < 0 || m > u32::MAX as i64 {
            return Err(
                LCBError::InvalidParam {
                    name: "m".to_owned(),
                    expected: "int in 32-bit range".to_owned(),
                },
            );
        }
        if k < 0 || k > u32::MAX as i64 {
            return Err(
                LCBError::InvalidParam {
                    name: "k".to_owned(),
                    expected: "int in 32-bit range".to_owned(),
                },
            );
        }
        if n < 0 || n > u32::MAX as i64 {
            return Err(
                LCBError::InvalidParam {
                    name: "n".to_owned(),
                    expected: "int in 32-bit range".to_owned(),
                },
            );
        }
        proof {
            assert forall|x: u64, y: u64|
                x <= 0xFFFFFFFF && y <= 0xFFFFFFFF implies #[trigger] (x * y)
                <= 0xFFFFFFFFu64 * 0xFFFFFFFFu64 by {
                assert(x * y <= 0xFFFFFFFFu64 * 0xFFFFFFFFu64) by (nonlinear_arith)
                    requires
                        x <= 0xFFFFFFFF,
                        y <= 0xFFFFFFFF,
                ;
            }
        }
        if (m as u64) * (n as u64) > usize::MAX as u64 {
            return Err(
                LCBError::InvalidParam {
                    name: "m".to_owned(),
                    expected: "addressable output size".to_owned(),
                },
            );
        }
        if (a.len() as u64) != (m as u64) * (k as u64) {
            return Err(
                LCBError::InvalidParam { name: "a".to_owned(), expected: "m*k elements".to_owned() },
            );
        }
        if (b.len() as u64) != (k as u64) * (n as u64) {
            return Err(
                LCBError::InvalidParam { name: "b".to_owned(), expected: "k*n elements".to_owned() },
            );
        }
        let ta: bool = get_bool_param_or_false(rp, "transpose_a");
        let tb: bool = get_bool_param_or_false(rp, "transpose_b");
        let mu: usize = m as usize;
        let ku: usize = k as usize;
        let nu: usize = n as usize;
        let out = backend.gemm(&a, &b, mu, ku, nu, ta, tb);
        if (out.len() as u64) != (mu as u64) * (nu as u64) {
            return Err(LCBError::ExecutionFailed("backend returned a mis-sized tensor".to_owned()));
        }
        let shape: Vec<usize> = vec![mu, nu];
        proof {
            assert(shape@ =~= seq![mu, nu]);
        }
        Ok(ContractResult::Tensor { data: out, shape })
    } else if id == crate::contract_ids::TENSOR_LAYERNORM {
        Ok(ContractResult::Null)
    } else if id == crate::contract_ids::TENSOR_GELU {
        let (shape, input) = match get_tensor_param(rp, "input") {
            Ok(t) => t,
            Err(e) => {
                return Err(e);
            },
        };
        let out = backend.gelu(&input);
        if out.len() != input.len() {
            return Err(LCBError::ExecutionFailed("backend returned a mis-sized tensor".to_owned()));
        }
        proof {
            assert(get_tensor(rpw, "input"@) matches Ok(t) && t.0.len() < 256);
        }
        Ok(ContractResult::Tensor { data: out, shape })
    } else if id == crate::contract_ids::TENSOR_SOFTMAX {
        let (shape, input) = match get_tensor_param(rp, "input") {
            Ok(t) => t,
            Err(e) => {
                return Err(e);
            },
        };
        let num_rows: i64 = match get_int_param(rp, "num_rows") {
            Ok(i) => i,
            Err(e) => {
                return Err(e);
            },
        };
        let row_size: i64 = match get_int_param(rp, "row_size") {
            Ok(i) => i,
            Err(e) => {
                return Err(e);
            },
        };
        if num_rows < 0 || (num_rows as u128) > usize::MAX as u128 {
            return Err(
                LCBError::InvalidParam {
                    name: "num_rows".to_owned(),
                    expected: "non-negative int".to_owned(),
                },
            );
        }
        if row_size < 0 || (row_size as u128) > usize::MAX as u128 {
            return Err(
                LCBError::InvalidParam {
                    name: "row_size".to_owned(),
                    expected: "non-negative int".to_owned(),
                },
            );
        }
        proof {
            assert((num_rows as u128) * (row_size as u128) < 0x100000000000000000000000000000000)
                by (nonlinear_arith)
                requires
                    0 <= num_rows as u128 <= 0xFFFFFFFFFFFFFFFFu128,
                    0 <= row_size as u128 <= 0xFFFFFFFFFFFFFFFFu128,
            ;
        }
        if (num_rows as u128) * (row_size as u128) > input.len() as u128 {
            return Err(
                LCBError::InvalidParam {
                    name: "input".to_owned(),
                    expected: "num_rows*row_size elements".to_owned(),
                },
            );
        }
        let out = backend.softmax(&input, num_rows as usize, row_size as usize);
        if out.len() != input.len() {
            return Err(LCBError::ExecutionFailed("backend returned a mis-sized tensor".to_owned()));
        }
        Ok(ContractResult::Tensor { data: out, shape })
    } else if id == crate::contract_ids::TENSOR_CROSS_ENTROPY {
        Ok(ContractResult::Float(0))
    } else {
        Err(LCBError::UnknownContract(id))
    }
}

/// Execute one instruction against the cache of earlier results:
/// resolve its chained parameters, then dispatch.
fn exec_instruction<K: ComputeBackend>(
    cache: &Vec<ContractResult>,
    idx: usize,
    instr: &Instruction,
    backend: &mut K,
) -> (r: Result<ContractResult, LCBError>)
    requires
        forall|i: int|
            0 <= i < cress_view(cache@).len() ==> wf_result(#[trigger] cress_view(cache@)[i]),
    ensures
        (match r {
            Ok(res) => (spec_instr_outcome(instr_view(*instr), cress_view(cache@), idx as int)
                matches Ok(o) && outcome_matches(o, cres_view(res))) && wf_result(cres_view(res)),
            Err(e) => (spec_instr_outcome(instr_view(*instr), cress_view(cache@), idx as int)
                matches Err(v) && matches_exec_err(e, v)) || (spec_instr_outcome(
                instr_view(*instr),
                cress_view(cache@),
                idx as int,
            ) matches Ok(o) && is_backend_outcome(o) && matches_exec_err(e, ExecErrV::Failed)),
        }),
{
    let rp = match resolve_instr_params(&instr.params, cache, idx) {
        Ok(rp) => rp,
        Err(e) => {
            return Err(e);
        },
    };
    exec_dispatch(instr.contract_id, &rp, backend)
}

/// The compute backend behind the tensor contracts: the numeric work —
/// matrix multiplication, activation, normalization — on raw 32-bit
/// element bits.  Nothing is assumed of the returned bits; the
/// dispatcher checks sizes and wraps results itself.
pub trait ComputeBackend {
    /// Multiply an `m in k` by a `k in n` matrix, with optional
    /// transposition of either operand.
    fn gemm(
        &mut self,
        a: &Vec<u32>,
        b: &Vec<u32>,
        m: usize,
        k: usize,
        n: usize,
        transpose_a: bool,
        transpose_b: bool,
    ) -> Vec<u32>
        requires
            a@.len() == m * k,
            b@.len() == k * n,
            m * n <= usize::MAX,
    ;

    /// Element-wise activation.
    fn gelu(&mut self, input: &Vec<u32>) -> Vec<u32>;

    /// Row-wise normalization over `num_rows` rows of `row_size`.
    fn softmax(&mut self, input: &Vec<u32>, num_rows: usize, row_size: usize) -> Vec<u32>
        requires
            num_rows * row_size <= input@.len(),
    ;
}

/// Addition that sticks at the counter's ceiling instead of wrapping.
pub open spec fn sat_add(a: usize, b: nat) -> usize {
    if a + b <= usize::MAX {
        (a + b) as usize
    } else {
        usize::MAX
    }
}

/// One more dispatch recorded against a contract number.
pub open spec fn bump(m: Map<u16, usize>, id: u16) -> Map<u16, usize> {
    let c = if m.dom().contains(id) {
        m[id]
    } else {
        0usize
    };
    m.insert(id, sat_add(c, 1))
}

pub open spec fn bump_fold(m: Map<u16, usize>, ids: Seq<u16>) -> Map<u16, usize>
    decreases ids,
{
    if ids.len() == 0 {
        m
    } else {
        bump(bump_fold(m, ids.drop_last()), ids.last())
    }
}

/// The contract numbers of a batch, in order.
pub open spec fn instr_ids(s: Seq<InstrV>) -> Seq<u16> {
    Seq::new(s.len(), |i: int| s[i].contract_id)
}

/// The chaining directives carried by the first `k` instructions.
pub open spec fn chain_total(s: Seq<InstrV>, k: int) -> nat
    decreases k,
{
    if k <= 0 {
        0
    } else {
        chain_total(s, k - 1) + count_chain(s[k - 1].params)
    }
}

/// Count the chaining directives in a parameter list.
#[verifier::loop_isolation(false)]
fn count_chain_exec(params: &Vec<(String, Param)>) -> (r: usize)
    ensures
        r as nat == count_chain(pairs_view(params@)),
{
    proof {
        lemma_pairs_view_len(params@);
    }
    let ghost pw = pairs_view(params@);
    let mut c: usize = 0;
    let mut i: usize = 0;
    while i < params.len()
        invariant
            i <= params@.len(),
            c <= i,
            c as nat == count_chain(pw.take(i as int)),
        decreases params@.len() - i,
    {
        proof {
            assert(pw.take(i as int + 1).drop_last() =~= pw.take(i as int));
            assert(pw.take(i as int + 1).last() == pw[i as int]);
        }
        match &params[i].1 {
            Param::ChainFrom(_) => {
                c = c + 1;
            },
            Param::ChainPrevious => {
                c = c + 1;
            },
            _ => {},
        }
        i = i + 1;
    }
    proof {
        assert(pw.take(pw.len() as int) =~= pw);
    }
    c
}

/// Copy a contract result.
fn clone_result(r: &ContractResult) -> (c: ContractResult)
    ensures
        cres_view(c) == cres_view(*r),
{
    match r {
        ContractResult::Null => ContractResult::Null,
        ContractResult::Bool(b) => ContractResult::Bool(*b),
        ContractResult::Int(i) => ContractResult::Int(*i),
        ContractResult::Float(bits) => ContractResult::Float(*bits),
        ContractResult::Tensor { data, shape } => ContractResult::Tensor {
            data: copy_u32s(data),
            shape: copy_usizes(shape),
        },
        ContractResult::Handle(h) => ContractResult::Handle(copy_bytes(h)),
        ContractResult::Error(s) => ContractResult::Error(s.clone()),
    }
}

/// Cumulative counters for one executor: instructions run, dispatches
/// per contract number, wall time spent, chain resolutions performed.
/// They only grow; a fresh executor starts them at zero.
pub struct ExecutionStats {
    pub instructions_executed: usize,
    pub contracts_dispatched: HashMap<u16, usize>,
    pub total_time_ms: u64,
    pub chain_operations: usize,
}

/// Executes instruction batches against a compute backend, caching each
/// result for chaining within the same batch.
pub struct LCBExecutor {
    result_cache: Vec<ContractResult>,
    stats: ExecutionStats,
}

impl LCBExecutor {
    /// The batch-scoped result cache, as values.
    pub closed spec fn cache_view(&self) -> Seq<CResV> {
        cress_view(self.result_cache@)
    }

    /// The statistics, as a value.
    pub closed spec fn spec_stats(&self) -> ExecutionStats {
        self.stats
    }

    pub fn new() -> (r: Self)
        ensures
            r.cache_view() == Seq::<CResV>::empty(),
            r.spec_stats().instructions_executed == 0,
            r.spec_stats().contracts_dispatched@ == Map::<u16, usize>::empty(),
            r.spec_stats().total_time_ms == 0,
            r.spec_stats().chain_operations == 0,
    {
        LCBExecutor {
            result_cache: Vec::new(),
            stats: ExecutionStats {
                instructions_executed: 0,
                contracts_dispatched: HashMap::new(),
                total_time_ms: 0,
                chain_operations: 0,
            },
        }
    }

    /// Read the statistics.
    pub fn stats(&self) -> (r: &ExecutionStats)
        ensures
            *r == self.spec_stats(),
    {
        &self.stats
    }

    /// Record wall time spent executing, as the caller measured it at
    /// the service edge.
    pub fn add_time_ms(&mut self, ms: u64)
        ensures
            final(self).spec_stats().total_time_ms == (if old(self).spec_stats().total_time_ms
                + ms <= u64::MAX {
                (old(self).spec_stats().total_time_ms + ms) as u64
            } else {
                u64::MAX
            }),
            final(self).spec_stats().instructions_executed == old(
                self,
            ).spec_stats().instructions_executed,
            final(self).spec_stats().contracts_dispatched@ == old(
                self,
            ).spec_stats().contracts_dispatched@,
            final(self).spec_stats().chain_operations == old(self).spec_stats().chain_operations,
            final(self).cache_view() == old(self).cache_view(),
    {
        if self.stats.total_time_ms <= u64::MAX - ms {
            self.stats.total_time_ms = self.stats.total_time_ms + ms;
        } else {
            self.stats.total_time_ms = u64::MAX;
        }
    }

    /// Execute a complete batch, strictly in instruction order.  Either
    /// every instruction succeeds and the full result list comes back —
    /// each result answering its instruction's outcome against exactly
    /// the results before it — or the first failure aborts the batch
    /// with one error and no results at all.
    #[verifier::loop_isolation(false)]
    #[verifier::rlimit(100)]
    pub fn execute_batch<K: ComputeBackend>(
        &mut self,
        batch: &LCBBatch,
        backend: &mut K,
    ) -> (r: Result<Vec<ContractResult>, LCBError>)
        ensures
            final(self).spec_stats().total_time_ms == old(self).spec_stats().total_time_ms,
            (match r {
                Ok(results) => {
                    &&& results@.len() == batch@.instructions.len()
                    &&& batch_trace_ok(batch@.instructions, cress_view(results@))
                    &&& final(self).cache_view() == cress_view(results@)
                    &&& final(self).spec_stats().instructions_executed == sat_add(
                        old(self).spec_stats().instructions_executed,
                        batch@.instructions.len(),
                    )
                    &&& final(self).spec_stats().contracts_dispatched@ == bump_fold(
                        old(self).spec_stats().contracts_dispatched@,
                        instr_ids(batch@.instructions),
                    )
                    &&& final(self).spec_stats().chain_operations == sat_add(
                        old(self).spec_stats().chain_operations,
                        chain_total(batch@.instructions, batch@.instructions.len() as int),
                    )
                },
                Err(e) => exists|partial: Seq<CResV>|
                    {
                        &&& #[trigger] batch_trace_ok(batch@.instructions, partial)
                        &&& partial.len() < batch@.instructions.len()
                        &&& ((spec_instr_outcome(
                            batch@.instructions[partial.len() as int],
                            partial,
                            partial.len() as int,
                        ) matches Err(v) && matches_exec_err(e, v)) || (spec_instr_outcome(
                            batch@.instructions[partial.len() as int],
                            partial,
                            partial.len() as int,
                        ) matches Ok(o) && is_backend_outcome(o) && matches_exec_err(
                            e,
                            ExecErrV::Failed,
                        )))
                        &&& final(self).spec_stats().instructions_executed == sat_add(
                            old(self).spec_stats().instructions_executed,
                            partial.len(),
                        )
                        &&& final(self).spec_stats().contracts_dispatched@ == bump_fold(
                            old(self).spec_stats().contracts_dispatched@,
                            instr_ids(batch@.instructions).take(partial.len() as int),
                        )
                        &&& final(self).spec_stats().chain_operations == sat_add(
                            old(self).spec_stats().chain_operations,
                            chain_total(batch@.instructions, partial.len() as int),
                        )
                    },
            }),
    {
        proof {
            lemma_instrs_view_len(batch.instructions@);
        }
        let ghost instrs = instrs_view(batch.instructions@);
        let ghost ids = instr_ids(instrs);
        let ghost old_ie = self.stats.instructions_executed;
        let ghost old_map = self.stats.contracts_dispatched@;
        let ghost old_chain = self.stats.chain_operations;
        self.result_cache = Vec::new();
        let mut results: Vec<ContractResult> = Vec::new();
        let n: usize = batch.instructions.len();
        let mut i: usize = 0;
        proof {
            assert(ids.take(0) =~= Seq::<u16>::empty());
        }
        while i < n
            invariant
                n == batch.instructions@.len(),
                instrs == instrs_view(batch.instructions@),
                i <= n,
                self.result_cache@.len() == i,
                results@.len() == i,
                cress_view(results@) == cress_view(self.result_cache@),
                batch_trace_ok(instrs, cress_view(self.result_cache@)),
                forall|k: int|
                    0 <= k < cress_view(self.result_cache@).len() ==> wf_result(
                        #[trigger] cress_view(self.result_cache@)[k],
                    ),
                self.stats.instructions_executed == sat_add(old_ie, i as nat),
                self.stats.contracts_dispatched@ == bump_fold(old_map, ids.take(i as int)),
                self.stats.chain_operations == sat_add(old_chain, chain_total(instrs, i as int)),
                self.stats.total_time_ms == old(self).spec_stats().total_time_ms,
            decreases n - i,
        {
            let ghost cv = cress_view(self.result_cache@);
            proof {
                lemma_cress_view_len(self.result_cache@);
                assert(instrs[i as int] == instr_view(batch.instructions@[i as int]));
            }
            let instr = &batch.instructions[i];
            match exec_instruction(&self.result_cache, i, instr, backend) {
                Ok(res) => {
                    let cc: usize = count_chain_exec(&instr.params);
                    if self.stats.instructions_executed < usize::MAX {
                        self.stats.instructions_executed = self.stats.instructions_executed + 1;
                    }
                    let id: u16 = instr.contract_id;
                    let prev: usize = match self.stats.contracts_dispatched.get(&id) {
                        Some(v) => *v,
                        None => 0,
                    };
                    let next_count: usize = if prev < usize::MAX {
                        prev + 1
                    } else {
                        prev
                    };
                    self.stats.contracts_dispatched.insert(id, next_count);
                    if self.stats.chain_operations <= usize::MAX - cc {
                        self.stats.chain_operations = self.stats.chain_operations + cc;
                    } else {
                        self.stats.chain_operations = usize::MAX;
                    }
                    let res2 = clone_result(&res);
                    proof {
                        assert(self.result_cache@.push(res).drop_last() =~= self.result_cache@);
                        assert(results@.push(res2).drop_last() =~= results@);
                        assert(ids.take(i as int + 1).drop_last() =~= ids.take(i as int));
                        assert(ids.take(i as int + 1).last() == instrs[i as int].contract_id);
                    }
                    self.result_cache.push(res);
                    results.push(res2);
                    i = i + 1;
                    proof {
                        let cv2 = cress_view(self.result_cache@);
                        assert(cv2 == cv.push(cres_view(self.result_cache@.last())));
                        assert(cv2.take(i as int - 1) =~= cv);
                        assert forall|k: int| 0 <= k < cv2.len() implies ((#[trigger]
                        spec_instr_outcome(instrs[k], cv2.take(k), k)) matches Ok(o)
                            && outcome_matches(o, cv2[k])) by {
                            if k < cv2.len() - 1 {
                                assert(cv2.take(k) =~= cv.take(k));
                                assert(cv2[k] == cv[k]);
                            }
                        }
                        assert forall|k: int| 0 <= k < cv2.len() implies wf_result(
                            #[trigger] cv2[k],
                        ) by {
                            if k < cv2.len() - 1 {
                                assert(cv2[k] == cv[k]);
                            }
                        }
                        assert(cress_view(results@) =~= cv2);
                    }
                },
                Err(e) => {
                    proof {
                        assert(batch_trace_ok(instrs, cv));
                        assert(cv.len() == i as int);
                        assert(ids.take(i as int) == instr_ids(instrs).take(i as int));
                        assert(batch@.instructions == instrs);
                        assert(((spec_instr_outcome(instrs[i as int], cv, i as int) matches Err(v)
                            && matches_exec_err(e, v)) || (spec_instr_outcome(
                            instrs[i as int],
                            cv,
                            i as int,
                        ) matches Ok(o) && is_backend_outcome(o) && matches_exec_err(
                            e,
                            ExecErrV::Failed,
                        ))));
                        assert(self.stats.instructions_executed == sat_add(
                            old(self).spec_stats().instructions_executed,
                            cv.len(),
                        ));
                        assert(self.stats.contracts_dispatched@ == bump_fold(
                            old(self).spec_stats().contracts_dispatched@,
                            instr_ids(instrs).take(cv.len() as int),
                        ));
                        assert(self.stats.chain_operations == sat_add(
                            old(self).spec_stats().chain_operations,
                            chain_total(instrs, cv.len() as int),
                        ));
                    }
                    return Err(e);
                },
            }
        }
        proof {
            assert(ids.take(n as int) =~= ids);
            assert(chain_total(instrs, n as int) == chain_total(instrs, instrs.len() as int));
            assert(batch@.instructions == instrs);
            assert(results@.len() == batch@.instructions.len());
            assert(batch_trace_ok(batch@.instructions, cress_view(results@)));
            assert(cress_view(self.result_cache@) == cress_view(results@));
            assert(self.stats.instructions_executed == sat_add(
                old(self).spec_stats().instructions_executed,
                batch@.instructions.len(),
            ));
            assert(self.stats.contracts_dispatched@ == bump_fold(
                old(self).spec_stats().contracts_dispatched@,
                instr_ids(batch@.instructions),
            ));
            assert(self.stats.chain_operations == sat_add(
                old(self).spec_stats().chain_operations,
                chain_total(batch@.instructions, batch@.instructions.len() as int),
            ));
        }
        Ok(results)
    }
}

impl Default for LCBExecutor {
    fn default() -> (r: Self)
        ensures
            r.cache_view() == Seq::<CResV>::empty(),
            r.spec_stats().instructions_executed == 0,
            r.spec_stats().contracts_dispatched@ == Map::<u16, usize>::empty(),
            r.spec_stats().total_time_ms == 0,
            r.spec_stats().chain_operations == 0,
    {
        LCBExecutor::new()
    }
}

} // verus!
