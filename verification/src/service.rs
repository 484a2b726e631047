//! The request/response layer of the socket service: admission control,
//! result and error serialization, and the batch-processing step that
//! turns one request body into one response body.  The socket itself is
//! the caller's: this layer computes on plain bytes.

use vstd::prelude::*;
use vstd::utf8::encode_utf8;
use crate::text::{dec_chars, hex8_chars, write_dec, write_hex8};
use crate::codec::{
    ParseError, ErrKind, spec_leb_u32_bytes, spec_u32_le_bytes, spec_u64_le_bytes, spec_leb_i64_bytes,
    write_leb128_u32, write_leb128_i64, write_u64_le, write_u32_le, write_bytes, write_str_bytes,
};
use crate::executor::{
    ContractResult, CResV, cres_view, cress_view, lemma_cress_view_len, LCBError, LCBExecutor,
    ComputeBackend, batch_trace_ok, ExecErrV, matches_exec_err, spec_instr_outcome,
    is_backend_outcome,
};
use crate::batch::{parse_batch, spec_parse_batch};

verus! {

/// The socket path the service binds when none is configured.
pub fn default_socket_path() -> (r: &'static str)
    ensures
        r@ =~= "/tmp/hlx_vulkan.sock"@,
{
    "/tmp/hlx_vulkan.sock"
}

/// Service configuration: where to listen, how large a request may
/// declare itself, how long to wait, how loudly to speak.
#[derive(Debug)]
pub struct ServiceConfig {
    pub socket_path: String,
    pub max_batch_size: usize,
    pub timeout_ms: u64,
    pub verbose: bool,
}

impl Default for ServiceConfig {
    /// The default: the default socket path, a 16 MiB batch ceiling, a
    /// 30-second timeout, verbose.
    fn default() -> (r: Self)
        ensures
            r.socket_path@ == "/tmp/hlx_vulkan.sock"@,
            r.max_batch_size == 16 * 1024 * 1024,
            r.timeout_ms == 30000,
            r.verbose == true,
    {
        ServiceConfig {
            socket_path: default_socket_path().to_owned(),
            max_batch_size: 16 * 1024 * 1024,
            timeout_ms: 30000,
            verbose: true,
        }
    }
}

/// Admission control: a request is taken only when its declared length
/// does not exceed the configured maximum; an oversized declaration is
/// rejected before any body is read.
pub fn admit_request(declared_len: usize, max_batch_size: usize) -> (r: bool)
    ensures
        r == (declared_len <= max_batch_size),
{
    declared_len <= max_batch_size
}

/// The message text of a parse failure.
pub open spec fn parse_err_chars(e: ParseError) -> Seq<char> {
    match e {
        ParseError::InvalidMagic(m) => "Invalid magic: 0x"@ + hex8_chars(m),
        ParseError::UnsupportedVersion(v) => "Unsupported version: "@ + dec_chars(v as nat),
        ParseError::UnexpectedEOF => "Unexpected end of input"@,
        ParseError::InvalidUtf8 => "Invalid UTF-8 string"@,
        ParseError::InvalidSignature => "Signature verification failed"@,
        ParseError::MalformedInstruction(msg) => "Malformed instruction: "@ + msg@,
    }
}

impl ParseError {
    /// Render the failure as text.
    pub fn message(&self) -> (r: String)
        ensures
            r@ == parse_err_chars(*self),
    {
        match self {
            ParseError::InvalidMagic(m) => {
                let mut s = "Invalid magic: 0x".to_owned();
                write_hex8(&mut s, *m);
                s
            },
            ParseError::UnsupportedVersion(v) => {
                let mut s = "Unsupported version: ".to_owned();
                write_dec(&mut s, *v as u64);
                s
            },
            ParseError::UnexpectedEOF => "Unexpected end of input".to_owned(),
            ParseError::InvalidUtf8 => "Invalid UTF-8 string".to_owned(),
            ParseError::InvalidSignature => "Signature verification failed".to_owned(),
            ParseError::MalformedInstruction(msg) => {
                let mut s = "Malformed instruction: ".to_owned();
                crate::codec::append_str(&mut s, msg.as_str());
                s
            },
        }
    }
}

/// The message text of a parse failure, as a function of its spec-level
/// kind alone: every payload the kind carries is rendered.
pub open spec fn kind_msg_chars(k: ErrKind) -> Seq<char> {
    match k {
        ErrKind::InvalidMagic(m) => "Invalid magic: 0x"@ + hex8_chars(m),
        ErrKind::UnsupportedVersion(v) => "Unsupported version: "@ + dec_chars(v as nat),
        ErrKind::Eof => "Unexpected end of input"@,
        ErrKind::Utf8 => "Invalid UTF-8 string"@,
        ErrKind::Sig => "Signature verification failed"@,
        ErrKind::Malformed(t) => "Malformed instruction: "@ + t,
    }
}

/// The full message of a request rejected because its body failed to
/// parse with this kind.
pub open spec fn parse_failure_chars(k: ErrKind) -> Seq<char> {
    "Execution failed: "@ + ("Parse error: "@ + kind_msg_chars(k))
}

/// A parse error's message is a function of its kind.
proof fn lemma_parse_err_chars_of_kind(e: ParseError, k: ErrKind)
    requires
        crate::codec::matches_err(e, k),
    ensures
        parse_err_chars(e) == kind_msg_chars(k),
{
}

/// The message text of a dispatch failure.
pub open spec fn exec_err_chars(e: LCBError) -> Seq<char> {
    match e {
        LCBError::UnknownContract(id) => "Unknown contract ID: "@ + dec_chars(id as nat),
        LCBError::InvalidParam { name, expected } => "Invalid param '"@ + name@ + "': expected "@
            + expected@,
        LCBError::MissingParam(name) => "Missing required param: "@ + name@,
        LCBError::ChainError { index, msg } => "Chain error from instruction "@ + dec_chars(
            index as nat,
        ) + ": "@ + msg@,
        LCBError::VulkanError(msg) => "Vulkan error: "@ + msg@,
        LCBError::ExecutionFailed(msg) => "Execution failed: "@ + msg@,
    }
}

impl LCBError {
    /// Render the failure as text.
    pub fn message(&self) -> (r: String)
        ensures
            r@ == exec_err_chars(*self),
    {
        match self {
            LCBError::UnknownContract(id) => {
                let mut s = "Unknown contract ID: ".to_owned();
                write_dec(&mut s, *id as u64);
                s
            },
            LCBError::InvalidParam { name, expected } => {
                let mut s = "Invalid param '".to_owned();
                crate::codec::append_str(&mut s, name.as_str());
                crate::codec::append_str(&mut s, "': expected ");
                crate::codec::append_str(&mut s, expected.as_str());
                assert(s@ =~= exec_err_chars(*self));
                s
            },
            LCBError::MissingParam(name) => {
                let mut s = "Missing required param: ".to_owned();
                crate::codec::append_str(&mut s, name.as_str());
                s
            },
            LCBError::ChainError { index, msg } => {
                let mut s = "Chain error from instruction ".to_owned();
                write_dec(&mut s, *index as u64);
                crate::codec::append_str(&mut s, ": ");
                crate::codec::append_str(&mut s, msg.as_str());
                assert(s@ =~= exec_err_chars(*self));
                s
            },
            LCBError::VulkanError(msg) => {
                let mut s = "Vulkan error: ".to_owned();
                crate::codec::append_str(&mut s, msg.as_str());
                s
            },
            LCBError::ExecutionFailed(msg) => {
                let mut s = "Execution failed: ".to_owned();
                crate::codec::append_str(&mut s, msg.as_str());
                s
            },
        }
    }
}

/// Truncation to the 32-bit length prefix, as the wire writes lengths.
pub open spec fn trunc32(x: int) -> u32 {
    (x % 0x100000000) as u32
}

/// The response encoding of one result: a one-byte tag, then the
/// tag-specific payload; tensors carry their shape then their elements.
pub open spec fn cres_bytes(r: CResV) -> Seq<u8> {
    match r {
        CResV::Null => seq![0u8],
        CResV::Bool(b) => seq![
            1u8,
            if b {
                1u8
            } else {
                0u8
            },
        ],
        CResV::Int(i) => seq![2u8] + spec_leb_i64_bytes(i as int),
        CResV::Float(bits) => seq![3u8] + spec_u64_le_bytes(bits),
        CResV::Tensor(data, shape) => seq![4u8] + spec_leb_u32_bytes(trunc32(shape.len() as int))
            + dims_leb_bytes(shape) + spec_leb_u32_bytes(trunc32(data.len() as int)) + elems_le_bytes(
            data,
        ),
        CResV::Handle(h) => seq![5u8] + h,
        CResV::Error(msg) => seq![6u8] + spec_leb_u32_bytes(
            trunc32((encode_utf8(msg).len() as usize) as int),
        ) + encode_utf8(msg),
    }
}

pub open spec fn dims_leb_bytes(shape: Seq<usize>) -> Seq<u8>
    decreases shape,
{
    if shape.len() == 0 {
        Seq::empty()
    } else {
        dims_leb_bytes(shape.drop_last()) + spec_leb_u32_bytes(trunc32(shape.last() as int))
    }
}

pub open spec fn elems_le_bytes(data: Seq<u32>) -> Seq<u8>
    decreases data,
{
    if data.len() == 0 {
        Seq::empty()
    } else {
        elems_le_bytes(data.drop_last()) + spec_u32_le_bytes(data.last())
    }
}

pub open spec fn cres_list_bytes(rs: Seq<CResV>) -> Seq<u8>
    decreases rs,
{
    if rs.len() == 0 {
        Seq::empty()
    } else {
        cres_list_bytes(rs.drop_last()) + cres_bytes(rs.last())
    }
}

/// A success response: a zero status byte, the result count, then each
/// result in order.
pub open spec fn results_response_bytes(rs: Seq<CResV>) -> Seq<u8> {
    seq![0u8] + spec_leb_u32_bytes(trunc32(rs.len() as int)) + cres_list_bytes(rs)
}

/// An error response: a one status byte, then the length-prefixed
/// message text.
pub open spec fn error_response_bytes(msg: Seq<char>) -> Seq<u8> {
    seq![1u8] + spec_leb_u32_bytes(trunc32((encode_utf8(msg).len() as usize) as int)) + encode_utf8(
        msg,
    )
}

/// Append the 32-bit length prefix for a possibly larger count.
fn write_len_prefix(data: &mut Vec<u8>, n: usize)
    ensures
        final(data)@ == old(data)@ + spec_leb_u32_bytes(trunc32(n as int)),
{
    let t: u32 = ((n as u64) % 0x100000000) as u32;
    proof {
        assert((n as u64) % 0x100000000 == (n as int) % 0x100000000);
    }
    write_leb128_u32(data, t);
}

/// Serialize a single result.
#[verifier::loop_isolation(false)]
pub fn serialize_result(data: &mut Vec<u8>, result: &ContractResult)
    ensures
        final(data)@ == old(data)@ + cres_bytes(cres_view(*result)),
{
    match result {
        ContractResult::Null => {
            data.push(0);
            assert(data@ =~= old(data)@ + cres_bytes(cres_view(*result)));
        },
        ContractResult::Bool(b) => {
            data.push(1);
            data.push(if *b {
                1
            } else {
                0
            });
            assert(data@ =~= old(data)@ + cres_bytes(cres_view(*result)));
        },
        ContractResult::Int(i) => {
            data.push(2);
            write_leb128_i64(data, *i);
            assert(data@ =~= old(data)@ + cres_bytes(cres_view(*result)));
        },
        ContractResult::Float(bits) => {
            data.push(3);
            write_u64_le(data, *bits);
            assert(data@ =~= old(data)@ + cres_bytes(cres_view(*result)));
        },
        ContractResult::Tensor { data: tdata, shape } => {
            data.push(4);
            write_len_prefix(data, shape.len());
            let ghost after_count = data@;
            let mut i: usize = 0;
            while i < shape.len()
                invariant
                    i <= shape@.len(),
                    data@ == after_count + dims_leb_bytes(shape@.take(i as int)),
                decreases shape@.len() - i,
            {
                write_len_prefix(data, shape[i]);
                proof {
                    assert(shape@.take(i as int + 1).drop_last() =~= shape@.take(i as int));
                    assert(shape@.take(i as int + 1).last() == shape@[i as int]);
                    assert(data@ =~= after_count + dims_leb_bytes(shape@.take(i as int + 1)));
                }
                i = i + 1;
            }
            proof {
                assert(shape@.take(shape@.len() as int) =~= shape@);
            }
            write_len_prefix(data, tdata.len());
            let ghost after_dlen = data@;
            let mut e: usize = 0;
            while e < tdata.len()
                invariant
                    e <= tdata@.len(),
                    data@ == after_dlen + elems_le_bytes(tdata@.take(e as int)),
                decreases tdata@.len() - e,
            {
                write_u32_le(data, tdata[e]);
                proof {
                    assert(tdata@.take(e as int + 1).drop_last() =~= tdata@.take(e as int));
                    assert(tdata@.take(e as int + 1).last() == tdata@[e as int]);
                    assert(data@ =~= after_dlen + elems_le_bytes(tdata@.take(e as int + 1)));
                }
                e = e + 1;
            }
            proof {
                assert(tdata@.take(tdata@.len() as int) =~= tdata@);
                assert(data@ =~= old(data)@ + cres_bytes(cres_view(*result)));
            }
        },
        ContractResult::Handle(h) => {
            data.push(5);
            write_bytes(data, h.as_slice());
            assert(data@ =~= old(data)@ + cres_bytes(cres_view(*result)));
        },
        ContractResult::Error(msg) => {
            data.push(6);
            write_len_prefix(data, msg.as_str().len());
            write_str_bytes(data, msg.as_str());
            assert(data@ =~= old(data)@ + cres_bytes(cres_view(*result)));
        },
    }
}

/// Serialize a result list as a success response.
#[verifier::loop_isolation(false)]
pub fn serialize_results(results: &Vec<ContractResult>) -> (r: Vec<u8>)
    ensures
        r@ == results_response_bytes(cress_view(results@)),
{
    proof {
        lemma_cress_view_len(results@);
    }
    let ghost rv = cress_view(results@);
    let mut data: Vec<u8> = Vec::new();
    data.push(0);
    write_len_prefix(&mut data, results.len());
    let ghost prefix0 = data@;
    let mut i: usize = 0;
    while i < results.len()
        invariant
            i <= results@.len(),
            rv == cress_view(results@),
            rv.len() == results@.len(),
            forall|k: int| 0 <= k < rv.len() ==> #[trigger] rv[k] == cres_view(results@[k]),
            data@ == prefix0 + cres_list_bytes(rv.take(i as int)),
        decreases results@.len() - i,
    {
        serialize_result(&mut data, &results[i]);
        proof {
            assert(rv.take(i as int + 1).drop_last() =~= rv.take(i as int));
            assert(rv.take(i as int + 1).last() == rv[i as int]);
            assert(data@ =~= prefix0 + cres_list_bytes(rv.take(i as int + 1)));
        }
        i = i + 1;
    }
    proof {
        assert(rv.take(rv.len() as int) =~= rv);
        assert(data@ =~= results_response_bytes(rv));
    }
    data
}

/// Serialize a dispatch failure as an error response.
pub fn serialize_error(error: &LCBError) -> (r: Vec<u8>)
    ensures
        r@ == error_response_bytes(exec_err_chars(*error)),
{
    let msg = error.message();
    let mut data: Vec<u8> = Vec::new();
    data.push(1);
    write_len_prefix(&mut data, msg.as_str().len());
    write_str_bytes(&mut data, msg.as_str());
    proof {
        assert(data@ =~= error_response_bytes(exec_err_chars(*error)));
    }
    data
}

/// Cumulative service counters, grown while the service runs.
pub struct ServiceStats {
    pub batches_processed: u64,
    pub instructions_executed: u64,
    pub total_time_ms: u64,
    pub errors: u64,
}

pub open spec fn sat_add_u64(a: u64, b: nat) -> u64 {
    if a + b <= u64::MAX {
        (a + b) as u64
    } else {
        u64::MAX
    }
}

fn sat_add_u64_exec(a: u64, b: u64) -> (r: u64)
    ensures
        r == sat_add_u64(a, b as nat),
{
    if a <= u64::MAX - b {
        a + b
    } else {
        u64::MAX
    }
}

/// The batch execution service: parses a request body, runs it through
/// the dispatcher against a compute backend, and frames the response.
/// The socket loop that feeds it lives with the caller.
pub struct LCBService {
    config: ServiceConfig,
    executor: LCBExecutor,
    stats: ServiceStats,
}

impl LCBService {
    pub closed spec fn spec_config(&self) -> ServiceConfig {
        self.config
    }

    pub closed spec fn spec_stats(&self) -> ServiceStats {
        self.stats
    }

    pub closed spec fn spec_executor_stats(&self) -> crate::executor::ExecutionStats {
        self.executor.spec_stats()
    }

    /// Create a service with the given configuration and fresh counters.
    pub fn new(config: ServiceConfig) -> (r: Self)
        ensures
            r.spec_config() == config,
            r.spec_stats().batches_processed == 0,
            r.spec_stats().instructions_executed == 0,
            r.spec_stats().total_time_ms == 0,
            r.spec_stats().errors == 0,
    {
        LCBService {
            config,
            executor: LCBExecutor::new(),
            stats: ServiceStats {
                batches_processed: 0,
                instructions_executed: 0,
                total_time_ms: 0,
                errors: 0,
            },
        }
    }

    /// Read the configuration.
    pub fn config(&self) -> (r: &ServiceConfig)
        ensures
            *r == self.spec_config(),
    {
        &self.config
    }

    /// Read the counters.
    pub fn stats(&self) -> (r: &ServiceStats)
        ensures
            *r == self.spec_stats(),
    {
        &self.stats
    }

    /// Read the executor's own counters.
    pub fn executor_stats(&self) -> (r: &crate::executor::ExecutionStats)
        ensures
            *r == self.spec_executor_stats(),
    {
        self.executor.stats()
    }

    /// Record wall time spent on a request, as measured at the socket:
    /// both the service's counter and the executor's move by it.
    pub fn add_time_ms(&mut self, ms: u64)
        ensures
            final(self).spec_stats().total_time_ms == sat_add_u64(
                old(self).spec_stats().total_time_ms,
                ms as nat,
            ),
            final(self).spec_stats().batches_processed == old(
                self,
            ).spec_stats().batches_processed,
            final(self).spec_stats().instructions_executed == old(
                self,
            ).spec_stats().instructions_executed,
            final(self).spec_stats().errors == old(self).spec_stats().errors,
            final(self).spec_executor_stats().total_time_ms == sat_add_u64(
                old(self).spec_executor_stats().total_time_ms,
                ms as nat,
            ),
            final(self).spec_executor_stats().instructions_executed == old(
                self,
            ).spec_executor_stats().instructions_executed,
            final(self).spec_executor_stats().contracts_dispatched@ == old(
                self,
            ).spec_executor_stats().contracts_dispatched@,
            final(self).spec_executor_stats().chain_operations == old(
                self,
            ).spec_executor_stats().chain_operations,
            final(self).spec_config() == old(self).spec_config(),
    {
        self.stats.total_time_ms = sat_add_u64_exec(self.stats.total_time_ms, ms);
        self.executor.add_time_ms(ms);
    }

    /// Record a connection-level failure; the service itself continues.
    pub fn record_error(&mut self)
        ensures
            final(self).spec_stats().errors == sat_add_u64(old(self).spec_stats().errors, 1),
            final(self).spec_stats().batches_processed == old(
                self,
            ).spec_stats().batches_processed,
            final(self).spec_stats().instructions_executed == old(
                self,
            ).spec_stats().instructions_executed,
            final(self).spec_stats().total_time_ms == old(self).spec_stats().total_time_ms,
            final(self).spec_config() == old(self).spec_config(),
    {
        self.stats.errors = sat_add_u64_exec(self.stats.errors, 1);
    }

    /// Parse and execute one request body.  A body that does not parse
    /// is rejected whole, as an execution failure naming the parse
    /// error; counters move only for parsed batches.
    pub fn execute_batch<K: ComputeBackend>(&mut self, data: &[u8], backend: &mut K) -> (r: Result<
        Vec<ContractResult>,
        LCBError,
    >)
        ensures
            final(self).spec_config() == old(self).spec_config(),
            (match spec_parse_batch(data@) {
                Err(k) => {
                    &&& r matches Err(e) && matches_exec_err(e, ExecErrV::Failed)
                        && exec_err_chars(e) == parse_failure_chars(k)
                    &&& final(self).spec_stats() == old(self).spec_stats()
                },
                Ok(bv) => {
                    &&& final(self).spec_stats().batches_processed == sat_add_u64(
                        old(self).spec_stats().batches_processed,
                        1,
                    )
                    &&& final(self).spec_stats().instructions_executed == sat_add_u64(
                        old(self).spec_stats().instructions_executed,
                        bv.instructions.len(),
                    )
                    &&& final(self).spec_stats().total_time_ms == old(
                        self,
                    ).spec_stats().total_time_ms
                    &&& final(self).spec_stats().errors == old(self).spec_stats().errors
                    &&& (match r {
                        Ok(results) => results@.len() == bv.instructions.len()
                            && batch_trace_ok(bv.instructions, cress_view(results@)),
                        Err(e) => exists|partial: Seq<CResV>|
                            {
                                &&& #[trigger] batch_trace_ok(bv.instructions, partial)
                                &&& partial.len() < bv.instructions.len()
                                &&& ((spec_instr_outcome(
                                    bv.instructions[partial.len() as int],
                                    partial,
                                    partial.len() as int,
                                ) matches Err(v) && matches_exec_err(e, v)) || (spec_instr_outcome(
                                    bv.instructions[partial.len() as int],
                                    partial,
                                    partial.len() as int,
                                ) matches Ok(o) && is_backend_outcome(o) && matches_exec_err(
                                    e,
                                    ExecErrV::Failed,
                                )))
                            },
                    })
                },
            }),
    {
        let batch = match parse_batch(data) {
            Ok(b) => b,
            Err(pe) => {
                let mut m = "Parse error: ".to_owned();
                let pm = pe.message();
                crate::codec::append_str(&mut m, pm.as_str());
                proof {
                    lemma_parse_err_chars_of_kind(pe, spec_parse_batch(data@)->Err_0);
                }
                return Err(LCBError::ExecutionFailed(m));
            },
        };
        self.stats.batches_processed = sat_add_u64_exec(self.stats.batches_processed, 1);
        let n: usize = batch.instructions.len();
        proof {
            crate::batch::lemma_instrs_view_len(batch.instructions@);
        }
        self.stats.instructions_executed = sat_add_u64_exec(
            self.stats.instructions_executed,
            n as u64,
        );
        self.executor.execute_batch(&batch, backend)
    }

    /// Turn one request body into one response body.  A body that does
    /// not parse gets the error frame naming the parse failure.  A
    /// parsed batch either answers with the success frame carrying a
    /// full valid trace of results, or with the error frame of a
    /// dispatch error at which some valid shorter trace's next
    /// instruction provably fails; counters move exactly as
    /// `execute_batch` moves them.
    #[verifier::rlimit(100)]
    pub fn process_request<K: ComputeBackend>(&mut self, data: &[u8], backend: &mut K) -> (r: Vec<
        u8,
    >)
        ensures
            final(self).spec_config() == old(self).spec_config(),
            (match spec_parse_batch(data@) {
                Err(k) => {
                    &&& r@ == error_response_bytes(parse_failure_chars(k))
                    &&& final(self).spec_stats() == old(self).spec_stats()
                },
                Ok(bv) => {
                    &&& final(self).spec_stats().batches_processed == sat_add_u64(
                        old(self).spec_stats().batches_processed,
                        1,
                    )
                    &&& final(self).spec_stats().instructions_executed == sat_add_u64(
                        old(self).spec_stats().instructions_executed,
                        bv.instructions.len(),
                    )
                    &&& final(self).spec_stats().total_time_ms == old(
                        self,
                    ).spec_stats().total_time_ms
                    &&& final(self).spec_stats().errors == old(self).spec_stats().errors
                    &&& ((exists|results: Seq<CResV>|
                        {
                            &&& r@ == #[trigger] results_response_bytes(results)
                            &&& batch_trace_ok(bv.instructions, results)
                            &&& results.len() == bv.instructions.len()
                        }) || (exists|e2: LCBError, partial2: Seq<CResV>|
                        #![trigger error_response_bytes(exec_err_chars(e2)), batch_trace_ok(bv.instructions, partial2)]
                        {
                            &&& r@ == error_response_bytes(exec_err_chars(e2))
                            &&& batch_trace_ok(bv.instructions, partial2)
                            &&& partial2.len() < bv.instructions.len()
                            &&& ((spec_instr_outcome(
                                bv.instructions[partial2.len() as int],
                                partial2,
                                partial2.len() as int,
                            ) matches Err(v) && matches_exec_err(e2, v)) || (spec_instr_outcome(
                                bv.instructions[partial2.len() as int],
                                partial2,
                                partial2.len() as int,
                            ) matches Ok(o) && is_backend_outcome(o) && matches_exec_err(
                                e2,
                                ExecErrV::Failed,
                            )))
                        }))
                },
            }),
    {
        match self.execute_batch(data, backend) {
            Ok(results) => {
                let out = serialize_results(&results);
                proof {
                    assert(out@ == results_response_bytes(cress_view(results@)));
                    if spec_parse_batch(data@) is Ok {
                        let bv = spec_parse_batch(data@)->Ok_0;
                        assert(batch_trace_ok(bv.instructions, cress_view(results@)));
                        assert(cress_view(results@).len() == bv.instructions.len()) by {
                            lemma_cress_view_len(results@);
                        }
                        assert(exists|res2: Seq<CResV>|
                            {
                                &&& out@ == #[trigger] results_response_bytes(res2)
                                &&& batch_trace_ok(bv.instructions, res2)
                                &&& res2.len() == bv.instructions.len()
                            });
                    }
                }
                out
            },
            Err(e) => {
                let out = serialize_error(&e);
                proof {
                    assert(out@ == error_response_bytes(exec_err_chars(e)));
                    if spec_parse_batch(data@) is Ok {
                        let bv = spec_parse_batch(data@)->Ok_0;
                        let partial = choose|partial: Seq<CResV>|
                            {
                                &&& #[trigger] batch_trace_ok(bv.instructions, partial)
                                &&& partial.len() < bv.instructions.len()
                                &&& ((spec_instr_outcome(
                                    bv.instructions[partial.len() as int],
                                    partial,
                                    partial.len() as int,
                                ) matches Err(v) && matches_exec_err(e, v)) || (spec_instr_outcome(
                                    bv.instructions[partial.len() as int],
                                    partial,
                                    partial.len() as int,
                                ) matches Ok(o) && is_backend_outcome(o) && matches_exec_err(
                                    e,
                                    ExecErrV::Failed,
                                )))
                            };
                        assert(batch_trace_ok(bv.instructions, partial) && partial.len()
                            < bv.instructions.len());
                        assert(out@ == error_response_bytes(exec_err_chars(e)));
                        assert(exists|e2: LCBError, partial2: Seq<CResV>|
                            #![trigger error_response_bytes(exec_err_chars(e2)), batch_trace_ok(bv.instructions, partial2)]
                            {
                                &&& out@ == error_response_bytes(exec_err_chars(e2))
                                &&& batch_trace_ok(bv.instructions, partial2)
                                &&& partial2.len() < bv.instructions.len()
                                &&& ((spec_instr_outcome(
                                    bv.instructions[partial2.len() as int],
                                    partial2,
                                    partial2.len() as int,
                                ) matches Err(v) && matches_exec_err(e2, v)) || (spec_instr_outcome(
                                    bv.instructions[partial2.len() as int],
                                    partial2,
                                    partial2.len() as int,
                                ) matches Ok(o) && is_backend_outcome(o) && matches_exec_err(
                                    e2,
                                    ExecErrV::Failed,
                                )))
                            });
                    }
                }
                out
            },
        }
    }
}

} // verus!
