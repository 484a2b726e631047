//! Core of a binary instruction-batch protocol: a varint/primitive codec, a
//! tagged value model, a signed batch codec, a contract dispatcher with
//! result chaining, and the request/response framing of the socket service.

use vstd::prelude::*;

pub mod codec;
pub mod text;
pub mod value;
pub mod batch;
pub mod contract_ids;
pub mod executor;
pub mod service;
pub mod tokenizer;
pub mod spirv;

verus! {

/// Magic number that opens every serialized batch ("LCB1" in little-endian).
pub const LCB_MAGIC: u32 = 0x3142434C;

/// Protocol version this crate understands.
pub const LCB_VERSION: u8 = 1;

} // verus!
