//! The stable contract numbering: serialization/validation
//! meta-operations, backend/pipeline configuration, model-level
//! operations, and primitive tensor operations.

use vstd::prelude::*;

verus! {

pub const BINARY_SERIALIZER: u16 = 800;

pub const INSTRUCTION_PARSER: u16 = 801;

pub const TYPE_VALIDATOR: u16 = 802;

pub const DETERMINISM_VERIFIER: u16 = 803;

pub const CONTRACT_VALIDATOR: u16 = 805;

pub const ERROR_HANDLER: u16 = 806;

pub const VULKAN_SHADER: u16 = 900;

pub const COMPUTE_KERNEL: u16 = 901;

pub const PIPELINE_CONFIG: u16 = 902;

pub const TRANSFORMER_FORWARD: u16 = 903;

pub const TRANSFORMER_BACKWARD: u16 = 904;

pub const ADAM_OPTIMIZER: u16 = 905;

pub const TENSOR_GEMM: u16 = 906;

pub const TENSOR_LAYERNORM: u16 = 907;

pub const TENSOR_GELU: u16 = 908;

pub const TENSOR_SOFTMAX: u16 = 909;

pub const TENSOR_CROSS_ENTROPY: u16 = 910;

} // verus!
