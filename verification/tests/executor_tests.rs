use hlx_lcb::batch::{parse_batch, LCBBuilder};
use hlx_lcb::executor::{ComputeBackend, ContractResult, LCBError, LCBExecutor};
use hlx_lcb::value::Param;

/// A reference backend doing the float math on the CPU, mirroring the
/// kernels the dispatcher is specified against.
struct CpuBackend;

impl ComputeBackend for CpuBackend {
    fn gemm(
        &mut self,
        a: &Vec<u32>,
        b: &Vec<u32>,
        m: usize,
        k: usize,
        n: usize,
        transpose_a: bool,
        transpose_b: bool,
    ) -> Vec<u32> {
        let mut c = vec![0.0f32; m * n];
        for i in 0..m {
            for j in 0..n {
                let mut sum = 0.0f32;
                for kk in 0..k {
                    let a_idx = if transpose_a { kk * m + i } else { i * k + kk };
                    let b_idx = if transpose_b { j * k + kk } else { kk * n + j };
                    sum += f32::from_bits(a[a_idx]) * f32::from_bits(b[b_idx]);
                }
                c[i * n + j] = sum;
            }
        }
        c.into_iter().map(f32::to_bits).collect()
    }

    fn gelu(&mut self, input: &Vec<u32>) -> Vec<u32> {
        const SQRT_2_OVER_PI: f32 = 0.7978845608;
        const GELU_COEF: f32 = 0.044715;
        input
            .iter()
            .map(|&bits| {
                let x = f32::from_bits(bits);
                let inner = SQRT_2_OVER_PI * (x + GELU_COEF * x * x * x);
                (0.5 * x * (1.0 + inner.tanh())).to_bits()
            })
            .collect()
    }

    fn softmax(&mut self, input: &Vec<u32>, num_rows: usize, row_size: usize) -> Vec<u32> {
        let vals: Vec<f32> = input.iter().map(|&b| f32::from_bits(b)).collect();
        let mut out = vec![0.0f32; vals.len()];
        for row in 0..num_rows {
            let offset = row * row_size;
            let row_data = &vals[offset..offset + row_size];
            let max_val = row_data.iter().cloned().fold(f32::NEG_INFINITY, f32::max);
            let exp_vals: Vec<f32> = row_data.iter().map(|&x| (x - max_val).exp()).collect();
            let sum: f32 = exp_vals.iter().sum();
            for (i, &e) in exp_vals.iter().enumerate() {
                out[offset + i] = e / sum;
            }
        }
        out.into_iter().map(f32::to_bits).collect()
    }
}

fn make_tensor_bytes(shape: &[usize], data: &[f32]) -> Vec<u8> {
    let mut bytes = Vec::new();
    bytes.push(shape.len() as u8);
    for &dim in shape {
        bytes.extend_from_slice(&(dim as u32).to_le_bytes());
    }
    for &val in data {
        bytes.extend_from_slice(&val.to_le_bytes());
    }
    bytes
}

#[test]
fn test_executor_dispatch() {
    let params = vec![("mode".to_string(), Param::Text("validate".to_string()))];

    let batch_bytes = LCBBuilder::new().add_instruction(800, params).build();

    let batch = parse_batch(&batch_bytes).unwrap();
    let mut executor = LCBExecutor::new();
    let mut backend = CpuBackend;
    let results = executor.execute_batch(&batch, &mut backend).unwrap();

    assert_eq!(results.len(), 1);
    match &results[0] {
        ContractResult::Bool(true) => {}
        other => panic!("Expected Bool(true), got {:?}", other),
    }
}

#[test]
fn test_tensor_gemm_contract() {
    // 2x2 GEMM: [[1,2],[3,4]] @ [[5,6],[7,8]] = [[19,22],[43,50]]
    let a_data = vec![1.0f32, 2.0, 3.0, 4.0];
    let b_data = vec![5.0f32, 6.0, 7.0, 8.0];

    let params = vec![
        ("a".to_string(), Param::Bytes(make_tensor_bytes(&[2, 2], &a_data))),
        ("b".to_string(), Param::Bytes(make_tensor_bytes(&[2, 2], &b_data))),
        ("m".to_string(), Param::Int(2)),
        ("k".to_string(), Param::Int(2)),
        ("n".to_string(), Param::Int(2)),
        ("transpose_a".to_string(), Param::Bool(false)),
        ("transpose_b".to_string(), Param::Bool(false)),
    ];

    let batch_bytes = LCBBuilder::new().add_instruction(906, params).build();

    let batch = parse_batch(&batch_bytes).unwrap();
    let mut executor = LCBExecutor::new();
    let mut backend = CpuBackend;
    let results = executor.execute_batch(&batch, &mut backend).unwrap();

    match &results[0] {
        ContractResult::Tensor { data, shape } => {
            assert_eq!(shape, &vec![2, 2]);
            assert_eq!(data.len(), 4);
            // Check values: [[19,22],[43,50]]
            assert!((f32::from_bits(data[0]) - 19.0).abs() < 1e-6);
            assert!((f32::from_bits(data[1]) - 22.0).abs() < 1e-6);
            assert!((f32::from_bits(data[2]) - 43.0).abs() < 1e-6);
            assert!((f32::from_bits(data[3]) - 50.0).abs() < 1e-6);
        }
        other => panic!("Expected Tensor, got {:?}", other),
    }
}

#[test]
fn test_chain_error_fails_whole_batch() {
    // Three instructions; the one at position 2 chains from index 5,
    // which no earlier instruction produced: the batch fails as a unit
    // with the failing position, and no results come back.
    let chained = vec![("x".to_string(), Param::ChainFrom(5))];
    let batch_bytes = LCBBuilder::new()
        .add_instruction(801, vec![])
        .add_instruction(801, vec![])
        .add_instruction(801, chained)
        .build();

    let batch = parse_batch(&batch_bytes).unwrap();
    let mut executor = LCBExecutor::new();
    let mut backend = CpuBackend;
    match executor.execute_batch(&batch, &mut backend) {
        Err(LCBError::ChainError { index: 2, .. }) => {}
        other => panic!("expected ChainError at index 2, got {:?}", other),
    }
    // Only the two completed instructions were counted.
    assert_eq!(executor.stats().instructions_executed, 2);
}

#[test]
fn test_unknown_contract() {
    let batch_bytes = LCBBuilder::new().add_instruction(65535, vec![]).build();
    let batch = parse_batch(&batch_bytes).unwrap();
    let mut executor = LCBExecutor::new();
    let mut backend = CpuBackend;
    match executor.execute_batch(&batch, &mut backend) {
        Err(LCBError::UnknownContract(65535)) => {}
        other => panic!("expected UnknownContract(65535), got {:?}", other),
    }
}

#[test]
fn test_missing_and_invalid_params() {
    // 800 without its mode parameter.
    let batch_bytes = LCBBuilder::new().add_instruction(800, vec![]).build();
    let batch = parse_batch(&batch_bytes).unwrap();
    let mut executor = LCBExecutor::new();
    let mut backend = CpuBackend;
    match executor.execute_batch(&batch, &mut backend) {
        Err(LCBError::MissingParam(name)) => assert_eq!(name, "mode"),
        other => panic!("expected MissingParam, got {:?}", other),
    }

    // 800 with a mode of the wrong type.
    let params = vec![("mode".to_string(), Param::Int(1))];
    let batch_bytes = LCBBuilder::new().add_instruction(800, params).build();
    let batch = parse_batch(&batch_bytes).unwrap();
    match executor.execute_batch(&batch, &mut backend) {
        Err(LCBError::InvalidParam { name, .. }) => assert_eq!(name, "mode"),
        other => panic!("expected InvalidParam, got {:?}", other),
    }

    // 906 with a mismatched matrix size.
    let params = vec![
        ("a".to_string(), Param::Bytes(make_tensor_bytes(&[2, 2], &[1.0, 2.0, 3.0, 4.0]))),
        ("b".to_string(), Param::Bytes(make_tensor_bytes(&[2, 2], &[1.0, 2.0, 3.0, 4.0]))),
        ("m".to_string(), Param::Int(3)),
        ("k".to_string(), Param::Int(2)),
        ("n".to_string(), Param::Int(2)),
    ];
    let batch_bytes = LCBBuilder::new().add_instruction(906, params).build();
    let batch = parse_batch(&batch_bytes).unwrap();
    match executor.execute_batch(&batch, &mut backend) {
        Err(LCBError::InvalidParam { name, .. }) => assert_eq!(name, "a"),
        other => panic!("expected InvalidParam on a, got {:?}", other),
    }
}

#[test]
fn test_chain_previous_feeds_next_instruction() {
    // A small zero tensor from the forward placeholder, activated
    // through the chained input: the activation of zero is zero.
    let first = vec![
        ("seq_len".to_string(), Param::Int(2)),
        ("vocab_size".to_string(), Param::Int(3)),
    ];
    let second = vec![("input".to_string(), Param::ChainPrevious)];
    let batch_bytes = LCBBuilder::new()
        .add_instruction(903, first)
        .add_instruction(908, second)
        .build();

    let batch = parse_batch(&batch_bytes).unwrap();
    let mut executor = LCBExecutor::new();
    let mut backend = CpuBackend;
    let results = executor.execute_batch(&batch, &mut backend).unwrap();
    assert_eq!(results.len(), 2);
    match &results[1] {
        ContractResult::Tensor { data, shape } => {
            assert_eq!(shape, &vec![2, 3]);
            assert_eq!(data.len(), 6);
            for &bits in data {
                assert!(f32::from_bits(bits).abs() < 1e-6);
            }
        }
        other => panic!("Expected Tensor, got {:?}", other),
    }
    assert_eq!(executor.stats().chain_operations, 1);
    assert_eq!(executor.stats().instructions_executed, 2);
    assert_eq!(executor.stats().contracts_dispatched.get(&903), Some(&1));
    assert_eq!(executor.stats().contracts_dispatched.get(&908), Some(&1));
}

#[test]
fn test_softmax_rows_sum_to_one() {
    let input = vec![1.0f32, 2.0, 3.0, 4.0];
    let params = vec![
        ("input".to_string(), Param::Bytes(make_tensor_bytes(&[4], &input))),
        ("num_rows".to_string(), Param::Int(1)),
        ("row_size".to_string(), Param::Int(4)),
    ];
    let batch_bytes = LCBBuilder::new().add_instruction(909, params).build();
    let batch = parse_batch(&batch_bytes).unwrap();
    let mut executor = LCBExecutor::new();
    let mut backend = CpuBackend;
    let results = executor.execute_batch(&batch, &mut backend).unwrap();
    match &results[0] {
        ContractResult::Tensor { data, shape } => {
            assert_eq!(shape, &vec![4]);
            let sum: f32 = data.iter().map(|&b| f32::from_bits(b)).sum();
            assert!((sum - 1.0).abs() < 1e-6);
        }
        other => panic!("Expected Tensor, got {:?}", other),
    }
}

#[test]
fn test_placeholder_contracts() {
    let batch_bytes = LCBBuilder::new()
        .add_instruction(801, vec![])
        .add_instruction(802, vec![])
        .add_instruction(900, vec![])
        .add_instruction(904, vec![])
        .add_instruction(910, vec![])
        .build();
    let batch = parse_batch(&batch_bytes).unwrap();
    let mut executor = LCBExecutor::new();
    let mut backend = CpuBackend;
    let results = executor.execute_batch(&batch, &mut backend).unwrap();
    assert_eq!(results.len(), 5);
    assert_eq!(results[0], ContractResult::Null);
    assert_eq!(results[1], ContractResult::Bool(true));
    assert_eq!(results[2], ContractResult::Null);
    assert_eq!(results[3], ContractResult::Handle(vec![0u8; 32]));
    assert_eq!(results[4], ContractResult::Float(0));
}
