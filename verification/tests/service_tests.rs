use hlx_lcb::batch::LCBBuilder;
use hlx_lcb::executor::{ComputeBackend, ContractResult, LCBError, LCBExecutor};
use hlx_lcb::service::{
    admit_request, serialize_error, serialize_results, LCBService, ServiceConfig,
};
use hlx_lcb::value::Param;

struct NoopBackend;

impl ComputeBackend for NoopBackend {
    fn gemm(
        &mut self,
        _a: &Vec<u32>,
        _b: &Vec<u32>,
        m: usize,
        _k: usize,
        n: usize,
        _transpose_a: bool,
        _transpose_b: bool,
    ) -> Vec<u32> {
        vec![0u32; m * n]
    }

    fn gelu(&mut self, input: &Vec<u32>) -> Vec<u32> {
        input.clone()
    }

    fn softmax(&mut self, input: &Vec<u32>, _num_rows: usize, _row_size: usize) -> Vec<u32> {
        input.clone()
    }
}

#[test]
fn test_service_config_default() {
    let config = ServiceConfig::default();
    assert_eq!(config.socket_path, "/tmp/hlx_vulkan.sock");
    assert_eq!(config.max_batch_size, 16 * 1024 * 1024);
}

#[test]
fn test_serialize_results() {
    let results = vec![
        ContractResult::Bool(true),
        ContractResult::Int(42),
        ContractResult::Float(3.14f64.to_bits()),
    ];

    let serialized = serialize_results(&results);

    // Should start with success byte (0) and count (3)
    assert_eq!(serialized[0], 0); // Success
    assert_eq!(serialized[1], 3); // 3 results
}

#[test]
fn test_serialize_error() {
    let error = LCBError::UnknownContract(999);
    let serialized = serialize_error(&error);

    // Should start with error byte (1)
    assert_eq!(serialized[0], 1);
}

#[test]
fn test_serialize_error_message_text() {
    let error = LCBError::UnknownContract(999);
    let serialized = serialize_error(&error);
    assert_eq!(serialized[0], 1);
    // One length byte, then the message text.
    let len = serialized[1] as usize;
    let msg = std::str::from_utf8(&serialized[2..2 + len]).unwrap();
    assert_eq!(msg, "Unknown contract ID: 999");
}

#[test]
fn test_admission_control() {
    let config = ServiceConfig::default();
    // A declared length over the configured maximum is rejected before
    // the body is read; anything at or under it is admitted.
    assert!(!admit_request(config.max_batch_size + 1, config.max_batch_size));
    assert!(admit_request(config.max_batch_size, config.max_batch_size));
    assert!(admit_request(0, config.max_batch_size));
    assert!(!admit_request(usize::MAX, config.max_batch_size));
}

#[test]
fn test_process_request_success() {
    let params = vec![("mode".to_string(), Param::Text("validate".to_string()))];
    let request = LCBBuilder::new().add_instruction(800, params).build();

    let mut service = LCBService::new(ServiceConfig::default());
    let mut backend = NoopBackend;
    let response = service.process_request(&request, &mut backend);

    // Success discriminator, one result, the boolean true.
    assert_eq!(response[0], 0);
    assert_eq!(response[1], 1);
    assert_eq!(response[2], 1);
    assert_eq!(response[3], 1);
    assert_eq!(service.stats().batches_processed, 1);
    assert_eq!(service.stats().instructions_executed, 1);
}

#[test]
fn test_process_request_parse_error() {
    let mut service = LCBService::new(ServiceConfig::default());
    let mut backend = NoopBackend;
    let response = service.process_request(&[1, 2, 3], &mut backend);

    assert_eq!(response[0], 1);
    let len = response[1] as usize;
    let msg = std::str::from_utf8(&response[2..2 + len]).unwrap();
    assert_eq!(msg, "Execution failed: Parse error: Unexpected end of input");
    // A body that does not parse moves no batch counters.
    assert_eq!(service.stats().batches_processed, 0);
    assert_eq!(service.stats().instructions_executed, 0);
}

#[test]
fn test_process_request_dispatch_error() {
    let request = LCBBuilder::new().add_instruction(65535, vec![]).build();

    let mut service = LCBService::new(ServiceConfig::default());
    let mut backend = NoopBackend;
    let response = service.process_request(&request, &mut backend);

    assert_eq!(response[0], 1);
    let len = response[1] as usize;
    let msg = std::str::from_utf8(&response[2..2 + len]).unwrap();
    assert_eq!(msg, "Unknown contract ID: 65535");
    // The batch parsed, so it was counted even though it failed.
    assert_eq!(service.stats().batches_processed, 1);
    assert_eq!(service.stats().instructions_executed, 1);
}

#[test]
fn test_service_time_and_error_counters() {
    let mut service = LCBService::new(ServiceConfig::default());
    service.add_time_ms(5);
    service.add_time_ms(7);
    service.record_error();
    assert_eq!(service.stats().total_time_ms, 12);
    assert_eq!(service.executor_stats().total_time_ms, 12);
    assert_eq!(service.stats().errors, 1);
}

#[test]
fn test_executor_rejects_missized_backend_result() {
    // A backend that hands back the wrong number of elements is caught,
    // not cached.
    struct BadBackend;

    impl ComputeBackend for BadBackend {
        fn gemm(
            &mut self,
            _a: &Vec<u32>,
            _b: &Vec<u32>,
            _m: usize,
            _k: usize,
            _n: usize,
            _transpose_a: bool,
            _transpose_b: bool,
        ) -> Vec<u32> {
            vec![0u32; 1]
        }

        fn gelu(&mut self, _input: &Vec<u32>) -> Vec<u32> {
            Vec::new()
        }

        fn softmax(&mut self, input: &Vec<u32>, _num_rows: usize, _row_size: usize) -> Vec<u32> {
            input.clone()
        }
    }

    let mut bytes = Vec::new();
    bytes.push(1u8);
    bytes.extend_from_slice(&2u32.to_le_bytes());
    for v in [1.0f32, 2.0] {
        bytes.extend_from_slice(&v.to_le_bytes());
    }
    let params = vec![("input".to_string(), Param::Bytes(bytes))];
    let request = LCBBuilder::new().add_instruction(908, params).build();
    let batch = hlx_lcb::batch::parse_batch(&request).unwrap();

    let mut executor = LCBExecutor::new();
    let mut backend = BadBackend;
    match executor.execute_batch(&batch, &mut backend) {
        Err(LCBError::ExecutionFailed(_)) => {}
        other => panic!("expected ExecutionFailed, got {:?}", other),
    }
}
