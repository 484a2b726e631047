use hlx_lcb::batch::{parse_batch, LCBBuilder};
use sha2::{Digest, Sha256};
use hlx_lcb::codec::ParseError;
use hlx_lcb::value::Param;

fn text(s: &str) -> Param {
    Param::Text(s.to_string())
}

#[test]
fn test_batch_roundtrip() {
    let params = vec![
        ("count".to_string(), Param::Int(42)),
        ("name".to_string(), text("test")),
    ];

    let batch_bytes = LCBBuilder::new().add_instruction(906, params).build();

    let batch = parse_batch(&batch_bytes).unwrap();
    assert_eq!(batch.instructions.len(), 1);
    assert_eq!(batch.instructions[0].contract_id, 906);
    assert_eq!(batch.instructions[0].params.len(), 2);
    assert_eq!(batch.instructions[0].params[0].0, "count");
    assert_eq!(batch.instructions[0].params[0].1, Param::Int(42));
    assert_eq!(batch.instructions[0].params[1].0, "name");
    assert_eq!(batch.instructions[0].params[1].1, text("test"));
}

#[test]
fn test_batch_roundtrip_every_variant() {
    let nested = Param::Object(vec![
        ("inner".to_string(), Param::Array(vec![Param::Int(-7), Param::Null])),
        ("deep".to_string(), Param::Object(vec![("x".to_string(), Param::Bool(false))])),
    ]);
    let params = vec![
        ("null".to_string(), Param::Null),
        ("flag".to_string(), Param::Bool(true)),
        ("int".to_string(), Param::Int(-123456789)),
        ("float".to_string(), Param::Float(3.25f64.to_bits())),
        ("text".to_string(), text("héllo, wörld")),
        ("bytes".to_string(), Param::Bytes(vec![0, 1, 2, 255])),
        ("arr".to_string(), Param::Array(vec![Param::Int(1), text("two"), nested])),
        ("handle".to_string(), Param::Handle(vec![9u8; 32])),
    ];
    let original = params.clone_params();

    let batch_bytes = LCBBuilder::new().add_instruction(800, params).build();
    let batch = parse_batch(&batch_bytes).unwrap();

    assert_eq!(batch.instructions.len(), 1);
    assert_eq!(batch.instructions[0].contract_id, 800);
    assert_eq!(batch.instructions[0].params, original);
    assert_eq!(batch.instructions[0].chain_from, None);
}

#[test]
fn test_batch_roundtrip_chain_params() {
    let params = vec![
        ("a".to_string(), Param::ChainPrevious),
        ("b".to_string(), Param::ChainFrom(3)),
    ];
    let batch_bytes = LCBBuilder::new()
        .add_instruction(801, vec![])
        .add_instruction(801, params)
        .build();
    let batch = parse_batch(&batch_bytes).unwrap();
    assert_eq!(batch.instructions.len(), 2);
    assert_eq!(batch.instructions[0].chain_from, None);
    assert_eq!(batch.instructions[1].chain_from, Some(3));
    assert_eq!(batch.instructions[1].params[0].1, Param::ChainPrevious);
    assert_eq!(batch.instructions[1].params[1].1, Param::ChainFrom(3));
}

#[test]
fn test_parse_empty_batch() {
    let batch_bytes = LCBBuilder::new().build();
    let batch = parse_batch(&batch_bytes).unwrap();
    assert_eq!(batch.instructions.len(), 0);
    assert_eq!(batch.version, 1);
    assert_eq!(batch.batch_id.len(), 32);
    assert_eq!(batch.signature.len(), 32);
}

#[test]
fn test_parse_rejects_bad_magic() {
    let mut bytes = LCBBuilder::new().build();
    bytes[0] ^= 0xFF;
    match parse_batch(&bytes) {
        Err(ParseError::InvalidMagic(_)) => {}
        other => panic!("expected InvalidMagic, got {:?}", other),
    }
}

#[test]
fn test_parse_rejects_bad_version() {
    let mut bytes = LCBBuilder::new().build();
    bytes[4] = 99;
    match parse_batch(&bytes) {
        Err(ParseError::UnsupportedVersion(99)) => {}
        other => panic!("expected UnsupportedVersion, got {:?}", other),
    }
}

#[test]
fn test_parse_rejects_truncation() {
    let bytes = LCBBuilder::new().build();
    for cut in [0usize, 3, 4, 20, bytes.len() - 1] {
        match parse_batch(&bytes[..cut]) {
            Err(_) => {}
            Ok(_) => panic!("expected truncated batch at {} to fail", cut),
        }
    }
}

#[test]
fn test_signature_enforcement() {
    let params = vec![("count".to_string(), Param::Int(42))];
    let bytes = LCBBuilder::new().add_instruction(906, params).build();

    // Flipping any single byte must make parsing fail.
    for i in 0..bytes.len() {
        let mut tampered = bytes.clone();
        tampered[i] ^= 0x01;
        assert!(parse_batch(&tampered).is_err(), "byte {} accepted", i);
    }

    // A flip inside the batch identifier leaves the structure intact, so
    // the failure is the signature check itself.
    let mut tampered = bytes.clone();
    tampered[10] ^= 0x01;
    match parse_batch(&tampered) {
        Err(ParseError::InvalidSignature) => {}
        other => panic!("expected InvalidSignature, got {:?}", other),
    }

    // So does a flip inside the stored signature.
    let mut tampered = bytes.clone();
    let last = tampered.len() - 1;
    tampered[last] ^= 0x01;
    match parse_batch(&tampered) {
        Err(ParseError::InvalidSignature) => {}
        other => panic!("expected InvalidSignature, got {:?}", other),
    }
}

#[test]
fn test_parse_rejects_bad_utf8() {
    let params = vec![("name".to_string(), text("ok"))];
    let mut bytes = LCBBuilder::new().add_instruction(800, params).build();
    // The name "name" begins right after the header (37 bytes), the
    // instruction count (1 byte), the instruction's contract id (2
    // bytes), its param count (1 byte) and the name length (1 byte).
    // Overwrite its first byte with a lone continuation byte.
    bytes[42] = 0xFF;
    match parse_batch(&bytes) {
        Err(ParseError::InvalidUtf8) => {}
        other => panic!("expected InvalidUtf8, got {:?}", other),
    }
}

/// Deep-copies a parameter list the way the library's values compare.
trait CloneParams {
    fn clone_params(&self) -> Vec<(String, Param)>;
}

impl CloneParams for Vec<(String, Param)> {
    fn clone_params(&self) -> Vec<(String, Param)> {
        self.iter().map(|(k, v)| (k.clone(), clone_param(v))).collect()
    }
}

fn clone_param(p: &Param) -> Param {
    match p {
        Param::Null => Param::Null,
        Param::Bool(b) => Param::Bool(*b),
        Param::Int(i) => Param::Int(*i),
        Param::Float(bits) => Param::Float(*bits),
        Param::Text(s) => Param::Text(s.clone()),
        Param::Bytes(b) => Param::Bytes(b.clone()),
        Param::Array(items) => Param::Array(items.iter().map(clone_param).collect()),
        Param::Object(pairs) => {
            Param::Object(pairs.iter().map(|(k, v)| (k.clone(), clone_param(v))).collect())
        }
        Param::Handle(h) => Param::Handle(h.clone()),
        Param::ChainPrevious => Param::ChainPrevious,
        Param::ChainFrom(i) => Param::ChainFrom(*i),
    }
}

#[test]
fn test_build_with_explicit_batch_id() {
    let bytes = LCBBuilder::new()
        .add_instruction(801, vec![])
        .build_with_id(vec![7u8; 32]);
    let batch = parse_batch(&bytes).unwrap();
    assert_eq!(batch.batch_id, vec![7u8; 32]);
    assert_eq!(batch.instructions.len(), 1);
}

#[test]
fn test_unknown_type_tag_names_the_tag() {
    match hlx_lcb::value::parse_param(&[11u8], 0) {
        Err(ParseError::MalformedInstruction(msg)) => {
            assert_eq!(msg, "Unknown type tag: 11");
        }
        other => panic!("expected MalformedInstruction, got {:?}", other),
    }
}

#[test]
fn test_chain_from_survives_same_name_overwrite() {
    // Hand-crafted wire input in which one name carries first a chain
    // directive, then a plain value: the map keeps the later value, but
    // the chain field is set by the directive as it was encountered.
    let mut bytes: Vec<u8> = Vec::new();
    bytes.extend_from_slice(&0x3142434Cu32.to_le_bytes()); // magic
    bytes.push(1); // version
    bytes.extend_from_slice(&[0u8; 32]); // batch id
    bytes.push(1); // instruction count
    bytes.extend_from_slice(&[0xA1, 0x06]); // contract id 801 as varint
    bytes.push(2); // param count
    bytes.push(1); // name length
    bytes.push(b'x');
    bytes.push(10); // ChainFrom tag
    bytes.push(3); // index 3
    bytes.push(1); // name length
    bytes.push(b'x');
    bytes.push(2); // Int tag
    bytes.push(1); // value 1
    let sig = Sha256::digest(&bytes);
    bytes.extend_from_slice(&sig);

    let batch = parse_batch(&bytes).unwrap();
    assert_eq!(batch.instructions.len(), 1);
    assert_eq!(batch.instructions[0].contract_id, 801);
    assert_eq!(batch.instructions[0].params.len(), 1);
    assert_eq!(batch.instructions[0].params[0].0, "x");
    assert_eq!(batch.instructions[0].params[0].1, Param::Int(1));
    assert_eq!(batch.instructions[0].chain_from, Some(3));
}
