use hlx_lcb::codec::{
    read_leb128_i64, read_leb128_u32, read_u32_le, read_u64_le, write_leb128_i64,
    write_leb128_u32, write_u32_le, write_u64_le,
};

#[test]
fn test_leb128_roundtrip() {
    let values = [0u32, 1, 127, 128, 16383, 16384, u32::MAX];
    for val in values {
        let mut data = Vec::new();
        write_leb128_u32(&mut data, val);

        let decoded = read_leb128_u32(data.as_slice(), 0).unwrap();
        assert_eq!(val, decoded.0);
        assert_eq!(decoded.1, data.len());
    }
}

#[test]
fn test_leb128_i64_roundtrip() {
    let values = [
        0i64,
        1,
        -1,
        63,
        64,
        -64,
        -65,
        127,
        128,
        -300,
        16383,
        -16384,
        i64::MAX,
        i64::MIN,
    ];
    for val in values {
        let mut data = Vec::new();
        write_leb128_i64(&mut data, val);

        let decoded = read_leb128_i64(data.as_slice(), 0).unwrap();
        assert_eq!(val, decoded.0);
        assert_eq!(decoded.1, data.len());
    }
}

#[test]
fn test_leb128_u32_known_bytes() {
    let mut data = Vec::new();
    write_leb128_u32(&mut data, 0);
    assert_eq!(data, vec![0u8]);

    let mut data = Vec::new();
    write_leb128_u32(&mut data, 127);
    assert_eq!(data, vec![0x7Fu8]);

    let mut data = Vec::new();
    write_leb128_u32(&mut data, 128);
    assert_eq!(data, vec![0x80u8, 0x01]);

    let mut data = Vec::new();
    write_leb128_u32(&mut data, 16384);
    assert_eq!(data, vec![0x80u8, 0x80, 0x01]);
}

#[test]
fn test_leb128_truncated_input_fails() {
    // A continuation bit with nothing after it.
    let data = vec![0x80u8];
    assert!(read_leb128_u32(data.as_slice(), 0).is_err());
    assert!(read_leb128_i64(data.as_slice(), 0).is_err());
}

#[test]
fn test_leb128_overflow_fails() {
    // Six continuation bytes push the unsigned shift past 35 bits.
    let data = vec![0x80u8, 0x80, 0x80, 0x80, 0x80, 0x01];
    assert!(read_leb128_u32(data.as_slice(), 0).is_err());
}

#[test]
fn test_u32_le_roundtrip() {
    for val in [0u32, 1, 0x07230203, 0x3142434C, u32::MAX] {
        let mut data = Vec::new();
        write_u32_le(&mut data, val);
        assert_eq!(data.len(), 4);
        let decoded = read_u32_le(data.as_slice(), 0).unwrap();
        assert_eq!(decoded.0, val);
    }
}

#[test]
fn test_u64_le_roundtrip() {
    for val in [0u64, 1, 3.25f64.to_bits(), (-1.5f64).to_bits(), u64::MAX] {
        let mut data = Vec::new();
        write_u64_le(&mut data, val);
        assert_eq!(data.len(), 8);
        let decoded = read_u64_le(data.as_slice(), 0).unwrap();
        assert_eq!(decoded.0, val);
    }
}
