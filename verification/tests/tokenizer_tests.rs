use hlx_lcb::tokenizer::CharTokenizer;

#[test]
fn test_tokenizer() {
    let tok = CharTokenizer::new();
    let tokens = tok.encode("Hi");
    assert_eq!(tokens.len(), 4); // BOS + H + i + EOS
    assert_eq!(tok.decode(&tokens), "Hi");
}

#[test]
fn test_tokenizer_reserved_tokens() {
    let tok = CharTokenizer::new();
    assert_eq!(tok.pad_token, 0);
    assert_eq!(tok.bos_token, 1);
    assert_eq!(tok.eos_token, 2);
    assert_eq!(tok.unk_token, 3);
    assert_eq!(tok.vocab_size(), 260);
}

#[test]
fn test_tokenizer_exact_codes() {
    let tok = CharTokenizer::new();
    let tokens = tok.encode("AB");
    assert_eq!(tokens, vec![1, 'A' as u32 + 4, 'B' as u32 + 4, 2]);
}

#[test]
fn test_tokenizer_wide_char_is_unknown() {
    let tok = CharTokenizer::new();
    let tokens = tok.encode("☃");
    assert_eq!(tokens, vec![1, 3, 2]);
    // The unknown token decodes to nothing.
    assert_eq!(tok.decode(&tokens), "");
}

#[test]
fn test_tokenizer_decode_skips_out_of_range() {
    let tok = CharTokenizer::new();
    let tokens = vec![0u32, 1, 2, 3, 'x' as u32 + 4, 260, 1000];
    assert_eq!(tok.decode(&tokens), "x");
}

#[test]
fn test_parse_jsonl_line() {
    let line = r#"{"input": "2+2", "output": "4"}"#;
    let ex = hlx_lcb::tokenizer::parse_jsonl_line(line).unwrap();
    assert_eq!(ex.input, "2+2");
    assert_eq!(ex.output, "4");
}

#[test]
fn test_parse_jsonl_line_missing_field() {
    assert!(hlx_lcb::tokenizer::parse_jsonl_line(r#"{"input": "only"}"#).is_none());
    assert!(hlx_lcb::tokenizer::parse_jsonl_line("").is_none());
    assert!(hlx_lcb::tokenizer::parse_jsonl_line("not json at all").is_none());
}
