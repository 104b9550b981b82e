use eth_relay::{block_number_of, fetch_block, hex_to_bytes, FetchError, Json};

fn chars(s: &str) -> Vec<char> {
    s.chars().collect()
}

#[test]
fn reads_latest_block_number() {
    let body = r#"{"jsonrpc":"2.0","id":1,"result":{"hash":"0xab","number":"0x01b4"}}"#;
    assert_eq!(fetch_block(body), Ok(436));
}

#[test]
fn keeps_low_32_bits() {
    let body = r#"{"result":{"number":"0x0102030405"}}"#;
    assert_eq!(fetch_block(body), Ok(0x02030405));
}

#[test]
fn number_without_prefix() {
    let body = r#"{"result":{"number":"ff"}}"#;
    assert_eq!(fetch_block(body), Ok(255));
}

#[test]
fn fetch_errors() {
    assert_eq!(fetch_block("not json"), Err(FetchError::NotJson));
    assert_eq!(fetch_block(r#"{"id":1}"#), Err(FetchError::NoResult));
    assert_eq!(fetch_block(r#"{"result":5}"#), Err(FetchError::NoResult));
    assert_eq!(fetch_block(r#"[1,2]"#), Err(FetchError::NoResult));
    assert_eq!(fetch_block(r#"{"result":{"hash":"0x1"}}"#), Err(FetchError::NoNumber));
    assert_eq!(fetch_block(r#"{"result":{"number":12}}"#), Err(FetchError::NoNumber));
    assert_eq!(fetch_block(r#"{"result":{"number":"0x1g"}}"#), Err(FetchError::BadHex));
    assert_eq!(fetch_block(r#"{"result":{"number":"0x123"}}"#), Err(FetchError::BadHex));
    let long = format!(r#"{{"result":{{"number":"0x{}"}}}}"#, "01".repeat(33));
    assert_eq!(fetch_block(&long), Err(FetchError::TooLong));
    let widest = format!(r#"{{"result":{{"number":"0x{}"}}}}"#, "01".repeat(32));
    assert_eq!(fetch_block(&widest), Ok(0x01010101));
}

#[test]
fn first_member_wins() {
    let doc = Json::Object(vec![
        (chars("result"), Json::Object(vec![(chars("number"), Json::String(chars("0x10")))])),
        (chars("result"), Json::Object(vec![(chars("number"), Json::String(chars("0x20")))])),
    ]);
    assert_eq!(block_number_of(&doc), Ok(16));
}

#[test]
fn hex_decoding() {
    assert_eq!(hex_to_bytes(&chars("0x01ff")).unwrap(), vec![1, 255]);
    assert_eq!(hex_to_bytes(&chars("ABcd")).unwrap(), vec![0xab, 0xcd]);
    assert_eq!(hex_to_bytes(&chars("0x")).unwrap(), Vec::<u8>::new());
    assert!(hex_to_bytes(&chars("0x1")).is_err());
    assert!(hex_to_bytes(&chars("zz")).is_err());
}

#[test]
fn oversized_numbers_are_refused() {
    let big = r#"{"result":{"number":"0x10"},"x":12345678901234567890}"#;
    assert_eq!(fetch_block(big), Err(FetchError::OversizedNumber));
    assert_eq!(fetch_block(r#"{"x":-9223372036854775808}"#), Err(FetchError::OversizedNumber));
    assert_eq!(fetch_block(r#"{"x":1.12345678901234567890}"#), Err(FetchError::OversizedNumber));
    assert_eq!(fetch_block(r#"{"x":1e1234567890}"#), Err(FetchError::OversizedNumber));
    // Long digit runs inside strings are no numbers.
    let bloom = format!(
        r#"{{"result":{{"logsBloom":"0x{}","number":"0x2a","n":123456789012345678,"e":1e-123456789}}}}"#,
        "0".repeat(512)
    );
    assert_eq!(fetch_block(&bloom), Ok(42));
    let escaped = r#"{"result":{"s":"a\"12345678901234567890","number":"0x2a"}}"#;
    assert_eq!(fetch_block(escaped), Ok(42));
}

#[test]
fn hex_errors_are_exact() {
    assert!(matches!(hex_to_bytes(&chars("0x123")), Err(hex::FromHexError::OddLength)));
    assert!(matches!(hex_to_bytes(&chars("0x1g")), Err(hex::FromHexError::InvalidHexCharacter { .. })));
    // A character outside ASCII is no digit, whatever its low byte.
    assert!(matches!(
        hex_to_bytes(&vec!['\u{130}', '0']),
        Err(hex::FromHexError::InvalidHexCharacter { .. })
    ));
    assert!(matches!(hex_to_bytes(&vec!['\u{130}']), Err(hex::FromHexError::OddLength)));
    let doc = Json::Object(vec![(
        chars("result"),
        Json::Object(vec![(chars("number"), Json::String(vec!['0', 'x', '\u{130}', '0']))]),
    )]);
    assert_eq!(block_number_of(&doc), Err(FetchError::BadHex));
}
