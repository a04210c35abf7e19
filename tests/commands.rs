use base58::{decode, encode, CliError, DecodeArgs, EncodeArgs};

#[test]
fn encode_command_uses_utf8_bytes() {
    let args = EncodeArgs { input: "Hello World".to_string() };
    assert_eq!(encode(&args), "JxF12TrwUP45BMd");
    let args = EncodeArgs { input: String::new() };
    assert_eq!(encode(&args), "");
}

#[test]
fn decode_command() {
    let args = DecodeArgs { input: "112".to_string() };
    assert_eq!(decode(&args).unwrap(), vec![0, 0, 1]);
}

#[test]
fn decode_command_error() {
    let args = DecodeArgs { input: "0OIl".to_string() };
    assert!(matches!(decode(&args), Err(CliError::BS58Error)));
}
