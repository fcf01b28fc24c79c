use client_server::codec::{encode_request, CipherRequest};
use client_server::errors::ExchangeError;
use client_server::service::{client_decrypt, process_request};
use client_server::shift::parse_shift;

fn request(message: &[u8], shift_val: &[u8]) -> Vec<u8> {
    encode_request(&CipherRequest { message: message.to_vec(), shift_val: shift_val.to_vec() })
}

#[test]
fn full_exchange_hello_world() {
    let bytes = request(b"Hello World", b"3");
    let response = process_request(&bytes).unwrap();
    assert_eq!(response, b"Khoor Zruog".to_vec());
    let plain = client_decrypt(&response, b"3").unwrap();
    assert_eq!(plain, b"Hello World".to_vec());
}

#[test]
fn full_exchange_wraparound() {
    let bytes = request(b"Hello World", b"26");
    let response = process_request(&bytes).unwrap();
    assert_eq!(response, b"Hello World".to_vec());
    assert_eq!(client_decrypt(&response, b"26").unwrap(), b"Hello World".to_vec());
}

#[test]
fn full_exchange_negative_shift() {
    let bytes = request(b"abc", b"-3");
    let response = process_request(&bytes).unwrap();
    assert_eq!(response, b"xyz".to_vec());
    assert_eq!(client_decrypt(&response, b"-3").unwrap(), b"abc".to_vec());
}

#[test]
fn response_has_the_message_length() {
    let bytes = request(b"a longer message with spaces", b"17");
    let response = process_request(&bytes).unwrap();
    assert_eq!(response.len(), b"a longer message with spaces".len());
}

#[test]
fn malformed_request_is_rejected() {
    assert!(matches!(
        process_request(b"not a record at all"),
        Err(ExchangeError::MalformedMessage)
    ));
    assert!(matches!(
        process_request(b"{\"message\":\"hi\",\"shift_val\":\"3\""),
        Err(ExchangeError::MalformedMessage)
    ));
}

#[test]
fn invalid_shift_is_rejected() {
    let bytes = request(b"hi", b"threeve");
    assert!(matches!(process_request(&bytes), Err(ExchangeError::ShiftParseError)));
    let bytes = request(b"hi", b"");
    assert!(matches!(process_request(&bytes), Err(ExchangeError::ShiftParseError)));
    let bytes = request(b"hi", b"99999999999999999999");
    assert!(matches!(process_request(&bytes), Err(ExchangeError::ShiftParseError)));
    assert!(matches!(client_decrypt(b"xyz", b"3b"), Err(ExchangeError::ShiftParseError)));
}

#[test]
fn back_to_back_exchanges_are_independent() {
    let first = process_request(&request(b"Hello World", b"3")).unwrap();
    let second = process_request(&request(b"abc", b"-3")).unwrap();
    assert_eq!(first, b"Khoor Zruog".to_vec());
    assert_eq!(second, b"xyz".to_vec());
    let first_again = process_request(&request(b"Hello World", b"3")).unwrap();
    assert_eq!(first_again, first);
}

#[test]
fn parse_shift_accepts_valid_literals() {
    assert_eq!(parse_shift(b"3").unwrap(), 3);
    assert_eq!(parse_shift(b"-3").unwrap(), -3);
    assert_eq!(parse_shift(b"+7").unwrap(), 7);
    assert_eq!(parse_shift(b"007").unwrap(), 7);
    assert_eq!(parse_shift(b"0").unwrap(), 0);
    assert_eq!(parse_shift(b"2147483647").unwrap(), i32::MAX);
    assert_eq!(parse_shift(b"-2147483648").unwrap(), i32::MIN);
}

#[test]
fn parse_shift_rejects_invalid_literals() {
    let cases: Vec<&[u8]> = vec![
        b"",
        b"-",
        b"+",
        b"abc",
        b"12a",
        b" 3",
        b"3 ",
        b"--3",
        b"2147483648",
        b"-2147483649",
        b"123456789012345678901234567890",
    ];
    for bytes in cases {
        assert!(matches!(parse_shift(bytes), Err(ExchangeError::ShiftParseError)));
    }
}

#[test]
fn error_descriptions() {
    assert_eq!(ExchangeError::MalformedMessage.describe(), "malformed request record");
    assert_eq!(ExchangeError::ShiftParseError.describe(), "invalid shift value");
}
