use client_server::codec::{decode_request, encode_request, CipherRequest};
use client_server::errors::ExchangeError;

fn request(message: &[u8], shift_val: &[u8]) -> CipherRequest {
    CipherRequest { message: message.to_vec(), shift_val: shift_val.to_vec() }
}

#[test]
fn encode_is_the_expected_record() {
    let bytes = encode_request(&request(b"Hello World", b"3"));
    assert_eq!(bytes, b"{\"message\":\"Hello World\",\"shift_val\":\"3\"}".to_vec());
}

#[test]
fn decode_recovers_the_fields() {
    let bytes = b"{\"message\":\"Hello World\",\"shift_val\":\"3\"}";
    let req = decode_request(bytes).unwrap();
    assert_eq!(req.message, b"Hello World".to_vec());
    assert_eq!(req.shift_val, b"3".to_vec());
}

#[test]
fn round_trip_plain() {
    let req = request(b"attack at dawn", b"-3");
    let back = decode_request(&encode_request(&req)).unwrap();
    assert_eq!(back.message, req.message);
    assert_eq!(back.shift_val, req.shift_val);
}

#[test]
fn round_trip_with_escapes() {
    let req = request(b"say \"hi\" \\ there\nand\ttabs\x01", b"12");
    let bytes = encode_request(&req);
    let back = decode_request(&bytes).unwrap();
    assert_eq!(back.message, req.message);
    assert_eq!(back.shift_val, req.shift_val);
}

#[test]
fn encode_escapes_controls_as_hex() {
    let bytes = encode_request(&request(b"a\nb", b"0"));
    assert_eq!(bytes, b"{\"message\":\"a\\u000ab\",\"shift_val\":\"0\"}".to_vec());
    let bytes = encode_request(&request(b"q\"w\\e", b"0"));
    assert_eq!(bytes, b"{\"message\":\"q\\\"w\\\\e\",\"shift_val\":\"0\"}".to_vec());
}

#[test]
fn round_trip_empty_fields() {
    let req = request(b"", b"");
    let bytes = encode_request(&req);
    assert_eq!(bytes, b"{\"message\":\"\",\"shift_val\":\"\"}".to_vec());
    let back = decode_request(&bytes).unwrap();
    assert_eq!(back.message, b"".to_vec());
    assert_eq!(back.shift_val, b"".to_vec());
}

#[test]
fn decode_rejects_malformed_records() {
    let cases: Vec<&[u8]> = vec![
        b"",
        b"{}",
        b"garbage",
        b"{\"message\":\"hi\"}",
        b"{\"message\":\"hi\",\"shift_val\":\"3\"",
        b"{\"message\":\"hi\",\"shift_val\":\"3\"}x",
        b"{\"message\":\"hi\",\"shift\":\"3\"}",
        b"{\"shift_val\":\"3\",\"message\":\"hi\"}",
        b"{\"message\":hi,\"shift_val\":\"3\"}",
        b"{\"message\":\"hi\", \"shift_val\":\"3\"}",
        b"{\"message\":\"h\x01i\",\"shift_val\":\"3\"}",
        b"{\"message\":\"h\\qi\",\"shift_val\":\"3\"}",
        b"{\"message\":\"h\\u000Ai\",\"shift_val\":\"3\"}",
        b"{\"message\":\"h\\u0041i\",\"shift_val\":\"3\"}",
        b"{\"message\":\"h\\u00\",\"shift_val\":\"3\"}",
    ];
    for bytes in cases {
        assert!(matches!(decode_request(bytes), Err(ExchangeError::MalformedMessage)));
    }
}

#[test]
fn encoding_is_json_readable() {
    let bytes = encode_request(&request(b"Hello \"World\"\n", b"-42"));
    let value: serde_json::Value = serde_json::from_slice(&bytes).unwrap();
    assert_eq!(value["message"].as_str().unwrap(), "Hello \"World\"\n");
    assert_eq!(value["shift_val"].as_str().unwrap(), "-42");
}

#[test]
fn json_writer_output_is_decodable() {
    let mut map = serde_json::Map::new();
    map.insert(
        "message".to_string(),
        serde_json::Value::String("Hello World".to_string()),
    );
    map.insert(
        "shift_val".to_string(),
        serde_json::Value::String("3".to_string()),
    );
    let bytes = serde_json::to_vec(&serde_json::Value::Object(map)).unwrap();
    let req = decode_request(&bytes).unwrap();
    assert_eq!(req.message, b"Hello World".to_vec());
    assert_eq!(req.shift_val, b"3".to_vec());
}
