use q2api_core::error::ParseError;
use q2api_core::frame::parse_frame;
use q2api_core::headers::{parse_headers, HeaderValue};

fn build_frame(headers: &[u8], payload: &[u8]) -> Vec<u8> {
    let total = 16 + headers.len() + payload.len();
    let mut f: Vec<u8> = Vec::new();
    f.extend_from_slice(&(total as u32).to_be_bytes());
    f.extend_from_slice(&(headers.len() as u32).to_be_bytes());
    let pc = crc32c::crc32c(&f[0..8]);
    f.extend_from_slice(&pc.to_be_bytes());
    f.extend_from_slice(headers);
    f.extend_from_slice(payload);
    let mc = crc32c::crc32c(&f);
    f.extend_from_slice(&mc.to_be_bytes());
    f
}

fn triple(name: &str, value_type: u8, value: &[u8]) -> Vec<u8> {
    let mut t: Vec<u8> = Vec::new();
    t.push(name.len() as u8);
    t.extend_from_slice(name.as_bytes());
    t.push(value_type);
    t.extend_from_slice(value);
    t
}

fn decode_one(name: &str, value_type: u8, value: &[u8]) -> HeaderValue {
    let seg = triple(name, value_type, value);
    let mut headers = parse_headers(&seg).expect("headers should decode");
    assert_eq!(headers.len(), 1);
    let (n, v) = headers.remove(0);
    assert_eq!(n, name);
    v
}

#[test]
fn boolean_header_types() {
    match decode_one("t", 0, &[]) {
        HeaderValue::Bool(b) => assert!(b),
        _ => panic!("expected a boolean"),
    }
    match decode_one("f", 1, &[]) {
        HeaderValue::Bool(b) => assert!(!b),
        _ => panic!("expected a boolean"),
    }
}

#[test]
fn signed_integer_header_types() {
    match decode_one("a", 2, &[0x80]) {
        HeaderValue::Int(v) => assert_eq!(v, -128),
        _ => panic!("expected an integer"),
    }
    match decode_one("a", 2, &[0x7F]) {
        HeaderValue::Int(v) => assert_eq!(v, 127),
        _ => panic!("expected an integer"),
    }
    match decode_one("b", 3, &[0xFF, 0xFE]) {
        HeaderValue::Int(v) => assert_eq!(v, -2),
        _ => panic!("expected an integer"),
    }
    match decode_one("c", 4, &[0x80, 0x00, 0x00, 0x00]) {
        HeaderValue::Int(v) => assert_eq!(v, -2147483648),
        _ => panic!("expected an integer"),
    }
    match decode_one("d", 5, &[0xFF; 8]) {
        HeaderValue::Int(v) => assert_eq!(v, -1),
        _ => panic!("expected an integer"),
    }
    match decode_one("e", 8, &[0x00, 0x00, 0x00, 0x00, 0x00, 0x00, 0x30, 0x39]) {
        HeaderValue::Int(v) => assert_eq!(v, 12345),
        _ => panic!("expected an integer"),
    }
}

#[test]
fn byte_string_header_is_hex_encoded() {
    let mut value = 2u16.to_be_bytes().to_vec();
    value.extend_from_slice(&[0xDE, 0xAD]);
    match decode_one("h", 6, &value) {
        HeaderValue::Str(s) => assert_eq!(s, "dead"),
        _ => panic!("expected a string"),
    }
}

#[test]
fn utf8_string_header_is_lossy() {
    let mut value = 3u16.to_be_bytes().to_vec();
    value.extend_from_slice(&[b'o', b'k', 0xFF]);
    match decode_one("s", 7, &value) {
        HeaderValue::Str(s) => assert_eq!(s, "ok\u{FFFD}"),
        _ => panic!("expected a string"),
    }
}

#[test]
fn uuid_header_is_hex_encoded() {
    let value: Vec<u8> = (0u8..16u8).collect();
    match decode_one("u", 9, &value) {
        HeaderValue::Str(s) => assert_eq!(s, "000102030405060708090a0b0c0d0e0f"),
        _ => panic!("expected a string"),
    }
}

#[test]
fn unknown_header_type_is_a_hard_error() {
    let seg = triple("x", 10, &[]);
    match parse_headers(&seg) {
        Err(e) => assert_eq!(e, ParseError::InvalidHeaderType(10)),
        Ok(_) => panic!("expected a hard error"),
    }
    let seg = triple("x", 0xFF, &[]);
    match parse_headers(&seg) {
        Err(e) => assert_eq!(e, ParseError::InvalidHeaderType(0xFF)),
        Ok(_) => panic!("expected a hard error"),
    }
}

#[test]
fn invalid_utf8_header_name_is_a_hard_error() {
    let seg: Vec<u8> = vec![2, 0xFF, 0xFE, 0, 0];
    match parse_headers(&seg) {
        Err(e) => assert_eq!(e, ParseError::Utf8Error),
        Ok(_) => panic!("expected a hard error"),
    }
}

#[test]
fn short_reads_keep_decoded_headers() {
    let mut seg = triple("a", 0, &[]);
    seg.push(1);
    seg.push(b'b');
    seg.push(5);
    seg.push(0x01);
    let headers = parse_headers(&seg).expect("short read tolerated");
    assert_eq!(headers.len(), 1);
    assert_eq!(headers[0].0, "a");
}

#[test]
fn truncated_name_keeps_decoded_headers() {
    let mut seg = triple("a", 1, &[]);
    seg.push(9);
    seg.push(b'q');
    let headers = parse_headers(&seg).expect("short name tolerated");
    assert_eq!(headers.len(), 1);
}

#[test]
fn parse_frame_reports_prelude_crc_mismatch() {
    let mut frame = build_frame(&[], &[]);
    frame[8] ^= 0x01;
    let expected = u32::from_be_bytes([frame[8], frame[9], frame[10], frame[11]]);
    let actual = crc32c::crc32c(&frame[0..8]);
    match parse_frame(&frame, true) {
        Err(e) => assert_eq!(e, ParseError::PreludeCrcMismatch { expected, actual }),
        Ok(_) => panic!("expected a CRC error"),
    }
}

#[test]
fn parse_frame_reports_message_crc_mismatch() {
    let mut frame = build_frame(&[], b"abc");
    let last = frame.len() - 1;
    frame[last] ^= 0x80;
    let n = frame.len();
    let expected = u32::from_be_bytes([frame[n - 4], frame[n - 3], frame[n - 2], frame[n - 1]]);
    let actual = crc32c::crc32c(&frame[..n - 4]);
    match parse_frame(&frame, true) {
        Err(e) => assert_eq!(e, ParseError::MessageCrcMismatch { expected, actual }),
        Ok(_) => panic!("expected a CRC error"),
    }
}

#[test]
fn parse_frame_rejects_overrunning_headers_length() {
    let mut f: Vec<u8> = Vec::new();
    f.extend_from_slice(&16u32.to_be_bytes());
    f.extend_from_slice(&100u32.to_be_bytes());
    let pc = crc32c::crc32c(&f[0..8]);
    f.extend_from_slice(&pc.to_be_bytes());
    let mc = crc32c::crc32c(&f);
    f.extend_from_slice(&mc.to_be_bytes());
    match parse_frame(&f, true) {
        Err(e) => assert_eq!(e, ParseError::InvalidLength(100)),
        Ok(_) => panic!("expected a framing error"),
    }
}

#[test]
fn parse_frame_decodes_headers_and_json_payload() {
    let headers = triple("n", 4, &7i32.to_be_bytes());
    let frame = build_frame(&headers, b"[true,null]");
    let msg = parse_frame(&frame, true).expect("frame should parse");
    assert_eq!(msg.headers.len(), 1);
    match &msg.headers[0].1 {
        HeaderValue::Int(v) => assert_eq!(*v, 7),
        _ => panic!("expected an integer header"),
    }
    assert_eq!(msg.total_length as usize, frame.len());
}

#[test]
fn empty_byte_string_header_decodes_to_empty_hex() {
    let value = 0u16.to_be_bytes().to_vec();
    match decode_one("z", 6, &value) {
        HeaderValue::Str(s) => assert_eq!(s, ""),
        _ => panic!("expected a string"),
    }
}
