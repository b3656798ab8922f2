use q2api_core::decoder::{DecoderState, EventStreamDecoder};
use q2api_core::frame::PayloadValue;
use q2api_core::headers::HeaderValue;

/// Builds a well-formed frame around the given headers and payload segments.
fn build_frame(headers: &[u8], payload: &[u8]) -> Vec<u8> {
    let total = 16 + headers.len() + payload.len();
    let mut f: Vec<u8> = Vec::new();
    f.extend_from_slice(&(total as u32).to_be_bytes());
    f.extend_from_slice(&(headers.len() as u32).to_be_bytes());
    let pc = crc32c::crc32c(&f[0..8]);
    f.extend_from_slice(&pc.to_be_bytes());
    f.extend_from_slice(headers);
    f.extend_from_slice(payload);
    let mc = crc32c::crc32c(&f);
    f.extend_from_slice(&mc.to_be_bytes());
    f
}

#[test]
fn s1_minimum_valid_empty_payload_no_headers() {
    let frame = build_frame(&[], &[]);
    assert_eq!(frame.len(), 16);
    let mut dec = EventStreamDecoder::new(3, true);
    let msgs = dec.feed(&frame);
    assert_eq!(msgs.len(), 1);
    assert!(msgs[0].headers.is_empty());
    assert!(msgs[0].payload.is_none());
    assert_eq!(msgs[0].total_length, 16);
    assert_eq!(dec.messages_parsed, 1);
    assert_eq!(dec.state(), DecoderState::Ready);
}

#[test]
fn s2_chunked_delivery_one_byte_at_a_time() {
    let frame = build_frame(&[], &[]);
    let mut dec = EventStreamDecoder::new(3, true);
    for i in 0..15 {
        let msgs = dec.feed(&frame[i..i + 1]);
        assert!(msgs.is_empty());
    }
    let msgs = dec.feed(&frame[15..16]);
    assert_eq!(msgs.len(), 1);
    assert!(msgs[0].headers.is_empty());
    assert!(msgs[0].payload.is_none());
    assert_eq!(msgs[0].total_length, 16);
    assert_eq!(dec.messages_parsed, 1);
}

#[test]
fn s3_two_frames_concatenated() {
    let f1 = build_frame(&[], &[]);
    let mut headers: Vec<u8> = Vec::new();
    headers.push(10);
    headers.extend_from_slice(b"event-type");
    headers.push(7);
    headers.extend_from_slice(&4u16.to_be_bytes());
    headers.extend_from_slice(b"ping");
    let f2 = build_frame(&headers, b"{\"x\":1}");
    let mut wire = f1.clone();
    wire.extend_from_slice(&f2);
    let mut dec = EventStreamDecoder::new(3, true);
    let msgs = dec.feed(&wire);
    assert_eq!(msgs.len(), 2);
    assert_eq!(msgs[0].total_length, 16);
    assert_eq!(msgs[1].headers.len(), 1);
    assert_eq!(msgs[1].headers[0].0, "event-type");
    match &msgs[1].headers[0].1 {
        HeaderValue::Str(s) => assert_eq!(s, "ping"),
        _ => panic!("expected a string header"),
    }
    let expected: serde_json::Value = serde_json::from_str("{\"x\":1}").unwrap();
    match &msgs[1].payload {
        Some(PayloadValue::Json(v)) => assert_eq!(v, &expected),
        _ => panic!("expected a JSON payload"),
    }
    assert_eq!(dec.messages_parsed, 2);
}

#[test]
fn s4_prelude_crc_corruption() {
    let mut frame = build_frame(&[], &[]);
    frame[9] ^= 0x01;
    let mut dec = EventStreamDecoder::new(3, true);
    let msgs = dec.feed(&frame);
    assert!(msgs.is_empty());
    assert_eq!(dec.crc_errors, 1);
    assert_eq!(dec.state(), DecoderState::Recovering);
}

#[test]
fn s5_desync_then_valid_frame() {
    let frame = build_frame(&[], &[]);
    let mut wire = vec![0u8; 7];
    wire.extend_from_slice(&frame);
    let mut dec = EventStreamDecoder::new(3, true);
    let msgs = dec.feed(&wire);
    assert_eq!(msgs.len(), 1);
    assert_eq!(msgs[0].total_length, 16);
    assert_eq!(dec.state(), DecoderState::Ready);
    assert_eq!(dec.messages_parsed, 1);
}

#[test]
fn s6_error_budget_exhaustion() {
    let mut bad = build_frame(&[], &[]);
    let last = bad.len() - 1;
    bad[last] ^= 0xFF;
    let mut wire = bad.clone();
    wire.extend_from_slice(&bad);
    wire.extend_from_slice(&bad);
    let mut dec = EventStreamDecoder::new(2, true);
    let msgs = dec.feed(&wire);
    assert!(msgs.is_empty());
    assert!(dec.crc_errors >= 2);
    assert_eq!(dec.state(), DecoderState::Stopped);
    let frame = build_frame(&[], &[]);
    let msgs = dec.feed(&frame);
    assert!(msgs.is_empty());
    assert_eq!(dec.state(), DecoderState::Stopped);
}

#[test]
fn chunk_size_independence_concrete() {
    let mut headers: Vec<u8> = Vec::new();
    headers.push(1);
    headers.push(b'k');
    headers.push(4);
    headers.extend_from_slice(&123456i32.to_be_bytes());
    let f1 = build_frame(&headers, b"[1,2,3]");
    let f2 = build_frame(&[], b"plain text payload");
    let mut wire = f1.clone();
    wire.extend_from_slice(&f2);

    let mut whole = EventStreamDecoder::new(3, true);
    let mut msgs_whole = whole.feed(&wire);

    let mut pieces = EventStreamDecoder::new(3, true);
    let mut msgs_pieces = Vec::new();
    for chunk in wire.chunks(5) {
        msgs_pieces.extend(pieces.feed(chunk));
    }

    assert_eq!(msgs_whole.len(), 2);
    assert_eq!(msgs_whole.len(), msgs_pieces.len());
    for (a, b) in msgs_whole.drain(..).zip(msgs_pieces.drain(..)) {
        assert_eq!(a.total_length, b.total_length);
        assert_eq!(a.headers.len(), b.headers.len());
        for ((n1, v1), (n2, v2)) in a.headers.iter().zip(b.headers.iter()) {
            assert_eq!(n1, n2);
            match (v1, v2) {
                (HeaderValue::Int(x), HeaderValue::Int(y)) => assert_eq!(x, y),
                (HeaderValue::Str(x), HeaderValue::Str(y)) => assert_eq!(x, y),
                (HeaderValue::Bool(x), HeaderValue::Bool(y)) => assert_eq!(x, y),
                _ => panic!("header kinds differ"),
            }
        }
        match (a.payload, b.payload) {
            (None, None) => {}
            (Some(PayloadValue::Json(x)), Some(PayloadValue::Json(y))) => assert_eq!(x, y),
            (Some(PayloadValue::Text(x)), Some(PayloadValue::Text(y))) => assert_eq!(x, y),
            _ => panic!("payloads differ"),
        }
    }
}

#[test]
fn total_length_accounting() {
    let frame = build_frame(&[], b"0123456789");
    let mut dec = EventStreamDecoder::new(3, true);
    let msgs = dec.feed(&frame);
    assert_eq!(msgs.len(), 1);
    assert_eq!(msgs[0].total_length as usize, frame.len());
}

#[test]
fn counters_monotonic_across_feed_and_reset() {
    let good = build_frame(&[], &[]);
    let mut bad = good.clone();
    bad[9] ^= 0x10;
    let mut dec = EventStreamDecoder::new(10, true);
    dec.feed(&good);
    let mp1 = dec.messages_parsed;
    let ce1 = dec.crc_errors;
    dec.feed(&bad);
    assert!(dec.messages_parsed >= mp1);
    assert!(dec.crc_errors >= ce1);
    let mp2 = dec.messages_parsed;
    let ce2 = dec.crc_errors;
    dec.reset();
    assert_eq!(dec.messages_parsed, mp2);
    assert_eq!(dec.crc_errors, ce2);
    assert_eq!(dec.state(), DecoderState::Ready);
    let msgs = dec.feed(&good);
    assert_eq!(msgs.len(), 1);
    assert!(dec.messages_parsed > mp2);
}

#[test]
fn stopped_is_sticky_until_reset() {
    let mut dec = EventStreamDecoder::new(1, true);
    let garbage = [0u8; 12];
    let msgs = dec.feed(&garbage);
    assert!(msgs.is_empty());
    assert_eq!(dec.state(), DecoderState::Stopped);
    let good = build_frame(&[], &[]);
    let msgs = dec.feed(&good);
    assert!(msgs.is_empty());
    assert_eq!(dec.state(), DecoderState::Stopped);
    dec.reset();
    let msgs = dec.feed(&good);
    assert_eq!(msgs.len(), 1);
    assert_eq!(dec.state(), DecoderState::Ready);
}

#[test]
fn crc_bypass_equivalence_on_well_formed_frames() {
    let mut headers: Vec<u8> = Vec::new();
    headers.push(1);
    headers.push(b'b');
    headers.push(0);
    let f1 = build_frame(&headers, b"{\"ok\":true}");
    let f2 = build_frame(&[], &[]);
    let mut wire = f1.clone();
    wire.extend_from_slice(&f2);

    let mut with_crc = EventStreamDecoder::new(3, true);
    let mut without_crc = EventStreamDecoder::new(3, false);
    let a = with_crc.feed(&wire);
    let b = without_crc.feed(&wire);
    assert_eq!(a.len(), 2);
    assert_eq!(b.len(), 2);
    assert_eq!(a[0].total_length, b[0].total_length);
    assert_eq!(a[1].total_length, b[1].total_length);
    assert_eq!(a[0].headers.len(), b[0].headers.len());
    assert_eq!(with_crc.crc_errors, 0);
    assert_eq!(without_crc.crc_errors, 0);
}

#[test]
fn crc_bypass_accepts_corrupt_crcs() {
    let mut frame = build_frame(&[], b"payload");
    let last = frame.len() - 1;
    frame[last] ^= 0xFF;
    frame[9] ^= 0x01;
    let mut dec = EventStreamDecoder::new(3, false);
    let msgs = dec.feed(&frame);
    assert_eq!(msgs.len(), 1);
    assert_eq!(dec.crc_errors, 0);
}

#[test]
fn recovery_stays_recovering_without_sync() {
    let mut dec = EventStreamDecoder::new(5, true);
    let garbage = vec![0xAAu8; 20 * 1024];
    let msgs = dec.feed(&garbage);
    assert!(msgs.is_empty());
    assert_eq!(dec.state(), DecoderState::Recovering);
    let frame = build_frame(&[], &[]);
    let msgs = dec.feed(&frame);
    assert_eq!(msgs.len(), 1);
    assert_eq!(dec.state(), DecoderState::Ready);
}

#[test]
fn header_last_wins_in_one_frame() {
    let mut headers: Vec<u8> = Vec::new();
    headers.push(1);
    headers.push(b'a');
    headers.push(7);
    headers.extend_from_slice(&1u16.to_be_bytes());
    headers.push(b'x');
    headers.push(1);
    headers.push(b'a');
    headers.push(7);
    headers.extend_from_slice(&1u16.to_be_bytes());
    headers.push(b'y');
    let frame = build_frame(&headers, &[]);
    let mut dec = EventStreamDecoder::new(3, true);
    let msgs = dec.feed(&frame);
    assert_eq!(msgs.len(), 1);
    assert_eq!(msgs[0].headers.len(), 1);
    assert_eq!(msgs[0].headers[0].0, "a");
    match &msgs[0].headers[0].1 {
        HeaderValue::Str(s) => assert_eq!(s, "y"),
        _ => panic!("expected a string header"),
    }
}

#[test]
fn text_payload_falls_back_to_lossy_utf8() {
    let frame = build_frame(&[], &[b'h', b'i', 0xFF]);
    let mut dec = EventStreamDecoder::new(3, true);
    let msgs = dec.feed(&frame);
    assert_eq!(msgs.len(), 1);
    match &msgs[0].payload {
        Some(PayloadValue::Text(s)) => assert_eq!(s, "hi\u{FFFD}"),
        _ => panic!("expected a text payload"),
    }
}

#[test]
fn oversized_length_field_is_a_framing_error() {
    let mut dec = EventStreamDecoder::new(3, true);
    let mut wire = (64u32 * 1024 * 1024).to_be_bytes().to_vec();
    wire.extend_from_slice(&[0u8; 8]);
    let msgs = dec.feed(&wire);
    assert!(msgs.is_empty());
    assert_eq!(dec.state(), DecoderState::Recovering);
    assert_eq!(dec.crc_errors, 0);
}

#[test]
fn partial_frame_leaves_decoder_parsing() {
    let frame = build_frame(&[], b"abcdef");
    let mut dec = EventStreamDecoder::new(3, true);
    let msgs = dec.feed(&frame[..12]);
    assert!(msgs.is_empty());
    assert_eq!(dec.state(), DecoderState::Parsing);
    let msgs = dec.feed(&frame[12..]);
    assert_eq!(msgs.len(), 1);
    assert_eq!(dec.state(), DecoderState::Ready);
}
