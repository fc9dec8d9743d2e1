use mdsevent_tcp_bridge::wire::{decode_udp_event, encode_udp_event, parse_payload_len, WireError};

#[test]
fn round_trip_wire() {
    let event = "TEST_EVENT";
    let payload = b"abc123";
    let datagram = encode_udp_event(event, payload);
    let decoded = decode_udp_event(&datagram).expect("decode should succeed");
    assert_eq!(decoded.event_name, event);
    assert_eq!(decoded.payload_len, payload.len() as u32);
}

#[test]
fn encode_empty_payload() {
    let event = "EMPTY_EVENT";
    let datagram = encode_udp_event(event, b"");
    let decoded = decode_udp_event(&datagram).expect("decode should succeed");
    assert_eq!(decoded.event_name, event);
    assert_eq!(decoded.payload_len, 0);
}

#[test]
fn encode_large_payload() {
    let event = "LARGE_EVENT";
    let payload = vec![42_u8; 65000];
    let datagram = encode_udp_event(event, &payload);
    let decoded = decode_udp_event(&datagram).expect("decode should succeed");
    assert_eq!(decoded.event_name, event);
    assert_eq!(decoded.payload_len, payload.len() as u32);
}

#[test]
fn encode_long_event_name() {
    let event = "X".repeat(1000);
    let payload = b"data";
    let datagram = encode_udp_event(&event, payload);
    let decoded = decode_udp_event(&datagram).expect("decode should succeed");
    assert_eq!(decoded.event_name, event);
    assert_eq!(decoded.payload_len, payload.len() as u32);
}

#[test]
fn encode_non_utf8_event_name() {
    // Event name with invalid UTF-8 bytes
    let name_bytes = b"EVENT\x80\xFF";
    let payload = b"test";
    let mut datagram = Vec::with_capacity(8 + name_bytes.len() + payload.len());
    datagram.extend_from_slice(&(name_bytes.len() as u32).to_be_bytes());
    datagram.extend_from_slice(name_bytes);
    datagram.extend_from_slice(&(payload.len() as u32).to_be_bytes());
    datagram.extend_from_slice(payload);

    let decoded = decode_udp_event(&datagram).expect("decode should handle invalid utf8");
    // Invalid bytes are replaced with the replacement character
    assert!(decoded.event_name.contains("EVENT"));
    assert_eq!(decoded.payload_len, payload.len() as u32);
}

#[test]
fn decode_truncated_datagram() {
    let datagram = b"\x00\x00\x00\x05TEST"; // name_len says 5 but no payload_len
    assert!(decode_udp_event(datagram).is_err());
}

#[test]
fn decode_length_mismatch() {
    let event = "TEST";
    let payload = b"payload";
    let mut datagram = encode_udp_event(event, payload);
    // Truncate one byte to create mismatch
    datagram.pop();
    assert!(decode_udp_event(&datagram).is_err());
}

#[test]
fn encode_exact_bytes() {
    let datagram = encode_udp_event("AB", b"xyz");
    assert_eq!(
        datagram,
        vec![0, 0, 0, 2, b'A', b'B', 0, 0, 0, 3, b'x', b'y', b'z']
    );
}

#[test]
fn encode_multibyte_name_counts_bytes() {
    let datagram = encode_udp_event("é", b"");
    assert_eq!(datagram, vec![0, 0, 0, 2, 0xC3, 0xA9, 0, 0, 0, 0]);
    let decoded = decode_udp_event(&datagram).expect("decode should succeed");
    assert_eq!(decoded.event_name, "é");
}

#[test]
fn decode_big_endian_lengths() {
    let mut datagram = vec![0, 0, 1, 0];
    datagram.extend(std::iter::repeat(b'N').take(256));
    datagram.extend_from_slice(&[0, 0, 1, 1]);
    datagram.extend(std::iter::repeat(7u8).take(257));
    let decoded = decode_udp_event(&datagram).expect("decode should succeed");
    assert_eq!(decoded.event_name.len(), 256);
    assert_eq!(decoded.payload_len, 257);
}

#[test]
fn decode_error_kinds() {
    assert_eq!(decode_udp_event(b"\x00\x00\x00").err(), Some(WireError::TooShort));
    assert_eq!(decode_udp_event(b"").err(), Some(WireError::TooShort));
    assert_eq!(
        decode_udp_event(b"\x00\x00\x00\x05TEST").err(),
        Some(WireError::MissingPayloadLength)
    );
    assert_eq!(
        decode_udp_event(b"\xff\xff\xff\xff\x00\x00\x00\x00").err(),
        Some(WireError::MissingPayloadLength)
    );
    assert_eq!(
        decode_udp_event(b"\x00\x00\x00\x00\x00\x00\x00\x01").err(),
        Some(WireError::LengthMismatch)
    );
    assert_eq!(
        decode_udp_event(b"\x00\x00\x00\x00\x00\x00\x00\x00\x01").err(),
        Some(WireError::LengthMismatch)
    );
}

#[test]
fn decode_replaces_invalid_utf8() {
    let datagram = [0, 0, 0, 2, 0x41, 0xFF, 0, 0, 0, 0];
    let decoded = decode_udp_event(&datagram).expect("decode should succeed");
    assert_eq!(decoded.event_name, "A\u{FFFD}");
}

#[test]
fn payload_len_reads_second_field() {
    let datagram = encode_udp_event("EV", b"12345");
    assert_eq!(parse_payload_len(&datagram), Ok(5));
    // The total length is not checked.
    assert_eq!(parse_payload_len(&datagram[..datagram.len() - 1]), Ok(5));
    assert_eq!(parse_payload_len(b"\x00\x00\x00"), Err(WireError::TooShort));
    assert_eq!(
        parse_payload_len(b"\x00\x00\x00\x05TEST"),
        Err(WireError::MissingPayloadLength)
    );
}
