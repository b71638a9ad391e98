use echo_add_server::messages::{
    decode_client, decode_server, encode_client, encode_server, AddRequest, AddResponse,
    ClientMessage, ClientPayload, EchoMessage, ServerMessage, ServerPayload,
};
use echo_add_server::wire::{encode_varint, parse_varint};

fn add_request(a: i32, b: i32) -> ClientMessage {
    ClientMessage { message: Some(ClientPayload::AddRequest(AddRequest { a, b })) }
}

fn echo_request(content: &[u8]) -> ClientMessage {
    ClientMessage {
        message: Some(ClientPayload::EchoMessage(EchoMessage { content: content.to_vec() })),
    }
}

#[test]
fn varint_small_values_are_one_byte() {
    let mut out: Vec<u8> = Vec::new();
    encode_varint(0, &mut out);
    encode_varint(1, &mut out);
    encode_varint(127, &mut out);
    assert_eq!(out, vec![0x00, 0x01, 0x7F]);
}

#[test]
fn varint_multi_byte_values() {
    let mut out: Vec<u8> = Vec::new();
    encode_varint(128, &mut out);
    assert_eq!(out, vec![0x80, 0x01]);
    let mut out2: Vec<u8> = Vec::new();
    encode_varint(300, &mut out2);
    assert_eq!(out2, vec![0xAC, 0x02]);
    let mut out3: Vec<u8> = Vec::new();
    encode_varint(u64::MAX, &mut out3);
    assert_eq!(out3.len(), 10);
    assert_eq!(parse_varint(&out3, 0), Some((u64::MAX, 10)));
}

#[test]
fn varint_round_trip() {
    for v in [0u64, 1, 127, 128, 255, 300, 16383, 16384, 1 << 31, u64::MAX - 1, u64::MAX] {
        let mut out: Vec<u8> = Vec::new();
        encode_varint(v, &mut out);
        assert_eq!(parse_varint(&out, 0), Some((v, out.len())));
    }
}

#[test]
fn varint_rejects_non_minimal_and_truncated() {
    // 0x80 0x00 denotes 0 non-minimally; the canonical form is one byte.
    assert_eq!(parse_varint(&[0x80, 0x00], 0), None);
    // a continuation bit with nothing after it
    assert_eq!(parse_varint(&[0x80], 0), None);
    assert_eq!(parse_varint(&[], 0), None);
    // eleven continuation groups overflow 64 bits
    let too_long = [0xFF, 0xFF, 0xFF, 0xFF, 0xFF, 0xFF, 0xFF, 0xFF, 0xFF, 0xFF, 0x01];
    assert_eq!(parse_varint(&too_long, 0), None);
}

#[test]
fn add_request_has_expected_bytes() {
    let bytes = encode_client(&add_request(2, 3));
    assert_eq!(bytes, vec![0x0A, 0x04, 0x08, 0x02, 0x10, 0x03]);
}

#[test]
fn echo_request_has_expected_bytes() {
    let bytes = encode_client(&echo_request(b"hi"));
    assert_eq!(bytes, vec![0x12, 0x04, 0x0A, 0x02, 0x68, 0x69]);
}

#[test]
fn add_response_has_expected_bytes() {
    let m = ServerMessage { message: Some(ServerPayload::AddResponse(AddResponse { result: 5 })) };
    assert_eq!(encode_server(&m), vec![0x0A, 0x02, 0x08, 0x05]);
}

#[test]
fn client_round_trip_add() {
    for (a, b) in [(0, 0), (2, 3), (-1, 1), (i32::MAX, i32::MAX), (i32::MIN, -1)] {
        let bytes = encode_client(&add_request(a, b));
        let decoded = decode_client(&bytes).unwrap();
        match decoded.message {
            Some(ClientPayload::AddRequest(r)) => {
                assert_eq!((r.a, r.b), (a, b));
            },
            _ => panic!("decoded to the wrong variant"),
        }
    }
}

#[test]
fn client_round_trip_echo() {
    for content in [&b""[..], &b"hi"[..], &[0u8, 255, 128, 1, 0][..]] {
        let bytes = encode_client(&echo_request(content));
        let decoded = decode_client(&bytes).unwrap();
        match decoded.message {
            Some(ClientPayload::EchoMessage(e)) => {
                assert_eq!(e.content, content.to_vec());
            },
            _ => panic!("decoded to the wrong variant"),
        }
    }
}

#[test]
fn empty_message_round_trip() {
    let m = ClientMessage { message: None };
    let bytes = encode_client(&m);
    assert!(bytes.is_empty());
    let decoded = decode_client(&bytes).unwrap();
    assert!(decoded.message.is_none());
}

#[test]
fn server_round_trip() {
    for result in [0, 5, -7, i32::MIN, i32::MAX] {
        let m = ServerMessage {
            message: Some(ServerPayload::AddResponse(AddResponse { result })),
        };
        let bytes = encode_server(&m);
        let decoded = decode_server(&bytes).unwrap();
        match decoded.message {
            Some(ServerPayload::AddResponse(r)) => assert_eq!(r.result, result),
            _ => panic!("decoded to the wrong variant"),
        }
    }
    let e = ServerMessage {
        message: Some(ServerPayload::EchoMessage(EchoMessage { content: b"back".to_vec() })),
    };
    let bytes = encode_server(&e);
    let decoded = decode_server(&bytes).unwrap();
    match decoded.message {
        Some(ServerPayload::EchoMessage(e)) => assert_eq!(e.content, b"back".to_vec()),
        _ => panic!("decoded to the wrong variant"),
    }
}

#[test]
fn decode_rejects_malformed_inputs() {
    // an unknown tag byte
    assert!(decode_client(&[0x01, 0x02, 0x03, 0x04]).is_err());
    // a frame length that disagrees with what follows
    assert!(decode_client(&[0x0A, 0x05, 0x08, 0x02, 0x10, 0x03]).is_err());
    // a truncated frame
    assert!(decode_client(&[0x0A, 0x04, 0x08, 0x02]).is_err());
    // trailing bytes after the last field
    assert!(decode_client(&[0x0A, 0x05, 0x08, 0x02, 0x10, 0x03, 0x00]).is_err());
    // the wrong field tag inside the body
    assert!(decode_client(&[0x0A, 0x04, 0x09, 0x02, 0x10, 0x03]).is_err());
    // an operand too wide for 32 bits
    assert!(decode_client(&[0x0A, 0x09, 0x08, 0x80, 0x80, 0x80, 0x80, 0x10, 0x10, 0x03]).is_err());
    // a non-minimal varint operand
    assert!(decode_client(&[0x0A, 0x05, 0x08, 0x82, 0x00, 0x10, 0x03]).is_err());
    // an echo whose content length lies
    assert!(decode_client(&[0x12, 0x04, 0x0A, 0x03, 0x68, 0x69]).is_err());
    assert!(decode_server(&[0x0A, 0x01, 0x08]).is_err());
}

#[test]
fn decode_accepts_exactly_the_reencodable() {
    // whatever decodes must re-encode to the same bytes
    let inputs: Vec<Vec<u8>> = vec![
        vec![],
        vec![0x0A, 0x04, 0x08, 0x02, 0x10, 0x03],
        vec![0x12, 0x02, 0x0A, 0x00],
    ];
    for bytes in inputs {
        let m = decode_client(&bytes).unwrap();
        assert_eq!(encode_client(&m), bytes);
    }
}
