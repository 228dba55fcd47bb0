use wschat::frame::{apply_mask, be_u16, be_u64, decode_frame, encode_frame, DecodeError};
use wschat::messages::{
    encode_client_msg, encode_server_msg, parse_client_msg, parse_server_msg, ClientIdUsername,
    ClientMessage, ServerMessage,
};

fn roundtrip_payload(payload: &[u8]) {
    let bytes = encode_frame(payload);
    let (frame, used) = decode_frame(&bytes).expect("frame must decode");
    assert_eq!(used, bytes.len());
    assert!(frame.fin);
    assert_eq!(frame.rsv, 0);
    assert_eq!(frame.opcode, 1);
    assert!(!frame.masked);
    assert_eq!(frame.payload, payload.to_vec());
}

#[test]
fn short_payload_roundtrip() {
    roundtrip_payload(b"");
    roundtrip_payload(b"hello");
    roundtrip_payload(&[7u8; 125]);
}

#[test]
fn short_payload_header_bytes() {
    let bytes = encode_frame(b"hi");
    assert_eq!(&bytes[..2], &[0x81, 2]);
    assert_eq!(&bytes[2..], b"hi");
}

#[test]
fn masked_frame_recovers_original_bytes() {
    let payload = b"masked text line";
    let key = [0x37u8, 0xfa, 0x21, 0x3d];
    let mut wire = vec![0x81u8, 0x80 | payload.len() as u8];
    wire.extend_from_slice(&key);
    for (i, b) in payload.iter().enumerate() {
        wire.push(b ^ key[i % 4]);
    }
    let (frame, used) = decode_frame(&wire).expect("masked frame must decode");
    assert_eq!(used, wire.len());
    assert!(frame.masked);
    assert_eq!(frame.mask_key, key);
    assert_eq!(frame.payload, payload.to_vec());
}

#[test]
fn apply_mask_is_an_involution() {
    let key = [9u8, 8, 7, 6];
    let original: Vec<u8> = (0u8..100).collect();
    let mut data = original.clone();
    apply_mask(&mut data, &key);
    assert_ne!(data, original);
    apply_mask(&mut data, &key);
    assert_eq!(data, original);
}

#[test]
fn extended_length_16_bit_lower_bound() {
    let payload = vec![0xabu8; 126];
    let bytes = encode_frame(&payload);
    assert_eq!(&bytes[..4], &[0x81, 126, 0, 126]);
    let (frame, used) = decode_frame(&bytes).expect("frame must decode");
    assert_eq!(used, bytes.len());
    assert_eq!(frame.payload.len(), 126);
    assert_eq!(frame.payload, payload);
}

#[test]
fn extended_length_16_bit_upper_bound() {
    let payload = vec![1u8; 65535];
    let bytes = encode_frame(&payload);
    assert_eq!(&bytes[..4], &[0x81, 126, 0xff, 0xff]);
    let (frame, used) = decode_frame(&bytes).expect("frame must decode");
    assert_eq!(used, bytes.len());
    assert_eq!(frame.payload, payload);
}

#[test]
fn extended_length_64_bit_lower_bound() {
    let payload = vec![2u8; 65536];
    let bytes = encode_frame(&payload);
    assert_eq!(&bytes[..10], &[0x81, 127, 0, 0, 0, 0, 0, 1, 0, 0]);
    let (frame, used) = decode_frame(&bytes).expect("frame must decode");
    assert_eq!(used, bytes.len());
    assert_eq!(frame.payload, payload);
}

#[test]
fn extended_length_64_bit_megabyte() {
    let payload = vec![3u8; 1 << 20];
    let bytes = encode_frame(&payload);
    assert_eq!(&bytes[..10], &[0x81, 127, 0, 0, 0, 0, 0, 0x10, 0, 0]);
    let (frame, used) = decode_frame(&bytes).expect("frame must decode");
    assert_eq!(used, bytes.len());
    assert_eq!(frame.payload, payload);
}

#[test]
fn truncated_frames_are_rejected() {
    assert_eq!(decode_frame(&[]), Err(DecodeError::Truncated));
    assert_eq!(decode_frame(&[0x81]), Err(DecodeError::Truncated));
    assert_eq!(decode_frame(&[0x81, 5, 1, 2]), Err(DecodeError::Truncated));
    assert_eq!(decode_frame(&[0x81, 126, 0]), Err(DecodeError::Truncated));
    assert_eq!(
        decode_frame(&[0x81, 127, 0, 0, 0, 0, 0, 0, 0]),
        Err(DecodeError::Truncated)
    );
    // a masked frame whose key is cut off
    assert_eq!(decode_frame(&[0x81, 0x81, 1, 2, 3]), Err(DecodeError::Truncated));
}

#[test]
fn big_endian_helpers() {
    assert_eq!(be_u16(0x12, 0x34), 0x1234);
    assert_eq!(be_u64(&[0, 0, 0, 0, 0, 1, 0, 0]), 65536);
    assert_eq!(
        be_u64(&[0x01, 0x23, 0x45, 0x67, 0x89, 0xab, 0xcd, 0xef]),
        0x0123_4567_89ab_cdef
    );
}

fn server_roundtrip(msg: ServerMessage) {
    let bytes = encode_server_msg(&msg);
    let back = parse_server_msg(&bytes).expect("server message must parse");
    assert_eq!(back, msg);
}

#[test]
fn server_message_roundtrips() {
    server_roundtrip(ServerMessage::TextMessage { message: String::from("hi"), client_id: 42 });
    server_roundtrip(ServerMessage::TextMessage { message: String::new(), client_id: -1 });
    server_roundtrip(ServerMessage::UserHangup { client_id: i64::MIN });
    server_roundtrip(ServerMessage::UsernameRegistration {
        name: String::from("alice"),
        client_id: 7,
    });
    server_roundtrip(ServerMessage::ClientAcknowledgement { client_id: 0 });
    server_roundtrip(ServerMessage::UsernameInUse { name: String::from("röschen") });
    server_roundtrip(ServerMessage::ClientIdUsernameMappings {
        client_id_usernames: vec![
            ClientIdUsername { client_id: 1, username: String::from("alice") },
            ClientIdUsername { client_id: -2, username: String::from("bob") },
        ],
    });
    server_roundtrip(ServerMessage::ClientIdUsernameMappings { client_id_usernames: vec![] });
}

#[test]
fn server_message_wire_bytes_are_exact() {
    let bytes = encode_server_msg(&ServerMessage::UserHangup { client_id: 1 });
    assert_eq!(bytes, vec![2, 0, 0, 0, 0, 0, 0, 0, 1]);
    let bytes = encode_server_msg(&ServerMessage::TextMessage {
        message: String::from("hi"),
        client_id: -1,
    });
    let mut expected = vec![1u8, 0, 0, 0, 0, 0, 0, 0, 2];
    expected.extend_from_slice(b"hi");
    expected.extend_from_slice(&[0xff; 8]);
    assert_eq!(bytes, expected);
}

fn client_roundtrip(msg: ClientMessage) {
    let bytes = encode_client_msg(&msg);
    let back = parse_client_msg(&bytes).expect("client message must parse");
    assert_eq!(back, msg);
}

#[test]
fn client_message_roundtrips() {
    client_roundtrip(ClientMessage::TextMessage { message: String::from("a chat line") });
    client_roundtrip(ClientMessage::TextMessage { message: String::new() });
    client_roundtrip(ClientMessage::UsernameRegistration { name: String::from("bob") });
}

#[test]
fn malformed_messages_do_not_parse() {
    assert_eq!(parse_client_msg(&[]), None);
    assert_eq!(parse_client_msg(&[9]), None);
    assert_eq!(parse_client_msg(&[1, 0]), None);
    // invalid UTF-8 in the string field
    assert_eq!(parse_client_msg(&[1, 0, 0, 0, 0, 0, 0, 0, 1, 0xff]), None);
    // trailing bytes after a complete message
    let mut bytes = encode_client_msg(&ClientMessage::TextMessage { message: String::from("x") });
    bytes.push(0);
    assert_eq!(parse_client_msg(&bytes), None);
    assert_eq!(parse_server_msg(&[7]), None);
    assert_eq!(parse_server_msg(&[2, 0, 0]), None);
}
