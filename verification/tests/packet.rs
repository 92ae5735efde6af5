use mqtt_client::error::{DecodeError, EncodeError};
use mqtt_client::packet::{
    client_id_valid, decode, ConnackPacket, ConnackReturnCode, ConnectPacket, Packet,
    SubscribePacket, Subscription, UnknownPacket,
};

fn connect(client_id: Option<&str>, keep_alive: u16) -> ConnectPacket {
    ConnectPacket {
        client_id: client_id.map(String::from),
        username: None,
        password: None,
        keep_alive,
    }
}

fn subscribe(topics: &[&str]) -> SubscribePacket {
    SubscribePacket {
        subscriptions: topics.iter().map(|topic| Subscription { topic: String::from(*topic) }).collect(),
    }
}

#[test]
fn client_id_absent_is_valid() {
    assert!(client_id_valid(&None));
}

#[test]
fn client_id_of_letters_and_digits_is_valid() {
    assert!(client_id_valid(&Some(String::from("abc123"))));
    assert!(client_id_valid(&Some(String::from("A"))));
    assert!(client_id_valid(&Some(String::from("azAZ09"))));
    assert!(client_id_valid(&Some(String::from("a2345678901234567890123"))));
}

#[test]
fn client_id_empty_is_rejected() {
    assert!(!client_id_valid(&Some(String::new())));
}

#[test]
fn client_id_of_24_characters_is_rejected() {
    assert!(!client_id_valid(&Some(String::from("a23456789012345678901234"))));
}

#[test]
fn client_id_with_other_characters_is_rejected() {
    assert!(!client_id_valid(&Some(String::from("bad id!"))));
    assert!(!client_id_valid(&Some(String::from("a-b"))));
    assert!(!client_id_valid(&Some(String::from("a_b"))));
    assert!(!client_id_valid(&Some(String::from("/"))));
    assert!(!client_id_valid(&Some(String::from(":"))));
    assert!(!client_id_valid(&Some(String::from("@"))));
    assert!(!client_id_valid(&Some(String::from("["))));
    assert!(!client_id_valid(&Some(String::from("`"))));
    assert!(!client_id_valid(&Some(String::from("{"))));
}

#[test]
fn client_id_outside_ascii_is_rejected() {
    assert!(!client_id_valid(&Some(String::from("caf\u{e9}"))));
    assert!(!client_id_valid(&Some(String::from("\u{e9}"))));
    assert!(!client_id_valid(&Some(String::from("\u{663}"))));
}

#[test]
fn connect_without_client_id() {
    let bytes: Vec<u8> = Packet::Connect(connect(None, 60)).encode().unwrap();
    assert_eq!(&bytes[..3], &[0x10, 0x0C, 0x00]);
    assert_eq!(
        bytes,
        vec![0x10, 0x0C, 0x00, 0x04, b'M', b'Q', b'T', b'T', 0x04, 0x02, 0x00, 0x3C, 0x00, 0x00]
    );
}

#[test]
fn connect_with_client_id() {
    let bytes: Vec<u8> = Packet::Connect(connect(Some("abc123"), 0x1234)).encode().unwrap();
    assert_eq!(
        bytes,
        vec![
            0x10, 0x12, 0x00, 0x04, b'M', b'Q', b'T', b'T', 0x04, 0x02, 0x12, 0x34, 0x00, 0x06,
            b'a', b'b', b'c', b'1', b'2', b'3',
        ]
    );
}

#[test]
fn connect_does_not_send_username_and_password() {
    let with: ConnectPacket = ConnectPacket {
        client_id: None,
        username: Some(String::from("test")),
        password: Some(String::from("secret")),
        keep_alive: 60,
    };
    assert_eq!(with.bytes(), connect(None, 60).bytes());
}

#[test]
fn connect_first_byte_and_remaining_length() {
    for id in [None, Some("a"), Some("abc123"), Some("a2345678901234567890123")] {
        let bytes: Vec<u8> = connect(id, 7).bytes().unwrap();
        assert_eq!(bytes[0] >> 4, 1);
        assert_eq!(bytes[0] & 0x0F, 0);
        assert_eq!(bytes[1] as usize, bytes.len() - 2);
    }
}

#[test]
fn connect_with_invalid_client_id_is_an_error() {
    assert_eq!(connect(Some(""), 60).bytes(), Err(EncodeError::InvalidClientId));
    assert_eq!(
        Packet::Connect(connect(Some("bad id!"), 60)).encode(),
        Err(EncodeError::InvalidClientId)
    );
    assert_eq!(
        Packet::Connect(connect(Some("a23456789012345678901234"), 60)).encode(),
        Err(EncodeError::InvalidClientId)
    );
}

#[test]
fn connack_wire_form() {
    let packet: ConnackPacket =
        ConnackPacket { flags: 1, return_code: ConnackReturnCode::NotAuthorized };
    assert_eq!(packet.bytes(), vec![0x20, 0x02, 0x01, 0x05]);
    assert_eq!(Packet::Connack(packet).encode(), Ok(vec![0x20, 0x02, 0x01, 0x05]));
}

#[test]
fn connack_accepted_comes_back() {
    for flags in [0u8, 1, 0xFF] {
        let sent: ConnackPacket = ConnackPacket { flags, return_code: ConnackReturnCode::Accepted };
        let bytes: Vec<u8> = Packet::Connack(sent).encode().unwrap();
        match Packet::from_frame(bytes) {
            Ok(Packet::Connack(received)) => {
                assert_eq!(received.return_code, ConnackReturnCode::Accepted);
                assert_eq!(received, sent);
            }
            other => panic!("not a connack: {:?}", other),
        }
    }
}

#[test]
fn connack_unmapped_return_code_is_kept() {
    match Packet::from_frame(vec![0x20, 0x02, 0x00, 200]) {
        Ok(Packet::Connack(received)) => {
            assert_eq!(received.flags, 0);
            assert_eq!(received.return_code, ConnackReturnCode::Unknown(200));
        }
        other => panic!("not a connack: {:?}", other),
    }
}

#[test]
fn connack_return_codes_by_byte() {
    assert_eq!(ConnackReturnCode::from_code(0), ConnackReturnCode::Accepted);
    assert_eq!(ConnackReturnCode::from_code(1), ConnackReturnCode::UnacceptableProtocolVersion);
    assert_eq!(ConnackReturnCode::from_code(2), ConnackReturnCode::IdentifierRejected);
    assert_eq!(ConnackReturnCode::from_code(3), ConnackReturnCode::ServerUnavailable);
    assert_eq!(ConnackReturnCode::from_code(4), ConnackReturnCode::BadCredentials);
    assert_eq!(ConnackReturnCode::from_code(5), ConnackReturnCode::NotAuthorized);
    assert_eq!(ConnackReturnCode::from_code(6), ConnackReturnCode::Unknown(6));
    assert_eq!(ConnackReturnCode::from_code(255), ConnackReturnCode::Unknown(255));
    let mut code: u8 = 0;
    loop {
        assert_eq!(ConnackReturnCode::from_code(code).code(), code);
        if code == 255 {
            break;
        }
        code += 1;
    }
}

#[test]
fn connack_unknown_with_a_named_byte_comes_back_named() {
    let sent: ConnackPacket = ConnackPacket { flags: 0, return_code: ConnackReturnCode::Unknown(3) };
    match Packet::from_frame(sent.bytes()) {
        Ok(Packet::Connack(received)) => {
            assert_eq!(received.return_code, ConnackReturnCode::ServerUnavailable);
        }
        other => panic!("not a connack: {:?}", other),
    }
}

#[test]
fn connack_body_reads_two_bytes() {
    assert_eq!(
        ConnackPacket::decode(&[0x01, 0x04]),
        Ok(ConnackPacket { flags: 1, return_code: ConnackReturnCode::BadCredentials })
    );
    assert_eq!(
        ConnackPacket::decode(&[0x00, 0x00, 0xAA]),
        Ok(ConnackPacket { flags: 0, return_code: ConnackReturnCode::Accepted })
    );
    assert_eq!(ConnackPacket::decode(&[]), Err(DecodeError::ShortBody));
    assert_eq!(ConnackPacket::decode(&[0x00]), Err(DecodeError::ShortBody));
}

#[test]
fn connack_frame_with_short_body_is_an_error() {
    assert!(matches!(Packet::from_frame(vec![0x20, 0x01, 0x00]), Err(DecodeError::ShortBody)));
    assert!(matches!(Packet::from_frame(vec![0x20, 0x00]), Err(DecodeError::ShortBody)));
}

#[test]
fn subscribe_one_topic() {
    let bytes: Vec<u8> = Packet::Subscribe(subscribe(&["a/b"])).encode().unwrap();
    assert_eq!(bytes, vec![0x82, 0x08, 0x00, 0x01, 0x00, 0x03, b'a', b'/', b'b', 0x02]);
}

#[test]
fn subscribe_keeps_the_order_of_topics() {
    let bytes: Vec<u8> = subscribe(&["b", "a", "#"]).bytes().unwrap();
    assert_eq!(
        bytes,
        vec![
            0x82, 0x0E, 0x00, 0x01, 0x00, 0x01, b'b', 0x02, 0x00, 0x01, b'a', 0x02, 0x00, 0x01,
            b'#', 0x02,
        ]
    );
}

#[test]
fn subscribe_without_topics() {
    assert_eq!(subscribe(&[]).bytes(), Ok(vec![0x82, 0x02, 0x00, 0x01]));
}

#[test]
fn subscribe_topic_is_sent_as_utf8() {
    let bytes: Vec<u8> = subscribe(&["\u{e9}"]).bytes().unwrap();
    assert_eq!(bytes, vec![0x82, 0x07, 0x00, 0x01, 0x00, 0x02, 0xC3, 0xA9, 0x02]);
}

#[test]
fn subscribe_with_a_long_tail_has_a_longer_length_field() {
    let topic: String = "t".repeat(200);
    let bytes: Vec<u8> = subscribe(&[&topic]).bytes().unwrap();
    // tail: 2 + 2 + 200 + 1 = 205 = 1 * 128 + 77
    assert_eq!(&bytes[..3], &[0x82, 0xCD, 0x01]);
    assert_eq!(bytes.len(), 3 + 205);
    assert_eq!(&bytes[3..7], &[0x00, 0x01, 0x00, 0xC8]);
    assert_eq!(bytes[bytes.len() - 1], 0x02);
}

#[test]
fn subscribe_topic_of_65535_bytes_fits() {
    let topic: String = "t".repeat(65_535);
    let bytes: Vec<u8> = subscribe(&[&topic]).bytes().unwrap();
    // tail: 2 + 2 + 65535 + 1 = 65540 = 4 * 16384 + 0 * 128 + 4
    assert_eq!(&bytes[..4], &[0x82, 0x84, 0x80, 0x04]);
    assert_eq!(&bytes[4..8], &[0x00, 0x01, 0xFF, 0xFF]);
    assert_eq!(bytes.len(), 4 + 65_540);
}

#[test]
fn subscribe_topic_of_65536_bytes_is_an_error() {
    let topic: String = "t".repeat(65_536);
    assert_eq!(subscribe(&[&topic]).bytes(), Err(EncodeError::TopicTooLong));
    assert_eq!(
        Packet::Subscribe(subscribe(&["ok", &topic, "ok"])).encode(),
        Err(EncodeError::TopicTooLong)
    );
}

#[test]
fn unknown_packet_keeps_its_bytes() {
    let packet: UnknownPacket = UnknownPacket::new(vec![0xC0, 0x00]);
    assert_eq!(packet.type_id(), 12);
    assert_eq!(packet.bytes(), &vec![0xC0, 0x00]);
    assert_eq!(Packet::Unknown(packet).encode(), Ok(vec![0xC0, 0x00]));
    let short: UnknownPacket = UnknownPacket::new(vec![0x35]);
    assert_eq!(short.type_id(), 3);
    assert_eq!(short.bytes(), &vec![0x35]);
}

#[test]
fn frame_of_unknown_type_is_kept_whole() {
    let frame: Vec<u8> = vec![0x3B, 0x05, 0x00, 0x01, b'a', 0x01, 0x02];
    match Packet::from_frame(frame.clone()) {
        Ok(Packet::Unknown(packet)) => {
            assert_eq!(packet.type_id(), 3);
            assert_eq!(packet.bytes(), &frame);
            assert_eq!(Packet::Unknown(packet).encode(), Ok(frame));
        }
        other => panic!("not an unknown packet: {:?}", other),
    }
}

#[test]
fn from_bytes_and_decode_agree() {
    let bytes: Vec<u8> = vec![0x20, 0x01, 0x02];
    match (Packet::from_bytes(bytes.clone()), decode(bytes)) {
        (Ok(Packet::Connack(a)), Ok(Packet::Connack(b))) => {
            assert_eq!(a, b);
            assert_eq!(
                a,
                ConnackPacket { flags: 1, return_code: ConnackReturnCode::IdentifierRejected }
            );
        }
        other => panic!("not two connacks: {:?}", other),
    }
}

#[test]
fn decode_reads_flags_and_return_code_behind_the_first_byte() {
    let mut flags: u8 = 0;
    loop {
        match decode(vec![0x20, flags, 0x00]) {
            Ok(Packet::Connack(received)) => {
                assert_eq!(received.flags, flags);
                assert_eq!(received.return_code, ConnackReturnCode::Accepted);
            }
            other => panic!("not a connack: {:?}", other),
        }
        if flags == 255 {
            break;
        }
        flags += 1;
    }
}

#[test]
fn decode_of_the_first_byte_and_body_of_an_encoded_connack() {
    for flags in [0u8, 1, 0x80] {
        let sent: ConnackPacket = ConnackPacket { flags, return_code: ConnackReturnCode::Accepted };
        let wire: Vec<u8> = Packet::Connack(sent).encode().unwrap();
        let mut bytes: Vec<u8> = vec![wire[0]];
        bytes.extend_from_slice(&wire[2..]);
        match decode(bytes) {
            Ok(Packet::Connack(received)) => assert_eq!(received, sent),
            other => panic!("not a connack: {:?}", other),
        }
    }
}

#[test]
fn decode_keeps_an_unmapped_return_code() {
    match decode(vec![0x20, 0x00, 200]) {
        Ok(Packet::Connack(received)) => {
            assert_eq!(received.flags, 0);
            assert_eq!(received.return_code, ConnackReturnCode::Unknown(200));
        }
        other => panic!("not a connack: {:?}", other),
    }
}

#[test]
fn decode_ignores_the_flags_in_the_first_byte_and_what_follows_the_return_code() {
    match Packet::from_bytes(vec![0x2F, 0x01, 0x05, 0xAA, 0xBB]) {
        Ok(Packet::Connack(received)) => {
            assert_eq!(received.flags, 1);
            assert_eq!(received.return_code, ConnackReturnCode::NotAuthorized);
        }
        other => panic!("not a connack: {:?}", other),
    }
}

#[test]
fn decode_keeps_bytes_of_another_type_as_they_are() {
    let inputs: Vec<Vec<u8>> = vec![
        vec![0x90, 0x00, 0x01, 0x00],
        vec![0x30],
        vec![0xC0, 0x00, 0xC0, 0x00],
        vec![0x10, 0x80, 0x80, 0x80, 0x80, 0x01],
        vec![0x82, 0x05, 0x01],
        vec![0x00],
        vec![0xFF, 0xFF],
    ];
    for bytes in inputs {
        match decode(bytes.clone()) {
            Ok(Packet::Unknown(packet)) => {
                assert_eq!(packet.type_id(), bytes[0] >> 4);
                assert_eq!(packet.bytes(), &bytes);
                assert_eq!(Packet::Unknown(packet).encode(), Ok(bytes));
            }
            other => panic!("not an unknown packet: {:?}", other),
        }
    }
}

#[test]
fn decode_rejects_no_bytes_and_a_short_connack() {
    assert!(matches!(decode(vec![]), Err(DecodeError::Truncated)));
    assert!(matches!(Packet::from_bytes(vec![]), Err(DecodeError::Truncated)));
    assert!(matches!(decode(vec![0x20]), Err(DecodeError::ShortBody)));
    assert!(matches!(decode(vec![0x20, 0x00]), Err(DecodeError::ShortBody)));
    assert!(matches!(Packet::from_bytes(vec![0x2A, 0x05]), Err(DecodeError::ShortBody)));
}

#[test]
fn connect_and_subscribe_are_read_back_as_unknown_with_the_same_bytes() {
    let packets: Vec<Packet> = vec![
        Packet::Connect(connect(None, 60)),
        Packet::Connect(connect(Some("abc123"), 10)),
        Packet::Subscribe(subscribe(&["a/b", "c"])),
    ];
    let type_ids: [u8; 3] = [1, 1, 8];
    for (packet, type_id) in packets.iter().zip(type_ids) {
        let bytes: Vec<u8> = packet.encode().unwrap();
        match Packet::from_frame(bytes.clone()) {
            Ok(Packet::Unknown(read)) => {
                assert_eq!(read.type_id(), type_id);
                assert_eq!(read.bytes(), &bytes);
            }
            other => panic!("not an unknown packet: {:?}", other),
        }
    }
}

#[test]
fn from_frame_rejects_bytes_that_end_early() {
    assert!(matches!(Packet::from_frame(vec![]), Err(DecodeError::Truncated)));
    assert!(matches!(Packet::from_frame(vec![0x30]), Err(DecodeError::Truncated)));
    assert!(matches!(Packet::from_frame(vec![0x30, 0x80]), Err(DecodeError::Truncated)));
    assert!(matches!(Packet::from_frame(vec![0x30, 0x05, 0x01]), Err(DecodeError::Truncated)));
    assert!(matches!(Packet::from_frame(vec![0x20, 0x02, 0x00]), Err(DecodeError::Truncated)));
}

#[test]
fn from_frame_rejects_bytes_behind_the_frame() {
    assert!(matches!(Packet::from_frame(vec![0x30, 0x01, 0x01, 0x02]), Err(DecodeError::TrailingBytes)));
    assert!(matches!(Packet::from_frame(vec![0xC0, 0x00, 0xC0, 0x00]), Err(DecodeError::TrailingBytes)));
}

#[test]
fn from_frame_rejects_a_malformed_length() {
    assert!(matches!(
        Packet::from_frame(vec![0x30, 0x80, 0x80, 0x80, 0x80, 0x01]),
        Err(DecodeError::MalformedLength)
    ));
    assert!(matches!(
        Packet::from_frame(vec![0x20, 0xFF, 0xFF, 0xFF, 0xFF]),
        Err(DecodeError::MalformedLength)
    ));
}

#[test]
fn subscribe_tail_above_the_maximum_is_an_error() {
    let topic: String = "t".repeat(65_535);
    let mut subscriptions: Vec<Subscription> = Vec::new();
    for _ in 0..4096 {
        subscriptions.push(Subscription { topic: topic.clone() });
    }
    // tail: 2 + 4096 * (2 + 65535 + 1) = 268_443_650, above 268_435_455
    assert_eq!(SubscribePacket { subscriptions }.bytes(), Err(EncodeError::ValueTooLarge));
}
