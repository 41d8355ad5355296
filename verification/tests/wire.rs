use mgen::wire::{WriteProgress};
use mgen::{
    construct_message, construct_receipt, deserialize_str, deserialize_u32,
    get_message_with_header_size, header_size, parse_identifier, serialize_handshake,
    serialize_str, write_progress, Error, Handshake, HandshakeRef, MessageBody, MessageHeader,
    MessageHeaderRef, NonZeroU32, SerializedMessage, INLINE_MAX_SIZE, MAX_BLOCKS_IN_BODY,
    PADDING_BLOCK_SIZE,
};

#[test]
fn serialize_deserialize_message() {
    let m1 = MessageHeader {
        sender: "Alice".to_string(),
        group: "group".to_string(),
        id: 1024,
        body: MessageBody::Size(NonZeroU32::new(256).unwrap()),
    };

    let serialized = m1.serialize();

    let m2 = MessageHeader::deserialize(&serialized.header[4..]).unwrap();
    assert_eq!(m1, m2);
}

#[test]
fn serialize_deserialize_receipt() {
    let m1 = MessageHeader {
        sender: "Alice".to_string(),
        group: "group".to_string(),
        id: 1024,
        body: MessageBody::Receipt,
    };

    let serialized = m1.serialize();

    let m2 = MessageHeader::deserialize(&serialized.header[4..]).unwrap();
    assert_eq!(m1, m2);
}

#[test]
fn deserialize_message_ref() {
    let m1 = MessageHeader {
        sender: "Alice".to_string(),
        group: "group".to_string(),
        id: 1024,
        body: MessageBody::Size(NonZeroU32::new(256).unwrap()),
    };

    let serialized = m1.serialize();

    let m2 = MessageHeaderRef::deserialize(&serialized.header[4..]).unwrap();

    assert_eq!(m1.sender, m2.sender);
    assert_eq!(m1.group, m2.group);
    assert_eq!(m1.body, m2.body);
}

#[test]
fn deserialize_receipt_ref() {
    let m1 = MessageHeader {
        sender: "Alice".to_string(),
        group: "group".to_string(),
        id: 1024,
        body: MessageBody::Receipt,
    };

    let serialized = m1.serialize();

    let m2 = MessageHeaderRef::deserialize(&serialized.header[4..]).unwrap();

    assert_eq!(m1.sender, m2.sender);
    assert_eq!(m1.group, m2.group);
    assert_eq!(m1.body, m2.body);
}

/// The bytes a message occupies on a connection.
fn on_the_wire<const P2P: bool>(m: &SerializedMessage) -> Vec<u8> {
    let mut bytes = m.header.clone();
    bytes.extend(m.inline_body::<P2P>());
    bytes
}

/// Read a message back from the bytes of a connection, as a reader does.
fn read_back<const P2P: bool>(bytes: &[u8]) -> (MessageHeader, usize) {
    let size_bytes: [u8; 4] = bytes[..4].try_into().unwrap();
    let size = header_size(size_bytes) as usize;
    let (header, skip) = get_message_with_header_size::<P2P>(size_bytes, &bytes[4..size]).unwrap();
    assert_eq!(header, bytes[..size].to_vec());
    let m = MessageHeader::deserialize(&header[4..]).unwrap();
    (m, skip + size)
}

fn serialize_get_generic<const P2P: bool>(body: MessageBody) {
    let m1 = MessageHeader {
        sender: "Alice".to_string(),
        group: "group".to_string(),
        id: 1024,
        body,
    };
    let serialized = m1.serialize();
    let bytes = on_the_wire::<P2P>(&serialized);
    let (m2, consumed) = read_back::<P2P>(&bytes);
    assert_eq!(m1, m2);
    assert_eq!(consumed, bytes.len());
}

#[test]
fn serialize_get_message_client() {
    serialize_get_generic::<false>(MessageBody::Size(NonZeroU32::new(256).unwrap()));
}

#[test]
fn serialize_get_message_p2p() {
    serialize_get_generic::<true>(MessageBody::Size(NonZeroU32::new(256).unwrap()));
}

#[test]
fn serialize_get_receipt_client() {
    serialize_get_generic::<false>(MessageBody::Receipt);
}

#[test]
fn serialize_get_receipt_p2p() {
    serialize_get_generic::<true>(MessageBody::Receipt);
}

#[test]
fn attachment_is_not_sent_inline_to_a_server() {
    let big = MessageBody::Size(NonZeroU32::new(4000).unwrap());
    let m = MessageHeader { sender: "A".to_string(), group: "g".to_string(), id: 7, body: big };
    let s = m.serialize();
    let client = on_the_wire::<false>(&s);
    let peer = on_the_wire::<true>(&s);
    assert_eq!(client.len(), s.header.len() + INLINE_MAX_SIZE as usize);
    assert_eq!(peer.len(), s.header.len() + 4000);
    assert_eq!(read_back::<false>(&client).0, m);
    assert_eq!(read_back::<true>(&peer).0, m);
}

fn read_identifier(bytes: &[u8]) -> (String, &[u8]) {
    let len = header_size(bytes[..4].try_into().unwrap()) as usize;
    let s = parse_identifier(&bytes[4..4 + len]).unwrap();
    (s, &bytes[4 + len..])
}

#[test]
fn serialize_get_handshake() {
    let h1 = Handshake {
        sender: "Alice".to_string(),
        group: "group".to_string(),
    };
    let bytes = h1.serialize();
    let (sender, rest) = read_identifier(&bytes);
    let (group, rest) = read_identifier(rest);
    let h2 = Handshake { sender, group };
    assert!(rest.is_empty());
    assert_eq!(h1, h2);
}

#[test]
fn serialize_get_handshake_ref() {
    let h1 = HandshakeRef {
        sender: "Alice",
        group: "group",
    };
    let bytes = h1.serialize();
    let (sender, rest) = read_identifier(&bytes);
    let (group, _) = read_identifier(rest);
    assert_eq!(h1.sender, sender);
    assert_eq!(h1.group, group);
    assert_eq!(bytes, serialize_handshake("Alice", "group"));
}

#[test]
fn header_layout() {
    let m = MessageHeader {
        sender: "Al".to_string(),
        group: "g".to_string(),
        id: 0x01020304,
        body: MessageBody::Size(NonZeroU32::new(320).unwrap()),
    };
    let s = m.serialize();
    assert_eq!(
        s.header,
        vec![0, 0, 0, 23, 0, 0, 0, 2, b'A', b'l', 0, 0, 0, 1, b'g', 1, 2, 3, 4, 0, 0, 1, 64]
    );
    assert_eq!(s.body, m.body);
}

#[test]
fn string_serialization() {
    assert_eq!(serialize_str("abc"), vec![0, 0, 0, 3, b'a', b'b', b'c']);
    assert_eq!(serialize_str(""), vec![0, 0, 0, 0]);
    let mut buf = vec![9];
    mgen::serialize_str_to("é", &mut buf);
    assert_eq!(buf, vec![9, 0, 0, 0, 2, 0xc3, 0xa9]);
}

#[test]
fn deserialize_errors() {
    match deserialize_u32(&[1, 2, 3]) {
        Err(Error::MalformedSerialization(rest, _)) => assert_eq!(rest, vec![1, 2, 3]),
        other => panic!("unexpected {:?}", other),
    }
    match deserialize_str(&[0, 0, 0, 5, b'a', b'b']) {
        Err(Error::MalformedSerialization(rest, _)) => assert_eq!(rest, vec![b'a', b'b']),
        other => panic!("unexpected {:?}", other),
    }
    match deserialize_str(&[0, 0, 0, 2, 0xff, 0xfe, 7]) {
        Err(Error::Utf8Error(_)) => {}
        other => panic!("unexpected {:?}", other),
    }
    let (s, rest) = deserialize_str(&[0, 0, 0, 2, b'h', b'i', 7]).unwrap();
    assert_eq!(s, "hi");
    assert_eq!(rest, &[7]);
    let (x, rest) = deserialize_u32(&[0, 0, 1, 0, 5]).unwrap();
    assert_eq!(x, 256);
    assert_eq!(rest, &[5]);
    assert!(MessageHeader::deserialize(&[0, 0, 0]).is_err());
    match parse_identifier(&[0xc3]) {
        Err(Error::Utf8Error(_)) => {}
        other => panic!("unexpected {:?}", other),
    }
}

#[test]
fn body_sizes() {
    let receipt = MessageBody::Receipt;
    assert!(!receipt.has_attachment());
    assert_eq!(receipt.total_size(), 160);
    assert_eq!(receipt.inline_size::<false>(), 160);
    let small = MessageBody::Size(NonZeroU32::new(INLINE_MAX_SIZE).unwrap());
    assert!(!small.has_attachment());
    assert_eq!(small.inline_size::<false>(), 2240);
    let big = MessageBody::Size(NonZeroU32::new(INLINE_MAX_SIZE + 1).unwrap());
    assert!(big.has_attachment());
    assert_eq!(big.inline_size::<false>(), 2240);
    assert_eq!(big.inline_size::<true>(), 2241);
    assert_eq!(big.total_size(), 2241);
    assert_eq!(PADDING_BLOCK_SIZE, 160);
    assert_eq!(MAX_BLOCKS_IN_BODY, 655360);
    assert!(NonZeroU32::new(0).is_none());
    assert_eq!(NonZeroU32::new(5).unwrap().get(), 5);
}

#[test]
fn constructed_messages_are_padded() {
    let m = construct_message("Alice".to_string(), "group".to_string(), 3, 0);
    assert_eq!(m.body.total_size(), 160);
    let m = construct_message("Alice".to_string(), "group".to_string(), 3, 5);
    assert_eq!(m.body.total_size(), 800);
    let h = MessageHeader::deserialize(&m.header[4..]).unwrap();
    assert_eq!(h.sender, "Alice");
    assert_eq!(h.group, "group");
    assert_eq!(h.id, 3);
    let r = construct_receipt("Bob".to_string(), "Alice".to_string(), 3);
    assert_eq!(r.body, MessageBody::Receipt);
    let h = MessageHeader::deserialize(&r.header[4..]).unwrap();
    assert_eq!(h.sender, "Bob");
    assert_eq!(h.group, "Alice");
    assert_eq!(h.body, MessageBody::Receipt);
}

#[test]
fn write_progress_cases() {
    assert_eq!(write_progress(10, 20, 30), WriteProgress::Complete);
    assert_eq!(write_progress(10, 20, 12), WriteProgress::BodyFrom(2));
    assert_eq!(write_progress(10, 20, 10), WriteProgress::BodyFrom(0));
    assert_eq!(write_progress(10, 20, 0), WriteProgress::WriteZero);
    assert_eq!(write_progress(10, 20, 4), WriteProgress::HeaderFrom(4));
}
