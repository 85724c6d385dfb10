use dbus_wire::dbus_writer::DbusWriter;
use dbus_wire::message::{
    Body, Header, HeaderField, HeaderFieldCode, HeaderFlags, MajorProtocolVersion, Message,
    MessageType, MAX_MESSAGE_SIZE, NO_AUTO_START, NO_REPLY_EXPECTED,
};
use dbus_wire::names::{BusName, MemberName};
use dbus_wire::type_system::{ObjectPath, Serial, Signature};
use dbus_wire::wire::{DecodeError, EncodeError, Endianness};

fn sample_header(e: Endianness, body_len: u32) -> Header {
    Header {
        endianess_flag: e,
        message_type: MessageType::MethodCall,
        flags: HeaderFlags(NO_REPLY_EXPECTED),
        major_protocol_version: MajorProtocolVersion(1),
        length_message_body: body_len,
        serial: Serial(7),
        header_fields: vec![
            HeaderField::Path(ObjectPath::from_str("/org/example/Object").unwrap()),
            HeaderField::Member(MemberName::from_str("Frobnicate").unwrap()),
            HeaderField::Destination(BusName::from_str("org.example.Bus").unwrap()),
            HeaderField::Signature(Signature::from_str("ay").unwrap()),
        ],
    }
}

#[test]
fn messages_round_trip_in_both_byte_orders() {
    for e in [Endianness::Little, Endianness::Big] {
        let msg = Message::new(sample_header(e, 4), Body { data: vec![1, 2, 3, 4] }).unwrap();
        let bytes = msg.encode().unwrap();
        let back = Message::decode(bytes).unwrap();
        assert_eq!(back.header.endianess_flag, e);
        assert_eq!(back.header.message_type, MessageType::MethodCall);
        assert_eq!(back.header.flags, HeaderFlags(NO_REPLY_EXPECTED));
        assert_eq!(back.header.major_protocol_version, MajorProtocolVersion(1));
        assert_eq!(back.header.length_message_body, 4);
        assert_eq!(back.header.serial, Serial(7));
        assert_eq!(back.header.header_fields, msg.header.header_fields);
        assert_eq!(back.body.data, vec![1, 2, 3, 4]);
    }
}

#[test]
fn method_return_has_exact_wire_layout() {
    let header = Header {
        endianess_flag: Endianness::Little,
        message_type: MessageType::MethodReturn,
        flags: HeaderFlags(0),
        major_protocol_version: MajorProtocolVersion(1),
        length_message_body: 0,
        serial: Serial(5),
        header_fields: vec![HeaderField::ReplySerial(Serial(9))],
    };
    let msg = Message::new(header, Body { data: vec![] }).unwrap();
    assert_eq!(
        msg.encode().unwrap(),
        vec![
            0x6c, 2, 0, 1, // endianness, type, flags, version
            0, 0, 0, 0, // body length
            5, 0, 0, 0, // serial
            8, 0, 0, 0, // fields array byte length
            5, 0, 0, 0, // field code 5, padding to the u32
            9, 0, 0, 0, // reply serial
        ]
    );
    let header_be = Header {
        endianess_flag: Endianness::Big,
        message_type: MessageType::MethodReturn,
        flags: HeaderFlags(0),
        major_protocol_version: MajorProtocolVersion(1),
        length_message_body: 0,
        serial: Serial(5),
        header_fields: vec![HeaderField::ReplySerial(Serial(9))],
    };
    let msg_be = Message::new(header_be, Body { data: vec![] }).unwrap();
    assert_eq!(
        msg_be.encode().unwrap(),
        vec![
            0x42, 2, 0, 1,
            0, 0, 0, 0,
            0, 0, 0, 5,
            0, 0, 0, 8,
            5, 0, 0, 0,
            0, 0, 0, 9,
        ]
    );
}

#[test]
fn method_call_without_path_fails_before_serialization() {
    let header = Header {
        endianess_flag: Endianness::Little,
        message_type: MessageType::MethodCall,
        flags: HeaderFlags(0),
        major_protocol_version: MajorProtocolVersion(1),
        length_message_body: 0,
        serial: Serial(1),
        header_fields: vec![HeaderField::Member(MemberName::from_str("Ping").unwrap())],
    };
    assert_eq!(
        Message::new(header, Body { data: vec![] }),
        Err(EncodeError::MissingRequiredField)
    );
}

#[test]
fn construction_rejects_each_invalid_shape() {
    // invalid message type
    let mut h = sample_header(Endianness::Little, 0);
    h.message_type = MessageType::Invalid;
    h.header_fields.truncate(0);
    assert_eq!(
        Message::new(h, Body { data: vec![] }),
        Err(EncodeError::InvalidMessageType)
    );
    // zero serial
    let mut h = sample_header(Endianness::Little, 0);
    h.serial = Serial(0);
    assert_eq!(Message::new(h, Body { data: vec![] }), Err(EncodeError::ZeroSerial));
    // an Invalid-tagged field
    let mut h = sample_header(Endianness::Little, 0);
    h.header_fields.push(HeaderField::Invalid);
    assert_eq!(
        Message::new(h, Body { data: vec![] }),
        Err(EncodeError::InvalidHeaderField)
    );
    // a field carrying a string that fails its grammar
    let mut h = sample_header(Endianness::Little, 0);
    h.header_fields.push(HeaderField::Path(ObjectPath("not/absolute".to_string())));
    assert_eq!(Message::new(h, Body { data: vec![] }), Err(EncodeError::InvalidName));
    // body length that lies
    let h = sample_header(Endianness::Little, 3);
    assert_eq!(
        Message::new(h, Body { data: vec![1, 2] }),
        Err(EncodeError::BodyLengthMismatch)
    );
    // a body with no signature field
    let mut h = sample_header(Endianness::Little, 2);
    h.header_fields.pop();
    assert_eq!(
        Message::new(h, Body { data: vec![1, 2] }),
        Err(EncodeError::BodyWithoutSignature)
    );
}

#[test]
fn raw_write_validates_before_emitting_a_byte() {
    // a method call missing its path never reaches the buffer
    let header = Header {
        endianess_flag: Endianness::Little,
        message_type: MessageType::MethodCall,
        flags: HeaderFlags(0),
        major_protocol_version: MajorProtocolVersion(1),
        length_message_body: 0,
        serial: Serial(1),
        header_fields: vec![HeaderField::Member(MemberName::from_str("Ping").unwrap())],
    };
    let msg = Message { header, body: Body { data: vec![] } };
    let mut w = DbusWriter::new(Endianness::Little);
    assert_eq!(msg.write(&mut w), Err(EncodeError::MissingRequiredField));
    assert_eq!(w.into_bytes(), Vec::<u8>::new());

    // a header declaring body bytes that will not follow
    let h = sample_header(Endianness::Little, 7);
    let msg = Message { header: h, body: Body { data: vec![] } };
    let mut w = DbusWriter::new(Endianness::Little);
    assert_eq!(msg.write(&mut w), Err(EncodeError::BodyLengthMismatch));
    assert_eq!(w.into_bytes(), Vec::<u8>::new());

    // a zero serial is rejected at the header itself
    let mut h = sample_header(Endianness::Little, 0);
    h.serial = Serial(0);
    let mut w = DbusWriter::new(Endianness::Little);
    assert_eq!(h.write(&mut w), Err(EncodeError::ZeroSerial));
    assert_eq!(w.into_bytes(), Vec::<u8>::new());

    // an oversize message leaves the buffer as it was
    let body_len = MAX_MESSAGE_SIZE + 1;
    let msg = Message {
        header: sample_header(Endianness::Little, body_len as u32),
        body: Body { data: vec![0u8; body_len] },
    };
    let mut w = DbusWriter::new(Endianness::Little);
    assert_eq!(msg.write(&mut w), Err(EncodeError::SizeExceeded));
    assert_eq!(w.into_bytes(), Vec::<u8>::new());
}

#[test]
fn oversize_message_is_rejected_on_encode_and_decode() {
    let body_len = MAX_MESSAGE_SIZE + 1;
    let msg = Message::new(
        sample_header(Endianness::Little, body_len as u32),
        Body { data: vec![0u8; body_len] },
    )
    .unwrap();
    assert_eq!(msg.encode(), Err(EncodeError::SizeExceeded));

    let huge = vec![0u8; MAX_MESSAGE_SIZE + 1];
    assert_eq!(Message::decode(huge), Err(DecodeError::SizeExceeded));
}

#[test]
fn decode_fails_closed_on_malformed_input() {
    // too short for the fixed header
    assert_eq!(Message::decode(vec![0x6c]), Err(DecodeError::Truncated));
    // unknown endianness byte
    assert_eq!(Message::decode(vec![9; 16]), Err(DecodeError::InvalidEndianness));
    // unknown message type byte
    let bytes = vec![0x6c, 9, 0, 1, 0, 0, 0, 0, 1, 0, 0, 0, 0, 0, 0, 0];
    assert_eq!(Message::decode(bytes), Err(DecodeError::InvalidMessageType));
    // zero serial
    let bytes = vec![0x6c, 1, 0, 1, 0, 0, 0, 0, 0, 0, 0, 0, 0, 0, 0, 0];
    assert_eq!(Message::decode(bytes), Err(DecodeError::ZeroSerial));
    // the Invalid field code
    let bytes = vec![0x6c, 1, 0, 1, 0, 0, 0, 0, 1, 0, 0, 0, 2, 0, 0, 0, 0, 0];
    assert_eq!(Message::decode(bytes), Err(DecodeError::InvalidHeaderField));
}

#[test]
fn decode_enforces_mandatory_fields_and_body_signature() {
    // a method call carrying only a member field
    let bytes = vec![
        0x6c, 1, 0, 1, // endianness, method call, flags, version
        0, 0, 0, 0, // body length
        1, 0, 0, 0, // serial
        10, 0, 0, 0, // fields array byte length
        3, 0, 0, 0, // member field code, padding
        1, 0, 0, 0, // string length 1
        b'A', 0, // "A" and its terminator
        0, 0, 0, 0, 0, 0, // padding to the 8-byte boundary
    ];
    assert_eq!(Message::decode(bytes), Err(DecodeError::MissingRequiredField));

    // a method return with a body byte but no signature field
    let bytes = vec![
        0x6c, 2, 0, 1, // endianness, method return, flags, version
        1, 0, 0, 0, // body length 1
        1, 0, 0, 0, // serial
        8, 0, 0, 0, // fields array byte length
        5, 0, 0, 0, // reply-serial field code, padding
        9, 0, 0, 0, // reply serial
        0xaa, // the body byte
    ];
    assert_eq!(Message::decode(bytes), Err(DecodeError::BodyWithoutSignature));
}

#[test]
fn decode_rejects_corrupted_padding_and_trailing_bytes() {
    // drop the signature field so the empty body is legal
    let mut h = sample_header(Endianness::Little, 0);
    h.header_fields.pop();
    let msg = Message::new(h, Body { data: vec![] }).unwrap();
    let good = msg.encode().unwrap();
    assert!(Message::decode(good.clone()).is_ok());

    // a byte beyond the declared end
    let mut trailing = good.clone();
    trailing.push(0);
    assert_eq!(Message::decode(trailing), Err(DecodeError::TrailingBytes));

    // a non-zero byte inside the path field's alignment padding: the path
    // string's length prefix is 4-aligned after the code byte at offset 16
    let mut corrupt = good.clone();
    corrupt[17] = 1;
    assert_eq!(Message::decode(corrupt), Err(DecodeError::NonZeroPadding));

    // cut the message short
    let mut short = good.clone();
    short.truncate(good.len() - 1);
    assert!(Message::decode(short).is_err());
}

#[test]
fn field_codes_travel_as_their_documented_bytes() {
    let path = HeaderField::Path(ObjectPath::from_str("/x").unwrap());
    assert_eq!(path.code(), HeaderFieldCode::Path);
    assert_eq!(HeaderFieldCode::Invalid.byte(), 0);
    assert_eq!(HeaderFieldCode::Path.byte(), 1);
    assert_eq!(HeaderFieldCode::Interface.byte(), 2);
    assert_eq!(HeaderFieldCode::Member.byte(), 3);
    assert_eq!(HeaderFieldCode::ErrorName.byte(), 4);
    assert_eq!(HeaderFieldCode::ReplySerial.byte(), 5);
    assert_eq!(HeaderFieldCode::Destination.byte(), 6);
    assert_eq!(HeaderFieldCode::Sender.byte(), 7);
    assert_eq!(HeaderFieldCode::Signature.byte(), 8);
    assert_eq!(HeaderFieldCode::UnixFds.byte(), 9);
    assert_eq!(HeaderField::UnixFds(2).code(), HeaderFieldCode::UnixFds);
}

#[test]
fn header_flags_have_distinct_bits() {
    assert_ne!(NO_REPLY_EXPECTED, NO_AUTO_START);
    let f = HeaderFlags(NO_REPLY_EXPECTED | NO_AUTO_START);
    assert!(f.contains(NO_REPLY_EXPECTED));
    assert!(f.contains(NO_AUTO_START));
    assert!(!HeaderFlags::empty().contains(NO_REPLY_EXPECTED));
    assert_eq!(f.bits(), 0x3);
}
