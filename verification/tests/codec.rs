use dbus_wire::dbus_writer::DbusWriter;
use dbus_wire::reader::DbusReader;
use dbus_wire::type_system::{ObjectPath, Serial, Signature};
use dbus_wire::wire::{DecodeError, EncodeError, Endianness};

#[test]
fn u32_after_one_byte_emits_exactly_three_zero_padding_bytes() {
    let mut w = DbusWriter::new(Endianness::Little);
    w.write_u8(0xab).unwrap();
    w.write_u32(0x0102_0304).unwrap();
    assert_eq!(w.into_bytes(), vec![0xab, 0, 0, 0, 0x04, 0x03, 0x02, 0x01]);

    let mut w = DbusWriter::new(Endianness::Big);
    w.write_u8(0xab).unwrap();
    w.write_u32(0x0102_0304).unwrap();
    assert_eq!(w.into_bytes(), vec![0xab, 0, 0, 0, 0x01, 0x02, 0x03, 0x04]);
}

#[test]
fn primitive_values_round_trip_in_both_byte_orders() {
    for e in [Endianness::Little, Endianness::Big] {
        let mut w = DbusWriter::new(e);
        w.write_u8(7).unwrap();
        w.write_boolean(true).unwrap();
        w.write_u16(0xbeef).unwrap();
        w.write_i16(-2).unwrap();
        w.write_u32(0xdead_beef).unwrap();
        w.write_i32(-40_000).unwrap();
        w.write_u64(0x0123_4567_89ab_cdef).unwrap();
        w.write_i64(-5_000_000_000).unwrap();
        let mut r = DbusReader::new(w.into_bytes(), e);
        assert_eq!(r.read_u8(), Ok(7));
        assert_eq!(r.read_boolean(), Ok(true));
        assert_eq!(r.read_u16(), Ok(0xbeef));
        assert_eq!(r.read_i16(), Ok(-2));
        assert_eq!(r.read_u32(), Ok(0xdead_beef));
        assert_eq!(r.read_i32(), Ok(-40_000));
        assert_eq!(r.read_u64(), Ok(0x0123_4567_89ab_cdef));
        assert_eq!(r.read_i64(), Ok(-5_000_000_000));
    }
}

#[test]
fn strings_round_trip_unchanged() {
    for e in [Endianness::Little, Endianness::Big] {
        let mut w = DbusWriter::new(e);
        w.write_u8(1).unwrap();
        w.write_string("h\u{e9}llo w\u{f6}rld \u{2603}").unwrap();
        w.write_string("").unwrap();
        let mut r = DbusReader::new(w.into_bytes(), e);
        assert_eq!(r.read_u8(), Ok(1));
        assert_eq!(r.read_string(), Ok("h\u{e9}llo w\u{f6}rld \u{2603}".to_string()));
        assert_eq!(r.read_string(), Ok("".to_string()));
    }
}

#[test]
fn string_wire_form_is_length_bytes_and_nul() {
    let mut w = DbusWriter::new(Endianness::Little);
    w.write_string("ab").unwrap();
    assert_eq!(w.into_bytes(), vec![2, 0, 0, 0, b'a', b'b', 0]);
}

#[test]
fn object_path_and_signature_round_trip() {
    let mut w = DbusWriter::new(Endianness::Little);
    let path = ObjectPath::from_str("/org/example/Object").unwrap();
    let sig = Signature::from_str("a{sv}").unwrap();
    w.write_object_path(path.clone()).unwrap();
    w.write_signature(sig.clone()).unwrap();
    let mut r = DbusReader::new(w.into_bytes(), Endianness::Little);
    assert_eq!(r.read_object_path(), Ok(path));
    assert_eq!(r.read_signature(), Ok(sig));
}

#[test]
fn signature_wire_form_uses_single_length_byte() {
    let mut w = DbusWriter::new(Endianness::Little);
    w.write_signature(Signature::from_str("ii").unwrap()).unwrap();
    assert_eq!(w.into_bytes(), vec![2, b'i', b'i', 0]);
}

#[test]
fn oversize_signature_fails_to_encode_never_truncated() {
    let raw = Signature(String::from_utf8(vec![b'i'; 256]).unwrap());
    let mut w = DbusWriter::new(Endianness::Little);
    assert_eq!(w.write_signature(raw), Err(EncodeError::SignatureTooLong));
    assert_eq!(w.into_bytes(), Vec::<u8>::new());
}

#[test]
fn byte_arrays_round_trip_with_a_u32_length_prefix() {
    let mut w = DbusWriter::new(Endianness::Little);
    w.write_array(&vec![1, 2, 3]).unwrap();
    assert_eq!(w.into_bytes(), vec![3, 0, 0, 0, 1, 2, 3]);
    let mut r = DbusReader::new(vec![3, 0, 0, 0, 1, 2, 3], Endianness::Little);
    assert_eq!(r.read_array(), Ok(vec![1, 2, 3]));
    // a declared length running past the end fails closed
    let mut r = DbusReader::new(vec![9, 0, 0, 0, 1], Endianness::Little);
    assert_eq!(r.read_array(), Err(DecodeError::Truncated));
}

#[test]
fn generic_arrays_pad_to_the_element_alignment() {
    // two serials after one byte: the u32 length field pads to 4, the
    // 4-aligned elements follow it directly
    let mut w = DbusWriter::new(Endianness::Little);
    w.write_u8(1).unwrap();
    w.write_array_of(&vec![Serial(1), Serial(2)]).unwrap();
    assert_eq!(
        w.into_bytes(),
        vec![1, 0, 0, 0, 8, 0, 0, 0, 1, 0, 0, 0, 2, 0, 0, 0]
    );
    // signatures have alignment 1: no padding between the length and the
    // first element
    let mut w = DbusWriter::new(Endianness::Little);
    let sigs = vec![Signature::from_str("i").unwrap(), Signature::from_str("ay").unwrap()];
    w.write_array_of(&sigs).unwrap();
    assert_eq!(w.into_bytes(), vec![7, 0, 0, 0, 1, b'i', 0, 2, b'a', b'y', 0]);
    // an empty array still carries its length field
    let mut w = DbusWriter::new(Endianness::Big);
    w.write_array_of(&Vec::<Serial>::new()).unwrap();
    assert_eq!(w.into_bytes(), vec![0, 0, 0, 0]);
}

#[test]
fn boolean_decodes_only_zero_and_one() {
    let mut r = DbusReader::new(vec![0, 0, 0, 0], Endianness::Little);
    assert_eq!(r.read_boolean(), Ok(false));
    let mut r = DbusReader::new(vec![2, 0, 0, 0], Endianness::Little);
    assert_eq!(r.read_boolean(), Err(DecodeError::InvalidBoolean));
    let mut r = DbusReader::new(vec![0, 0, 0, 1], Endianness::Big);
    assert_eq!(r.read_boolean(), Ok(true));
}

#[test]
fn non_zero_alignment_padding_is_a_decode_error() {
    // one byte, a non-zero pad byte, then four value bytes
    let mut r = DbusReader::new(vec![9, 1, 0, 0, 5, 0, 0, 0], Endianness::Little);
    assert_eq!(r.read_u8(), Ok(9));
    assert_eq!(r.read_u32(), Err(DecodeError::NonZeroPadding));
}

#[test]
fn truncated_input_is_a_decode_error_and_position_is_kept() {
    let mut r = DbusReader::new(vec![1, 2, 3], Endianness::Little);
    assert_eq!(r.read_u32(), Err(DecodeError::Truncated));
    assert_eq!(r.read_u8(), Ok(1));
}

#[test]
fn string_decode_fails_closed() {
    // declared length runs past the end
    let mut r = DbusReader::new(vec![9, 0, 0, 0, b'a', 0], Endianness::Little);
    assert_eq!(r.read_string(), Err(DecodeError::Truncated));
    // missing NUL terminator
    let mut r = DbusReader::new(vec![1, 0, 0, 0, b'a', 7], Endianness::Little);
    assert_eq!(r.read_string(), Err(DecodeError::MissingNulTerminator));
    // invalid UTF-8
    let mut r = DbusReader::new(vec![2, 0, 0, 0, 0xff, 0xfe, 0], Endianness::Little);
    assert_eq!(r.read_string(), Err(DecodeError::InvalidUtf8));
}

#[test]
fn decoded_object_path_and_signature_are_grammar_checked() {
    // "abc" is not an absolute path
    let mut r = DbusReader::new(vec![3, 0, 0, 0, b'a', b'b', b'c', 0], Endianness::Little);
    assert_eq!(r.read_object_path(), Err(DecodeError::InvalidName));
    // 'z' is no type code
    let mut r = DbusReader::new(vec![1, b'z', 0], Endianness::Little);
    assert_eq!(r.read_signature(), Err(DecodeError::InvalidName));
}
