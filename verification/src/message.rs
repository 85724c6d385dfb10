//! Message framing: the header byte layout, the header-fields array, the
//! per-message-type mandatory fields, the 2^27-byte total size limit, and
//! the encode/decode pair whose contracts state that decoding inverts
//! encoding for every well-formed message, in both byte orders.

use crate::dbus_writer::{DbusWrite, DbusWriter};
use crate::names::{valid_dotted_name, valid_member_name, BusName, ErrorName, InterfaceName, MemberName};
use crate::reader::{lemma_string_at_unique, signature_at, string_at, DbusReader};
use crate::type_system::{valid_object_path, valid_signature, ObjectPath, Serial, Signature};
use crate::wire::{
    enc_signature, enc_string_at, enc_u32_at, endianness_byte, lemma_pad_len, lemma_u32_dec_enc,
    lemma_u32_round_trip, pad_len, spec_dec_u32, spec_enc_u32, spec_endianness_byte,
    string_from_utf8, zero_pad, DecodeError, EncodeError, Endianness,
};
use vstd::prelude::*;
use vstd::utf8::encode_utf8;

verus! {

use vstd::arithmetic::div_mod::{lemma_add_mod_noop, lemma_mod_bound, lemma_mod_breakdown};

/// The maximum length of a message, including header, header alignment
/// padding and body: 2^27 bytes (128 MiB). Longer messages are neither
/// sent nor accepted.
pub const MAX_MESSAGE_SIZE: usize = 0x8000000;

/// This message does not expect a reply; the reply should be omitted.
pub const NO_REPLY_EXPECTED: u8 = 0x1;

/// The bus must not launch an owner for the destination name.
pub const NO_AUTO_START: u8 = 0x2;

/// The caller is prepared to wait for interactive authorization.
pub const ALLOW_INTERACTIVE_AUTHORIZATION: u8 = 0x4;

/// Message type. The invalid type can never travel.
#[derive(Copy, Clone, Debug, PartialEq, Eq, Structural)]
pub enum MessageType {
    Invalid,
    /// Method call; may prompt a reply.
    MethodCall,
    /// Method reply with returned data.
    MethodReturn,
    /// Error reply.
    Error,
    /// Signal emission.
    Signal,
}

pub open spec fn spec_message_type_byte(t: MessageType) -> u8 {
    match t {
        MessageType::Invalid => 0,
        MessageType::MethodCall => 1,
        MessageType::MethodReturn => 2,
        MessageType::Error => 3,
        MessageType::Signal => 4,
    }
}

pub fn message_type_byte(t: MessageType) -> (b: u8)
    ensures
        b == spec_message_type_byte(t),
{
    match t {
        MessageType::Invalid => 0,
        MessageType::MethodCall => 1,
        MessageType::MethodReturn => 2,
        MessageType::Error => 3,
        MessageType::Signal => 4,
    }
}

/// The message type a byte names on the wire; the invalid type and unknown
/// bytes name none.
pub open spec fn spec_message_type_from_byte(b: u8) -> Option<MessageType> {
    if b == 1 {
        Some(MessageType::MethodCall)
    } else if b == 2 {
        Some(MessageType::MethodReturn)
    } else if b == 3 {
        Some(MessageType::Error)
    } else if b == 4 {
        Some(MessageType::Signal)
    } else {
        None
    }
}

pub fn message_type_from_byte(b: u8) -> (r: Option<MessageType>)
    ensures
        r == spec_message_type_from_byte(b),
{
    if b == 1 {
        Some(MessageType::MethodCall)
    } else if b == 2 {
        Some(MessageType::MethodReturn)
    } else if b == 3 {
        Some(MessageType::Error)
    } else if b == 4 {
        Some(MessageType::Signal)
    } else {
        None
    }
}

/// The bitwise OR of the header flags; unknown bits are kept and ignored.
/// Each known flag has its own bit.
#[derive(Copy, Clone, Debug, PartialEq, Eq, Structural)]
pub struct HeaderFlags(pub u8);

impl HeaderFlags {
    /// No flag set.
    pub fn empty() -> (r: HeaderFlags)
        ensures
            r.0 == 0,
    {
        HeaderFlags(0)
    }

    /// The raw flag byte.
    pub fn bits(&self) -> (r: u8)
        ensures
            r == self.0,
    {
        self.0
    }

    /// True when every bit of `flag` is set.
    pub fn contains(&self, flag: u8) -> (r: bool)
        ensures
            r == (self.0 & flag == flag),
    {
        self.0 & flag == flag
    }
}

/// Major protocol version of the sending application.
#[derive(Copy, Clone, Debug, PartialEq, Eq, Structural)]
pub struct MajorProtocolVersion(pub u8);

/// The field codes of the header-fields array: a closed set, and the
/// Invalid code is an error wherever it appears.
#[derive(Copy, Clone, Debug, PartialEq, Eq, Structural)]
pub enum HeaderFieldCode {
    Invalid,
    Path,
    Interface,
    Member,
    ErrorName,
    ReplySerial,
    Destination,
    Sender,
    Signature,
    UnixFds,
}

/// One header field: a closed tagged union, one variant per field code.
/// The message type determines which fields are required.
#[derive(Clone, Debug, PartialEq, Eq)]
pub enum HeaderField {
    /// Not a valid field; an error if it appears in a message.
    Invalid,
    /// The object a call is sent to, or a signal is emitted from.
    /// Required for method calls and signals.
    Path(ObjectPath),
    /// The interface of the call or signal. Required for signals.
    Interface(InterfaceName),
    /// The method or signal name. Required for method calls and signals.
    Member(MemberName),
    /// The error that occurred. Required for errors.
    ErrorName(ErrorName),
    /// The serial this message replies to. Required for errors and method
    /// returns.
    ReplySerial(Serial),
    /// The connection the message is intended for. Optional.
    Destination(BusName),
    /// The unique name of the sending connection. Optional.
    Sender(BusName),
    /// The signature of the body; omitted means the empty signature.
    Signature(Signature),
    /// The number of unix file descriptors accompanying the message.
    UnixFds(u32),
}

/// The mathematical shape of one header field: its strings as character
/// sequences, its numbers as themselves.
pub enum HeaderFieldView {
    Invalid,
    Path(Seq<char>),
    Interface(Seq<char>),
    Member(Seq<char>),
    ErrorName(Seq<char>),
    ReplySerial(u32),
    Destination(Seq<char>),
    Sender(Seq<char>),
    Signature(Seq<char>),
    UnixFds(u32),
}

impl View for HeaderField {
    type V = HeaderFieldView;

    open spec fn view(&self) -> HeaderFieldView {
        match self {
            HeaderField::Invalid => HeaderFieldView::Invalid,
            HeaderField::Path(p) => HeaderFieldView::Path(p@),
            HeaderField::Interface(n) => HeaderFieldView::Interface(n@),
            HeaderField::Member(n) => HeaderFieldView::Member(n@),
            HeaderField::ErrorName(n) => HeaderFieldView::ErrorName(n@),
            HeaderField::ReplySerial(s) => HeaderFieldView::ReplySerial(s.0),
            HeaderField::Destination(n) => HeaderFieldView::Destination(n@),
            HeaderField::Sender(n) => HeaderFieldView::Sender(n@),
            HeaderField::Signature(s) => HeaderFieldView::Signature(s@),
            HeaderField::UnixFds(n) => HeaderFieldView::UnixFds(*n),
        }
    }
}

/// The field code a field travels under.
pub open spec fn field_code(f: HeaderFieldView) -> u8 {
    match f {
        HeaderFieldView::Invalid => 0,
        HeaderFieldView::Path(_) => 1,
        HeaderFieldView::Interface(_) => 2,
        HeaderFieldView::Member(_) => 3,
        HeaderFieldView::ErrorName(_) => 4,
        HeaderFieldView::ReplySerial(_) => 5,
        HeaderFieldView::Destination(_) => 6,
        HeaderFieldView::Sender(_) => 7,
        HeaderFieldView::Signature(_) => 8,
        HeaderFieldView::UnixFds(_) => 9,
    }
}

/// A field is well-formed when it is not the Invalid tag and its value
/// satisfies the grammar of its position.
pub open spec fn field_wf(f: HeaderFieldView) -> bool {
    match f {
        HeaderFieldView::Invalid => false,
        HeaderFieldView::Path(s) => valid_object_path(s),
        HeaderFieldView::Interface(s) => valid_dotted_name(s, true),
        HeaderFieldView::Member(s) => valid_member_name(s),
        HeaderFieldView::ErrorName(s) => valid_dotted_name(s, true),
        HeaderFieldView::ReplySerial(_) => true,
        HeaderFieldView::Destination(s) => valid_dotted_name(s, false),
        HeaderFieldView::Sender(s) => valid_dotted_name(s, false),
        HeaderFieldView::Signature(s) => valid_signature(s),
        HeaderFieldView::UnixFds(_) => true,
    }
}

/// Why one field cannot be marshaled: the Invalid tag, a value failing its
/// grammar, or an object path whose UTF-8 form does not fit the u32 string
/// length prefix (the named values are capped at 255 bytes by grammar).
pub open spec fn field_error(f: HeaderFieldView) -> Option<EncodeError> {
    if f is Invalid {
        Some(EncodeError::InvalidHeaderField)
    } else if !field_wf(f) {
        Some(EncodeError::InvalidName)
    } else if f matches HeaderFieldView::Path(s) && encode_utf8(s).len() > u32::MAX {
        Some(EncodeError::StringTooLong)
    } else {
        None
    }
}

/// The wire form of one field's value, at absolute offset `off` in the
/// message: string-like values as strings, serial counts as u32, a body
/// signature in signature form.
pub open spec fn field_value_bytes(f: HeaderFieldView, off: int, e: Endianness) -> Seq<u8> {
    match f {
        HeaderFieldView::Invalid => Seq::<u8>::empty(),
        HeaderFieldView::Path(s) => enc_string_at(off, e, s),
        HeaderFieldView::Interface(s) => enc_string_at(off, e, s),
        HeaderFieldView::Member(s) => enc_string_at(off, e, s),
        HeaderFieldView::ErrorName(s) => enc_string_at(off, e, s),
        HeaderFieldView::ReplySerial(n) => enc_u32_at(off, e, n),
        HeaderFieldView::Destination(s) => enc_string_at(off, e, s),
        HeaderFieldView::Sender(s) => enc_string_at(off, e, s),
        HeaderFieldView::Signature(s) => enc_signature(s),
        HeaderFieldView::UnixFds(n) => enc_u32_at(off, e, n),
    }
}

/// The wire form of one element of the header-fields array at absolute
/// offset `off`: padding to the 8-byte element boundary, the field code,
/// then the value.
pub open spec fn field_bytes(f: HeaderFieldView, off: int, e: Endianness) -> Seq<u8> {
    let pad = zero_pad(off, 8);
    pad + seq![field_code(f)] + field_value_bytes(f, off + pad.len() + 1, e)
}

/// The wire form of the whole header-fields array payload starting at
/// absolute offset `off`.
pub open spec fn fields_bytes(fs: Seq<HeaderFieldView>, off: int, e: Endianness) -> Seq<u8>
    decreases fs.len(),
{
    if fs.len() == 0 {
        Seq::<u8>::empty()
    } else {
        let fb = field_bytes(fs[0], off, e);
        fb + fields_bytes(fs.drop_first(), off + fb.len(), e)
    }
}

pub open spec fn has_path(fs: Seq<HeaderFieldView>) -> bool {
    exists|i: int| 0 <= i < fs.len() && (#[trigger] fs[i]) is Path
}

pub open spec fn has_interface(fs: Seq<HeaderFieldView>) -> bool {
    exists|i: int| 0 <= i < fs.len() && (#[trigger] fs[i]) is Interface
}

pub open spec fn has_member(fs: Seq<HeaderFieldView>) -> bool {
    exists|i: int| 0 <= i < fs.len() && (#[trigger] fs[i]) is Member
}

pub open spec fn has_error_name(fs: Seq<HeaderFieldView>) -> bool {
    exists|i: int| 0 <= i < fs.len() && (#[trigger] fs[i]) is ErrorName
}

pub open spec fn has_reply_serial(fs: Seq<HeaderFieldView>) -> bool {
    exists|i: int| 0 <= i < fs.len() && (#[trigger] fs[i]) is ReplySerial
}

/// Some field declares a non-empty body signature.
pub open spec fn has_nonempty_signature(fs: Seq<HeaderFieldView>) -> bool {
    exists|i: int|
        0 <= i < fs.len() && ((#[trigger] fs[i]) matches HeaderFieldView::Signature(s) && s.len()
            > 0)
}

/// The fields each message type cannot travel without: a method call needs
/// a path and a member; a signal needs a path, an interface and a member;
/// an error needs an error name and a reply serial; a method return needs
/// a reply serial.
pub open spec fn mandatory_fields_present(t: MessageType, fs: Seq<HeaderFieldView>) -> bool {
    match t {
        MessageType::Invalid => false,
        MessageType::MethodCall => has_path(fs) && has_member(fs),
        MessageType::MethodReturn => has_reply_serial(fs),
        MessageType::Error => has_error_name(fs) && has_reply_serial(fs),
        MessageType::Signal => has_path(fs) && has_interface(fs) && has_member(fs),
    }
}

/// The first field that cannot be marshaled, if any.
pub open spec fn first_field_error(fs: Seq<HeaderFieldView>) -> Option<EncodeError>
    decreases fs.len(),
{
    if fs.len() == 0 {
        None
    } else if field_error(fs[0]) is Some {
        field_error(fs[0])
    } else {
        first_field_error(fs.drop_first())
    }
}

/// The header of a message, in the order its parts travel.
#[derive(Debug, PartialEq, Eq)]
pub struct Header {
    /// The byte order of every multi-byte value in the message.
    pub endianess_flag: Endianness,
    /// Message type; the invalid type cannot travel.
    pub message_type: MessageType,
    /// Bitwise OR of flags; unknown flags are kept and ignored.
    pub flags: HeaderFlags,
    /// Major protocol version of the sending application.
    pub major_protocol_version: MajorProtocolVersion,
    /// Length in bytes of the body, which starts after the header's
    /// padding to an 8-byte boundary.
    pub length_message_body: u32,
    /// The sender's cookie for this message; never zero.
    pub serial: Serial,
    /// Zero or more header fields; the message type determines which are
    /// required.
    pub header_fields: Vec<HeaderField>,
}

/// The mathematical shape of a header.
#[verifier::ext_equal]
pub struct HeaderView {
    pub endianess_flag: Endianness,
    pub message_type: MessageType,
    pub flags: u8,
    pub major_protocol_version: u8,
    pub length_message_body: u32,
    pub serial: u32,
    pub header_fields: Seq<HeaderFieldView>,
}

impl View for Header {
    type V = HeaderView;

    open spec fn view(&self) -> HeaderView {
        HeaderView {
            endianess_flag: self.endianess_flag,
            message_type: self.message_type,
            flags: self.flags.0,
            major_protocol_version: self.major_protocol_version.0,
            length_message_body: self.length_message_body,
            serial: self.serial.0,
            header_fields: self.header_fields@.map_values(|f: HeaderField| f@),
        }
    }
}

/// The body of a message: `length_message_body` bytes of marshaled
/// arguments, whose types the signature header field declares. The
/// primitive writer and reader marshal the typed values; the framing
/// carries them as bytes.
#[derive(Debug, PartialEq, Eq)]
pub struct Body {
    pub data: Vec<u8>,
}

impl View for Body {
    type V = Seq<u8>;

    open spec fn view(&self) -> Seq<u8> {
        self.data@
    }
}

/// A message: a header addressing it and a body carrying its arguments.
/// A value object, constructed per call, reply, signal or error.
#[derive(Debug, PartialEq, Eq)]
pub struct Message {
    pub header: Header,
    pub body: Body,
}

/// The mathematical shape of a message.
#[verifier::ext_equal]
pub struct MessageView {
    pub header: HeaderView,
    pub body: Seq<u8>,
}

impl View for Message {
    type V = MessageView;

    open spec fn view(&self) -> MessageView {
        MessageView { header: self.header@, body: self.body@ }
    }
}

/// Why a header alone cannot be marshaled, checked in this order: the
/// invalid message type, a zero serial, a field that cannot travel, then a
/// missing mandatory field. What needs the body beside it — the declared
/// body length and the signature rule — is checked at the message.
pub open spec fn header_validation_error(h: HeaderView) -> Option<EncodeError> {
    if h.message_type == MessageType::Invalid {
        Some(EncodeError::InvalidMessageType)
    } else if h.serial == 0 {
        Some(EncodeError::ZeroSerial)
    } else if first_field_error(h.header_fields) is Some {
        first_field_error(h.header_fields)
    } else if !mandatory_fields_present(h.message_type, h.header_fields) {
        Some(EncodeError::MissingRequiredField)
    } else {
        None
    }
}

/// Why a message cannot be marshaled, checked in this order: the header's
/// own failures, a body length that does not match the body, then a
/// non-empty body without a non-empty signature field.
pub open spec fn msg_validation_error(m: MessageView) -> Option<EncodeError> {
    if header_validation_error(m.header) is Some {
        header_validation_error(m.header)
    } else if m.header.length_message_body != m.body.len() {
        Some(EncodeError::BodyLengthMismatch)
    } else if m.body.len() > 0 && !has_nonempty_signature(m.header.header_fields) {
        Some(EncodeError::BodyWithoutSignature)
    } else {
        None
    }
}

/// A message is well-formed when nothing stops it from being marshaled.
pub open spec fn msg_wf(m: MessageView) -> bool {
    msg_validation_error(m) is None
}

/// The wire form of the header: the fixed 16-byte prelude (endianness
/// byte, type byte, flags, version, body length, serial, fields-array byte
/// length), the fields array, then zero padding to the next 8-byte
/// boundary, where the body begins.
pub open spec fn spec_header_bytes(h: HeaderView) -> Seq<u8> {
    let e = h.endianess_flag;
    let payload = fields_bytes(h.header_fields, 16, e);
    let head = seq![
        spec_endianness_byte(e),
        spec_message_type_byte(h.message_type),
        h.flags,
        h.major_protocol_version,
    ] + spec_enc_u32(e, h.length_message_body) + spec_enc_u32(e, h.serial) + spec_enc_u32(
        e,
        payload.len() as u32,
    ) + payload;
    head + zero_pad(head.len() as int, 8)
}

/// The wire form of a whole message: the header, rounded to an 8-byte
/// boundary, followed by exactly the body's bytes.
pub open spec fn spec_encode_message(m: MessageView) -> Seq<u8> {
    spec_header_bytes(m.header) + m.body
}

/// Alignment padding depends on an offset only through its residue modulo
/// the alignment, so one field's wire form is the same at any two offsets
/// equal modulo 8.
proof fn lemma_field_bytes_shift(f: HeaderFieldView, off1: int, off2: int, e: Endianness)
    requires
        off1 >= 0,
        off2 >= 0,
        off1 % 8 == off2 % 8,
    ensures
        field_bytes(f, off1, e) == field_bytes(f, off2, e),
{
    assert(off1 % 4 == off2 % 4) by {
        lemma_mod_breakdown(off1, 4, 2);
        lemma_mod_breakdown(off2, 4, 2);
        lemma_mod_bound(off1, 4);
        lemma_mod_bound(off2, 4);
    }
    let p = pad_len(off1, 8);
    assert(pad_len(off2, 8) == p);
    let v1 = off1 + p + 1;
    let v2 = off2 + p + 1;
    assert(v1 % 4 == v2 % 4) by {
        lemma_add_mod_noop(off1, p + 1, 4);
        lemma_add_mod_noop(off2, p + 1, 4);
    }
    assert(zero_pad(v1, 4) == zero_pad(v2, 4));
    assert(field_value_bytes(f, v1, e) == field_value_bytes(f, v2, e));
}

/// Appending one field to the array appends its wire form at the offset
/// where the array so far ends.
proof fn lemma_fields_bytes_snoc(fs: Seq<HeaderFieldView>, f: HeaderFieldView, off: int, e: Endianness)
    ensures
        fields_bytes(fs.push(f), off, e) == fields_bytes(fs, off, e) + field_bytes(
            f,
            off + fields_bytes(fs, off, e).len(),
            e,
        ),
    decreases fs.len(),
{
    if fs.len() == 0 {
        assert(fs.push(f).len() == 1);
        assert(fs.push(f)[0] == f);
        assert(fs.push(f).drop_first() =~= Seq::<HeaderFieldView>::empty());
        assert(fields_bytes(fs, off, e) == Seq::<u8>::empty());
        let fb = field_bytes(f, off, e);
        assert(fields_bytes(fs.push(f), off, e) == fb + fields_bytes(
            Seq::<HeaderFieldView>::empty(),
            off + fb.len(),
            e,
        ));
        assert(fb + Seq::<u8>::empty() =~= Seq::<u8>::empty() + fb);
    } else {
        let fb = field_bytes(fs[0], off, e);
        assert(fs.push(f)[0] == fs[0]);
        assert(fs.push(f).drop_first() =~= fs.drop_first().push(f));
        assert(fields_bytes(fs.push(f), off, e) == fb + fields_bytes(
            fs.drop_first().push(f),
            off + fb.len(),
            e,
        ));
        lemma_fields_bytes_snoc(fs.drop_first(), f, off + fb.len(), e);
        let inner = fields_bytes(fs.drop_first(), off + fb.len(), e);
        let tail = field_bytes(f, off + fb.len() + inner.len(), e);
        assert(fields_bytes(fs, off, e) == fb + inner);
        assert(off + fields_bytes(fs, off, e).len() == off + fb.len() + inner.len());
        assert(fb + (inner + tail) =~= (fb + inner) + tail);
    }
}

proof fn lemma_first_field_error_at(fs: Seq<HeaderFieldView>, i: int)
    requires
        0 <= i < fs.len(),
        field_error(fs[i]) is Some,
        forall|j: int| 0 <= j < i ==> field_error(#[trigger] fs[j]) is None,
    ensures
        first_field_error(fs) == field_error(fs[i]),
    decreases i,
{
    if i > 0 {
        lemma_first_field_error_at(fs.drop_first(), i - 1);
    }
}

proof fn lemma_first_field_error_none(fs: Seq<HeaderFieldView>)
    requires
        forall|j: int| 0 <= j < fs.len() ==> field_error(#[trigger] fs[j]) is None,
    ensures
        first_field_error(fs) is None,
    decreases fs.len(),
{
    if fs.len() > 0 {
        lemma_first_field_error_none(fs.drop_first());
    }
}

impl HeaderField {
    /// Why this field cannot be marshaled, if anything: the Invalid tag,
    /// or a value that fails the grammar of its position.
    pub fn validation(&self) -> (r: Option<EncodeError>)
        ensures
            r == field_error(self@),
    {
        match self {
            HeaderField::Invalid => Some(EncodeError::InvalidHeaderField),
            HeaderField::Path(p) => match ObjectPath::from_str(p.0.as_str()) {
                Ok(_) => {
                    if p.0.as_str().as_bytes().len() > u32::MAX as usize {
                        Some(EncodeError::StringTooLong)
                    } else {
                        None
                    }
                },
                Err(_) => Some(EncodeError::InvalidName),
            },
            HeaderField::Interface(n) => match InterfaceName::from_str(n.0.as_str()) {
                Ok(_) => None,
                Err(_) => Some(EncodeError::InvalidName),
            },
            HeaderField::Member(n) => match MemberName::from_str(n.0.as_str()) {
                Ok(_) => None,
                Err(_) => Some(EncodeError::InvalidName),
            },
            HeaderField::ErrorName(n) => match ErrorName::from_str(n.0.as_str()) {
                Ok(_) => None,
                Err(_) => Some(EncodeError::InvalidName),
            },
            HeaderField::ReplySerial(_) => None,
            HeaderField::Destination(n) => match BusName::from_str(n.0.as_str()) {
                Ok(_) => None,
                Err(_) => Some(EncodeError::InvalidName),
            },
            HeaderField::Sender(n) => match BusName::from_str(n.0.as_str()) {
                Ok(_) => None,
                Err(_) => Some(EncodeError::InvalidName),
            },
            HeaderField::Signature(s) => match Signature::from_str(s.0.as_str()) {
                Ok(_) => None,
                Err(_) => Some(EncodeError::InvalidName),
            },
            HeaderField::UnixFds(_) => None,
        }
    }
}

/// Checks that the fields a message type requires are all present.
#[verifier::loop_isolation(false)]
fn check_mandatory(t: MessageType, fields: &Vec<HeaderField>) -> (r: bool)
    ensures
        r == mandatory_fields_present(t, fields@.map_values(|f: HeaderField| f@)),
{
    let ghost fs = fields@.map_values(|f: HeaderField| f@);
    let mut hp = false;
    let mut hi = false;
    let mut hm = false;
    let mut he = false;
    let mut hr = false;
    let mut i: usize = 0;
    while i < fields.len()
        invariant
            0 <= i <= fields@.len(),
            fs == fields@.map_values(|f: HeaderField| f@),
            hp == exists|j: int| 0 <= j < i && (#[trigger] fs[j]) is Path,
            hi == exists|j: int| 0 <= j < i && (#[trigger] fs[j]) is Interface,
            hm == exists|j: int| 0 <= j < i && (#[trigger] fs[j]) is Member,
            he == exists|j: int| 0 <= j < i && (#[trigger] fs[j]) is ErrorName,
            hr == exists|j: int| 0 <= j < i && (#[trigger] fs[j]) is ReplySerial,
        decreases fields@.len() - i,
    {
        let f = &fields[i];
        proof {
            assert(fs[i as int] == fields@[i as int]@);
        }
        match f {
            HeaderField::Path(_) => {
                hp = true;
            },
            HeaderField::Interface(_) => {
                hi = true;
            },
            HeaderField::Member(_) => {
                hm = true;
            },
            HeaderField::ErrorName(_) => {
                he = true;
            },
            HeaderField::ReplySerial(_) => {
                hr = true;
            },
            _ => {},
        }
        i = i + 1;
    }
    match t {
        MessageType::Invalid => false,
        MessageType::MethodCall => hp && hm,
        MessageType::MethodReturn => hr,
        MessageType::Error => he && hr,
        MessageType::Signal => hp && hi && hm,
    }
}

/// Checks that some field declares a non-empty body signature.
#[verifier::loop_isolation(false)]
fn check_body_signature(fields: &Vec<HeaderField>) -> (r: bool)
    ensures
        r == has_nonempty_signature(fields@.map_values(|f: HeaderField| f@)),
{
    let ghost fs = fields@.map_values(|f: HeaderField| f@);
    let mut i: usize = 0;
    while i < fields.len()
        invariant
            0 <= i <= fields@.len(),
            fs == fields@.map_values(|f: HeaderField| f@),
            forall|j: int|
                0 <= j < i ==> !((#[trigger] fs[j]) matches HeaderFieldView::Signature(s)
                    && s.len() > 0),
        decreases fields@.len() - i,
    {
        let f = &fields[i];
        proof {
            assert(fs[i as int] == fields@[i as int]@);
        }
        match f {
            HeaderField::Signature(s) => {
                if !s.0.as_str().is_empty() {
                    assert(has_nonempty_signature(fs));
                    return true;
                }
            },
            _ => {},
        }
        i = i + 1;
    }
    false
}

/// True when the bytes of `data` from `off` on carry the marshalable field
/// `f`: the padding to the 8-byte element boundary, the field code, then
/// the value.
pub open spec fn field_at(data: Seq<u8>, off: int, e: Endianness, f: HeaderFieldView) -> bool {
    &&& field_error(f) is None
    &&& off + field_bytes(f, off, e).len() <= data.len()
    &&& data.subrange(off, off + field_bytes(f, off, e).len()) == field_bytes(f, off, e)
}

/// What carrying a field means piece by piece: zero padding, the code
/// byte, then the value in its own wire form.
pub open spec fn field_at_parts(data: Seq<u8>, off: int, e: Endianness, f: HeaderFieldView) -> bool {
    let p = pad_len(off, 8);
    let voff = off + p + 1;
    &&& off + p + 1 <= data.len()
    &&& data.subrange(off, off + p) =~= zero_pad(off, 8)
    &&& data[off + p] == field_code(f)
    &&& match f {
        HeaderFieldView::Invalid => false,
        HeaderFieldView::Path(s) => string_at(data, voff, e, s),
        HeaderFieldView::Interface(s) => string_at(data, voff, e, s),
        HeaderFieldView::Member(s) => string_at(data, voff, e, s),
        HeaderFieldView::ErrorName(s) => string_at(data, voff, e, s),
        HeaderFieldView::ReplySerial(n) => u32_at(data, voff, e, n),
        HeaderFieldView::Destination(s) => string_at(data, voff, e, s),
        HeaderFieldView::Sender(s) => string_at(data, voff, e, s),
        HeaderFieldView::Signature(s) => signature_at(data, voff, s),
        HeaderFieldView::UnixFds(n) => u32_at(data, voff, e, n),
    }
}

/// True when the bytes of `data` from `off` on carry the u32 `n`: padding
/// to the 4-byte boundary, then the four value bytes.
pub open spec fn u32_at(data: Seq<u8>, off: int, e: Endianness, n: u32) -> bool {
    &&& off + enc_u32_at(off, e, n).len() <= data.len()
    &&& data.subrange(off, off + enc_u32_at(off, e, n).len()) == enc_u32_at(off, e, n)
}

/// Carrying a u32 is the same as carrying its padding and its four value
/// bytes.
proof fn lemma_u32_at_parts(data: Seq<u8>, off: int, e: Endianness, n: u32)
    requires
        off >= 0,
    ensures
        u32_at(data, off, e, n) <==> {
            let p = pad_len(off, 4);
            &&& off + p + 4 <= data.len()
            &&& data.subrange(off, off + p) =~= zero_pad(off, 4)
            &&& data.subrange(off + p, off + p + 4) =~= spec_enc_u32(e, n)
        },
{
    let p = pad_len(off, 4);
    lemma_pad_len(off, 4);
    lemma_u32_round_trip(e, n);
    let enc = enc_u32_at(off, e, n);
    assert(enc.len() == p + 4);
    if u32_at(data, off, e, n) {
        assert forall|k: int| 0 <= k < enc.len() implies data[off + k] == enc[k] by {
            assert(data.subrange(off, off + enc.len())[k] == enc[k]);
        }
        assert forall|k: int|
            0 <= k < p implies data.subrange(off, off + p)[k] == zero_pad(off, 4)[k] by {
            assert(enc[k] == (zero_pad(off, 4) + spec_enc_u32(e, n))[k]);
        }
        assert(data.subrange(off, off + p) =~= zero_pad(off, 4));
        assert forall|k: int|
            0 <= k < 4 implies data.subrange(off + p, off + p + 4)[k] == spec_enc_u32(e, n)[k] by {
            assert(enc[p + k] == (zero_pad(off, 4) + spec_enc_u32(e, n))[p + k]);
            assert(data[off + (p + k)] == enc[p + k]);
        }
        assert(data.subrange(off + p, off + p + 4) =~= spec_enc_u32(e, n));
    }
    if off + p + 4 <= data.len() && data.subrange(off, off + p) =~= zero_pad(off, 4)
        && data.subrange(off + p, off + p + 4) =~= spec_enc_u32(e, n) {
        assert(data.subrange(off, off + enc.len()) =~= enc) by {
            assert forall|k: int|
                0 <= k < enc.len() implies data.subrange(off, off + enc.len())[k] == enc[k] by {
                assert(enc[k] == (zero_pad(off, 4) + spec_enc_u32(e, n))[k]);
                if k < p {
                    assert(data.subrange(off, off + p)[k] == zero_pad(off, 4)[k]);
                } else {
                    assert(data.subrange(off + p, off + p + 4)[k - p] == spec_enc_u32(e, n)[k
                        - p]);
                }
            }
        }
    }
}

/// Carrying a marshalable field is the same as carrying its parts.
proof fn lemma_field_at_equiv(data: Seq<u8>, off: int, e: Endianness, f: HeaderFieldView)
    requires
        off >= 0,
        field_error(f) is None,
    ensures
        field_at(data, off, e, f) <==> field_at_parts(data, off, e, f),
{
    let p = pad_len(off, 8);
    lemma_pad_len(off, 8);
    lemma_pad_len(off + p + 1, 4);
    let voff = off + p + 1;
    let vb = field_value_bytes(f, voff, e);
    let fb = field_bytes(f, off, e);
    assert(fb =~= zero_pad(off, 8) + seq![field_code(f)] + vb);
    assert(fb.len() == p + 1 + vb.len());
    match f {
        HeaderFieldView::ReplySerial(n) => {
            lemma_u32_round_trip(e, n);
        },
        HeaderFieldView::UnixFds(n) => {
            lemma_u32_round_trip(e, n);
        },
        HeaderFieldView::Path(s) => {
            lemma_u32_round_trip(e, encode_utf8(s).len() as u32);
        },
        HeaderFieldView::Interface(s) => {
            lemma_u32_round_trip(e, encode_utf8(s).len() as u32);
        },
        HeaderFieldView::Member(s) => {
            lemma_u32_round_trip(e, encode_utf8(s).len() as u32);
        },
        HeaderFieldView::ErrorName(s) => {
            lemma_u32_round_trip(e, encode_utf8(s).len() as u32);
        },
        HeaderFieldView::Destination(s) => {
            lemma_u32_round_trip(e, encode_utf8(s).len() as u32);
        },
        HeaderFieldView::Sender(s) => {
            lemma_u32_round_trip(e, encode_utf8(s).len() as u32);
        },
        _ => {},
    }
    let head2 = zero_pad(off, 8) + seq![field_code(f)];
    assert(head2.len() == p + 1);
    assert(fb =~= head2 + vb);
    if field_at(data, off, e, f) {
        assert forall|k: int| 0 <= k < fb.len() implies data[off + k] == fb[k] by {
            assert(data.subrange(off, off + fb.len())[k] == fb[k]);
        }
        assert forall|k: int|
            0 <= k < p implies data.subrange(off, off + p)[k] == zero_pad(off, 8)[k] by {
            assert(fb[k] == (head2 + vb)[k]);
            assert(head2[k] == zero_pad(off, 8)[k]);
        }
        assert(data.subrange(off, off + p) =~= zero_pad(off, 8));
        assert(fb[p] == (head2 + vb)[p]);
        assert(head2[p] == field_code(f));
        assert(data[off + p] == field_code(f));
        assert forall|j: int|
            0 <= j < vb.len() implies data.subrange(voff, voff + vb.len())[j] == vb[j] by {
            assert(fb[p + 1 + j] == (head2 + vb)[p + 1 + j]);
            assert((head2 + vb)[p + 1 + j] == vb[j]);
            assert(data[off + (p + 1 + j)] == fb[p + 1 + j]);
        }
        assert(data.subrange(voff, voff + vb.len()) =~= vb);
        assert(field_at_parts(data, off, e, f));
    }
    if field_at_parts(data, off, e, f) {
        assert(data.subrange(voff, voff + vb.len()) =~= vb);
        assert(data.subrange(off, off + fb.len()) =~= fb) by {
            assert forall|k: int|
                0 <= k < fb.len() implies data.subrange(off, off + fb.len())[k] == fb[k] by {
                assert(fb[k] == (head2 + vb)[k]);
                if k < p {
                    assert(data.subrange(off, off + p)[k] == zero_pad(off, 8)[k]);
                    assert(head2[k] == zero_pad(off, 8)[k]);
                } else if k > p {
                    assert((head2 + vb)[k] == vb[k - p - 1]);
                    assert(data.subrange(voff, voff + vb.len())[k - p - 1] == vb[k - p - 1]);
                } else {
                    assert(head2[p] == field_code(f));
                }
            }
        }
        assert(field_at(data, off, e, f));
    }
}

/// At one offset, at most one field is carried: the code byte pins the
/// variant and each value's wire form pins the value.
proof fn lemma_field_at_unique(
    data: Seq<u8>,
    off: int,
    e: Endianness,
    f1: HeaderFieldView,
    f2: HeaderFieldView,
)
    requires
        off >= 0,
        field_at(data, off, e, f1),
        field_at(data, off, e, f2),
    ensures
        f1 == f2,
{
    lemma_field_at_equiv(data, off, e, f1);
    lemma_field_at_equiv(data, off, e, f2);
    let p = pad_len(off, 8);
    let voff = off + p + 1;
    assert(field_code(f1) == field_code(f2));
    match (f1, f2) {
        (HeaderFieldView::Path(s1), HeaderFieldView::Path(s2)) => {
            lemma_string_at_unique(data, voff, e, s1, s2);
        },
        (HeaderFieldView::Interface(s1), HeaderFieldView::Interface(s2)) => {
            lemma_string_at_unique(data, voff, e, s1, s2);
        },
        (HeaderFieldView::Member(s1), HeaderFieldView::Member(s2)) => {
            lemma_string_at_unique(data, voff, e, s1, s2);
        },
        (HeaderFieldView::ErrorName(s1), HeaderFieldView::ErrorName(s2)) => {
            lemma_string_at_unique(data, voff, e, s1, s2);
        },
        (HeaderFieldView::Destination(s1), HeaderFieldView::Destination(s2)) => {
            lemma_string_at_unique(data, voff, e, s1, s2);
        },
        (HeaderFieldView::Sender(s1), HeaderFieldView::Sender(s2)) => {
            lemma_string_at_unique(data, voff, e, s1, s2);
        },
        (HeaderFieldView::Signature(s1), HeaderFieldView::Signature(s2)) => {
            crate::reader::lemma_signature_at_unique(data, voff, s1, s2);
        },
        (HeaderFieldView::ReplySerial(n1), HeaderFieldView::ReplySerial(n2)) => {
            lemma_u32_at_parts(data, voff, e, n1);
            lemma_u32_at_parts(data, voff, e, n2);
            lemma_u32_round_trip(e, n1);
            lemma_u32_round_trip(e, n2);
            assert(spec_enc_u32(e, n1) == spec_enc_u32(e, n2));
            assert(spec_dec_u32(e, spec_enc_u32(e, n1)) == n1);
            assert(spec_dec_u32(e, spec_enc_u32(e, n2)) == n2);
        },
        (HeaderFieldView::UnixFds(n1), HeaderFieldView::UnixFds(n2)) => {
            lemma_u32_at_parts(data, voff, e, n1);
            lemma_u32_at_parts(data, voff, e, n2);
            lemma_u32_round_trip(e, n1);
            lemma_u32_round_trip(e, n2);
            assert(spec_enc_u32(e, n1) == spec_enc_u32(e, n2));
            assert(spec_dec_u32(e, spec_enc_u32(e, n1)) == n1);
            assert(spec_dec_u32(e, spec_enc_u32(e, n2)) == n2);
        },
        _ => {},
    }
}

/// Reads one element of the header-fields array: the padding to its 8-byte
/// boundary, the field code, then the value the code dictates, validated
/// against its grammar. On failure no marshalable field is carried at this
/// position and the position is unchanged.
fn read_header_field(rd: &mut DbusReader) -> (r: Result<HeaderField, DecodeError>)
    requires
        old(rd).wf(),
    ensures
        old(rd).same_source(&*final(rd)),
        final(rd).wf(),
        ({
            let off = old(rd).pos as int;
            let e = old(rd).endianness;
            let data = old(rd).data@;
            match r {
                Ok(fld) => field_at(data, off, e, fld@) && final(rd).pos == off + field_bytes(
                    fld@,
                    off,
                    e,
                ).len(),
                Err(_) => final(rd).pos == off && (forall|f: HeaderFieldView|
                    !field_at(data, off, e, f)),
            }
        }),
{
    let ghost off = rd.pos as int;
    let ghost e = rd.endianness;
    let ghost data = rd.data@;
    let ghost p = pad_len(off, 8);
    proof {
        lemma_pad_len(off, 8);
    }
    let saved = rd.pos;
    match rd.align_to(8) {
        Ok(()) => {},
        Err(err) => {
            proof {
                assert forall|f: HeaderFieldView| !field_at(data, off, e, f) by {
                    if field_at(data, off, e, f) {
                        lemma_field_at_equiv(data, off, e, f);
                    }
                }
            }
            return Err(err);
        },
    }
    let code = match rd.read_u8() {
        Ok(c) => c,
        Err(err) => {
            rd.pos = saved;
            proof {
                assert forall|f: HeaderFieldView| !field_at(data, off, e, f) by {
                    if field_at(data, off, e, f) {
                        lemma_field_at_equiv(data, off, e, f);
                    }
                }
            }
            return Err(err);
        },
    };
    let ghost voff = off + p + 1;
    if code == 1 {
        match rd.read_object_path() {
            Ok(path) => {
                let fld = HeaderField::Path(path);
                proof {
                    assert(string_at(data, voff, e, path@));
                    lemma_field_at_equiv(data, off, e, fld@);
                }
                Ok(fld)
            },
            Err(err) => {
                rd.pos = saved;
                proof {
                    assert forall|f: HeaderFieldView| !field_at(data, off, e, f) by {
                        if field_at(data, off, e, f) {
                            lemma_field_at_equiv(data, off, e, f);
                            assert(f is Path);
                        }
                    }
                }
                Err(err)
            },
        }
    } else if code == 2 || code == 3 || code == 4 || code == 6 || code == 7 {
        let s = match rd.read_string() {
            Ok(s) => s,
            Err(err) => {
                rd.pos = saved;
                proof {
                    assert forall|f: HeaderFieldView| !field_at(data, off, e, f) by {
                        if field_at(data, off, e, f) {
                            lemma_field_at_equiv(data, off, e, f);
                        }
                    }
                }
                return Err(err);
            },
        };
        let fld = if code == 2 {
            match InterfaceName::from_str(s.as_str()) {
                Ok(n) => HeaderField::Interface(n),
                Err(_) => {
                    rd.pos = saved;
                    proof {
                        assert forall|f: HeaderFieldView| !field_at(data, off, e, f) by {
                            if field_at(data, off, e, f) {
                                lemma_field_at_equiv(data, off, e, f);
                                match f {
                                    HeaderFieldView::Interface(t) => {
                                        lemma_string_at_unique(data, voff, e, t, s@);
                                    },
                                    _ => {},
                                }
                            }
                        }
                    }
                    return Err(DecodeError::InvalidName);
                },
            }
        } else if code == 3 {
            match MemberName::from_str(s.as_str()) {
                Ok(n) => HeaderField::Member(n),
                Err(_) => {
                    rd.pos = saved;
                    proof {
                        assert forall|f: HeaderFieldView| !field_at(data, off, e, f) by {
                            if field_at(data, off, e, f) {
                                lemma_field_at_equiv(data, off, e, f);
                                match f {
                                    HeaderFieldView::Member(t) => {
                                        lemma_string_at_unique(data, voff, e, t, s@);
                                    },
                                    _ => {},
                                }
                            }
                        }
                    }
                    return Err(DecodeError::InvalidName);
                },
            }
        } else if code == 4 {
            match ErrorName::from_str(s.as_str()) {
                Ok(n) => HeaderField::ErrorName(n),
                Err(_) => {
                    rd.pos = saved;
                    proof {
                        assert forall|f: HeaderFieldView| !field_at(data, off, e, f) by {
                            if field_at(data, off, e, f) {
                                lemma_field_at_equiv(data, off, e, f);
                                match f {
                                    HeaderFieldView::ErrorName(t) => {
                                        lemma_string_at_unique(data, voff, e, t, s@);
                                    },
                                    _ => {},
                                }
                            }
                        }
                    }
                    return Err(DecodeError::InvalidName);
                },
            }
        } else {
            match BusName::from_str(s.as_str()) {
                Ok(n) => if code == 6 {
                    HeaderField::Destination(n)
                } else {
                    HeaderField::Sender(n)
                },
                Err(_) => {
                    rd.pos = saved;
                    proof {
                        assert forall|f: HeaderFieldView| !field_at(data, off, e, f) by {
                            if field_at(data, off, e, f) {
                                lemma_field_at_equiv(data, off, e, f);
                                match f {
                                    HeaderFieldView::Destination(t) => {
                                        lemma_string_at_unique(data, voff, e, t, s@);
                                    },
                                    HeaderFieldView::Sender(t) => {
                                        lemma_string_at_unique(data, voff, e, t, s@);
                                    },
                                    _ => {},
                                }
                            }
                        }
                    }
                    return Err(DecodeError::InvalidName);
                },
            }
        };
        proof {
            lemma_field_at_equiv(data, off, e, fld@);
        }
        Ok(fld)
    } else if code == 5 || code == 9 {
        match rd.read_u32() {
            Ok(n) => {
                let fld = if code == 5 {
                    HeaderField::ReplySerial(Serial(n))
                } else {
                    HeaderField::UnixFds(n)
                };
                proof {
                    lemma_u32_dec_enc(e, data.subrange(voff + pad_len(voff, 4), voff + pad_len(voff, 4) + 4));
                    lemma_u32_at_parts(data, voff, e, n);
                    assert(u32_at(data, voff, e, n));
                    lemma_field_at_equiv(data, off, e, fld@);
                }
                Ok(fld)
            },
            Err(err) => {
                rd.pos = saved;
                proof {
                    assert forall|f: HeaderFieldView| !field_at(data, off, e, f) by {
                        if field_at(data, off, e, f) {
                            lemma_field_at_equiv(data, off, e, f);
                            match f {
                                HeaderFieldView::ReplySerial(m) => {
                                    lemma_u32_at_parts(data, voff, e, m);
                                },
                                HeaderFieldView::UnixFds(m) => {
                                    lemma_u32_at_parts(data, voff, e, m);
                                },
                                _ => {},
                            }
                        }
                    }
                }
                Err(err)
            },
        }
    } else if code == 8 {
        match rd.read_signature() {
            Ok(sig) => {
                let fld = HeaderField::Signature(sig);
                proof {
                    lemma_field_at_equiv(data, off, e, fld@);
                }
                Ok(fld)
            },
            Err(err) => {
                rd.pos = saved;
                proof {
                    assert forall|f: HeaderFieldView| !field_at(data, off, e, f) by {
                        if field_at(data, off, e, f) {
                            lemma_field_at_equiv(data, off, e, f);
                        }
                    }
                }
                Err(err)
            },
        }
    } else {
        rd.pos = saved;
        proof {
            assert forall|f: HeaderFieldView| !field_at(data, off, e, f) by {
                if field_at(data, off, e, f) {
                    lemma_field_at_equiv(data, off, e, f);
                }
            }
        }
        Err(DecodeError::InvalidHeaderField)
    }
}

/// True when `data` is exactly the wire form of the well-formed message
/// `m`, within the total size limit.
pub open spec fn msg_encodes_to(m: MessageView, data: Seq<u8>) -> bool {
    &&& msg_wf(m)
    &&& data == spec_encode_message(m)
    &&& data.len() <= MAX_MESSAGE_SIZE
}

proof fn lemma_first_field_error_none_all(fs: Seq<HeaderFieldView>)
    requires
        first_field_error(fs) is None,
    ensures
        forall|j: int| 0 <= j < fs.len() ==> field_error(#[trigger] fs[j]) is None,
    decreases fs.len(),
{
    if fs.len() > 0 {
        lemma_first_field_error_none_all(fs.drop_first());
        assert forall|j: int| 0 <= j < fs.len() implies field_error(#[trigger] fs[j]) is None by {
            if j > 0 {
                assert(fs.drop_first()[j - 1] == fs[j]);
            }
        }
    }
}

/// The wire form of a well-formed message, piece by piece: the four lead
/// bytes, the three u32 values, the fields payload, the padding to the
/// body, and the body itself.
proof fn lemma_encoding_parts(m: MessageView, data: Seq<u8>)
    requires
        msg_wf(m),
        data == spec_encode_message(m),
    ensures
        ({
            let e = m.header.endianess_flag;
            let payload = fields_bytes(m.header.header_fields, 16, e);
            let fe = 16 + payload.len() as int;
            let p8 = pad_len(fe, 8);
            &&& data.len() == fe + p8 + m.body.len()
            &&& data[0] == spec_endianness_byte(e)
            &&& data[1] == spec_message_type_byte(m.header.message_type)
            &&& data[2] == m.header.flags
            &&& data[3] == m.header.major_protocol_version
            &&& data.subrange(4, 8) =~= spec_enc_u32(e, m.header.length_message_body)
            &&& data.subrange(8, 12) =~= spec_enc_u32(e, m.header.serial)
            &&& data.subrange(12, 16) =~= spec_enc_u32(e, payload.len() as u32)
            &&& data.subrange(16, fe) =~= payload
            &&& data.subrange(fe, fe + p8) =~= zero_pad(fe, 8)
            &&& data.subrange(fe + p8, data.len() as int) =~= m.body
        }),
{
    let e = m.header.endianess_flag;
    let payload = fields_bytes(m.header.header_fields, 16, e);
    let fe = 16 + payload.len() as int;
    let p8 = pad_len(fe, 8);
    lemma_pad_len(fe, 8);
    lemma_u32_round_trip(e, m.header.length_message_body);
    lemma_u32_round_trip(e, m.header.serial);
    lemma_u32_round_trip(e, payload.len() as u32);
    let lead = seq![
        spec_endianness_byte(e),
        spec_message_type_byte(m.header.message_type),
        m.header.flags,
        m.header.major_protocol_version,
    ];
    let e1 = spec_enc_u32(e, m.header.length_message_body);
    let e2 = spec_enc_u32(e, m.header.serial);
    let e3 = spec_enc_u32(e, payload.len() as u32);
    let head = lead + e1 + e2 + e3 + payload;
    assert(head.len() == fe);
    assert(spec_header_bytes(m.header) == head + zero_pad(fe, 8));
    assert(data == (head + zero_pad(fe, 8)) + m.body);
    assert(data.len() == fe + p8 + m.body.len());
    assert(data[0] == head[0] && data[1] == head[1] && data[2] == head[2] && data[3] == head[3]);
    assert(head[0] == lead[0] && head[1] == lead[1] && head[2] == lead[2] && head[3] == lead[3]);
    assert forall|k: int| 0 <= k < 4 implies data.subrange(4, 8)[k] == e1[k] by {
        assert(data[4 + k] == head[4 + k]);
        assert(head[4 + k] == e1[k]);
    }
    assert forall|k: int| 0 <= k < 4 implies data.subrange(8, 12)[k] == e2[k] by {
        assert(data[8 + k] == head[8 + k]);
        assert(head[8 + k] == e2[k]);
    }
    assert forall|k: int| 0 <= k < 4 implies data.subrange(12, 16)[k] == e3[k] by {
        assert(data[12 + k] == head[12 + k]);
        assert(head[12 + k] == e3[k]);
    }
    assert forall|k: int| 0 <= k < payload.len() implies data.subrange(16, fe)[k] == payload[k] by {
        assert(data[16 + k] == head[16 + k]);
        assert(head[16 + k] == payload[k]);
    }
    assert forall|k: int| 0 <= k < p8 implies data.subrange(fe, fe + p8)[k] == zero_pad(fe, 8)[k] by {
        assert(data[fe + k] == (head + zero_pad(fe, 8))[fe + k]);
    }
    assert forall|k: int|
        0 <= k < m.body.len() implies data.subrange(fe + p8, data.len() as int)[k] == m.body[k] by {
        assert(data[fe + p8 + k] == m.body[k]);
    }
}


/// Pieces that assemble to the wire form of a message: the converse of
/// taking an encoding apart.
proof fn lemma_decode_assemble(v: MessageView, data: Seq<u8>, fe: int)
    requires
        fe == 16 + fields_bytes(v.header.header_fields, 16, v.header.endianess_flag).len(),
        fields_bytes(v.header.header_fields, 16, v.header.endianess_flag).len() <= u32::MAX,
        data.len() == fe + pad_len(fe, 8) + v.body.len(),
        data[0] == spec_endianness_byte(v.header.endianess_flag),
        data[1] == spec_message_type_byte(v.header.message_type),
        data[2] == v.header.flags,
        data[3] == v.header.major_protocol_version,
        data.subrange(4, 8) =~= spec_enc_u32(v.header.endianess_flag, v.header.length_message_body),
        data.subrange(8, 12) =~= spec_enc_u32(v.header.endianess_flag, v.header.serial),
        data.subrange(12, 16) =~= spec_enc_u32(
            v.header.endianess_flag,
            fields_bytes(v.header.header_fields, 16, v.header.endianess_flag).len() as u32,
        ),
        data.subrange(16, fe) =~= fields_bytes(v.header.header_fields, 16, v.header.endianess_flag),
        data.subrange(fe, fe + pad_len(fe, 8)) =~= zero_pad(fe, 8),
        data.subrange(fe + pad_len(fe, 8), data.len() as int) =~= v.body,
    ensures
        data == spec_encode_message(v),
{
    let e = v.header.endianess_flag;
    let payload = fields_bytes(v.header.header_fields, 16, e);
    let p8 = pad_len(fe, 8);
    lemma_pad_len(fe, 8);
    lemma_u32_round_trip(e, v.header.length_message_body);
    lemma_u32_round_trip(e, v.header.serial);
    lemma_u32_round_trip(e, payload.len() as u32);
    let lead = seq![
        spec_endianness_byte(e),
        spec_message_type_byte(v.header.message_type),
        v.header.flags,
        v.header.major_protocol_version,
    ];
    let e1 = spec_enc_u32(e, v.header.length_message_body);
    let e2 = spec_enc_u32(e, v.header.serial);
    let e3 = spec_enc_u32(e, payload.len() as u32);
    let head = lead + e1 + e2 + e3 + payload;
    assert(head.len() == fe);
    assert(spec_header_bytes(v.header) == head + zero_pad(fe, 8));
    let enc = spec_encode_message(v);
    assert(enc == (head + zero_pad(fe, 8)) + v.body);
    assert(data =~= enc) by {
        assert forall|i: int| 0 <= i < data.len() implies data[i] == enc[i] by {
            if i < 4 {
                assert(enc[i] == head[i] && head[i] == lead[i]);
            } else if i < 8 {
                assert(enc[i] == head[i] && head[i] == e1[i - 4]);
                assert(data.subrange(4, 8)[i - 4] == data[i]);
            } else if i < 12 {
                assert(enc[i] == head[i] && head[i] == e2[i - 8]);
                assert(data.subrange(8, 12)[i - 8] == data[i]);
            } else if i < 16 {
                assert(enc[i] == head[i] && head[i] == e3[i - 12]);
                assert(data.subrange(12, 16)[i - 12] == data[i]);
            } else if i < fe {
                assert(enc[i] == head[i] && head[i] == payload[i - 16]);
                assert(data.subrange(16, fe)[i - 16] == data[i]);
            } else if i < fe + p8 {
                assert(enc[i] == zero_pad(fe, 8)[i - fe]);
                assert(data.subrange(fe, fe + p8)[i - fe] == data[i]);
            } else {
                assert(enc[i] == v.body[i - fe - p8]);
                assert(data.subrange(fe + p8, data.len() as int)[i - fe - p8] == data[i]);
            }
        }
    }
}

impl Message {
    /// Unmarshals a message, failing closed: any mismatch with the wire
    /// shape rejects the whole message. Decoding inverts encoding: the
    /// wire form of any well-formed message within the size limit decodes
    /// to exactly that message, in either byte order, and anything decoded
    /// successfully is the wire form of what it decodes to. Input over
    /// 2^27 bytes is rejected outright.
    #[verifier::loop_isolation(false)]
    #[verifier::rlimit(100)]
    pub fn decode(bytes: Vec<u8>) -> (r: Result<Message, DecodeError>)
        ensures
            match r {
                Ok(msg) => msg_encodes_to(msg@, bytes@),
                Err(e) => bytes@.len() > MAX_MESSAGE_SIZE ==> e == DecodeError::SizeExceeded,
            },
            bytes@.len() > MAX_MESSAGE_SIZE ==> r is Err,
            forall|m: MessageView| #[trigger]
                msg_encodes_to(m, bytes@) ==> (r matches Ok(msg) && msg@ == m),
    {
        let ghost data = bytes@;
        if bytes.len() > MAX_MESSAGE_SIZE {
            return Err(DecodeError::SizeExceeded);
        }
        if bytes.len() < 16 {
            proof {
                assert forall|m: MessageView| !msg_encodes_to(m, data) by {
                    if msg_encodes_to(m, data) {
                        lemma_encoding_parts(m, data);
                    }
                }
            }
            return Err(DecodeError::Truncated);
        }
        let eb = bytes[0];
        let endianness = if eb == 0x6c {
            Endianness::Little
        } else if eb == 0x42 {
            Endianness::Big
        } else {
            proof {
                assert forall|m: MessageView| !msg_encodes_to(m, data) by {
                    if msg_encodes_to(m, data) {
                        lemma_encoding_parts(m, data);
                    }
                }
            }
            return Err(DecodeError::InvalidEndianness);
        };
        let ghost e = endianness;
        proof {
            assert forall|m: MessageView| msg_encodes_to(m, data) implies m.header.endianess_flag
                == e by {
                lemma_encoding_parts(m, data);
            }
        }
        let mut rd = DbusReader::new(bytes, endianness);
        let _r0 = rd.read_u8();
        let tb = match rd.read_u8() {
            Ok(b) => b,
            Err(_) => {
                proof {
                    assert(false);
                }
                return Err(DecodeError::Truncated);
            },
        };
        let message_type = match message_type_from_byte(tb) {
            Some(t) => t,
            None => {
                proof {
                    assert forall|m: MessageView| !msg_encodes_to(m, data) by {
                        if msg_encodes_to(m, data) {
                            lemma_encoding_parts(m, data);
                        }
                    }
                }
                return Err(DecodeError::InvalidMessageType);
            },
        };
        let flags = match rd.read_u8() {
            Ok(b) => b,
            Err(_) => {
                proof {
                    assert(false);
                }
                return Err(DecodeError::Truncated);
            },
        };
        let ver = match rd.read_u8() {
            Ok(b) => b,
            Err(_) => {
                proof {
                    assert(false);
                }
                return Err(DecodeError::Truncated);
            },
        };
        proof {
            lemma_pad_len(4, 4);
            lemma_pad_len(8, 4);
            lemma_pad_len(12, 4);
        }
        let lenb = match rd.read_u32() {
            Ok(v) => v,
            Err(_) => {
                proof {
                    assert(false);
                }
                return Err(DecodeError::Truncated);
            },
        };
        let serial = match rd.read_u32() {
            Ok(v) => v,
            Err(_) => {
                proof {
                    assert(false);
                }
                return Err(DecodeError::Truncated);
            },
        };
        if serial == 0 {
            proof {
                assert forall|m: MessageView| !msg_encodes_to(m, data) by {
                    if msg_encodes_to(m, data) {
                        lemma_encoding_parts(m, data);
                        lemma_u32_round_trip(e, m.header.serial);
                    }
                }
            }
            return Err(DecodeError::ZeroSerial);
        }
        let flen = match rd.read_u32() {
            Ok(v) => v,
            Err(_) => {
                proof {
                    assert(false);
                }
                return Err(DecodeError::Truncated);
            },
        };
        assert(rd.pos == 16);
        proof {
            assert forall|m: MessageView| msg_encodes_to(m, data) implies 16 + fields_bytes(
                m.header.header_fields,
                16,
                e,
            ).len() == 16 + flen as int by {
                lemma_encoding_parts(m, data);
                let payload = fields_bytes(m.header.header_fields, 16, e);
                lemma_u32_round_trip(e, payload.len() as u32);
                assert(data.subrange(12, 16) =~= spec_enc_u32(e, payload.len() as u32));
                assert(payload.len() <= data.len());
            }
        }
        if (flen as usize) > rd.data.len() - 16 {
            proof {
                assert forall|m: MessageView| !msg_encodes_to(m, data) by {
                    if msg_encodes_to(m, data) {
                        lemma_encoding_parts(m, data);
                        lemma_pad_len(16 + fields_bytes(m.header.header_fields, 16, e).len() as int, 8);
                    }
                }
            }
            return Err(DecodeError::Truncated);
        }
        let fields_end: usize = 16 + flen as usize;
        let mut fields: Vec<HeaderField> = Vec::new();
        proof {
            assert(fields@.map_values(|f: HeaderField| f@) =~= Seq::<HeaderFieldView>::empty());
            assert(data.subrange(16, 16) =~= fields_bytes(
                fields@.map_values(|f: HeaderField| f@),
                16,
                e,
            ));
            assert forall|m: MessageView| #[trigger]
                msg_encodes_to(m, data) implies m.header.header_fields.take(0)
                =~= fields@.map_values(|f: HeaderField| f@) && data.subrange(
                16,
                fields_end as int,
            ) =~= fields_bytes(m.header.header_fields.skip(0), 16, e) by {
                lemma_encoding_parts(m, data);
                assert(m.header.header_fields.skip(0) =~= m.header.header_fields);
                assert(m.header.header_fields.take(0) =~= Seq::<HeaderFieldView>::empty());
            }
        }
        while rd.pos < fields_end
            invariant
                rd.wf(),
                rd.endianness == e,
                rd.data@ == data,
                16 <= rd.pos <= fields_end,
                forall|j: int|
                    0 <= j < fields@.len() ==> field_error((#[trigger] fields@[j])@) is None,
                data.subrange(16, rd.pos as int) == fields_bytes(
                    fields@.map_values(|f: HeaderField| f@),
                    16,
                    e,
                ),
                forall|m: MessageView| #[trigger] msg_encodes_to(m, data) ==> {
                    let k = fields@.len() as int;
                    &&& k <= m.header.header_fields.len()
                    &&& fields@.map_values(|f: HeaderField| f@) =~= m.header.header_fields.take(k)
                    &&& data.subrange(rd.pos as int, fields_end as int) =~= fields_bytes(
                        m.header.header_fields.skip(k),
                        rd.pos as int,
                        e,
                    )
                },
            decreases fields_end - rd.pos,
        {
            let ghost fpos = rd.pos as int;
            let ghost fviews = fields@.map_values(|f: HeaderField| f@);
            let ghost k = fields@.len() as int;
            proof {
                assert forall|m: MessageView| msg_encodes_to(m, data) implies k
                    < m.header.header_fields.len() && field_at(
                    data,
                    fpos,
                    e,
                    m.header.header_fields[k],
                ) by {
                    let fs = m.header.header_fields;
                    if k == fs.len() {
                        assert(fs.skip(k) =~= Seq::<HeaderFieldView>::empty());
                        assert(data.subrange(fpos, fields_end as int).len() == 0);
                        assert(false);
                    }
                    assert(fs.skip(k)[0] == fs[k]);
                    let fb = field_bytes(fs[k], fpos, e);
                    assert(fields_bytes(fs.skip(k), fpos, e) == fb + fields_bytes(
                        fs.skip(k).drop_first(),
                        fpos + fb.len(),
                        e,
                    ));
                    assert(fpos + fb.len() <= fields_end);
                    lemma_first_field_error_none_all(fs);
                    assert forall|j: int|
                        0 <= j < fb.len() implies data.subrange(fpos, fpos + fb.len())[j]
                        == fb[j] by {
                        assert(data.subrange(fpos, fields_end as int)[j] == fields_bytes(
                            fs.skip(k),
                            fpos,
                            e,
                        )[j]);
                        assert(fields_bytes(fs.skip(k), fpos, e)[j] == fb[j]);
                    }
                    assert(data.subrange(fpos, fpos + fb.len()) =~= fb);
                }
            }
            match read_header_field(&mut rd) {
                Ok(fld) => {
                    proof {
                        assert forall|m: MessageView| msg_encodes_to(m, data) implies fld@
                            == m.header.header_fields[k] && rd.pos as int == fpos + field_bytes(
                            m.header.header_fields[k],
                            fpos,
                            e,
                        ).len() by {
                            lemma_field_at_unique(data, fpos, e, fld@, m.header.header_fields[k]);
                        }
                    }
                    if rd.pos > fields_end {
                        proof {
                            assert forall|m: MessageView| !msg_encodes_to(m, data) by {
                                if msg_encodes_to(m, data) {
                                    let fs = m.header.header_fields;
                                    let fb = field_bytes(fs[k], fpos, e);
                                    assert(fields_bytes(fs.skip(k), fpos, e) == fb + fields_bytes(
                                        fs.skip(k).drop_first(),
                                        fpos + fb.len(),
                                        e,
                                    ));
                                    assert(fpos + fb.len() <= fields_end);
                                }
                            }
                        }
                        return Err(DecodeError::Truncated);
                    }
                    let ghost prelen = fields_bytes(fviews, 16, e).len();
                    fields.push(fld);
                    proof {
                        assert(fields@.map_values(|f: HeaderField| f@) =~= fviews.push(fld@));
                        lemma_fields_bytes_snoc(fviews, fld@, 16, e);
                        assert(16 + prelen == fpos);
                        assert(data.subrange(16, rd.pos as int) =~= fields_bytes(
                            fviews.push(fld@),
                            16,
                            e,
                        )) by {
                            assert(fields_bytes(fviews.push(fld@), 16, e) == fields_bytes(
                                fviews,
                                16,
                                e,
                            ) + field_bytes(fld@, fpos, e));
                            assert forall|j: int|
                                0 <= j < rd.pos - 16 implies data.subrange(16, rd.pos as int)[j]
                                == (fields_bytes(fviews, 16, e) + field_bytes(fld@, fpos, e))[j] by {
                                if j < prelen {
                                    assert(data.subrange(16, fpos)[j] == fields_bytes(
                                        fviews,
                                        16,
                                        e,
                                    )[j]);
                                } else {
                                    assert(data.subrange(fpos, rd.pos as int)[j - prelen]
                                        == field_bytes(fld@, fpos, e)[j - prelen]);
                                }
                            }
                        }
                        assert forall|m: MessageView| #[trigger] msg_encodes_to(m, data) implies {
                            let k2 = fields@.len() as int;
                            &&& k2 <= m.header.header_fields.len()
                            &&& fields@.map_values(|f: HeaderField| f@)
                                =~= m.header.header_fields.take(k2)
                            &&& data.subrange(rd.pos as int, fields_end as int) =~= fields_bytes(
                                m.header.header_fields.skip(k2),
                                rd.pos as int,
                                e,
                            )
                        } by {
                            let fs = m.header.header_fields;
                            let fb = field_bytes(fs[k], fpos, e);
                            assert(fs.take(k + 1) =~= fs.take(k).push(fs[k]));
                            assert(fs.skip(k).drop_first() =~= fs.skip(k + 1));
                            assert(fields_bytes(fs.skip(k), fpos, e) == fb + fields_bytes(
                                fs.skip(k + 1),
                                fpos + fb.len(),
                                e,
                            ));
                            assert forall|j: int|
                                0 <= j < fields_end - rd.pos implies data.subrange(
                                rd.pos as int,
                                fields_end as int,
                            )[j] == fields_bytes(fs.skip(k + 1), rd.pos as int, e)[j] by {
                                assert(data.subrange(fpos, fields_end as int)[rd.pos - fpos + j]
                                    == fields_bytes(fs.skip(k), fpos, e)[rd.pos - fpos + j]);
                            }
                        }
                    }
                },
                Err(err) => {
                    proof {
                        assert forall|m: MessageView| !msg_encodes_to(m, data) by {
                            if msg_encodes_to(m, data) {
                                assert(field_at(data, fpos, e, m.header.header_fields[k]));
                            }
                        }
                    }
                    return Err(err);
                },
            }
        }
        assert(rd.pos == fields_end);
        let ghost fviews = fields@.map_values(|f: HeaderField| f@);
        proof {
            assert forall|m: MessageView| msg_encodes_to(m, data) implies fviews
                =~= m.header.header_fields && fviews.len() == m.header.header_fields.len() by {
                let fs = m.header.header_fields;
                let k = fields@.len() as int;
                if k < fs.len() {
                    assert(fs.skip(k)[0] == fs[k]);
                    let fb = field_bytes(fs[k], fields_end as int, e);
                    assert(fields_bytes(fs.skip(k), fields_end as int, e) == fb + fields_bytes(
                        fs.skip(k).drop_first(),
                        fields_end + fb.len(),
                        e,
                    ));
                    assert(fields_bytes(fs.skip(k), fields_end as int, e).len() == 0);
                    assert(fb.len() >= 1);
                    assert(false);
                }
                assert(fs.take(k) =~= fs);
            }
        }
        match rd.align_to(8) {
            Ok(()) => {},
            Err(err) => {
                proof {
                    assert forall|m: MessageView| !msg_encodes_to(m, data) by {
                        if msg_encodes_to(m, data) {
                            lemma_encoding_parts(m, data);
                            lemma_u32_round_trip(e, fields_bytes(m.header.header_fields, 16, e).len() as u32);
                        }
                    }
                }
                return Err(err);
            },
        }
        let body_start = rd.pos;
        let remaining = rd.data.len() - body_start;
        proof {
            assert forall|m: MessageView| msg_encodes_to(m, data) implies remaining
                == m.body.len() && lenb == m.header.length_message_body by {
                lemma_encoding_parts(m, data);
                lemma_u32_round_trip(e, m.header.length_message_body);
                assert(data.subrange(4, 8) =~= spec_enc_u32(e, m.header.length_message_body));
            }
        }
        if remaining < lenb as usize {
            proof {
                assert forall|m: MessageView| !msg_encodes_to(m, data) by {
                    if msg_encodes_to(m, data) {
                        assert(m.header.length_message_body == m.body.len());
                    }
                }
            }
            return Err(DecodeError::Truncated);
        }
        if remaining > lenb as usize {
            proof {
                assert forall|m: MessageView| !msg_encodes_to(m, data) by {
                    if msg_encodes_to(m, data) {
                        assert(m.header.length_message_body == m.body.len());
                    }
                }
            }
            return Err(DecodeError::TrailingBytes);
        }
        let body_data = rd.copy_range(body_start, remaining);
        let msg = Message {
            header: Header {
                endianess_flag: endianness,
                message_type,
                flags: HeaderFlags(flags),
                major_protocol_version: MajorProtocolVersion(ver),
                length_message_body: lenb,
                serial: Serial(serial),
                header_fields: fields,
            },
            body: Body { data: body_data },
        };
        if !check_mandatory(msg.header.message_type, &msg.header.header_fields) {
            proof {
                assert forall|m: MessageView| !msg_encodes_to(m, data) by {
                    if msg_encodes_to(m, data) {
                        lemma_encoding_parts(m, data);
                        assert(m.header.message_type == message_type);
                        assert(mandatory_fields_present(m.header.message_type, m.header.header_fields));
                    }
                }
            }
            return Err(DecodeError::MissingRequiredField);
        }
        let blen = msg.body.data.len();
        if blen > 0 && !check_body_signature(&msg.header.header_fields) {
            proof {
                assert forall|m: MessageView| !msg_encodes_to(m, data) by {
                    if msg_encodes_to(m, data) {
                        lemma_encoding_parts(m, data);
                    }
                }
            }
            return Err(DecodeError::BodyWithoutSignature);
        }
        proof {
            lemma_first_field_error_none(fviews);
            assert(msg_validation_error(msg@) is None);
            lemma_u32_dec_enc(e, data.subrange(4, 8));
            lemma_u32_dec_enc(e, data.subrange(8, 12));
            lemma_u32_dec_enc(e, data.subrange(12, 16));
            assert(msg@.header.header_fields =~= fviews);
            assert(fields_bytes(msg@.header.header_fields, 16, e).len() == flen as int);
            assert(data[1] == tb && spec_message_type_byte(message_type) == tb);
            lemma_decode_assemble(msg@, data, fields_end as int);
            assert(msg_encodes_to(msg@, data));
            assert forall|m: MessageView| #[trigger] msg_encodes_to(m, data) implies msg@ == m by {
                lemma_encoding_parts(m, data);
                assert(m.header.message_type == message_type);
                assert(m.header.flags == flags);
                assert(m.header.major_protocol_version == ver);
                lemma_u32_round_trip(e, m.header.serial);
                assert(data.subrange(8, 12) =~= spec_enc_u32(e, m.header.serial));
                assert(m.header.serial == serial);
                assert(m.header.header_fields =~= msg@.header.header_fields);
                let fe = 16 + fields_bytes(m.header.header_fields, 16, e).len() as int;
                assert(fe == fields_end);
                assert(m.body =~= data.subrange(
                    fe + pad_len(fe, 8),
                    data.len() as int,
                ));
                assert(msg@.body =~= m.body);
                assert(msg@.header =~= m.header);
                assert(msg@ =~= m);
            }
        }
        Ok(msg)
    }
}

/// The byte a field code travels as on the wire.
pub open spec fn spec_field_code_byte(c: HeaderFieldCode) -> u8 {
    match c {
        HeaderFieldCode::Invalid => 0,
        HeaderFieldCode::Path => 1,
        HeaderFieldCode::Interface => 2,
        HeaderFieldCode::Member => 3,
        HeaderFieldCode::ErrorName => 4,
        HeaderFieldCode::ReplySerial => 5,
        HeaderFieldCode::Destination => 6,
        HeaderFieldCode::Sender => 7,
        HeaderFieldCode::Signature => 8,
        HeaderFieldCode::UnixFds => 9,
    }
}

impl HeaderFieldCode {
    /// The byte this code travels as.
    pub fn byte(&self) -> (b: u8)
        ensures
            b == spec_field_code_byte(*self),
    {
        match self {
            HeaderFieldCode::Invalid => 0,
            HeaderFieldCode::Path => 1,
            HeaderFieldCode::Interface => 2,
            HeaderFieldCode::Member => 3,
            HeaderFieldCode::ErrorName => 4,
            HeaderFieldCode::ReplySerial => 5,
            HeaderFieldCode::Destination => 6,
            HeaderFieldCode::Sender => 7,
            HeaderFieldCode::Signature => 8,
            HeaderFieldCode::UnixFds => 9,
        }
    }
}

impl HeaderField {
    /// The code this field travels under.
    pub fn code(&self) -> (c: HeaderFieldCode)
        ensures
            spec_field_code_byte(c) == field_code(self@),
    {
        match self {
            HeaderField::Invalid => HeaderFieldCode::Invalid,
            HeaderField::Path(_) => HeaderFieldCode::Path,
            HeaderField::Interface(_) => HeaderFieldCode::Interface,
            HeaderField::Member(_) => HeaderFieldCode::Member,
            HeaderField::ErrorName(_) => HeaderFieldCode::ErrorName,
            HeaderField::ReplySerial(_) => HeaderFieldCode::ReplySerial,
            HeaderField::Destination(_) => HeaderFieldCode::Destination,
            HeaderField::Sender(_) => HeaderFieldCode::Sender,
            HeaderField::Signature(_) => HeaderFieldCode::Signature,
            HeaderField::UnixFds(_) => HeaderFieldCode::UnixFds,
        }
    }
}

/// The byte a field travels under on the wire.
pub fn header_field_code_byte(f: &HeaderField) -> (b: u8)
    ensures
        b == field_code(f@),
{
    f.code().byte()
}

impl DbusWrite for HeaderField {
    /// A field's value travels as its own wire type; the field code byte
    /// and the padding to the 8-byte element boundary are written by the
    /// header's fields array.
    open spec fn wire_bytes(&self, off: int, e: Endianness) -> Seq<u8> {
        field_value_bytes(self@, off, e)
    }

    open spec fn write_error(&self) -> Option<EncodeError> {
        field_error(self@)
    }

    /// Every field value's wire form depends on the offset through 4-byte
    /// alignment at most: strings and u32 values pad to 4, a signature not
    /// at all.
    open spec fn spec_alignment() -> int {
        4
    }

    fn alignment() -> (a: usize) {
        4
    }

    proof fn lemma_wire_bytes_shift(&self, off1: int, off2: int, e: Endianness) {
        assert(zero_pad(off1, 4) == zero_pad(off2, 4));
        assert(self.wire_bytes(off1, e) =~= self.wire_bytes(off2, e));
    }

    fn write(&self, writer: &mut DbusWriter) -> (r: Result<(), EncodeError>) {
        match self.validation() {
            Some(e) => {
                return Err(e);
            },
            None => {},
        }
        match self {
            HeaderField::Invalid => writer.write_invalid(),
            HeaderField::Path(p) => writer.write_string(p.0.as_str()),
            HeaderField::Interface(n) => writer.write_string(n.0.as_str()),
            HeaderField::Member(n) => writer.write_string(n.0.as_str()),
            HeaderField::ErrorName(n) => writer.write_string(n.0.as_str()),
            HeaderField::ReplySerial(s) => writer.write_u32(s.0),
            HeaderField::Destination(n) => writer.write_string(n.0.as_str()),
            HeaderField::Sender(n) => writer.write_string(n.0.as_str()),
            HeaderField::Signature(s) => writer.write_signature(Signature(s.0.clone())),
            HeaderField::UnixFds(n) => writer.write_u32(*n),
        }
    }
}

impl DbusWrite for Body {
    /// The body follows the 8-aligned header, so its bytes travel as they
    /// are, with no leading padding.
    open spec fn wire_bytes(&self, off: int, e: Endianness) -> Seq<u8> {
        self.data@
    }

    open spec fn write_error(&self) -> Option<EncodeError> {
        None
    }

    open spec fn spec_alignment() -> int {
        1
    }

    fn alignment() -> (a: usize) {
        1
    }

    proof fn lemma_wire_bytes_shift(&self, off1: int, off2: int, e: Endianness) {
    }

    fn write(&self, writer: &mut DbusWriter) -> (r: Result<(), EncodeError>) {
        writer.push_byte_seq(&self.data);
        Ok(())
    }
}

impl Header {
    /// Why this header cannot be marshaled, if anything, in the order the
    /// checks run.
    #[verifier::loop_isolation(false)]
    pub fn validation_error(&self) -> (r: Option<EncodeError>)
        ensures
            r == header_validation_error(self@),
    {
        let ghost fs = self.header_fields@.map_values(|f: HeaderField| f@);
        if message_type_byte(self.message_type) == 0 {
            return Some(EncodeError::InvalidMessageType);
        }
        if self.serial.0 == 0 {
            return Some(EncodeError::ZeroSerial);
        }
        let mut i: usize = 0;
        while i < self.header_fields.len()
            invariant
                0 <= i <= self.header_fields@.len(),
                fs == self.header_fields@.map_values(|f: HeaderField| f@),
                forall|j: int| 0 <= j < i ==> field_error(#[trigger] fs[j]) is None,
            decreases self.header_fields@.len() - i,
        {
            proof {
                assert(fs[i as int] == self.header_fields@[i as int]@);
            }
            match self.header_fields[i].validation() {
                Some(e) => {
                    proof {
                        lemma_first_field_error_at(fs, i as int);
                    }
                    return Some(e);
                },
                None => {},
            }
            i = i + 1;
        }
        proof {
            lemma_first_field_error_none(fs);
        }
        if !check_mandatory(self.message_type, &self.header_fields) {
            return Some(EncodeError::MissingRequiredField);
        }
        None
    }

    /// Marshals the header per the wire layout: the 16-byte prelude, the
    /// fields array with its u32 byte-length prefix, then zero padding to
    /// the 8-byte boundary where the body begins. An invalid header — the
    /// invalid message type, a zero serial, an unmarshalable field, a
    /// missing mandatory field — and one whose fields array outgrows its
    /// length prefix are rejected whole, before any byte is written.
    #[verifier::loop_isolation(false)]
    #[verifier::rlimit(50)]
    pub fn write(&self, writer: &mut DbusWriter) -> (r: Result<(), EncodeError>)
        requires
            old(writer).buf@.len() == 0,
            old(writer).endianness == self.endianess_flag,
        ensures
            final(writer).endianness == old(writer).endianness,
            match r {
                Ok(()) => header_validation_error(self@) is None && fields_bytes(
                    self@.header_fields,
                    16,
                    self.endianess_flag,
                ).len() <= u32::MAX && final(writer).buf@ == spec_header_bytes(self@),
                Err(e) => final(writer).buf@ == old(writer).buf@ && (match header_validation_error(
                    self@,
                ) {
                    Some(ve) => e == ve,
                    None => e == EncodeError::SizeExceeded && fields_bytes(
                        self@.header_fields,
                        16,
                        self.endianess_flag,
                    ).len() > u32::MAX,
                }),
            },
    {
        match self.validation_error() {
            Some(e) => {
                return Err(e);
            },
            None => {},
        }
        let ghost fs = self.header_fields@.map_values(|f: HeaderField| f@);
        let ghost e = self.endianess_flag;
        proof {
            lemma_first_field_error_none_all(fs);
        }
        let mut temp = DbusWriter::new(self.endianess_flag);
        let mut i: usize = 0;
        while i < self.header_fields.len()
            invariant
                0 <= i <= self.header_fields@.len(),
                temp.endianness == e,
                temp.buf@ == fields_bytes(fs.take(i as int), 16, e),
            decreases self.header_fields@.len() - i,
        {
            let f = &self.header_fields[i];
            proof {
                assert(fs[i as int] == self.header_fields@[i as int]@);
            }
            let ghost pre = temp.buf@;
            temp.pad_to(8);
            let code = header_field_code_byte(f);
            let _res = temp.write_u8(code);
            match f.write(&mut temp) {
                Ok(()) => {},
                Err(err) => {
                    // every field was validated above, so its write cannot fail
                    proof {
                        assert(false);
                    }
                    return Err(err);
                },
            }
            proof {
                assert(temp.buf@ =~= pre + field_bytes(fs[i as int], pre.len() as int, e));
                lemma_field_bytes_shift(fs[i as int], pre.len() as int, 16 + pre.len() as int, e);
                lemma_fields_bytes_snoc(fs.take(i as int), fs[i as int], 16, e);
                assert(fs.take(i as int + 1) =~= fs.take(i as int).push(fs[i as int]));
                assert(temp.buf@ == fields_bytes(fs.take(i as int + 1), 16, e));
            }
            i = i + 1;
        }
        proof {
            assert(fs.take(self.header_fields@.len() as int) =~= fs);
        }
        if temp.buf.len() > u32::MAX as usize {
            return Err(EncodeError::SizeExceeded);
        }
        let flen = temp.buf.len() as u32;
        let _r1 = writer.write_u8(endianness_byte(self.endianess_flag));
        let _r2 = writer.write_u8(message_type_byte(self.message_type));
        let _r3 = writer.write_u8(self.flags.0);
        let _r4 = writer.write_u8(self.major_protocol_version.0);
        let _r5 = writer.write_u32(self.length_message_body);
        let _r6 = writer.write_u32(self.serial.0);
        let _r7 = writer.write_u32(flen);
        writer.push_byte_seq(&temp.buf);
        writer.pad_to(8);
        proof {
            lemma_pad_len(4, 4);
            lemma_pad_len(8, 4);
            lemma_pad_len(12, 4);
            assert(zero_pad(4, 4) =~= Seq::<u8>::empty());
            assert(zero_pad(8, 4) =~= Seq::<u8>::empty());
            assert(zero_pad(12, 4) =~= Seq::<u8>::empty());
            lemma_u32_round_trip(e, self.length_message_body);
            lemma_u32_round_trip(e, self.serial.0);
            lemma_u32_round_trip(e, flen);
            assert(writer.buf@ =~= spec_header_bytes(self@));
        }
        Ok(())
    }
}

impl Message {
    /// Marshals the whole message in its header's byte order: the header,
    /// then exactly the body's bytes. An invalid message — the invalid
    /// type, a zero serial, a bad or missing field, a lying body length, a
    /// body with no signature — is rejected before any byte reaches the
    /// buffer, and one whose total encoding exceeds 2^27 bytes leaves the
    /// buffer as it was: never partially emitted.
    pub fn write(&self, writer: &mut DbusWriter) -> (r: Result<(), EncodeError>)
        requires
            old(writer).buf@.len() == 0,
            old(writer).endianness == self.header.endianess_flag,
        ensures
            final(writer).endianness == old(writer).endianness,
            r is Ok <==> msg_wf(self@) && spec_encode_message(self@).len() <= MAX_MESSAGE_SIZE,
            match r {
                Ok(()) => final(writer).buf@ == spec_encode_message(self@) && final(writer).buf@.len() <= MAX_MESSAGE_SIZE,
                Err(e) => final(writer).buf@ == old(writer).buf@ && (match msg_validation_error(
                    self@,
                ) {
                    Some(ve) => e == ve,
                    None => e == EncodeError::SizeExceeded && spec_encode_message(self@).len()
                        > MAX_MESSAGE_SIZE,
                }),
            },
    {
        match self.validation_error() {
            Some(e) => {
                return Err(e);
            },
            None => {},
        }
        match self.header.write(writer) {
            Ok(()) => {},
            Err(err) => {
                // the header validated, so only the fields array outgrowing
                // its u32 length prefix is left, and then the whole message
                // is far over the total size limit
                proof {
                    let e = self.header.endianess_flag;
                    let payload = fields_bytes(self@.header.header_fields, 16, e);
                    lemma_u32_round_trip(e, self.header.length_message_body);
                    lemma_u32_round_trip(e, self.header.serial.0);
                    lemma_u32_round_trip(e, payload.len() as u32);
                    assert(spec_encode_message(self@).len() > MAX_MESSAGE_SIZE);
                }
                return Err(err);
            },
        }
        let _r = self.body.write(writer);
        proof {
            assert(writer.buf@ == spec_encode_message(self@));
        }
        if writer.buf.len() > MAX_MESSAGE_SIZE {
            writer.buf.clear();
            return Err(EncodeError::SizeExceeded);
        }
        Ok(())
    }

    /// Marshals the message: an invalid message is rejected before any
    /// byte is produced, and a message whose total encoded size exceeds
    /// 2^27 bytes is rejected whole, never partially emitted.
    pub fn encode(&self) -> (r: Result<Vec<u8>, EncodeError>)
        ensures
            r is Ok <==> msg_wf(self@) && spec_encode_message(self@).len() <= MAX_MESSAGE_SIZE,
            match r {
                Ok(bytes) => msg_wf(self@) && bytes@ == spec_encode_message(self@)
                    && bytes@.len() <= MAX_MESSAGE_SIZE,
                Err(e) => match msg_validation_error(self@) {
                    Some(v) => e == v,
                    None => e == EncodeError::SizeExceeded && spec_encode_message(self@).len()
                        > MAX_MESSAGE_SIZE,
                },
            },
    {
        let mut w = DbusWriter::new(self.header.endianess_flag);
        match self.write(&mut w) {
            Ok(()) => Ok(w.into_bytes()),
            Err(e) => Err(e),
        }
    }

    /// Why this message cannot be marshaled, if anything, in the order the
    /// checks run.
    pub fn validation_error(&self) -> (r: Option<EncodeError>)
        ensures
            r == msg_validation_error(self@),
    {
        match self.header.validation_error() {
            Some(e) => {
                return Some(e);
            },
            None => {},
        }
        let blen = self.body.data.len();
        if blen > u32::MAX as usize || self.header.length_message_body != blen as u32 {
            return Some(EncodeError::BodyLengthMismatch);
        }
        if blen > 0 && !check_body_signature(&self.header.header_fields) {
            return Some(EncodeError::BodyWithoutSignature);
        }
        None
    }

    /// Builds a message from its parts, rejecting one that cannot be
    /// marshaled before any byte is written: a method call without a path
    /// or member, an Invalid-tagged field, a zero serial, a body length
    /// that lies, and the other validation failures.
    pub fn new(header: Header, body: Body) -> (r: Result<Message, EncodeError>)
        ensures
            ({
                let v = MessageView { header: header@, body: body@ };
                match r {
                    Ok(m) => m@ == v && msg_wf(v),
                    Err(e) => msg_validation_error(v) == Some(e),
                }
            }),
    {
        let m = Message { header, body };
        match m.validation_error() {
            None => Ok(m),
            Some(e) => Err(e),
        }
    }
}

} // verus!
